//! MC/DC obligation records and their ids.
//!
//! An id is the file's module path, the enclosing `fn` name (when there is
//! one) and a short content hash of the decision's text, joined with `_`,
//! e.g. `btree_delete_remove_f97051a9`. Neither part depends on the line
//! number; the hash ignores how the decision's whitespace is laid out.

use vstd::prelude::*;

use crate::lines::{is_white, is_white_char, rfind_from};
use crate::predicate::{find_char, lemma_find_char, next_char, spells, text_chars};
use crate::text::push_str;

verus! {

/// The serializable record of one MC/DC obligation.
#[derive(Debug, Clone, PartialEq, Eq)]
pub struct ObligationRecord {
    pub id: String,
    pub file: String,
    pub line: usize,
    pub decision: String,
    pub conditions: usize,
    pub vectors_required: usize,
    pub compiler_void: bool,
    /// An exhaustive `match` made so by a `_` arm rather than by naming
    /// every variant.
    pub wildcard_risk: bool,
}

// ── Slugs ──────────────────────────────────────────────────────────────────

pub open spec fn is_ascii_alnum(c: char) -> bool {
    ('0' <= c && c <= '9') || ('a' <= c && c <= 'z') || ('A' <= c && c <= 'Z')
}

/// `s` with every character other than an ASCII letter or digit replaced
/// by `_`.
pub open spec fn slug(s: Seq<char>) -> Seq<char> {
    s.map_values(|c: char| if is_ascii_alnum(c) { c } else { '_' })
}

fn slug_chars_into(text: &str, s: &Vec<char>, a: usize, b: usize, out: &mut String)
    requires
        s@ == text@,
        a <= b <= s.len(),
    ensures
        final(out)@ == old(out)@ + slug(s@.subrange(a as int, b as int)),
{
    proof {
        reveal_strlit("_");
    }
    let mut i = a;
    while i < b
        invariant
            a <= i <= b <= s.len(),
            s@ == text@,
            out@ == old(out)@ + slug(s@.subrange(a as int, i as int)),
        decreases b - i,
    {
        proof {
            reveal_strlit("_");
        }
        let c = s[i];
        assert(text@.subrange(i as int, i + 1) =~= seq![c]);
        if ('0' <= c && c <= '9') || ('a' <= c && c <= 'z') || ('A' <= c && c <= 'Z') {
            push_str(out, text.substring_char(i, i + 1));
        } else {
            push_str(out, "_");
        }
        assert(slug(s@.subrange(a as int, i + 1)) =~= slug(s@.subrange(a as int, i as int)).push(
            if is_ascii_alnum(c) {
                c
            } else {
                '_'
            },
        ));
        assert(out@ =~= old(out)@ + slug(s@.subrange(a as int, i + 1)));
        i = i + 1;
    }
}

/// How a character of a module-path component is written in a module
/// slug: an ASCII letter or digit as itself, `_` as `_0`, anything else
/// as `_`. A `_` followed by `0` is thus always an underscore of the
/// component, and a `_` followed by anything else joins two components
/// (no module name starts with a digit).
pub open spec fn escape_char(c: char) -> Seq<char> {
    if is_ascii_alnum(c) {
        seq![c]
    } else if c == '_' {
        seq!['_', '0']
    } else {
        seq!['_']
    }
}

/// A module-path component as written in a module slug.
pub open spec fn module_piece(s: Seq<char>) -> Seq<char>
    decreases s.len(),
{
    if s.len() == 0 {
        Seq::empty()
    } else {
        module_piece(s.drop_last()) + escape_char(s.last())
    }
}

fn module_piece_into(text: &str, s: &Vec<char>, a: usize, b: usize, out: &mut String)
    requires
        s@ == text@,
        a <= b <= s.len(),
    ensures
        final(out)@ == old(out)@ + module_piece(s@.subrange(a as int, b as int)),
{
    proof {
        reveal_strlit("_");
        reveal_strlit("_0");
    }
    let mut i = a;
    assert(s@.subrange(a as int, a as int) =~= Seq::<char>::empty());
    while i < b
        invariant
            a <= i <= b <= s.len(),
            s@ == text@,
            out@ == old(out)@ + module_piece(s@.subrange(a as int, i as int)),
        decreases b - i,
    {
        proof {
            reveal_strlit("_");
            reveal_strlit("_0");
        }
        let c = s[i];
        assert(text@.subrange(i as int, i + 1) =~= seq![c]);
        if ('0' <= c && c <= '9') || ('a' <= c && c <= 'z') || ('A' <= c && c <= 'Z') {
            push_str(out, text.substring_char(i, i + 1));
        } else if c == '_' {
            push_str(out, "_0");
        } else {
            push_str(out, "_");
        }
        assert(s@.subrange(a as int, i + 1).drop_last() =~= s@.subrange(a as int, i as int));
        assert(module_piece(s@.subrange(a as int, i + 1)) == module_piece(s@.subrange(a as int, i as int))
            + escape_char(c));
        assert(out@ =~= old(out)@ + module_piece(s@.subrange(a as int, i + 1)));
        i = i + 1;
    }
}

fn slugify(part: &str) -> (r: String)
    ensures
        r@ == slug(part@),
{
    let s = text_chars(part);
    let mut out = String::new();
    slug_chars_into(part, &s, 0, s.len(), &mut out);
    assert(s@.subrange(0, s.len() as int) =~= part@);
    assert(out@ =~= slug(part@));
    out
}

// ── Module paths ───────────────────────────────────────────────────────────

/// The `/`-separated pieces of `s` from position `i` on.
pub open spec fn pieces_from(s: Seq<char>, i: int) -> Seq<Seq<char>>
    decreases s.len() - i,
{
    if i < 0 || i > s.len() {
        Seq::empty()
    } else {
        let j = find_char(s, i, '/');
        if j < s.len() {
            proof {
                lemma_find_char(s, i, '/');
            }
            seq![s.subrange(i, j)] + pieces_from(s, j + 1)
        } else {
            seq![s.subrange(i, s.len() as int)]
        }
    }
}

/// A path's named components: its pieces other than empty ones (repeated
/// or leading/trailing separators), `.` and `..`.
pub open spec fn named(ps: Seq<Seq<char>>) -> Seq<Seq<char>>
    decreases ps.len(),
{
    if ps.len() == 0 {
        ps
    } else {
        let prev = named(ps.drop_last());
        let p = ps.last();
        if p.len() == 0 || p == "."@ || p == ".."@ {
            prev
        } else {
            prev.push(p)
        }
    }
}

pub open spec fn components(file: Seq<char>) -> Seq<Seq<char>> {
    named(pieces_from(file, 0))
}

/// The position of the last `src` component.
pub open spec fn last_src(cs: Seq<Seq<char>>) -> Option<int>
    decreases cs.len(),
{
    if cs.len() == 0 {
        None
    } else if cs.last() == "src"@ {
        Some(cs.len() - 1)
    } else {
        last_src(cs.drop_last())
    }
}

/// The file name without its last extension: everything before the last
/// `.`, unless that `.` is the first character (or there is none).
pub open spec fn file_stem(name: Seq<char>) -> Seq<char> {
    match rfind_from(name, "."@, name.len() - 1) {
        Some(d) => if d == 0 || name == ".."@ {
            name
        } else {
            name.take(d)
        },
        None => name,
    }
}

/// The module path's components: after the last `src` (or the whole path),
/// the file's stem in place of the file name, `mod` dropped when it has a
/// directory.
pub open spec fn module_parts(file: Seq<char>) -> Seq<Seq<char>> {
    let cs = components(file);
    let start = match last_src(cs) {
        Some(k) => k + 1,
        None => 0,
    };
    let parts = cs.subrange(start, cs.len() as int);
    if parts.len() == 0 {
        parts
    } else {
        let stem = file_stem(parts.last());
        let init = parts.drop_last();
        if stem != "mod"@ || init.len() == 0 {
            init.push(stem)
        } else {
            init
        }
    }
}

/// `ps` joined with `_`.
pub open spec fn join_underscore(ps: Seq<Seq<char>>) -> Seq<char>
    decreases ps.len(),
{
    if ps.len() == 0 {
        Seq::empty()
    } else if ps.len() == 1 {
        ps[0]
    } else {
        join_underscore(ps.drop_last()) + "_"@ + ps.last()
    }
}

pub open spec fn spec_module_slug(file: Seq<char>) -> Seq<char> {
    let j = join_underscore(module_parts(file).map_values(|p: Seq<char>| module_piece(p)));
    if j.len() == 0 {
        "obligation"@
    } else {
        j
    }
}

fn piece_spans(s: &Vec<char>) -> (r: Vec<(usize, usize)>)
    ensures
        r@.len() == pieces_from(s@, 0).len(),
        forall|k: int|
            0 <= k < r@.len() ==> {
                &&& (#[trigger] r@[k]).0 <= r@[k].1 <= s.len()
                &&& s@.subrange(r@[k].0 as int, r@[k].1 as int) == pieces_from(s@, 0)[k]
            },
{
    let mut out: Vec<(usize, usize)> = Vec::new();
    let mut i: usize = 0;
    let ghost done: Seq<Seq<char>> = Seq::empty();
    loop
        invariant
            i <= s.len(),
            done + pieces_from(s@, i as int) == pieces_from(s@, 0),
            out@.len() == done.len(),
            forall|k: int|
                0 <= k < out@.len() ==> {
                    &&& (#[trigger] out@[k]).0 <= out@[k].1 <= s.len()
                    &&& s@.subrange(out@[k].0 as int, out@[k].1 as int) == done[k]
                },
        decreases s.len() - i,
    {
        proof {
            lemma_find_char(s@, i as int, '/');
        }
        let j = next_char(s, i, '/');
        let ghost piece = s@.subrange(i as int, j as int);
        out.push((i, j));
        if j < s.len() {
            proof {
                assert(pieces_from(s@, i as int) == seq![piece] + pieces_from(s@, j + 1));
                assert(done + pieces_from(s@, i as int) =~= done.push(piece) + pieces_from(s@, j + 1));
                done = done.push(piece);
            }
            i = j + 1;
        } else {
            proof {
                assert(pieces_from(s@, i as int) == seq![piece]);
                assert(done + pieces_from(s@, i as int) =~= done.push(piece));
                done = done.push(piece);
            }
            return out;
        }
    }
}

/// The module-path part of an obligation id: the components after the last
/// `src` component (or all of them), `mod.rs` standing for its directory,
/// each written with [`escape_char`] and joined with `_`; `obligation`
/// when nothing is left.
pub fn module_slug(file: &str) -> (r: String)
    ensures
        r@ == spec_module_slug(file@),
{
    proof {
        reveal_strlit("_");
    }
    let s = text_chars(file);
    let pieces = piece_spans(&s);
    let ghost ps = pieces_from(s@, 0);
    // named components
    let mut comps: Vec<(usize, usize)> = Vec::new();
    let mut k: usize = 0;
    while k < pieces.len()
        invariant
            k <= pieces.len(),
            ps == pieces_from(s@, 0),
            pieces@.len() == ps.len(),
            forall|q: int|
                0 <= q < pieces@.len() ==> {
                    &&& (#[trigger] pieces@[q]).0 <= pieces@[q].1 <= s.len()
                    &&& s@.subrange(pieces@[q].0 as int, pieces@[q].1 as int) == ps[q]
                },
            comps@.len() == named(ps.take(k as int)).len(),
            forall|q: int|
                0 <= q < comps@.len() ==> {
                    &&& (#[trigger] comps@[q]).0 <= comps@[q].1 <= s.len()
                    &&& s@.subrange(comps@[q].0 as int, comps@[q].1 as int) == named(
                        ps.take(k as int),
                    )[q]
                },
        decreases pieces.len() - k,
    {
        let (a, b) = pieces[k];
        proof {
            assert(ps.take(k + 1).drop_last() =~= ps.take(k as int));
            assert(ps.take(k + 1).last() == ps[k as int]);
        }
        let ghost before = named(ps.take(k as int));
        if !(a == b || spells(&s, a, b, ".") || spells(&s, a, b, "..")) {
            comps.push((a, b));
            proof {
                let after = named(ps.take(k + 1));
                assert(after == before.push(ps[k as int]));
                assert forall|q: int| 0 <= q < comps@.len() implies {
                    &&& (#[trigger] comps@[q]).0 <= comps@[q].1 <= s.len()
                    &&& s@.subrange(comps@[q].0 as int, comps@[q].1 as int) == after[q]
                } by {
                    if q < before.len() {
                        assert(after[q] == before[q]);
                    }
                }
            }
        } else {
            proof {
                if a == b {
                    assert(ps[k as int].len() == 0);
                }
            }
        }
        k = k + 1;
    }
    let ghost cs = components(file@);
    assert(ps.take(pieces.len() as int) =~= ps);
    assert(cs == named(ps));
    // the last `src`
    let mut start: usize = 0;
    let mut q = comps.len();
    assert(cs.take(q as int) =~= cs);
    while q > 0 && start == 0
        invariant
            q <= comps@.len(),
            comps@.len() == cs.len(),
            forall|z: int|
                0 <= z < comps@.len() ==> {
                    &&& (#[trigger] comps@[z]).0 <= comps@[z].1 <= s.len()
                    &&& s@.subrange(comps@[z].0 as int, comps@[z].1 as int) == cs[z]
                },
            start == 0 ==> last_src(cs) == last_src(cs.take(q as int)),
            start != 0 ==> last_src(cs) == Some(start - 1) && start <= cs.len(),
        decreases q + if start == 0 {
            1int
        } else {
            0int
        },
    {
        assert(cs.take(q as int).drop_last() =~= cs.take(q - 1));
        assert(cs.take(q as int).last() == cs[q - 1]);
        let (a, b) = comps[q - 1];
        if spells(&s, a, b, "src") {
            start = q;
        } else {
            q = q - 1;
        }
    }
    proof {
        if start == 0 {
            assert(cs.take(0) =~= Seq::<Seq<char>>::empty());
        }
    }
    assert(start as int == match last_src(cs) {
        Some(k) => k + 1,
        None => 0,
    });
    let ghost parts = cs.subrange(start as int, cs.len() as int);
    let ghost mparts = module_parts(file@);
    let ghost slugs = mparts.map_values(|p: Seq<char>| module_piece(p));
    let mut out = String::new();
    if start < comps.len() {
        let n = comps.len();
        let (la, lb) = comps[n - 1];
        let ghost last = cs[n - 1];
        assert(parts.last() == last);
        // the stem of the last component
        let mut d = lb;
        let mut found = false;
        while d > la && !found
            invariant
                la <= d <= lb <= s.len(),
                last == s@.subrange(la as int, lb as int),
                !found ==> rfind_from(last, "."@, last.len() - 1) == rfind_from(last, "."@, d - la - 1),
                found ==> rfind_from(last, "."@, last.len() - 1) == Some(d - la - 1) && d > la,
            decreases d + if found {
                0int
            } else {
                1int
            },
        {
            let hit = spells(&s, d - 1, d, ".");
            proof {
                reveal_strlit(".");
                assert(s@.subrange(d - 1, d as int) =~= last.subrange(d - 1 - la, d - la));
            }
            if hit {
                found = true;
            } else {
                d = d - 1;
            }
        }
        let stem_end = if found && d - 1 > la && !spells(&s, la, lb, "..") {
            d - 1
        } else {
            lb
        };
        proof {
            if !found {
                assert(rfind_from(last, "."@, -1) is None);
            }
            if stem_end < lb {
                assert(last.take(d - 1 - la) =~= s@.subrange(la as int, stem_end as int));
            }
        }
        let ghost stem = s@.subrange(la as int, stem_end as int);
        assert(stem == file_stem(last));
        let keep_last = !spells(&s, la, stem_end, "mod") || start + 1 == n;
        let ghost init = parts.drop_last();
        let ghost expected = if keep_last {
            init.push(stem)
        } else {
            init
        };
        assert(mparts == expected);
        // join the slugs of init, then of the stem
        let mut z = start;
        while z < n - 1
            invariant
                start <= z <= n - 1,
                n == comps@.len(),
                n == cs.len(),
                parts == cs.subrange(start as int, cs.len() as int),
                init == parts.drop_last(),
                s@ == file@,
                forall|w: int|
                    0 <= w < comps@.len() ==> {
                        &&& (#[trigger] comps@[w]).0 <= comps@[w].1 <= s.len()
                        &&& s@.subrange(comps@[w].0 as int, comps@[w].1 as int) == cs[w]
                    },
                out@ == join_underscore(
                    init.take(z - start).map_values(|p: Seq<char>| module_piece(p)),
                ),
            decreases n - 1 - z,
        {
            let (a, b) = comps[z];
            let ghost prev = init.take(z - start).map_values(|p: Seq<char>| module_piece(p));
            let ghost next = init.take(z - start + 1).map_values(|p: Seq<char>| module_piece(p));
            assert(next.drop_last() =~= prev);
            assert(init[z - start] == cs[z as int]);
            assert(next.last() == module_piece(cs[z as int]));
            if z > start {
                push_str(&mut out, "_");
            }
            module_piece_into(file, &s, a, b, &mut out);
            proof {
                if z == start {
                    assert(next.len() == 1);
                }
                assert(out@ =~= join_underscore(next));
            }
            z = z + 1;
        }
        assert(init.take(n - 1 - start) =~= init);
        if keep_last {
            let ghost prev = init.map_values(|p: Seq<char>| module_piece(p));
            assert(slugs =~= prev.push(module_piece(stem)));
            if n - 1 > start {
                push_str(&mut out, "_");
            }
            module_piece_into(file, &s, la, stem_end, &mut out);
            proof {
                assert(slugs.drop_last() =~= prev);
                if n - 1 == start {
                    assert(slugs.len() == 1);
                }
                assert(out@ =~= join_underscore(slugs));
            }
        } else {
            assert(slugs =~= init.map_values(|p: Seq<char>| module_piece(p)));
        }
        proof {
            lemma_named_nonempty(ps);
            assert(cs[n - 1].len() > 0);
            if keep_last {
                assert(slugs.last() == module_piece(stem));
            } else {
                assert(init.len() > 0);
                assert(init.last() == cs[n - 2]);
                assert(cs[n - 2].len() > 0);
                assert(slugs.last() == module_piece(init.last()));
            }
            if keep_last {
                lemma_piece_len(stem);
            } else {
                lemma_piece_len(init.last());
            }
            lemma_join_nonempty(slugs);
            assert(spec_module_slug(file@) == out@);
        }
        out
    } else {
        assert(mparts.len() == 0);
        assert(slugs.len() == 0);
        proof {
            reveal_strlit("obligation");
        }
        String::from_str("obligation")
    }
}

/// A component's written form is at least as long as the component.
pub proof fn lemma_piece_len(s: Seq<char>)
    ensures
        module_piece(s).len() >= s.len(),
    decreases s.len(),
{
    if s.len() > 0 {
        lemma_piece_len(s.drop_last());
    }
}

proof fn lemma_named_nonempty(ps: Seq<Seq<char>>)
    ensures
        forall|i: int| 0 <= i < named(ps).len() ==> (#[trigger] named(ps)[i]).len() > 0,
    decreases ps.len(),
{
    if ps.len() > 0 {
        lemma_named_nonempty(ps.drop_last());
        let prev = named(ps.drop_last());
        assert forall|i: int| 0 <= i < named(ps).len() implies (#[trigger] named(ps)[i]).len() > 0 by {
            if i < prev.len() {
                assert(named(ps)[i] == prev[i]);
            }
        }
    }
}

proof fn lemma_join_nonempty(ps: Seq<Seq<char>>)
    requires
        ps.len() > 0,
        ps.last().len() > 0,
    ensures
        join_underscore(ps).len() > 0,
{
    if ps.len() == 1 {
        assert(ps[0] == ps.last());
    }
}

// ── Decision hashes ────────────────────────────────────────────────────────

/// Whitespace runs collapsed to one space, none at either end: the
/// text's whitespace-separated words joined with single spaces. The flag
/// says whether whitespace was seen since the last word.
pub open spec fn norm_state(s: Seq<char>) -> (Seq<char>, bool)
    decreases s.len(),
{
    if s.len() == 0 {
        (Seq::empty(), false)
    } else {
        let (out, gap) = norm_state(s.drop_last());
        let c = s.last();
        if is_white(c) {
            (out, true)
        } else if out.len() > 0 && gap {
            (out.push(' ').push(c), false)
        } else {
            (out.push(c), false)
        }
    }
}

pub open spec fn normalize(s: Seq<char>) -> Seq<char> {
    norm_state(s).0
}

/// The UTF-8 encoding of a character.
pub open spec fn utf8(c: char) -> Seq<u8> {
    let v = c as u32 as int;
    if v < 0x80 {
        seq![v as u8]
    } else if v < 0x800 {
        seq![(0xC0 + v / 64) as u8, (0x80 + v % 64) as u8]
    } else if v < 0x10000 {
        seq![(0xE0 + v / 4096) as u8, (0x80 + (v / 64) % 64) as u8, (0x80 + v % 64) as u8]
    } else {
        seq![
            (0xF0 + v / 262144) as u8,
            (0x80 + (v / 4096) % 64) as u8,
            (0x80 + (v / 64) % 64) as u8,
            (0x80 + v % 64) as u8,
        ]
    }
}

/// The 64-bit FNV-1a offset basis and prime.
pub const FNV_OFFSET: u64 = 0xcbf2_9ce4_8422_2325u64;

pub const FNV_PRIME: u64 = 0x0000_0100_0000_01b3u64;

pub open spec fn fnv_step(h: u64, b: u8) -> u64 {
    (h ^ (b as u64)).wrapping_mul(FNV_PRIME)
}

pub open spec fn fnv_bytes(h: u64, bs: Seq<u8>) -> u64
    decreases bs.len(),
{
    if bs.len() == 0 {
        h
    } else {
        fnv_step(fnv_bytes(h, bs.drop_last()), bs.last())
    }
}

/// FNV-1a (64 bit) over the UTF-8 bytes of `cs`.
pub open spec fn fnv_chars(cs: Seq<char>) -> u64
    decreases cs.len(),
{
    if cs.len() == 0 {
        FNV_OFFSET
    } else {
        fnv_bytes(fnv_chars(cs.drop_last()), utf8(cs.last()))
    }
}

/// The high and low halves of `h` xor-ed together.
pub open spec fn fold32(h: u64) -> u32 {
    ((h >> 32u64) as u32) ^ (h as u32)
}

pub open spec fn hex_digit(d: int) -> char {
    if d < 10 {
        (('0' as u32) + d) as char
    } else {
        (('a' as u32) + d - 10) as char
    }
}

/// The `n` low hex digits of `x`, most significant first.
pub open spec fn hex_text(x: nat, n: nat) -> Seq<char>
    decreases n,
{
    if n == 0 {
        Seq::empty()
    } else {
        hex_text(x / 16, (n - 1) as nat).push(hex_digit((x % 16) as int))
    }
}

pub open spec fn spec_decision_hash(decision: Seq<char>) -> Seq<char> {
    hex_text(fold32(fnv_chars(normalize(decision))) as nat, 8)
}

fn normalized(s: &Vec<char>) -> (r: Vec<char>)
    ensures
        r@ == normalize(s@),
{
    let mut out: Vec<char> = Vec::new();
    let mut gap = false;
    let mut i: usize = 0;
    while i < s.len()
        invariant
            i <= s.len(),
            (out@, gap) == norm_state(s@.take(i as int)),
        decreases s.len() - i,
    {
        assert(s@.take(i + 1).drop_last() =~= s@.take(i as int));
        assert(s@.take(i + 1).last() == s@[i as int]);
        let c = s[i];
        if is_white_char(c) {
            gap = true;
        } else {
            if out.len() > 0 && gap {
                out.push(' ');
            }
            out.push(c);
            gap = false;
        }
        i = i + 1;
    }
    assert(s@.take(s.len() as int) =~= s@);
    out
}

fn utf8_bytes(c: char) -> (r: Vec<u8>)
    ensures
        r@ == utf8(c),
{
    let v = c as u32;
    let mut out: Vec<u8> = Vec::new();
    if v < 0x80 {
        out.push(v as u8);
    } else if v < 0x800 {
        out.push((0xC0 + v / 64) as u8);
        out.push((0x80 + v % 64) as u8);
    } else if v < 0x10000 {
        out.push((0xE0 + v / 4096) as u8);
        out.push((0x80 + (v / 64) % 64) as u8);
        out.push((0x80 + v % 64) as u8);
    } else {
        assert(v <= 0x10FFFF);
        out.push((0xF0 + v / 262144) as u8);
        out.push((0x80 + (v / 4096) % 64) as u8);
        out.push((0x80 + (v / 64) % 64) as u8);
        out.push((0x80 + v % 64) as u8);
    }
    assert(out@ =~= utf8(c));
    out
}

fn fnv_hash(cs: &Vec<char>) -> (r: u64)
    ensures
        r == fnv_chars(cs@),
{
    let mut h: u64 = FNV_OFFSET;
    let mut i: usize = 0;
    while i < cs.len()
        invariant
            i <= cs.len(),
            h == fnv_chars(cs@.take(i as int)),
        decreases cs.len() - i,
    {
        assert(cs@.take(i + 1).drop_last() =~= cs@.take(i as int));
        assert(cs@.take(i + 1).last() == cs@[i as int]);
        let bytes = utf8_bytes(cs[i]);
        let ghost h0 = h;
        let mut k: usize = 0;
        while k < bytes.len()
            invariant
                k <= bytes.len(),
                h == fnv_bytes(h0, bytes@.take(k as int)),
            decreases bytes.len() - k,
        {
            assert(bytes@.take(k + 1).drop_last() =~= bytes@.take(k as int));
            assert(bytes@.take(k + 1).last() == bytes@[k as int]);
            h = (h ^ (bytes[k] as u64)).wrapping_mul(FNV_PRIME);
            k = k + 1;
        }
        assert(bytes@.take(bytes.len() as int) =~= bytes@);
        i = i + 1;
    }
    assert(cs@.take(cs.len() as int) =~= cs@);
    h
}

fn hex_into(x: u32, n: u32, out: &mut String)
    requires
        n <= 8,
    ensures
        final(out)@ == old(out)@ + hex_text(x as nat, n as nat),
    decreases n,
{
    if n > 0 {
        hex_into(x / 16, n - 1, out);
        let d = x % 16;
        let t = hex_str(d);
        push_str(out, t);
        proof {
            assert(out@ =~= old(out)@ + hex_text(x as nat, n as nat));
        }
    }
}

fn hex_str(d: u32) -> (r: &'static str)
    requires
        d < 16,
    ensures
        r@ == seq![hex_digit(d as int)],
{
    proof {
        reveal_strlit("0");
        reveal_strlit("1");
        reveal_strlit("2");
        reveal_strlit("3");
        reveal_strlit("4");
        reveal_strlit("5");
        reveal_strlit("6");
        reveal_strlit("7");
        reveal_strlit("8");
        reveal_strlit("9");
        reveal_strlit("a");
        reveal_strlit("b");
        reveal_strlit("c");
        reveal_strlit("d");
        reveal_strlit("e");
        reveal_strlit("f");
    }
    if d == 0 { "0" }
    else if d == 1 { "1" }
    else if d == 2 { "2" }
    else if d == 3 { "3" }
    else if d == 4 { "4" }
    else if d == 5 { "5" }
    else if d == 6 { "6" }
    else if d == 7 { "7" }
    else if d == 8 { "8" }
    else if d == 9 { "9" }
    else if d == 10 { "a" }
    else if d == 11 { "b" }
    else if d == 12 { "c" }
    else if d == 13 { "d" }
    else if d == 14 { "e" }
    else { "f" }
}

/// A lowercase hexadecimal digit.
pub open spec fn is_lower_hex(c: char) -> bool {
    ('0' <= c && c <= '9') || ('a' <= c && c <= 'f')
}

proof fn lemma_hex_text(x: nat, n: nat)
    ensures
        hex_text(x, n).len() == n,
        forall|i: int| 0 <= i < n ==> is_lower_hex(#[trigger] hex_text(x, n)[i]),
    decreases n,
{
    if n > 0 {
        lemma_hex_text(x / 16, (n - 1) as nat);
        let t = hex_text(x, n);
        let d = (x % 16) as int;
        assert(is_lower_hex(hex_digit(d)));
        assert forall|i: int| 0 <= i < n implies is_lower_hex(#[trigger] t[i]) by {
            if i < n - 1 {
                assert(t[i] == hex_text(x / 16, (n - 1) as nat)[i]);
            }
        }
    }
}

/// Every decision hash is exactly eight lowercase hexadecimal digits.
pub proof fn lemma_decision_hash_shape(decision: Seq<char>)
    ensures
        spec_decision_hash(decision).len() == 8,
        forall|i: int| 0 <= i < 8 ==> is_lower_hex(#[trigger] spec_decision_hash(decision)[i]),
{
    lemma_hex_text(fold32(fnv_chars(normalize(decision))) as nat, 8);
}

/// A decision's hash depends on its text only up to layout: two texts
/// that agree once whitespace runs are collapsed and trimmed hash alike.
pub proof fn lemma_decision_hash_ignores_layout(a: Seq<char>, b: Seq<char>)
    requires
        normalize(a) == normalize(b),
    ensures
        spec_decision_hash(a) == spec_decision_hash(b),
{
}

/// The content part of an obligation id: 8 lowercase hex digits of
/// FNV-1a (64 bit, folded to 32) over the decision's UTF-8 text with
/// whitespace runs collapsed to one space and none at either end.
pub fn decision_hash(decision: &str) -> (r: String)
    ensures
        r@ == spec_decision_hash(decision@),
{
    let s = text_chars(decision);
    let n = normalized(&s);
    let h = fnv_hash(&n);
    let folded = ((h >> 32u64) as u32) ^ (h as u32);
    let mut out = String::new();
    hex_into(folded, 8, &mut out);
    assert(out@ =~= spec_decision_hash(decision@));
    out
}

// ── Ids ────────────────────────────────────────────────────────────────────

pub open spec fn spec_obligation_id(file: Seq<char>, enclosing_fn: Option<Seq<char>>, decision: Seq<char>) -> Seq<char> {
    match enclosing_fn {
        Some(name) => spec_module_slug(file) + "_"@ + slug(name) + "_"@ + spec_decision_hash(decision),
        None => spec_module_slug(file) + "_"@ + spec_decision_hash(decision),
    }
}

/// A stable id for a decision: its file's module path, the enclosing
/// `fn` (when there is one) and the decision's content hash, joined with
/// `_` (see [`module_slug`] and [`decision_hash`]).
pub fn obligation_id(file: &str, enclosing_fn: Option<&str>, decision: &str) -> (r: String)
    ensures
        r@ == spec_obligation_id(
            file@,
            match enclosing_fn {
                Some(n) => Some(n@),
                None => None,
            },
            decision@,
        ),
{
    let mut out = module_slug(file);
    push_str(&mut out, "_");
    match enclosing_fn {
        Some(name) => {
            let part = slugify(name);
            push_str(&mut out, part.as_str());
            push_str(&mut out, "_");
        },
        None => {},
    }
    let h = decision_hash(decision);
    push_str(&mut out, h.as_str());
    proof {
        match enclosing_fn {
            Some(n) => {
                assert(out@ =~= spec_obligation_id(file@, Some(n@), decision@));
            },
            None => {
                assert(out@ =~= spec_obligation_id(file@, None, decision@));
            },
        }
    }
    out
}


// ── Module slugs tell modules apart ────────────────────────────────────────

/// A Rust module name in ASCII: letters, digits and `_`, not starting with
/// a digit.
pub open spec fn is_module_name(s: Seq<char>) -> bool {
    &&& s.len() > 0
    &&& !('0' <= s[0] && s[0] <= '9')
    &&& forall|k: int| 0 <= k < s.len() ==> is_ascii_alnum(#[trigger] s[k]) || s[k] == '_'
}

/// Whether `t[i]` is a `_` not followed by `0`: a join between components.
pub open spec fn bare_at(t: Seq<char>, i: int) -> bool {
    t[i] == '_' && (i + 1 >= t.len() || t[i + 1] != '0')
}

/// The module slug of a module path (before the `obligation` fallback).
pub open spec fn joined_pieces(ps: Seq<Seq<char>>) -> Seq<char> {
    join_underscore(ps.map_values(|p: Seq<char>| module_piece(p)))
}

pub open spec fn word_chars(s: Seq<char>) -> bool {
    forall|k: int| 0 <= k < s.len() ==> is_ascii_alnum(#[trigger] s[k]) || s[k] == '_'
}

proof fn lemma_word_chars_prefix(s: Seq<char>)
    requires
        s.len() > 0,
        word_chars(s),
    ensures
        word_chars(s.drop_last()),
        is_ascii_alnum(s.last()) || s.last() == '_',
{
    assert forall|k: int| 0 <= k < s.drop_last().len() implies is_ascii_alnum(#[trigger] s.drop_last()[k])
        || s.drop_last()[k] == '_' by {
        assert(s.drop_last()[k] == s[k]);
    }
}

proof fn lemma_piece_no_bare(s: Seq<char>)
    requires
        word_chars(s),
    ensures
        forall|i: int| 0 <= i < module_piece(s).len() ==> !bare_at(module_piece(s), i),
    decreases s.len(),
{
    if s.len() > 0 {
        lemma_word_chars_prefix(s);
        lemma_piece_no_bare(s.drop_last());
        let p = module_piece(s.drop_last());
        let e = escape_char(s.last());
        let t = p + e;
        assert(module_piece(s) == t);
        assert forall|i: int| 0 <= i < t.len() implies !bare_at(t, i) by {
            if i < p.len() {
                assert(t[i] == p[i]);
                assert(!bare_at(p, i));
                if i + 1 < p.len() {
                    assert(t[i + 1] == p[i + 1]);
                }
            } else {
                assert(t[i] == e[i - p.len()]);
                if i + 1 < t.len() {
                    assert(t[i + 1] == e[i + 1 - p.len()]);
                }
            }
        }
    }
}

proof fn lemma_piece_first(s: Seq<char>)
    requires
        s.len() > 0,
    ensures
        module_piece(s).len() > 0,
        module_piece(s)[0] == escape_char(s[0])[0],
    decreases s.len(),
{
    if s.len() == 1 {
        assert(module_piece(s.drop_last()) =~= Seq::<char>::empty());
        assert(module_piece(s) =~= escape_char(s[0]));
    } else {
        lemma_piece_first(s.drop_last());
        assert(s.drop_last()[0] == s[0]);
    }
}

proof fn lemma_piece_injective(a: Seq<char>, b: Seq<char>)
    requires
        word_chars(a),
        word_chars(b),
        module_piece(a) == module_piece(b),
    ensures
        a == b,
    decreases a.len(),
{
    lemma_piece_len(a);
    lemma_piece_len(b);
    if a.len() == 0 || b.len() == 0 {
        if a.len() > 0 {
            lemma_piece_first(a);
        }
        if b.len() > 0 {
            lemma_piece_first(b);
        }
        assert(a =~= b);
    } else {
        lemma_word_chars_prefix(a);
        lemma_word_chars_prefix(b);
        let pa = module_piece(a.drop_last());
        let pb = module_piece(b.drop_last());
        let t = module_piece(a);
        assert(t == pa + escape_char(a.last()));
        assert(t == pb + escape_char(b.last()));
        if a.last() == '_' && b.last() == '_' {
            assert(pa =~= t.take(t.len() - 2));
            assert(pb =~= t.take(t.len() - 2));
        } else if a.last() != '_' && b.last() != '_' {
            assert(t.last() == a.last());
            assert(t.last() == b.last());
            assert(pa =~= t.drop_last());
            assert(pb =~= t.drop_last());
        } else if a.last() == '_' {
            assert(escape_char(a.last()) == seq!['_', '0']);
            assert(escape_char(b.last()) == seq![b.last()]);
            assert(pb =~= t.drop_last());
            assert(t.drop_last() =~= pa.push('_'));
            assert(pb =~= pa.push('_'));
            lemma_piece_no_bare(b.drop_last());
            assert(bare_at(pb, pb.len() - 1));
        } else {
            assert(escape_char(b.last()) == seq!['_', '0']);
            assert(escape_char(a.last()) == seq![a.last()]);
            assert(pa =~= t.drop_last());
            assert(t.drop_last() =~= pb.push('_'));
            assert(pa =~= pb.push('_'));
            lemma_piece_no_bare(a.drop_last());
            assert(bare_at(pa, pa.len() - 1));
        }
        lemma_piece_injective(a.drop_last(), b.drop_last());
        assert(a =~= a.drop_last().push(a.last()));
        assert(b =~= b.drop_last().push(b.last()));
    }
}

proof fn lemma_names_prefix(ps: Seq<Seq<char>>)
    requires
        ps.len() > 0,
        forall|k: int| 0 <= k < ps.len() ==> is_module_name(#[trigger] ps[k]),
    ensures
        forall|k: int| 0 <= k < ps.drop_last().len() ==> is_module_name(#[trigger] ps.drop_last()[k]),
        is_module_name(ps.last()),
{
    assert forall|k: int| 0 <= k < ps.drop_last().len() implies is_module_name(#[trigger] ps.drop_last()[k]) by {
        assert(ps.drop_last()[k] == ps[k]);
    }
}

proof fn lemma_joined_split(ps: Seq<Seq<char>>)
    requires
        ps.len() >= 2,
    ensures
        joined_pieces(ps) == joined_pieces(ps.drop_last()) + "_"@ + module_piece(ps.last()),
{
    let m = ps.map_values(|p: Seq<char>| module_piece(p));
    assert(m.drop_last() =~= ps.drop_last().map_values(|p: Seq<char>| module_piece(p)));
}

/// The shape of a joined slug: a single component has no join in it; more
/// components have a join right before the last one and none after it.
proof fn lemma_joined_bare(ps: Seq<Seq<char>>)
    requires
        ps.len() > 0,
        forall|k: int| 0 <= k < ps.len() ==> is_module_name(#[trigger] ps[k]),
    ensures
        ps.len() == 1 ==> forall|i: int| 0 <= i < joined_pieces(ps).len() ==> !bare_at(joined_pieces(ps), i),
        ps.len() >= 2 ==> {
            let m = joined_pieces(ps.drop_last()).len() as int;
            &&& bare_at(joined_pieces(ps), m)
            &&& forall|i: int| m < i < joined_pieces(ps).len() ==> !bare_at(joined_pieces(ps), i)
        },
{
    reveal_strlit("_");
    lemma_names_prefix(ps);
    let last = ps.last();
    let e = module_piece(last);
    lemma_piece_no_bare(last);
    lemma_piece_first(last);
    if ps.len() == 1 {
        assert(ps.map_values(|p: Seq<char>| module_piece(p))[0] == e);
        assert(joined_pieces(ps) == e);
    } else {
        lemma_joined_split(ps);
        let a = joined_pieces(ps.drop_last());
        let t = joined_pieces(ps);
        let m = a.len() as int;
        assert(t == a + "_"@ + e);
        assert(t[m] == '_');
        assert(t[m + 1] == e[0]);
        assert forall|i: int| m < i < t.len() implies !bare_at(t, i) by {
            assert(t[i] == e[i - m - 1]);
            assert(!bare_at(e, i - m - 1));
            if i + 1 < t.len() {
                assert(t[i + 1] == e[i + 1 - m - 1]);
            }
        }
    }
}

proof fn lemma_joined_injective(ps: Seq<Seq<char>>, qs: Seq<Seq<char>>)
    requires
        ps.len() > 0,
        qs.len() > 0,
        forall|k: int| 0 <= k < ps.len() ==> is_module_name(#[trigger] ps[k]),
        forall|k: int| 0 <= k < qs.len() ==> is_module_name(#[trigger] qs[k]),
        joined_pieces(ps) == joined_pieces(qs),
    ensures
        ps == qs,
    decreases ps.len(),
{
    reveal_strlit("_");
    lemma_joined_bare(ps);
    lemma_joined_bare(qs);
    lemma_names_prefix(ps);
    lemma_names_prefix(qs);
    let t = joined_pieces(ps);
    if ps.len() == 1 && qs.len() == 1 {
        assert(ps.map_values(|p: Seq<char>| module_piece(p))[0] == module_piece(ps[0]));
        assert(qs.map_values(|p: Seq<char>| module_piece(p))[0] == module_piece(qs[0]));
        lemma_piece_injective(ps[0], qs[0]);
        assert(ps =~= qs);
    } else if ps.len() == 1 {
        let m = joined_pieces(qs.drop_last()).len() as int;
        lemma_joined_split(qs);
        assert(bare_at(t, m));
    } else if qs.len() == 1 {
        let m = joined_pieces(ps.drop_last()).len() as int;
        lemma_joined_split(ps);
        assert(bare_at(t, m));
    } else {
        lemma_joined_split(ps);
        lemma_joined_split(qs);
        let a = joined_pieces(ps.drop_last());
        let b = joined_pieces(qs.drop_last());
        let m1 = a.len() as int;
        let m2 = b.len() as int;
        if m1 < m2 {
            assert(bare_at(t, m2));
        }
        if m2 < m1 {
            assert(bare_at(t, m1));
        }
        assert(m1 == m2);
        assert(a =~= t.take(m1));
        assert(b =~= t.take(m2));
        assert(module_piece(ps.last()) =~= t.skip(m1 + 1));
        assert(module_piece(qs.last()) =~= t.skip(m2 + 1));
        lemma_piece_injective(ps.last(), qs.last());
        lemma_joined_injective(ps.drop_last(), qs.drop_last());
        assert(ps =~= ps.drop_last().push(ps.last()));
        assert(qs =~= qs.drop_last().push(qs.last()));
    }
}

/// Distinct modules get distinct slugs: two files whose module paths
/// differ, each a non-empty path of Rust module names, have different
/// module slugs, so their obligation ids never coincide.
pub proof fn lemma_module_slugs_distinct(f1: Seq<char>, f2: Seq<char>)
    requires
        module_parts(f1).len() > 0,
        module_parts(f2).len() > 0,
        forall|k: int| 0 <= k < module_parts(f1).len() ==> is_module_name(#[trigger] module_parts(f1)[k]),
        forall|k: int| 0 <= k < module_parts(f2).len() ==> is_module_name(#[trigger] module_parts(f2)[k]),
        module_parts(f1) != module_parts(f2),
    ensures
        spec_module_slug(f1) != spec_module_slug(f2),
{
    let p1 = module_parts(f1);
    let p2 = module_parts(f2);
    lemma_names_prefix(p1);
    lemma_names_prefix(p2);
    lemma_piece_first(p1.last());
    lemma_piece_first(p2.last());
    let m1 = p1.map_values(|p: Seq<char>| module_piece(p));
    let m2 = p2.map_values(|p: Seq<char>| module_piece(p));
    assert(m1.last() == module_piece(p1.last()));
    assert(m2.last() == module_piece(p2.last()));
    lemma_join_nonempty(m1);
    lemma_join_nonempty(m2);
    if joined_pieces(p1) == joined_pieces(p2) {
        lemma_joined_injective(p1, p2);
    }
}

proof fn lemma_piece_chars(s: Seq<char>)
    ensures
        word_chars(module_piece(s)),
    decreases s.len(),
{
    if s.len() > 0 {
        lemma_piece_chars(s.drop_last());
        let p = module_piece(s.drop_last());
        let e = escape_char(s.last());
        assert forall|k: int| 0 <= k < (p + e).len() implies is_ascii_alnum(#[trigger] (p + e)[k]) || (p
            + e)[k] == '_' by {
            if k < p.len() {
                assert((p + e)[k] == p[k]);
            } else {
                assert((p + e)[k] == e[k - p.len()]);
            }
        }
        assert(module_piece(s) == p + e);
    }
}

proof fn lemma_join_chars(ps: Seq<Seq<char>>)
    requires
        forall|k: int| 0 <= k < ps.len() ==> word_chars(#[trigger] ps[k]),
    ensures
        word_chars(join_underscore(ps)),
    decreases ps.len(),
{
    reveal_strlit("_");
    if ps.len() >= 2 {
        assert forall|k: int| 0 <= k < ps.drop_last().len() implies word_chars(#[trigger] ps.drop_last()[k]) by {
            assert(ps.drop_last()[k] == ps[k]);
        }
        lemma_join_chars(ps.drop_last());
        let a = join_underscore(ps.drop_last());
        let t = a + "_"@ + ps.last();
        assert(word_chars(ps.last()));
        assert forall|k: int| 0 <= k < t.len() implies is_ascii_alnum(#[trigger] t[k]) || t[k] == '_' by {
            if k < a.len() {
                assert(t[k] == a[k]);
            } else if k > a.len() {
                assert(t[k] == ps.last()[k - a.len() - 1]);
            }
        }
    } else if ps.len() == 1 {
        assert(word_chars(ps[0]));
    }
}

/// A module slug is never empty and uses only ASCII letters, digits and
/// `_`; a path with no module component gets `obligation`.
pub proof fn lemma_module_slug_shape(file: Seq<char>)
    ensures
        spec_module_slug(file).len() > 0,
        word_chars(spec_module_slug(file)),
        module_parts(file).len() == 0 ==> spec_module_slug(file) == "obligation"@,
{
    reveal_strlit("obligation");
    let ps = module_parts(file);
    let m = ps.map_values(|p: Seq<char>| module_piece(p));
    assert forall|k: int| 0 <= k < m.len() implies word_chars(#[trigger] m[k]) by {
        lemma_piece_chars(ps[k]);
    }
    lemma_join_chars(m);
    let o = "obligation"@;
    assert forall|k: int| 0 <= k < o.len() implies is_ascii_alnum(#[trigger] o[k]) || o[k] == '_' by {
    }
    if ps.len() == 0 {
        assert(m.len() == 0);
    }
}

} // verus!
