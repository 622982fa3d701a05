//! Decision sites as plain data: a boolean condition split into its leaf
//! conditions and the `&&`/`||` operators joining them, or an exhaustive
//! `match` (compiler-void: no test obligation, only bookkeeping).
//!
//! MC/DC's minimum vector count for a decision with `n` leaves is `n + 1`.

use vstd::prelude::*;

use crate::lines::{is_digit, lemma_nat_text_digits, lemma_nat_text_injective};
use crate::obligation::{
    ObligationRecord, is_lower_hex, lemma_decision_hash_ignores_layout, lemma_decision_hash_shape, normalize,
    obligation_id, spec_decision_hash,
    spec_obligation_id,
};
use crate::text::{int_text_into, push_str, spec_int_text, spec_nat_text};

verus! {

/// One `&&`/`||` operator of a decision: where its token lies in the
/// source (byte offsets) and which operator it is.
#[derive(Debug, Clone)]
pub struct DecisionOp {
    pub start: usize,
    pub end: usize,
    pub is_and: bool,
}

/// One decision site.
#[derive(Debug, Clone)]
pub struct Decision {
    /// The line the decision starts on.
    pub site_line: usize,
    /// The `fn` the decision is in, if any.
    pub enclosing_fn: Option<String>,
    /// The decision's source text.
    pub text: String,
    /// Where each leaf condition lies in the source (byte offsets); empty
    /// for a compiler-void decision.
    pub leaves: Vec<(usize, usize)>,
    pub ops: Vec<DecisionOp>,
    pub compiler_void: bool,
    /// A `match` exhaustive through a `_` arm rather than by naming every
    /// variant; always `false` for a condition.
    pub wildcard_risk: bool,
}

pub open spec fn spec_vectors_required(compiler_void: bool, leaves: nat) -> nat {
    if compiler_void {
        0
    } else {
        leaves + 1
    }
}

impl Decision {
    /// MC/DC's minimum vector count: one more than the number of leaves,
    /// `0` for a compiler-void decision.
    pub fn vectors_required(&self) -> (r: usize)
        requires
            self.leaves@.len() < usize::MAX,
        ensures
            r == spec_vectors_required(self.compiler_void, self.leaves@.len()),
    {
        if self.compiler_void {
            0
        } else {
            self.leaves.len() + 1
        }
    }

    /// The line the decision starts on.
    pub fn line(&self) -> (r: usize)
        ensures
            r == self.site_line,
    {
        self.site_line
    }
}

pub open spec fn fn_view(f: Option<String>) -> Option<Seq<char>> {
    match f {
        Some(n) => Some(n@),
        None => None,
    }
}

/// The base id of a decision in `file`.
pub open spec fn base_id(file: Seq<char>, d: Decision) -> Seq<char> {
    spec_obligation_id(file, fn_view(d.enclosing_fn), d.text@)
}

/// How many of the first `i + 1` decisions share decision `i`'s base id.
pub open spec fn occurrence(bases: Seq<Seq<char>>, i: int) -> nat
    decreases i + 1,
{
    if i < 0 {
        0
    } else {
        occurrence_of(bases.take(i), bases[i]) + 1
    }
}

/// How many entries of `bases` equal `b`.
pub open spec fn occurrence_of(bases: Seq<Seq<char>>, b: Seq<char>) -> nat
    decreases bases.len(),
{
    if bases.len() == 0 {
        0
    } else {
        occurrence_of(bases.drop_last(), b) + if bases.last() == b {
            1nat
        } else {
            0nat
        }
    }
}

/// The record id of decision `i`: its base id, with `_<n>` appended for
/// the `n`-th (`n ≥ 2`) decision sharing that base id.
pub open spec fn record_id(bases: Seq<Seq<char>>, i: int) -> Seq<char> {
    let n = occurrence(bases, i);
    if n == 1 {
        bases[i]
    } else {
        bases[i] + "_"@ + spec_int_text(n as int)
    }
}

pub open spec fn base_ids(file: Seq<char>, ds: Seq<Decision>) -> Seq<Seq<char>> {
    ds.map_values(|d: Decision| base_id(file, d))
}

fn as_opt_str(f: &Option<String>) -> (r: Option<&str>)
    ensures
        match r {
            Some(s) => f.is_some() && s@ == f->0@,
            None => f.is_none(),
        },
{
    match f {
        Some(s) => Some(s.as_str()),
        None => None,
    }
}

/// The obligation records of a file's decisions, in order. Ids are
/// [`obligation_id`]s; the second and later decisions with the same id get
/// an occurrence suffix (`_2`, `_3`, ...) so ids stay apart within a file.
pub fn to_records(file: &str, decisions: &[Decision]) -> (r: Vec<ObligationRecord>)
    requires
        forall|i: int| 0 <= i < decisions@.len() ==> (#[trigger] decisions@[i]).leaves@.len() < usize::MAX,
    ensures
        r@.len() == decisions@.len(),
        forall|i: int|
            0 <= i < r@.len() ==> {
                let d = decisions@[i];
                let o = #[trigger] r@[i];
                &&& o.id@ == record_id(base_ids(file@, decisions@), i)
                &&& o.file@ == file@
                &&& o.line == d.site_line
                &&& o.decision@ == d.text@
                &&& o.conditions == d.leaves@.len()
                &&& o.vectors_required == spec_vectors_required(d.compiler_void, d.leaves@.len())
                &&& o.compiler_void == d.compiler_void
                &&& o.wildcard_risk == d.wildcard_risk
            },
{
    let ghost bases = base_ids(file@, decisions@);
    let mut seen: Vec<String> = Vec::new();
    let mut out: Vec<ObligationRecord> = Vec::new();
    let mut i: usize = 0;
    while i < decisions.len()
        invariant
            i <= decisions.len(),
            bases == base_ids(file@, decisions@),
            forall|q: int| 0 <= q < decisions@.len() ==> (#[trigger] decisions@[q]).leaves@.len() < usize::MAX,
            seen@.len() == i,
            forall|q: int| 0 <= q < i ==> (#[trigger] seen@[q])@ == bases[q],
            out@.len() == i,
            forall|q: int|
                0 <= q < i ==> {
                    let d = decisions@[q];
                    let o = #[trigger] out@[q];
                    &&& o.id@ == record_id(bases, q)
                    &&& o.file@ == file@
                    &&& o.line == d.site_line
                    &&& o.decision@ == d.text@
                    &&& o.conditions == d.leaves@.len()
                    &&& o.vectors_required == spec_vectors_required(d.compiler_void, d.leaves@.len())
                    &&& o.compiler_void == d.compiler_void
                    &&& o.wildcard_risk == d.wildcard_risk
                },
        decreases decisions.len() - i,
    {
        let d = &decisions[i];
        let base = obligation_id(file, as_opt_str(&d.enclosing_fn), d.text.as_str());
        assert(base@ == bases[i as int]);
        // earlier decisions with the same base id
        let mut n: usize = 1;
        let mut j: usize = 0;
        while j < i
            invariant
                j <= i,
                i < decisions@.len(),
                seen@.len() == i,
                forall|q: int| 0 <= q < i ==> (#[trigger] seen@[q])@ == bases[q],
                bases.len() == decisions@.len(),
                n == occurrence_of(bases.take(j as int), base@) + 1,
                n <= j + 1,
                i < decisions.len(),
            decreases i - j,
        {
            assert(bases.take(j + 1).drop_last() =~= bases.take(j as int));
            assert(bases.take(j + 1).last() == bases[j as int]);
            if seen[j] == base {
                n = n + 1;
            }
            j = j + 1;
        }
        assert(bases.take(i as int) =~= bases.take(i as int));
        assert(n == occurrence(bases, i as int));
        let mut id = base.clone();
        if n != 1 {
            push_str(&mut id, "_");
            int_text_into(n as i128, &mut id);
        }
        assert(id@ == record_id(bases, i as int));
        let conditions = d.leaves.len();
        let required = d.vectors_required();
        out.push(
            ObligationRecord {
                id,
                file: file.to_owned(),
                line: d.site_line,
                decision: d.text.clone(),
                conditions,
                vectors_required: required,
                compiler_void: d.compiler_void,
                wildcard_risk: d.wildcard_risk,
            },
        );
        seen.push(base);
        i = i + 1;
    }
    out
}

// ── Distinct ids ───────────────────────────────────────────────────────────

/// Every obligation id ends in `_` and eight lowercase hex digits.
proof fn lemma_base_tail(file: Seq<char>, d: Decision)
    ensures
        base_id(file, d).len() >= 9,
        base_id(file, d)[base_id(file, d).len() - 9] == '_',
        forall|t: int|
            1 <= t <= 8 ==> is_lower_hex(#[trigger] base_id(file, d)[base_id(file, d).len() - t]),
{
    reveal_strlit("_");
    let b = base_id(file, d);
    let h = spec_decision_hash(d.text@);
    lemma_decision_hash_shape(d.text@);
    let q = match fn_view(d.enclosing_fn) {
        Some(name) => crate::obligation::spec_module_slug(file) + "_"@ + crate::obligation::slug(name),
        None => crate::obligation::spec_module_slug(file),
    };
    assert(b =~= q + "_"@ + h);
    assert(b[b.len() - 9] == '_');
    assert forall|t: int| 1 <= t <= 8 implies is_lower_hex(#[trigger] b[b.len() - t]) by {
        assert(b[b.len() - t] == h[8 - t]);
    }
}

proof fn lemma_occurrence_of_bound(s: Seq<Seq<char>>, b: Seq<char>)
    ensures
        occurrence_of(s, b) <= s.len(),
    decreases s.len(),
{
    if s.len() > 0 {
        lemma_occurrence_of_bound(s.drop_last(), b);
    }
}

proof fn lemma_occurrence_of_grows(s: Seq<Seq<char>>, b: Seq<char>, k1: int, k2: int)
    requires
        0 <= k1 <= k2 <= s.len(),
    ensures
        occurrence_of(s.take(k1), b) <= occurrence_of(s.take(k2), b),
    decreases k2 - k1,
{
    if k1 < k2 {
        lemma_occurrence_of_grows(s, b, k1, k2 - 1);
        assert(s.take(k2).drop_last() =~= s.take(k2 - 1));
    }
}

pub open spec fn ten_pow(k: nat) -> nat
    decreases k,
{
    if k == 0 {
        1
    } else {
        10 * ten_pow((k - 1) as nat)
    }
}

proof fn lemma_text_len(n: nat, k: nat)
    requires
        1 <= k,
        n < ten_pow(k),
    ensures
        spec_nat_text(n).len() <= k,
    decreases k,
{
    if n >= 10 {
        if k == 1 {
            assert(ten_pow(1) == 10 * ten_pow(0));
        } else {
            assert(ten_pow(k) == 10 * ten_pow((k - 1) as nat));
            assert(n / 10 < ten_pow((k - 1) as nat)) by (nonlinear_arith)
                requires
                    n < 10 * ten_pow((k - 1) as nat),
            ;
            lemma_text_len(n / 10, (k - 1) as nat);
        }
    }
}

/// `b + "_" + text` has its `_` just before the text, and digits after it.
proof fn lemma_suffix_shape(b: Seq<char>, n: nat)
    ensures
        (b + "_"@ + spec_nat_text(n)).len() == b.len() + 1 + spec_nat_text(n).len(),
        (b + "_"@ + spec_nat_text(n))[b.len() as int] == '_',
        forall|p: int|
            b.len() < p < (b + "_"@ + spec_nat_text(n)).len() ==> is_digit(
                #[trigger] (b + "_"@ + spec_nat_text(n))[p],
            ),
        (b + "_"@ + spec_nat_text(n)).take(b.len() as int) == b,
        (b + "_"@ + spec_nat_text(n)).skip(b.len() as int + 1) == spec_nat_text(n),
{
    reveal_strlit("_");
    let t = spec_nat_text(n);
    let r = b + "_"@ + t;
    lemma_nat_text_digits(n);
    assert forall|p: int| b.len() < p < r.len() implies is_digit(#[trigger] r[p]) by {
        assert(r[p] == t[p - b.len() - 1]);
    }
    assert(r.take(b.len() as int) =~= b);
    assert(r.skip(b.len() as int + 1) =~= t);
}

/// Within one file, no two decisions get the same record id: a repeated
/// base id is kept apart by its occurrence suffix, and a suffixed id never
/// looks like another base id (base ids end in eight hex digits after a
/// `_`). Stated for files with fewer than ten million decisions, so that a
/// suffix is shorter than a hash.
pub proof fn lemma_record_ids_distinct(file: Seq<char>, ds: Seq<Decision>, i: int, j: int)
    requires
        0 <= i < j < ds.len(),
        ds.len() < 10_000_000,
    ensures
        record_id(base_ids(file, ds), i) != record_id(base_ids(file, ds), j),
{
    let bases = base_ids(file, ds);
    let bi = bases[i];
    let bj = bases[j];
    assert(bi == base_id(file, ds[i]));
    assert(bj == base_id(file, ds[j]));
    lemma_base_tail(file, ds[i]);
    lemma_base_tail(file, ds[j]);
    let ni = occurrence(bases, i);
    let nj = occurrence(bases, j);
    lemma_occurrence_of_bound(bases.take(i), bi);
    lemma_occurrence_of_bound(bases.take(j), bj);
    assert(ni <= i + 1 && nj <= j + 1);
    assert(ni < ten_pow(7) && nj < ten_pow(7)) by {
        reveal_with_fuel(ten_pow, 8);
    }
    lemma_text_len(ni, 7);
    lemma_text_len(nj, 7);
    assert(spec_int_text(ni as int) == spec_nat_text(ni));
    assert(spec_int_text(nj as int) == spec_nat_text(nj));
    lemma_suffix_shape(bi, ni);
    lemma_suffix_shape(bj, nj);
    let ri = record_id(bases, i);
    let rj = record_id(bases, j);
    if bi == bj {
        lemma_occurrence_of_grows(bases, bi, i + 1, j);
        assert(bases.take(i + 1).drop_last() =~= bases.take(i));
        assert(nj > ni);
        if ni != 1 && ri == rj {
            assert(spec_nat_text(ni) == spec_nat_text(nj));
            lemma_nat_text_injective(ni, nj);
        }
    } else if ni == 1 && nj != 1 {
        if ri == rj {
            let p = bj.len() as int;
            assert(rj[p] == '_');
            assert(p >= ri.len() - 8);
            assert(is_lower_hex(bi[bi.len() - (ri.len() - p)]));
        }
    } else if ni != 1 && nj == 1 {
        if ri == rj {
            let p = bi.len() as int;
            assert(ri[p] == '_');
            assert(p >= rj.len() - 8);
            assert(is_lower_hex(bj[bj.len() - (rj.len() - p)]));
        }
    } else if ni != 1 && nj != 1 {
        if ri == rj {
            if bi.len() < bj.len() {
                assert(rj[bi.len() as int] == ri[bi.len() as int]);
            } else if bj.len() < bi.len() {
                assert(ri[bj.len() as int] == rj[bj.len() as int]);
            } else {
                assert(ri.take(bi.len() as int) == rj.take(bj.len() as int));
            }
        }
    }
}


/// Obligation ids survive line shifts and reformatting: two scans of a file
/// whose decisions agree, one for one, in their enclosing `fn` and in their
/// text up to layout (whitespace runs collapsed and trimmed) give every
/// decision the same record id, wherever the decisions now stand.
pub proof fn lemma_record_ids_ignore_position(file: Seq<char>, before: Seq<Decision>, after: Seq<Decision>)
    requires
        before.len() == after.len(),
        forall|i: int|
            0 <= i < before.len() ==> fn_view((#[trigger] before[i]).enclosing_fn) == fn_view(
                after[i].enclosing_fn,
            ),
        forall|i: int| 0 <= i < before.len() ==> normalize((#[trigger] before[i]).text@) == normalize(after[i].text@),
    ensures
        forall|i: int|
            0 <= i < before.len() ==> #[trigger] record_id(base_ids(file, before), i) == record_id(
                base_ids(file, after),
                i,
            ),
{
    assert forall|i: int| 0 <= i < before.len() implies base_id(file, before[i]) == base_id(file, after[i]) by {
        lemma_decision_hash_ignores_layout(before[i].text@, after[i].text@);
    }
    assert(base_ids(file, before) =~= base_ids(file, after));
}

} // verus!
