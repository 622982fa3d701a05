//! Lexicographic order on names (what `String`'s `Ord` is: code points,
//! first difference decides, a proper prefix comes first) and sorted,
//! duplicate-free name lists.

use vstd::prelude::*;
use vstd::string::*;

verus! {

/// `a < b` lexicographically by code point.
pub open spec fn seq_lt(a: Seq<char>, b: Seq<char>) -> bool
    decreases a.len(),
{
    if a.len() == 0 {
        b.len() > 0
    } else if b.len() == 0 {
        false
    } else if a[0] != b[0] {
        (a[0] as int) < (b[0] as int)
    } else {
        seq_lt(a.drop_first(), b.drop_first())
    }
}

pub proof fn lemma_lt_irreflexive(a: Seq<char>)
    ensures
        !seq_lt(a, a),
    decreases a.len(),
{
    if a.len() > 0 {
        lemma_lt_irreflexive(a.drop_first());
    }
}

pub proof fn lemma_lt_asymmetric(a: Seq<char>, b: Seq<char>)
    ensures
        seq_lt(a, b) ==> !seq_lt(b, a),
    decreases a.len(),
{
    if a.len() > 0 && b.len() > 0 && a[0] == b[0] {
        lemma_lt_asymmetric(a.drop_first(), b.drop_first());
    }
}

pub proof fn lemma_lt_transitive(a: Seq<char>, b: Seq<char>, c: Seq<char>)
    ensures
        seq_lt(a, b) && seq_lt(b, c) ==> seq_lt(a, c),
    decreases a.len(),
{
    if a.len() > 0 && b.len() > 0 && c.len() > 0 {
        lemma_lt_transitive(a.drop_first(), b.drop_first(), c.drop_first());
    }
}

pub proof fn lemma_lt_total(a: Seq<char>, b: Seq<char>)
    ensures
        a != b ==> seq_lt(a, b) || seq_lt(b, a),
    decreases a.len(),
{
    if a.len() == 0 {
        if b.len() == 0 {
            assert(a =~= b);
        }
    } else if b.len() > 0 {
        if a[0] == b[0] {
            lemma_lt_total(a.drop_first(), b.drop_first());
            if a.drop_first() == b.drop_first() {
                assert(a =~= seq![a[0]] + a.drop_first());
                assert(b =~= seq![b[0]] + b.drop_first());
            }
        }
    }
}

/// Strictly increasing (so also free of duplicates).
pub open spec fn sorted_names(s: Seq<Seq<char>>) -> bool {
    forall|i: int, j: int| 0 <= i < j < s.len() ==> seq_lt(#[trigger] s[i], #[trigger] s[j])
}

/// Two strictly increasing lists with the same members are the same list.
pub proof fn lemma_sorted_unique(s: Seq<Seq<char>>, t: Seq<Seq<char>>)
    requires
        sorted_names(s),
        sorted_names(t),
        forall|x: Seq<char>| s.contains(x) <==> t.contains(x),
    ensures
        s == t,
    decreases s.len(),
{
    if s.len() == 0 {
        if t.len() > 0 {
            assert(t.contains(t[0]));
        }
        assert(s =~= t);
    } else {
        assert(s.contains(s[0]));
        assert(t.contains(s[0]));
        let j = choose|j: int| 0 <= j < t.len() && t[j] == s[0];
        assert(t.contains(t[0]));
        let i = choose|i: int| 0 <= i < s.len() && s[i] == t[0];
        if i > 0 && j > 0 {
            assert(seq_lt(s[0], s[i]));
            assert(seq_lt(t[0], t[j]));
            lemma_lt_asymmetric(s[0], t[0]);
        }
        let s2 = s.drop_first();
        let t2 = t.drop_first();
        assert(s[0] == t[0]) by {
            if i == 0 {
            } else {
                assert(j == 0);
            }
        }
        assert forall|x: Seq<char>| s2.contains(x) <==> t2.contains(x) by {
            if s2.contains(x) {
                let k = choose|k: int| 0 <= k < s2.len() && s2[k] == x;
                assert(s[k + 1] == x);
                assert(seq_lt(s[0], s[k + 1]));
                lemma_lt_irreflexive(x);
                assert(t.contains(x));
                let m = choose|m: int| 0 <= m < t.len() && t[m] == x;
                assert(m != 0);
                assert(t2[m - 1] == x);
            }
            if t2.contains(x) {
                let k = choose|k: int| 0 <= k < t2.len() && t2[k] == x;
                assert(t[k + 1] == x);
                assert(seq_lt(t[0], t[k + 1]));
                lemma_lt_irreflexive(x);
                assert(s.contains(x));
                let m = choose|m: int| 0 <= m < s.len() && s[m] == x;
                assert(m != 0);
                assert(s2[m - 1] == x);
            }
        }
        assert forall|a: int, b: int| 0 <= a < b < s2.len() implies seq_lt(s2[a], s2[b]) by {
            assert(s2[a] == s[a + 1]);
            assert(s2[b] == s[b + 1]);
        }
        assert forall|a: int, b: int| 0 <= a < b < t2.len() implies seq_lt(t2[a], t2[b]) by {
            assert(t2[a] == t[a + 1]);
            assert(t2[b] == t[b + 1]);
        }
        lemma_sorted_unique(s2, t2);
        assert(s =~= seq![s[0]] + s2);
        assert(t =~= seq![t[0]] + t2);
    }
}

/// `a < b` lexicographically.
pub fn str_lt(a: &String, b: &String) -> (r: bool)
    ensures
        r == seq_lt(a@, b@),
{
    let sa = a.as_str();
    let sb = b.as_str();
    let la = sa.unicode_len();
    let lb = sb.unicode_len();
    let mut i: usize = 0;
    assert(a@.skip(0) =~= a@);
    assert(b@.skip(0) =~= b@);
    while i < la && i < lb
        invariant
            i <= la,
            i <= lb,
            la == a@.len(),
            lb == b@.len(),
            sa@ == a@,
            sb@ == b@,
            seq_lt(a@, b@) == seq_lt(a@.skip(i as int), b@.skip(i as int)),
        decreases la - i,
    {
        let ca = sa.get_char(i);
        let cb = sb.get_char(i);
        assert(a@.skip(i as int)[0] == ca);
        assert(b@.skip(i as int)[0] == cb);
        if ca != cb {
            return (ca as u32) < (cb as u32);
        }
        assert(a@.skip(i as int).drop_first() =~= a@.skip(i + 1));
        assert(b@.skip(i as int).drop_first() =~= b@.skip(i + 1));
        i = i + 1;
    }
    la < lb
}

} // verus!
