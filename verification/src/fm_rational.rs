//! Fourier–Motzkin over the rationals: a reported contradiction has no
//! rational solution either, and when elimination runs out of variables
//! without one, the constraints have a rational solution.
//!
//! A rational assignment is written over a common denominator: variable
//! `v` takes the value `sigma(v) / d` for some `d > 0`, so `t ≤ 0` holds
//! exactly when `d·constant + Σ coeff·sigma(v) ≤ 0`.

use vstd::prelude::*;

use crate::linear::{
    LinTermV, add_all, add_entry, key_index, lemma_add_all_sum, lemma_key_index, lemma_remove_key_sum,
    lemma_scale_vars_sum, remove_key, sum_vars,
};
use crate::sat::{
    Bound, SatOutcome, has_positive_constant, mentions, spec_combine, spec_fm, spec_pair_all, spec_pair_with,
    spec_partition,
};

verus! {

/// `t` scaled by `d`, evaluated at `sigma`: its sign is that of `t` at the
/// rational assignment `v ↦ sigma(v) / d` when `d > 0`.
pub open spec fn scaled_eval(t: LinTermV, sigma: spec_fn(Seq<char>) -> int, d: int) -> int {
    t.constant * d + sum_vars(t.vars, sigma)
}

/// Every `t ≤ 0` of `cs` holds at `v ↦ sigma(v) / d`.
pub open spec fn holds_over(cs: Seq<LinTermV>, sigma: spec_fn(Seq<char>) -> int, d: int) -> bool {
    forall|i: int| 0 <= i < cs.len() ==> scaled_eval(#[trigger] cs[i], sigma, d) <= 0
}

/// Some rational assignment satisfies every `t ≤ 0` of `cs`.
pub open spec fn rational_sat(cs: Seq<LinTermV>) -> bool {
    exists|sigma: spec_fn(Seq<char>) -> int, d: int| d > 0 && holds_over(cs, sigma, d)
}

// ── Linearity of the scaled value ──────────────────────────────────────────

proof fn lemma_scaled_scale(t: LinTermV, c: int, sigma: spec_fn(Seq<char>) -> int, d: int)
    ensures
        t.spec_scale(c) matches Some(p) ==> scaled_eval(p, sigma, d) == c * scaled_eval(t, sigma, d),
{
    if c == 0 {
        assert(c * scaled_eval(t, sigma, d) == 0) by (nonlinear_arith)
            requires
                c == 0,
        ;
        assert(sum_vars(Seq::<(Seq<char>, int)>::empty(), sigma) == 0);
    } else {
        lemma_scale_vars_sum(t.vars, c, sigma);
        let a = t.constant;
        let b = sum_vars(t.vars, sigma);
        assert((a * c) * d + c * b == c * (a * d + b)) by (nonlinear_arith);
    }
}

proof fn lemma_scaled_add(p: LinTermV, q: LinTermV, sigma: spec_fn(Seq<char>) -> int, d: int)
    ensures
        p.spec_add(q) matches Some(t) ==> scaled_eval(t, sigma, d) == scaled_eval(p, sigma, d)
            + scaled_eval(q, sigma, d),
{
    lemma_add_all_sum(p.vars, q.vars, sigma);
    assert((p.constant + q.constant) * d == p.constant * d + q.constant * d) by (nonlinear_arith);
}

proof fn lemma_scaled_without(t: LinTermV, x: Seq<char>, sigma: spec_fn(Seq<char>) -> int, d: int)
    ensures
        scaled_eval(t, sigma, d) == t.spec_coeff(x) * sigma(x) + scaled_eval(t.spec_without_var(x), sigma, d),
{
    lemma_remove_key_sum(t.vars, x, sigma);
}

proof fn lemma_scaled_combine(u: Bound, l: Bound, sigma: spec_fn(Seq<char>) -> int, d: int)
    ensures
        spec_combine(u, l) matches Some(t) ==> scaled_eval(t, sigma, d) == l.0 * scaled_eval(u.1, sigma, d)
            + u.0 * scaled_eval(l.1, sigma, d),
{
    lemma_scaled_scale(u.1, l.0, sigma, d);
    lemma_scaled_scale(l.1, u.0, sigma, d);
    match (u.1.spec_scale(l.0), l.1.spec_scale(u.0)) {
        (Some(p), Some(q)) => lemma_scaled_add(p, q, sigma, d),
        _ => {},
    }
}

// ── Changing the assignment ────────────────────────────────────────────────

/// `sigma` scaled by `b`, with `x` set to `v`.
pub open spec fn extend(sigma: spec_fn(Seq<char>) -> int, b: int, x: Seq<char>, v: int) -> spec_fn(Seq<char>) -> int {
    |n: Seq<char>| if n == x { v } else { b * sigma(n) }
}

proof fn lemma_sum_extend(s: Seq<(Seq<char>, int)>, sigma: spec_fn(Seq<char>) -> int, b: int, x: Seq<char>, v: int)
    requires
        forall|j: int| 0 <= j < s.len() ==> (#[trigger] s[j]).0 != x,
    ensures
        sum_vars(s, extend(sigma, b, x, v)) == b * sum_vars(s, sigma),
    decreases s.len(),
{
    if s.len() > 0 {
        let s2 = s.drop_last();
        assert forall|j: int| 0 <= j < s2.len() implies (#[trigger] s2[j]).0 != x by {
            assert(s2[j] == s[j]);
        }
        lemma_sum_extend(s2, sigma, b, x, v);
        assert(s.last() == s[s.len() - 1]);
        let k = s.last().1;
        let y = sigma(s.last().0);
        let r = sum_vars(s2, sigma);
        assert(b * r + k * (b * y) == b * (r + k * y)) by (nonlinear_arith);
    }
}

proof fn lemma_without_has_no_x(t: LinTermV, x: Seq<char>)
    requires
        t.wf(),
    ensures
        forall|j: int| 0 <= j < t.spec_without_var(x).vars.len() ==> (#[trigger] t.spec_without_var(x).vars[j]).0 != x,
        t.spec_coeff(x) == 0 ==> forall|j: int| 0 <= j < t.vars.len() ==> (#[trigger] t.vars[j]).0 != x,
{
    lemma_key_index(t.vars, x);
    let s = t.vars;
    match key_index(s, x) {
        Some(i) => {
            let r = s.remove(i);
            assert forall|j: int| 0 <= j < r.len() implies (#[trigger] r[j]).0 != x by {
                let j2 = if j < i { j } else { j + 1 };
                assert(r[j] == s[j2]);
            }
        },
        None => {},
    }
}

/// At `extend(sigma, b, x, v)` over `d·b`, a well-formed term takes its
/// `x` coefficient times `v`, plus `b` times the value of the rest at
/// `sigma` over `d`.
proof fn lemma_scaled_extend(t: LinTermV, sigma: spec_fn(Seq<char>) -> int, d: int, b: int, x: Seq<char>, v: int)
    requires
        t.wf(),
    ensures
        scaled_eval(t, extend(sigma, b, x, v), d * b) == t.spec_coeff(x) * v + b * scaled_eval(
            t.spec_without_var(x),
            sigma,
            d,
        ),
        scaled_eval(t, sigma, d) == t.spec_coeff(x) * sigma(x) + scaled_eval(t.spec_without_var(x), sigma, d),
{
    let e = extend(sigma, b, x, v);
    lemma_scaled_without(t, x, e, d * b);
    lemma_scaled_without(t, x, sigma, d);
    lemma_without_has_no_x(t, x);
    let w = t.spec_without_var(x);
    lemma_sum_extend(w.vars, sigma, b, x, v);
    assert(e(x) == v);
    let a = w.constant * d;
    let m = sum_vars(w.vars, sigma);
    assert(w.constant * (d * b) == b * a) by (nonlinear_arith)
        requires
            a == w.constant * d,
    ;
    assert(b * a + b * m == b * (a + m)) by (nonlinear_arith);
    assert(scaled_eval(w, e, d * b) == b * scaled_eval(w, sigma, d));
}

// ── Names ──────────────────────────────────────────────────────────────────

/// Some entry of `s` is named `n`.
pub open spec fn name_in(s: Seq<(Seq<char>, int)>, n: Seq<char>) -> bool {
    exists|m: int| 0 <= m < s.len() && (#[trigger] s[m]).0 == n
}

proof fn lemma_add_entry_names(s: Seq<(Seq<char>, int)>, k: Seq<char>, v: int)
    ensures
        add_entry(s, k, v) matches Some(t) ==> forall|j: int|
            0 <= j < t.len() ==> (#[trigger] t[j]).0 == k || name_in(s, t[j].0),
{
    lemma_key_index(s, k);
    match add_entry(s, k, v) {
        Some(t) => {
            assert forall|j: int| 0 <= j < t.len() implies (#[trigger] t[j]).0 == k || name_in(s, t[j].0) by {
                match key_index(s, k) {
                    Some(i) => {
                        let n = s[i].1 + v;
                        if n == 0 {
                            let j2 = if j < i { j } else { j + 1 };
                            assert(t[j] == s[j2]);
                        } else if j != i {
                            assert(t[j] == s[j]);
                        }
                    },
                    None => {
                        if j < s.len() {
                            assert(t[j] == s[j]);
                        }
                    },
                }
            }
        },
        None => {},
    }
}

proof fn lemma_add_all_names(s: Seq<(Seq<char>, int)>, other: Seq<(Seq<char>, int)>)
    ensures
        add_all(s, other) matches Some(t) ==> forall|j: int|
            0 <= j < t.len() ==> name_in(s, (#[trigger] t[j]).0) || name_in(other, t[j].0),
    decreases other.len(),
{
    if other.len() > 0 {
        let o2 = other.drop_last();
        lemma_add_all_names(s, o2);
        match add_all(s, o2) {
            Some(s1) => {
                lemma_add_entry_names(s1, other.last().0, other.last().1);
                match add_all(s, other) {
                    Some(t) => {
                        assert forall|j: int| 0 <= j < t.len() implies name_in(s, (#[trigger] t[j]).0)
                            || name_in(other, t[j].0) by {
                            if t[j].0 == other.last().0 {
                                assert(other[other.len() - 1].0 == t[j].0);
                            } else {
                                let m = choose|m: int| 0 <= m < s1.len() && (#[trigger] s1[m]).0 == t[j].0;
                                assert(s1[m].0 == t[j].0);
                                if name_in(o2, s1[m].0) {
                                    let q = choose|q: int| 0 <= q < o2.len() && (#[trigger] o2[q]).0 == s1[m].0;
                                    assert(other[q] == o2[q]);
                                }
                            }
                        }
                    },
                    None => {},
                }
            },
            None => {},
        }
    }
}

proof fn lemma_remove_key_names(s: Seq<(Seq<char>, int)>, k: Seq<char>)
    ensures
        forall|j: int| 0 <= j < remove_key(s, k).len() ==> name_in(s, (#[trigger] remove_key(s, k)[j]).0),
{
    lemma_key_index(s, k);
    match key_index(s, k) {
        Some(i) => {
            let r = s.remove(i);
            assert forall|j: int| 0 <= j < r.len() implies name_in(s, (#[trigger] r[j]).0) by {
                let j2 = if j < i { j } else { j + 1 };
                assert(r[j] == s[j2]);
            }
        },
        None => {
            assert forall|j: int| 0 <= j < s.len() implies name_in(s, (#[trigger] s[j]).0) by {
            }
        },
    }
}

/// The names of a combination come from the two bounds' rests.
proof fn lemma_combine_names(u: Bound, l: Bound)
    ensures
        spec_combine(u, l) matches Some(t) ==> forall|j: int|
            0 <= j < t.vars.len() ==> name_in(u.1.vars, (#[trigger] t.vars[j]).0) || name_in(l.1.vars, t.vars[j].0),
{
    match (u.1.spec_scale(l.0), l.1.spec_scale(u.0)) {
        (Some(p), Some(q)) => {
            lemma_add_all_names(p.vars, q.vars);
            lemma_scale_vars_sum(u.1.vars, l.0, |n: Seq<char>| 0int);
            lemma_scale_vars_sum(l.1.vars, u.0, |n: Seq<char>| 0int);
            match spec_combine(u, l) {
                Some(t) => {
                    assert forall|j: int| 0 <= j < t.vars.len() implies name_in(u.1.vars, (#[trigger] t.vars[j]).0)
                        || name_in(l.1.vars, t.vars[j].0) by {
                        if name_in(p.vars, t.vars[j].0) {
                            let m = choose|m: int| 0 <= m < p.vars.len() && (#[trigger] p.vars[m]).0 == t.vars[j].0;
                            if l.0 != 0 {
                                assert(p.vars[m].0 == u.1.vars[m].0);
                            }
                        } else {
                            let m = choose|m: int| 0 <= m < q.vars.len() && (#[trigger] q.vars[m]).0 == t.vars[j].0;
                            if u.0 != 0 {
                                assert(q.vars[m].0 == l.1.vars[m].0);
                            }
                        }
                    }
                },
                None => {},
            }
        },
        _ => {},
    }
}

// ── What elimination derives ───────────────────────────────────────────────

/// The combinations of `u` with each lower bound, in order (each is `Some`
/// where elimination got past this step).
pub open spec fn combos(u: Bound, lows: Seq<Bound>) -> Seq<LinTermV> {
    Seq::new(lows.len(), |j: int| spec_combine(u, lows[j])->Some_0)
}

/// The combinations of every upper bound with every lower bound.
pub open spec fn all_combos(ups: Seq<Bound>, lows: Seq<Bound>) -> Seq<LinTermV>
    decreases ups.len(),
{
    if ups.len() == 0 {
        Seq::empty()
    } else {
        all_combos(ups.drop_last(), lows) + combos(ups.last(), lows)
    }
}

proof fn lemma_pair_with_eq(u: Bound, lows: Seq<Bound>, acc: Seq<LinTermV>)
    ensures
        spec_pair_with(u, lows, acc) matches Some(r) ==> r == acc + combos(u, lows) && forall|j: int|
            0 <= j < lows.len() ==> spec_combine(u, #[trigger] lows[j]) is Some,
    decreases lows.len(),
{
    if lows.len() > 0 {
        let l2 = lows.drop_last();
        lemma_pair_with_eq(u, l2, acc);
        match spec_pair_with(u, lows, acc) {
            Some(r) => {
                let last = lows.len() - 1;
                assert(lows.last() == lows[last]);
                assert(combos(u, lows) =~= combos(u, l2).push(spec_combine(u, lows[last])->Some_0)) by {
                    assert forall|j: int| 0 <= j < l2.len() implies l2[j] == lows[j] by {}
                }
                assert(r =~= acc + combos(u, lows));
                assert forall|j: int| 0 <= j < lows.len() implies spec_combine(u, #[trigger] lows[j]) is Some by {
                    if j < last {
                        assert(l2[j] == lows[j]);
                    }
                }
            },
            None => {},
        }
    }
}

proof fn lemma_pair_all_eq(ups: Seq<Bound>, lows: Seq<Bound>, acc: Seq<LinTermV>)
    ensures
        spec_pair_all(ups, lows, acc) matches Some(r) ==> r == acc + all_combos(ups, lows) && forall|i: int, j: int|
            0 <= i < ups.len() && 0 <= j < lows.len() ==> spec_combine(#[trigger] ups[i], #[trigger] lows[j]) is Some,
    decreases ups.len(),
{
    if ups.len() > 0 {
        let u2 = ups.drop_last();
        lemma_pair_all_eq(u2, lows, acc);
        match spec_pair_all(u2, lows, acc) {
            Some(a1) => {
                lemma_pair_with_eq(ups.last(), lows, a1);
                match spec_pair_all(ups, lows, acc) {
                    Some(r) => {
                        assert(r =~= acc + all_combos(ups, lows));
                        assert forall|i: int, j: int| 0 <= i < ups.len() && 0 <= j < lows.len() implies spec_combine(
                            #[trigger] ups[i],
                            #[trigger] lows[j],
                        ) is Some by {
                            if i < ups.len() - 1 {
                                assert(u2[i] == ups[i]);
                            } else {
                                assert(ups.last() == ups[i]);
                            }
                        }
                    },
                    None => {},
                }
            },
            None => {},
        }
    }
}

/// Each combination of an upper bound with a lower bound is among
/// [`all_combos`].
proof fn lemma_all_combos_has(ups: Seq<Bound>, lows: Seq<Bound>, i: int, j: int)
    requires
        0 <= i < ups.len(),
        0 <= j < lows.len(),
    ensures
        all_combos(ups, lows).contains(spec_combine(ups[i], lows[j])->Some_0),
    decreases ups.len(),
{
    let u2 = ups.drop_last();
    let a = all_combos(u2, lows);
    let c = combos(ups.last(), lows);
    if i < ups.len() - 1 {
        lemma_all_combos_has(u2, lows, i, j);
        assert(u2[i] == ups[i]);
        let k = choose|k: int| 0 <= k < a.len() && a[k] == spec_combine(u2[i], lows[j])->Some_0;
        assert((a + c)[k] == a[k]);
    } else {
        assert(ups.last() == ups[i]);
        assert((a + c)[a.len() + j] == c[j]);
    }
}

/// Whatever holds of every combination holds of every element of
/// [`all_combos`].
proof fn lemma_all_combos_each(ups: Seq<Bound>, lows: Seq<Bound>, k: int)
    requires
        0 <= k < all_combos(ups, lows).len(),
    ensures
        exists|i: int, j: int|
            0 <= i < ups.len() && 0 <= j < lows.len() && all_combos(ups, lows)[k] == spec_combine(
                #[trigger] ups[i],
                #[trigger] lows[j],
            )->Some_0,
    decreases ups.len(),
{
    let u2 = ups.drop_last();
    let a = all_combos(u2, lows);
    let c = combos(ups.last(), lows);
    if k < a.len() {
        lemma_all_combos_each(u2, lows, k);
        let (i, j) = choose|i: int, j: int|
            0 <= i < u2.len() && 0 <= j < lows.len() && a[k] == spec_combine(#[trigger] u2[i], #[trigger] lows[j])->Some_0;
        assert(u2[i] == ups[i]);
        assert((a + c)[k] == a[k]);
    } else {
        let j = k - a.len();
        assert(ups.last() == ups[ups.len() - 1]);
        assert((a + c)[k] == c[j]);
    }
}

/// Every entry of `t` is a variable of `cs` other than `x`.
pub open spec fn names_ok(t: LinTermV, cs: Seq<LinTermV>, x: Seq<char>) -> bool {
    forall|j: int| 0 <= j < t.vars.len() ==> (#[trigger] t.vars[j]).0 != x && mentions(cs, t.vars[j].0)
}

pub open spec fn terms_wf(cs: Seq<LinTermV>) -> bool {
    forall|i: int| 0 <= i < cs.len() ==> (#[trigger] cs[i]).wf()
}

proof fn lemma_mentions_prefix(cs: Seq<LinTermV>, n: Seq<char>)
    requires
        cs.len() > 0,
        mentions(cs.drop_last(), n),
    ensures
        mentions(cs, n),
{
    let c2 = cs.drop_last();
    let (i, j) = choose|i: int, j: int| 0 <= i < c2.len() && 0 <= j < c2[i].vars.len() && (#[trigger] c2[i].vars[j]).0 == n;
    assert(c2[i] == cs[i]);
    assert(cs[i].vars[j].0 == n);
}

proof fn lemma_partition_props(cs: Seq<LinTermV>, x: Seq<char>)
    requires
        terms_wf(cs),
    ensures
        spec_partition(cs, x) matches Some((p, u, l)) ==> {
            &&& forall|k: int| 0 <= k < p.len() ==> (#[trigger] p[k]).wf() && names_ok(p[k], cs, x)
            &&& forall|k: int| 0 <= k < u.len() ==> (#[trigger] u[k]).0 > 0 && u[k].1.wf() && names_ok(u[k].1, cs, x)
            &&& forall|k: int| 0 <= k < l.len() ==> (#[trigger] l[k]).0 > 0 && l[k].1.wf() && names_ok(l[k].1, cs, x)
        },
    decreases cs.len(),
{
    if cs.len() > 0 {
        let c2 = cs.drop_last();
        assert forall|i: int| 0 <= i < c2.len() implies (#[trigger] c2[i]).wf() by {
            assert(c2[i] == cs[i]);
        }
        lemma_partition_props(c2, x);
        let last = cs.len() - 1;
        let t = cs.last();
        assert(t == cs[last]);
        t.lemma_without_var(x, |n: Seq<char>| 0int);
        lemma_without_has_no_x(t, x);
        lemma_remove_key_names(t.vars, x);
        let w = t.spec_without_var(x);
        assert forall|j: int| 0 <= j < t.vars.len() implies mentions(cs, (#[trigger] t.vars[j]).0) by {
            assert(cs[last].vars[j] == t.vars[j]);
        }
        assert forall|j: int| 0 <= j < w.vars.len() implies mentions(cs, (#[trigger] w.vars[j]).0) by {
            let m = choose|m: int| 0 <= m < t.vars.len() && (#[trigger] t.vars[m]).0 == w.vars[j].0;
            assert(cs[last].vars[m] == t.vars[m]);
        }
        match spec_partition(c2, x) {
            Some((p0, u0, l0)) => {
                match spec_partition(cs, x) {
                    Some((p, u, l)) => {
                        assert forall|k: int| 0 <= k < p.len() implies (#[trigger] p[k]).wf() && names_ok(p[k], cs, x) by {
                            if k < p0.len() {
                                assert(p[k] == p0[k]);
                                assert forall|j: int| 0 <= j < p[k].vars.len() implies (#[trigger] p[k].vars[j]).0 != x
                                    && mentions(cs, p[k].vars[j].0) by {
                                    assert(names_ok(p0[k], c2, x));
                                    lemma_mentions_prefix(cs, p[k].vars[j].0);
                                }
                            } else {
                                assert(p[k] == t);
                            }
                        }
                        assert forall|k: int| 0 <= k < u.len() implies (#[trigger] u[k]).0 > 0 && u[k].1.wf()
                            && names_ok(u[k].1, cs, x) by {
                            if k < u0.len() {
                                assert(u[k] == u0[k]);
                                assert forall|j: int| 0 <= j < u[k].1.vars.len() implies (#[trigger] u[k].1.vars[j]).0 != x
                                    && mentions(cs, u[k].1.vars[j].0) by {
                                    assert(names_ok(u0[k].1, c2, x));
                                    lemma_mentions_prefix(cs, u[k].1.vars[j].0);
                                }
                            } else {
                                assert(u[k] == (t.spec_coeff(x), w));
                            }
                        }
                        assert forall|k: int| 0 <= k < l.len() implies (#[trigger] l[k]).0 > 0 && l[k].1.wf()
                            && names_ok(l[k].1, cs, x) by {
                            if k < l0.len() {
                                assert(l[k] == l0[k]);
                                assert forall|j: int| 0 <= j < l[k].1.vars.len() implies (#[trigger] l[k].1.vars[j]).0 != x
                                    && mentions(cs, l[k].1.vars[j].0) by {
                                    assert(names_ok(l0[k].1, c2, x));
                                    lemma_mentions_prefix(cs, l[k].1.vars[j].0);
                                }
                            } else {
                                assert(l[k] == (-t.spec_coeff(x), w));
                            }
                        }
                    },
                    None => {},
                }
            },
            None => {},
        }
    }
}

proof fn lemma_combine_props(u: Bound, l: Bound, cs: Seq<LinTermV>, x: Seq<char>)
    requires
        u.1.wf(),
        l.1.wf(),
        names_ok(u.1, cs, x),
        names_ok(l.1, cs, x),
    ensures
        spec_combine(u, l) matches Some(t) ==> t.wf() && names_ok(t, cs, x),
{
    let z = |n: Seq<char>| 0int;
    u.1.lemma_scale(l.0, z);
    l.1.lemma_scale(u.0, z);
    lemma_combine_names(u, l);
    match (u.1.spec_scale(l.0), l.1.spec_scale(u.0)) {
        (Some(p), Some(q)) => {
            p.lemma_add(q, z);
            match spec_combine(u, l) {
                Some(t) => {
                    assert forall|j: int| 0 <= j < t.vars.len() implies (#[trigger] t.vars[j]).0 != x
                        && mentions(cs, t.vars[j].0) by {
                        if name_in(u.1.vars, t.vars[j].0) {
                            let m = choose|m: int| 0 <= m < u.1.vars.len() && (#[trigger] u.1.vars[m]).0 == t.vars[j].0;
                        } else {
                            let m = choose|m: int| 0 <= m < l.1.vars.len() && (#[trigger] l.1.vars[m]).0 == t.vars[j].0;
                        }
                    }
                },
                None => {},
            }
        },
        _ => {},
    }
}

/// Giving `x` the value `X` (over `d·b`) satisfies every constraint
/// when it satisfies every bound on `x` and the constraints without `x`
/// hold.
proof fn lemma_partition_complete(
    cs: Seq<LinTermV>,
    x: Seq<char>,
    sigma: spec_fn(Seq<char>) -> int,
    d: int,
    b: int,
    xv: int,
)
    requires
        terms_wf(cs),
        b > 0,
        spec_partition(cs, x) matches Some((p, u, l)) && {
            &&& forall|k: int| 0 <= k < p.len() ==> scaled_eval(#[trigger] p[k], sigma, d) <= 0
            &&& forall|k: int| 0 <= k < u.len() ==> (#[trigger] u[k]).0 * xv + b * scaled_eval(u[k].1, sigma, d) <= 0
            &&& forall|k: int| 0 <= k < l.len() ==> -(#[trigger] l[k]).0 * xv + b * scaled_eval(l[k].1, sigma, d) <= 0
        },
    ensures
        holds_over(cs, extend(sigma, b, x, xv), d * b),
    decreases cs.len(),
{
    if cs.len() > 0 {
        let c2 = cs.drop_last();
        assert forall|i: int| 0 <= i < c2.len() implies (#[trigger] c2[i]).wf() by {
            assert(c2[i] == cs[i]);
        }
        let (p, u, l) = spec_partition(cs, x)->Some_0;
        let (p0, u0, l0) = spec_partition(c2, x)->Some_0;
        assert forall|k: int| 0 <= k < p0.len() implies scaled_eval(#[trigger] p0[k], sigma, d) <= 0 by {
            assert(p[k] == p0[k]);
        }
        assert forall|k: int| 0 <= k < u0.len() implies (#[trigger] u0[k]).0 * xv + b * scaled_eval(u0[k].1, sigma, d) <= 0 by {
            assert(u[k] == u0[k]);
        }
        assert forall|k: int| 0 <= k < l0.len() implies -(#[trigger] l0[k]).0 * xv + b * scaled_eval(l0[k].1, sigma, d) <= 0 by {
            assert(l[k] == l0[k]);
        }
        lemma_partition_complete(c2, x, sigma, d, b, xv);
        let last = cs.len() - 1;
        let t = cs.last();
        assert(t == cs[last]);
        lemma_scaled_extend(t, sigma, d, b, x, xv);
        let c = t.spec_coeff(x);
        let w = t.spec_without_var(x);
        let sw = scaled_eval(w, sigma, d);
        if c == 0 {
            assert(p[p.len() - 1] == t);
            assert(scaled_eval(p[p.len() - 1], sigma, d) <= 0);
            assert(c * sigma(x) == 0 && c * xv == 0) by (nonlinear_arith)
                requires
                    c == 0,
            ;
            assert(b * sw <= 0) by (nonlinear_arith)
                requires
                    b > 0,
                    sw <= 0,
            ;
        } else if c > 0 {
            assert(u[u.len() - 1] == (c, w));
        } else {
            assert(l[l.len() - 1] == (-c, w));
        }
        let e = extend(sigma, b, x, xv);
        assert forall|i: int| 0 <= i < cs.len() implies scaled_eval(#[trigger] cs[i], e, d * b) <= 0 by {
            if i < last {
                assert(c2[i] == cs[i]);
            }
        }
    }
}

proof fn lemma_ratio_trans(v1: int, c1: int, v2: int, c2: int, v3: int, c3: int)
    requires
        c1 > 0,
        c2 > 0,
        c3 > 0,
        v1 * c2 <= v2 * c1,
        v2 * c3 <= v3 * c2,
    ensures
        v1 * c3 <= v3 * c1,
{
    assert(v1 * c2 * c3 <= v2 * c1 * c3) by (nonlinear_arith)
        requires
            c3 > 0,
            v1 * c2 <= v2 * c1,
    ;
    assert(v2 * c3 * c1 <= v3 * c2 * c1) by (nonlinear_arith)
        requires
            c1 > 0,
            v2 * c3 <= v3 * c2,
    ;
    assert(v1 * c3 * c2 <= v3 * c1 * c2) by (nonlinear_arith)
        requires
            v1 * c2 * c3 <= v2 * c1 * c3,
            v2 * c3 * c1 <= v3 * c2 * c1,
    ;
    assert(v1 * c3 <= v3 * c1) by (nonlinear_arith)
        requires
            c2 > 0,
            v1 * c3 * c2 <= v3 * c1 * c2,
    ;
}

/// The bound whose rest, divided by its coefficient, is largest.
proof fn lemma_argmax(bs: Seq<Bound>, sigma: spec_fn(Seq<char>) -> int, d: int) -> (m: int)
    requires
        bs.len() > 0,
        forall|k: int| 0 <= k < bs.len() ==> (#[trigger] bs[k]).0 > 0,
    ensures
        0 <= m < bs.len(),
        forall|k: int|
            0 <= k < bs.len() ==> scaled_eval((#[trigger] bs[k]).1, sigma, d) * bs[m].0 <= scaled_eval(bs[m].1, sigma, d)
                * bs[k].0,
    decreases bs.len(),
{
    let last = bs.len() - 1;
    if bs.len() == 1 {
        assert forall|k: int| 0 <= k < bs.len() implies scaled_eval((#[trigger] bs[k]).1, sigma, d) * bs[0].0
            <= scaled_eval(bs[0].1, sigma, d) * bs[k].0 by {
            assert(k == 0);
        }
        0
    } else {
        let b2 = bs.drop_last();
        assert forall|k: int| 0 <= k < b2.len() implies (#[trigger] b2[k]).0 > 0 by {
            assert(b2[k] == bs[k]);
        }
        let m0 = lemma_argmax(b2, sigma, d);
        assert(b2[m0] == bs[m0]);
        let vm = scaled_eval(bs[m0].1, sigma, d);
        let cm = bs[m0].0;
        let vl = scaled_eval(bs[last].1, sigma, d);
        let cl = bs[last].0;
        if vl * cm <= vm * cl {
            assert forall|k: int| 0 <= k < bs.len() implies scaled_eval((#[trigger] bs[k]).1, sigma, d) * bs[m0].0
                <= scaled_eval(bs[m0].1, sigma, d) * bs[k].0 by {
                if k < last {
                    assert(b2[k] == bs[k]);
                }
            }
            m0
        } else {
            assert forall|k: int| 0 <= k < bs.len() implies scaled_eval((#[trigger] bs[k]).1, sigma, d) * bs[last].0
                <= scaled_eval(bs[last].1, sigma, d) * bs[k].0 by {
                if k < last {
                    assert(b2[k] == bs[k]);
                    let vk = scaled_eval(bs[k].1, sigma, d);
                    let ck = bs[k].0;
                    assert(vk * cm <= vm * ck);
                    assert(vm * cl <= vl * cm);
                    lemma_ratio_trans(vk, ck, vm, cm, vl, cl);
                } else {
                    assert(vl * cl == vl * cl);
                }
            }
            last
        }
    }
}

/// One elimination step loses no rational solution: a rational solution
/// of what eliminating `x` leaves extends, by a value for `x`, to one of
/// the constraints before.
proof fn lemma_fm_step(cs: Seq<LinTermV>, x: Seq<char>, sigma: spec_fn(Seq<char>) -> int, d: int)
    requires
        terms_wf(cs),
        d > 0,
        spec_partition(cs, x) matches Some((p, u, l)) && spec_pair_all(u, l, p) matches Some(next)
            && holds_over(next, sigma, d),
    ensures
        rational_sat(cs),
{
    let (p, u, l) = spec_partition(cs, x)->Some_0;
    let next = spec_pair_all(u, l, p)->Some_0;
    lemma_pair_all_eq(u, l, p);
    lemma_partition_props(cs, x);
    let all = all_combos(u, l);
    assert(next == p + all);
    assert forall|k: int| 0 <= k < p.len() implies scaled_eval(#[trigger] p[k], sigma, d) <= 0 by {
        assert(next[k] == p[k]);
    }
    // every combination of an upper and a lower bound holds
    assert forall|i: int, j: int| 0 <= i < u.len() && 0 <= j < l.len() implies #[trigger] l[j].0 * scaled_eval(
        u[i].1,
        sigma,
        d,
    ) + #[trigger] u[i].0 * scaled_eval(l[j].1, sigma, d) <= 0 by {
        lemma_all_combos_has(u, l, i, j);
        let t = spec_combine(u[i], l[j])->Some_0;
        assert(spec_combine(u[i], l[j]) is Some);
        let k = choose|k: int| 0 <= k < all.len() && all[k] == t;
        assert(next[p.len() + k] == all[k]);
        lemma_scaled_combine(u[i], l[j], sigma, d);
    }
    if l.len() > 0 {
        let m = lemma_argmax(l, sigma, d);
        let b = l[m].0;
        let xv = scaled_eval(l[m].1, sigma, d);
        assert forall|k: int| 0 <= k < u.len() implies (#[trigger] u[k]).0 * xv + b * scaled_eval(u[k].1, sigma, d) <= 0 by {
            assert(l[m].0 * scaled_eval(u[k].1, sigma, d) + u[k].0 * scaled_eval(l[m].1, sigma, d) <= 0);
        }
        assert forall|k: int| 0 <= k < l.len() implies -(#[trigger] l[k]).0 * xv + b * scaled_eval(l[k].1, sigma, d) <= 0 by {
            let sk = scaled_eval(l[k].1, sigma, d);
            assert(sk * b <= xv * l[k].0);
            assert(-l[k].0 * xv + b * sk <= 0) by (nonlinear_arith)
                requires
                    sk * b <= xv * l[k].0,
            ;
        }
        lemma_partition_complete(cs, x, sigma, d, b, xv);
        assert(d * b > 0) by (nonlinear_arith)
            requires
                d > 0,
                b > 0,
        ;
        assert(holds_over(cs, extend(sigma, b, x, xv), d * b));
    } else if u.len() > 0 {
        let m = lemma_argmax(u, sigma, d);
        let b = u[m].0;
        let rm = scaled_eval(u[m].1, sigma, d);
        let xv = -rm;
        assert forall|k: int| 0 <= k < u.len() implies (#[trigger] u[k]).0 * xv + b * scaled_eval(u[k].1, sigma, d) <= 0 by {
            let rk = scaled_eval(u[k].1, sigma, d);
            assert(rk * b <= rm * u[k].0);
            assert(u[k].0 * (-rm) + b * rk <= 0) by (nonlinear_arith)
                requires
                    rk * b <= rm * u[k].0,
            ;
        }
        lemma_partition_complete(cs, x, sigma, d, b, xv);
        assert(d * b > 0) by (nonlinear_arith)
            requires
                d > 0,
                b > 0,
        ;
        assert(holds_over(cs, extend(sigma, b, x, xv), d * b));
    } else {
        lemma_partition_complete(cs, x, sigma, d, 1, 0);
        assert(d * 1 == d);
        assert(holds_over(cs, extend(sigma, 1, x, 0), d * 1));
    }
}

proof fn lemma_next_props(cs: Seq<LinTermV>, x: Seq<char>)
    requires
        terms_wf(cs),
        spec_partition(cs, x) matches Some((p, u, l)) && spec_pair_all(u, l, p) is Some,
    ensures
        ({
            let (p, u, l) = spec_partition(cs, x)->Some_0;
            let next = spec_pair_all(u, l, p)->Some_0;
            forall|k: int| 0 <= k < next.len() ==> (#[trigger] next[k]).wf() && names_ok(next[k], cs, x)
        }),
{
    let (p, u, l) = spec_partition(cs, x)->Some_0;
    let next = spec_pair_all(u, l, p)->Some_0;
    lemma_pair_all_eq(u, l, p);
    lemma_partition_props(cs, x);
    let all = all_combos(u, l);
    assert forall|k: int| 0 <= k < next.len() implies (#[trigger] next[k]).wf() && names_ok(next[k], cs, x) by {
        if k < p.len() {
            assert(next[k] == p[k]);
        } else {
            let q = k - p.len();
            assert(next[k] == all[q]);
            lemma_all_combos_each(u, l, q);
            let (i, j) = choose|i: int, j: int|
                0 <= i < u.len() && 0 <= j < l.len() && all[q] == spec_combine(#[trigger] u[i], #[trigger] l[j])->Some_0;
            assert(spec_combine(u[i], l[j]) is Some);
            lemma_combine_props(u[i], l[j], cs, x);
        }
    }
}

/// When Fourier–Motzkin runs out of variables without a contradiction,
/// the constraints `t ≤ 0` have a rational solution: for well-formed
/// terms, eliminating (in any order) a list that holds every variable
/// they mention.
pub proof fn lemma_fm_rational_complete(cs: Seq<LinTermV>, vars: Seq<Seq<char>>)
    requires
        terms_wf(cs),
        forall|n: Seq<char>| mentions(cs, n) ==> vars.contains(n),
        spec_fm(cs, vars) == SatOutcome::SatisfiableOverRationals,
    ensures
        rational_sat(cs),
    decreases vars.len(),
{
    if vars.len() == 0 {
        let z = |n: Seq<char>| 0int;
        assert forall|i: int| 0 <= i < cs.len() implies scaled_eval(#[trigger] cs[i], z, 1) <= 0 by {
            if cs[i].vars.len() > 0 {
                assert(cs[i].vars[0].0 == cs[i].vars[0].0);
                assert(mentions(cs, cs[i].vars[0].0));
            }
            assert(!(cs[i].spec_is_constant() && cs[i].constant > 0));
            assert(sum_vars(cs[i].vars, z) == 0);
        }
        assert(holds_over(cs, z, 1));
    } else {
        let x = vars[0];
        let (p, u, l) = spec_partition(cs, x)->Some_0;
        let next = spec_pair_all(u, l, p)->Some_0;
        lemma_next_props(cs, x);
        let rest = vars.drop_first();
        assert forall|n: Seq<char>| mentions(next, n) implies rest.contains(n) by {
            let (i, j) = choose|i: int, j: int| 0 <= i < next.len() && 0 <= j < next[i].vars.len() && (#[trigger] next[i].vars[j]).0 == n;
            assert(names_ok(next[i], cs, x));
            assert(next[i].vars[j].0 != x && mentions(cs, n));
            let q = choose|q: int| 0 <= q < vars.len() && vars[q] == n;
            assert(q != 0);
            assert(rest[q - 1] == n);
        }
        assert(terms_wf(next));
        lemma_fm_rational_complete(next, rest);
        let (sigma, d) = choose|sigma: spec_fn(Seq<char>) -> int, d: int| d > 0 && holds_over(next, sigma, d);
        lemma_fm_step(cs, x, sigma, d);
    }
}

// ── Soundness over the rationals ───────────────────────────────────────────

proof fn lemma_partition_holds(cs: Seq<LinTermV>, x: Seq<char>, sigma: spec_fn(Seq<char>) -> int, d: int)
    requires
        holds_over(cs, sigma, d),
    ensures
        spec_partition(cs, x) matches Some((p, u, l)) ==> {
            &&& holds_over(p, sigma, d)
            &&& forall|k: int| 0 <= k < u.len() ==> (#[trigger] u[k]).0 > 0 && u[k].0 * sigma(x) + scaled_eval(u[k].1, sigma, d) <= 0
            &&& forall|k: int| 0 <= k < l.len() ==> (#[trigger] l[k]).0 > 0 && -l[k].0 * sigma(x) + scaled_eval(l[k].1, sigma, d) <= 0
        },
    decreases cs.len(),
{
    if cs.len() > 0 {
        let c2 = cs.drop_last();
        assert forall|i: int| 0 <= i < c2.len() implies scaled_eval(#[trigger] c2[i], sigma, d) <= 0 by {
            assert(c2[i] == cs[i]);
        }
        lemma_partition_holds(c2, x, sigma, d);
        let t = cs.last();
        assert(t == cs[cs.len() - 1]);
        lemma_scaled_without(t, x, sigma, d);
        let c = t.spec_coeff(x);
        if c == 0 {
            assert(c * sigma(x) == 0) by (nonlinear_arith)
                requires
                    c == 0,
            ;
        }
        if c < 0 {
            assert(-(-c) * sigma(x) == c * sigma(x)) by (nonlinear_arith);
        }
        match spec_partition(c2, x) {
            Some((p0, u0, l0)) => {
                match spec_partition(cs, x) {
                    Some((p, u, l)) => {
                        assert forall|k: int| 0 <= k < p.len() implies scaled_eval(#[trigger] p[k], sigma, d) <= 0 by {
                            if k < p0.len() {
                                assert(p[k] == p0[k]);
                            }
                        }
                        assert forall|k: int| 0 <= k < u.len() implies (#[trigger] u[k]).0 > 0 && u[k].0 * sigma(x)
                            + scaled_eval(u[k].1, sigma, d) <= 0 by {
                            if k < u0.len() {
                                assert(u[k] == u0[k]);
                            }
                        }
                        assert forall|k: int| 0 <= k < l.len() implies (#[trigger] l[k]).0 > 0 && -l[k].0 * sigma(x)
                            + scaled_eval(l[k].1, sigma, d) <= 0 by {
                            if k < l0.len() {
                                assert(l[k] == l0[k]);
                            }
                        }
                    },
                    None => {},
                }
            },
            None => {},
        }
    }
}

/// Fourier–Motzkin never derives a contradiction from constraints that a
/// rational assignment satisfies, whatever the terms' entries.
pub proof fn lemma_fm_rational_sound(cs: Seq<LinTermV>, vars: Seq<Seq<char>>)
    requires
        spec_fm(cs, vars) == SatOutcome::Contradiction,
    ensures
        !rational_sat(cs),
    decreases vars.len(),
{
    if rational_sat(cs) {
        let (sigma, d) = choose|sigma: spec_fn(Seq<char>) -> int, d: int| d > 0 && holds_over(cs, sigma, d);
        if has_positive_constant(cs) {
            let i = choose|i: int| 0 <= i < cs.len() && (#[trigger] cs[i]).spec_is_constant() && cs[i].constant > 0;
            assert(scaled_eval(cs[i], sigma, d) <= 0);
            assert(sum_vars(cs[i].vars, sigma) == 0);
            assert(cs[i].constant * d > 0) by (nonlinear_arith)
                requires
                    cs[i].constant > 0,
                    d > 0,
            ;
        } else {
            let x = vars[0];
            let (p, u, l) = spec_partition(cs, x)->Some_0;
            let next = spec_pair_all(u, l, p)->Some_0;
            lemma_partition_holds(cs, x, sigma, d);
            lemma_pair_all_eq(u, l, p);
            let all = all_combos(u, l);
            assert forall|k: int| 0 <= k < next.len() implies scaled_eval(#[trigger] next[k], sigma, d) <= 0 by {
                if k < p.len() {
                    assert(next[k] == p[k]);
                } else {
                    let q = k - p.len();
                    assert(next[k] == all[q]);
                    lemma_all_combos_each(u, l, q);
                    let (i, j) = choose|i: int, j: int|
                        0 <= i < u.len() && 0 <= j < l.len() && all[q] == spec_combine(#[trigger] u[i], #[trigger] l[j])->Some_0;
                    assert(spec_combine(u[i], l[j]) is Some);
                    lemma_scaled_combine(u[i], l[j], sigma, d);
                    let a = u[i].0;
                    let b = l[j].0;
                    let r = scaled_eval(u[i].1, sigma, d);
                    let sv = scaled_eval(l[j].1, sigma, d);
                    let sx = sigma(x);
                    assert(b * r + a * sv <= 0) by (nonlinear_arith)
                        requires
                            a > 0,
                            b > 0,
                            a * sx + r <= 0,
                            -b * sx + sv <= 0,
                    ;
                }
            }
            assert(holds_over(next, sigma, d));
            lemma_fm_rational_sound(next, vars.drop_first());
        }
    }
}

} // verus!
