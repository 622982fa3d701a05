//! Linear integer terms `constant + Σ coeff·var` and the arithmetic on them
//! that the `L4` layer needs. Every operation is checked: a result that
//! would leave `i128` is reported as `None`, never wrapped.

use vstd::prelude::*;

use crate::clause::fits_i128;

verus! {

/// The spec-side view of a linear term: its constant and its `(name, coeff)`
/// entries.
pub struct LinTermV {
    pub constant: int,
    pub vars: Seq<(Seq<char>, int)>,
}

/// A linear integer term `constant + Σ coeff·var`. Entries have distinct
/// names and non-zero coefficients (see [`LinTerm::wf`]).
#[derive(Debug, Clone)]
pub struct LinTerm {
    pub constant: i128,
    pub vars: Vec<(String, i128)>,
}

pub open spec fn entry_view(p: (String, i128)) -> (Seq<char>, int) {
    (p.0@, p.1 as int)
}

impl View for LinTerm {
    type V = LinTermV;

    open spec fn view(&self) -> LinTermV {
        LinTermV { constant: self.constant as int, vars: self.vars@.map_values(|p: (String, i128)| entry_view(p)) }
    }
}

/// Distinct names, non-zero coefficients, coefficients in `i128`.
pub open spec fn wf_vars(s: Seq<(Seq<char>, int)>) -> bool {
    &&& forall|i: int, j: int| 0 <= i < s.len() && 0 <= j < s.len() && i != j ==> s[i].0 != s[j].0
    &&& forall|i: int| 0 <= i < s.len() ==> s[i].1 != 0 && fits_i128(s[i].1)
}

impl LinTermV {
    pub open spec fn wf(self) -> bool {
        fits_i128(self.constant) && wf_vars(self.vars)
    }
}

impl LinTerm {
    pub open spec fn wf(&self) -> bool {
        self@.wf()
    }
}

/// Index of the entry named `k` (the last such, searching from the end).
pub open spec fn key_index(s: Seq<(Seq<char>, int)>, k: Seq<char>) -> Option<int>
    decreases s.len(),
{
    if s.len() == 0 {
        None
    } else if s.last().0 == k {
        Some(s.len() - 1)
    } else {
        key_index(s.drop_last(), k)
    }
}

pub proof fn lemma_key_index(s: Seq<(Seq<char>, int)>, k: Seq<char>)
    ensures
        key_index(s, k) matches Some(i) ==> 0 <= i < s.len() && s[i].0 == k,
        key_index(s, k) is None ==> forall|i: int| 0 <= i < s.len() ==> s[i].0 != k,
    decreases s.len(),
{
    if s.len() > 0 && s.last().0 != k {
        lemma_key_index(s.drop_last(), k);
        if key_index(s, k) is None {
            assert forall|i: int| 0 <= i < s.len() implies s[i].0 != k by {
                if i < s.len() - 1 {
                    assert(s.drop_last()[i] == s[i]);
                }
            }
        }
    }
}

/// The coefficient of `k` (zero when absent).
pub open spec fn spec_coeff_of(s: Seq<(Seq<char>, int)>, k: Seq<char>) -> int {
    match key_index(s, k) {
        Some(i) => s[i].1,
        None => 0,
    }
}

/// `s` with `v·k` added (entries that cancel to zero disappear).
pub open spec fn add_entry(s: Seq<(Seq<char>, int)>, k: Seq<char>, v: int) -> Option<
    Seq<(Seq<char>, int)>,
> {
    match key_index(s, k) {
        Some(i) => {
            let n = s[i].1 + v;
            if !fits_i128(n) {
                None
            } else if n == 0 {
                Some(s.remove(i))
            } else {
                Some(s.update(i, (k, n)))
            }
        },
        None => if v == 0 {
            Some(s)
        } else {
            Some(s.push((k, v)))
        },
    }
}

/// `s` with every entry of `other` added, in order.
pub open spec fn add_all(s: Seq<(Seq<char>, int)>, other: Seq<(Seq<char>, int)>) -> Option<
    Seq<(Seq<char>, int)>,
>
    decreases other.len(),
{
    if other.len() == 0 {
        Some(s)
    } else {
        match add_all(s, other.drop_last()) {
            Some(s1) => add_entry(s1, other.last().0, other.last().1),
            None => None,
        }
    }
}

/// Every coefficient multiplied by a non-zero `c`.
pub open spec fn scale_vars(s: Seq<(Seq<char>, int)>, c: int) -> Option<Seq<(Seq<char>, int)>>
    decreases s.len(),
{
    if s.len() == 0 {
        Some(Seq::empty())
    } else {
        match scale_vars(s.drop_last(), c) {
            Some(p) => if fits_i128(s.last().1 * c) {
                Some(p.push((s.last().0, s.last().1 * c)))
            } else {
                None
            },
            None => None,
        }
    }
}

/// `s` without the entry named `k`.
pub open spec fn remove_key(s: Seq<(Seq<char>, int)>, k: Seq<char>) -> Seq<(Seq<char>, int)> {
    match key_index(s, k) {
        Some(i) => s.remove(i),
        None => s,
    }
}

impl LinTermV {
    pub open spec fn constant_term(n: int) -> LinTermV {
        LinTermV { constant: n, vars: Seq::empty() }
    }

    pub open spec fn var_term(name: Seq<char>) -> LinTermV {
        LinTermV { constant: 0, vars: seq![(name, 1int)] }
    }

    pub open spec fn spec_add(self, other: LinTermV) -> Option<LinTermV> {
        if !fits_i128(self.constant + other.constant) {
            None
        } else {
            match add_all(self.vars, other.vars) {
                Some(vars) => Some(LinTermV { constant: self.constant + other.constant, vars }),
                None => None,
            }
        }
    }

    pub open spec fn spec_scale(self, c: int) -> Option<LinTermV> {
        if c == 0 {
            Some(LinTermV::constant_term(0))
        } else if !fits_i128(self.constant * c) {
            None
        } else {
            match scale_vars(self.vars, c) {
                Some(vars) => Some(LinTermV { constant: self.constant * c, vars }),
                None => None,
            }
        }
    }

    pub open spec fn spec_negate(self) -> Option<LinTermV> {
        self.spec_scale(-1)
    }

    pub open spec fn spec_sub(self, other: LinTermV) -> Option<LinTermV> {
        match other.spec_negate() {
            Some(n) => self.spec_add(n),
            None => None,
        }
    }

    pub open spec fn spec_plus_one(self) -> Option<LinTermV> {
        if fits_i128(self.constant + 1) {
            Some(LinTermV { constant: self.constant + 1, vars: self.vars })
        } else {
            None
        }
    }

    pub open spec fn spec_is_constant(self) -> bool {
        self.vars.len() == 0
    }

    pub open spec fn spec_coeff(self, k: Seq<char>) -> int {
        spec_coeff_of(self.vars, k)
    }

    pub open spec fn spec_without_var(self, k: Seq<char>) -> LinTermV {
        LinTermV { constant: self.constant, vars: remove_key(self.vars, k) }
    }
}

// ── Semantics ──────────────────────────────────────────────────────────────

/// `Σ coeff·σ(name)` over the entries.
pub open spec fn sum_vars(s: Seq<(Seq<char>, int)>, sigma: spec_fn(Seq<char>) -> int) -> int
    decreases s.len(),
{
    if s.len() == 0 {
        0
    } else {
        sum_vars(s.drop_last(), sigma) + s.last().1 * sigma(s.last().0)
    }
}

impl LinTermV {
    /// The term's value when each variable `v` takes the value `sigma(v)`.
    pub open spec fn eval(self, sigma: spec_fn(Seq<char>) -> int) -> int {
        self.constant + sum_vars(self.vars, sigma)
    }
}

pub proof fn lemma_sum_update(
    s: Seq<(Seq<char>, int)>,
    i: int,
    n: int,
    sigma: spec_fn(Seq<char>) -> int,
)
    requires
        0 <= i < s.len(),
    ensures
        sum_vars(s.update(i, (s[i].0, n)), sigma) == sum_vars(s, sigma) - s[i].1 * sigma(s[i].0)
            + n * sigma(s[i].0),
    decreases s.len(),
{
    let t = s.update(i, (s[i].0, n));
    if i == s.len() - 1 {
        assert(t.drop_last() =~= s.drop_last());
    } else {
        lemma_sum_update(s.drop_last(), i, n, sigma);
        assert(t.drop_last() =~= s.drop_last().update(i, (s[i].0, n)));
    }
}

pub proof fn lemma_sum_remove(s: Seq<(Seq<char>, int)>, i: int, sigma: spec_fn(Seq<char>) -> int)
    requires
        0 <= i < s.len(),
    ensures
        sum_vars(s.remove(i), sigma) == sum_vars(s, sigma) - s[i].1 * sigma(s[i].0),
    decreases s.len(),
{
    let t = s.remove(i);
    if i == s.len() - 1 {
        assert(t =~= s.drop_last());
    } else {
        lemma_sum_remove(s.drop_last(), i, sigma);
        assert(t.drop_last() =~= s.drop_last().remove(i));
    }
}

/// No entry has a zero coefficient.
pub open spec fn nonzero_coeffs(s: Seq<(Seq<char>, int)>) -> bool {
    forall|i: int| 0 <= i < s.len() ==> (#[trigger] s[i]).1 != 0
}

proof fn lemma_add_entry_nonzero(s: Seq<(Seq<char>, int)>, k: Seq<char>, v: int)
    requires
        nonzero_coeffs(s),
    ensures
        add_entry(s, k, v) matches Some(t) ==> nonzero_coeffs(t),
{
    lemma_key_index(s, k);
    match key_index(s, k) {
        Some(i) => {
            let n = s[i].1 + v;
            if fits_i128(n) {
                if n == 0 {
                    let t = s.remove(i);
                    assert forall|a: int| 0 <= a < t.len() implies (#[trigger] t[a]).1 != 0 by {
                        let a2 = if a < i { a } else { a + 1 };
                        assert(t[a] == s[a2]);
                    }
                } else {
                    let t = s.update(i, (k, n));
                    assert forall|a: int| 0 <= a < t.len() implies (#[trigger] t[a]).1 != 0 by {
                        if a != i {
                            assert(t[a] == s[a]);
                        }
                    }
                }
            }
        },
        None => {
            if v != 0 {
                let t = s.push((k, v));
                assert forall|a: int| 0 <= a < t.len() implies (#[trigger] t[a]).1 != 0 by {
                    if a < s.len() {
                        assert(t[a] == s[a]);
                    }
                }
            }
        },
    }
}

proof fn lemma_add_all_nonzero(s: Seq<(Seq<char>, int)>, other: Seq<(Seq<char>, int)>)
    requires
        nonzero_coeffs(s),
    ensures
        add_all(s, other) matches Some(t) ==> nonzero_coeffs(t),
    decreases other.len(),
{
    if other.len() > 0 {
        lemma_add_all_nonzero(s, other.drop_last());
        match add_all(s, other.drop_last()) {
            Some(s1) => lemma_add_entry_nonzero(s1, other.last().0, other.last().1),
            None => {},
        }
    }
}

proof fn lemma_scale_vars_nonzero(s: Seq<(Seq<char>, int)>, c: int)
    requires
        nonzero_coeffs(s),
        c != 0,
    ensures
        scale_vars(s, c) matches Some(t) ==> nonzero_coeffs(t),
    decreases s.len(),
{
    if s.len() > 0 {
        let s2 = s.drop_last();
        assert forall|a: int| 0 <= a < s2.len() implies (#[trigger] s2[a]).1 != 0 by {
            assert(s2[a] == s[a]);
        }
        lemma_scale_vars_nonzero(s2, c);
        match scale_vars(s2, c) {
            Some(p) => {
                let v = s.last().1;
                assert(s.last() == s[s.len() - 1]);
                if fits_i128(v * c) {
                    let t = p.push((s.last().0, v * c));
                    assert(v * c != 0) by (nonlinear_arith)
                        requires
                            v != 0,
                            c != 0,
                    ;
                    assert forall|a: int| 0 <= a < t.len() implies (#[trigger] t[a]).1 != 0 by {
                        if a < p.len() {
                            assert(t[a] == p[a]);
                        }
                    }
                }
            },
            None => {},
        }
    }
}

/// Adding `v·k` to the entries adds `v·sigma(k)` to their sum, whatever
/// the entries are.
pub proof fn lemma_add_entry_sum(
    s: Seq<(Seq<char>, int)>,
    k: Seq<char>,
    v: int,
    sigma: spec_fn(Seq<char>) -> int,
)
    ensures
        add_entry(s, k, v) matches Some(t) ==> sum_vars(t, sigma) == sum_vars(s, sigma) + v * sigma(k),
{
    lemma_key_index(s, k);
    match key_index(s, k) {
        Some(i) => {
            let n = s[i].1 + v;
            assert(s[i].1 * sigma(k) + v * sigma(k) == (s[i].1 + v) * sigma(k)) by (nonlinear_arith);
            if fits_i128(n) {
                if n == 0 {
                    lemma_sum_remove(s, i, sigma);
                } else {
                    lemma_sum_update(s, i, n, sigma);
                }
            }
        },
        None => {
            if v != 0 {
                let t = s.push((k, v));
                assert(t.drop_last() =~= s);
            }
        },
    }
}

/// Adding every entry of `other` adds its sum, whatever the entries are.
pub proof fn lemma_add_all_sum(
    s: Seq<(Seq<char>, int)>,
    other: Seq<(Seq<char>, int)>,
    sigma: spec_fn(Seq<char>) -> int,
)
    ensures
        add_all(s, other) matches Some(t) ==> sum_vars(t, sigma) == sum_vars(s, sigma) + sum_vars(
            other,
            sigma,
        ),
    decreases other.len(),
{
    if other.len() > 0 {
        lemma_add_all_sum(s, other.drop_last(), sigma);
        match add_all(s, other.drop_last()) {
            Some(s1) => lemma_add_entry_sum(s1, other.last().0, other.last().1, sigma),
            None => {},
        }
    }
}

/// Scaling every coefficient by `c` scales the sum by `c` and keeps the
/// names in order, whatever the entries are.
pub proof fn lemma_scale_vars_sum(s: Seq<(Seq<char>, int)>, c: int, sigma: spec_fn(Seq<char>) -> int)
    ensures
        scale_vars(s, c) matches Some(t) ==> sum_vars(t, sigma) == c * sum_vars(s, sigma) && t.len()
            == s.len() && (forall|i: int| 0 <= i < t.len() ==> t[i].0 == s[i].0),
    decreases s.len(),
{
    if s.len() > 0 {
        let s2 = s.drop_last();
        lemma_scale_vars_sum(s2, c, sigma);
        match scale_vars(s2, c) {
            Some(p) => {
                let v = s.last().1;
                if fits_i128(v * c) {
                    let t = p.push((s.last().0, v * c));
                    assert(t.drop_last() =~= p);
                    let x = sigma(s.last().0);
                    let sp = sum_vars(s2, sigma);
                    assert(c * sp + (v * c) * x == c * (sp + v * x)) by (nonlinear_arith);
                    assert forall|i: int| 0 <= i < t.len() implies t[i].0 == s[i].0 by {
                        if i < t.len() - 1 {
                            assert(t[i] == p[i]);
                        }
                    }
                }
            },
            None => {},
        }
    }
}

/// The sum is the removed entry's share plus the sum of the rest, whatever
/// the entries are.
pub proof fn lemma_remove_key_sum(s: Seq<(Seq<char>, int)>, k: Seq<char>, sigma: spec_fn(Seq<char>) -> int)
    ensures
        sum_vars(s, sigma) == spec_coeff_of(s, k) * sigma(k) + sum_vars(remove_key(s, k), sigma),
{
    lemma_key_index(s, k);
    match key_index(s, k) {
        Some(i) => lemma_sum_remove(s, i, sigma),
        None => {},
    }
}

pub proof fn lemma_add_entry(
    s: Seq<(Seq<char>, int)>,
    k: Seq<char>,
    v: int,
    sigma: spec_fn(Seq<char>) -> int,
)
    requires
        wf_vars(s),
        fits_i128(v),
    ensures
        add_entry(s, k, v) matches Some(t) ==> wf_vars(t) && sum_vars(t, sigma) == sum_vars(
            s,
            sigma,
        ) + v * sigma(k),
{
    lemma_key_index(s, k);
    match key_index(s, k) {
        Some(i) => {
            let n = s[i].1 + v;
            if fits_i128(n) {
                if n == 0 {
                    lemma_sum_remove(s, i, sigma);
                    assert(s[i].1 * sigma(k) + v * sigma(k) == (s[i].1 + v) * sigma(k))
                        by (nonlinear_arith);
                    let t = s.remove(i);
                    assert forall|a: int, b: int|
                        0 <= a < t.len() && 0 <= b < t.len() && a != b implies t[a].0 != t[b].0 by {
                        let a2 = if a < i { a } else { a + 1 };
                        let b2 = if b < i { b } else { b + 1 };
                        assert(t[a] == s[a2]);
                        assert(t[b] == s[b2]);
                    }
                    assert forall|a: int| 0 <= a < t.len() implies t[a].1 != 0 && fits_i128(
                        t[a].1,
                    ) by {
                        let a2 = if a < i { a } else { a + 1 };
                        assert(t[a] == s[a2]);
                    }
                } else {
                    lemma_sum_update(s, i, n, sigma);
                    assert(s[i].1 * sigma(k) + v * sigma(k) == (s[i].1 + v) * sigma(k))
                        by (nonlinear_arith);
                    let t = s.update(i, (k, n));
                    assert forall|a: int, b: int|
                        0 <= a < t.len() && 0 <= b < t.len() && a != b implies t[a].0 != t[b].0 by {
                        assert(t[a].0 == s[a].0);
                        assert(t[b].0 == s[b].0);
                    }
                }
            }
        },
        None => {
            if v != 0 {
                let t = s.push((k, v));
                assert(t.drop_last() =~= s);
            }
        },
    }
}

pub proof fn lemma_add_all(
    s: Seq<(Seq<char>, int)>,
    other: Seq<(Seq<char>, int)>,
    sigma: spec_fn(Seq<char>) -> int,
)
    requires
        wf_vars(s),
        forall|i: int| 0 <= i < other.len() ==> fits_i128(#[trigger] other[i].1),
    ensures
        add_all(s, other) matches Some(t) ==> wf_vars(t) && sum_vars(t, sigma) == sum_vars(
            s,
            sigma,
        ) + sum_vars(other, sigma),
    decreases other.len(),
{
    if other.len() > 0 {
        let o2 = other.drop_last();
        assert forall|i: int| 0 <= i < o2.len() implies fits_i128(#[trigger] o2[i].1) by {
            assert(o2[i] == other[i]);
        }
        lemma_add_all(s, o2, sigma);
        match add_all(s, o2) {
            Some(s1) => {
                assert(fits_i128(other[other.len() - 1].1));
                lemma_add_entry(s1, other.last().0, other.last().1, sigma);
            },
            None => {},
        }
    }
}

pub proof fn lemma_scale_vars(s: Seq<(Seq<char>, int)>, c: int, sigma: spec_fn(Seq<char>) -> int)
    requires
        wf_vars(s),
        c != 0,
    ensures
        scale_vars(s, c) matches Some(t) ==> wf_vars(t) && sum_vars(t, sigma) == c * sum_vars(
            s,
            sigma,
        ) && t.len() == s.len() && (forall|i: int| 0 <= i < t.len() ==> t[i].0 == s[i].0),
    decreases s.len(),
{
    if s.len() > 0 {
        let s2 = s.drop_last();
        assert forall|a: int, b: int|
            0 <= a < s2.len() && 0 <= b < s2.len() && a != b implies s2[a].0 != s2[b].0 by {
            assert(s2[a] == s[a]);
            assert(s2[b] == s[b]);
        }
        assert forall|a: int| 0 <= a < s2.len() implies s2[a].1 != 0 && fits_i128(s2[a].1) by {
            assert(s2[a] == s[a]);
        }
        lemma_scale_vars(s2, c, sigma);
        match scale_vars(s2, c) {
            Some(p) => {
                let v = s.last().1;
                if fits_i128(v * c) {
                    let t = p.push((s.last().0, v * c));
                    assert(t.drop_last() =~= p);
                    assert(v * c != 0) by (nonlinear_arith)
                        requires
                            v != 0,
                            c != 0,
                    ;
                    let x = sigma(s.last().0);
                    let sp = sum_vars(s2, sigma);
                    assert(c * sp + (v * c) * x == c * (sp + v * x)) by (nonlinear_arith);
                    assert forall|i: int| 0 <= i < t.len() implies t[i].0 == s[i].0 by {
                        if i < t.len() - 1 {
                            assert(t[i] == p[i]);
                        }
                    }
                    assert forall|a: int, b: int|
                        0 <= a < t.len() && 0 <= b < t.len() && a != b implies t[a].0
                        != t[b].0 by {
                        assert(t[a].0 == s[a].0);
                        assert(t[b].0 == s[b].0);
                    }
                    assert forall|a: int| 0 <= a < t.len() implies t[a].1 != 0 && fits_i128(
                        t[a].1,
                    ) by {
                        if a < t.len() - 1 {
                            assert(t[a] == p[a]);
                        }
                    }
                }
            },
            None => {},
        }
    }
}

pub proof fn lemma_remove_key(s: Seq<(Seq<char>, int)>, k: Seq<char>, sigma: spec_fn(Seq<char>) -> int)
    requires
        wf_vars(s),
    ensures
        wf_vars(remove_key(s, k)),
        sum_vars(s, sigma) == spec_coeff_of(s, k) * sigma(k) + sum_vars(remove_key(s, k), sigma),
        forall|j: int| 0 <= j < remove_key(s, k).len() ==> remove_key(s, k)[j].0 != k,
{
    lemma_key_index(s, k);
    match key_index(s, k) {
        Some(i) => {
            lemma_sum_remove(s, i, sigma);
            let t = s.remove(i);
            assert forall|a: int, b: int|
                0 <= a < t.len() && 0 <= b < t.len() && a != b implies t[a].0 != t[b].0 by {
                let a2 = if a < i { a } else { a + 1 };
                let b2 = if b < i { b } else { b + 1 };
                assert(t[a] == s[a2]);
                assert(t[b] == s[b2]);
            }
            assert forall|a: int| 0 <= a < t.len() implies t[a].1 != 0 && fits_i128(t[a].1) by {
                let a2 = if a < i { a } else { a + 1 };
                assert(t[a] == s[a2]);
            }
            assert forall|j: int| 0 <= j < t.len() implies t[j].0 != k by {
                let j2 = if j < i { j } else { j + 1 };
                assert(t[j] == s[j2]);
            }
        },
        None => {},
    }
}

impl LinTermV {
    /// Adding two terms adds their values, whatever their entries; the sum
    /// keeps no zero coefficient when the first term has none, and the sum
    /// of two well-formed terms is well-formed.
    pub proof fn lemma_add(self, other: LinTermV, sigma: spec_fn(Seq<char>) -> int)
        ensures
            self.spec_add(other) matches Some(t) ==> t.eval(sigma) == self.eval(sigma) + other.eval(
                sigma,
            ),
            self.wf() && other.wf() ==> (self.spec_add(other) matches Some(t) ==> t.wf()),
            nonzero_coeffs(self.vars) ==> (self.spec_add(other) matches Some(t) ==> nonzero_coeffs(
                t.vars,
            )),
    {
        lemma_add_all_sum(self.vars, other.vars, sigma);
        if nonzero_coeffs(self.vars) {
            lemma_add_all_nonzero(self.vars, other.vars);
        }
        if self.wf() && other.wf() {
            lemma_add_all(self.vars, other.vars, sigma);
        }
    }

    /// Scaling by `c` multiplies the term's value by `c`, whatever its
    /// entries; by zero it gives the constant 0, by anything else it keeps
    /// the same variables in the same order and no zero coefficient
    /// appears. A well-formed term stays well-formed.
    pub proof fn lemma_scale(self, c: int, sigma: spec_fn(Seq<char>) -> int)
        ensures
            self.spec_scale(c) matches Some(t) ==> t.eval(sigma) == c * self.eval(sigma),
            self.wf() ==> (self.spec_scale(c) matches Some(t) ==> t.wf()),
            nonzero_coeffs(self.vars) ==> (self.spec_scale(c) matches Some(t) ==> nonzero_coeffs(
                t.vars,
            )),
            c == 0 ==> self.spec_scale(c) == Some(LinTermV::constant_term(0)),
            c != 0 ==> (self.spec_scale(c) matches Some(t) ==> t.vars.len() == self.vars.len()
                && forall|i: int| 0 <= i < t.vars.len() ==> #[trigger] t.vars[i].0 == self.vars[i].0),
    {
        if c == 0 {
            assert(c * self.eval(sigma) == 0) by (nonlinear_arith)
                requires
                    c == 0,
            ;
        } else {
            lemma_scale_vars_sum(self.vars, c, sigma);
            if nonzero_coeffs(self.vars) {
                lemma_scale_vars_nonzero(self.vars, c);
            }
            if self.wf() {
                lemma_scale_vars(self.vars, c, sigma);
            }
            let a = self.constant;
            let b = sum_vars(self.vars, sigma);
            assert(a * c + c * b == c * (a + b)) by (nonlinear_arith);
        }
    }

    pub proof fn lemma_sub(self, other: LinTermV, sigma: spec_fn(Seq<char>) -> int)
        ensures
            self.spec_sub(other) matches Some(t) ==> t.eval(sigma) == self.eval(sigma) - other.eval(
                sigma,
            ),
            self.wf() && other.wf() ==> (self.spec_sub(other) matches Some(t) ==> t.wf()),
    {
        other.lemma_scale(-1, sigma);
        match other.spec_negate() {
            Some(n) => self.lemma_add(n, sigma),
            None => {},
        }
    }

    pub proof fn lemma_without_var(self, k: Seq<char>, sigma: spec_fn(Seq<char>) -> int)
        ensures
            self.wf() ==> self.spec_without_var(k).wf(),
            self.eval(sigma) == self.spec_coeff(k) * sigma(k) + self.spec_without_var(k).eval(
                sigma,
            ),
    {
        lemma_remove_key_sum(self.vars, k, sigma);
        if self.wf() {
            lemma_remove_key(self.vars, k, sigma);
        }
    }
}

// ── Executable operations ──────────────────────────────────────────────────

/// Index of the entry named `k`, searching from the end.
fn find_key(vars: &Vec<(String, i128)>, k: &String) -> (r: Option<usize>)
    ensures
        r matches Some(i) ==> key_index(vars@.map_values(|p: (String, i128)| entry_view(p)), k@)
            == Some(i as int),
        r is None ==> key_index(vars@.map_values(|p: (String, i128)| entry_view(p)), k@) is None,
{
    let ghost s = vars@.map_values(|p: (String, i128)| entry_view(p));
    let mut i: usize = vars.len();
    assert(s.take(i as int) =~= s);
    while i > 0
        invariant
            i <= vars.len(),
            s == vars@.map_values(|p: (String, i128)| entry_view(p)),
            key_index(s, k@) == key_index(s.take(i as int), k@),
        decreases i,
    {
        let ghost t = s.take(i as int);
        assert(t.drop_last() =~= s.take(i - 1));
        if vars[i - 1].0 == *k {
            return Some(i - 1);
        }
        i = i - 1;
    }
    None
}

impl LinTerm {
    pub fn constant(n: i128) -> (r: LinTerm)
        ensures
            r@ == LinTermV::constant_term(n as int),
            r.wf(),
    {
        let r = LinTerm { constant: n, vars: Vec::new() };
        assert(r@.vars =~= Seq::<(Seq<char>, int)>::empty());
        r
    }

    pub fn var(name: String) -> (r: LinTerm)
        ensures
            r@ == LinTermV::var_term(name@),
            r.wf(),
    {
        let mut vars = Vec::new();
        vars.push((name, 1i128));
        let r = LinTerm { constant: 0, vars };
        assert(r@.vars =~= seq![(name@, 1int)]);
        r
    }

    pub fn duplicate(&self) -> (r: LinTerm)
        ensures
            r@ == self@,
    {
        let mut vars: Vec<(String, i128)> = Vec::new();
        let mut i: usize = 0;
        while i < self.vars.len()
            invariant
                i <= self.vars.len(),
                vars@.map_values(|p: (String, i128)| entry_view(p)) =~= self.vars@.map_values(
                    |p: (String, i128)| entry_view(p),
                ).take(i as int),
            decreases self.vars.len() - i,
        {
            let ghost before = vars@.map_values(|p: (String, i128)| entry_view(p));
            let (name, c) = (&self.vars[i].0, self.vars[i].1);
            vars.push((name.clone(), c));
            assert(vars@.map_values(|p: (String, i128)| entry_view(p)) =~= before.push(
                entry_view(self.vars@[i as int]),
            ));
            i = i + 1;
        }
        assert(self.vars@.map_values(|p: (String, i128)| entry_view(p)).take(
            self.vars.len() as int,
        ) =~= self.vars@.map_values(|p: (String, i128)| entry_view(p)));
        LinTerm { constant: self.constant, vars }
    }

    /// Adds `v·k` to the entries; `false` (entries unspecified) on overflow.
    fn add_entry_exec(vars: &mut Vec<(String, i128)>, k: &String, v: i128) -> (ok: bool)
        ensures
            ok == add_entry(old(vars)@.map_values(|p: (String, i128)| entry_view(p)), k@, v as int).is_some(),
            ok ==> add_entry(old(vars)@.map_values(|p: (String, i128)| entry_view(p)), k@, v as int)
                == Some(final(vars)@.map_values(|p: (String, i128)| entry_view(p))),
    {
        let ghost s = vars@.map_values(|p: (String, i128)| entry_view(p));
        match find_key(vars, k) {
            Some(i) => {
                proof {
                    lemma_key_index(s, k@);
                }
                let cur = vars[i].1;
                match cur.checked_add(v) {
                    None => false,
                    Some(n) => {
                        if n == 0 {
                            vars.remove(i);
                            assert(vars@.map_values(|p: (String, i128)| entry_view(p)) =~= s.remove(
                                i as int,
                            ));
                        } else {
                            vars.set(i, (k.clone(), n));
                            assert(vars@.map_values(|p: (String, i128)| entry_view(p)) =~= s.update(
                                i as int,
                                (k@, n as int),
                            ));
                        }
                        true
                    },
                }
            },
            None => {
                if v != 0 {
                    vars.push((k.clone(), v));
                    assert(vars@.map_values(|p: (String, i128)| entry_view(p)) =~= s.push(
                        (k@, v as int),
                    ));
                }
                true
            },
        }
    }

    pub fn add(&self, other: &LinTerm) -> (r: Option<LinTerm>)
        ensures
            r.is_some() == self@.spec_add(other@).is_some(),
            r matches Some(t) ==> self@.spec_add(other@) == Some(t@),
    {
        let constant = match self.constant.checked_add(other.constant) {
            Some(c) => c,
            None => {
                return None;
            },
        };
        let mut vars = self.duplicate().vars;
        let ghost s0 = self@.vars;
        let ghost o = other@.vars;
        let mut i: usize = 0;
        while i < other.vars.len()
            invariant
                i <= other.vars.len(),
                o == other@.vars,
                s0 == self@.vars,
                constant == self.constant + other.constant,
                add_all(s0, o.take(i as int)) == Some(
                    vars@.map_values(|p: (String, i128)| entry_view(p)),
                ),
            decreases other.vars.len() - i,
        {
            proof {
                assert(o.take(i + 1).drop_last() =~= o.take(i as int));
                assert(o.take(i + 1).last() == o[i as int]);
            }
            let ok = LinTerm::add_entry_exec(&mut vars, &other.vars[i].0, other.vars[i].1);
            if !ok {
                proof {
                    assert(o[i as int] == entry_view(other.vars@[i as int]));
                    assert(add_all(s0, o.take(i + 1)) is None);
                    lemma_add_all_none_prefix(s0, o, i as int + 1);
                    assert(add_all(self@.vars, other@.vars) is None);
                    assert(fits_i128(self@.constant + other@.constant));
                    assert(self@.spec_add(other@) is None);
                }
                return None;
            }
            i = i + 1;
        }
        assert(o.take(other.vars.len() as int) =~= o);
        Some(LinTerm { constant, vars })
    }

    pub fn scale(&self, c: i128) -> (r: Option<LinTerm>)
        ensures
            r.is_some() == self@.spec_scale(c as int).is_some(),
            r matches Some(t) ==> self@.spec_scale(c as int) == Some(t@),
    {
        if c == 0 {
            return Some(LinTerm::constant(0));
        }
        let constant = match self.constant.checked_mul(c) {
            Some(k) => k,
            None => {
                return None;
            },
        };
        let ghost s = self@.vars;
        let mut vars: Vec<(String, i128)> = Vec::new();
        let mut i: usize = 0;
        while i < self.vars.len()
            invariant
                i <= self.vars.len(),
                c != 0,
                s == self@.vars,
                scale_vars(s.take(i as int), c as int) == Some(
                    vars@.map_values(|p: (String, i128)| entry_view(p)),
                ),
            decreases self.vars.len() - i,
        {
            proof {
                assert(s.take(i + 1).drop_last() =~= s.take(i as int));
                assert(s.take(i + 1).last() == s[i as int]);
            }
            match self.vars[i].1.checked_mul(c) {
                None => {
                    proof {
                        lemma_scale_vars_none_prefix(s, c as int, i as int + 1);
                    }
                    return None;
                },
                Some(k) => {
                    let ghost before = vars@.map_values(|p: (String, i128)| entry_view(p));
                    vars.push((self.vars[i].0.clone(), k));
                    assert(vars@.map_values(|p: (String, i128)| entry_view(p)) =~= before.push(
                        (s[i as int].0, s[i as int].1 * c),
                    ));
                },
            }
            i = i + 1;
        }
        assert(s.take(self.vars.len() as int) =~= s);
        Some(LinTerm { constant, vars })
    }

    pub fn negate(&self) -> (r: Option<LinTerm>)
        ensures
            r.is_some() == self@.spec_negate().is_some(),
            r matches Some(t) ==> self@.spec_negate() == Some(t@),
    {
        self.scale(-1)
    }

    pub fn sub(&self, other: &LinTerm) -> (r: Option<LinTerm>)
        ensures
            r.is_some() == self@.spec_sub(other@).is_some(),
            r matches Some(t) ==> self@.spec_sub(other@) == Some(t@),
    {
        match other.negate() {
            Some(n) => self.add(&n),
            None => None,
        }
    }

    /// `self + 1`, the integer tightening of a strict bound.
    pub fn plus_one(&self) -> (r: Option<LinTerm>)
        ensures
            r.is_some() == self@.spec_plus_one().is_some(),
            r matches Some(t) ==> self@.spec_plus_one() == Some(t@),
    {
        match self.constant.checked_add(1) {
            Some(c) => {
                let d = self.duplicate();
                Some(LinTerm { constant: c, vars: d.vars })
            },
            None => None,
        }
    }

    pub fn is_constant(&self) -> (r: bool)
        ensures
            r == self@.spec_is_constant(),
    {
        self.vars.len() == 0
    }

    pub fn coeff_of(&self, k: &String) -> (r: i128)
        ensures
            r == self@.spec_coeff(k@),
    {
        match find_key(&self.vars, k) {
            Some(i) => {
                proof {
                    lemma_key_index(self@.vars, k@);
                }
                self.vars[i].1
            },
            None => 0,
        }
    }

    pub fn without_var(&self, k: &String) -> (r: LinTerm)
        ensures
            r@ == self@.spec_without_var(k@),
    {
        let mut d = self.duplicate();
        match find_key(&self.vars, k) {
            Some(i) => {
                proof {
                    lemma_key_index(self@.vars, k@);
                }
                let ghost s = d@.vars;
                d.vars.remove(i);
                assert(d@.vars =~= s.remove(i as int));
                d
            },
            None => d,
        }
    }
}

pub proof fn lemma_add_all_none_prefix(s: Seq<(Seq<char>, int)>, o: Seq<(Seq<char>, int)>, n: int)
    requires
        0 <= n <= o.len(),
        add_all(s, o.take(n)) is None,
    ensures
        add_all(s, o) is None,
    decreases o.len() - n,
{
    if n < o.len() {
        assert(o.take(n + 1).drop_last() =~= o.take(n));
        lemma_add_all_none_prefix(s, o, n + 1);
    } else {
        assert(o.take(n) =~= o);
    }
}

pub proof fn lemma_scale_vars_none_prefix(s: Seq<(Seq<char>, int)>, c: int, n: int)
    requires
        0 <= n <= s.len(),
        scale_vars(s.take(n), c) is None,
    ensures
        scale_vars(s, c) is None,
    decreases s.len() - n,
{
    if n < s.len() {
        assert(s.take(n + 1).drop_last() =~= s.take(n));
        lemma_scale_vars_none_prefix(s, c, n + 1);
    } else {
        assert(s.take(n) =~= s);
    }
}

} // verus!
