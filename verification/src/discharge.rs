//! Discharge by mutation: a decision's mutants are each applied and the
//! test suite run; a mutant is killed when the suite then fails. The
//! decision is discharged when it is compiler-void, or when it has mutants
//! and every one of them was killed.

use vstd::prelude::*;

use crate::decision::{Decision, DecisionOp, spec_vectors_required};
use crate::from_syn::rust_file_syntax;
use crate::mutate::{
    Mutant, apply, boundary_index, is_boundary, mutant_count, mutant_view, mutants_for, spec_apply, spec_mutant,
};
use crate::predicate::text_chars;
use crate::scanner::{ScanError, decision_matches, scan_source, site_fits, sites_tree};

verus! {

/// One decision's discharge result.
#[derive(Debug, Clone)]
pub struct DecisionOutcome {
    pub line: usize,
    pub decision: String,
    pub vectors_required: usize,
    pub compiler_void: bool,
    pub mutants_total: usize,
    pub mutants_killed: usize,
    pub survived_descriptions: Vec<String>,
}

pub open spec fn spec_outcome_discharged(compiler_void: bool, total: int, killed: int) -> bool {
    compiler_void || (total > 0 && killed == total)
}

impl DecisionOutcome {
    /// Discharged when compiler-void, or when every one of at least one
    /// mutant was killed.
    pub fn discharged(&self) -> (r: bool)
        ensures
            r == spec_outcome_discharged(
                self.compiler_void,
                self.mutants_total as int,
                self.mutants_killed as int,
            ),
    {
        self.compiler_void || (self.mutants_total > 0 && self.mutants_killed == self.mutants_total)
    }
}

/// How many of the flags are set.
pub open spec fn count_killed(k: Seq<bool>) -> nat
    decreases k.len(),
{
    if k.len() == 0 {
        0
    } else {
        count_killed(k.drop_last()) + if k.last() {
            1nat
        } else {
            0nat
        }
    }
}

/// The descriptions of the mutants that survived (flag unset), in order.
pub open spec fn survivors(d: Decision, k: Seq<bool>) -> Seq<Seq<char>>
    decreases k.len(),
{
    if k.len() == 0 {
        Seq::empty()
    } else {
        let prev = survivors(d, k.drop_last());
        if k.last() {
            prev
        } else {
            prev.push(spec_mutant(d, k.len() - 1).0)
        }
    }
}

proof fn lemma_count_killed_bound(k: Seq<bool>)
    ensures
        count_killed(k) <= k.len(),
        count_killed(k) == k.len() <==> forall|i: int| 0 <= i < k.len() ==> k[i],
    decreases k.len(),
{
    if k.len() > 0 {
        lemma_count_killed_bound(k.drop_last());
        if forall|i: int| 0 <= i < k.drop_last().len() ==> k.drop_last()[i] {
            assert forall|i: int| 0 <= i < k.len() - 1 implies k[i] by {
                assert(k.drop_last()[i] == k[i]);
            }
        }
        if count_killed(k) == k.len() {
            assert forall|i: int| 0 <= i < k.len() implies k[i] by {
                if i < k.len() - 1 {
                    assert(k.drop_last()[i] == k[i]);
                }
            }
        }
    }
}

/// The outcome of one decision, given for each of its mutants (in the
/// order [`mutants_for`] lists them) whether it was killed.
pub fn outcome_of(decision: &Decision, killed: &[bool]) -> (r: DecisionOutcome)
    requires
        killed@.len() == mutant_count(*decision),
    ensures
        r.line == decision.site_line,
        r.decision@ == decision.text@,
        r.vectors_required == spec_vectors_required(decision.compiler_void, decision.leaves@.len()),
        r.compiler_void == decision.compiler_void,
        r.mutants_total == killed@.len(),
        r.mutants_killed == count_killed(killed@),
        r.survived_descriptions@.map_values(|s: String| s@) == survivors(*decision, killed@),
        r.mutants_killed == r.mutants_total <==> forall|i: int| 0 <= i < killed@.len() ==> killed@[i],
{
    let mutants = mutants_for(decision);
    let mut count: usize = 0;
    let mut survived: Vec<String> = Vec::new();
    let mut i: usize = 0;
    while i < killed.len()
        invariant
            i <= killed@.len(),
            mutants@.len() == killed@.len(),
            forall|m: int| 0 <= m < mutants@.len() ==> crate::mutate::mutant_view(#[trigger] mutants@[m]) == spec_mutant(*decision, m),
            count == count_killed(killed@.take(i as int)),
            count <= i,
            survived@.map_values(|s: String| s@) == survivors(*decision, killed@.take(i as int)),
        decreases killed@.len() - i,
    {
        assert(killed@.take(i + 1).drop_last() =~= killed@.take(i as int));
        assert(killed@.take(i + 1).last() == killed@[i as int]);
        if killed[i] {
            count = count + 1;
        } else {
            let ghost before = survived@.map_values(|s: String| s@);
            survived.push(mutants[i].description.clone());
            assert(survived@.map_values(|s: String| s@) =~= before.push(spec_mutant(*decision, i as int).0));
        }
        i = i + 1;
    }
    assert(killed@.take(killed@.len() as int) =~= killed@);
    proof {
        lemma_count_killed_bound(killed@);
    }
    DecisionOutcome {
        line: decision.site_line,
        decision: decision.text.clone(),
        vectors_required: if decision.compiler_void {
            0
        } else {
            decision.leaves.len() + 1
        },
        compiler_void: decision.compiler_void,
        mutants_total: killed.len(),
        mutants_killed: count,
        survived_descriptions: survived,
    }
}

/// A decision is discharged by mutation exactly when it is compiler-void,
/// or it has at least one mutant and every mutant was killed.
pub proof fn lemma_discharged_iff_all_killed(d: Decision, killed: Seq<bool>)
    requires
        killed.len() == mutant_count(d),
    ensures
        spec_outcome_discharged(d.compiler_void, killed.len() as int, count_killed(killed) as int)
            <==> (d.compiler_void || (killed.len() > 0 && forall|i: int| 0 <= i < killed.len() ==> killed[i])),
{
    lemma_count_killed_bound(killed);
}

// ── A mutation run over a whole file ───────────────────────────────────────

/// How many mutants the first `n` decisions have together.
pub open spec fn mutants_before(ds: Seq<Decision>, n: int) -> nat
    decreases n,
{
    if n <= 0 {
        0
    } else {
        mutants_before(ds, n - 1) + mutant_count(ds[n - 1])
    }
}

proof fn lemma_mutants_before_grows(ds: Seq<Decision>, a: int, b: int)
    requires
        0 <= a <= b,
    ensures
        mutants_before(ds, a) <= mutants_before(ds, b),
    decreases b - a,
{
    if a < b {
        lemma_mutants_before_grows(ds, a, b - 1);
    }
}

/// What [`outcome_of`] reports of a decision, given its mutants' verdicts.
pub open spec fn outcome_matches(o: DecisionOutcome, d: Decision, killed: Seq<bool>) -> bool {
    &&& o.line == d.site_line
    &&& o.decision@ == d.text@
    &&& o.vectors_required == spec_vectors_required(d.compiler_void, d.leaves@.len())
    &&& o.compiler_void == d.compiler_void
    &&& o.mutants_total == killed.len()
    &&& o.mutants_killed == count_killed(killed)
    &&& o.survived_descriptions@.map_values(|s: String| s@) == survivors(d, killed)
}

/// Whether every condition range and operator range lies between
/// characters of `cs`.
pub open spec fn spans_fit(cs: Seq<char>, leaves: Seq<(usize, usize)>, ops: Seq<(usize, usize, bool)>) -> bool {
    &&& forall|k: int|
        0 <= k < leaves.len() ==> is_boundary(cs, (#[trigger] leaves[k]).0 as int) && is_boundary(
            cs,
            leaves[k].1 as int,
        )
    &&& forall|k: int|
        0 <= k < ops.len() ==> is_boundary(cs, (#[trigger] ops[k]).0 as int) && is_boundary(
            cs,
            ops[k].1 as int,
        )
}

pub open spec fn op_views(ops: Seq<DecisionOp>) -> Seq<(usize, usize, bool)> {
    ops.map_values(|o: DecisionOp| (o.start, o.end, o.is_and))
}

/// Whether every mutant of `d` can be applied to `cs`.
pub open spec fn ranges_fit(d: Decision, cs: Seq<char>) -> bool {
    spans_fit(cs, d.leaves@, op_views(d.ops@))
}

/// The text of `cs` with mutant `m` of `d` applied.
pub open spec fn mutant_text(cs: Seq<char>, d: Decision, m: int) -> Seq<char> {
    let (_, start, end, replacement) = spec_mutant(d, m);
    spec_apply(cs, start as int, end as int, replacement)
}

proof fn lemma_mutant_fits(d: Decision, cs: Seq<char>, m: int)
    requires
        ranges_fit(d, cs),
        0 <= m < mutant_count(d),
    ensures
        is_boundary(cs, spec_mutant(d, m).1 as int),
        is_boundary(cs, spec_mutant(d, m).2 as int),
{
    let nl = d.leaves@.len() as int;
    if m < 2 * nl {
        let k = m / 2;
        assert(0 <= k < nl) by (nonlinear_arith)
            requires
                0 <= m < 2 * nl,
                k == m / 2,
        ;
        assert(d.leaves@[k] == d.leaves@[k]);
    } else {
        let k = m - 2 * nl;
        assert(op_views(d.ops@)[k] == (d.ops@[k].start, d.ops@[k].end, d.ops@[k].is_and));
    }
}

fn decision_fits(cs: &Vec<char>, d: &Decision) -> (r: bool)
    ensures
        r == ranges_fit(*d, cs@),
{
    let mut k: usize = 0;
    while k < d.leaves.len()
        invariant
            k <= d.leaves@.len(),
            forall|j: int|
                0 <= j < k ==> is_boundary(cs@, (#[trigger] d.leaves@[j]).0 as int) && is_boundary(
                    cs@,
                    d.leaves@[j].1 as int,
                ),
        decreases d.leaves@.len() - k,
    {
        let (a, b) = d.leaves[k];
        if boundary_index(cs, a).is_none() || boundary_index(cs, b).is_none() {
            assert(!ranges_fit(*d, cs@)) by {
                assert(d.leaves@[k as int] == (a, b));
            }
            return false;
        }
        k = k + 1;
    }
    let ghost ops = op_views(d.ops@);
    let mut q: usize = 0;
    while q < d.ops.len()
        invariant
            q <= d.ops@.len(),
            ops == op_views(d.ops@),
            forall|j: int|
                0 <= j < q ==> is_boundary(cs@, (#[trigger] ops[j]).0 as int) && is_boundary(
                    cs@,
                    ops[j].1 as int,
                ),
        decreases d.ops@.len() - q,
    {
        let o = &d.ops[q];
        assert(ops[q as int] == (o.start, o.end, o.is_and));
        if boundary_index(cs, o.start).is_none() || boundary_index(cs, o.end).is_none() {
            return false;
        }
        q = q + 1;
    }
    true
}

/// Discharging every decision of one source text by mutation, one mutant
/// at a time: the run hands out the text of the next mutant, is told
/// whether the test suite killed it, and in the end gives each decision's
/// outcome. Writing the text, running the suite and restoring the file are
/// the caller's part.
pub struct MutationRun {
    source: String,
    decisions: Vec<Decision>,
    at: usize,
    mutants: Vec<Mutant>,
    killed: Vec<bool>,
    outcomes: Vec<DecisionOutcome>,
    verdicts: Ghost<Seq<bool>>,
}

impl MutationRun {
    /// The source text the run mutates.
    pub closed spec fn source_text(&self) -> Seq<char> {
        self.source@
    }

    /// The decisions of the source text, in scan order.
    pub closed spec fn decision_list(&self) -> Seq<Decision> {
        self.decisions@
    }

    /// The verdicts recorded so far (killed or not), one per mutant, in the
    /// order the mutants were handed out: every mutant of the first
    /// decision in [`mutants_for`] order, then of the second, and so on.
    pub closed spec fn verdict_list(&self) -> Seq<bool> {
        self.verdicts@
    }

    /// Whether every mutant has its verdict.
    pub open spec fn finished(&self) -> bool {
        self.verdict_list().len() == mutants_before(self.decision_list(), self.decision_list().len() as int)
    }

    /// The verdicts of decision `i`'s mutants.
    pub open spec fn verdicts_of(&self, i: int) -> Seq<bool> {
        self.verdict_list().subrange(
            mutants_before(self.decision_list(), i) as int,
            mutants_before(self.decision_list(), i + 1) as int,
        )
    }

    /// The run's internal consistency.
    pub closed spec fn wf(&self) -> bool {
        let ds = self.decisions@;
        let v = self.verdicts@;
        let at = self.at as int;
        &&& self.settled_up_to()
        &&& at < ds.len() ==> self.killed@.len() < self.mutants@.len()
        &&& at == ds.len() ==> self.killed@.len() == 0
    }

    closed spec fn settled_up_to(&self) -> bool {
        let ds = self.decisions@;
        let v = self.verdicts@;
        let at = self.at as int;
        &&& at <= ds.len()
        &&& forall|i: int| 0 <= i < ds.len() ==> ranges_fit(#[trigger] ds[i], self.source@)
        &&& self.outcomes@.len() == at
        &&& forall|i: int|
            0 <= i < at ==> outcome_matches(
                #[trigger] self.outcomes@[i],
                ds[i],
                v.subrange(mutants_before(ds, i) as int, mutants_before(ds, i + 1) as int),
            )
        &&& v.len() == mutants_before(ds, at) + self.killed@.len()
        &&& self.killed@ == v.skip(mutants_before(ds, at) as int)
        &&& at < ds.len() ==> {
            &&& self.mutants@.len() == mutant_count(ds[at])
            &&& forall|m: int|
                0 <= m < self.mutants@.len() ==> mutant_view(#[trigger] self.mutants@[m]) == spec_mutant(
                    ds[at],
                    m,
                )
            &&& self.killed@.len() <= self.mutants@.len()
        }
    }

    /// Moves past every decision whose mutants all have their verdicts,
    /// recording its outcome.
    fn settle(&mut self)
        requires
            old(self).settled_up_to(),
            old(self).at as int == old(self).decisions@.len() ==> old(self).killed@.len() == 0,
        ensures
            final(self).wf(),
            final(self).source@ == old(self).source@,
            final(self).decisions@ == old(self).decisions@,
            final(self).verdicts@ == old(self).verdicts@,
    {
        let n = self.decisions.len();
        while self.at < n && self.killed.len() == self.mutants.len()
            invariant
                n == self.decisions@.len(),
                self.settled_up_to(),
                self.at as int == n ==> self.killed@.len() == 0,
                self.source@ == old(self).source@,
                self.decisions@ == old(self).decisions@,
                self.verdicts@ == old(self).verdicts@,
            decreases n - self.at,
        {
            let ghost ds = self.decisions@;
            let ghost v = self.verdicts@;
            let ghost at = self.at as int;
            let o = outcome_of(&self.decisions[self.at], self.killed.as_slice());
            assert(mutants_before(ds, at + 1) == mutants_before(ds, at) + mutant_count(ds[at]));
            assert(v.subrange(mutants_before(ds, at) as int, mutants_before(ds, at + 1) as int) =~= self.killed@);
            self.outcomes.push(o);
            self.at = self.at + 1;
            self.killed = Vec::new();
            assert(v.skip(mutants_before(ds, at + 1) as int) =~= Seq::<bool>::empty());
            if self.at < n {
                self.mutants = mutants_for(&self.decisions[self.at]);
            }
        }
    }

    /// Scans `source` and starts a run over its decisions, before any
    /// verdict. Fails as [`scan_source`] does, and with
    /// [`ScanError::Span`] also when a condition or operator range of a
    /// decision does not fall between characters of the text.
    pub fn start(source: &str) -> (r: Result<MutationRun, ScanError>)
        ensures
            match rust_file_syntax(source@) {
                Ok(file) => match r {
                    Ok(run) => {
                        &&& run.wf()
                        &&& run.source_text() == source@
                        &&& run.verdict_list() == Seq::<bool>::empty()
                        &&& run.decision_list().len() == sites_tree(file, None).len()
                        &&& forall|i: int|
                            0 <= i < run.decision_list().len() ==> decision_matches(
                                #[trigger] run.decision_list()[i],
                                source@,
                                sites_tree(file, None)[i],
                            )
                    },
                    Err(ScanError::Span) => exists|i: int|
                        0 <= i < sites_tree(file, None).len() && !(site_fits(
                            source@,
                            #[trigger] sites_tree(file, None)[i],
                        ) && spans_fit(source@, sites_tree(file, None)[i].leaves, sites_tree(file, None)[i].ops)),
                    Err(ScanError::Parse(_)) => false,
                },
                Err(m) => r matches Err(ScanError::Parse(e)) && e == m,
            },
    {
        let decisions = match scan_source(source) {
            Ok(ds) => ds,
            Err(e) => {
                return Err(e);
            },
        };
        let ghost file = rust_file_syntax(source@)->Ok_0;
        let ghost ss = sites_tree(file, None);
        let cs = text_chars(source);
        let mut i: usize = 0;
        while i < decisions.len()
            invariant
                i <= decisions@.len(),
                cs@ == source@,
                rust_file_syntax(source@) == Ok::<crate::syntax::Node, String>(file),
                ss == sites_tree(file, None),
                decisions@.len() == ss.len(),
                forall|j: int| 0 <= j < decisions@.len() ==> decision_matches(#[trigger] decisions@[j], source@, ss[j]),
                forall|j: int| 0 <= j < i ==> ranges_fit(#[trigger] decisions@[j], source@),
            decreases decisions@.len() - i,
        {
            if !decision_fits(&cs, &decisions[i]) {
                assert(decision_matches(decisions@[i as int], source@, ss[i as int]));
                assert(!spans_fit(source@, ss[i as int].leaves, ss[i as int].ops));
                return Err(ScanError::Span);
            }
            i = i + 1;
        }
        let mutants = if decisions.len() > 0 {
            mutants_for(&decisions[0])
        } else {
            Vec::new()
        };
        let mut run = MutationRun {
            source: String::from_str(source),
            decisions,
            at: 0,
            mutants,
            killed: Vec::new(),
            outcomes: Vec::new(),
            verdicts: Ghost(Seq::empty()),
        };
        assert(run.killed@ =~= run.verdicts@.skip(0));
        run.settle();
        Ok(run)
    }

    /// Whether every mutant has its verdict.
    pub fn is_finished(&self) -> (r: bool)
        requires
            self.wf(),
        ensures
            r == self.finished(),
    {
        proof {
            self.lemma_finished();
        }
        self.at == self.decisions.len()
    }

    proof fn lemma_finished(&self)
        requires
            self.wf(),
        ensures
            self.finished() <==> self.at == self.decisions@.len(),
            self.at < self.decisions@.len() ==> mutants_before(self.decisions@, self.at as int)
                <= self.verdicts@.len() < mutants_before(self.decisions@, self.at + 1),
    {
        let ds = self.decisions@;
        if self.at < ds.len() {
            lemma_mutants_before_grows(ds, self.at + 1, ds.len() as int);
        }
    }

    /// The text of the source with the next mutant applied, or `None` when
    /// every mutant has its verdict. The next mutant is the first of the
    /// decision whose mutants the verdicts so far reach into.
    pub fn next_text(&self) -> (r: Option<String>)
        requires
            self.wf(),
        ensures
            r is None <==> self.finished(),
            r matches Some(t) ==> exists|j: int|
                0 <= j < self.decision_list().len() && mutants_before(self.decision_list(), j)
                    <= self.verdict_list().len() < mutants_before(self.decision_list(), j + 1) && t@
                    == mutant_text(
                    self.source_text(),
                    #[trigger] self.decision_list()[j],
                    self.verdict_list().len() - mutants_before(self.decision_list(), j),
                ),
    {
        proof {
            self.lemma_finished();
        }
        if self.at == self.decisions.len() {
            return None;
        }
        let ghost d = self.decisions@[self.at as int];
        let m = self.killed.len();
        proof {
            lemma_mutant_fits(d, self.source@, m as int);
        }
        let t = apply(self.source.as_str(), &self.mutants[m]);
        assert(mutant_view(self.mutants@[m as int]) == spec_mutant(d, m as int));
        Some(t)
    }

    /// Records whether the test suite killed the mutant last handed out.
    pub fn record(&mut self, killed: bool)
        requires
            old(self).wf(),
            !old(self).finished(),
        ensures
            final(self).wf(),
            final(self).source_text() == old(self).source_text(),
            final(self).decision_list() == old(self).decision_list(),
            final(self).verdict_list() == old(self).verdict_list().push(killed),
    {
        proof {
            self.lemma_finished();
        }
        let ghost ds = self.decisions@;
        let ghost b = mutants_before(ds, self.at as int);
        let ghost v = self.verdicts@;
        self.killed.push(killed);
        self.verdicts = Ghost(self.verdicts@.push(killed));
        assert(self.verdicts@.skip(b as int) =~= v.skip(b as int).push(killed));
        assert forall|i: int| #![trigger self.outcomes@[i]] 0 <= i < self.at implies v.push(killed).subrange(
            mutants_before(ds, i) as int,
            mutants_before(ds, i + 1) as int,
        ) == v.subrange(mutants_before(ds, i) as int, mutants_before(ds, i + 1) as int) by {
            lemma_mutants_before_grows(ds, i + 1, self.at as int);
            assert(v.push(killed).subrange(mutants_before(ds, i) as int, mutants_before(ds, i + 1) as int)
                =~= v.subrange(mutants_before(ds, i) as int, mutants_before(ds, i + 1) as int));
        }
        self.settle();
    }

    /// Each decision's outcome, in scan order, from the verdicts of its own
    /// mutants.
    pub fn finish(self) -> (r: Vec<DecisionOutcome>)
        requires
            self.wf(),
            self.finished(),
        ensures
            r@.len() == self.decision_list().len(),
            forall|i: int|
                0 <= i < r@.len() ==> outcome_matches(
                    #[trigger] r@[i],
                    self.decision_list()[i],
                    self.verdicts_of(i),
                ),
    {
        proof {
            self.lemma_finished();
        }
        self.outcomes
    }
}

// ── A run driven by the test suite ─────────────────────────────────────────

/// The verdicts on one decision's mutants, in [`mutants_for`] order, when
/// the test suite passes exactly on the texts `passes` accepts: a mutant
/// is killed when the suite fails on the text with it applied.
pub open spec fn decision_verdicts(cs: Seq<char>, d: Decision, passes: spec_fn(Seq<char>) -> bool) -> Seq<bool> {
    Seq::new(mutant_count(d), |m: int| !passes(mutant_text(cs, d, m)))
}

/// The verdicts on every mutant of every decision, decision after
/// decision, under the same test suite.
pub open spec fn suite_verdicts(cs: Seq<char>, ds: Seq<Decision>, passes: spec_fn(Seq<char>) -> bool) -> Seq<bool>
    decreases ds.len(),
{
    if ds.len() == 0 {
        Seq::empty()
    } else {
        suite_verdicts(cs, ds.drop_last(), passes) + decision_verdicts(cs, ds.last(), passes)
    }
}

proof fn lemma_mutants_before_prefix(ds: Seq<Decision>, n: int)
    requires
        ds.len() > 0,
        0 <= n < ds.len(),
    ensures
        mutants_before(ds, n) == mutants_before(ds.drop_last(), n),
    decreases n,
{
    if n > 0 {
        lemma_mutants_before_prefix(ds, n - 1);
        assert(ds[n - 1] == ds.drop_last()[n - 1]);
    }
}

proof fn lemma_suite_verdicts(cs: Seq<char>, ds: Seq<Decision>, passes: spec_fn(Seq<char>) -> bool)
    ensures
        suite_verdicts(cs, ds, passes).len() == mutants_before(ds, ds.len() as int),
        forall|j: int|
            0 <= j < ds.len() ==> suite_verdicts(cs, ds, passes).subrange(
                mutants_before(ds, j) as int,
                mutants_before(ds, j + 1) as int,
            ) == decision_verdicts(cs, #[trigger] ds[j], passes),
    decreases ds.len(),
{
    if ds.len() > 0 {
        let init = ds.drop_last();
        let n = ds.len() - 1;
        lemma_suite_verdicts(cs, init, passes);
        lemma_mutants_before_prefix(ds, n);
        let a = suite_verdicts(cs, init, passes);
        let b = decision_verdicts(cs, ds.last(), passes);
        let all = suite_verdicts(cs, ds, passes);
        assert(all == a + b);
        assert forall|j: int| 0 <= j < ds.len() implies all.subrange(
            mutants_before(ds, j) as int,
            mutants_before(ds, j + 1) as int,
        ) == decision_verdicts(cs, #[trigger] ds[j], passes) by {
            if j < n {
                lemma_mutants_before_prefix(ds, j);
                lemma_mutants_before_prefix(ds, j + 1);
                lemma_mutants_before_grows(init, j + 1, n);
                assert(init[j] == ds[j]);
                assert(all.subrange(mutants_before(ds, j) as int, mutants_before(ds, j + 1) as int)
                    =~= a.subrange(mutants_before(init, j) as int, mutants_before(init, j + 1) as int));
            } else {
                assert(all.subrange(mutants_before(ds, j) as int, mutants_before(ds, j + 1) as int) =~= b);
            }
        }
    }
}

/// Recording, for the text [`MutationRun::next_text`] hands out, whether
/// the suite failed on it keeps the verdicts a prefix of what the suite
/// decides of every mutant: so a run driven that way from its start
/// collects exactly [`suite_verdicts`].
pub proof fn lemma_suite_step(run: MutationRun, passes: spec_fn(Seq<char>) -> bool, j: int, t: Seq<char>)
    requires
        run.wf(),
        0 <= j < run.decision_list().len(),
        mutants_before(run.decision_list(), j) <= run.verdict_list().len() < mutants_before(
            run.decision_list(),
            j + 1,
        ),
        t == mutant_text(
            run.source_text(),
            run.decision_list()[j],
            run.verdict_list().len() - mutants_before(run.decision_list(), j),
        ),
        run.verdict_list() == suite_verdicts(run.source_text(), run.decision_list(), passes).take(
            run.verdict_list().len() as int,
        ),
    ensures
        run.verdict_list().push(!passes(t)) == suite_verdicts(
            run.source_text(),
            run.decision_list(),
            passes,
        ).take(run.verdict_list().len() + 1 as int),
{
    let cs = run.source_text();
    let ds = run.decision_list();
    let v = run.verdict_list();
    let all = suite_verdicts(cs, ds, passes);
    lemma_suite_verdicts(cs, ds, passes);
    lemma_mutants_before_grows(ds, j + 1, ds.len() as int);
    let lo = mutants_before(ds, j) as int;
    let hi = mutants_before(ds, j + 1) as int;
    assert(all.subrange(lo, hi) == decision_verdicts(cs, ds[j], passes));
    assert(all[v.len() as int] == all.subrange(lo, hi)[v.len() - lo]);
    assert(v.push(!passes(t)) =~= all.take(v.len() + 1 as int));
}

/// A finished run whose verdicts are what the suite decides of every
/// mutant gives each decision the outcome of its own mutants under that
/// suite: `mutants_total` is its mutant count, `mutants_killed` how many of
/// its mutant texts the suite fails on, and the survivors those it passes
/// on.
pub proof fn lemma_suite_outcomes(run: MutationRun, passes: spec_fn(Seq<char>) -> bool)
    requires
        run.wf(),
        run.finished(),
        run.verdict_list() == suite_verdicts(run.source_text(), run.decision_list(), passes),
    ensures
        forall|i: int|
            0 <= i < run.decision_list().len() ==> #[trigger] run.verdicts_of(i) == decision_verdicts(
                run.source_text(),
                run.decision_list()[i],
                passes,
            ),
{
    lemma_suite_verdicts(run.source_text(), run.decision_list(), passes);
}

proof fn lemma_survivors_len(d: Decision, k: Seq<bool>)
    ensures
        survivors(d, k).len() + count_killed(k) == k.len(),
    decreases k.len(),
{
    if k.len() > 0 {
        lemma_survivors_len(d, k.drop_last());
    }
}

/// A whole mutation run under one test suite: a run started with no
/// verdict and driven by [`lemma_suite_step`] (each verdict is whether the
/// suite fails on the text handed out) keeps its verdicts a prefix of
/// [`suite_verdicts`]; once it is finished, the
/// outcomes [`MutationRun::finish`] gives report, for each decision, all
/// its mutants, as killed exactly those whose text the suite fails on, as
/// survivors the rest, and the decision's own compiler-void flag.
pub proof fn lemma_suite_run(run: MutationRun, passes: spec_fn(Seq<char>) -> bool, outcomes: Seq<DecisionOutcome>)
    requires
        run.wf(),
        run.finished(),
        run.verdict_list() == suite_verdicts(run.source_text(), run.decision_list(), passes).take(
            run.verdict_list().len() as int,
        ),
        outcomes.len() == run.decision_list().len(),
        forall|i: int|
            0 <= i < outcomes.len() ==> outcome_matches(
                #[trigger] outcomes[i],
                run.decision_list()[i],
                run.verdicts_of(i),
            ),
    ensures
        forall|i: int|
            0 <= i < outcomes.len() ==> {
                let d = run.decision_list()[i];
                let o = #[trigger] outcomes[i];
                &&& o.mutants_total == mutant_count(d)
                &&& o.mutants_killed == count_killed(decision_verdicts(run.source_text(), d, passes))
                &&& o.survived_descriptions@.len() == o.mutants_total - o.mutants_killed
                &&& o.compiler_void == d.compiler_void
                &&& forall|m: int|
                    0 <= m < mutant_count(d) ==> (#[trigger] decision_verdicts(run.source_text(), d, passes)[m]
                        <==> !passes(mutant_text(run.source_text(), d, m)))
            },
{
    let all = suite_verdicts(run.source_text(), run.decision_list(), passes);
    lemma_suite_verdicts(run.source_text(), run.decision_list(), passes);
    assert(run.verdict_list() =~= all);
    lemma_suite_outcomes(run, passes);
    assert forall|i: int| 0 <= i < outcomes.len() implies {
        let d = run.decision_list()[i];
        let o = #[trigger] outcomes[i];
        &&& o.mutants_total == mutant_count(d)
        &&& o.mutants_killed == count_killed(decision_verdicts(run.source_text(), d, passes))
        &&& o.survived_descriptions@.len() == o.mutants_total - o.mutants_killed
        &&& o.compiler_void == d.compiler_void
        &&& forall|m: int|
            0 <= m < mutant_count(d) ==> (#[trigger] decision_verdicts(run.source_text(), d, passes)[m]
                <==> !passes(mutant_text(run.source_text(), d, m)))
    } by {
        let d = run.decision_list()[i];
        let k = decision_verdicts(run.source_text(), d, passes);
        assert(run.verdicts_of(i) == k);
        lemma_survivors_len(d, k);
        assert(outcomes[i].survived_descriptions@.map_values(|s: String| s@).len()
            == outcomes[i].survived_descriptions@.len());
    }
}

} // verus!
