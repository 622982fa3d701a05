//! The assurance-report records: diagnostics, obligation outcomes, test
//! outcomes and coverage counts, as plain data.

use vstd::prelude::*;

use crate::solver::{DischargeResult, Layer, Obligation, ObligationClass};

verus! {

/// Identifies what was checked: which crate, at which commit (if known),
/// and when.
#[derive(Debug, Clone)]
pub struct Target {
    pub crate_name: String,
    pub commit: Option<String>,
    pub timestamp: String,
}

/// A single diagnostic in wire form; `provenance` is a rendered
/// `file:line:col` string.
#[derive(Debug, Clone, PartialEq, Eq)]
pub struct DiagnosticRecord {
    pub level: String,
    pub message: String,
    pub provenance: String,
    pub label: Option<String>,
    pub suggestion: Option<String>,
}

/// The `check` section: gate-mode diagnostics plus any obligations checked
/// along the way.
#[derive(Debug, Clone)]
pub struct CheckSection {
    pub obligations: Vec<ObligationRecord>,
    pub diagnostics: Vec<DiagnosticRecord>,
}

/// One refinement obligation's outcome, flattened into a single record:
/// `kind` says which question was asked, `layer` which layer closed it
/// (`Runtime` when none did), `counterexample` why it was disproven.
#[derive(Debug, Clone, PartialEq, Eq)]
pub struct ObligationRecord {
    pub id: String,
    pub predicate: String,
    pub provenance: String,
    pub kind: ObligationClass,
    pub layer: Option<Layer>,
    pub counterexample: Option<String>,
}

/// The layer a record carries for a discharge outcome.
pub open spec fn layer_of(r: DischargeResult) -> Option<Layer> {
    match r {
        DischargeResult::Proven { layer } => Some(layer),
        DischargeResult::Runtime => Some(Layer::Runtime),
        DischargeResult::Violated { .. } => None,
    }
}

/// Whether a record claims a real entailment proof: an entailment question,
/// discharged by a static layer.
pub open spec fn spec_is_proof(kind: ObligationClass, layer: Option<Layer>) -> bool {
    kind.spec_is_entailment() && (layer matches Some(l) && l != Layer::Runtime)
}

/// Whether `r` is the record of `obligation` with outcome `result`.
pub open spec fn record_of_outcome(r: ObligationRecord, obligation: Obligation, result: DischargeResult) -> bool {
    &&& r.id@ == obligation.id@
    &&& r.predicate@ == obligation.predicate@
    &&& r.provenance@ == obligation.provenance@
    &&& r.kind == obligation.kind
    &&& r.layer == layer_of(result)
    &&& match result {
        DischargeResult::Violated { counterexample } => r.counterexample matches Some(c) && c@
            == counterexample@,
        _ => r.counterexample is None,
    }
}

impl ObligationRecord {
    /// Builds the record of an obligation and its discharge outcome.
    pub fn new(obligation: &Obligation, result: &DischargeResult) -> (r: ObligationRecord)
        ensures
            record_of_outcome(r, *obligation, *result),
            r.id@ == obligation.id@,
            r.predicate@ == obligation.predicate@,
            r.provenance@ == obligation.provenance@,
            r.kind == obligation.kind,
            r.layer == layer_of(*result),
            match result {
                DischargeResult::Violated { counterexample } => r.counterexample matches Some(c)
                    && c@ == counterexample@,
                _ => r.counterexample is None,
            },
    {
        let (layer, counterexample) = match result {
            DischargeResult::Proven { layer } => (Some(*layer), None),
            DischargeResult::Runtime => (Some(Layer::Runtime), None),
            DischargeResult::Violated { counterexample } => (None, Some(counterexample.clone())),
        };
        ObligationRecord {
            id: obligation.id.clone(),
            predicate: obligation.predicate.clone(),
            provenance: obligation.provenance.clone(),
            kind: obligation.kind,
            layer,
            counterexample,
        }
    }

    /// Whether this record is a real entailment proof: the right question
    /// asked and actually discharged statically.
    pub fn is_proof(&self) -> (r: bool)
        ensures
            r == spec_is_proof(self.kind, self.layer),
    {
        self.kind.is_entailment() && match self.layer {
            Some(layer) => layer != Layer::Runtime,
            None => false,
        }
    }
}

/// A record is a proof exactly when an entailment obligation was proven at
/// a static layer: never for a declaration-site obligation, never for an
/// obligation left to a runtime check, never for a disproven one.
pub proof fn lemma_record_is_proof(obligation: Obligation, result: DischargeResult)
    ensures
        spec_is_proof(obligation.kind, layer_of(result)) <==> (obligation.kind.spec_is_entailment()
            && (result matches DischargeResult::Proven { layer } && layer != Layer::Runtime)),
{
}

/// The `prove` section: the obligation trace.
#[derive(Debug, Clone)]
pub struct ProveSection {
    pub obligations: Vec<ObligationRecord>,
}

/// One test's outcome.
#[derive(Debug, Clone, PartialEq, Eq)]
pub struct TestRecord {
    pub name: String,
    pub outcome: String,
    pub duration_ms: u64,
}

/// Pass/fail/ignored counts for a test run.
#[derive(Debug, Clone, PartialEq, Eq)]
pub struct TestSummary {
    pub passed: u64,
    pub failed: u64,
    pub ignored: u64,
}

impl Default for TestSummary {
    fn default() -> (r: TestSummary)
        ensures
            r.passed == 0 && r.failed == 0 && r.ignored == 0,
    {
        TestSummary { passed: 0, failed: 0, ignored: 0 }
    }
}

/// The `test` section.
#[derive(Debug, Clone)]
pub struct TestSection {
    pub tests: Vec<TestRecord>,
    pub summary: TestSummary,
}

/// One MC/DC condition's coverage status.
#[derive(Debug, Clone)]
pub struct McdcCondition {
    pub id: String,
    pub covered: bool,
}

/// Covered/total counts for one coverage dimension.
#[derive(Debug, Clone)]
pub struct CoverageStat {
    pub covered: u64,
    pub total: u64,
}

/// The `coverage` section: lines and branches.
#[derive(Debug, Clone)]
pub struct CoverageSection {
    pub lines: CoverageStat,
    pub branches: CoverageStat,
}

/// One leaf of the assurance argument: an obligation and the warrant
/// connecting it to the top-level claim.
#[derive(Debug, Clone)]
pub struct AssuranceLeaf {
    pub warrant: String,
    pub obligation_id: String,
    pub provenance: String,
}

/// An assurance report: which crate was checked and when, and the
/// sections the producing subcommand filled in. (The MC/DC and argument
/// sections, which carry a percentage and free-form JSON, are added by
/// whoever serializes the report.)
#[derive(Debug, Clone)]
pub struct AssuranceReport {
    pub version: String,
    pub target: Target,
    pub check: Option<CheckSection>,
    pub prove: Option<ProveSection>,
    pub test: Option<TestSection>,
    pub coverage: Option<CoverageSection>,
}

/// The version of the assurance-report shape.
pub const ASSURANCE_SCHEMA_VERSION: &'static str = "1.2";

} // verus!
