//! Obligation-discharge types shared by the native dispatcher and the
//! assurance report.

use vstd::prelude::*;

verus! {

/// The layer that discharged an obligation (`L1`..`L5`), or `Runtime` when
/// no static layer could close it and a runtime check is owed.
#[derive(Debug, Clone, Copy, PartialEq, Eq, Structural)]
pub enum Layer {
    L1,
    L2,
    L3,
    L4,
    L5,
    Runtime,
}

/// Which question was asked of the solver at an obligation's program point.
#[derive(Debug, Clone, Copy, PartialEq, Eq, Structural)]
pub enum ObligationClass {
    /// A declaration site: is the predicate satisfiable (coherence)?
    Declaration,
    /// A call site: does the caller's context entail the callee's `requires`?
    CallSite,
    /// A return point: does the returned value establish the `ensures`?
    ReturnSite,
}

impl ObligationClass {
    pub open spec fn spec_is_entailment(self) -> bool {
        self is CallSite || self is ReturnSite
    }

    /// Whether discharging this obligation is an entailment proof, as opposed
    /// to a coherence check.
    pub fn is_entailment(&self) -> (r: bool)
        ensures
            r == self.spec_is_entailment(),
    {
        match self {
            ObligationClass::Declaration => false,
            ObligationClass::CallSite => true,
            ObligationClass::ReturnSite => true,
        }
    }

    pub open spec fn wire_name(self) -> Seq<char> {
        match self {
            ObligationClass::Declaration => "declaration"@,
            ObligationClass::CallSite => "call-site"@,
            ObligationClass::ReturnSite => "return-site"@,
        }
    }

    /// The wire spelling of this class.
    pub fn as_str(&self) -> (r: &'static str)
        ensures
            r@ == self.wire_name(),
    {
        match self {
            ObligationClass::Declaration => "declaration",
            ObligationClass::CallSite => "call-site",
            ObligationClass::ReturnSite => "return-site",
        }
    }
}

/// Outcome of attempting to discharge an obligation.
#[derive(Debug, Clone, PartialEq, Eq)]
pub enum DischargeResult {
    /// Proven, attributed to the layer that closed it.
    Proven { layer: Layer },
    /// Not decided statically; a runtime check is owed at the obligation's site.
    Runtime,
    /// Disproven, with a counterexample.
    Violated { counterexample: String },
}

pub enum DischargeResultV {
    Proven { layer: Layer },
    Runtime,
    Violated { counterexample: Seq<char> },
}

impl View for DischargeResult {
    type V = DischargeResultV;

    open spec fn view(&self) -> DischargeResultV {
        match self {
            DischargeResult::Proven { layer } => DischargeResultV::Proven { layer: *layer },
            DischargeResult::Runtime => DischargeResultV::Runtime,
            DischargeResult::Violated { counterexample } => DischargeResultV::Violated {
                counterexample: counterexample@,
            },
        }
    }
}

impl DischargeResult {
    pub fn duplicate(&self) -> (r: DischargeResult)
        ensures
            r@ == self@,
    {
        match self {
            DischargeResult::Proven { layer } => DischargeResult::Proven { layer: *layer },
            DischargeResult::Runtime => DischargeResult::Runtime,
            DischargeResult::Violated { counterexample } => DischargeResult::Violated {
                counterexample: counterexample.clone(),
            },
        }
    }
}

/// A single refinement obligation: its id, predicate text, source location
/// and which question it asks.
#[derive(Debug, Clone, PartialEq, Eq)]
pub struct Obligation {
    pub id: String,
    pub predicate: String,
    pub provenance: String,
    pub kind: ObligationClass,
}

/// What backs a reported outcome: a real proof, runtime enforcement of the
/// named premises, or nothing.
#[derive(Debug, Clone, PartialEq, Eq)]
pub enum Warrant {
    Proof,
    Enforcement { premises: Vec<String> },
    Unbacked,
}

/// An obligation dispatcher: every obligation gets a verdict, proven at
/// some layer, left to a runtime check, or violated.
pub trait SolverBackend {
    fn discharge(&self, obligation: &Obligation) -> DischargeResult;
}

/// A backend that discharges obligations by running the external `mvl`
/// solver binary (`mvl` on `PATH` unless another path is given).
#[derive(Debug, Clone)]
pub struct ShellOutSolver {
    /// Path to the `mvl` binary; `None` means `"mvl"`, resolved via `PATH`.
    pub mvl_path: Option<String>,
}

impl ShellOutSolver {
    /// A solver that runs `mvl` from `PATH`.
    pub fn new() -> (r: ShellOutSolver)
        ensures
            r.mvl_path is None,
    {
        ShellOutSolver { mvl_path: None }
    }

    /// A solver that runs the binary at `mvl_path`.
    pub fn with_binary(mvl_path: String) -> (r: ShellOutSolver)
        ensures
            r.mvl_path == Some(mvl_path),
    {
        ShellOutSolver { mvl_path: Some(mvl_path) }
    }

    /// The binary to run: the configured path, or `"mvl"`.
    pub fn binary(&self) -> (r: &str)
        ensures
            self.mvl_path matches Some(p) ==> r@ == p@,
            self.mvl_path is None ==> r@ == "mvl"@,
    {
        match &self.mvl_path {
            Some(p) => p.as_str(),
            None => "mvl",
        }
    }
}

} // verus!
