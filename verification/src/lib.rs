//! Refinement-obligation discharge, MC/DC obligation bookkeeping and
//! assurance-report records for annotated Rust code.

pub mod solver;
pub mod text;
pub mod expr;
pub mod interval;
pub mod clause;
pub mod linear;
pub mod sat;
pub mod fm_rational;
pub mod order;
pub mod native;
pub mod entail;
pub mod predicate;
pub mod subst;
pub mod semantics;
pub mod laws;
pub mod lines;
pub mod schema;
pub mod test_output;
pub mod obligation;
pub mod harvest;
pub mod decision;
pub mod mutate;
pub mod discharge;
pub mod sarif;
pub mod labels;
pub mod diagnostics;
pub mod report;
pub mod syntax;
pub mod from_syn;
pub mod limits;
pub mod scanner;
pub mod attrs;
pub mod impl_methods;
pub mod effects;
pub mod ifc;
pub mod suite;
