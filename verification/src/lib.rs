//! **reed**: the judge for verifiable-evidence graphs.
//!
//! Producers emit evidence records whose bearings promote and inhibit
//! claims; reed scores that graph into verdicts. Logic decides WHETHER a
//! claim is admitted (caller Datalog rules over facts drawn from the
//! records); semantics decides HOW MUCH (a gradual score of the bipolar
//! graph). This library holds everything a run decides without arithmetic:
//! which records are claims, the graph's edges, the program the logical
//! layer saturates and the query for each claim, admission, and the tiered
//! report.
use vstd::prelude::*;

pub mod claims;
pub mod judging;
pub mod program;
pub mod record;
pub mod report;
pub mod text;

verus! {

/// Which semiring the logical layer runs under.
#[derive(Clone, Copy, Debug, PartialEq, Eq, Structural)]
pub enum SemiringChoice {
    Boolean,
    MaxMin,
    Probability,
}

/// How the gradual layer aggregates the bipolar graph.
#[derive(Clone, Copy, Debug, PartialEq, Eq, Structural)]
pub enum Semantics {
    /// DF-QuAD: support and attack each combine by `1 - prod(1 - w)`, then
    /// move the base score toward 1 or 0 by the difference.
    DfQuad,
    /// Log-odds voting: `sigmoid(logit(b) + sum(promote) - sum(inhibit))`.
    LogOdds,
}

} // verus!
