//! Structured log records emitted by the evaluator.
use vstd::prelude::*;

verus! {

/// One record of the evaluator's machine-readable execution trace.
///
/// Only `Msg` carries text that the classifier reads; every other kind is
/// carried through and ignored.
#[derive(Clone, Debug)]
pub enum NixInternalLog {
    /// A plain message, with its verbosity level.
    Msg { msg: String, raw_msg: Option<String>, level: u8 },
    /// An activity started.
    Start { id: u64, level: u8, text: String, parent: u64 },
    /// An activity stopped.
    Stop { id: u64 },
    /// The build moved to another phase.
    SetPhase { phase: String },
}

} // verus!
