//! The handles that a host holds and the answers that the runtime gives.

use crate::error::ReactiveError;
use vstd::prelude::*;

verus! {

/// The right to read a signal or a memo.
#[derive(Clone, Copy, Debug, PartialEq, Eq, Structural)]
pub struct ReadSignal {
    pub id: usize,
}

/// The right to write a signal.
#[derive(Clone, Copy, Debug, PartialEq, Eq, Structural)]
pub struct WriteSignal {
    pub id: usize,
}

/// The name of an effect.
#[derive(Clone, Copy, Debug, PartialEq, Eq, Structural)]
pub struct EffectHandle {
    pub id: usize,
}

/// What a read found.
#[derive(Debug, PartialEq, Eq)]
pub enum Fetched<T> {
    /// The node is up to date and holds this value.
    Ready(T),
    /// The node is a memo that has to be refreshed before it can be read.
    Stale,
}

/// The answer to a read, with the value itself in place of the reference to
/// it.
pub open spec fn by_value<T>(r: Result<Fetched<&T>, ReactiveError>) -> Result<Fetched<T>, ReactiveError> {
    match r {
        Ok(Fetched::Ready(v)) => Ok(Fetched::Ready(*v)),
        Ok(Fetched::Stale) => Ok(Fetched::Stale),
        Err(e) => Err(e),
    }
}

/// What has to happen before a node is up to date.
#[derive(Clone, Copy, Debug, PartialEq, Eq, Structural)]
pub enum Refresh {
    /// Nothing: the node is clean.
    Fresh,
    /// The evaluation of this node has begun; the host computes its body and
    /// reports the end of the evaluation.
    Run(usize),
    /// This dependency of the node has to be refreshed first.
    Blocked(usize),
}

/// One step of a flush.
#[derive(Clone, Copy, Debug, PartialEq, Eq, Structural)]
pub enum FlushStep {
    /// Nothing is pending.
    Done,
    /// This node was found to be up to date without running it.
    Settled(usize),
    /// The evaluation of this node has begun; the host computes its body and
    /// reports the end of the evaluation.
    Run(usize),
}

} // verus!
