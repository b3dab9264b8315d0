//! The failures that the runtime reports to its caller.

use vstd::prelude::*;

verus! {

/// Why an operation of the runtime was refused.
#[derive(Clone, Copy, Debug, PartialEq, Eq, Structural)]
pub enum ReactiveError {
    /// A signal, memo or effect was created while no scope was open.
    NoActiveScope,
    /// A node or scope was used after the scope that owns it was disposed.
    UseAfterDispose,
    /// A computation would have re-entered itself, or wrote to something
    /// that it depends on while it was being recomputed.
    CyclicDependency,
    /// An uncontrolled field was read before its external identity was attached.
    MissingBinding,
}

impl ReactiveError {
    /// A short, stable description of the failure.
    pub fn message(&self) -> (text: &'static str)
        ensures
            text@ == (match *self {
                ReactiveError::NoActiveScope => "no active scope"@,
                ReactiveError::UseAfterDispose => "use after dispose"@,
                ReactiveError::CyclicDependency => "cyclic dependency"@,
                ReactiveError::MissingBinding => "missing binding"@,
            }),
    {
        match self {
            ReactiveError::NoActiveScope => "no active scope",
            ReactiveError::UseAfterDispose => "use after dispose",
            ReactiveError::CyclicDependency => "cyclic dependency",
            ReactiveError::MissingBinding => "missing binding",
        }
    }
}

} // verus!
