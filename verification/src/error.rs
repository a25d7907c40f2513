//! The ways an operation of this library can fail.

use vstd::prelude::*;

verus! {

/// Why an operation did not complete.
#[derive(Clone, Copy, Debug, PartialEq, Eq, Structural)]
pub enum ErrorKind {
    /// No driver is loaded, or no process is bound, where one is needed.
    NotInitialised,
    /// The driver manager was left in a broken state by an earlier failure.
    Poisoned,
    /// An argument is outside what the operation accepts.
    InvalidArgument,
    /// The system refused a mapping, a flush or another request.
    IoFailure,
    /// The caller asked for the work to stop.
    Cancelled,
    /// A safety cap was passed.
    Exhausted,
}

/// The check for cancellation can only say yes: whenever it is asked, the
/// work is to stop.
pub open spec fn spec_always_cancels<C: Fn() -> bool>(check_cancelled: C) -> bool {
    forall|answer: bool| call_ensures(check_cancelled, (), answer) ==> answer
}

} // verus!
