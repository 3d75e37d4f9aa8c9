//! Composition of non-deterministic choice with a fallible-result channel,
//! with short-circuit propagation.

use vstd::prelude::*;
use crate::nondet::Nondet;

verus! {

/// Conceptually a `Nondet<Result<T, E>>`: a computation that was flagged as
/// a non-deterministic choice and that may also fail. The distinct wrapper
/// keeps the choice channel and the failure channel composable through one
/// propagation discipline: an error short-circuits, a choice passes its
/// value through.
#[must_use]
pub struct NdResult<T, E>(pub Result<T, E>);

impl<T, E> NdResult<T, E> {
    /// Wraps a plain result.
    pub fn from_internal(r: Result<T, E>) -> (n: Self)
        ensures
            n.0 == r,
    {
        NdResult(r)
    }

    /// Unwraps to the plain result.
    pub fn get_internal(self) -> (r: Result<T, E>)
        ensures
            r == self.0,
    {
        self.0
    }

    /// Wraps a success value.
    pub fn from_output(output: T) -> (n: Self)
        ensures
            n.0 == Ok::<T, E>(output),
    {
        NdResult(Ok(output))
    }

    /// Propagates a pure choice: a choice can never itself carry an error,
    /// so this is a pass-through of its success value.
    pub fn from_nondet(choice: Nondet<T>) -> (n: Self)
        ensures
            n.0 == Ok::<T, E>(choice.0),
    {
        NdResult(Ok(choice.get()))
    }

    /// Raises an error residual directly, without building the full result
    /// by hand.
    pub fn raise(e: E) -> (n: Self)
        ensures
            n.0 == Err::<T, E>(e),
    {
        NdResult(Err(e))
    }

    /// Monadic bind: an error short-circuits unchanged and `f` is never
    /// applied; otherwise `f` runs on the success value and its result is
    /// the whole result.
    pub fn and_then<U, F: FnOnce(T) -> NdResult<U, E>>(self, f: F) -> (r: NdResult<U, E>)
        requires
            self.0 matches Ok(t) ==> call_requires(f, (t,)),
        ensures
            self.0 matches Err(e) ==> r.0 == Err::<U, E>(e),
            self.0 matches Ok(t) ==> call_ensures(f, (t,), r),
    {
        match self.0 {
            Ok(t) => f(t),
            Err(e) => NdResult(Err(e)),
        }
    }
}

} // verus!
