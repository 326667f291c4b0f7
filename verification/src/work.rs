//! Units of work and the handles they are joined by.

use vstd::prelude::*;

verus! {

/// A unit of work ended abnormally.
#[derive(Clone, Copy, Debug, PartialEq, Eq, Structural)]
pub struct WorkFailure;

/// What a launcher holds of a unit it has spawned. It is used up by the one
/// `join` that hands the outcome of the unit over.
pub struct Handle<T> {
    outcome: Result<T, WorkFailure>,
}

impl<T> View for Handle<T> {
    type V = Result<T, WorkFailure>;

    closed spec fn view(&self) -> Result<T, WorkFailure> {
        self.outcome
    }
}

impl<T> Handle<T> {
    /// The handle of a unit that ran elsewhere and ended with `outcome`:
    /// `Some` with the value it produced, `None` where it failed.
    pub fn from_outcome(outcome: Option<T>) -> (handle: Handle<T>)
        ensures
            handle@ == match outcome {
                Some(value) => Ok::<T, WorkFailure>(value),
                None => Err::<T, WorkFailure>(WorkFailure),
            },
    {
        match outcome {
            Some(value) => Handle { outcome: Ok(value) },
            None => Handle { outcome: Err(WorkFailure) },
        }
    }

    /// Hands over what the unit produced, or its failure.
    pub fn join(self) -> (r: Result<T, WorkFailure>)
        ensures
            r == self@,
    {
        self.outcome
    }
}

/// Runs `work` as a unit of its own and returns the handle to join it by.
/// The unit shares nothing with its launcher, so what it produces does not
/// depend on when it runs: here it has run by the time `spawn` returns.
#[must_use]
pub fn spawn<T, F: FnOnce() -> T>(work: F) -> (handle: Handle<T>)
    requires
        work.requires(()),
    ensures
        handle@ matches Ok(value) && work.ensures((), value),
{
    Handle { outcome: Ok(work()) }
}

/// Spawns `work` and joins it: the launcher gets exactly what the unit produced.
pub fn run_joined<T, F: FnOnce() -> T>(work: F) -> (r: Result<T, WorkFailure>)
    requires
        work.requires(()),
    ensures
        r matches Ok(value) && work.ensures((), value),
{
    spawn(work).join()
}

} // verus!
