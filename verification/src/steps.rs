//! The steps of a schedule over a store.

use crate::query::Filter;
use vstd::prelude::*;

verus! {

/// A step that no other step passes.
pub struct Barrier;

/// A step that is handed the whole store.
pub struct With<F>(pub F);

/// A step that is handed each item that a query finds.
pub struct Each<Q, F>(pub Q, pub F);

/// A step that no other step passes.
pub fn barrier() -> (step: Barrier)
    ensures
        step == Barrier,
{
    Barrier
}

/// A step that is handed the whole store.
pub fn with<F>(run: F) -> (step: With<F>)
    ensures
        step.0 == run,
{
    With(run)
}

/// A step that is handed each item that a query finds.
pub fn query<Q: Filter, F>(items: Q, run: F) -> (step: Each<Q, F>)
    ensures
        step.0 == items,
        step.1 == run,
{
    Each(items, run)
}

} // verus!
