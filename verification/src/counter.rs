//! A `Counter` proxy struct for managing a metrics counter.

use vstd::prelude::*;

verus! {

use crate::{Id, Tags};
use crate::registry::{Metrics, MetricsRegistry};

/// Provides methods to create a new counter, increment it, and increment
/// it by a specified amount.  Every operation dispatches through the
/// registry to whichever backend is active at call time, using the id the
/// counter obtained at creation — even if the active backend has changed
/// since then (a documented hazard, not corrected automatically).
///
/// A counter must be released exactly once with [`Counter::release`],
/// which deregisters it against the backend active at release time.
#[derive(Debug)]
pub struct Counter {
    pub id: Id,
}

impl Counter {
    /// Creates a new counter with the specified `name` and `tags`,
    /// registering it with the backend active at call time.
    pub fn new<M: Metrics>(name: &str, tags: &Tags, registry: &mut MetricsRegistry<M>) -> (r: Self)
        requires
            old(registry).wf(),
        ensures
            final(registry).wf(),
            old(registry).new_counter_rel(name@, crate::tags_view(tags@), *final(registry), r.id),
    {
        let counter_id = registry.new_counter(name, tags);
        Counter { id: counter_id }
    }

    /// Creates a counter object without registering it.  The new proxy
    /// assumes the metrics backend already knows the id, as with
    /// pre-allocated metrics.
    pub fn new_with_id(id: Id) -> (r: Self)
        ensures
            r.id == id,
    {
        Counter { id }
    }

    /// Deregisters the counter against whichever backend is active at
    /// release time.  Taking the counter by value makes the deregistration
    /// happen exactly once.
    pub fn release<M: Metrics>(self, registry: &mut MetricsRegistry<M>)
        requires
            old(registry).wf(),
        ensures
            final(registry).wf(),
            old(registry).delete_counter_rel(self.id, *final(registry)),
    {
        registry.delete_counter(self.id);
    }
}

/// Defines a series of operations that can be performed on a `Counter`.
/// The operations are infallible by design: a failing backend must absorb
/// or report its own errors, never propagate them through these calls.
pub trait CounterOps<M: Metrics> {
    /// The id the operations dispatch with.
    spec fn counter_id(&self) -> Id;

    /// Increments the counter by 1.
    fn increment(&self, registry: &mut MetricsRegistry<M>)
        requires
            old(registry).wf(),
        ensures
            final(registry).wf(),
            old(registry).increment_counter_by_rel(self.counter_id(), 1, *final(registry)),
    ;

    /// Increments the counter by a specified amount.
    fn increment_by(&self, registry: &mut MetricsRegistry<M>, delta: u64)
        requires
            old(registry).wf(),
        ensures
            final(registry).wf(),
            old(registry).increment_counter_by_rel(self.counter_id(), delta, *final(registry)),
    ;
}

impl<M: Metrics> CounterOps<M> for Counter {
    open spec fn counter_id(&self) -> Id {
        self.id
    }

    fn increment(&self, registry: &mut MetricsRegistry<M>) {
        registry.increment_counter_by(self.id, 1);
    }

    fn increment_by(&self, registry: &mut MetricsRegistry<M>, delta: u64) {
        registry.increment_counter_by(self.id, delta);
    }
}

} // verus!
