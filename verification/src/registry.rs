//! The process-wide swappable backend registry.
//!
//! A [`MetricsRegistry`] holds one [`AtomicRef`] slot whose current value is
//! the active [`MetricsHandle`].  Installing a new backend never discards an
//! earlier handle: a replaced backend deliberately stays alive for the
//! process lifetime, so an in-flight dispatch can never observe a freed
//! backend, and the registry keeps every installed handle around in the
//! same way.

use vstd::prelude::*;

verus! {

use crate::{Id, TagView, Tags};

/// Common interface for metrics backends.  Each new backend must implement
/// this trait.  Implementations must be safe for concurrent use or be used
/// in a strictly single-threaded manner, because the registry can be shared
/// across threads.
///
/// Each backend describes its own behaviour through the `*_rel` spec
/// functions: a relation between the state before a call, the state after
/// it, and the call's result.  The executable operations promise exactly
/// that their own relation holds, so callers dispatching through a generic
/// backend still know how the state evolved.
pub trait Metrics: Sized {
    /// Validity of a backend value; constructors establish it and every
    /// operation preserves it.
    spec fn inv(&self) -> bool;

    /// The backend's human-readable name.
    spec fn name_spec(&self) -> Seq<char>;

    /// How `new_counter` changes the backend and which id it hands out.
    spec fn new_counter_rel(&self, name: Seq<char>, tags: Seq<TagView>, post: Self, id: Id) -> bool;

    /// How `delete_counter` changes the backend.
    spec fn delete_counter_rel(&self, id: Id, post: Self) -> bool;

    /// How `increment_counter_by` changes the backend.
    spec fn increment_counter_by_rel(&self, id: Id, delta: u64, post: Self) -> bool;

    /// How `new_histogram` changes the backend and which id it hands out.
    spec fn new_histogram_rel(&self, name: Seq<char>, tags: Seq<TagView>, post: Self, id: Id) -> bool;

    /// How `delete_histogram` changes the backend.
    spec fn delete_histogram_rel(&self, id: Id, post: Self) -> bool;

    /// How `record` changes the backend.
    spec fn record_rel(&self, id: Id, value: u64, post: Self) -> bool;

    fn name(&self) -> (r: String)
        ensures
            r@ == self.name_spec(),
    ;

    fn new_counter(&mut self, name: &str, tags: &Tags) -> (id: Id)
        requires
            old(self).inv(),
        ensures
            final(self).inv(),
            old(self).new_counter_rel(name@, crate::tags_view(tags@), *final(self), id),
    ;

    fn delete_counter(&mut self, id: Id)
        requires
            old(self).inv(),
        ensures
            final(self).inv(),
            old(self).delete_counter_rel(id, *final(self)),
    ;

    fn increment_counter_by(&mut self, id: Id, delta: u64)
        requires
            old(self).inv(),
        ensures
            final(self).inv(),
            old(self).increment_counter_by_rel(id, delta, *final(self)),
    ;

    /// Increment by one; a convenience built atop `increment_counter_by`.
    fn increment_counter(&mut self, id: Id)
        requires
            old(self).inv(),
        ensures
            final(self).inv(),
            old(self).increment_counter_by_rel(id, 1, *final(self)),
    {
        self.increment_counter_by(id, 1)
    }

    fn new_histogram(&mut self, name: &str, tags: &Tags) -> (id: Id)
        requires
            old(self).inv(),
        ensures
            final(self).inv(),
            old(self).new_histogram_rel(name@, crate::tags_view(tags@), *final(self), id),
    ;

    fn delete_histogram(&mut self, id: Id)
        requires
            old(self).inv(),
        ensures
            final(self).inv(),
            old(self).delete_histogram_rel(id, *final(self)),
    ;

    fn record(&mut self, id: Id, value: u64)
        requires
            old(self).inv(),
        ensures
            final(self).inv(),
            old(self).record_rel(id, value, *final(self)),
    ;
}

/// A trivial no-op backend for the "uninitialized" state.
pub struct NoOpMetrics;

impl Metrics for NoOpMetrics {
    open spec fn inv(&self) -> bool {
        true
    }

    open spec fn name_spec(&self) -> Seq<char> {
        "no-op"@
    }

    open spec fn new_counter_rel(&self, name: Seq<char>, tags: Seq<TagView>, post: Self, id: Id) -> bool {
        id == 0u64
    }

    open spec fn delete_counter_rel(&self, id: Id, post: Self) -> bool {
        true
    }

    open spec fn increment_counter_by_rel(&self, id: Id, delta: u64, post: Self) -> bool {
        true
    }

    open spec fn new_histogram_rel(&self, name: Seq<char>, tags: Seq<TagView>, post: Self, id: Id) -> bool {
        id == 0u64
    }

    open spec fn delete_histogram_rel(&self, id: Id, post: Self) -> bool {
        true
    }

    open spec fn record_rel(&self, id: Id, value: u64, post: Self) -> bool {
        true
    }

    fn name(&self) -> (r: String) {
        String::from_str("no-op")
    }

    fn new_counter(&mut self, name: &str, tags: &Tags) -> (id: Id) {
        0
    }

    fn delete_counter(&mut self, id: Id) {
    }

    fn increment_counter_by(&mut self, id: Id, delta: u64) {
    }

    fn new_histogram(&mut self, name: &str, tags: &Tags) -> (id: Id) {
        0
    }

    fn delete_histogram(&mut self, id: Id) {
    }

    fn record(&mut self, id: Id, value: u64) {
    }
}

/// A swappable reference cell.  The live value is the one at `current`;
/// installing a new value keeps every earlier value alive, mirroring the
/// intentional leak of replaced backends.
pub struct AtomicRef<T> {
    pub values: Vec<T>,
    pub current: usize,
}

impl<T> AtomicRef<T> {
    /// The slot always points at one of the values it has held.
    pub open spec fn wf(&self) -> bool {
        self.current < self.values@.len()
    }

    pub fn new(data: T) -> (r: Self)
        ensures
            r.wf(),
            r.values@ =~= seq![data],
            r.current == 0usize,
    {
        let mut values: Vec<T> = Vec::new();
        values.push(data);
        AtomicRef { values, current: 0 }
    }

    pub fn get(&self) -> (r: &T)
        requires
            self.wf(),
        ensures
            *r == self.values@[self.current as int],
    {
        &self.values[self.current]
    }

    /// Installs a new value and makes it current; the earlier values stay
    /// in place untouched.
    pub fn set(&mut self, new_ref: T)
        requires
            old(self).wf(),
        ensures
            final(self).wf(),
            final(self).values@ =~= old(self).values@.push(new_ref),
            final(self).current == old(self).values@.len(),
    {
        let idx = self.values.len();
        self.values.push(new_ref);
        self.current = idx;
    }
}

/// Metrics backend handle: one installable backend together with its name.
/// A handle whose backend is absent is the built-in no-op handle, which
/// implements every operation as an immediate return.
pub struct MetricsHandle<M: Metrics> {
    pub backend: Option<M>,
    pub name: String,
}

impl<M: Metrics> MetricsHandle<M> {
    pub open spec fn is_noop(&self) -> bool {
        self.backend is None
    }

    pub open spec fn inv(&self) -> bool {
        self.backend matches Some(m) ==> m.inv()
    }

    /// The distinguished handle used before any backend is installed.
    pub fn no_op() -> (r: Self)
        ensures
            r.is_noop(),
            r.inv(),
            r.name@ == "no-op"@,
    {
        MetricsHandle { backend: None, name: String::from_str("no-op") }
    }

    /// Wraps a concrete backend into an installable handle.
    pub fn new(metrics: M) -> (r: Self)
        requires
            metrics.inv(),
        ensures
            r.inv(),
            r.backend == Some(metrics),
            r.name@ == metrics.name_spec(),
    {
        let name = metrics.name();
        MetricsHandle { backend: Some(metrics), name }
    }

    /// Relation between the handle before and after a `new_counter`
    /// dispatch: the no-op handle is unchanged and hands out id 0, any
    /// other handle steps its backend by the backend's own relation.
    pub open spec fn new_counter_rel(&self, name: Seq<char>, tags: Seq<TagView>, post: Self, id: Id) -> bool {
        &&& post.name == self.name
        &&& match (self.backend, post.backend) {
            (Option::None, Option::None) => id == 0u64,
            (Option::Some(m), Option::Some(m2)) => m.new_counter_rel(name, tags, m2, id),
            _ => false,
        }
    }

    pub open spec fn delete_counter_rel(&self, id: Id, post: Self) -> bool {
        &&& post.name == self.name
        &&& match (self.backend, post.backend) {
            (Option::None, Option::None) => true,
            (Option::Some(m), Option::Some(m2)) => m.delete_counter_rel(id, m2),
            _ => false,
        }
    }

    pub open spec fn increment_counter_by_rel(&self, id: Id, delta: u64, post: Self) -> bool {
        &&& post.name == self.name
        &&& match (self.backend, post.backend) {
            (Option::None, Option::None) => true,
            (Option::Some(m), Option::Some(m2)) => m.increment_counter_by_rel(id, delta, m2),
            _ => false,
        }
    }

    pub open spec fn new_histogram_rel(&self, name: Seq<char>, tags: Seq<TagView>, post: Self, id: Id) -> bool {
        &&& post.name == self.name
        &&& match (self.backend, post.backend) {
            (Option::None, Option::None) => id == 0u64,
            (Option::Some(m), Option::Some(m2)) => m.new_histogram_rel(name, tags, m2, id),
            _ => false,
        }
    }

    pub open spec fn delete_histogram_rel(&self, id: Id, post: Self) -> bool {
        &&& post.name == self.name
        &&& match (self.backend, post.backend) {
            (Option::None, Option::None) => true,
            (Option::Some(m), Option::Some(m2)) => m.delete_histogram_rel(id, m2),
            _ => false,
        }
    }

    pub open spec fn record_rel(&self, id: Id, value: u64, post: Self) -> bool {
        &&& post.name == self.name
        &&& match (self.backend, post.backend) {
            (Option::None, Option::None) => true,
            (Option::Some(m), Option::Some(m2)) => m.record_rel(id, value, m2),
            _ => false,
        }
    }

    pub fn new_counter(&mut self, name: &str, tags: &Tags) -> (id: Id)
        requires
            old(self).inv(),
        ensures
            final(self).inv(),
            old(self).new_counter_rel(name@, crate::tags_view(tags@), *final(self), id),
    {
        match &mut self.backend {
            Option::None => 0,
            Option::Some(m) => m.new_counter(name, tags),
        }
    }

    pub fn delete_counter(&mut self, id: Id)
        requires
            old(self).inv(),
        ensures
            final(self).inv(),
            old(self).delete_counter_rel(id, *final(self)),
    {
        match &mut self.backend {
            Option::None => {},
            Option::Some(m) => m.delete_counter(id),
        }
    }

    pub fn increment_counter_by(&mut self, id: Id, delta: u64)
        requires
            old(self).inv(),
        ensures
            final(self).inv(),
            old(self).increment_counter_by_rel(id, delta, *final(self)),
    {
        match &mut self.backend {
            Option::None => {},
            Option::Some(m) => m.increment_counter_by(id, delta),
        }
    }

    pub fn increment_counter(&mut self, id: Id)
        requires
            old(self).inv(),
        ensures
            final(self).inv(),
            old(self).increment_counter_by_rel(id, 1, *final(self)),
    {
        match &mut self.backend {
            Option::None => {},
            Option::Some(m) => m.increment_counter(id),
        }
    }

    pub fn new_histogram(&mut self, name: &str, tags: &Tags) -> (id: Id)
        requires
            old(self).inv(),
        ensures
            final(self).inv(),
            old(self).new_histogram_rel(name@, crate::tags_view(tags@), *final(self), id),
    {
        match &mut self.backend {
            Option::None => 0,
            Option::Some(m) => m.new_histogram(name, tags),
        }
    }

    pub fn delete_histogram(&mut self, id: Id)
        requires
            old(self).inv(),
        ensures
            final(self).inv(),
            old(self).delete_histogram_rel(id, *final(self)),
    {
        match &mut self.backend {
            Option::None => {},
            Option::Some(m) => m.delete_histogram(id),
        }
    }

    pub fn record(&mut self, id: Id, value: u64)
        requires
            old(self).inv(),
        ensures
            final(self).inv(),
            old(self).record_rel(id, value, *final(self)),
    {
        match &mut self.backend {
            Option::None => {},
            Option::Some(m) => m.record(id, value),
        }
    }
}

/// The registry: one swappable slot holding the currently active handle,
/// initialized to the no-op handle.
pub struct MetricsRegistry<M: Metrics> {
    pub handle: AtomicRef<MetricsHandle<M>>,
}

impl<M: Metrics> MetricsRegistry<M> {
    pub open spec fn wf(&self) -> bool {
        &&& self.handle.wf()
        &&& forall|i: int| 0 <= i < self.handle.values@.len() ==> (#[trigger] self.handle.values@[i]).inv()
    }

    /// Every handle ever installed, in installation order.
    pub open spec fn handles(&self) -> Seq<MetricsHandle<M>> {
        self.handle.values@
    }

    /// Index of the currently active handle.
    pub open spec fn active_index(&self) -> int {
        self.current_of() as int
    }

    pub open spec fn current_of(&self) -> usize {
        self.handle.current
    }

    /// The currently active handle.
    pub open spec fn active(&self) -> MetricsHandle<M> {
        self.handles()[self.active_index()]
    }

    /// A fresh registry with the no-op backend active.
    pub fn new() -> (r: Self)
        ensures
            r.wf(),
            r.handles().len() == 1,
            r.active_index() == 0,
            r.active().is_noop(),
            r.active().name@ == "no-op"@,
    {
        MetricsRegistry { handle: AtomicRef::new(MetricsHandle::no_op()) }
    }

    /// Frame of every dispatch: only the active handle may change.
    pub open spec fn dispatch_frame(&self, post: Self) -> bool {
        &&& post.handles().len() == self.handles().len()
        &&& post.active_index() == self.active_index()
        &&& forall|i: int|
            0 <= i < self.handles().len() && i != self.active_index()
                ==> post.handles()[i] == #[trigger] self.handles()[i]
    }

    pub open spec fn new_counter_rel(&self, name: Seq<char>, tags: Seq<TagView>, post: Self, id: Id) -> bool {
        &&& self.dispatch_frame(post)
        &&& self.active().new_counter_rel(name, tags, post.active(), id)
    }

    pub open spec fn delete_counter_rel(&self, id: Id, post: Self) -> bool {
        &&& self.dispatch_frame(post)
        &&& self.active().delete_counter_rel(id, post.active())
    }

    pub open spec fn increment_counter_by_rel(&self, id: Id, delta: u64, post: Self) -> bool {
        &&& self.dispatch_frame(post)
        &&& self.active().increment_counter_by_rel(id, delta, post.active())
    }

    pub open spec fn new_histogram_rel(&self, name: Seq<char>, tags: Seq<TagView>, post: Self, id: Id) -> bool {
        &&& self.dispatch_frame(post)
        &&& self.active().new_histogram_rel(name, tags, post.active(), id)
    }

    pub open spec fn delete_histogram_rel(&self, id: Id, post: Self) -> bool {
        &&& self.dispatch_frame(post)
        &&& self.active().delete_histogram_rel(id, post.active())
    }

    pub open spec fn record_rel(&self, id: Id, value: u64, post: Self) -> bool {
        &&& self.dispatch_frame(post)
        &&& self.active().record_rel(id, value, post.active())
    }

    pub fn new_counter(&mut self, name: &str, tags: &Tags) -> (id: Id)
        requires
            old(self).wf(),
        ensures
            final(self).wf(),
            old(self).new_counter_rel(name@, crate::tags_view(tags@), *final(self), id),
    {
        let cur = self.handle.current;
        let h = &mut self.handle.values[cur];
        h.new_counter(name, tags)
    }

    pub fn delete_counter(&mut self, id: Id)
        requires
            old(self).wf(),
        ensures
            final(self).wf(),
            old(self).delete_counter_rel(id, *final(self)),
    {
        let cur = self.handle.current;
        let h = &mut self.handle.values[cur];
        h.delete_counter(id)
    }

    pub fn increment_counter_by(&mut self, id: Id, delta: u64)
        requires
            old(self).wf(),
        ensures
            final(self).wf(),
            old(self).increment_counter_by_rel(id, delta, *final(self)),
    {
        let cur = self.handle.current;
        let h = &mut self.handle.values[cur];
        h.increment_counter_by(id, delta)
    }

    pub fn new_histogram(&mut self, name: &str, tags: &Tags) -> (id: Id)
        requires
            old(self).wf(),
        ensures
            final(self).wf(),
            old(self).new_histogram_rel(name@, crate::tags_view(tags@), *final(self), id),
    {
        let cur = self.handle.current;
        let h = &mut self.handle.values[cur];
        h.new_histogram(name, tags)
    }

    pub fn delete_histogram(&mut self, id: Id)
        requires
            old(self).wf(),
        ensures
            final(self).wf(),
            old(self).delete_histogram_rel(id, *final(self)),
    {
        let cur = self.handle.current;
        let h = &mut self.handle.values[cur];
        h.delete_histogram(id)
    }

    pub fn record(&mut self, id: Id, value: u64)
        requires
            old(self).wf(),
        ensures
            final(self).wf(),
            old(self).record_rel(id, value, *final(self)),
    {
        let cur = self.handle.current;
        let h = &mut self.handle.values[cur];
        h.record(id, value)
    }
}

/// What installing a backend does to a registry: the new handle is
/// appended and becomes active; every earlier handle stays untouched.
pub open spec fn set_metrics_post<M: Metrics>(pre: MetricsRegistry<M>, metrics: M, post: MetricsRegistry<M>) -> bool {
    &&& post.handles().len() == pre.handles().len() + 1
    &&& post.active_index() == pre.handles().len()
    &&& forall|i: int| 0 <= i < pre.handles().len() ==> post.handles()[i] == #[trigger] pre.handles()[i]
    &&& post.active().backend == Some(metrics)
    &&& post.active().name@ == metrics.name_spec()
}

/// Set a new metrics backend.  Every later proxy operation dispatches to
/// it until another backend is installed.
pub fn set_metrics<M: Metrics>(registry: &mut MetricsRegistry<M>, metrics: M)
    requires
        old(registry).wf(),
        metrics.inv(),
    ensures
        final(registry).wf(),
        set_metrics_post(*old(registry), metrics, *final(registry)),
{
    registry.handle.set(MetricsHandle::new(metrics));
}

/// Get the currently active handle.
pub fn get_metrics<M: Metrics>(registry: &MetricsRegistry<M>) -> (r: &MetricsHandle<M>)
    requires
        registry.wf(),
    ensures
        *r == registry.active(),
{
    registry.handle.get()
}

/// Get the name of the active metrics backend.
pub fn get_metrics_backend_name<M: Metrics>(registry: &MetricsRegistry<M>) -> (r: String)
    requires
        registry.wf(),
    ensures
        r@ == registry.active().name@,
{
    get_metrics(registry).name.clone()
}

} // verus!
