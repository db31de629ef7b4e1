//! Allocation instrumentation: pre-allocated counters for allocation and
//! deallocation counts and byte volumes.
//!
//! A global allocator hook is active before any backend can be selected,
//! so its four counters use caller-chosen ids from the reserved range and
//! stay valid no-op proxies until a backend is installed.  The accounting
//! decisions live here; the unsafe allocator glue that calls them is
//! ordinary hosting code.

use vstd::prelude::*;

verus! {

use crate::counter::Counter;
use crate::registry::{Metrics, MetricsRegistry};
use crate::{Id, PreAllocatedMetric, Tags};

/// Identifier of the allocation-count counter.
pub const ALLOC_COUNTER_ID: Id = u64::MAX - 1004;

/// Identifier of the allocated-bytes counter.
pub const ALLOC_BYTES_COUNTER_ID: Id = u64::MAX - 1003;

/// Identifier of the deallocation-count counter.
pub const DEALLOC_COUNTER_ID: Id = u64::MAX - 1002;

/// Identifier of the deallocated-bytes counter.
pub const DEALLOC_BYTES_COUNTER_ID: Id = u64::MAX - 1001;

/// A layout alignment: a power of two.
pub open spec fn is_alignment(align: usize) -> bool {
    align > 0 && (align & ((align - 1) as usize)) == 0
}

/// The size rounded up to the alignment.
pub open spec fn spec_aligned_size(size: usize, align: usize) -> usize {
    (size + align - 1) as usize & !((align - 1) as usize)
}

/// Rounds an allocation size up to its alignment: the smallest multiple
/// of `align` that is not below `size`.
pub fn get_aligned_size(size: usize, align: usize) -> (r: usize)
    requires
        is_alignment(align),
        size + align - 1 <= usize::MAX,
    ensures
        r == spec_aligned_size(size, align),
        r & ((align - 1) as usize) == 0,
        size <= r < size + align,
{
    let alignment_mask: usize = align - 1;
    let sum = size + alignment_mask;
    let r = sum & !alignment_mask;
    proof {
        let q = r;
        assert(size <= q < size + align && q & alignment_mask == 0) by (bit_vector)
            requires
                align > 0,
                alignment_mask == align - 1,
                (align & alignment_mask) == 0,
                sum == size + alignment_mask,
                q == sum & !alignment_mask,
        ;
    }
    r
}

/// The per-thread allocation instrumentation state: an opt-in flag,
/// disabled by default, and the four pre-allocated counters.  Only
/// explicitly opted-in threads contribute allocation samples.
pub struct AllocatorInstrumentation {
    pub enabled: bool,
    pub alloc_count: Counter,
    pub alloc_bytes: Counter,
    pub dealloc_count: Counter,
    pub dealloc_bytes: Counter,
}

impl AllocatorInstrumentation {
    /// Fresh state: instrumentation disabled, counters bound to the four
    /// reserved ids without registering them.
    pub fn new() -> (r: Self)
        ensures
            !r.enabled,
            r.alloc_count.id == ALLOC_COUNTER_ID,
            r.alloc_bytes.id == ALLOC_BYTES_COUNTER_ID,
            r.dealloc_count.id == DEALLOC_COUNTER_ID,
            r.dealloc_bytes.id == DEALLOC_BYTES_COUNTER_ID,
    {
        AllocatorInstrumentation {
            enabled: false,
            alloc_count: Counter::new_with_id(ALLOC_COUNTER_ID),
            alloc_bytes: Counter::new_with_id(ALLOC_BYTES_COUNTER_ID),
            dealloc_count: Counter::new_with_id(DEALLOC_COUNTER_ID),
            dealloc_bytes: Counter::new_with_id(DEALLOC_BYTES_COUNTER_ID),
        }
    }

    /// Accounts one allocation: if this thread opted in, the allocation
    /// count rises by one and the byte counter by the aligned size; an
    /// opted-out thread contributes nothing.
    pub fn record_alloc<M: Metrics>(&self, registry: &mut MetricsRegistry<M>, size: usize, align: usize)
        requires
            old(registry).wf(),
            is_alignment(align),
            size + align - 1 <= usize::MAX,
        ensures
            final(registry).wf(),
            !self.enabled ==> *final(registry) == *old(registry),
            self.enabled ==> exists|mid: MetricsRegistry<M>|
                old(registry).increment_counter_by_rel(self.alloc_count.id, 1, mid)
                    && #[trigger] mid.increment_counter_by_rel(
                    self.alloc_bytes.id,
                    spec_aligned_size(size, align) as u64,
                    *final(registry),
                ),
    {
        if self.enabled {
            registry.increment_counter_by(self.alloc_count.id, 1);
            let bytes = get_aligned_size(size, align);
            registry.increment_counter_by(self.alloc_bytes.id, bytes as u64);
        }
    }

    /// Accounts one deallocation, mirroring `record_alloc`.
    pub fn record_dealloc<M: Metrics>(&self, registry: &mut MetricsRegistry<M>, size: usize, align: usize)
        requires
            old(registry).wf(),
            is_alignment(align),
            size + align - 1 <= usize::MAX,
        ensures
            final(registry).wf(),
            !self.enabled ==> *final(registry) == *old(registry),
            self.enabled ==> exists|mid: MetricsRegistry<M>|
                old(registry).increment_counter_by_rel(self.dealloc_count.id, 1, mid)
                    && #[trigger] mid.increment_counter_by_rel(
                    self.dealloc_bytes.id,
                    spec_aligned_size(size, align) as u64,
                    *final(registry),
                ),
    {
        if self.enabled {
            registry.increment_counter_by(self.dealloc_count.id, 1);
            let bytes = get_aligned_size(size, align);
            registry.increment_counter_by(self.dealloc_bytes.id, bytes as u64);
        }
    }
}

/// Opts the given instrumentation state in to allocation accounting.
/// Called by a thread that wants to contribute allocation and
/// deallocation metrics; per-thread instrumentation is disabled by
/// default.
pub fn enable_allocator_instrumentation(instrumentation: &mut AllocatorInstrumentation)
    ensures
        final(instrumentation).enabled,
        final(instrumentation).alloc_count == old(instrumentation).alloc_count,
        final(instrumentation).alloc_bytes == old(instrumentation).alloc_bytes,
        final(instrumentation).dealloc_count == old(instrumentation).dealloc_count,
        final(instrumentation).dealloc_bytes == old(instrumentation).dealloc_bytes,
{
    instrumentation.enabled = true;
}

/// An allocator wrapper that counts allocations and deallocations through
/// the instrumentation above while delegating the actual memory calls to
/// a concrete allocator.
pub struct CountingAllocator;

impl CountingAllocator {
    /// Default counters to be used with the `CountingAllocator`: the four
    /// pre-allocated descriptions an aggregator is seeded with.
    pub fn metrics() -> (r: Vec<PreAllocatedMetric>)
        ensures
            r@.len() == 4,
            r@[0].is_counter() && r@[0].spec_id() == ALLOC_COUNTER_ID,
            r@[1].is_counter() && r@[1].spec_id() == ALLOC_BYTES_COUNTER_ID,
            r@[2].is_counter() && r@[2].spec_id() == DEALLOC_COUNTER_ID,
            r@[3].is_counter() && r@[3].spec_id() == DEALLOC_BYTES_COUNTER_ID,
            forall|t: int| 0 <= t < 4 ==> (#[trigger] r@[t]).spec_name() == "global_allocator"@,
            forall|t: int|
                0 <= t < 4 ==> (#[trigger] r@[t]).spec_tags().len() == 1 && r@[t].spec_tags()[0].0@
                    == "fn_name"@,
            r@[0].spec_tags()[0].1@ == "alloc"@,
            r@[1].spec_tags()[0].1@ == "alloc_bytes"@,
            r@[2].spec_tags()[0].1@ == "dealloc"@,
            r@[3].spec_tags()[0].1@ == "dealloc_bytes"@,
    {
        let mut r: Vec<PreAllocatedMetric> = Vec::new();
        r.push(PreAllocatedMetric::counter("global_allocator", ALLOC_COUNTER_ID, &fn_name_tags("alloc")));
        r.push(PreAllocatedMetric::counter("global_allocator", ALLOC_BYTES_COUNTER_ID, &fn_name_tags("alloc_bytes")));
        r.push(PreAllocatedMetric::counter("global_allocator", DEALLOC_COUNTER_ID, &fn_name_tags("dealloc")));
        r.push(
            PreAllocatedMetric::counter("global_allocator", DEALLOC_BYTES_COUNTER_ID, &fn_name_tags("dealloc_bytes")),
        );
        r
    }
}

/// One tag pair naming the allocator entry point a counter stands for.
fn fn_name_tags(fn_name: &str) -> (r: Tags)
    ensures
        r@.len() == 1,
        r@[0].0@ == "fn_name"@,
        r@[0].1@ == fn_name@,
{
    let mut r: Tags = Vec::new();
    r.push((String::from_str("fn_name"), String::from_str(fn_name)));
    r
}

} // verus!
