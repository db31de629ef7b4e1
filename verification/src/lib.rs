//! A pluggable metrics facade with a swappable active backend.
//!
//! Application code creates [`Counter`] and [`Histogram`] proxies that
//! dispatch every operation through a [`MetricsRegistry`] to whichever
//! backend is active at call time.  The built-in [`Aggregator`] backend
//! accumulates per-identifier state in memory, which exporters drain
//! through an [`Encoder`] onto a transport.
//!
//! [`Counter`]: counter::Counter
//! [`Histogram`]: histogram::Histogram
//! [`MetricsRegistry`]: registry::MetricsRegistry
//! [`Aggregator`]: aggregator::Aggregator
//! [`Encoder`]: encoder::Encoder

use vstd::prelude::*;

pub mod aggregator;
pub mod allocator;
pub mod codec;
pub mod counter;
pub mod encoder;
pub mod exporter;
pub mod histogram;
pub mod idmap;
pub mod registry;

verus! {

/// Metric id.
pub type Id = u64;

/// Metric tag expressed as a key-value pair of owned strings.
pub type Tag = (String, String);

/// Metric tags expressed as an ordered list of key-value pairs.
/// The core does not enforce key uniqueness; any such enforcement is the
/// caller's responsibility.
pub type Tags = Vec<Tag>;

/// The spec-level value of one tag: the views of its key and value.
pub type TagView = (Seq<char>, Seq<char>);

/// The spec-level value of a tag list.
pub open spec fn tags_view(s: Seq<Tag>) -> Seq<TagView> {
    s.map_values(|t: Tag| (t.0@, t.1@))
}

/// Identifiers at or above this value form the reserved high range for
/// pre-allocated metrics, whose ids are chosen by the caller rather than
/// assigned by a backend.  Backend-assigned ids stay below it.
pub const RESERVED_ID_BASE: Id = u64::MAX - 65535;

/// Returns empty tags.
pub fn empty_tags() -> (r: Tags)
    ensures
        r@ =~= Seq::<Tag>::empty(),
{
    Vec::new()
}

/// Clones a tag list; the copy holds exactly the same pairs.
pub fn clone_tags(tags: &Tags) -> (r: Tags)
    ensures
        r@ =~= tags@,
{
    let mut r: Tags = Vec::new();
    let n = tags.len();
    for i in 0..n
        invariant
            n == tags@.len(),
            r@ =~= tags@.subrange(0, i as int),
    {
        let pair = &tags[i];
        r.push((pair.0.clone(), pair.1.clone()));
    }
    r
}

/// Pre-allocated metric: a metric registered by convention rather than by
/// a backend-assigned identifier, consisting of name, caller-chosen id and
/// tags.  Used to seed an aggregator with well-known entries before normal
/// instrumentation exists.
#[derive(Debug)]
pub enum PreAllocatedMetric {
    Counter { name: String, id: Id, tags: Tags },
    Histogram { name: String, id: Id, tags: Tags },
}

impl PreAllocatedMetric {
    pub open spec fn is_counter(&self) -> bool {
        self is Counter
    }

    pub open spec fn spec_name(&self) -> Seq<char> {
        match self {
            PreAllocatedMetric::Counter { name, .. } => name@,
            PreAllocatedMetric::Histogram { name, .. } => name@,
        }
    }

    pub open spec fn spec_id(&self) -> Id {
        match self {
            PreAllocatedMetric::Counter { id, .. } => *id,
            PreAllocatedMetric::Histogram { id, .. } => *id,
        }
    }

    pub open spec fn spec_tags(&self) -> Seq<Tag> {
        match self {
            PreAllocatedMetric::Counter { tags, .. } => tags@,
            PreAllocatedMetric::Histogram { tags, .. } => tags@,
        }
    }

    /// A pre-allocated counter description.
    pub fn counter(name: &str, id: Id, tags: &Tags) -> (r: Self)
        ensures
            r.is_counter(),
            r.spec_name() == name@,
            r.spec_id() == id,
            r.spec_tags() == tags@,
    {
        PreAllocatedMetric::Counter { name: String::from_str(name), id, tags: clone_tags(tags) }
    }

    /// A pre-allocated histogram description.
    pub fn histogram(name: &str, id: Id, tags: &Tags) -> (r: Self)
        ensures
            !r.is_counter(),
            r.spec_name() == name@,
            r.spec_id() == id,
            r.spec_tags() == tags@,
    {
        PreAllocatedMetric::Histogram { name: String::from_str(name), id, tags: clone_tags(tags) }
    }
}

} // verus!
