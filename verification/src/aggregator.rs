//! A backend that accumulates per-identifier counter and histogram state
//! in memory.
//!
//! The aggregator implements the backend capability interface: metric
//! creation inserts zeroed state under a freshly assigned id, increments
//! and records mutate the numeric state of existing entries (silently
//! ignoring unknown ids), and deletion removes the entry.  Its behaviour
//! is specified as deterministic transitions on [`AggregatorView`].

use vstd::prelude::*;

verus! {

use vstd::arithmetic::div_mod::{lemma_add_mod_noop, lemma_add_mod_noop_right, lemma_small_mod};
use vstd::wrapping::u64_specs;

use crate::idmap::IdMap;
use crate::registry::{Metrics, MetricsRegistry, set_metrics_post};
use crate::{clone_tags, tags_view, Id, TagView, Tags, RESERVED_ID_BASE};

/// One counter's aggregated state: current value, name and tags.
pub struct Counter {
    pub value: u64,
    pub name: String,
    pub tags: Tags,
}

/// The spec-level value of a counter entry.
pub struct CounterView {
    pub value: u64,
    pub name: Seq<char>,
    pub tags: Seq<TagView>,
}

impl View for Counter {
    type V = CounterView;

    open spec fn view(&self) -> CounterView {
        CounterView { value: self.value, name: self.name@, tags: tags_view(self.tags@) }
    }
}

/// One histogram's aggregated state: a summary of the recorded values,
/// plus name and tags.  Counts and sums wrap on overflow; the minimum of
/// an empty histogram is `u64::MAX` and its maximum is 0.
pub struct Histogram {
    pub count: u64,
    pub sum: u64,
    pub min: u64,
    pub max: u64,
    pub name: String,
    pub tags: Tags,
}

/// The spec-level value of a histogram entry.
pub struct HistogramView {
    pub count: u64,
    pub sum: u64,
    pub min: u64,
    pub max: u64,
    pub name: Seq<char>,
    pub tags: Seq<TagView>,
}

impl View for Histogram {
    type V = HistogramView;

    open spec fn view(&self) -> HistogramView {
        HistogramView {
            count: self.count,
            sum: self.sum,
            min: self.min,
            max: self.max,
            name: self.name@,
            tags: tags_view(self.tags@),
        }
    }
}

/// The aggregator's counter state mapping.
pub type Counters = IdMap<Counter>;

/// The aggregator's histogram state mapping.
pub type Histograms = IdMap<Histogram>;

/// The spec-level value of an aggregator: its two identifier-keyed state
/// mappings and the next id it will assign.
pub struct AggregatorView {
    pub counters: Map<Id, CounterView>,
    pub histograms: Map<Id, HistogramView>,
    pub next_id: Id,
}

impl AggregatorView {
    /// Backend-assigned ids stay below the reserved range and below the
    /// allocation cursor; entries in the reserved range were seeded from
    /// pre-allocated metrics.
    pub open spec fn wf(self) -> bool {
        &&& self.next_id <= RESERVED_ID_BASE
        &&& forall|k: Id| self.counters.contains_key(k) ==> k < self.next_id || k >= RESERVED_ID_BASE
        &&& forall|k: Id| self.histograms.contains_key(k) ==> k < self.next_id || k >= RESERVED_ID_BASE
    }

    /// Creating a counter inserts zeroed state under the next free id and
    /// advances the cursor.  Should the id space ever be exhausted, the
    /// call hands back the reserved base id without registering anything.
    pub open spec fn spec_new_counter(self, name: Seq<char>, tags: Seq<TagView>) -> (AggregatorView, Id) {
        if self.next_id < RESERVED_ID_BASE {
            (
                AggregatorView {
                    counters: self.counters.insert(self.next_id, CounterView { value: 0, name, tags }),
                    next_id: (self.next_id + 1) as u64,
                    ..self
                },
                self.next_id,
            )
        } else {
            (self, self.next_id)
        }
    }

    /// Deleting a counter removes its entry; an unknown id is ignored.
    pub open spec fn spec_delete_counter(self, id: Id) -> AggregatorView {
        AggregatorView { counters: self.counters.remove(id), ..self }
    }

    /// Incrementing adds the delta to the entry's value, wrapping on
    /// overflow; an unknown id is ignored.
    pub open spec fn spec_increment_counter_by(self, id: Id, delta: u64) -> AggregatorView {
        if self.counters.contains_key(id) {
            let c = self.counters[id];
            AggregatorView {
                counters: self.counters.insert(
                    id,
                    CounterView { value: u64_specs::wrapping_add(c.value, delta), ..c },
                ),
                ..self
            }
        } else {
            self
        }
    }

    /// Creating a histogram inserts zeroed state under the next free id.
    pub open spec fn spec_new_histogram(self, name: Seq<char>, tags: Seq<TagView>) -> (AggregatorView, Id) {
        if self.next_id < RESERVED_ID_BASE {
            (
                AggregatorView {
                    histograms: self.histograms.insert(
                        self.next_id,
                        HistogramView { count: 0, sum: 0, min: u64::MAX, max: 0, name, tags },
                    ),
                    next_id: (self.next_id + 1) as u64,
                    ..self
                },
                self.next_id,
            )
        } else {
            (self, self.next_id)
        }
    }

    /// Deleting a histogram removes its entry; an unknown id is ignored.
    pub open spec fn spec_delete_histogram(self, id: Id) -> AggregatorView {
        AggregatorView { histograms: self.histograms.remove(id), ..self }
    }

    /// Recording folds one value into the entry's summary; an unknown id
    /// is ignored.
    pub open spec fn spec_record(self, id: Id, value: u64) -> AggregatorView {
        if self.histograms.contains_key(id) {
            let h = self.histograms[id];
            AggregatorView {
                histograms: self.histograms.insert(
                    id,
                    HistogramView {
                        count: u64_specs::wrapping_add(h.count, 1),
                        sum: u64_specs::wrapping_add(h.sum, value),
                        min: if value < h.min { value } else { h.min },
                        max: if value > h.max { value } else { h.max },
                        ..h
                    },
                ),
                ..self
            }
        } else {
            self
        }
    }
}

/// The in-memory aggregation backend.
pub struct Aggregator {
    pub counters: Counters,
    pub histograms: Histograms,
    pub next_id: Id,
}

impl View for Aggregator {
    type V = AggregatorView;

    open spec fn view(&self) -> AggregatorView {
        AggregatorView {
            counters: self.counters.as_map().map_values(|c: Counter| c@),
            histograms: self.histograms.as_map().map_values(|h: Histogram| h@),
            next_id: self.next_id,
        }
    }
}

/// Mapping entry views commutes with inserting an entry.
proof fn lemma_view_insert_counter(m: Map<Id, Counter>, k: Id, v: Counter)
    ensures
        m.insert(k, v).map_values(|c: Counter| c@) =~= m.map_values(|c: Counter| c@).insert(k, v@),
{
}

/// Mapping entry views commutes with removing an entry.
proof fn lemma_view_remove_counter(m: Map<Id, Counter>, k: Id)
    ensures
        m.remove(k).map_values(|c: Counter| c@) =~= m.map_values(|c: Counter| c@).remove(k),
{
}

/// Mapping entry views commutes with inserting an entry.
proof fn lemma_view_insert_histogram(m: Map<Id, Histogram>, k: Id, v: Histogram)
    ensures
        m.insert(k, v).map_values(|h: Histogram| h@) =~= m.map_values(|h: Histogram| h@).insert(k, v@),
{
}

/// Mapping entry views commutes with removing an entry.
proof fn lemma_view_remove_histogram(m: Map<Id, Histogram>, k: Id)
    ensures
        m.remove(k).map_values(|h: Histogram| h@) =~= m.map_values(|h: Histogram| h@).remove(k),
{
}

impl Aggregator {
    /// A fresh aggregator with no state; backend-assigned ids start at 1,
    /// leaving 0 for the no-op backend's placeholder result.
    pub fn new() -> (r: Self)
        ensures
            r.inv(),
            r@.counters =~= Map::<Id, CounterView>::empty(),
            r@.histograms =~= Map::<Id, HistogramView>::empty(),
            r@.next_id == 1u64,
    {
        Aggregator { counters: IdMap::new(), histograms: IdMap::new(), next_id: 1 }
    }

    /// Seeds one pre-allocated metric, whose id the caller chose from the
    /// reserved range, with zeroed state.
    pub fn register_pre_allocated(&mut self, metric: &crate::PreAllocatedMetric)
        requires
            old(self).inv(),
            metric.spec_id() >= RESERVED_ID_BASE,
        ensures
            final(self).inv(),
            metric.is_counter() ==> final(self)@ == (AggregatorView {
                counters: old(self)@.counters.insert(
                    metric.spec_id(),
                    CounterView { value: 0, name: metric.spec_name(), tags: tags_view(metric.spec_tags()) },
                ),
                ..old(self)@
            }),
            !metric.is_counter() ==> final(self)@ == (AggregatorView {
                histograms: old(self)@.histograms.insert(
                    metric.spec_id(),
                    HistogramView {
                        count: 0,
                        sum: 0,
                        min: u64::MAX,
                        max: 0,
                        name: metric.spec_name(),
                        tags: tags_view(metric.spec_tags()),
                    },
                ),
                ..old(self)@
            }),
    {
        match metric {
            crate::PreAllocatedMetric::Counter { name, id, tags } => {
                let entry = Counter { value: 0, name: name.clone(), tags: clone_tags(tags) };
                self.counters.insert(*id, entry);
                proof {
                    lemma_view_insert_counter(old(self).counters.as_map(), *id, entry);
                    assert(final(self)@.counters =~= old(self)@.counters.insert(*id, entry@));
                }
            },
            crate::PreAllocatedMetric::Histogram { name, id, tags } => {
                let entry = Histogram {
                    count: 0,
                    sum: 0,
                    min: u64::MAX,
                    max: 0,
                    name: name.clone(),
                    tags: clone_tags(tags),
                };
                self.histograms.insert(*id, entry);
                proof {
                    lemma_view_insert_histogram(old(self).histograms.as_map(), *id, entry);
                    assert(final(self)@.histograms =~= old(self)@.histograms.insert(*id, entry@));
                }
            },
        }
    }

    /// Read-only snapshot access to the counter state, for an exporter's
    /// publish cycle.
    pub fn counters(&self) -> (r: &Counters)
        ensures
            *r == self.counters,
    {
        &self.counters
    }

    /// Read-only snapshot access to the histogram state.
    pub fn histograms(&self) -> (r: &Histograms)
        ensures
            *r == self.histograms,
    {
        &self.histograms
    }
}

impl Metrics for Aggregator {
    open spec fn inv(&self) -> bool {
        &&& self.counters.wf()
        &&& self.histograms.wf()
        &&& self@.wf()
    }

    open spec fn name_spec(&self) -> Seq<char> {
        "aggregator"@
    }

    open spec fn new_counter_rel(&self, name: Seq<char>, tags: Seq<TagView>, post: Self, id: Id) -> bool {
        post@ == self@.spec_new_counter(name, tags).0 && id == self@.spec_new_counter(name, tags).1
    }

    open spec fn delete_counter_rel(&self, id: Id, post: Self) -> bool {
        post@ == self@.spec_delete_counter(id)
    }

    open spec fn increment_counter_by_rel(&self, id: Id, delta: u64, post: Self) -> bool {
        post@ == self@.spec_increment_counter_by(id, delta)
    }

    open spec fn new_histogram_rel(&self, name: Seq<char>, tags: Seq<TagView>, post: Self, id: Id) -> bool {
        post@ == self@.spec_new_histogram(name, tags).0 && id == self@.spec_new_histogram(name, tags).1
    }

    open spec fn delete_histogram_rel(&self, id: Id, post: Self) -> bool {
        post@ == self@.spec_delete_histogram(id)
    }

    open spec fn record_rel(&self, id: Id, value: u64, post: Self) -> bool {
        post@ == self@.spec_record(id, value)
    }

    fn name(&self) -> (r: String) {
        String::from_str("aggregator")
    }

    fn new_counter(&mut self, name: &str, tags: &Tags) -> (id: Id) {
        if self.next_id < RESERVED_ID_BASE {
            let id = self.next_id;
            let entry = Counter { value: 0, name: String::from_str(name), tags: clone_tags(tags) };
            self.counters.insert(id, entry);
            self.next_id = id + 1;
            proof {
                lemma_view_insert_counter(old(self).counters.as_map(), id, entry);
                assert(final(self)@.counters =~= old(self)@.spec_new_counter(name@, tags_view(tags@)).0.counters);
            }
            id
        } else {
            self.next_id
        }
    }

    fn delete_counter(&mut self, id: Id) {
        self.counters.remove(id);
        proof {
            lemma_view_remove_counter(old(self).counters.as_map(), id);
            assert(self@.counters =~= old(self)@.counters.remove(id));
            assert(self.counters.wf());
            assert(self.histograms.wf());
            assert(self@.next_id <= RESERVED_ID_BASE);
            assert forall|k: Id| self@.counters.contains_key(k) implies k < self@.next_id
                || k >= RESERVED_ID_BASE by {
                assert(old(self)@.counters.contains_key(k));
            }
            assert forall|k: Id| self@.histograms.contains_key(k) implies k < self@.next_id
                || k >= RESERVED_ID_BASE by {
                assert(old(self)@.histograms.contains_key(k));
            }
            assert(self@.wf());
            assert(self.inv());
        }
    }

    fn increment_counter_by(&mut self, id: Id, delta: u64) {
        let taken = self.counters.remove(id);
        match taken {
            Option::Some(entry) => {
                let updated = Counter { value: entry.value.wrapping_add(delta), name: entry.name, tags: entry.tags };
                self.counters.insert(id, updated);
                proof {
                    lemma_view_remove_counter(old(self).counters.as_map(), id);
                    lemma_view_insert_counter(old(self).counters.as_map().remove(id), id, updated);
                    assert(old(self).counters.as_map().remove(id).insert(id, updated)
                        =~= old(self).counters.as_map().insert(id, updated));
                    assert(self@.counters =~= old(self)@.counters.insert(id, updated@));
                    assert(updated@ == (CounterView {
                        value: u64_specs::wrapping_add(old(self)@.counters[id].value, delta),
                        ..old(self)@.counters[id]
                    }));
                    assert forall|k: Id| self@.counters.contains_key(k) implies k < self@.next_id
                        || k >= RESERVED_ID_BASE by {
                        assert(old(self)@.counters.contains_key(k));
                    }
                    assert forall|k: Id| self@.histograms.contains_key(k) implies k < self@.next_id
                        || k >= RESERVED_ID_BASE by {
                        assert(old(self)@.histograms.contains_key(k));
                    }
                    assert(self.inv());
                }
            },
            Option::None => {
                proof {
                    assert(final(self)@.counters =~= old(self)@.counters);
                }
            },
        }
    }

    fn new_histogram(&mut self, name: &str, tags: &Tags) -> (id: Id) {
        if self.next_id < RESERVED_ID_BASE {
            let id = self.next_id;
            let entry = Histogram {
                count: 0,
                sum: 0,
                min: u64::MAX,
                max: 0,
                name: String::from_str(name),
                tags: clone_tags(tags),
            };
            self.histograms.insert(id, entry);
            self.next_id = id + 1;
            proof {
                lemma_view_insert_histogram(old(self).histograms.as_map(), id, entry);
                assert(final(self)@.histograms =~= old(self)@.spec_new_histogram(name@, tags_view(tags@)).0.histograms);
            }
            id
        } else {
            self.next_id
        }
    }

    fn delete_histogram(&mut self, id: Id) {
        self.histograms.remove(id);
        proof {
            lemma_view_remove_histogram(old(self).histograms.as_map(), id);
            assert(self@.histograms =~= old(self)@.histograms.remove(id));
            assert forall|k: Id| self@.histograms.contains_key(k) implies k < self@.next_id
                || k >= RESERVED_ID_BASE by {
                assert(old(self)@.histograms.contains_key(k));
            }
            assert forall|k: Id| self@.counters.contains_key(k) implies k < self@.next_id
                || k >= RESERVED_ID_BASE by {
                assert(old(self)@.counters.contains_key(k));
            }
            assert(self.inv());
        }
    }

    fn record(&mut self, id: Id, value: u64) {
        let taken = self.histograms.remove(id);
        match taken {
            Option::Some(entry) => {
                let updated = Histogram {
                    count: entry.count.wrapping_add(1),
                    sum: entry.sum.wrapping_add(value),
                    min: if value < entry.min { value } else { entry.min },
                    max: if value > entry.max { value } else { entry.max },
                    name: entry.name,
                    tags: entry.tags,
                };
                self.histograms.insert(id, updated);
                proof {
                    lemma_view_remove_histogram(old(self).histograms.as_map(), id);
                    lemma_view_insert_histogram(old(self).histograms.as_map().remove(id), id, updated);
                    assert(old(self).histograms.as_map().remove(id).insert(id, updated)
                        =~= old(self).histograms.as_map().insert(id, updated));
                    assert(self@.histograms =~= old(self)@.histograms.insert(id, updated@));
                    assert forall|k: Id| self@.histograms.contains_key(k) implies k < self@.next_id
                        || k >= RESERVED_ID_BASE by {
                        assert(old(self)@.histograms.contains_key(k));
                    }
                    assert forall|k: Id| self@.counters.contains_key(k) implies k < self@.next_id
                        || k >= RESERVED_ID_BASE by {
                        assert(old(self)@.counters.contains_key(k));
                    }
                    assert(self.inv());
                }
            },
            Option::None => {
                proof {
                    assert(final(self)@.histograms =~= old(self)@.histograms);
                }
            },
        }
    }
}

/// A well-formed aggregator that has not exhausted its id space hands
/// out a fresh id on every creation: the new id was in use by neither
/// mapping before the call.
pub proof fn lemma_assigned_ids_fresh(a: AggregatorView, name: Seq<char>, tags: Seq<TagView>)
    requires
        a.wf(),
        a.next_id < RESERVED_ID_BASE,
    ensures
        !a.counters.contains_key(a.spec_new_counter(name, tags).1),
        !a.histograms.contains_key(a.spec_new_counter(name, tags).1),
        !a.counters.contains_key(a.spec_new_histogram(name, tags).1),
        !a.histograms.contains_key(a.spec_new_histogram(name, tags).1),
{
}

/// The aggregator state after a whole sequence of increments of one
/// counter.
pub open spec fn spec_apply_increments(a: AggregatorView, id: Id, deltas: Seq<u64>) -> AggregatorView
    decreases deltas.len(),
{
    if deltas.len() == 0 {
        a
    } else {
        spec_apply_increments(a.spec_increment_counter_by(id, deltas[0]), id, deltas.drop_first())
    }
}

/// The mathematical sum of a sequence of deltas.
pub open spec fn spec_sum(deltas: Seq<u64>) -> int
    decreases deltas.len(),
{
    if deltas.len() == 0 {
        0
    } else {
        deltas[0] + spec_sum(deltas.drop_first())
    }
}

/// A sum of deltas is never negative.
pub proof fn lemma_sum_nonneg(deltas: Seq<u64>)
    ensures
        spec_sum(deltas) >= 0,
    decreases deltas.len(),
{
    if deltas.len() > 0 {
        lemma_sum_nonneg(deltas.drop_first());
    }
}

/// For every sequence of increments applied to one counter of a recording
/// aggregator, the counter's final value is the sum of all the deltas
/// (taken modulo the counter width, since increments wrap; exactly the
/// sum whenever it fits the counter), and nothing else in the aggregator
/// changes.
pub proof fn lemma_increments_accumulate(a: AggregatorView, id: Id, deltas: Seq<u64>)
    requires
        a.counters.contains_key(id),
    ensures
        ({
            let b = spec_apply_increments(a, id, deltas);
            &&& b.counters.contains_key(id)
            &&& b.counters[id].value == (a.counters[id].value + spec_sum(deltas)) % 0x1_0000_0000_0000_0000
            &&& a.counters[id].value + spec_sum(deltas) <= u64::MAX ==> b.counters[id].value == a.counters[id].value
                + spec_sum(deltas)
            &&& b.counters[id].name == a.counters[id].name
            &&& b.counters[id].tags == a.counters[id].tags
            &&& b.counters.dom() == a.counters.dom()
            &&& forall|k: Id| k != id && a.counters.contains_key(k) ==> #[trigger] b.counters[k] == a.counters[k]
            &&& b.histograms == a.histograms
            &&& b.next_id == a.next_id
        }),
    decreases deltas.len(),
{
    lemma_sum_nonneg(deltas);
    if a.counters[id].value + spec_sum(deltas) <= u64::MAX {
        lemma_small_mod((a.counters[id].value + spec_sum(deltas)) as nat, 0x1_0000_0000_0000_0000nat);
    }
    let range = 0x1_0000_0000_0000_0000int;
    if deltas.len() == 0 {
        lemma_small_mod(a.counters[id].value as nat, range as nat);
    } else {
        let d0 = deltas[0];
        let a1 = a.spec_increment_counter_by(id, d0);
        let v0 = a.counters[id].value as int;
        assert(a1.counters[id].value == (v0 + d0) % range) by {
            if v0 + d0 > u64::MAX {
                lemma_add_mod_noop(v0 + d0 - range, range, range);
                lemma_small_mod((v0 + d0 - range) as nat, range as nat);
            } else {
                lemma_small_mod((v0 + d0) as nat, range as nat);
            }
        }
        lemma_increments_accumulate(a1, id, deltas.drop_first());
        let b = spec_apply_increments(a, id, deltas);
        assert(b == spec_apply_increments(a1, id, deltas.drop_first()));
        let rest = spec_sum(deltas.drop_first());
        assert(b.counters[id].value == (((v0 + d0) % range) + rest) % range);
        assert((((v0 + d0) % range) + rest) % range == (v0 + d0 + rest) % range) by {
            lemma_add_mod_noop(v0 + d0, rest, range);
            lemma_add_mod_noop_right((v0 + d0) % range, rest, range);
        }
        assert(a1.counters.dom() == a.counters.dom());
    }
}

/// Proxy operations dispatch to the backend active at call time, not at
/// proxy-creation time: after a backend switch, an increment reaches the
/// newly installed aggregator, and the previously active backend observes
/// no further mutation.
pub proof fn lemma_increment_after_switch(
    r0: MetricsRegistry<Aggregator>,
    r1: MetricsRegistry<Aggregator>,
    r2: MetricsRegistry<Aggregator>,
    m: Aggregator,
    id: Id,
    delta: u64,
)
    requires
        r0.wf(),
        r1.wf(),
        set_metrics_post(r0, m, r1),
        r1.increment_counter_by_rel(id, delta, r2),
    ensures
        r2.handles()[r0.active_index()] == r0.handles()[r0.active_index()],
        r2.active().backend matches Some(b) && b@ == m@.spec_increment_counter_by(id, delta),
{
    assert(r1.handles()[r0.active_index()] == r0.handles()[r0.active_index()]);
    assert(r1.active_index() != r0.active_index());
    assert(r2.handles()[r0.active_index()] == r1.handles()[r0.active_index()]);
}

/// Releasing a counter proxy performs exactly one delete transition,
/// targeted at whichever backend is active at release time, even when
/// that backend differs from the one active at creation time: the
/// newly active aggregator loses the entry, and the backend that issued
/// the id is left untouched.
pub proof fn lemma_release_counter_after_switch(
    r0: MetricsRegistry<Aggregator>,
    r1: MetricsRegistry<Aggregator>,
    r2: MetricsRegistry<Aggregator>,
    m: Aggregator,
    id: Id,
)
    requires
        r0.wf(),
        r1.wf(),
        set_metrics_post(r0, m, r1),
        r1.delete_counter_rel(id, r2),
    ensures
        r2.handles()[r0.active_index()] == r0.handles()[r0.active_index()],
        r2.active().backend matches Some(b) && b@ == m@.spec_delete_counter(id),
        r2.active().backend matches Some(b) && !b@.counters.contains_key(id),
{
    assert(r1.active_index() != r0.active_index());
    assert(r2.handles()[r0.active_index()] == r1.handles()[r0.active_index()]);
}

/// The histogram analogue of releasing after a switch: exactly one
/// delete transition, aimed at the backend active at release time.
pub proof fn lemma_release_histogram_after_switch(
    r0: MetricsRegistry<Aggregator>,
    r1: MetricsRegistry<Aggregator>,
    r2: MetricsRegistry<Aggregator>,
    m: Aggregator,
    id: Id,
)
    requires
        r0.wf(),
        r1.wf(),
        set_metrics_post(r0, m, r1),
        r1.delete_histogram_rel(id, r2),
    ensures
        r2.handles()[r0.active_index()] == r0.handles()[r0.active_index()],
        r2.active().backend matches Some(b) && b@ == m@.spec_delete_histogram(id),
        r2.active().backend matches Some(b) && !b@.histograms.contains_key(id),
{
    assert(r1.active_index() != r0.active_index());
    assert(r2.handles()[r0.active_index()] == r1.handles()[r0.active_index()]);
}

} // verus!
