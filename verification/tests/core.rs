use metricus::aggregator::Aggregator;
use metricus::counter::{Counter, CounterOps};
use metricus::registry::{
    get_metrics, get_metrics_backend_name, set_metrics, AtomicRef, Metrics, MetricsRegistry, NoOpMetrics,
};
use metricus::{empty_tags, PreAllocatedMetric, Tags};

fn tags(pairs: &[(&str, &str)]) -> Tags {
    pairs
        .iter()
        .map(|(k, v)| (k.to_string(), v.to_string()))
        .collect()
}

fn active_aggregator(registry: &MetricsRegistry<Aggregator>) -> &Aggregator {
    get_metrics(registry).backend.as_ref().expect("a backend should be active")
}

#[test]
fn registry_starts_with_noop_backend() {
    let registry: MetricsRegistry<Aggregator> = MetricsRegistry::new();
    assert_eq!(get_metrics_backend_name(&registry), "no-op");
    assert!(get_metrics(&registry).backend.is_none());
}

#[test]
fn set_metrics_switches_backend_name() {
    let mut registry: MetricsRegistry<Aggregator> = MetricsRegistry::new();
    set_metrics(&mut registry, Aggregator::new());
    assert_eq!(get_metrics_backend_name(&registry), "aggregator");
}

#[test]
fn noop_backend_hands_out_id_zero() {
    let mut registry: MetricsRegistry<NoOpMetrics> = MetricsRegistry::new();
    let counter = Counter::new("c", &empty_tags(), &mut registry);
    assert_eq!(counter.id, 0);
    counter.increment(&mut registry);
    counter.release(&mut registry);
}

#[test]
fn counter_increments_accumulate_in_aggregator() {
    let mut registry: MetricsRegistry<Aggregator> = MetricsRegistry::new();
    set_metrics(&mut registry, Aggregator::new());
    let counter = Counter::new("transaction_count", &tags(&[("service", "payment")]), &mut registry);
    let id = counter.id;

    counter.increment(&mut registry);
    counter.increment_by(&mut registry, 5);
    counter.increment_by(&mut registry, 2);
    counter.increment(&mut registry);

    let agg = active_aggregator(&registry);
    let entry = agg.counters().get(id).expect("counter state should exist");
    assert_eq!(entry.value, 9);
    assert_eq!(entry.name, "transaction_count");
    assert_eq!(entry.tags, tags(&[("service", "payment")]));
}

#[test]
fn counter_new_with_id_does_not_register() {
    let mut registry: MetricsRegistry<Aggregator> = MetricsRegistry::new();
    set_metrics(&mut registry, Aggregator::new());
    let counter = Counter::new_with_id(42);
    assert_eq!(counter.id, 42);
    let agg = active_aggregator(&registry);
    assert!(agg.counters().get(42).is_none());
}

#[test]
fn increment_after_switch_reaches_new_backend_only() {
    let mut registry: MetricsRegistry<Aggregator> = MetricsRegistry::new();
    set_metrics(&mut registry, Aggregator::new());
    let counter = Counter::new("c", &empty_tags(), &mut registry);
    let id = counter.id;
    counter.increment_by(&mut registry, 3);
    let old_index = registry.handle.current;

    // Seed the second backend with the same id so the increment is visible.
    let mut second = Aggregator::new();
    second.register_pre_allocated(&PreAllocatedMetric::counter("c", u64::MAX - 100, &empty_tags()));
    set_metrics(&mut registry, second);
    let pre_counter = Counter::new_with_id(u64::MAX - 100);
    pre_counter.increment_by(&mut registry, 7);
    counter.increment_by(&mut registry, 11);

    // The new backend observed both increments (the stale id silently
    // created no state, the seeded id accumulated).
    let new_backend = active_aggregator(&registry);
    assert_eq!(new_backend.counters().get(u64::MAX - 100).unwrap().value, 7);
    assert!(new_backend.counters().get(id).is_none());

    // The backend active before the switch observed nothing after it.
    let old_backend = registry.handle.values[old_index].backend.as_ref().unwrap();
    assert_eq!(old_backend.counters().get(id).unwrap().value, 3);
}

#[test]
fn release_targets_backend_active_at_release_time() {
    let mut registry: MetricsRegistry<Aggregator> = MetricsRegistry::new();
    set_metrics(&mut registry, Aggregator::new());
    let counter = Counter::new("c", &empty_tags(), &mut registry);
    let id = counter.id;
    let old_index = registry.handle.current;

    let mut second = Aggregator::new();
    // Give the new backend an entry under the same id: the delete lands here.
    second.register_pre_allocated(&PreAllocatedMetric::counter("c", u64::MAX - 50, &empty_tags()));
    set_metrics(&mut registry, second);
    let seeded = Counter::new_with_id(u64::MAX - 50);
    seeded.release(&mut registry);

    let new_backend = active_aggregator(&registry);
    assert!(new_backend.counters().get(u64::MAX - 50).is_none());

    // Releasing the counter created under the old backend is dispatched to
    // the new one, so the old backend keeps its (now orphaned) entry.
    counter.release(&mut registry);
    let old_backend = registry.handle.values[old_index].backend.as_ref().unwrap();
    assert!(old_backend.counters().get(id).is_some());
}

#[test]
fn atomic_ref_keeps_old_values_alive() {
    let mut slot = AtomicRef::new(10u64);
    assert_eq!(*slot.get(), 10);
    slot.set(20);
    assert_eq!(*slot.get(), 20);
    slot.set(30);
    assert_eq!(*slot.get(), 30);
    assert_eq!(slot.values, vec![10, 20, 30]);
    assert_eq!(slot.current, 2);
}

#[test]
fn pre_allocated_constructors_keep_fields() {
    let t = tags(&[("a", "1")]);
    match PreAllocatedMetric::counter("x", 42, &t) {
        PreAllocatedMetric::Counter { name, id, tags } => {
            assert_eq!(name, "x");
            assert_eq!(id, 42);
            assert_eq!(tags, t);
        }
        PreAllocatedMetric::Histogram { .. } => panic!("expected a counter"),
    }
    match PreAllocatedMetric::histogram("y", 7, &t) {
        PreAllocatedMetric::Histogram { name, id, tags } => {
            assert_eq!(name, "y");
            assert_eq!(id, 7);
            assert_eq!(tags, t);
        }
        PreAllocatedMetric::Counter { .. } => panic!("expected a histogram"),
    }
}

#[test]
fn aggregator_assigns_fresh_ids() {
    let mut agg = Aggregator::new();
    let a = agg.new_counter("a", &empty_tags());
    let b = agg.new_counter("b", &empty_tags());
    let h = agg.new_histogram("h", &empty_tags());
    assert_ne!(a, b);
    assert_ne!(b, h);
    assert_ne!(a, h);
    assert!(agg.counters().get(a).is_some());
    assert!(agg.counters().get(b).is_some());
    assert!(agg.histograms().get(h).is_some());
}

#[test]
fn aggregator_ignores_unknown_ids() {
    let mut agg = Aggregator::new();
    agg.increment_counter_by(99, 5);
    agg.record(99, 5);
    agg.delete_counter(99);
    agg.delete_histogram(99);
    assert_eq!(agg.counters().len(), 0);
    assert_eq!(agg.histograms().len(), 0);
}
