use metricus::aggregator::Aggregator;
use metricus::allocator::{
    enable_allocator_instrumentation, get_aligned_size, AllocatorInstrumentation, CountingAllocator,
    ALLOC_BYTES_COUNTER_ID, ALLOC_COUNTER_ID, DEALLOC_BYTES_COUNTER_ID, DEALLOC_COUNTER_ID,
};
use metricus::registry::{get_metrics, set_metrics, MetricsRegistry};
use metricus::PreAllocatedMetric;

fn active_aggregator(registry: &MetricsRegistry<Aggregator>) -> &Aggregator {
    get_metrics(registry).backend.as_ref().expect("a backend should be active")
}

fn seeded_registry() -> MetricsRegistry<Aggregator> {
    let mut registry = MetricsRegistry::new();
    let mut agg = Aggregator::new();
    for metric in CountingAllocator::metrics() {
        agg.register_pre_allocated(&metric);
    }
    set_metrics(&mut registry, agg);
    registry
}

#[test]
fn aligned_size_rounds_up_to_the_alignment() {
    assert_eq!(get_aligned_size(0, 8), 0);
    assert_eq!(get_aligned_size(1, 8), 8);
    assert_eq!(get_aligned_size(8, 8), 8);
    assert_eq!(get_aligned_size(9, 8), 16);
    assert_eq!(get_aligned_size(17, 1), 17);
    assert_eq!(get_aligned_size(100, 64), 128);
}

#[test]
fn default_metrics_describe_the_four_counters() {
    let metrics = CountingAllocator::metrics();
    assert_eq!(metrics.len(), 4);
    let expected = [
        (ALLOC_COUNTER_ID, "alloc"),
        (ALLOC_BYTES_COUNTER_ID, "alloc_bytes"),
        (DEALLOC_COUNTER_ID, "dealloc"),
        (DEALLOC_BYTES_COUNTER_ID, "dealloc_bytes"),
    ];
    for (metric, (id, fn_name)) in metrics.iter().zip(expected.iter()) {
        match metric {
            PreAllocatedMetric::Counter { name, id: mid, tags } => {
                assert_eq!(name, "global_allocator");
                assert_eq!(mid, id);
                assert_eq!(tags, &vec![("fn_name".to_string(), fn_name.to_string())]);
            }
            PreAllocatedMetric::Histogram { .. } => panic!("expected counters"),
        }
    }
}

#[test]
fn instrumentation_is_disabled_by_default() {
    let mut registry = seeded_registry();
    let instrumentation = AllocatorInstrumentation::new();
    assert!(!instrumentation.enabled);
    instrumentation.record_alloc(&mut registry, 100, 8);
    let agg = active_aggregator(&registry);
    assert_eq!(agg.counters().get(ALLOC_COUNTER_ID).unwrap().value, 0);
    assert_eq!(agg.counters().get(ALLOC_BYTES_COUNTER_ID).unwrap().value, 0);
}

#[test]
fn enabled_instrumentation_counts_allocations() {
    let mut registry = seeded_registry();
    let mut instrumentation = AllocatorInstrumentation::new();
    enable_allocator_instrumentation(&mut instrumentation);
    assert!(instrumentation.enabled);

    instrumentation.record_alloc(&mut registry, 100, 64);
    instrumentation.record_alloc(&mut registry, 3, 8);
    instrumentation.record_dealloc(&mut registry, 100, 64);

    let agg = active_aggregator(&registry);
    assert_eq!(agg.counters().get(ALLOC_COUNTER_ID).unwrap().value, 2);
    assert_eq!(agg.counters().get(ALLOC_BYTES_COUNTER_ID).unwrap().value, 128 + 8);
    assert_eq!(agg.counters().get(DEALLOC_COUNTER_ID).unwrap().value, 1);
    assert_eq!(agg.counters().get(DEALLOC_BYTES_COUNTER_ID).unwrap().value, 128);
}

#[test]
fn instrumentation_before_backend_selection_is_silent() {
    // Counters built from fixed ids before any backend is installed stay
    // valid proxies that no-op until a backend arrives.
    let mut registry: MetricsRegistry<Aggregator> = MetricsRegistry::new();
    let mut instrumentation = AllocatorInstrumentation::new();
    enable_allocator_instrumentation(&mut instrumentation);
    instrumentation.record_alloc(&mut registry, 64, 8);
    // Nothing was recorded anywhere, and nothing panicked.
    assert!(get_metrics(&registry).backend.is_none());
}
