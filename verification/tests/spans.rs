use std::time::{Duration, Instant};

use metricus::aggregator::Aggregator;
use metricus::empty_tags;
use metricus::histogram::{Histogram, HistogramOps, TimeSource};
use metricus::registry::{get_metrics, set_metrics, MetricsRegistry};

fn active_aggregator(registry: &MetricsRegistry<Aggregator>) -> &Aggregator {
    get_metrics(registry).backend.as_ref().expect("a backend should be active")
}

fn busy_wait(duration: Duration) {
    let start = Instant::now();
    while start.elapsed() < duration {
        std::hint::black_box(0u64);
    }
}

#[test]
fn record_accumulates_summary() {
    let mut registry: MetricsRegistry<Aggregator> = MetricsRegistry::new();
    set_metrics(&mut registry, Aggregator::new());
    let histogram = Histogram::new("lat", &empty_tags(), TimeSource::wall(), &mut registry);
    let id = histogram.id;
    histogram.record(&mut registry, 10);
    histogram.record(&mut registry, 4);
    histogram.record(&mut registry, 7);
    let agg = active_aggregator(&registry);
    let entry = agg.histograms().get(id).unwrap();
    assert_eq!(entry.count, 3);
    assert_eq!(entry.sum, 21);
    assert_eq!(entry.min, 4);
    assert_eq!(entry.max, 10);
}

#[test]
fn fresh_histogram_has_zeroed_summary() {
    let mut registry: MetricsRegistry<Aggregator> = MetricsRegistry::new();
    set_metrics(&mut registry, Aggregator::new());
    let histogram = Histogram::new("lat", &empty_tags(), TimeSource::wall(), &mut registry);
    let agg = active_aggregator(&registry);
    let entry = agg.histograms().get(histogram.id).unwrap();
    assert_eq!(entry.count, 0);
    assert_eq!(entry.sum, 0);
    assert_eq!(entry.min, u64::MAX);
    assert_eq!(entry.max, 0);
}

#[test]
fn wall_span_records_elapsed_within_tolerance() {
    let mut registry: MetricsRegistry<Aggregator> = MetricsRegistry::new();
    set_metrics(&mut registry, Aggregator::new());
    let histogram = Histogram::new("timed", &empty_tags(), TimeSource::wall(), &mut registry);
    let id = histogram.id;
    {
        let span = histogram.span(&registry);
        busy_wait(Duration::from_millis(10));
        span.release(&mut registry);
    }
    let agg = active_aggregator(&registry);
    let entry = agg.histograms().get(id).unwrap();
    assert_eq!(entry.count, 1);
    assert!(entry.min >= 10_000_000, "recorded {} ns, expected at least 10 ms", entry.min);
    assert!(entry.max <= 200_000_000, "recorded {} ns, expected at most 200 ms", entry.max);
}

#[test]
fn cycle_span_records_elapsed_within_tolerance() {
    let mut registry: MetricsRegistry<Aggregator> = MetricsRegistry::new();
    set_metrics(&mut registry, Aggregator::new());
    let histogram = Histogram::new("timed", &empty_tags(), TimeSource::cycle(), &mut registry);
    let id = histogram.id;
    {
        let span = histogram.span(&registry);
        busy_wait(Duration::from_millis(10));
        span.release(&mut registry);
    }
    let agg = active_aggregator(&registry);
    let entry = agg.histograms().get(id).unwrap();
    assert_eq!(entry.count, 1);
    assert!(entry.min >= 10_000_000, "recorded {} ns, expected at least 10 ms", entry.min);
    assert!(entry.max <= 200_000_000, "recorded {} ns, expected at most 200 ms", entry.max);
}

#[test]
fn span_under_noop_backend_skips_recording() {
    let mut registry: MetricsRegistry<Aggregator> = MetricsRegistry::new();
    // No backend installed: spans are born inactive and record nothing.
    let histogram = Histogram::new("quiet", &empty_tags(), TimeSource::wall(), &mut registry);
    let span = histogram.span(&registry);
    span.release(&mut registry);
    set_metrics(&mut registry, Aggregator::new());
    let agg = active_aggregator(&registry);
    assert_eq!(agg.histograms().len(), 0);
}

#[test]
fn with_span_returns_the_result_and_records_once() {
    let mut registry: MetricsRegistry<Aggregator> = MetricsRegistry::new();
    set_metrics(&mut registry, Aggregator::new());
    let histogram = Histogram::new("work", &empty_tags(), TimeSource::wall(), &mut registry);
    let id = histogram.id;
    let result = histogram.with_span(&mut registry, || 21 * 2);
    assert_eq!(result, 42);
    let agg = active_aggregator(&registry);
    assert_eq!(agg.histograms().get(id).unwrap().count, 1);
}

#[test]
fn histogram_release_deletes_state() {
    let mut registry: MetricsRegistry<Aggregator> = MetricsRegistry::new();
    set_metrics(&mut registry, Aggregator::new());
    let histogram = Histogram::new("gone", &empty_tags(), TimeSource::wall(), &mut registry);
    let id = histogram.id;
    histogram.release(&mut registry);
    let agg = active_aggregator(&registry);
    assert!(agg.histograms().get(id).is_none());
}

#[test]
fn duration_nanos_wrapping_is_exact_and_wraps() {
    assert_eq!(metricus::histogram::duration_nanos_wrapping(0, 0), 0);
    assert_eq!(metricus::histogram::duration_nanos_wrapping(2, 5), 2_000_000_005);
    assert_eq!(
        metricus::histogram::duration_nanos_wrapping(1, 999_999_999),
        1_999_999_999
    );
    // Saturating nowhere: the arithmetic wraps instead of panicking.
    let huge = metricus::histogram::duration_nanos_wrapping(u64::MAX, 999_999_999);
    assert_eq!(
        huge,
        u64::MAX
            .wrapping_mul(1_000_000_000)
            .wrapping_add(999_999_999)
    );
}
