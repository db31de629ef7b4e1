//! A `Histogram` proxy struct for managing a metrics histogram, and the
//! `Span` scoped timer it hands out.
//!
//! A histogram has no inherent notion of measurement units; spans record
//! elapsed nanoseconds.  The start timestamp of a span comes from one of
//! two interchangeable time sources, chosen when the histogram is built:
//! a monotonic wall-clock instant, or a fast cycle counter converted to
//! nanoseconds through a calibrated clock.

use vstd::prelude::*;

verus! {

use vstd::wrapping::u64_specs;

use crate::registry::{get_metrics, Metrics, MetricsRegistry};
use crate::{Id, Tags};

#[verifier::external_type_specification]
#[verifier::external_body]
pub struct ExClock(quanta::Clock);

/// Relies on `quanta::Clock::new`: builds a calibrated clock; nothing is
/// assumed about its readings.
pub assume_specification[ quanta::Clock::new ]() -> (c: quanta::Clock);

/// Relies on `quanta::Clock::raw`: reads the raw cycle counter.  The
/// reading depends on the machine and the moment, so nothing is assumed
/// of it.
pub assume_specification[ quanta::Clock::raw ](clock: &quanta::Clock) -> (r: u64);

/// Relies on `quanta::Clock::delta_as_nanos`: scales a raw-counter delta
/// to nanoseconds.  Its source returns 0 whenever `end <= start`; the
/// scaled value otherwise depends on the machine's calibration, so no
/// more is assumed.
pub assume_specification[ quanta::Clock::delta_as_nanos ](
    clock: &quanta::Clock,
    start: u64,
    end: u64,
) -> (r: u64)
    ensures
        end <= start ==> r == 0,
;

#[verifier::external_type_specification]
#[verifier::external_body]
pub struct ExInstant(std::time::Instant);

/// Relies on `std::time::Instant::now`: captures a monotonic instant;
/// nothing is assumed about its value.
pub assume_specification[ std::time::Instant::now ]() -> (i: std::time::Instant);

/// Relies on `std::time::Instant::elapsed`: the time since the instant
/// was captured, as a `Duration`; nothing is assumed about its value.
pub assume_specification[ std::time::Instant::elapsed ](i: &std::time::Instant) -> (d: core::time::Duration);

/// Relies on `core::time::Duration::as_secs`: the whole-second part of
/// the duration.
pub assume_specification[ core::time::Duration::as_secs ](d: &core::time::Duration) -> (s: u64);

/// Relies on `core::time::Duration::subsec_nanos`: the fractional part of
/// the duration in nanoseconds, which its documentation bounds below one
/// billion.
pub assume_specification[ core::time::Duration::subsec_nanos ](d: &core::time::Duration) -> (n: u32)
    ensures
        n < 1_000_000_000u32,
;

/// The nanosecond value a span records for an elapsed duration split into
/// whole seconds and a sub-second nanosecond part: wraparound-safe, so a
/// clock anomaly can never make a span panic.
pub open spec fn spec_duration_nanos(secs: u64, subsec_nanos: u32) -> u64 {
    u64_specs::wrapping_add(u64_specs::wrapping_mul(secs, 1_000_000_000u64), subsec_nanos as u64)
}

/// Converts an elapsed duration to nanoseconds with wrapping arithmetic.
pub fn duration_nanos_wrapping(secs: u64, subsec_nanos: u32) -> (r: u64)
    ensures
        r == spec_duration_nanos(secs, subsec_nanos),
{
    secs.wrapping_mul(1_000_000_000).wrapping_add(subsec_nanos as u64)
}

/// One of the two interchangeable sources of span start timestamps,
/// selected when a histogram is built.
pub enum TimeSource {
    /// A monotonic wall-clock instant per span.
    Wall,
    /// A raw cycle counter read per span, scaled by a calibrated clock.
    Cycle(quanta::Clock),
}

impl TimeSource {
    /// A wall-clock time source.
    pub fn wall() -> (r: Self)
        ensures
            r is Wall,
    {
        TimeSource::Wall
    }

    /// A cycle-counter time source backed by a freshly calibrated clock.
    pub fn cycle() -> (r: Self)
        ensures
            r is Cycle,
    {
        TimeSource::Cycle(quanta::Clock::new())
    }
}

/// Facilitates the creation of a new histogram, recording of values, and
/// generation of spans for timing operations.  Like the counter proxy,
/// every operation dispatches to whichever backend is active at call
/// time, and a histogram must be released exactly once.
pub struct Histogram {
    pub id: Id,
    pub source: TimeSource,
}

impl Histogram {
    /// Creates a new histogram with the specified name and tags,
    /// registering it with the backend active at call time, and binds it
    /// to the given time source.
    pub fn new<M: Metrics>(name: &str, tags: &Tags, source: TimeSource, registry: &mut MetricsRegistry<M>) -> (r: Self)
        requires
            old(registry).wf(),
        ensures
            final(registry).wf(),
            old(registry).new_histogram_rel(name@, crate::tags_view(tags@), *final(registry), r.id),
    {
        let histogram_id = registry.new_histogram(name, tags);
        Histogram { id: histogram_id, source }
    }

    /// Deregisters the histogram against whichever backend is active at
    /// release time.  Taking the histogram by value makes the
    /// deregistration happen exactly once.
    pub fn release<M: Metrics>(self, registry: &mut MetricsRegistry<M>)
        requires
            old(registry).wf(),
        ensures
            final(registry).wf(),
            old(registry).delete_histogram_rel(self.id, *final(registry)),
    {
        registry.delete_histogram(self.id);
    }
}

/// A span's captured start timestamp.  A span begun while the no-op
/// backend was active skips the timer entirely, so releasing it costs
/// nothing.
pub enum SpanState<'a> {
    NoOp,
    Wall(std::time::Instant),
    Cycle(&'a quanta::Clock, u64),
}

/// Used for measuring how long a given operation takes; the duration is
/// recorded in nanoseconds into the histogram the span is bound to.  The
/// span never outlives its histogram.
pub struct Span<'a> {
    pub histogram: &'a Histogram,
    pub state: SpanState<'a>,
}

impl<'a> Span<'a> {
    /// Whether this span was begun under the no-op backend and will skip
    /// recording.
    pub open spec fn is_noop(&self) -> bool {
        self.state is NoOp
    }

    /// Ends the span: computes the elapsed nanoseconds with
    /// wraparound-safe arithmetic and records them into the bound
    /// histogram through the backend active now — unless the span was
    /// begun under the no-op backend, in which case nothing happens.
    pub fn release<M: Metrics>(self, registry: &mut MetricsRegistry<M>)
        requires
            old(registry).wf(),
        ensures
            final(registry).wf(),
            self.is_noop() ==> *final(registry) == *old(registry),
            !self.is_noop() ==> exists|elapsed: u64|
                old(registry).record_rel(self.histogram.id, elapsed, *final(registry)),
    {
        match self.state {
            SpanState::NoOp => {},
            SpanState::Wall(start) => {
                let d = start.elapsed();
                let nanos = duration_nanos_wrapping(d.as_secs(), d.subsec_nanos());
                registry.record(self.histogram.id, nanos);
            },
            SpanState::Cycle(clock, start_raw) => {
                let end_raw = clock.raw();
                let elapsed = clock.delta_as_nanos(start_raw, end_raw);
                registry.record(self.histogram.id, elapsed);
            },
        }
    }
}

/// Defines a series of operations that can be performed on a `Histogram`.
pub trait HistogramOps<M: Metrics> {
    /// The id the operations dispatch with.
    spec fn histogram_id(&self) -> Id;

    /// Records a value in the histogram.  The unit of the value is
    /// implied and should be consistent with the histogram's intended
    /// use.
    fn record(&self, registry: &mut MetricsRegistry<M>, value: u64)
        requires
            old(registry).wf(),
        ensures
            final(registry).wf(),
            old(registry).record_rel(self.histogram_id(), value, *final(registry)),
    ;

    /// Starts a span for timing an operation; releasing the span records
    /// the elapsed nanoseconds.  If the active backend is the no-op
    /// backend right now, the span skips the timer altogether.
    fn span<'b>(&'b self, registry: &MetricsRegistry<M>) -> (s: Span<'b>)
        requires
            registry.wf(),
        ensures
            s.is_noop() == registry.active().is_noop(),
            s.histogram.id == self.histogram_id(),
    ;

    /// Accepts a unit of work whose duration will be measured: times its
    /// execution by wrapping it in a span and returns its result.  Unlike
    /// a manually held span, the measurement cannot be discarded early by
    /// accident.
    fn with_span<R, F: FnOnce() -> R>(&self, registry: &mut MetricsRegistry<M>, f: F) -> (r: R)
        requires
            old(registry).wf(),
            f.requires(()),
        ensures
            final(registry).wf(),
            f.ensures((), r),
            old(registry).active().is_noop() ==> *final(registry) == *old(registry),
            !old(registry).active().is_noop() ==> exists|elapsed: u64|
                old(registry).record_rel(self.histogram_id(), elapsed, *final(registry)),
    ;
}

impl<M: Metrics> HistogramOps<M> for Histogram {
    open spec fn histogram_id(&self) -> Id {
        self.id
    }

    fn record(&self, registry: &mut MetricsRegistry<M>, value: u64) {
        registry.record(self.id, value);
    }

    fn span<'b>(&'b self, registry: &MetricsRegistry<M>) -> (s: Span<'b>) {
        let h = get_metrics(registry);
        match &h.backend {
            Option::None => Span { histogram: self, state: SpanState::NoOp },
            Option::Some(_) => match &self.source {
                TimeSource::Wall => Span { histogram: self, state: SpanState::Wall(std::time::Instant::now()) },
                TimeSource::Cycle(clock) => Span {
                    histogram: self,
                    state: SpanState::Cycle(clock, clock.raw()),
                },
            },
        }
    }

    fn with_span<R, F: FnOnce() -> R>(&self, registry: &mut MetricsRegistry<M>, f: F) -> (r: R) {
        let span = self.span(registry);
        let r = f();
        span.release(registry);
        r
    }
}

} // verus!
