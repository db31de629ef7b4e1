use metricus::aggregator::Aggregator;
use metricus::empty_tags;
use metricus::encoder::{u64_to_dec, Encoder};
use metricus::exporter::{
    BufferSink, MetricSink, NoOpExporter, SendOutcome, StreamExporter, TransportError, UdpExporter,
    UnixDatagramExporter,
};
use metricus::registry::Metrics;
use metricus::Tags;

fn tags(pairs: &[(&str, &str)]) -> Tags {
    pairs
        .iter()
        .map(|(k, v)| (k.to_string(), v.to_string()))
        .collect()
}

/// An aggregator holding one counter (value 5) and one histogram with two
/// recorded values, under known ids.
fn sample_aggregator() -> (Aggregator, u64, u64) {
    let mut agg = Aggregator::new();
    let c = agg.new_counter("reqs", &tags(&[("a", "b")]));
    let h = agg.new_histogram("lat", &empty_tags());
    agg.increment_counter_by(c, 5);
    agg.record(h, 10);
    agg.record(h, 4);
    (agg, c, h)
}

#[test]
fn decimal_formatting_is_canonical() {
    assert_eq!(u64_to_dec(0), b"0".to_vec());
    assert_eq!(u64_to_dec(7), b"7".to_vec());
    assert_eq!(u64_to_dec(90210), b"90210".to_vec());
    assert_eq!(u64_to_dec(u64::MAX), b"18446744073709551615".to_vec());
}

#[test]
fn encoder_produces_expected_counter_line() {
    let (agg, c, _) = sample_aggregator();
    let mut out = Vec::new();
    let entry = agg.counters().get(c).unwrap();
    Encoder::LineProtocol.encode_counter(c, entry, 99, &mut out);
    assert_eq!(out, format!("c {} reqs,a=b 5 99\n", c).into_bytes());
}

#[test]
fn encoder_produces_expected_histogram_line() {
    let (agg, _, h) = sample_aggregator();
    let mut out = Vec::new();
    let entry = agg.histograms().get(h).unwrap();
    Encoder::LineProtocol.encode_histogram(h, entry, 99, &mut out);
    assert_eq!(out, format!("h {} lat 2 14 4 10 99\n", h).into_bytes());
}

#[test]
fn stream_exporter_writes_every_entry_and_flushes() {
    let (agg, c, h) = sample_aggregator();
    let mut exporter = StreamExporter::new(BufferSink::new(), Encoder::LineProtocol);
    exporter.publish_counters(agg.counters(), 7).unwrap();
    exporter.publish_histograms(agg.histograms(), 7).unwrap();
    let expected = format!("c {} reqs,a=b 5 7\nh {} lat 2 14 4 10 7\n", c, h).into_bytes();
    assert_eq!(exporter.writer.data, expected);
}

#[test]
fn stream_exporter_with_no_entries_writes_nothing() {
    let agg = Aggregator::new();
    let mut exporter = StreamExporter::new(BufferSink::new(), Encoder::LineProtocol);
    exporter.publish_counters(agg.counters(), 7).unwrap();
    exporter.publish_histograms(agg.histograms(), 7).unwrap();
    assert!(exporter.writer.data.is_empty());
}

/// A sink that always reports a durable failure.
struct FailingSink;

impl MetricSink for FailingSink {
    // The sink's model; compiled code never evaluates it.
    fn received(&self) -> vstd::seq::Seq<u8> {
        panic!()
    }

    fn write_all(&mut self, _buf: &[u8]) -> Result<(), TransportError> {
        Err(TransportError::Other)
    }

    fn flush(&mut self) -> Result<(), TransportError> {
        Ok(())
    }
}

#[test]
fn noop_exporter_discards_everything_and_never_fails() {
    let (agg, _, _) = sample_aggregator();
    let mut exporter = NoOpExporter;
    assert_eq!(exporter.publish_counters(agg.counters(), 7), Ok(()));
    assert_eq!(exporter.publish_histograms(agg.histograms(), 7), Ok(()));
    let empty = Aggregator::new();
    assert_eq!(exporter.publish_counters(empty.counters(), 7), Ok(()));
}

#[test]
fn stream_exporter_propagates_sink_errors() {
    let (agg, _, _) = sample_aggregator();
    let mut exporter = StreamExporter::new(FailingSink, Encoder::LineProtocol);
    assert_eq!(exporter.publish_counters(agg.counters(), 7), Err(TransportError::Other));
}

#[test]
fn udp_publish_with_absent_peer_completes_without_error() {
    let (agg, _, _) = sample_aggregator();
    let mut exporter = UdpExporter::new(Encoder::LineProtocol);
    assert!(exporter.encode_counters(agg.counters(), 7));
    assert!(!exporter.buffer.is_empty());
    // The peer is absent: the send comes back connection-refused, the
    // cycle drops silently and the buffer is cleared for reuse.
    let outcome = exporter.finish_send(SendOutcome::Failed(TransportError::ConnectionRefused));
    assert_eq!(outcome, Ok(()));
    assert!(exporter.buffer.is_empty());
}

#[test]
fn udp_publish_propagates_durable_errors_and_keeps_buffer() {
    let (agg, _, _) = sample_aggregator();
    let mut exporter = UdpExporter::new(Encoder::LineProtocol);
    assert!(exporter.encode_counters(agg.counters(), 7));
    let before = exporter.buffer.clone();
    let outcome = exporter.finish_send(SendOutcome::Failed(TransportError::Other));
    assert_eq!(outcome, Err(TransportError::Other));
    assert_eq!(exporter.buffer, before);
}

#[test]
fn udp_publish_with_zero_entries_performs_no_transport_operation() {
    let agg = Aggregator::new();
    let mut exporter = UdpExporter::new(Encoder::LineProtocol);
    // Nothing to publish: the cycle ends before any send is attempted.
    assert!(!exporter.encode_counters(agg.counters(), 7));
    assert!(!exporter.encode_histograms(agg.histograms(), 7));
    assert!(exporter.buffer.is_empty());
}

#[test]
fn udp_successful_send_clears_buffer() {
    let (agg, _, _) = sample_aggregator();
    let mut exporter = UdpExporter::new(Encoder::LineProtocol);
    assert!(exporter.encode_histograms(agg.histograms(), 7));
    assert_eq!(exporter.finish_send(SendOutcome::Sent), Ok(()));
    assert!(exporter.buffer.is_empty());
}

#[test]
fn unix_datagram_publish_with_missing_path_completes_without_error() {
    let (agg, _, _) = sample_aggregator();
    let mut exporter = UnixDatagramExporter::new("/tmp/absent.sock".to_string(), Encoder::LineProtocol);
    assert!(exporter.encode_counters(agg.counters(), 7));
    // The destination socket does not exist: the cycle drops silently.
    let outcome = exporter.finish_send(SendOutcome::Failed(TransportError::NotFound));
    assert_eq!(outcome, Ok(()));
    assert!(exporter.buffer.is_empty());
}

#[test]
fn unix_datagram_propagates_other_errors() {
    let (agg, _, _) = sample_aggregator();
    let mut exporter = UnixDatagramExporter::new("/tmp/absent.sock".to_string(), Encoder::LineProtocol);
    assert!(exporter.encode_counters(agg.counters(), 7));
    let outcome = exporter.finish_send(SendOutcome::Failed(TransportError::ConnectionRefused));
    assert_eq!(outcome, Err(TransportError::ConnectionRefused));
    assert!(!exporter.buffer.is_empty());
}

#[test]
fn unix_datagram_with_zero_entries_performs_no_transport_operation() {
    let agg = Aggregator::new();
    let mut exporter = UnixDatagramExporter::new("/tmp/absent.sock".to_string(), Encoder::LineProtocol);
    assert!(!exporter.encode_counters(agg.counters(), 7));
    assert!(!exporter.encode_histograms(agg.histograms(), 7));
    assert!(exporter.buffer.is_empty());
}
