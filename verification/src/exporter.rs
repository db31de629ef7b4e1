//! Exporters drain aggregated state through the encoder onto a transport,
//! applying transport-specific failure tolerance.
//!
//! The datagram-oriented exporters batch every entry of a publish cycle
//! into one buffer and hand it to the transport as a single message; the
//! stream-oriented exporter writes entries one at a time through a
//! [`MetricSink`] and flushes at the end of the cycle.  Datagram peers
//! are volatile, so a known transient delivery failure drops the cycle
//! silently; on a stream any error is presumed durable and propagates.

use vstd::prelude::*;

verus! {

use crate::aggregator::{CounterView, Counters, HistogramView, Histograms};
use crate::encoder::{
    counter_entries, encode_all_counters, encode_all_histograms, histogram_entries, spec_encode_counter_entries,
    spec_encode_histogram_entries, Encoder,
};

/// The error classes a transport can report.  `ConnectionRefused` and
/// `NotFound` are the transient conditions the datagram exporters
/// tolerate; everything else is carried as `Other`.
#[derive(Clone, Copy, Debug, PartialEq, Eq, Structural)]
pub enum TransportError {
    ConnectionRefused,
    NotFound,
    Other,
}

/// What happened to one attempted datagram send.
#[derive(Clone, Copy, Debug, PartialEq, Eq, Structural)]
pub enum SendOutcome {
    Sent,
    Failed(TransportError),
}

/// A byte sink a stream exporter writes through: the extension point for
/// stream and file transports.  `received` is the sink's model — the
/// bytes it has accepted so far.
pub trait MetricSink {
    spec fn received(&self) -> Seq<u8>;

    /// Accepts a block of bytes; on success the sink has received exactly
    /// those bytes after what it had before, and a failed write leaves the
    /// sink's accepted bytes as they were.
    fn write_all(&mut self, buf: &[u8]) -> (r: Result<(), TransportError>)
        ensures
            r is Ok ==> final(self).received() == old(self).received() + buf@,
            r is Err ==> final(self).received() == old(self).received(),
    ;

    /// Pushes buffered bytes towards their destination; never changes
    /// what the sink has accepted.
    fn flush(&mut self) -> (r: Result<(), TransportError>)
        ensures
            final(self).received() == old(self).received(),
    ;
}

/// An in-memory sink: every write lands in a growable buffer and flushing
/// is a no-op.
pub struct BufferSink {
    pub data: Vec<u8>,
}

impl BufferSink {
    pub fn new() -> (r: Self)
        ensures
            r.data@ =~= Seq::<u8>::empty(),
    {
        BufferSink { data: Vec::new() }
    }
}

impl MetricSink for BufferSink {
    open spec fn received(&self) -> Seq<u8> {
        self.data@
    }

    fn write_all(&mut self, buf: &[u8]) -> (r: Result<(), TransportError>) {
        crate::encoder::push_bytes(&mut self.data, buf);
        Ok(())
    }

    fn flush(&mut self) -> (r: Result<(), TransportError>) {
        Ok(())
    }
}

/// A buffered, flushed exporter over a stream-like transport (a file or
/// a connected stream socket).  Any write error propagates immediately;
/// there is no special-cased tolerance.
pub struct StreamExporter<S: MetricSink> {
    pub writer: S,
    pub encoder: Encoder,
    pub scratch: Vec<u8>,
}

impl<S: MetricSink> StreamExporter<S> {
    /// Wraps a sink with an encoder configuration.
    pub fn new(writer: S, encoder: Encoder) -> (r: Self)
        ensures
            r.writer == writer,
            r.encoder == encoder,
    {
        StreamExporter { writer, encoder, scratch: Vec::new() }
    }

    /// Writes every counter entry through the sink, one at a time, then
    /// flushes.  On success the sink has received exactly the encoded
    /// entries in storage order.  A cycle with zero entries returns
    /// immediately without touching the sink at all.  The first sink
    /// error ends the cycle and is returned; whatever the outcome, the
    /// sink has received exactly the encodings of the first `k` entries,
    /// for some `k`.
    pub fn publish_counters(&mut self, counters: &Counters, timestamp: u64) -> (r: Result<(), TransportError>)
        ensures
            r is Ok ==> final(self).writer.received() == old(self).writer.received() + spec_encode_counter_entries(
                counter_entries(*counters),
                timestamp,
            ),
            counters.entries@.len() == 0 ==> r is Ok && final(self).writer.received() == old(self).writer.received(),
            exists|k: int|
                0 <= k <= counter_entries(*counters).len() && final(self).writer.received() == old(
                    self,
                ).writer.received() + spec_encode_counter_entries(
                    #[trigger] counter_entries(*counters).subrange(0, k),
                    timestamp,
                ),
    {
        let n = counters.entries.len();
        if n == 0 {
            proof {
                assert(counter_entries(*counters).subrange(0, 0) =~= Seq::<(u64, CounterView)>::empty());
                assert(self.writer.received() =~= self.writer.received() + spec_encode_counter_entries(
                    counter_entries(*counters).subrange(0, 0),
                    timestamp,
                ));
            }
            return Ok(());
        }
        let mut i: usize = 0;
        while i < n
            invariant
                i <= n,
                n == counters.entries@.len(),
                self.encoder == old(self).encoder,
                self.writer.received() =~= old(self).writer.received() + spec_encode_counter_entries(
                    counter_entries(*counters).subrange(0, i as int),
                    timestamp,
                ),
            decreases n - i,
        {
            let ghost entries = counter_entries(*counters);
            self.scratch.clear();
            let pair = &counters.entries[i];
            self.encoder.encode_counter(pair.0, &pair.1, timestamp, &mut self.scratch);
            let outcome = self.writer.write_all(self.scratch.as_slice());
            if let Err(e) = outcome {
                proof {
                    assert(self.writer.received() =~= old(self).writer.received()
                        + spec_encode_counter_entries(entries.subrange(0, i as int), timestamp));
                }
                return Err(e);
            }
            proof {
                assert(entries.subrange(0, i + 1 as int).drop_last() =~= entries.subrange(0, i as int));
                assert(entries.subrange(0, i + 1 as int).last() == entries[i as int]);
            }
            i += 1;
        }
        assert(counter_entries(*counters).subrange(0, n as int) =~= counter_entries(*counters));
        self.writer.flush()
    }

    /// Writes every histogram entry through the sink, then flushes; the
    /// same contract as for counters.
    pub fn publish_histograms(&mut self, histograms: &Histograms, timestamp: u64) -> (r: Result<(), TransportError>)
        ensures
            r is Ok ==> final(self).writer.received() == old(self).writer.received()
                + spec_encode_histogram_entries(histogram_entries(*histograms), timestamp),
            histograms.entries@.len() == 0 ==> r is Ok && final(self).writer.received() == old(
                self,
            ).writer.received(),
            exists|k: int|
                0 <= k <= histogram_entries(*histograms).len() && final(self).writer.received() == old(
                    self,
                ).writer.received() + spec_encode_histogram_entries(
                    #[trigger] histogram_entries(*histograms).subrange(0, k),
                    timestamp,
                ),
    {
        let n = histograms.entries.len();
        if n == 0 {
            proof {
                assert(histogram_entries(*histograms).subrange(0, 0) =~= Seq::<(u64, HistogramView)>::empty());
                assert(self.writer.received() =~= self.writer.received() + spec_encode_histogram_entries(
                    histogram_entries(*histograms).subrange(0, 0),
                    timestamp,
                ));
            }
            return Ok(());
        }
        let mut i: usize = 0;
        while i < n
            invariant
                i <= n,
                n == histograms.entries@.len(),
                self.encoder == old(self).encoder,
                self.writer.received() =~= old(self).writer.received() + spec_encode_histogram_entries(
                    histogram_entries(*histograms).subrange(0, i as int),
                    timestamp,
                ),
            decreases n - i,
        {
            let ghost entries = histogram_entries(*histograms);
            self.scratch.clear();
            let pair = &histograms.entries[i];
            self.encoder.encode_histogram(pair.0, &pair.1, timestamp, &mut self.scratch);
            let outcome = self.writer.write_all(self.scratch.as_slice());
            if let Err(e) = outcome {
                proof {
                    assert(self.writer.received() =~= old(self).writer.received()
                        + spec_encode_histogram_entries(entries.subrange(0, i as int), timestamp));
                }
                return Err(e);
            }
            proof {
                assert(entries.subrange(0, i + 1 as int).drop_last() =~= entries.subrange(0, i as int));
                assert(entries.subrange(0, i + 1 as int).last() == entries[i as int]);
            }
            i += 1;
        }
        assert(histogram_entries(*histograms).subrange(0, n as int) =~= histogram_entries(*histograms));
        self.writer.flush()
    }
}

/// The no-op transport: discards everything and never fails, whatever the
/// cycle holds.
pub struct NoOpExporter;

impl NoOpExporter {
    pub fn publish_counters(&mut self, counters: &Counters, timestamp: u64) -> (r: Result<(), TransportError>)
        ensures
            r is Ok,
    {
        Ok(())
    }

    pub fn publish_histograms(&mut self, histograms: &Histograms, timestamp: u64) -> (r: Result<(), TransportError>)
        ensures
            r is Ok,
    {
        Ok(())
    }
}

/// The compute half of the UDP exporter: the datagram buffer and encoder
/// configuration.  The surrounding process owns the socket, performs the
/// send that `encode_counters`/`encode_histograms` call for, and hands
/// the outcome to `finish_send`.
pub struct UdpExporter {
    pub buffer: Vec<u8>,
    pub encoder: Encoder,
}

impl UdpExporter {
    pub fn new(encoder: Encoder) -> (r: Self)
        ensures
            r.buffer@ =~= Seq::<u8>::empty(),
            r.encoder == encoder,
    {
        UdpExporter { buffer: Vec::new(), encoder }
    }

    /// Encodes every counter entry into the datagram buffer.  With
    /// nothing to publish it returns false and touches nothing, so the
    /// cycle performs no transport operation at all.
    pub fn encode_counters(&mut self, counters: &Counters, timestamp: u64) -> (ready: bool)
        ensures
            final(self).encoder == old(self).encoder,
            !ready ==> counters.entries@.len() == 0 && *final(self) == *old(self),
            ready ==> counters.entries@.len() > 0 && final(self).buffer@ == old(self).buffer@
                + spec_encode_counter_entries(counter_entries(*counters), timestamp),
    {
        if counters.is_empty() {
            return false;
        }
        encode_all_counters(&self.encoder, counters, timestamp, &mut self.buffer);
        true
    }

    /// Encodes every histogram entry into the datagram buffer; the same
    /// contract as for counters.
    pub fn encode_histograms(&mut self, histograms: &Histograms, timestamp: u64) -> (ready: bool)
        ensures
            final(self).encoder == old(self).encoder,
            !ready ==> histograms.entries@.len() == 0 && *final(self) == *old(self),
            ready ==> histograms.entries@.len() > 0 && final(self).buffer@ == old(self).buffer@
                + spec_encode_histogram_entries(histogram_entries(*histograms), timestamp),
    {
        if histograms.is_empty() {
            return false;
        }
        encode_all_histograms(&self.encoder, histograms, timestamp, &mut self.buffer);
        true
    }

    /// Applies the UDP partial-failure policy to a send outcome.  A
    /// delivered datagram and a connection-refused failure (the remote
    /// listener being temporarily absent) both end the cycle cleanly and
    /// clear the buffer; any other failure propagates and leaves the
    /// buffer as it was.
    pub fn finish_send(&mut self, outcome: SendOutcome) -> (r: Result<(), TransportError>)
        ensures
            final(self).encoder == old(self).encoder,
            match outcome {
                SendOutcome::Sent => r is Ok && final(self).buffer@.len() == 0,
                SendOutcome::Failed(e) => if e is ConnectionRefused {
                    r is Ok && final(self).buffer@.len() == 0
                } else {
                    r == Result::<(), TransportError>::Err(e) && *final(self) == *old(self)
                },
            },
    {
        match outcome {
            SendOutcome::Sent => {
                self.buffer.clear();
                Ok(())
            },
            SendOutcome::Failed(e) => match e {
                TransportError::ConnectionRefused => {
                    self.buffer.clear();
                    Ok(())
                },
                _ => Err(e),
            },
        }
    }
}

/// The compute half of the Unix-datagram exporter: the datagram buffer,
/// encoder configuration, and the destination path the process sends
/// each cycle's datagram to.
pub struct UnixDatagramExporter {
    pub buffer: Vec<u8>,
    pub encoder: Encoder,
    pub path: String,
}

impl UnixDatagramExporter {
    pub fn new(path: String, encoder: Encoder) -> (r: Self)
        ensures
            r.buffer@ =~= Seq::<u8>::empty(),
            r.encoder == encoder,
            r.path == path,
    {
        UnixDatagramExporter { buffer: Vec::new(), encoder, path }
    }

    /// Encodes every counter entry into the datagram buffer; with
    /// nothing to publish it returns false and touches nothing.
    pub fn encode_counters(&mut self, counters: &Counters, timestamp: u64) -> (ready: bool)
        ensures
            final(self).encoder == old(self).encoder,
            final(self).path == old(self).path,
            !ready ==> counters.entries@.len() == 0 && *final(self) == *old(self),
            ready ==> counters.entries@.len() > 0 && final(self).buffer@ == old(self).buffer@
                + spec_encode_counter_entries(counter_entries(*counters), timestamp),
    {
        if counters.is_empty() {
            return false;
        }
        encode_all_counters(&self.encoder, counters, timestamp, &mut self.buffer);
        true
    }

    /// Encodes every histogram entry into the datagram buffer; the same
    /// contract as for counters.
    pub fn encode_histograms(&mut self, histograms: &Histograms, timestamp: u64) -> (ready: bool)
        ensures
            final(self).encoder == old(self).encoder,
            final(self).path == old(self).path,
            !ready ==> histograms.entries@.len() == 0 && *final(self) == *old(self),
            ready ==> histograms.entries@.len() > 0 && final(self).buffer@ == old(self).buffer@
                + spec_encode_histogram_entries(histogram_entries(*histograms), timestamp),
    {
        if histograms.is_empty() {
            return false;
        }
        encode_all_histograms(&self.encoder, histograms, timestamp, &mut self.buffer);
        true
    }

    /// Applies the Unix-datagram partial-failure policy to a send
    /// outcome: a missing destination path (the listener socket being
    /// temporarily absent) drops the cycle silently; any other failure
    /// propagates and leaves the buffer as it was.
    pub fn finish_send(&mut self, outcome: SendOutcome) -> (r: Result<(), TransportError>)
        ensures
            final(self).encoder == old(self).encoder,
            final(self).path == old(self).path,
            match outcome {
                SendOutcome::Sent => r is Ok && final(self).buffer@.len() == 0,
                SendOutcome::Failed(e) => if e is NotFound {
                    r is Ok && final(self).buffer@.len() == 0
                } else {
                    r == Result::<(), TransportError>::Err(e) && *final(self) == *old(self)
                },
            },
    {
        match outcome {
            SendOutcome::Sent => {
                self.buffer.clear();
                Ok(())
            },
            SendOutcome::Failed(e) => match e {
                TransportError::NotFound => {
                    self.buffer.clear();
                    Ok(())
                },
                _ => Err(e),
            },
        }
    }
}

} // verus!
