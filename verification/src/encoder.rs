//! Serialization of aggregated metric state into transport-ready bytes.
//!
//! The encoder is a pure, stateless transformation: given one counter or
//! histogram entry plus a timestamp, it appends a deterministic,
//! line-oriented byte representation to an output buffer and does nothing
//! else.  Every line starts with a record kind, then the id, the name,
//! the comma-separated tags, the numeric state and the timestamp.

use vstd::prelude::*;

verus! {

use vstd::utf8::encode_utf8;

use crate::aggregator::{Counter, CounterView, Counters, Histogram, HistogramView, Histograms};
use crate::{Id, TagView};

/// The canonical decimal digits of a non-negative number, most
/// significant first.
pub open spec fn spec_dec_digits(n: int) -> Seq<u8>
    decreases n,
{
    if n < 10 {
        seq![(48 + if n >= 0 { n } else { 0 }) as u8]
    } else {
        spec_dec_digits(n / 10).push((48 + n % 10) as u8)
    }
}

/// Formats a number as its canonical decimal digits.
pub fn u64_to_dec(n: u64) -> (r: Vec<u8>)
    ensures
        r@ == spec_dec_digits(n as int),
    decreases n,
{
    if n < 10 {
        let mut r: Vec<u8> = Vec::new();
        r.push(48 + (n as u8));
        r
    } else {
        let mut r = u64_to_dec(n / 10);
        r.push(48 + ((n % 10) as u8));
        r
    }
}

/// Appends a slice to a buffer.
pub fn push_bytes(out: &mut Vec<u8>, src: &[u8])
    ensures
        final(out)@ == old(out)@ + src@,
{
    let n = src.len();
    let mut i: usize = 0;
    while i < n
        invariant
            i <= n,
            n == src@.len(),
            out@ =~= old(out)@ + src@.subrange(0, i as int),
        decreases n - i,
    {
        out.push(src[i]);
        assert(src@.subrange(0, i + 1 as int).drop_last() =~= src@.subrange(0, i as int));
        i += 1;
    }
    assert(src@.subrange(0, n as int) =~= src@);
}

/// Appends a string's bytes to a buffer.
pub fn push_str_bytes(out: &mut Vec<u8>, s: &str)
    ensures
        final(out)@ == old(out)@ + encode_utf8(s@),
{
    push_bytes(out, s.as_bytes());
}

/// Appends a number's decimal digits to a buffer.
pub fn push_decimal(out: &mut Vec<u8>, n: u64)
    ensures
        final(out)@ == old(out)@ + spec_dec_digits(n as int),
{
    let mut digits = u64_to_dec(n);
    out.append(&mut digits);
}

/// One encoded tag: a comma, the key, an equals sign, the value.
pub open spec fn spec_encode_tag(t: TagView) -> Seq<u8> {
    seq![44u8] + encode_utf8(t.0) + seq![61u8] + encode_utf8(t.1)
}

/// The encoded form of a whole tag list, in order.
pub open spec fn spec_encode_tags(tags: Seq<TagView>) -> Seq<u8>
    decreases tags.len(),
{
    if tags.len() == 0 {
        Seq::empty()
    } else {
        spec_encode_tags(tags.drop_last()) + spec_encode_tag(tags.last())
    }
}

/// Appends the encoded tags to a buffer.
fn push_tags(out: &mut Vec<u8>, tags: &crate::Tags)
    ensures
        final(out)@ == old(out)@ + spec_encode_tags(crate::tags_view(tags@)),
{
    let n = tags.len();
    let mut i: usize = 0;
    while i < n
        invariant
            i <= n,
            n == tags@.len(),
            out@ =~= old(out)@ + spec_encode_tags(crate::tags_view(tags@).subrange(0, i as int)),
        decreases n - i,
    {
        let ghost tview = crate::tags_view(tags@);
        out.push(44);
        push_str_bytes(out, tags[i].0.as_str());
        out.push(61);
        push_str_bytes(out, tags[i].1.as_str());
        proof {
            assert(tview.subrange(0, i + 1 as int).drop_last() =~= tview.subrange(0, i as int));
            assert(tview.subrange(0, i + 1 as int).last() == tview[i as int]);
            assert(out@ =~= old(out)@ + spec_encode_tags(tview.subrange(0, i + 1 as int)));
        }
        i += 1;
    }
    assert(crate::tags_view(tags@).subrange(0, n as int) =~= crate::tags_view(tags@));
}

/// One encoded counter observation: `c <id> <name><tags> <value> <timestamp>\n`.
pub open spec fn spec_encode_counter(id: Id, c: CounterView, timestamp: u64) -> Seq<u8> {
    seq![99u8, 32u8] + spec_dec_digits(id as int) + seq![32u8] + encode_utf8(c.name) + spec_encode_tags(c.tags)
        + seq![32u8] + spec_dec_digits(c.value as int) + seq![32u8] + spec_dec_digits(timestamp as int) + seq![10u8]
}

/// One encoded histogram observation:
/// `h <id> <name><tags> <count> <sum> <min> <max> <timestamp>\n`.
pub open spec fn spec_encode_histogram(id: Id, h: HistogramView, timestamp: u64) -> Seq<u8> {
    seq![104u8, 32u8] + spec_dec_digits(id as int) + seq![32u8] + encode_utf8(h.name) + spec_encode_tags(h.tags)
        + seq![32u8] + spec_dec_digits(h.count as int) + seq![32u8] + spec_dec_digits(h.sum as int) + seq![32u8]
        + spec_dec_digits(h.min as int) + seq![32u8] + spec_dec_digits(h.max as int) + seq![32u8]
        + spec_dec_digits(timestamp as int) + seq![10u8]
}

/// The encoder configuration an exporter is built with.  One encoding is
/// supported: the line-oriented form above.
#[derive(Clone, Copy, Debug)]
pub enum Encoder {
    LineProtocol,
}

impl Encoder {
    /// Appends one counter observation plus a timestamp to the output
    /// buffer; deterministic and side-effect-free beyond appending.
    pub fn encode_counter(&self, id: Id, c: &Counter, timestamp: u64, out: &mut Vec<u8>)
        ensures
            final(out)@ == old(out)@ + spec_encode_counter(id, c@, timestamp),
    {
        out.push(99);
        out.push(32);
        push_decimal(out, id);
        out.push(32);
        push_str_bytes(out, c.name.as_str());
        push_tags(out, &c.tags);
        out.push(32);
        push_decimal(out, c.value);
        out.push(32);
        push_decimal(out, timestamp);
        out.push(10);
        assert(out@ =~= old(out)@ + spec_encode_counter(id, c@, timestamp));
    }

    /// Appends one histogram observation plus a timestamp to the output
    /// buffer.
    #[verifier::rlimit(30)]
    pub fn encode_histogram(&self, id: Id, h: &Histogram, timestamp: u64, out: &mut Vec<u8>)
        ensures
            final(out)@ == old(out)@ + spec_encode_histogram(id, h@, timestamp),
    {
        out.push(104);
        out.push(32);
        push_decimal(out, id);
        out.push(32);
        push_str_bytes(out, h.name.as_str());
        push_tags(out, &h.tags);
        proof {
            assert(out@ =~= old(out)@ + (seq![104u8, 32u8] + spec_dec_digits(id as int) + seq![32u8]
                + encode_utf8(h@.name) + spec_encode_tags(h@.tags)));
        }
        let ghost head = out@;
        out.push(32);
        push_decimal(out, h.count);
        out.push(32);
        push_decimal(out, h.sum);
        proof {
            assert(out@ =~= head + (seq![32u8] + spec_dec_digits(h.count as int) + seq![32u8]
                + spec_dec_digits(h.sum as int)));
        }
        let ghost mid = out@;
        out.push(32);
        push_decimal(out, h.min);
        out.push(32);
        push_decimal(out, h.max);
        out.push(32);
        push_decimal(out, timestamp);
        out.push(10);
        proof {
            assert(out@ =~= mid + (seq![32u8] + spec_dec_digits(h.min as int) + seq![32u8]
                + spec_dec_digits(h.max as int) + seq![32u8] + spec_dec_digits(timestamp as int) + seq![10u8]));
            assert(out@ =~= old(out)@ + spec_encode_histogram(id, h@, timestamp));
        }
    }
}

/// The id/view pairs a counter mapping holds, in its storage order.
pub open spec fn counter_entries(c: Counters) -> Seq<(u64, CounterView)> {
    c.entries@.map_values(|p: (u64, Counter)| (p.0, p.1@))
}

/// The id/view pairs a histogram mapping holds, in its storage order.
pub open spec fn histogram_entries(h: Histograms) -> Seq<(u64, HistogramView)> {
    h.entries@.map_values(|p: (u64, Histogram)| (p.0, p.1@))
}

/// The concatenated encoding of every counter entry, in storage order.
pub open spec fn spec_encode_counter_entries(entries: Seq<(u64, CounterView)>, timestamp: u64) -> Seq<u8>
    decreases entries.len(),
{
    if entries.len() == 0 {
        Seq::empty()
    } else {
        spec_encode_counter_entries(entries.drop_last(), timestamp)
            + spec_encode_counter(entries.last().0, entries.last().1, timestamp)
    }
}

/// The concatenated encoding of every histogram entry, in storage order.
pub open spec fn spec_encode_histogram_entries(entries: Seq<(u64, HistogramView)>, timestamp: u64) -> Seq<u8>
    decreases entries.len(),
{
    if entries.len() == 0 {
        Seq::empty()
    } else {
        spec_encode_histogram_entries(entries.drop_last(), timestamp)
            + spec_encode_histogram(entries.last().0, entries.last().1, timestamp)
    }
}

/// Encodes every counter entry into the buffer, in storage order.
pub fn encode_all_counters(encoder: &Encoder, counters: &Counters, timestamp: u64, out: &mut Vec<u8>)
    ensures
        final(out)@ == old(out)@ + spec_encode_counter_entries(counter_entries(*counters), timestamp),
{
    let n = counters.entries.len();
    let mut i: usize = 0;
    while i < n
        invariant
            i <= n,
            n == counters.entries@.len(),
            out@ =~= old(out)@ + spec_encode_counter_entries(counter_entries(*counters).subrange(0, i as int), timestamp),
        decreases n - i,
    {
        let ghost entries = counter_entries(*counters);
        let pair = &counters.entries[i];
        encoder.encode_counter(pair.0, &pair.1, timestamp, out);
        proof {
            assert(entries.subrange(0, i + 1 as int).drop_last() =~= entries.subrange(0, i as int));
            assert(entries.subrange(0, i + 1 as int).last() == entries[i as int]);
            assert(out@ =~= old(out)@ + spec_encode_counter_entries(entries.subrange(0, i + 1 as int), timestamp));
        }
        i += 1;
    }
    assert(counter_entries(*counters).subrange(0, n as int) =~= counter_entries(*counters));
}

/// Encodes every histogram entry into the buffer, in storage order.
pub fn encode_all_histograms(encoder: &Encoder, histograms: &Histograms, timestamp: u64, out: &mut Vec<u8>)
    ensures
        final(out)@ == old(out)@ + spec_encode_histogram_entries(histogram_entries(*histograms), timestamp),
{
    let n = histograms.entries.len();
    let mut i: usize = 0;
    while i < n
        invariant
            i <= n,
            n == histograms.entries@.len(),
            out@ =~= old(out)@ + spec_encode_histogram_entries(
                histogram_entries(*histograms).subrange(0, i as int),
                timestamp,
            ),
        decreases n - i,
    {
        let ghost entries = histogram_entries(*histograms);
        let pair = &histograms.entries[i];
        encoder.encode_histogram(pair.0, &pair.1, timestamp, out);
        proof {
            assert(entries.subrange(0, i + 1 as int).drop_last() =~= entries.subrange(0, i as int));
            assert(entries.subrange(0, i + 1 as int).last() == entries[i as int]);
            assert(out@ =~= old(out)@ + spec_encode_histogram_entries(entries.subrange(0, i + 1 as int), timestamp));
        }
        i += 1;
    }
    assert(histogram_entries(*histograms).subrange(0, n as int) =~= histogram_entries(*histograms));
}

} // verus!
