//! The wire form of pre-allocated metric descriptions.
//!
//! A [`PreAllocatedMetric`] travels between the core and configuration
//! code as one JSON object with a `type` tag (`counter` or `histogram`),
//! a `name`, an `id` and a `tags` object:
//!
//! ```text
//! {"type":"counter","name":"x","id":42,"tags":{"a":"1"}}
//! ```
//!
//! Encoding collapses the ordered tag list to a set: for each key only
//! its last occurrence is kept.  Decoding accepts exactly the canonical
//! encodings (rejecting duplicate tag keys, escapes inside strings and
//! non-canonical numbers) and tolerates one relaxation: a missing `tags`
//! member, which decodes as an empty tag list.

use vstd::prelude::*;

verus! {

use vstd::utf8::{decode_utf8, encode_utf8, valid_utf8};

use crate::encoder::{push_decimal, spec_dec_digits};
use crate::{PreAllocatedMetric, Tag, Tags};

/// Relies on `String::from_utf8`: its documentation decodes exactly the
/// valid UTF-8 byte sequences and reports the rest as errors.
#[verifier::external_body]
fn string_from_utf8(bytes: Vec<u8>) -> (r: Option<String>)
    ensures
        r matches Some(s) ==> valid_utf8(bytes@) && s@ == decode_utf8(bytes@),
        r is None ==> !valid_utf8(bytes@),
{
    match String::from_utf8(bytes) {
        Ok(s) => Some(s),
        Err(_) => None,
    }
}

/// The opening of the object up to the kind word: `{"type":"`.
pub open spec fn spec_lit_type() -> Seq<u8> {
    seq![123u8, 34u8, 116u8, 121u8, 112u8, 101u8, 34u8, 58u8, 34u8]
}

/// The kind word: `counter` or `histogram`.
pub open spec fn spec_kind_bytes(is_counter: bool) -> Seq<u8> {
    if is_counter {
        seq![99u8, 111u8, 117u8, 110u8, 116u8, 101u8, 114u8]
    } else {
        seq![104u8, 105u8, 115u8, 116u8, 111u8, 103u8, 114u8, 97u8, 109u8]
    }
}

/// The member glue after the kind word: `","name":`.
pub open spec fn spec_lit_name() -> Seq<u8> {
    seq![34u8, 44u8, 34u8, 110u8, 97u8, 109u8, 101u8, 34u8, 58u8]
}

/// The member glue after the name string: `,"id":`.
pub open spec fn spec_lit_id() -> Seq<u8> {
    seq![44u8, 34u8, 105u8, 100u8, 34u8, 58u8]
}

/// The member glue after the id digits: `,"tags":{`.
pub open spec fn spec_lit_tags() -> Seq<u8> {
    seq![44u8, 34u8, 116u8, 97u8, 103u8, 115u8, 34u8, 58u8, 123u8]
}

/// One quoted string: `"content"`.
pub open spec fn spec_quoted(content: Seq<u8>) -> Seq<u8> {
    seq![34u8] + content + seq![34u8]
}

/// One tag pair: `"key":"value"`.
pub open spec fn spec_pair_bytes(key: Seq<u8>, value: Seq<u8>) -> Seq<u8> {
    spec_quoted(key) + seq![58u8] + spec_quoted(value)
}

/// The members of the tags object, comma-separated, in order.
pub open spec fn spec_pairs_bytes(tags: Seq<(Seq<u8>, Seq<u8>)>) -> Seq<u8>
    decreases tags.len(),
{
    if tags.len() == 0 {
        Seq::empty()
    } else if tags.len() == 1 {
        spec_pair_bytes(tags[0].0, tags[0].1)
    } else {
        spec_pairs_bytes(tags.drop_last()) + seq![44u8] + spec_pair_bytes(tags.last().0, tags.last().1)
    }
}

/// The encoded bytes of one metric description with a tags object.
pub open spec fn spec_encode_bytes(
    is_counter: bool,
    name: Seq<u8>,
    id: u64,
    tags: Seq<(Seq<u8>, Seq<u8>)>,
) -> Seq<u8> {
    spec_lit_type() + spec_kind_bytes(is_counter) + spec_lit_name() + spec_quoted(name) + spec_lit_id()
        + spec_dec_digits(id as int) + spec_lit_tags() + spec_pairs_bytes(tags) + seq![125u8, 125u8]
}

/// The encoded bytes of a metric description without a tags member; the
/// decoder reads this form as an empty tag list.
pub open spec fn spec_encode_bytes_no_tags(is_counter: bool, name: Seq<u8>, id: u64) -> Seq<u8> {
    spec_lit_type() + spec_kind_bytes(is_counter) + spec_lit_name() + spec_quoted(name) + spec_lit_id()
        + spec_dec_digits(id as int) + seq![125u8]
}

/// The byte-level value of a tag list: each key and value as UTF-8.
pub open spec fn tags_bytes_view(tags: Seq<Tag>) -> Seq<(Seq<u8>, Seq<u8>)> {
    tags.map_values(|t: Tag| (encode_utf8(t.0@), encode_utf8(t.1@)))
}

/// The tag list with each key's earlier occurrences dropped: a tag is
/// kept exactly when no later tag has the same key, so the result holds
/// one pair per key, in the order of the keys' last occurrences.
pub open spec fn spec_collapse_tags(tags: Seq<Tag>) -> Seq<Tag>
    decreases tags.len(),
{
    if tags.len() == 0 {
        tags
    } else {
        let rest = spec_collapse_tags(tags.drop_first());
        if exists|j: int| 1 <= j < tags.len() && (#[trigger] tags[j]).0@ == tags[0].0@ {
            rest
        } else {
            seq![tags[0]] + rest
        }
    }
}

/// Every pair the collapse keeps is one of the original pairs.
proof fn lemma_collapse_membership(tags: Seq<Tag>, x: int)
    requires
        0 <= x < spec_collapse_tags(tags).len(),
    ensures
        exists|j: int| 0 <= j < tags.len() && tags[j] == spec_collapse_tags(tags)[x],
    decreases tags.len(),
{
    if tags.len() > 0 {
        let rest = spec_collapse_tags(tags.drop_first());
        let kept = spec_collapse_tags(tags);
        if exists|j: int| 1 <= j < tags.len() && (#[trigger] tags[j]).0@ == tags[0].0@ {
            lemma_collapse_membership(tags.drop_first(), x);
            let j = choose|j: int| 0 <= j < tags.drop_first().len() && tags.drop_first()[j] == rest[x];
            assert(tags[j + 1] == rest[x]);
        } else {
            if x == 0 {
                assert(kept[0] == tags[0]);
            } else {
                lemma_collapse_membership(tags.drop_first(), x - 1);
                let j = choose|j: int|
                    0 <= j < tags.drop_first().len() && tags.drop_first()[j] == rest[x - 1];
                assert(tags[j + 1] == rest[x - 1]);
                assert(kept[x] == rest[x - 1]);
            }
        }
    }
}

/// The serialized tag list holds one pair per key: collapsing enforces
/// key uniqueness in the wire representation.
pub proof fn lemma_collapse_tags_unique(tags: Seq<Tag>)
    ensures
        unique_tag_keys(spec_collapse_tags(tags)),
    decreases tags.len(),
{
    if tags.len() > 0 {
        lemma_collapse_tags_unique(tags.drop_first());
        let rest = spec_collapse_tags(tags.drop_first());
        let kept = spec_collapse_tags(tags);
        if exists|j: int| 1 <= j < tags.len() && (#[trigger] tags[j]).0@ == tags[0].0@ {
        } else {
            assert forall|a: int, b: int| 0 <= a < b < kept.len() implies (#[trigger] kept[a]).0@
                != (#[trigger] kept[b]).0@ by {
                if a == 0 {
                    assert(kept[0] == tags[0]);
                    assert(kept[b] == rest[b - 1]);
                    lemma_collapse_membership(tags.drop_first(), b - 1);
                    let j = choose|j: int|
                        0 <= j < tags.drop_first().len() && tags.drop_first()[j] == rest[b - 1];
                    assert(tags[j + 1] == rest[b - 1]);
                    if kept[b].0@ == tags[0].0@ {
                        assert((#[trigger] tags[j + 1]).0@ == tags[0].0@);
                    }
                } else {
                    assert(kept[a] == rest[a - 1] && kept[b] == rest[b - 1]);
                }
            }
        }
    }
}

/// Collapses a tag list to one pair per key, keeping each key's last
/// occurrence.
fn collapse_tags(tags: &Tags) -> (r: Tags)
    ensures
        r@ == spec_collapse_tags(tags@),
{
    let n = tags.len();
    let mut r: Tags = Vec::new();
    let mut i: usize = 0;
    proof {
        assert(tags@.skip(0) =~= tags@);
        assert(Seq::<Tag>::empty() + spec_collapse_tags(tags@) =~= spec_collapse_tags(tags@));
    }
    while i < n
        invariant
            i <= n,
            n == tags@.len(),
            r@ + spec_collapse_tags(tags@.skip(i as int)) =~= spec_collapse_tags(tags@),
        decreases n - i,
    {
        let ghost pre = r@;
        let mut keep = true;
        let mut j: usize = i + 1;
        while j < n
            invariant
                i < j <= n,
                n == tags@.len(),
                keep <==> forall|t: int| i < t < j ==> (#[trigger] tags@[t]).0@ != tags@[i as int].0@,
            decreases n - j,
        {
            if tags[j].0.eq(&tags[i].0) {
                keep = false;
            }
            j += 1;
        }
        if keep {
            let pair = &tags[i];
            r.push((pair.0.clone(), pair.1.clone()));
        }
        proof {
            let s = tags@.skip(i as int);
            assert(s.len() == n - i);
            assert(s[0] == tags@[i as int]);
            assert(s.drop_first() =~= tags@.skip(i + 1 as int));
            assert((exists|jj: int| 1 <= jj < s.len() && (#[trigger] s[jj]).0@ == s[0].0@) <==> !keep) by {
                if exists|jj: int| 1 <= jj < s.len() && (#[trigger] s[jj]).0@ == s[0].0@ {
                    let jj = choose|jj: int| 1 <= jj < s.len() && (#[trigger] s[jj]).0@ == s[0].0@;
                    assert(tags@[i + jj] == s[jj]);
                }
                if !keep {
                    let t = choose|t: int| i < t < n && (#[trigger] tags@[t]).0@ == tags@[i as int].0@;
                    assert(s[t - i] == tags@[t]);
                }
            }
            if keep {
                assert(r@ =~= pre + seq![tags@[i as int]]);
                assert(pre + (seq![tags@[i as int]] + spec_collapse_tags(tags@.skip(i + 1 as int)))
                    =~= (pre + seq![tags@[i as int]]) + spec_collapse_tags(tags@.skip(i + 1 as int)));
            }
        }
        i += 1;
    }
    assert(tags@.skip(n as int) =~= Seq::<Tag>::empty());
    assert(r@ + Seq::<Tag>::empty() =~= r@);
    r
}

/// Appends `{"type":"`.
fn push_lit_type(out: &mut Vec<u8>)
    ensures
        final(out)@ == old(out)@ + spec_lit_type(),
{
    out.push(123);
    out.push(34);
    out.push(116);
    out.push(121);
    out.push(112);
    out.push(101);
    out.push(34);
    out.push(58);
    out.push(34);
    assert(out@ =~= old(out)@ + spec_lit_type());
}

/// Appends the kind word.
fn push_kind(out: &mut Vec<u8>, is_counter: bool)
    ensures
        final(out)@ == old(out)@ + spec_kind_bytes(is_counter),
{
    if is_counter {
        out.push(99);
        out.push(111);
        out.push(117);
        out.push(110);
        out.push(116);
        out.push(101);
        out.push(114);
    } else {
        out.push(104);
        out.push(105);
        out.push(115);
        out.push(116);
        out.push(111);
        out.push(103);
        out.push(114);
        out.push(97);
        out.push(109);
    }
    assert(out@ =~= old(out)@ + spec_kind_bytes(is_counter));
}

/// Appends `","name":`.
fn push_lit_name(out: &mut Vec<u8>)
    ensures
        final(out)@ == old(out)@ + spec_lit_name(),
{
    out.push(34);
    out.push(44);
    out.push(34);
    out.push(110);
    out.push(97);
    out.push(109);
    out.push(101);
    out.push(34);
    out.push(58);
    assert(out@ =~= old(out)@ + spec_lit_name());
}

/// Appends `,"id":`.
fn push_lit_id(out: &mut Vec<u8>)
    ensures
        final(out)@ == old(out)@ + spec_lit_id(),
{
    out.push(44);
    out.push(34);
    out.push(105);
    out.push(100);
    out.push(34);
    out.push(58);
    assert(out@ =~= old(out)@ + spec_lit_id());
}

/// Appends `,"tags":{`.
fn push_lit_tags(out: &mut Vec<u8>)
    ensures
        final(out)@ == old(out)@ + spec_lit_tags(),
{
    out.push(44);
    out.push(34);
    out.push(116);
    out.push(97);
    out.push(103);
    out.push(115);
    out.push(34);
    out.push(58);
    out.push(123);
    assert(out@ =~= old(out)@ + spec_lit_tags());
}

/// Appends one quoted string.
fn push_quoted(out: &mut Vec<u8>, s: &str)
    ensures
        final(out)@ == old(out)@ + spec_quoted(encode_utf8(s@)),
{
    out.push(34);
    crate::encoder::push_str_bytes(out, s);
    out.push(34);
    assert(out@ =~= old(out)@ + spec_quoted(encode_utf8(s@)));
}

/// Appends the comma-separated tag pairs.
fn push_pairs(out: &mut Vec<u8>, tags: &Tags)
    ensures
        final(out)@ == old(out)@ + spec_pairs_bytes(tags_bytes_view(tags@)),
{
    let n = tags.len();
    let mut i: usize = 0;
    while i < n
        invariant
            i <= n,
            n == tags@.len(),
            out@ =~= old(out)@ + spec_pairs_bytes(tags_bytes_view(tags@).subrange(0, i as int)),
        decreases n - i,
    {
        let ghost tview = tags_bytes_view(tags@);
        if i > 0 {
            out.push(44);
        }
        push_quoted(out, tags[i].0.as_str());
        out.push(58);
        push_quoted(out, tags[i].1.as_str());
        proof {
            assert(tview.subrange(0, i + 1 as int).drop_last() =~= tview.subrange(0, i as int));
            assert(tview.subrange(0, i + 1 as int).last() == tview[i as int]);
            assert(out@ =~= old(out)@ + spec_pairs_bytes(tview.subrange(0, i + 1 as int)));
        }
        i += 1;
    }
    assert(tags_bytes_view(tags@).subrange(0, n as int) =~= tags_bytes_view(tags@));
}

/// Whether a byte is a decimal digit.
pub open spec fn is_digit(b: u8) -> bool {
    48 <= b <= 57
}

/// The number a digit string denotes.
pub open spec fn digits_value(s: Seq<u8>) -> int
    decreases s.len(),
{
    if s.len() == 0 {
        0
    } else {
        digits_value(s.drop_last()) * 10 + (s.last() - 48)
    }
}

/// A canonical digit string: non-empty, all digits, and no leading zero.
pub open spec fn is_canonical_digits(s: Seq<u8>) -> bool {
    &&& s.len() > 0
    &&& forall|p: int| 0 <= p < s.len() ==> is_digit(#[trigger] s[p])
    &&& (s[0] != 48 || s.len() == 1)
}

/// A digit string without a leading zero denotes a positive number.
proof fn lemma_digits_positive(s: Seq<u8>)
    requires
        s.len() > 0,
        forall|p: int| 0 <= p < s.len() ==> is_digit(#[trigger] s[p]),
        s[0] != 48,
    ensures
        digits_value(s) >= 1,
    decreases s.len(),
{
    assert(is_digit(s[0]));
    assert(is_digit(s[s.len() - 1]));
    if s.len() == 1 {
        assert(digits_value(s.drop_last()) == 0);
        assert(digits_value(s) == s[0] - 48);
    } else {
        let head = s.drop_last();
        assert forall|p: int| 0 <= p < head.len() implies is_digit(#[trigger] head[p]) by {
            assert(head[p] == s[p]);
        }
        assert(head[0] == s[0]);
        lemma_digits_positive(head);
        assert(digits_value(s) == digits_value(head) * 10 + (s.last() - 48));
    }
}

/// Digit strings denote non-negative numbers.
proof fn lemma_digits_nonneg(s: Seq<u8>)
    requires
        forall|p: int| 0 <= p < s.len() ==> is_digit(#[trigger] s[p]),
    ensures
        digits_value(s) >= 0,
    decreases s.len(),
{
    if s.len() > 0 {
        let head = s.drop_last();
        assert forall|p: int| 0 <= p < head.len() implies is_digit(#[trigger] head[p]) by {
            assert(head[p] == s[p]);
        }
        lemma_digits_nonneg(head);
        assert(is_digit(s[s.len() - 1]));
        assert(digits_value(s) == digits_value(head) * 10 + (s.last() - 48));
    }
}

/// The canonical digits of a number denote it, and are canonical.
proof fn lemma_dec_digits_canonical(v: int)
    requires
        v >= 0,
    ensures
        is_canonical_digits(spec_dec_digits(v)),
        digits_value(spec_dec_digits(v)) == v,
        v >= 1 ==> spec_dec_digits(v)[0] != 48,
    decreases v,
{
    if v < 10 {
        let s = spec_dec_digits(v);
        assert(s =~= seq![(48 + v) as u8]);
        assert(digits_value(s.drop_last()) == 0);
        assert(digits_value(s) == s.last() - 48);
    } else {
        lemma_dec_digits_canonical(v / 10);
        let s = spec_dec_digits(v);
        assert(s == spec_dec_digits(v / 10).push((48 + v % 10) as u8));
        assert(s.drop_last() =~= spec_dec_digits(v / 10));
        assert(v / 10 >= 1);
        assert(s[0] == spec_dec_digits(v / 10)[0]);
        assert(s.last() == (48 + v % 10) as u8);
        assert(digits_value(s) == digits_value(s.drop_last()) * 10 + (s.last() - 48));
        vstd::arithmetic::div_mod::lemma_fundamental_div_mod(v, 10);
        assert(digits_value(s) == v);
        assert forall|p: int| 0 <= p < s.len() implies is_digit(#[trigger] s[p]) by {
            if p < s.len() - 1 {
                assert(s[p] == spec_dec_digits(v / 10)[p]);
            }
        }
    }
}

/// A canonical digit string is the canonical encoding of its own value:
/// canonical decimal notation is unique.
proof fn lemma_canonical_is_dec_digits(s: Seq<u8>)
    requires
        is_canonical_digits(s),
    ensures
        digits_value(s) >= 0,
        s == spec_dec_digits(digits_value(s)),
    decreases s.len(),
{
    lemma_digits_nonneg(s);
    let v = digits_value(s);
    if s.len() == 1 {
        assert(is_digit(s[0]));
        assert(s.last() == s[0] && s.drop_last().len() == 0);
        assert(digits_value(s) == digits_value(s.drop_last()) * 10 + (s.last() - 48));
        assert(digits_value(s.drop_last()) == 0);
        assert(v == s[0] - 48 && v < 10);
        assert(spec_dec_digits(v) =~= seq![(48 + v) as u8]);
        assert(s =~= spec_dec_digits(v));
    } else {
        let head = s.drop_last();
        assert(head[0] == s[0] && s[0] != 48);
        lemma_digits_positive(head);
        lemma_digits_nonneg(head);
        let q = digits_value(head);
        let d = (s.last() - 48) as int;
        assert(v == q * 10 + d && 0 <= d < 10 && q >= 1);
        vstd::arithmetic::div_mod::lemma_fundamental_div_mod_converse(v, 10, q, d);
        assert(v / 10 == q && v % 10 == d);
        assert(v >= 10);
        lemma_canonical_is_dec_digits(head);
        assert(spec_dec_digits(v) == spec_dec_digits(q).push((48 + d) as u8));
        assert(s =~= head.push(s.last()));
    }
}

/// Tag keys are pairwise distinct.
pub open spec fn unique_tag_keys(tags: Seq<Tag>) -> bool {
    forall|a: int, b: int| 0 <= a < b < tags.len() ==> (#[trigger] tags[a]).0@ != (#[trigger] tags[b]).0@
}

/// The failure classes of decoding: input not matching the wire grammar,
/// or string content that is not valid text.
#[derive(Clone, Copy, Debug, PartialEq, Eq, Structural)]
pub enum DecodeError {
    Malformed,
    InvalidText,
}

/// Advances over one expected literal: succeeds exactly when the literal
/// sits at `i`.
fn match_lit(bytes: &[u8], i: usize, lit: &[u8]) -> (r: Option<usize>)
    requires
        i <= bytes@.len(),
    ensures
        r matches Some(j) ==> i + lit@.len() == j && j <= bytes@.len() && bytes@.subrange(i as int, j as int)
            == lit@,
        r is None ==> !(i + lit@.len() <= bytes@.len() && bytes@.subrange(i as int, i + lit@.len()) == lit@),
{
    let m = lit.len();
    let n = bytes.len();
    if n - i < m {
        return None;
    }
    let mut p: usize = 0;
    while p < m
        invariant
            p <= m,
            m == lit@.len(),
            n == bytes@.len(),
            i + m <= n,
            forall|t: int| 0 <= t < p ==> bytes@[i + t] == #[trigger] lit@[t],
        decreases m - p,
    {
        if bytes[i + p] != lit[p] {
            proof {
                if bytes@.subrange(i as int, i + m) == lit@ {
                    assert(bytes@.subrange(i as int, i + m)[p as int] == bytes@[i + p]);
                }
            }
            return None;
        }
        p += 1;
    }
    assert(bytes@.subrange(i as int, (i + m) as int) =~= lit@);
    Some(i + m)
}

/// Reads one quoted string starting at `i`, returning its contents and
/// the position after the closing quote.  Escapes are not part of the
/// grammar: the contents run to the first quote.
fn parse_string(bytes: &[u8], i: usize) -> (r: Option<(Vec<u8>, usize)>)
    requires
        i <= bytes@.len(),
    ensures
        r matches Some((content, j)) ==> {
            &&& i + 2 <= j <= bytes@.len()
            &&& content@ == bytes@.subrange(i + 1, j - 1)
            &&& !content@.contains(34u8)
            &&& bytes@[j - 1] == 34u8
            &&& bytes@.subrange(i as int, j as int) == spec_quoted(content@)
        },
        r is None ==> i >= bytes@.len() || bytes@[i as int] != 34u8 || (forall|p: int|
            i < p < bytes@.len() ==> bytes@[p] != 34u8),
{
    let n = bytes.len();
    if i >= n || bytes[i] != 34 {
        return None;
    }
    let mut content: Vec<u8> = Vec::new();
    let mut p: usize = i + 1;
    while p < n
        invariant
            i + 1 <= p <= n,
            n == bytes@.len(),
            bytes@[i as int] == 34u8,
            content@ =~= bytes@.subrange(i + 1, p as int),
            forall|t: int| i + 1 <= t < p ==> bytes@[t] != 34u8,
        decreases n - p,
    {
        let b = bytes[p];
        if b == 34 {
            let j = p + 1;
            proof {
                assert(bytes@.subrange(i as int, j as int) =~= spec_quoted(content@));
                assert forall|t: int| 0 <= t < content@.len() implies content@[t] != 34u8 by {
                    assert(content@[t] == bytes@[i + 1 + t]);
                }
            }
            return Some((content, j));
        }
        content.push(b);
        assert(content@ =~= bytes@.subrange(i + 1, p + 1 as int));
        p += 1;
    }
    None
}

/// Where the digit run starting at `i` ends.
pub open spec fn digit_run_end(s: Seq<u8>, i: int) -> int
    decreases s.len() - i,
    when 0 <= i <= s.len()
{
    if i < s.len() && is_digit(s[i]) {
        digit_run_end(s, i + 1)
    } else {
        i
    }
}

/// The digit run ends at the position characterized by its bounds: all
/// digits before it, and a non-digit (or the end of input) at it.
proof fn lemma_digit_run_end_at(s: Seq<u8>, i: int, k: int)
    requires
        0 <= i <= k <= s.len(),
        forall|t: int| i <= t < k ==> is_digit(#[trigger] s[t]),
        k == s.len() || !is_digit(s[k]),
    ensures
        digit_run_end(s, i) == k,
    decreases k - i,
{
    if i < k {
        assert(is_digit(s[i]));
        lemma_digit_run_end_at(s, i + 1, k);
    }
}

/// Bounds and digit-ness of the digit run.
proof fn lemma_digit_run_end_props(s: Seq<u8>, i: int)
    requires
        0 <= i <= s.len(),
    ensures
        i <= digit_run_end(s, i) <= s.len(),
        forall|t: int| i <= t < digit_run_end(s, i) ==> is_digit(#[trigger] s[t]),
        digit_run_end(s, i) == s.len() || !is_digit(s[digit_run_end(s, i)]),
    decreases s.len() - i,
{
    if i < s.len() && is_digit(s[i]) {
        lemma_digit_run_end_props(s, i + 1);
    }
}

/// Dropping trailing digits never makes the denoted number larger.
proof fn lemma_digits_prefix_le(s: Seq<u8>, k: int)
    requires
        0 <= k <= s.len(),
        forall|t: int| 0 <= t < s.len() ==> is_digit(#[trigger] s[t]),
    ensures
        digits_value(s.subrange(0, k)) <= digits_value(s),
    decreases s.len() - k,
{
    if k == s.len() {
        assert(s.subrange(0, k) =~= s);
    } else {
        let a = s.subrange(0, k);
        let b = s.subrange(0, k + 1);
        assert(b.drop_last() =~= a);
        assert(is_digit(s[k]) && b.last() == s[k]);
        assert forall|t: int| 0 <= t < a.len() implies is_digit(#[trigger] a[t]) by {
            assert(a[t] == s[t]);
        }
        lemma_digits_nonneg(a);
        assert(digits_value(b) == digits_value(a) * 10 + (b.last() - 48));
        lemma_digits_prefix_le(s, k + 1);
    }
}

/// Reads one canonical decimal number starting at `i`, returning its
/// value and the position after its digits.  It succeeds exactly on a
/// non-empty digit run that has no leading zero and denotes a value the
/// id type can hold.
fn parse_u64(bytes: &[u8], i: usize) -> (r: Option<(u64, usize)>)
    requires
        i <= bytes@.len(),
    ensures
        r matches Some((v, j)) ==> {
            &&& i < j <= bytes@.len()
            &&& j as int == digit_run_end(bytes@, i as int)
            &&& bytes@.subrange(i as int, j as int) == spec_dec_digits(v as int)
        },
        r is None ==> i >= bytes@.len() || !is_digit(bytes@[i as int]) || (bytes@[i as int] == 48u8 && i + 1
            < bytes@.len() && is_digit(bytes@[i + 1])) || digits_value(
            bytes@.subrange(i as int, digit_run_end(bytes@, i as int)),
        ) > u64::MAX,
{
    let n = bytes.len();
    if i >= n || bytes[i] < 48 || bytes[i] > 57 {
        return None;
    }
    if bytes[i] == 48 {
        // A leading zero is canonical only as the single digit 0.
        if i + 1 < n && bytes[i + 1] >= 48 && bytes[i + 1] <= 57 {
            return None;
        }
        proof {
            let s = bytes@.subrange(i as int, i + 1);
            assert(s =~= seq![48u8]);
            assert(is_canonical_digits(s));
            lemma_canonical_is_dec_digits(s);
            assert(digits_value(s.drop_last()) == 0);
            assert(digits_value(s) == 0);
            lemma_digit_run_end_at(bytes@, i as int, i + 1);
        }
        return Some((0, i + 1));
    }
    let mut acc: u64 = 0;
    let mut p: usize = i;
    while p < n && bytes[p] >= 48 && bytes[p] <= 57
        invariant
            i <= p <= n,
            n == bytes@.len(),
            bytes@[i as int] != 48u8,
            48 <= bytes@[i as int] <= 57,
            p > i ==> acc as int == digits_value(bytes@.subrange(i as int, p as int)),
            p == i ==> acc == 0u64,
            forall|t: int| i <= t < p ==> is_digit(#[trigger] bytes@[t]),
        decreases n - p,
    {
        let d = bytes[p] - 48;
        proof {
            let s2 = bytes@.subrange(i as int, p + 1 as int);
            assert(s2.drop_last() =~= bytes@.subrange(i as int, p as int));
            assert(s2.last() == bytes@[p as int]);
            if p == i {
                assert(digits_value(s2.drop_last()) == 0);
            }
            assert(digits_value(s2) == digits_value(s2.drop_last()) * 10 + (s2.last() - 48));
        }
        match acc.checked_mul(10) {
            Some(x) => match x.checked_add(d as u64) {
                Some(next) => {
                    acc = next;
                },
                None => {
                    proof {
                        lemma_run_value_exceeds(bytes@, i as int, p as int, acc as int * 10 + d);
                    }
                    return None;
                },
            },
            None => {
                proof {
                    lemma_run_value_exceeds(bytes@, i as int, p as int, acc as int * 10 + d);
                }
                return None;
            },
        }
        p += 1;
    }
    proof {
        let s = bytes@.subrange(i as int, p as int);
        assert(s[0] == bytes@[i as int]);
        assert(is_canonical_digits(s));
        lemma_canonical_is_dec_digits(s);
        lemma_digit_run_end_at(bytes@, i as int, p as int);
    }
    Some((acc, p))
}

/// Once a digit-run prefix already denotes more than the largest id, the
/// whole run does.
proof fn lemma_run_value_exceeds(s: Seq<u8>, i: int, p: int, prefix_value: int)
    requires
        0 <= i <= p < s.len(),
        forall|t: int| i <= t <= p ==> is_digit(#[trigger] s[t]),
        prefix_value == digits_value(s.subrange(i, p + 1)),
        prefix_value > u64::MAX,
    ensures
        digits_value(s.subrange(i, digit_run_end(s, i))) > u64::MAX,
{
    let e = digit_run_end(s, i);
    lemma_digit_run_end_props(s, i);
    assert(p + 1 <= e) by {
        if e <= p {
            assert(is_digit(s[e]));
        }
    }
    let run = s.subrange(i, e);
    assert forall|t: int| 0 <= t < run.len() implies is_digit(#[trigger] run[t]) by {
        assert(run[t] == s[i + t]);
    }
    assert(run.subrange(0, p + 1 - i) =~= s.subrange(i, p + 1));
    lemma_digits_prefix_le(run, p + 1 - i);
}

/// A string that can travel in the wire form without escaping: valid
/// text with no quote byte.
pub open spec fn plain_text(content: Seq<u8>) -> bool {
    valid_utf8(content) && !content.contains(34u8)
}

/// Every key and value in a tag list can travel unescaped.
pub open spec fn plain_pairs(tags: Seq<(Seq<u8>, Seq<u8>)>) -> bool {
    forall|i: int| 0 <= i < tags.len() ==> plain_text((#[trigger] tags[i]).0) && plain_text(tags[i].1)
}

/// Byte-level tag keys are pairwise distinct.
pub open spec fn unique_pair_keys(tags: Seq<(Seq<u8>, Seq<u8>)>) -> bool {
    forall|a: int, b: int| 0 <= a < b < tags.len() ==> (#[trigger] tags[a]).0 != (#[trigger] tags[b]).0
}

/// One candidate reading of `bytes` as a canonical encoding: the kind,
/// name, id and tag pairs, and whether the tags member is written out
/// (when it is not, the tag list is empty).
pub open spec fn canonical_wire_with(bytes: Seq<u8>, p: (bool, Seq<u8>, u64, Seq<(Seq<u8>, Seq<u8>)>, bool)) -> bool {
    &&& plain_text(p.1)
    &&& plain_pairs(p.3)
    &&& unique_pair_keys(p.3)
    &&& if p.4 {
        bytes == spec_encode_bytes(p.0, p.1, p.2, p.3)
    } else {
        p.3.len() == 0 && bytes == spec_encode_bytes_no_tags(p.0, p.1, p.2)
    }
}

/// The inputs decoding owes success on: the canonical encoding of a
/// metric whose name, tag keys and tag values are quote-free valid text
/// and whose tag keys are distinct — with the tags member present or,
/// for a metric without tags, absent.
pub open spec fn spec_canonical_wire(bytes: Seq<u8>) -> bool {
    exists|p: (bool, Seq<u8>, u64, Seq<(Seq<u8>, Seq<u8>)>, bool)| canonical_wire_with(bytes, p)
}

/// Where each region of a canonical encoding sits, through the tags
/// member's opening.
#[verifier::rlimit(60)]
proof fn lemma_canonical_layout(
    bytes: Seq<u8>,
    kind: bool,
    name: Seq<u8>,
    id: u64,
    tags: Seq<(Seq<u8>, Seq<u8>)>,
    with_tags: bool,
)
    requires
        with_tags ==> bytes == spec_encode_bytes(kind, name, id, tags),
        !with_tags ==> tags.len() == 0 && bytes == spec_encode_bytes_no_tags(kind, name, id),
    ensures
        ({
            let klen = spec_kind_bytes(kind).len() as int;
            let dlen = spec_dec_digits(id as int).len() as int;
            let plen = spec_pairs_bytes(tags).len() as int;
            let o2 = 9 + klen;
            let o3 = o2 + 9;
            let o4 = o3 + 2 + name.len();
            let o5 = o4 + 6;
            let o6 = o5 + dlen;
            &&& bytes.len() == o6 + (if with_tags { 11 + plen } else { 1int })
            &&& bytes.subrange(0, 9) == spec_lit_type()
            &&& bytes.subrange(9, o2) == spec_kind_bytes(kind)
            &&& bytes.subrange(o2, o3) == spec_lit_name()
            &&& bytes.subrange(o3, o4) == spec_quoted(name)
            &&& bytes.subrange(o4, o5) == spec_lit_id()
            &&& bytes.subrange(o5, o6) == spec_dec_digits(id as int)
            &&& bytes[o3] == 34u8
            &&& bytes[o4 - 1] == 34u8
            &&& forall|t: int| 0 <= t < name.len() ==> bytes[o3 + 1 + t] == #[trigger] name[t]
            &&& (!with_tags ==> bytes[o6] == 125u8)
            &&& (with_tags ==> bytes.subrange(o6, o6 + 9) == spec_lit_tags())
        }),
{
    let klen = spec_kind_bytes(kind).len() as int;
    let dlen = spec_dec_digits(id as int).len() as int;
    let o2 = 9 + klen;
    let o3 = o2 + 9;
    let o4 = o3 + 2 + name.len();
    let o5 = o4 + 6;
    let o6 = o5 + dlen;
    assert(spec_quoted(name).len() == 2 + name.len());
    assert(bytes.subrange(0, 9) =~= spec_lit_type());
    assert(bytes.subrange(9, o2) =~= spec_kind_bytes(kind));
    assert(bytes.subrange(o2, o3) =~= spec_lit_name());
    assert(bytes.subrange(o3, o4) =~= spec_quoted(name));
    assert(bytes.subrange(o4, o5) =~= spec_lit_id());
    assert(bytes.subrange(o5, o6) =~= spec_dec_digits(id as int));
    assert(bytes[o3] == spec_quoted(name)[0]);
    assert(bytes[o4 - 1] == spec_quoted(name)[1 + name.len() as int]);
    assert forall|t: int| 0 <= t < name.len() implies bytes[o3 + 1 + t] == #[trigger] name[t] by {
        assert(bytes[o3 + 1 + t] == spec_quoted(name)[1 + t]);
    }
    if with_tags {
        assert(bytes.subrange(o6, o6 + 9) =~= spec_lit_tags());
    }
}

/// Where the tags object's pairs and the closing braces sit.
#[verifier::rlimit(60)]
proof fn lemma_canonical_layout_pairs(
    bytes: Seq<u8>,
    kind: bool,
    name: Seq<u8>,
    id: u64,
    tags: Seq<(Seq<u8>, Seq<u8>)>,
)
    requires
        bytes == spec_encode_bytes(kind, name, id, tags),
    ensures
        ({
            let o6 = 9 + spec_kind_bytes(kind).len() as int + 9 + 2 + name.len() + 6 + spec_dec_digits(
                id as int,
            ).len() as int;
            let plen = spec_pairs_bytes(tags).len() as int;
            &&& bytes.subrange(o6 + 9, o6 + 9 + plen) == spec_pairs_bytes(tags)
            &&& bytes[o6 + 9 + plen] == 125u8
            &&& bytes[o6 + 10 + plen] == 125u8
            &&& bytes.len() == o6 + 11 + plen
        }),
{
    let o6 = 9 + spec_kind_bytes(kind).len() as int + 9 + 2 + name.len() + 6 + spec_dec_digits(
        id as int,
    ).len() as int;
    let plen = spec_pairs_bytes(tags).len() as int;
    assert(spec_quoted(name).len() == 2 + name.len());
    assert(bytes.subrange(o6 + 9, o6 + 9 + plen) =~= spec_pairs_bytes(tags));
}

/// The pieces the canonical encoding of `bytes` was built from, when
/// there is one.
spec fn canonical_parts(bytes: Seq<u8>) -> (bool, Seq<u8>, u64, Seq<(Seq<u8>, Seq<u8>)>, bool) {
    choose|p: (bool, Seq<u8>, u64, Seq<(Seq<u8>, Seq<u8>)>, bool)| canonical_wire_with(bytes, p)
}

/// A canonical wire encoding determines its pieces.
proof fn lemma_canonical_parts(bytes: Seq<u8>)
    requires
        spec_canonical_wire(bytes),
    ensures
        canonical_wire_with(bytes, canonical_parts(bytes)),
{
}

/// A canonical wire encoding opens with the type member.
#[verifier::rlimit(60)]
proof fn lemma_canonical_opening(bytes: Seq<u8>)
    requires
        spec_canonical_wire(bytes),
    ensures
        9 <= bytes.len(),
        bytes.subrange(0, 9) == spec_lit_type(),
        ({
            let (kind, name, id, htags, wt) = canonical_parts(bytes);
            &&& (kind ==> 16 <= bytes.len() && bytes.subrange(9, 16) == spec_kind_bytes(true))
            &&& (!kind ==> 18 <= bytes.len() && bytes.subrange(9, 18) == spec_kind_bytes(false))
        }),
{
    lemma_canonical_parts(bytes);
    let (kind, name, id, htags, wt) = canonical_parts(bytes);
    lemma_canonical_layout(bytes, kind, name, id, htags, wt);
}

/// Once the kind word is matched, the hypothesis pieces line up with the
/// parsed prefix: the kind agrees and every later region sits at an
/// offset the parser will reach.
#[verifier::rlimit(100)]
#[verifier::spinoff_prover]
proof fn lemma_canonical_after_kind(bytes: Seq<u8>, is_counter: bool, i2: int)
    requires
        spec_canonical_wire(bytes),
        bytes.subrange(0, i2) == spec_lit_type() + spec_kind_bytes(is_counter),
        i2 == 9 + spec_kind_bytes(is_counter).len(),
    ensures
        ({
            let (kind, name, id, htags, wt) = canonical_parts(bytes);
            let o3 = i2 + 9;
            let o4 = o3 + 2 + name.len();
            let o5 = o4 + 6;
            let o6 = o5 + spec_dec_digits(id as int).len();
            &&& kind == is_counter
            &&& plain_text(name)
            &&& bytes.len() >= o6 + 1
            &&& bytes.subrange(i2, o3) == spec_lit_name()
            &&& bytes[o3] == 34u8
            &&& bytes[o4 - 1] == 34u8
            &&& (forall|t: int| 0 <= t < name.len() ==> bytes[o3 + 1 + t] == #[trigger] name[t])
            &&& bytes.subrange(o4, o5) == spec_lit_id()
            &&& bytes.subrange(o5, o6) == spec_dec_digits(id as int)
            &&& (!wt ==> bytes[o6] == 125u8)
            &&& (wt ==> bytes.subrange(o6, o6 + 9) == spec_lit_tags())
        }),
{
    lemma_canonical_parts(bytes);
    let (kind, name, id, htags, wt) = canonical_parts(bytes);
    lemma_canonical_layout(bytes, kind, name, id, htags, wt);
    let klen = spec_kind_bytes(kind).len() as int;
    assert(bytes[9] == bytes.subrange(9, 9 + klen)[0]);
    assert(bytes[9] == spec_kind_bytes(kind)[0]);
    assert(bytes[9] == bytes.subrange(0, i2)[9]);
    assert(bytes[9] == spec_kind_bytes(is_counter)[0]);
    assert(spec_kind_bytes(true)[0] == 99u8 && spec_kind_bytes(false)[0] == 104u8);
    assert(kind == is_counter);
    assert(9 + klen == i2);
    let o3 = i2 + 9;
    let o4 = o3 + 2 + name.len();
    let o5 = o4 + 6;
    let o6 = o5 + spec_dec_digits(id as int).len();
    assert(bytes.len() >= o6 + 1);
    assert(bytes.subrange(i2, o3) == spec_lit_name());
    assert(bytes[o3] == 34u8);
    assert(bytes[o4 - 1] == 34u8);
    assert(forall|t: int| 0 <= t < name.len() ==> bytes[o3 + 1 + t] == #[trigger] name[t]);
    assert(bytes.subrange(o4, o5) == spec_lit_id());
    assert(bytes.subrange(o5, o6) == spec_dec_digits(id as int));
    assert(!wt ==> bytes[o6] == 125u8);
    assert(wt ==> bytes.subrange(o6, o6 + 9) == spec_lit_tags());
}

/// Once the name string is parsed, its end and contents agree with the
/// hypothesis pieces: the scan stopped at the name's closing quote.
#[verifier::rlimit(40)]
proof fn lemma_canonical_pin_name(bytes: Seq<u8>, is_counter: bool, i2: int, i3: int, content: Seq<u8>, i4: int)
    requires
        spec_canonical_wire(bytes),
        bytes.subrange(0, i2) == spec_lit_type() + spec_kind_bytes(is_counter),
        i2 == 9 + spec_kind_bytes(is_counter).len(),
        i3 == i2 + 9,
        i3 + 2 <= i4 <= bytes.len(),
        content == bytes.subrange(i3 + 1, i4 - 1),
        !content.contains(34u8),
        bytes[i4 - 1] == 34u8,
    ensures
        ({
            let (kind, name, id, htags, wt) = canonical_parts(bytes);
            i4 == i3 + 2 + name.len() && content == name
        }),
{
    lemma_canonical_after_kind(bytes, is_counter, i2);
    let (kind, name, id, htags, wt) = canonical_parts(bytes);
    let o4 = i3 + 2 + name.len();
    if i4 < o4 {
        let t = i4 - 1 - i3 - 1;
        assert(0 <= t < name.len());
        assert(bytes[i3 + 1 + t] == name[t]);
        assert(name[t] == 34u8);
        assert(name.contains(34u8)) by {
            assert(name[t] == 34u8);
        }
        assert(false);
    }
    if i4 > o4 {
        let t = o4 - 1 - (i3 + 1);
        assert(0 <= t < content.len());
        assert(content[t] == bytes[o4 - 1]);
        assert(content.contains(34u8)) by {
            assert(content[t] == 34u8);
        }
        assert(false);
    }
    assert(i4 == o4);
    assert(content.len() == name.len());
    assert forall|t: int| 0 <= t < name.len() implies content[t] == name[t] by {
        assert(content[t] == bytes[i3 + 1 + t]);
    }
    assert(content =~= name);
}

/// A canonical digit string sitting right before a non-digit is exactly
/// the digit run at its position.
proof fn lemma_run_end_of_digits(bytes: Seq<u8>, i5: int, digits: Seq<u8>)
    requires
        0 <= i5,
        i5 + digits.len() < bytes.len(),
        bytes.subrange(i5, i5 + digits.len()) == digits,
        is_canonical_digits(digits),
        !is_digit(bytes[i5 + digits.len()]),
    ensures
        digit_run_end(bytes, i5) == i5 + digits.len(),
        digits_value(bytes.subrange(i5, i5 + digits.len())) == digits_value(digits),
{
    let e = i5 + digits.len() as int;
    assert forall|t: int| i5 <= t < e implies is_digit(#[trigger] bytes[t]) by {
        assert(bytes[t] == bytes.subrange(i5, e)[t - i5]);
        assert(bytes.subrange(i5, e)[t - i5] == digits[t - i5]);
    }
    lemma_digit_run_end_at(bytes, i5, e);
}

/// Once the id digits are parsed, their end agrees with the hypothesis
/// pieces, which pins where the rest of the object sits.
#[verifier::rlimit(100)]
#[verifier::spinoff_prover]
proof fn lemma_canonical_pin_digits(bytes: Seq<u8>, i5: int, i6: int)
    requires
        spec_canonical_wire(bytes),
        i5 == 9 + spec_kind_bytes(canonical_parts(bytes).0).len() + 9 + 2 + canonical_parts(bytes).1.len() + 6,
        i6 == digit_run_end(bytes, i5),
    ensures
        ({
            let (kind, name, id, htags, wt) = canonical_parts(bytes);
            &&& i6 == i5 + spec_dec_digits(id as int).len()
            &&& bytes.subrange(i5, i6) == spec_dec_digits(id as int)
            &&& digits_value(bytes.subrange(i5, i6)) == id
            &&& bytes.len() == i6 + (if wt {
                11 + spec_pairs_bytes(htags).len() as int
            } else {
                1int
            })
            &&& (!wt ==> bytes[i6] == 125u8)
            &&& (wt ==> bytes.subrange(i6, i6 + 9) == spec_lit_tags())
        }),
{
    lemma_canonical_parts(bytes);
    let (kind, name, id, htags, wt) = canonical_parts(bytes);
    lemma_dec_digits_canonical(id as int);
    let digits = spec_dec_digits(id as int);
    let dlen = digits.len() as int;
    assert(spec_quoted(name).len() == 2 + name.len());
    assert(bytes.subrange(i5, i5 + dlen) =~= digits);
    assert(bytes.len() == i5 + dlen + (if wt {
        11 + spec_pairs_bytes(htags).len() as int
    } else {
        1int
    }));
    assert(!is_digit(bytes[i5 + dlen])) by {
        if wt {
            assert(bytes.subrange(i5 + dlen, i5 + dlen + 9) =~= spec_lit_tags());
            assert(bytes[i5 + dlen] == bytes.subrange(i5 + dlen, i5 + dlen + 9)[0]);
            assert(bytes[i5 + dlen] == 44u8);
        } else {
            assert(bytes[i5 + dlen] == 125u8);
        }
    }
    lemma_run_end_of_digits(bytes, i5, digits);
    assert(i6 == i5 + dlen);
    assert(wt ==> bytes.subrange(i6, i6 + 9) =~= spec_lit_tags());
}

/// Where the tags object's pairs and the closing braces sit, once the
/// digits' end is pinned.
#[verifier::rlimit(100)]
#[verifier::spinoff_prover]
proof fn lemma_canonical_tail(bytes: Seq<u8>, i5: int, i6: int)
    requires
        spec_canonical_wire(bytes),
        i5 == 9 + spec_kind_bytes(canonical_parts(bytes).0).len() + 9 + 2 + canonical_parts(bytes).1.len()
            + 6,
        i6 == i5 + spec_dec_digits(canonical_parts(bytes).2 as int).len(),
        canonical_parts(bytes).4,
    ensures
        ({
            let (kind, name, id, htags, wt) = canonical_parts(bytes);
            let plen = spec_pairs_bytes(htags).len() as int;
            &&& bytes.subrange(i6 + 9, i6 + 9 + plen) == spec_pairs_bytes(htags)
            &&& bytes[i6 + 9 + plen] == 125u8
            &&& bytes[i6 + 10 + plen] == 125u8
            &&& bytes.len() == i6 + 11 + plen
        }),
{
    lemma_canonical_parts(bytes);
    let (kind, name, id, htags, wt) = canonical_parts(bytes);
    lemma_canonical_layout(bytes, kind, name, id, htags, wt);
}

/// The exec form of `{"type":"`.
fn lit_type_vec() -> (r: Vec<u8>)
    ensures
        r@ == spec_lit_type(),
{
    let mut r: Vec<u8> = Vec::new();
    push_lit_type(&mut r);
    assert(r@ =~= spec_lit_type());
    r
}

/// The exec form of the kind word.
fn kind_vec(is_counter: bool) -> (r: Vec<u8>)
    ensures
        r@ == spec_kind_bytes(is_counter),
{
    let mut r: Vec<u8> = Vec::new();
    push_kind(&mut r, is_counter);
    assert(r@ =~= spec_kind_bytes(is_counter));
    r
}

/// The exec form of `","name":`.
fn lit_name_vec() -> (r: Vec<u8>)
    ensures
        r@ == spec_lit_name(),
{
    let mut r: Vec<u8> = Vec::new();
    push_lit_name(&mut r);
    assert(r@ =~= spec_lit_name());
    r
}

/// The exec form of `,"id":`.
fn lit_id_vec() -> (r: Vec<u8>)
    ensures
        r@ == spec_lit_id(),
{
    let mut r: Vec<u8> = Vec::new();
    push_lit_id(&mut r);
    assert(r@ =~= spec_lit_id());
    r
}

/// The exec form of `,"tags":{`.
fn lit_tags_vec() -> (r: Vec<u8>)
    ensures
        r@ == spec_lit_tags(),
{
    let mut r: Vec<u8> = Vec::new();
    push_lit_tags(&mut r);
    assert(r@ =~= spec_lit_tags());
    r
}

/// Reads the object through the id member: the kind, the raw name
/// bytes, the id and the positions where the name string and the digits
/// ended.  A failure means the input is not a canonical wire encoding.
#[verifier::rlimit(100)]
fn parse_header(bytes: &[u8]) -> (r: Result<(bool, Vec<u8>, u64, usize, usize), DecodeError>)
    ensures
        r matches Ok(h) ==> ({
            let (is_counter, name_bytes, id, i4, i6) = h;
            let i2: int = 9 + spec_kind_bytes(is_counter).len() as int;
            let i3: int = i2 + 9;
            let i5: int = i4 as int + 6;
            &&& parsed_name_region(bytes@, is_counter, i2, i3, name_bytes@, i4 as int)
            &&& i5 == i4 as int + 6
            &&& i6 as int == digit_run_end(bytes@, i4 as int + 6)
            &&& i6 <= bytes@.len()
            &&& bytes@.subrange(0, i6 as int) == spec_lit_type() + spec_kind_bytes(is_counter)
                + spec_lit_name() + spec_quoted(name_bytes@) + spec_lit_id() + spec_dec_digits(id as int)
        }),
        r is Err ==> !spec_canonical_wire(bytes@),
{
    let n = bytes.len();
    let t1 = lit_type_vec();
    let i1 = match match_lit(bytes, 0, t1.as_slice()) {
        Some(j) => j,
        None => {
            proof {
                lemma_reject_opening(bytes@);
            }
            return Err(DecodeError::Malformed);
        },
    };
    let cword = kind_vec(true);
    let hword = kind_vec(false);
    let (is_counter, i2) = match match_lit(bytes, i1, cword.as_slice()) {
        Some(j) => (true, j),
        None => match match_lit(bytes, i1, hword.as_slice()) {
            Some(j) => (false, j),
            None => {
                proof {
                    lemma_reject_kind(bytes@);
                }
                return Err(DecodeError::Malformed);
            },
        },
    };
    assert(bytes@.subrange(0, i2 as int) =~= spec_lit_type() + spec_kind_bytes(is_counter));
    let t2 = lit_name_vec();
    let i3 = match match_lit(bytes, i2, t2.as_slice()) {
        Some(j) => j,
        None => {
            proof {
                lemma_reject_name_lit(bytes@, is_counter, i2 as int);
            }
            return Err(DecodeError::Malformed);
        },
    };
    assert(bytes@.subrange(0, i3 as int) =~= bytes@.subrange(0, i2 as int) + bytes@.subrange(
        i2 as int,
        i3 as int,
    ));
    let (name_bytes, i4) = match parse_string(bytes, i3) {
        Some(pair) => pair,
        None => {
            proof {
                lemma_reject_name_string(bytes@, is_counter, i2 as int, i3 as int);
            }
            return Err(DecodeError::Malformed);
        },
    };
    assert(bytes@.subrange(0, i4 as int) =~= bytes@.subrange(0, i3 as int) + bytes@.subrange(
        i3 as int,
        i4 as int,
    ));
    let t3 = lit_id_vec();
    let i5 = match match_lit(bytes, i4, t3.as_slice()) {
        Some(j) => j,
        None => {
            proof {
                lemma_reject_id_lit(bytes@, is_counter, i2 as int, i3 as int, name_bytes@, i4 as int);
            }
            return Err(DecodeError::Malformed);
        },
    };
    assert(bytes@.subrange(0, i5 as int) =~= bytes@.subrange(0, i4 as int) + bytes@.subrange(
        i4 as int,
        i5 as int,
    ));
    let (id, i6) = match parse_u64(bytes, i5) {
        Some(pair) => pair,
        None => {
            proof {
                lemma_reject_digits(bytes@, is_counter, i2 as int, i3 as int, name_bytes@, i4 as int, i5 as int);
            }
            return Err(DecodeError::Malformed);
        },
    };
    assert(bytes@.subrange(0, i6 as int) =~= bytes@.subrange(0, i5 as int) + bytes@.subrange(
        i5 as int,
        i6 as int,
    ));
    proof {
        assert(bytes@.subrange(0, i6 as int) =~= spec_lit_type() + spec_kind_bytes(is_counter)
            + spec_lit_name() + spec_quoted(name_bytes@) + spec_lit_id() + spec_dec_digits(id as int));
    }
    Ok((is_counter, name_bytes, id, i4, i6))
}

/// The parsed prefix facts up to the end of the name string.
spec fn parsed_name_region(bytes: Seq<u8>, is_counter: bool, i2: int, i3: int, content: Seq<u8>, i4: int) -> bool {
    &&& bytes.subrange(0, i2) == spec_lit_type() + spec_kind_bytes(is_counter)
    &&& i2 == 9 + spec_kind_bytes(is_counter).len()
    &&& i3 == i2 + 9
    &&& i3 + 2 <= i4 <= bytes.len()
    &&& content == bytes.subrange(i3 + 1, i4 - 1)
    &&& !content.contains(34u8)
    &&& bytes[i4 - 1] == 34u8
}

/// Input that does not open with the type member is not a canonical wire
/// encoding.
proof fn lemma_reject_opening(bytes: Seq<u8>)
    requires
        !(9 <= bytes.len() && bytes.subrange(0, 9) == spec_lit_type()),
    ensures
        !spec_canonical_wire(bytes),
{
    if spec_canonical_wire(bytes) {
        lemma_canonical_opening(bytes);
        assert(false);
    }
}

/// Input whose kind word is neither `counter` nor `histogram` is not a
/// canonical wire encoding.
proof fn lemma_reject_kind(bytes: Seq<u8>)
    requires
        !(16 <= bytes.len() && bytes.subrange(9, 16) == spec_kind_bytes(true)),
        !(18 <= bytes.len() && bytes.subrange(9, 18) == spec_kind_bytes(false)),
    ensures
        !spec_canonical_wire(bytes),
{
    if spec_canonical_wire(bytes) {
        lemma_canonical_opening(bytes);
        assert(false);
    }
}

/// Input without the name member after the kind word is not a canonical wire
/// encoding.
proof fn lemma_reject_name_lit(bytes: Seq<u8>, is_counter: bool, i2: int)
    requires
        bytes.subrange(0, i2) == spec_lit_type() + spec_kind_bytes(is_counter),
        i2 == 9 + spec_kind_bytes(is_counter).len(),
        !(i2 + 9 <= bytes.len() && bytes.subrange(i2, i2 + 9) == spec_lit_name()),
    ensures
        !spec_canonical_wire(bytes),
{
    if spec_canonical_wire(bytes) {
        lemma_canonical_after_kind(bytes, is_counter, i2);
        assert(false);
    }
}

/// Input without a well-formed name string is not a canonical wire encoding.
#[verifier::rlimit(100)]
#[verifier::spinoff_prover]
proof fn lemma_reject_name_string(bytes: Seq<u8>, is_counter: bool, i2: int, i3: int)
    requires
        bytes.subrange(0, i2) == spec_lit_type() + spec_kind_bytes(is_counter),
        i2 == 9 + spec_kind_bytes(is_counter).len(),
        i3 == i2 + 9,
        i3 >= bytes.len() || bytes[i3] != 34u8 || (forall|p: int|
            i3 < p < bytes.len() ==> bytes[p] != 34u8),
    ensures
        !spec_canonical_wire(bytes),
{
    if spec_canonical_wire(bytes) {
        lemma_canonical_after_kind(bytes, is_counter, i2);
        let (kind, name, id, htags, wt) = canonical_parts(bytes);
        let o4 = i3 + 2 + name.len();
        assert(bytes[i3] == 34u8);
        assert(bytes[o4 - 1] == 34u8);
        assert(i3 < o4 - 1 < bytes.len());
        assert(false);
    }
}

/// Input without the id member after the name string is not a canonical wire
/// encoding.
#[verifier::rlimit(100)]
#[verifier::spinoff_prover]
proof fn lemma_reject_id_lit(bytes: Seq<u8>, is_counter: bool, i2: int, i3: int, content: Seq<u8>, i4: int)
    requires
        parsed_name_region(bytes, is_counter, i2, i3, content, i4),
        !(i4 + 6 <= bytes.len() && bytes.subrange(i4, i4 + 6) == spec_lit_id()),
    ensures
        !spec_canonical_wire(bytes),
{
    if spec_canonical_wire(bytes) {
        lemma_canonical_pin_name(bytes, is_counter, i2, i3, content, i4);
        lemma_canonical_after_kind(bytes, is_counter, i2);
        assert(false);
    }
}

/// Input without a canonical id number is not a canonical wire encoding.
#[verifier::rlimit(100)]
#[verifier::spinoff_prover]
proof fn lemma_reject_digits(bytes: Seq<u8>, is_counter: bool, i2: int, i3: int, content: Seq<u8>, i4: int, i5: int)
    requires
        parsed_name_region(bytes, is_counter, i2, i3, content, i4),
        i5 == i4 + 6,
        i5 >= bytes.len() || !is_digit(bytes[i5]) || (bytes[i5] == 48u8 && i5 + 1 < bytes.len() && is_digit(
            bytes[i5 + 1],
        )) || digits_value(bytes.subrange(i5, digit_run_end(bytes, i5))) > u64::MAX,
    ensures
        !spec_canonical_wire(bytes),
{
    if spec_canonical_wire(bytes) {
        lemma_canonical_pin_name(bytes, is_counter, i2, i3, content, i4);
        lemma_canonical_after_kind(bytes, is_counter, i2);
        let (kind, name, id, htags, wt) = canonical_parts(bytes);
        let e = digit_run_end(bytes, i5);
        lemma_canonical_pin_digits(bytes, i5, e);
        lemma_dec_digits_canonical(id as int);
        let digits = spec_dec_digits(id as int);
        assert(bytes[i5] == bytes.subrange(i5, e)[0]);
        assert(is_digit(bytes[i5]));
        if bytes[i5] == 48u8 {
            assert(digits[0] == 48u8);
            assert(digits.len() == 1);
            assert(e == i5 + 1);
            if i5 + 1 < bytes.len() && is_digit(bytes[i5 + 1]) {
                if wt {
                    assert(bytes[e] == bytes.subrange(e, e + 9)[0]);
                }
                assert(!is_digit(bytes[e]));
            }
        }
        assert(digits_value(bytes.subrange(i5, e)) == id);
        assert(false);
    }
}

/// Input with trailing bytes after the object's closing brace is not a
/// canonical wire encoding.
#[verifier::rlimit(100)]
#[verifier::spinoff_prover]
proof fn lemma_reject_trailing(bytes: Seq<u8>, is_counter: bool, i2: int, i3: int, content: Seq<u8>, i4: int, i5: int, i6: int)
    requires
        parsed_name_region(bytes, is_counter, i2, i3, content, i4),
        i5 == i4 + 6,
        i6 == digit_run_end(bytes, i5),
        i6 < bytes.len() && bytes[i6] == 125u8,
        i6 + 1 != bytes.len(),
    ensures
        !spec_canonical_wire(bytes),
{
    if spec_canonical_wire(bytes) {
        lemma_canonical_pin_name(bytes, is_counter, i2, i3, content, i4);
        lemma_canonical_after_kind(bytes, is_counter, i2);
        lemma_canonical_pin_digits(bytes, i5, i6);
        let (kind, name, id, htags, wt) = canonical_parts(bytes);
        if wt {
            assert(bytes[i6] == bytes.subrange(i6, i6 + 9)[0]);
            assert(bytes[i6] == 44u8);
        }
        assert(false);
    }
}

/// Input that closes neither the object nor opens a tags member after
/// the id is not a canonical wire encoding.
#[verifier::rlimit(100)]
#[verifier::spinoff_prover]
proof fn lemma_reject_tags_lit(bytes: Seq<u8>, is_counter: bool, i2: int, i3: int, content: Seq<u8>, i4: int, i5: int, i6: int)
    requires
        parsed_name_region(bytes, is_counter, i2, i3, content, i4),
        i5 == i4 + 6,
        i6 == digit_run_end(bytes, i5),
        !(i6 < bytes.len() && bytes[i6] == 125u8),
        !(i6 + 9 <= bytes.len() && bytes.subrange(i6, i6 + 9) == spec_lit_tags()),
    ensures
        !spec_canonical_wire(bytes),
{
    if spec_canonical_wire(bytes) {
        lemma_canonical_pin_name(bytes, is_counter, i2, i3, content, i4);
        lemma_canonical_after_kind(bytes, is_counter, i2);
        lemma_canonical_pin_digits(bytes, i5, i6);
        let (kind, name, id, htags, wt) = canonical_parts(bytes);
        if !wt {
            assert(bytes[i6] == 125u8 && i6 < bytes.len());
        }
        assert(false);
    }
}

/// Once the object continues past the id without an immediate closing
/// brace, a canonical encoding must carry the tags member.
#[verifier::rlimit(100)]
#[verifier::spinoff_prover]
proof fn lemma_reject_no_member(bytes: Seq<u8>, is_counter: bool, i2: int, i3: int, content: Seq<u8>, i4: int, i5: int, i6: int)
    requires
        parsed_name_region(bytes, is_counter, i2, i3, content, i4),
        i5 == i4 + 6,
        i6 == digit_run_end(bytes, i5),
        !(i6 < bytes.len() && bytes[i6] == 125u8),
    ensures
        spec_canonical_wire(bytes) ==> canonical_parts(bytes).4,
{
    if spec_canonical_wire(bytes) {
        lemma_canonical_pin_name(bytes, is_counter, i2, i3, content, i4);
        lemma_canonical_after_kind(bytes, is_counter, i2);
        lemma_canonical_pin_digits(bytes, i5, i6);
        let (kind, name, id, htags, wt) = canonical_parts(bytes);
        if !wt {
            assert(bytes[i6] == 125u8 && i6 < bytes.len());
            assert(false);
        }
    }
}

/// Where a canonical encoding carries a tags member, the bytes after the
/// member's opening brace form a pairs region.
#[verifier::rlimit(100)]
#[verifier::spinoff_prover]
proof fn lemma_pairs_region_at(
    bytes: Seq<u8>,
    is_counter: bool,
    i2: int,
    i3: int,
    content: Seq<u8>,
    i4: int,
    i5: int,
    i6: int,
    i7: int,
)
    requires
        parsed_name_region(bytes, is_counter, i2, i3, content, i4),
        i5 == i4 + 6,
        i6 == digit_run_end(bytes, i5),
        i7 == i6 + 9,
        spec_canonical_wire(bytes),
        canonical_parts(bytes).4,
    ensures
        pairs_region(
            bytes,
            i7,
            canonical_parts(bytes).3,
            i7 + spec_pairs_bytes(canonical_parts(bytes).3).len(),
        ),
{
    lemma_canonical_pin_name(bytes, is_counter, i2, i3, content, i4);
    lemma_canonical_after_kind(bytes, is_counter, i2);
    lemma_canonical_pin_digits(bytes, i5, i6);
    lemma_canonical_tail(bytes, i5, i6);
    lemma_canonical_parts(bytes);
}

/// Input that does not close the whole object right after the tags
/// object is not a canonical wire encoding.
#[verifier::rlimit(100)]
#[verifier::spinoff_prover]
proof fn lemma_reject_close(bytes: Seq<u8>, is_counter: bool, i2: int, i3: int, content: Seq<u8>, i4: int, i5: int, i6: int, i7: int, pos: int)
    requires
        parsed_name_region(bytes, is_counter, i2, i3, content, i4),
        i5 == i4 + 6,
        i6 == digit_run_end(bytes, i5),
        !(i6 < bytes.len() && bytes[i6] == 125u8),
        i7 == i6 + 9,
        spec_canonical_wire(bytes) && canonical_parts(bytes).4 ==> pos == i7 + spec_pairs_bytes(
            canonical_parts(bytes).3,
        ).len() + 1,
        !(pos < bytes.len() && bytes[pos] == 125u8 && pos + 1 == bytes.len()),
    ensures
        !spec_canonical_wire(bytes),
{
    if spec_canonical_wire(bytes) {
        lemma_canonical_pin_name(bytes, is_counter, i2, i3, content, i4);
        lemma_canonical_after_kind(bytes, is_counter, i2);
        lemma_canonical_pin_digits(bytes, i5, i6);
        lemma_reject_no_member(bytes, is_counter, i2, i3, content, i4, i5, i6);
        let (kind, name, id, htags, wt) = canonical_parts(bytes);
        assert(wt);
        lemma_canonical_tail(bytes, i5, i6);
        let plen = spec_pairs_bytes(htags).len() as int;
        assert(pos == i6 + 10 + plen);
        assert(bytes[pos] == 125u8);
        assert(pos + 1 == bytes.len());
        assert(false);
    }
}

/// A name region that is not valid text cannot come from a canonical
/// wire encoding.
#[verifier::rlimit(100)]
#[verifier::spinoff_prover]
proof fn lemma_reject_text(bytes: Seq<u8>, is_counter: bool, i2: int, i3: int, content: Seq<u8>, i4: int)
    requires
        parsed_name_region(bytes, is_counter, i2, i3, content, i4),
        !valid_utf8(content),
    ensures
        !spec_canonical_wire(bytes),
{
    if spec_canonical_wire(bytes) {
        lemma_canonical_pin_name(bytes, is_counter, i2, i3, content, i4);
        lemma_canonical_parts(bytes);
        assert(false);
    }
}

/// The tag pairs joined with commas, unfolded from the front.
pub open spec fn pairs_tail_bytes(tags: Seq<(Seq<u8>, Seq<u8>)>) -> Seq<u8>
    decreases tags.len(),
{
    if tags.len() == 0 {
        Seq::empty()
    } else if tags.len() == 1 {
        spec_pair_bytes(tags[0].0, tags[0].1)
    } else {
        spec_pair_bytes(tags[0].0, tags[0].1) + seq![44u8] + pairs_tail_bytes(tags.drop_first())
    }
}

/// Appending one more pair appends a comma and that pair.
proof fn lemma_tail_push(tags: Seq<(Seq<u8>, Seq<u8>)>, x: (Seq<u8>, Seq<u8>))
    requires
        tags.len() >= 1,
    ensures
        pairs_tail_bytes(tags.push(x)) == pairs_tail_bytes(tags) + seq![44u8] + spec_pair_bytes(x.0, x.1),
    decreases tags.len(),
{
    if tags.len() == 1 {
        assert(tags.push(x).drop_first() =~= seq![x]);
        assert(pairs_tail_bytes(seq![x]) == spec_pair_bytes(x.0, x.1));
        assert(tags.push(x)[0] == tags[0]);
    } else {
        assert(tags.push(x).drop_first() =~= tags.drop_first().push(x));
        lemma_tail_push(tags.drop_first(), x);
        assert(tags.push(x)[0] == tags[0]);
        assert(pairs_tail_bytes(tags.push(x)) == spec_pair_bytes(tags[0].0, tags[0].1) + seq![44u8]
            + pairs_tail_bytes(tags.drop_first().push(x)));
        assert(pairs_tail_bytes(tags) + seq![44u8] + spec_pair_bytes(x.0, x.1) =~= spec_pair_bytes(
            tags[0].0,
            tags[0].1,
        ) + seq![44u8] + (pairs_tail_bytes(tags.drop_first()) + seq![44u8] + spec_pair_bytes(x.0, x.1)));
    }
}

/// The back-recursive and front-recursive renderings of the tags object
/// agree.
proof fn lemma_pairs_tail_eq(tags: Seq<(Seq<u8>, Seq<u8>)>)
    ensures
        spec_pairs_bytes(tags) == pairs_tail_bytes(tags),
    decreases tags.len(),
{
    if tags.len() >= 2 {
        lemma_pairs_tail_eq(tags.drop_last());
        lemma_tail_push(tags.drop_last(), tags.last());
        assert(tags.drop_last().push(tags.last()) =~= tags);
    }
}

/// A non-empty tags object's rendering starts with a quote.
proof fn lemma_pairs_first(tags: Seq<(Seq<u8>, Seq<u8>)>)
    requires
        tags.len() > 0,
    ensures
        spec_pairs_bytes(tags).len() >= 5,
        spec_pairs_bytes(tags)[0] == 34u8,
    decreases tags.len(),
{
    if tags.len() == 1 {
        assert(spec_pairs_bytes(tags)[0] == spec_pair_bytes(tags[0].0, tags[0].1)[0]);
    } else {
        lemma_pairs_first(tags.drop_last());
        assert(spec_pairs_bytes(tags)[0] == spec_pairs_bytes(tags.drop_last())[0]);
    }
}

/// A quote-delimited scan that stopped at the first quote found exactly
/// the expected quote-free content.
#[verifier::rlimit(40)]
proof fn lemma_string_scan_stops(bytes: Seq<u8>, start: int, content: Seq<u8>, j: int, expected: Seq<u8>)
    requires
        0 <= start,
        start + 2 <= j <= bytes.len(),
        content == bytes.subrange(start + 1, j - 1),
        !content.contains(34u8),
        bytes[j - 1] == 34u8,
        !expected.contains(34u8),
        start + 2 + expected.len() <= bytes.len(),
        forall|t: int| 0 <= t < expected.len() ==> bytes[start + 1 + t] == #[trigger] expected[t],
        bytes[start + 1 + expected.len()] == 34u8,
    ensures
        j == start + 2 + expected.len(),
        content == expected,
{
    let e = start + 2 + expected.len() as int;
    if j < e {
        let t = j - 1 - start - 1;
        assert(0 <= t < expected.len());
        assert(bytes[start + 1 + t] == expected[t]);
        assert(expected[t] == 34u8);
        assert(expected.contains(34u8)) by {
            assert(expected[t] == 34u8);
        }
        assert(false);
    }
    if j > e {
        let t = e - 1 - (start + 1);
        assert(0 <= t < content.len());
        assert(content[t] == bytes[e - 1]);
        assert(content.contains(34u8)) by {
            assert(content[t] == 34u8);
        }
        assert(false);
    }
    assert(content.len() == expected.len());
    assert forall|t: int| 0 <= t < expected.len() implies content[t] == expected[t] by {
        assert(content[t] == bytes[start + 1 + t]);
    }
    assert(content =~= expected);
}

/// Where the first pair of a comma-joined run sits, and what follows it.
#[verifier::rlimit(60)]
proof fn lemma_pin_pair(bytes: Seq<u8>, pos: int, q: int, rest: Seq<(Seq<u8>, Seq<u8>)>)
    requires
        rest.len() > 0,
        0 <= pos <= q <= bytes.len(),
        bytes.subrange(pos, q) == pairs_tail_bytes(rest),
    ensures
        ({
            let key = rest[0].0;
            let value = rest[0].1;
            let pend = pos + 5 + key.len() + value.len();
            &&& pend <= q
            &&& bytes[pos] == 34u8
            &&& (forall|t: int| 0 <= t < key.len() ==> bytes[pos + 1 + t] == #[trigger] key[t])
            &&& bytes[pos + 1 + key.len()] == 34u8
            &&& bytes[pos + 2 + key.len()] == 58u8
            &&& bytes[pos + 3 + key.len()] == 34u8
            &&& (forall|t: int| 0 <= t < value.len() ==> bytes[pos + 4 + key.len() + t] == #[trigger] value[t])
            &&& bytes[pend - 1] == 34u8
            &&& (rest.len() == 1 ==> pend == q)
            &&& (rest.len() > 1 ==> pend + 1 < q && bytes[pend] == 44u8 && bytes.subrange(pend + 1, q)
                == pairs_tail_bytes(rest.drop_first()))
        }),
{
    let key = rest[0].0;
    let value = rest[0].1;
    let plen = 5 + key.len() as int + value.len() as int;
    let pend = pos + plen;
    let pair = spec_pair_bytes(key, value);
    let run = pairs_tail_bytes(rest);
    assert(pair.len() == plen);
    if rest.len() == 1 {
        assert(run == pair);
        assert(q - pos == plen);
    } else {
        assert(run == pair + seq![44u8] + pairs_tail_bytes(rest.drop_first()));
        assert(q - pos == run.len());
        assert(run.len() == plen + 1 + pairs_tail_bytes(rest.drop_first()).len());
    }
    assert(pend <= q);
    assert forall|t: int| 0 <= t < plen implies bytes[pos + t] == #[trigger] pair[t] by {
        assert(bytes[pos + t] == bytes.subrange(pos, q)[t]);
        assert(bytes.subrange(pos, q)[t] == run[t]);
        assert(run[t] == pair[t]);
    }
    assert(bytes.subrange(pos, pend) =~= pair);
    assert(bytes[pos] == pair[0]);
    assert forall|t: int| 0 <= t < key.len() implies bytes[pos + 1 + t] == #[trigger] key[t] by {
        assert(bytes[pos + 1 + t] == pair[1 + t]);
        assert(pair[1 + t] == spec_quoted(key)[1 + t]);
    }
    assert(bytes[pos + 1 + key.len()] == pair[1 + key.len() as int]);
    assert(pair[1 + key.len() as int] == spec_quoted(key)[1 + key.len() as int]);
    assert(bytes[pos + 2 + key.len()] == pair[2 + key.len() as int]);
    assert(bytes[pos + 3 + key.len()] == pair[3 + key.len() as int]);
    assert(pair[3 + key.len() as int] == spec_quoted(value)[0]);
    assert forall|t: int| 0 <= t < value.len() implies bytes[pos + 4 + key.len() + t] == #[trigger] value[t] by {
        assert(bytes[pos + 4 + key.len() + t] == pair[4 + key.len() + t]);
        assert(pair[4 + key.len() + t] == spec_quoted(value)[1 + t]);
    }
    assert(bytes[pend - 1] == pair[plen - 1]);
    assert(pair[plen - 1] == spec_quoted(value)[1 + value.len() as int]);
    if rest.len() > 1 {
        lemma_pairs_first(rest.drop_first());
        lemma_pairs_tail_eq(rest.drop_first());
        assert(pairs_tail_bytes(rest) == pair + seq![44u8] + pairs_tail_bytes(rest.drop_first()));
        assert(bytes[pend] == bytes.subrange(pos, q)[plen]);
        assert(bytes[pend] == run[plen]);
        let rest_run = pairs_tail_bytes(rest.drop_first());
        assert forall|t: int| 0 <= t < rest_run.len() implies bytes[pend + 1 + t] == #[trigger] rest_run[t] by {
            assert(bytes[pend + 1 + t] == bytes.subrange(pos, q)[plen + 1 + t]);
            assert(bytes.subrange(pos, q)[plen + 1 + t] == run[plen + 1 + t]);
        }
        assert(bytes.subrange(pend + 1, q) =~= rest_run);
    }
}

/// The tags object region a canonical encoding with a tags member puts
/// after the member's opening brace: the rendered pairs, then the brace
/// closing the object.
pub open spec fn pairs_region(bytes: Seq<u8>, i7: int, htags: Seq<(Seq<u8>, Seq<u8>)>, q: int) -> bool {
    &&& plain_pairs(htags)
    &&& unique_pair_keys(htags)
    &&& 0 <= i7 <= q < bytes.len()
    &&& bytes.subrange(i7, q) == spec_pairs_bytes(htags)
    &&& bytes[q] == 125u8
}

/// Whether some tag already uses the key.
fn tags_contain_key(tags: &Tags, key: &String) -> (b: bool)
    ensures
        b == exists|t: int| 0 <= t < tags@.len() && (#[trigger] tags@[t]).0@ == key@,
{
    let n = tags.len();
    let mut i: usize = 0;
    while i < n
        invariant
            i <= n,
            n == tags@.len(),
            forall|t: int| 0 <= t < i ==> (#[trigger] tags@[t]).0@ != key@,
        decreases n - i,
    {
        if tags[i].0.eq(key) {
            return true;
        }
        i += 1;
    }
    false
}

/// Reads the members of the tags object starting right after its opening
/// brace, through its closing brace.  An immediately closed (empty) tags
/// object always succeeds; more generally, whenever the ghost hypothesis
/// names a canonical pairs region starting here, reading succeeds and
/// stops right after the region's closing brace.
#[verifier::rlimit(100)]
#[verifier::spinoff_prover]
fn parse_tag_pairs(bytes: &[u8], i7: usize, hyp: Ghost<Option<(Seq<(Seq<u8>, Seq<u8>)>, int)>>) -> (r: Result<
    (Tags, usize),
    DecodeError,
>)
    requires
        i7 <= bytes@.len(),
        hyp@ matches Some(h) ==> pairs_region(bytes@, i7 as int, h.0, h.1),
    ensures
        r matches Ok(p) ==> ({
            let (tags, pos) = p;
            &&& i7 < pos <= bytes@.len()
            &&& unique_tag_keys(tags@)
            &&& bytes@[pos - 1] == 125u8
            &&& bytes@.subrange(i7 as int, pos - 1) == spec_pairs_bytes(tags_bytes_view(tags@))
        }),
        i7 < bytes@.len() && bytes@[i7 as int] == 125u8 ==> (r matches Ok(p) && p.0@.len() == 0 && p.1
            == i7 + 1),
        hyp@ matches Some(h) ==> (r matches Ok(p) && p.1 == h.1 + 1),
{
    let n = bytes.len();
    let mut tags: Tags = Vec::new();
    let mut pos = i7;
    if pos < n && bytes[pos] == 125 {
        // An empty tags object.
        proof {
            if hyp@ is Some {
                let ghost (htags, hq) = hyp@.unwrap();
                if htags.len() > 0 {
                    lemma_pairs_first(htags);
                    assert(bytes@[i7 as int] == bytes@.subrange(i7 as int, hq)[0]);
                    assert(false);
                }
                assert(spec_pairs_bytes(htags) =~= Seq::<u8>::empty());
                assert(hq - i7 == bytes@.subrange(i7 as int, hq).len());
                assert(hq == i7);
            }
        }
        pos += 1;
    } else {
        proof {
            if hyp@ is Some {
                let ghost (htags, hq) = hyp@.unwrap();
                if htags.len() == 0 {
                    assert(spec_pairs_bytes(htags) =~= Seq::<u8>::empty());
                    assert(hq - i7 == bytes@.subrange(i7 as int, hq).len());
                    assert(hq == i7);
                    assert(false);
                }
                lemma_pairs_tail_eq(htags);
                assert(htags.skip(0) =~= htags);
                assert(tags_bytes_view(tags@) =~= htags.subrange(0, 0));
            }
        }
        loop
            invariant_except_break
                tags@.len() == 0 ==> pos == i7,
                tags@.len() > 0 ==> bytes@.subrange(i7 as int, pos as int) =~= spec_pairs_bytes(
                    tags_bytes_view(tags@),
                ) + seq![44u8],
                hyp@ matches Some(h) ==> ({
                    let g = tags@.len() as int;
                    &&& g < h.0.len()
                    &&& tags_bytes_view(tags@) == h.0.subrange(0, g)
                    &&& pos <= h.1
                    &&& bytes@.subrange(pos as int, h.1) == pairs_tail_bytes(h.0.skip(g))
                }),
            invariant
                i7 <= pos <= n,
                n == bytes@.len(),
                unique_tag_keys(tags@),
                !(i7 < n && bytes@[i7 as int] == 125u8),
                hyp@ matches Some(h) ==> pairs_region(bytes@, i7 as int, h.0, h.1),
            ensures
                i7 < pos <= n,
                unique_tag_keys(tags@),
                bytes@[pos - 1] == 125u8,
                bytes@.subrange(i7 as int, pos - 1 as int) =~= spec_pairs_bytes(tags_bytes_view(tags@)),
                hyp@ matches Some(h) ==> pos == h.1 + 1,
            decreases n - pos,
        {
            let ghost tags_pre = tags@;
            let ghost pos_pre = pos as int;
            let ghost g = tags@.len() as int;
            proof {
                if hyp@ is Some {
                let ghost (htags, hq) = hyp@.unwrap();
                    lemma_pin_pair(bytes@, pos_pre, hq, htags.skip(g));
                    assert(htags.skip(g)[0] == htags[g]);
                }
            }
            let (key_bytes, p1) = match parse_string(bytes, pos) {
                Some(pair) => pair,
                None => {
                    proof {
                        if hyp@ is Some {
                let ghost (htags, hq) = hyp@.unwrap();
                            let key = htags[g].0;
                            assert(bytes@[pos_pre + 1 + key.len()] == 34u8);
                            assert(pos_pre < pos_pre + 1 + key.len() < n);
                            assert(false);
                        }
                    }
                    return Err(DecodeError::Malformed);
                },
            };
            proof {
                if hyp@ is Some {
                let ghost (htags, hq) = hyp@.unwrap();
                    lemma_string_scan_stops(bytes@, pos_pre, key_bytes@, p1 as int, htags[g].0);
                }
            }
            if p1 >= n || bytes[p1] != 58 {
                proof {
                    if hyp@ is Some {
                let ghost (htags, hq) = hyp@.unwrap();
                        assert(p1 == pos_pre + 2 + htags[g].0.len());
                        assert(bytes@[p1 as int] == 58u8);
                        assert(false);
                    }
                }
                return Err(DecodeError::Malformed);
            }
            let (val_bytes, p2) = match parse_string(bytes, p1 + 1) {
                Some(pair) => pair,
                None => {
                    proof {
                        if hyp@ is Some {
                let ghost (htags, hq) = hyp@.unwrap();
                            let key = htags[g].0;
                            let value = htags[g].1;
                            assert(bytes@[p1 + 1] == 34u8);
                            assert(bytes@[pos_pre + 4 + key.len() + value.len()] == 34u8);
                            assert(p1 + 1 < pos_pre + 4 + key.len() + value.len() < n);
                            assert(false);
                        }
                    }
                    return Err(DecodeError::Malformed);
                },
            };
            proof {
                if hyp@ is Some {
                let ghost (htags, hq) = hyp@.unwrap();
                    let key = htags[g].0;
                    let value = htags[g].1;
                    assert forall|t: int| 0 <= t < value.len() implies bytes@[p1 + 1 + 1 + t] == #[trigger] value[t] by {
                        assert(bytes@[pos_pre + 4 + key.len() + t] == value[t]);
                    }
                    assert(bytes@[p1 + 1 + 1 + value.len()] == bytes@[pos_pre + 4 + key.len()
                        + value.len()]);
                    lemma_string_scan_stops(bytes@, p1 + 1 as int, val_bytes@, p2 as int, value);
                    assert(p2 == pos_pre + 5 + key.len() + value.len());
                }
            }
            let key = match string_from_utf8(key_bytes) {
                Some(s) => s,
                None => {
                    proof {
                        if hyp@ is Some {
                let ghost (htags, hq) = hyp@.unwrap();
                            assert(plain_text(htags[g].0));
                            assert(false);
                        }
                    }
                    return Err(DecodeError::InvalidText);
                },
            };
            let value = match string_from_utf8(val_bytes) {
                Some(s) => s,
                None => {
                    proof {
                        if hyp@ is Some {
                let ghost (htags, hq) = hyp@.unwrap();
                            assert(plain_text(htags[g].1));
                            assert(false);
                        }
                    }
                    return Err(DecodeError::InvalidText);
                },
            };
            // The wire form enforces key uniqueness.
            if tags_contain_key(&tags, &key) {
                proof {
                    if hyp@ is Some {
                let ghost (htags, hq) = hyp@.unwrap();
                        let t = choose|t: int| 0 <= t < tags@.len() && (#[trigger] tags@[t]).0@ == key@;
                        vstd::utf8::decode_utf8_encode_utf8(key_bytes@);
                        assert(encode_utf8(key@) == key_bytes@ && key_bytes@ == htags[g].0);
                        assert(tags_bytes_view(tags@)[t] == htags.subrange(0, g)[t]);
                        assert(encode_utf8(tags@[t].0@) == htags[t].0);
                        assert(encode_utf8(tags@[t].0@) == encode_utf8(key@));
                        assert(htags[t].0 == htags[g].0);
                        assert((#[trigger] htags[t]).0 != htags[g].0);
                        assert(false);
                    }
                }
                return Err(DecodeError::Malformed);
            }
            proof {
                vstd::utf8::decode_utf8_encode_utf8(key_bytes@);
                vstd::utf8::decode_utf8_encode_utf8(val_bytes@);
                assert(encode_utf8(key@) == key_bytes@);
                assert(encode_utf8(value@) == val_bytes@);
                assert(bytes@.subrange(pos_pre, p2 as int) =~= spec_pair_bytes(key_bytes@, val_bytes@));
            }
            tags.push((key, value));
            proof {
                let tview = tags_bytes_view(tags@);
                assert(tags@.drop_last() =~= tags_pre);
                assert(tview.drop_last() =~= tags_bytes_view(tags_pre));
                assert(tview.last() == (encode_utf8(tags@.last().0@), encode_utf8(tags@.last().1@)));
                if tags_pre.len() == 0 {
                    assert(bytes@.subrange(i7 as int, p2 as int) =~= spec_pairs_bytes(tview));
                } else {
                    assert(bytes@.subrange(i7 as int, p2 as int) =~= bytes@.subrange(i7 as int, pos_pre)
                        + bytes@.subrange(pos_pre, p2 as int));
                    assert(spec_pairs_bytes(tview) == spec_pairs_bytes(tview.drop_last()) + seq![44u8]
                        + spec_pair_bytes(tview.last().0, tview.last().1));
                    assert(bytes@.subrange(i7 as int, p2 as int) =~= spec_pairs_bytes(tview));
                }
            }
            pos = p2;
            if pos < n && bytes[pos] == 44 {
                pos += 1;
                proof {
                    assert(bytes@.subrange(i7 as int, pos as int) =~= spec_pairs_bytes(tags_bytes_view(tags@))
                        + seq![44u8]);
                    if hyp@ is Some {
                let ghost (htags, hq) = hyp@.unwrap();
                        let rest = htags.skip(g);
                        if rest.len() == 1 {
                            assert(pos_pre + 5 + htags[g].0.len() + htags[g].1.len() == hq);
                            assert(bytes@[hq] == 125u8);
                            assert(false);
                        }
                        assert(g + 1 < htags.len());
                        assert(tags_bytes_view(tags@) =~= htags.subrange(0, g + 1));
                        assert(rest.drop_first() =~= htags.skip(g + 1));
                        assert(bytes@.subrange(pos as int, hq) == pairs_tail_bytes(htags.skip(g + 1)));
                    }
                }
            } else if pos < n && bytes[pos] == 125 {
                pos += 1;
                proof {
                    assert(bytes@.subrange(i7 as int, pos - 1 as int) =~= spec_pairs_bytes(
                        tags_bytes_view(tags@),
                    ));
                    if hyp@ is Some {
                let ghost (htags, hq) = hyp@.unwrap();
                        let rest = htags.skip(g);
                        if rest.len() > 1 {
                            assert(bytes@[pos_pre + 5 + htags[g].0.len() + htags[g].1.len()] == 44u8);
                            assert(false);
                        }
                        assert(pos_pre + 5 + htags[g].0.len() + htags[g].1.len() == hq);
                        assert(pos == hq + 1);
                    }
                }
                break;
            } else {
                proof {
                    if hyp@ is Some {
                let ghost (htags, hq) = hyp@.unwrap();
                        let rest = htags.skip(g);
                        let pend = pos_pre + 5 + htags[g].0.len() + htags[g].1.len();
                        if rest.len() == 1 {
                            assert(pend == hq);
                            assert(bytes@[pos as int] == 125u8 && pos < n);
                        } else {
                            assert(bytes@[pend] == 44u8 && pend + 1 < hq < n);
                        }
                        assert(false);
                    }
                }
                return Err(DecodeError::Malformed);
            }
        }
    }
    assert(bytes@.subrange(i7 as int, pos - 1 as int) =~= spec_pairs_bytes(tags_bytes_view(tags@)));
    Ok((tags, pos))
}

/// Deserializes one metric description.  A successful decode pins the
/// input down completely: the bytes were the canonical encoding of
/// exactly the returned value — either the full form with one pair per
/// distinct tag key, or the tolerated form without a tags member, which
/// yields an empty tag list.  Conversely, decoding owes success on every
/// canonical encoding: a failure means the input was not one.
#[verifier::rlimit(100)]
#[verifier::spinoff_prover]
pub fn decode_pre_allocated(bytes: &[u8]) -> (r: Result<PreAllocatedMetric, DecodeError>)
    ensures
        r matches Ok(m) ==> unique_tag_keys(m.spec_tags()),
        r matches Ok(m) ==> (bytes@ == spec_encode_bytes(
            m.is_counter(),
            encode_utf8(m.spec_name()),
            m.spec_id(),
            tags_bytes_view(m.spec_tags()),
        ) || (m.spec_tags().len() == 0 && bytes@ == spec_encode_bytes_no_tags(
            m.is_counter(),
            encode_utf8(m.spec_name()),
            m.spec_id(),
        ))),
        r is Err ==> !spec_canonical_wire(bytes@),
{
    let n = bytes.len();
    let (is_counter, name_bytes, id, i4, i6) = match parse_header(bytes) {
        Ok(h) => h,
        Err(e) => {
            return Err(e);
        },
    };
    let ghost i2: int = 9 + spec_kind_bytes(is_counter).len() as int;
    let ghost i3: int = i2 + 9;
    let ghost i5: int = i4 as int + 6;
    let ghost head = spec_lit_type() + spec_kind_bytes(is_counter) + spec_lit_name() + spec_quoted(name_bytes@)
        + spec_lit_id() + spec_dec_digits(id as int);
    assert(bytes@.subrange(0, i6 as int) =~= head);

    if i6 < n && bytes[i6] == 125 {
        // The tolerated form: the object closes with no tags member.
        if i6 + 1 != n {
            proof {
                lemma_reject_trailing(
                    bytes@,
                    is_counter,
                    i2,
                    i3,
                    name_bytes@,
                    i4 as int,
                    i5,
                    i6 as int,
                );
            }
            return Err(DecodeError::Malformed);
        }
        let name = match string_from_utf8(name_bytes) {
            Some(s) => s,
            None => {
                proof {
                    lemma_reject_text(bytes@, is_counter, i2, i3, name_bytes@, i4 as int);
                }
                return Err(DecodeError::InvalidText);
            },
        };
        proof {
            assert(bytes@.subrange(0, n as int) =~= head + seq![125u8]);
            assert(bytes@.subrange(0, n as int) =~= bytes@);
            vstd::utf8::decode_utf8_encode_utf8(name_bytes@);
            assert(encode_utf8(name@) == name_bytes@);
        }
        let m = if is_counter {
            PreAllocatedMetric::Counter { name, id, tags: Vec::new() }
        } else {
            PreAllocatedMetric::Histogram { name, id, tags: Vec::new() }
        };
        assert(bytes@ == spec_encode_bytes_no_tags(m.is_counter(), encode_utf8(m.spec_name()), m.spec_id()));
        return Ok(m);
    }

    let t5 = lit_tags_vec();
    let i7 = match match_lit(bytes, i6, t5.as_slice()) {
        Some(j) => j,
        None => {
            proof {
                lemma_reject_tags_lit(
                    bytes@,
                    is_counter,
                    i2,
                    i3,
                    name_bytes@,
                    i4 as int,
                    i5,
                    i6 as int,
                );
            }
            return Err(DecodeError::Malformed);
        },
    };
    assert(bytes@.subrange(0, i7 as int) =~= head + spec_lit_tags());

    let ghost hyp: Option<(Seq<(Seq<u8>, Seq<u8>)>, int)> = if spec_canonical_wire(bytes@)
        && canonical_parts(bytes@).4 {
        Some(
            (
                canonical_parts(bytes@).3,
                i7 as int + spec_pairs_bytes(canonical_parts(bytes@).3).len() as int,
            ),
        )
    } else {
        None
    };
    proof {
        if spec_canonical_wire(bytes@) && canonical_parts(bytes@).4 {
            lemma_pairs_region_at(bytes@, is_counter, i2, i3, name_bytes@, i4 as int, i5, i6 as int, i7 as int);
        }
    }
    let (tags, pos) = match parse_tag_pairs(bytes, i7, Ghost(hyp)) {
        Ok(pair) => pair,
        Err(e) => {
            proof {
                if spec_canonical_wire(bytes@) {
                    lemma_reject_no_member(bytes@, is_counter, i2, i3, name_bytes@, i4 as int, i5, i6 as int);
                    assert(false);
                }
            }
            return Err(e);
        },
    };
    assert(bytes@.subrange(i7 as int, pos - 1 as int) =~= spec_pairs_bytes(tags_bytes_view(tags@)));
    if !(pos < n && bytes[pos] == 125 && pos + 1 == n) {
        proof {
            lemma_reject_close(
                bytes@,
                is_counter,
                i2,
                i3,
                name_bytes@,
                i4 as int,
                i5,
                i6 as int,
                i7 as int,
                pos as int,
            );
        }
        return Err(DecodeError::Malformed);
    }
    let name = match string_from_utf8(name_bytes) {
        Some(s) => s,
        None => {
            proof {
                lemma_reject_text(bytes@, is_counter, i2, i3, name_bytes@, i4 as int);
            }
            return Err(DecodeError::InvalidText);
        },
    };
    proof {
        vstd::utf8::decode_utf8_encode_utf8(name_bytes@);
        assert(encode_utf8(name@) == name_bytes@);
        assert(bytes@.subrange(i7 as int, pos + 1 as int) =~= spec_pairs_bytes(tags_bytes_view(tags@))
            + seq![125u8, 125u8]);
        assert(bytes@.subrange(0, n as int) =~= bytes@.subrange(0, i7 as int) + bytes@.subrange(
            i7 as int,
            pos + 1 as int,
        ));
        assert(bytes@.subrange(0, n as int) =~= bytes@);
    }
    let ghost tags_snapshot = tags@;
    let m = if is_counter {
        PreAllocatedMetric::Counter { name, id, tags }
    } else {
        PreAllocatedMetric::Histogram { name, id, tags }
    };
    proof {
        assert(m.spec_tags() == tags_snapshot);
        assert(bytes@ =~= spec_encode_bytes(
            m.is_counter(),
            encode_utf8(m.spec_name()),
            m.spec_id(),
            tags_bytes_view(m.spec_tags()),
        ));
    }
    Ok(m)
}

/// Serializes one metric description into its canonical wire bytes, with
/// the tag list collapsed to a set.
pub fn encode_pre_allocated(metric: &PreAllocatedMetric) -> (out: Vec<u8>)
    ensures
        out@ == spec_encode_bytes(
            metric.is_counter(),
            encode_utf8(metric.spec_name()),
            metric.spec_id(),
            tags_bytes_view(spec_collapse_tags(metric.spec_tags())),
        ),
{
    match metric {
        PreAllocatedMetric::Counter { name, id, tags } => encode_parts(true, name.as_str(), *id, tags),
        PreAllocatedMetric::Histogram { name, id, tags } => encode_parts(false, name.as_str(), *id, tags),
    }
}

/// Serializes the pieces of one metric description.
fn encode_parts(is_counter: bool, name: &str, id: u64, tags: &Tags) -> (out: Vec<u8>)
    ensures
        out@ == spec_encode_bytes(
            is_counter,
            encode_utf8(name@),
            id,
            tags_bytes_view(spec_collapse_tags(tags@)),
        ),
{
    let mut out: Vec<u8> = Vec::new();
    push_lit_type(&mut out);
    push_kind(&mut out, is_counter);
    push_lit_name(&mut out);
    push_quoted(&mut out, name);
    push_lit_id(&mut out);
    push_decimal(&mut out, id);
    push_lit_tags(&mut out);
    let collapsed = collapse_tags(tags);
    push_pairs(&mut out, &collapsed);
    out.push(125);
    out.push(125);
    proof {
        assert(out@ =~= spec_encode_bytes(
            is_counter,
            encode_utf8(name@),
            id,
            tags_bytes_view(spec_collapse_tags(tags@)),
        ));
    }
    out
}

} // verus!
