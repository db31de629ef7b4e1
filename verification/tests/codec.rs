use metricus::codec::{decode_pre_allocated, encode_pre_allocated, DecodeError};
use metricus::{PreAllocatedMetric, Tags};

fn tags(pairs: &[(&str, &str)]) -> Tags {
    pairs
        .iter()
        .map(|(k, v)| (k.to_string(), v.to_string()))
        .collect()
}

fn tag_set(tags: &Tags) -> std::collections::BTreeMap<String, String> {
    tags.iter().cloned().collect()
}

#[test]
fn counter_encodes_to_expected_json() {
    let metric = PreAllocatedMetric::counter("x", 42, &tags(&[("a", "1")]));
    let bytes = encode_pre_allocated(&metric);
    assert_eq!(
        String::from_utf8(bytes).unwrap(),
        r#"{"type":"counter","name":"x","id":42,"tags":{"a":"1"}}"#
    );
}

#[test]
fn histogram_encodes_to_expected_json() {
    let metric = PreAllocatedMetric::histogram("lat", 7, &tags(&[]));
    let bytes = encode_pre_allocated(&metric);
    assert_eq!(
        String::from_utf8(bytes).unwrap(),
        r#"{"type":"histogram","name":"lat","id":7,"tags":{}}"#
    );
}

#[test]
fn counter_round_trip_preserves_name_id_and_tag_set() {
    let original = PreAllocatedMetric::counter("x", 42, &tags(&[("a", "1")]));
    let bytes = encode_pre_allocated(&original);
    let decoded = decode_pre_allocated(&bytes).expect("canonical bytes should decode");
    match decoded {
        PreAllocatedMetric::Counter { name, id, tags: t } => {
            assert_eq!(name, "x");
            assert_eq!(id, 42);
            assert_eq!(tag_set(&t), tag_set(&tags(&[("a", "1")])));
        }
        PreAllocatedMetric::Histogram { .. } => panic!("expected a counter"),
    }
}

#[test]
fn histogram_round_trip_preserves_fields() {
    let original = PreAllocatedMetric::histogram("h", u64::MAX, &tags(&[("k1", "v1"), ("k2", "v2")]));
    let bytes = encode_pre_allocated(&original);
    let decoded = decode_pre_allocated(&bytes).expect("canonical bytes should decode");
    match decoded {
        PreAllocatedMetric::Histogram { name, id, tags: t } => {
            assert_eq!(name, "h");
            assert_eq!(id, u64::MAX);
            assert_eq!(tag_set(&t), tag_set(&tags(&[("k1", "v1"), ("k2", "v2")])));
        }
        PreAllocatedMetric::Counter { .. } => panic!("expected a histogram"),
    }
}

#[test]
fn duplicate_keys_collapse_to_the_last_occurrence() {
    let original = PreAllocatedMetric::counter("x", 1, &tags(&[("a", "old"), ("b", "2"), ("a", "new")]));
    let bytes = encode_pre_allocated(&original);
    assert_eq!(
        String::from_utf8(bytes.clone()).unwrap(),
        r#"{"type":"counter","name":"x","id":1,"tags":{"b":"2","a":"new"}}"#
    );
    let decoded = decode_pre_allocated(&bytes).unwrap();
    match decoded {
        PreAllocatedMetric::Counter { tags: t, .. } => {
            assert_eq!(tag_set(&t), tag_set(&tags(&[("a", "new"), ("b", "2")])));
        }
        PreAllocatedMetric::Histogram { .. } => panic!("expected a counter"),
    }
}

#[test]
fn missing_tags_member_decodes_as_empty_tag_set() {
    let bytes = br#"{"type":"counter","name":"x","id":42}"#;
    let decoded = decode_pre_allocated(bytes).expect("the tags member is optional");
    match decoded {
        PreAllocatedMetric::Counter { name, id, tags: t } => {
            assert_eq!(name, "x");
            assert_eq!(id, 42);
            assert!(t.is_empty());
        }
        PreAllocatedMetric::Histogram { .. } => panic!("expected a counter"),
    }
}

#[test]
fn unicode_names_survive_the_round_trip() {
    let original = PreAllocatedMetric::counter("m\u{00e9}trica", 3, &tags(&[("unidad", "\u{00b5}s")]));
    let bytes = encode_pre_allocated(&original);
    let decoded = decode_pre_allocated(&bytes).unwrap();
    match decoded {
        PreAllocatedMetric::Counter { name, id, tags: t } => {
            assert_eq!(name, "m\u{00e9}trica");
            assert_eq!(id, 3);
            assert_eq!(tag_set(&t), tag_set(&tags(&[("unidad", "\u{00b5}s")])));
        }
        PreAllocatedMetric::Histogram { .. } => panic!("expected a counter"),
    }
}

#[test]
fn malformed_inputs_are_rejected() {
    let cases: &[&[u8]] = &[
        b"",
        b"{}",
        br#"{"type":"gauge","name":"x","id":1}"#,
        br#"{"type":"counter","name":"x","id":01}"#,
        br#"{"type":"counter","name":"x","id":18446744073709551616}"#,
        br#"{"type":"counter","name":"x","id":1,"tags":{}}trailing"#,
        br#"{"type":"counter","name":"x","id":1,"tags":{"a":"1","a":"2"}}"#,
        br#"{"type":"counter","name":"x","id":1,"tags":{"a":"1",}}"#,
        br#"{"type":"counter","name":"x","id":1,"tags":{"a":1}}"#,
    ];
    for case in cases {
        assert_eq!(decode_pre_allocated(case).err(), Some(DecodeError::Malformed), "case: {:?}", case);
    }
}

#[test]
fn invalid_text_in_a_name_is_rejected() {
    let mut bytes = br#"{"type":"counter","name":"x","id":1}"#.to_vec();
    // Replace the name content with a lone continuation byte.
    let pos = bytes.iter().position(|&b| b == b'x').unwrap();
    bytes[pos] = 0xFF;
    assert_eq!(decode_pre_allocated(&bytes).err(), Some(DecodeError::InvalidText));
}

#[test]
fn empty_tags_object_decodes_as_empty_tag_set() {
    let bytes = br#"{"type":"counter","name":"x","id":5,"tags":{}}"#;
    match decode_pre_allocated(bytes).unwrap() {
        PreAllocatedMetric::Counter { name, id, tags: t } => {
            assert_eq!(name, "x");
            assert_eq!(id, 5);
            assert!(t.is_empty());
        }
        PreAllocatedMetric::Histogram { .. } => panic!("expected a counter"),
    }
}

#[test]
fn handwritten_tagged_document_decodes() {
    let bytes = br#"{"type":"counter","name":"n","id":9,"tags":{"x":"1","y":"2"}}"#;
    match decode_pre_allocated(bytes).expect("canonical tagged bytes should decode") {
        PreAllocatedMetric::Counter { name, id, tags: t } => {
            assert_eq!(name, "n");
            assert_eq!(id, 9);
            assert_eq!(tag_set(&t), tag_set(&tags(&[("x", "1"), ("y", "2")])));
        }
        PreAllocatedMetric::Histogram { .. } => panic!("expected a counter"),
    }
}

#[test]
fn decode_accepts_id_at_the_numeric_limit() {
    let bytes = br#"{"type":"histogram","name":"h","id":18446744073709551615}"#;
    match decode_pre_allocated(bytes).unwrap() {
        PreAllocatedMetric::Histogram { id, .. } => assert_eq!(id, u64::MAX),
        PreAllocatedMetric::Counter { .. } => panic!("expected a histogram"),
    }
}
