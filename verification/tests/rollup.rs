use trellis::error_code::ErrorCode;
use trellis::metrics::exposition::{MetricKind, MetricSample, Reading};
use trellis::rollup::{encode_labels, prune_cutoff, rollup_rows, RollupError, RollupRow};
use trellis::staging::change::SourceTime;

#[test]
fn encode_labels_produces_valid_minimal_json() {
    assert_eq!(encode_labels(&[]), "{}");
    assert_eq!(
        encode_labels(&[("transform".to_string(), "orders".to_string())]),
        r#"{"transform":"orders"}"#
    );
    assert_eq!(
        encode_labels(&[
            ("a".to_string(), "1".to_string()),
            ("b".to_string(), "2".to_string()),
        ]),
        r#"{"a":"1","b":"2"}"#
    );
}

#[test]
fn encode_labels_escapes_quotes_backslashes_and_control_characters() {
    let json = encode_labels(&[(
        "transform".to_string(),
        "weird\"name\\with\ncontrol\tchars".to_string(),
    )]);
    assert_eq!(json, r#"{"transform":"weird\"name\\with\ncontrol\tchars"}"#);
}

#[test]
fn encode_labels_spells_other_control_characters_in_hexadecimal() {
    let json = encode_labels(&[("k".to_string(), "\u{1}\u{1f}\r\u{7f}é".to_string())]);
    assert_eq!(json, "{\"k\":\"\\u0001\\u001f\\r\u{7f}é\"}");
}

fn reading(value: f64) -> Reading {
    Reading { bits: value.to_bits(), whole: value as u64 }
}

fn sample(kind: MetricKind) -> MetricSample {
    MetricSample {
        name: "m".to_string(),
        kind,
        labels: vec![("state".to_string(), "active".to_string())],
        value: None,
        buckets: vec![],
        sum: None,
        count: None,
    }
}

#[test]
fn a_snapshot_becomes_one_row_for_each_sample() {
    let mut gauge = sample(MetricKind::Gauge);
    gauge.value = Some(reading(3.0));
    let mut histogram = sample(MetricKind::Histogram);
    histogram.buckets = vec![(reading(0.1), 2), (reading(1.0), u64::MAX)];
    histogram.sum = Some(reading(3.5));
    histogram.count = Some(5);
    let rows = rollup_rows(&vec![gauge, histogram]);
    assert_eq!(
        rows,
        vec![
            RollupRow::Scalar {
                name: "m".to_string(),
                kind: MetricKind::Gauge,
                labels: r#"{"state":"active"}"#.to_string(),
                value: Some(reading(3.0)),
            },
            RollupRow::Histogram {
                name: "m".to_string(),
                labels: r#"{"state":"active"}"#.to_string(),
                bounds: vec![reading(0.1), reading(1.0)],
                counts: vec![2, i64::MAX],
                sum: Some(reading(3.5)),
                count: Some(5),
            },
        ]
    );
}

#[test]
fn pruning_goes_back_no_further_than_the_epoch() {
    let now = SourceTime { nanos: 1_000 };
    assert_eq!(prune_cutoff(now, 400), SourceTime { nanos: 600 });
    assert_eq!(prune_cutoff(now, 1_000), SourceTime { nanos: 0 });
    assert_eq!(prune_cutoff(now, 1_001), SourceTime { nanos: 0 });
    assert_eq!(prune_cutoff(SourceTime { nanos: -5 }, 0), SourceTime { nanos: 0 });
}

#[test]
fn a_database_error_keeps_its_category() {
    let err = RollupError::Db(ErrorCode::Conflict);
    assert_eq!(err.code(), ErrorCode::Conflict);
    assert_eq!(err.message("gone"), "metric rollup database error: gone");
}

#[test]
fn encoded_labels_tell_lists_apart_and_keep_their_order() {
    let list = |pairs: &[(&str, &str)]| -> Vec<(String, String)> {
        pairs.iter().map(|(k, v)| (k.to_string(), v.to_string())).collect()
    };
    assert_eq!(encode_labels(&list(&[])), "{}");
    assert_eq!(
        encode_labels(&list(&[("b", "é{},:"), ("a", "")])),
        "{\"b\":\"é{},:\",\"a\":\"\"}"
    );
    assert_eq!(
        encode_labels(&list(&[("a", "1\",\"b\":\"2")])),
        "{\"a\":\"1\\\",\\\"b\\\":\\\"2\"}"
    );
    assert_ne!(
        encode_labels(&list(&[("a", "1\",\"b\":\"2")])),
        encode_labels(&list(&[("a", "1"), ("b", "2")]))
    );
}
