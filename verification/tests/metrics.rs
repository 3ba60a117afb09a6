use regex::Regex;
use std::time::Duration;
use trellis::map::TextMap;
use trellis::metrics::exposition::{
    number_texts, parse_prometheus_text, MetricKind, MetricSample, Reading,
};
use trellis::metrics::labels::{parse_labels, unescape_label_value};
use trellis::metrics::registry::{
    increment_changes_applied, record_end_to_end_latency, record_transform_latency,
    set_staging_segments, Metrics,
};

const TRANSFORM_LATENCY_METRIC: &str = "trellis_transform_latency_seconds";
const CHANGES_APPLIED_METRIC: &str = "trellis_changes_applied_total";
const END_TO_END_LATENCY_METRIC: &str = "trellis_end_to_end_latency_seconds";
const STAGING_SEGMENTS_METRIC: &str = "trellis_staging_segments";

fn reading(value: f64) -> Reading {
    Reading { bits: value.to_bits(), whole: value as u64 }
}

fn numbers(text: &str) -> TextMap<Reading> {
    let mut map = TextMap::new();
    for number in number_texts(text) {
        if let Ok(value) = number.parse::<f64>() {
            map = map.insert(number, reading(value));
        }
    }
    map
}

fn samples_in(text: &str) -> Vec<MetricSample> {
    parse_prometheus_text(text, &numbers(text))
}

fn value_of(reading: Option<Reading>) -> Option<f64> {
    reading.map(|r| f64::from_bits(r.bits))
}

#[test]
fn transform_latency_and_changes_applied_are_recorded_and_render() {
    let mut metrics = Metrics::new();
    record_transform_latency(&mut metrics, "metrics_facade_test_target", Duration::from_millis(120));
    increment_changes_applied(&mut metrics, "metrics_facade_test_target");

    let rendered = metrics.render_prometheus();
    assert!(
        rendered.contains("trellis_transform_latency_seconds"),
        "rendered output missing the latency histogram: {rendered}"
    );
    assert!(
        rendered.contains("trellis_changes_applied_total"),
        "rendered output missing the throughput counter: {rendered}"
    );
    assert!(
        rendered.contains("metrics_facade_test_target"),
        "rendered output missing the transform label: {rendered}"
    );
}

#[test]
fn end_to_end_latency_is_recorded_and_renders_with_the_shared_bucket_set() {
    let mut metrics = Metrics::new();
    record_end_to_end_latency(&mut metrics, "metrics_facade_test_terminal", Duration::from_millis(250));

    let rendered = metrics.render_prometheus();
    assert!(
        rendered.contains("trellis_end_to_end_latency_seconds"),
        "rendered output missing the end-to-end latency histogram: {rendered}"
    );
    assert!(
        rendered.contains("metrics_facade_test_terminal"),
        "rendered output missing the transform label: {rendered}"
    );
    assert!(
        rendered.contains("le=\"0.25\""),
        "rendered output missing a LATENCY_BUCKETS boundary: {rendered}"
    );
}

#[test]
fn staging_segments_gauge_is_recorded_and_renders() {
    let mut metrics = Metrics::new();
    set_staging_segments(&mut metrics, "metrics_facade_test_state", 3);

    let rendered = metrics.render_prometheus();
    assert!(
        rendered.contains("trellis_staging_segments"),
        "rendered output missing the segment-state gauge: {rendered}"
    );
    assert!(
        rendered.contains("metrics_facade_test_state"),
        "rendered output missing the state label: {rendered}"
    );
}

#[test]
fn render_prometheus_produces_a_valid_exposition_format_body() {
    let mut metrics = Metrics::new();
    record_transform_latency(&mut metrics, "metrics_shape_test_target", Duration::from_millis(42));
    increment_changes_applied(&mut metrics, "metrics_shape_test_target");
    record_end_to_end_latency(&mut metrics, "metrics_shape_test_target", Duration::from_millis(84));
    set_staging_segments(&mut metrics, "metrics_shape_test_state", 7);

    let rendered = metrics.render_prometheus();

    for metric in [
        TRANSFORM_LATENCY_METRIC,
        CHANGES_APPLIED_METRIC,
        END_TO_END_LATENCY_METRIC,
        STAGING_SEGMENTS_METRIC,
    ] {
        assert!(
            rendered.contains(&format!("# HELP {metric} ")),
            "rendered output missing a HELP line for {metric}: {rendered}"
        );
        assert!(
            rendered.contains(&format!("# TYPE {metric} ")),
            "rendered output missing a TYPE line for {metric}: {rendered}"
        );
    }

    let sample_line =
        Regex::new(r#"^[a-zA-Z_:][a-zA-Z0-9_:]*(\{[^}]*\})?\s+\S+$"#).expect("valid regex");
    for line in rendered.lines() {
        if line.is_empty() || line.starts_with('#') {
            continue;
        }
        assert!(
            sample_line.is_match(line),
            "line does not look like a valid Prometheus sample: {line:?}"
        );
    }

    assert!(
        rendered.contains("metrics_shape_test_target"),
        "rendered output missing the transform label: {rendered}"
    );
    assert!(
        rendered.contains("metrics_shape_test_state"),
        "rendered output missing the state label: {rendered}"
    );
}

#[test]
fn parse_prometheus_text_recovers_counter_gauge_and_histogram_samples() {
    let text = "\
# HELP snapshot_test_counter a counter
# TYPE snapshot_test_counter counter
snapshot_test_counter{transform=\"orders\"} 7
# HELP snapshot_test_gauge a gauge
# TYPE snapshot_test_gauge gauge
snapshot_test_gauge{state=\"active\"} 3
# HELP snapshot_test_hist a histogram
# TYPE snapshot_test_hist histogram
snapshot_test_hist_bucket{transform=\"orders\",le=\"0.01\"} 0
snapshot_test_hist_bucket{transform=\"orders\",le=\"0.1\"} 2
snapshot_test_hist_bucket{transform=\"orders\",le=\"1\"} 5
snapshot_test_hist_bucket{transform=\"orders\",le=\"+Inf\"} 5
snapshot_test_hist_sum{transform=\"orders\"} 3.5
snapshot_test_hist_count{transform=\"orders\"} 5
";

    let samples = samples_in(text);

    let counter = samples
        .iter()
        .find(|s| s.name == "snapshot_test_counter")
        .expect("counter sample present");
    assert_eq!(counter.kind, MetricKind::Counter);
    assert_eq!(
        counter.labels,
        vec![("transform".to_string(), "orders".to_string())]
    );
    assert_eq!(value_of(counter.value), Some(7.0));
    assert!(counter.buckets.is_empty());
    assert_eq!(counter.sum, None);
    assert_eq!(counter.count, None);

    let gauge = samples
        .iter()
        .find(|s| s.name == "snapshot_test_gauge")
        .expect("gauge sample present");
    assert_eq!(gauge.kind, MetricKind::Gauge);
    assert_eq!(
        gauge.labels,
        vec![("state".to_string(), "active".to_string())]
    );
    assert_eq!(value_of(gauge.value), Some(3.0));

    let hist = samples
        .iter()
        .find(|s| s.name == "snapshot_test_hist")
        .expect("histogram sample present");
    assert_eq!(hist.kind, MetricKind::Histogram);
    assert_eq!(
        hist.labels,
        vec![("transform".to_string(), "orders".to_string())]
    );
    assert_eq!(hist.value, None);
    assert_eq!(
        hist.buckets,
        vec![(reading(0.01), 0), (reading(0.1), 2), (reading(1.0), 5)]
    );
    assert_eq!(value_of(hist.sum), Some(3.5));
    assert_eq!(hist.count, Some(5));
}

#[test]
fn parse_labels_handles_escaped_commas_quotes_backslashes_and_newlines() {
    let body =
        r#"transform="weird, name with \"quotes\", a \\backslash, and a \nnewline",le="0.25""#;
    let labels = parse_labels(body);
    assert_eq!(
        labels,
        vec![
            (
                "transform".to_string(),
                "weird, name with \"quotes\", a \\backslash, and a \nnewline".to_string()
            ),
            ("le".to_string(), "0.25".to_string()),
        ]
    );
}

#[test]
fn snapshot_recovers_real_observations_recorded_through_this_module() {
    let mut metrics = Metrics::new();
    record_transform_latency(&mut metrics, "metrics_snapshot_test_target", Duration::from_millis(120));
    increment_changes_applied(&mut metrics, "metrics_snapshot_test_target");
    set_staging_segments(&mut metrics, "metrics_snapshot_test_state", 4);

    let samples = samples_in(&metrics.render_prometheus());

    let hist = samples
        .iter()
        .find(|s| {
            s.name == "trellis_transform_latency_seconds"
                && s.labels
                    == vec![(
                        "transform".to_string(),
                        "metrics_snapshot_test_target".to_string(),
                    )]
        })
        .unwrap_or_else(|| panic!("no per-transform latency sample in {samples:?}"));
    assert_eq!(hist.kind, MetricKind::Histogram);
    assert_eq!(
        hist.count,
        Some(1),
        "exactly one observation for this test's own label"
    );
    assert_eq!(value_of(hist.sum), Some(0.12), "0.12s matches the 120ms observation");
    assert!(
        !hist.buckets.is_empty(),
        "the shared LATENCY_BUCKETS set must show up as raw buckets"
    );
    for pair in hist.buckets.windows(2) {
        assert!(
            f64::from_bits(pair[0].0.bits) < f64::from_bits(pair[1].0.bits),
            "bucket bounds must be strictly ascending: {:?}",
            hist.buckets
        );
        assert!(
            pair[0].1 <= pair[1].1,
            "cumulative bucket counts must be non-decreasing: {:?}",
            hist.buckets
        );
    }

    let counter = samples
        .iter()
        .find(|s| {
            s.name == "trellis_changes_applied_total"
                && s.labels
                    == vec![(
                        "transform".to_string(),
                        "metrics_snapshot_test_target".to_string(),
                    )]
        })
        .unwrap_or_else(|| panic!("no changes_applied sample in {samples:?}"));
    assert_eq!(counter.kind, MetricKind::Counter);
    assert_eq!(value_of(counter.value), Some(1.0));

    let gauge = samples
        .iter()
        .find(|s| {
            s.name == "trellis_staging_segments"
                && s.labels
                    == vec![(
                        "state".to_string(),
                        "metrics_snapshot_test_state".to_string(),
                    )]
        })
        .unwrap_or_else(|| panic!("no staging_segments sample in {samples:?}"));
    assert_eq!(gauge.kind, MetricKind::Gauge);
    assert_eq!(value_of(gauge.value), Some(4.0));
}

#[test]
fn the_shared_buckets_are_the_twelve_latency_bounds() {
    let mut metrics = Metrics::new();
    record_transform_latency(&mut metrics, "bounds", Duration::from_millis(30));
    let samples = samples_in(&metrics.render_prometheus());
    let hist = samples.iter().find(|s| s.kind == MetricKind::Histogram).unwrap();
    let bounds: Vec<f64> = hist.buckets.iter().map(|(le, _)| f64::from_bits(le.bits)).collect();
    assert_eq!(
        bounds,
        vec![0.01, 0.025, 0.05, 0.1, 0.25, 0.5, 1.0, 2.5, 5.0, 10.0, 25.0, 60.0]
    );
    let counts: Vec<u64> = hist.buckets.iter().map(|(_, count)| *count).collect();
    assert_eq!(counts, vec![0, 0, 1, 1, 1, 1, 1, 1, 1, 1, 1, 1]);
}

#[test]
fn counters_add_up_and_gauges_keep_the_last_value() {
    let mut metrics = Metrics::new();
    increment_changes_applied(&mut metrics, "a");
    increment_changes_applied(&mut metrics, "a");
    increment_changes_applied(&mut metrics, "b");
    set_staging_segments(&mut metrics, "sealed", 9);
    set_staging_segments(&mut metrics, "sealed", 2);
    let samples = samples_in(&metrics.render_prometheus());
    let find = |label: &str| {
        samples
            .iter()
            .find(|s| s.labels.len() == 1 && s.labels[0].1 == label)
            .and_then(|s| value_of(s.value))
    };
    assert_eq!(find("a"), Some(2.0));
    assert_eq!(find("b"), Some(1.0));
    assert_eq!(find("sealed"), Some(2.0));
}

#[test]
fn rendered_metrics_carry_their_descriptions() {
    let mut metrics = Metrics::new();
    set_staging_segments(&mut metrics, "active", 1);
    increment_changes_applied(&mut metrics, "t");
    record_transform_latency(&mut metrics, "t", Duration::from_secs(1));
    let rendered = metrics.render_prometheus();
    assert!(rendered.contains(
        "# HELP trellis_staging_segments Count of staging ring segments, labeled by state \
         (active/sealed/draining/drained)."
    ));
    assert!(rendered.contains("# HELP trellis_changes_applied_total Count of changes applied"));
    assert!(rendered.contains("# HELP trellis_transform_latency_seconds Time from a change"));
}

#[test]
fn histograms_come_behind_the_others_by_name_and_labels() {
    let text = "# TYPE z histogram\n# TYPE a histogram\n# TYPE c counter\n\
                z_count 1\na_count{x=\"2\"} 4\na_count{x=\"1\"} 3\nc 5\n";
    let samples = samples_in(text);
    let names: Vec<(String, Vec<(String, String)>, Option<u64>)> = samples
        .iter()
        .map(|s| (s.name.clone(), s.labels.clone(), s.count))
        .collect();
    assert_eq!(
        names,
        vec![
            ("c".to_string(), vec![], None),
            ("a".to_string(), vec![("x".to_string(), "1".to_string())], Some(3)),
            ("a".to_string(), vec![("x".to_string(), "2".to_string())], Some(4)),
            ("z".to_string(), vec![], Some(1)),
        ]
    );
}

#[test]
fn labels_are_sorted_and_unreadable_lines_are_passed_over() {
    let text = "# TYPE g gauge\r\ng{b=\"2\",a=\"1\"} -1.5\r\ng nonsense\nundeclared 3\ng\n\n# comment\n";
    let samples = samples_in(text);
    assert_eq!(samples.len(), 1);
    assert_eq!(
        samples[0].labels,
        vec![
            ("a".to_string(), "1".to_string()),
            ("b".to_string(), "2".to_string())
        ]
    );
    assert_eq!(value_of(samples[0].value), Some(-1.5));
}

#[test]
fn buckets_are_ordered_by_their_bounds() {
    let text = "# TYPE h histogram\nh_bucket{le=\"10\"} 3\nh_bucket{le=\"-1\"} 0\nh_bucket{le=\"0.5\"} 1\n\
                h_bucket{le=\"x\"} 9\nh_bucket 9\nh_sum 2\nh_sum 4\n";
    let samples = samples_in(text);
    assert_eq!(
        samples[0].buckets,
        vec![(reading(-1.0), 0), (reading(0.5), 1), (reading(10.0), 3)]
    );
    assert_eq!(value_of(samples[0].sum), Some(4.0));
    assert_eq!(samples[0].count, None);
}

#[test]
fn only_the_listed_texts_have_to_be_read() {
    let text = "# TYPE h histogram\nh_bucket{le=\"0.5\",job=\"7\"} 12\n";
    assert_eq!(number_texts(text), vec!["12".to_string(), "0.5".to_string()]);
}

#[test]
fn escapes_are_undone_one_by_one() {
    assert_eq!(unescape_label_value(r#"a\\b\"c\nd\e\"#), "a\\b\"c\nde\\");
    assert_eq!(parse_labels(""), vec![]);
    assert_eq!(parse_labels("k=v,l=\"1\""), vec![("l".to_string(), "1".to_string())]);
    assert_eq!(MetricKind::Counter.as_sql(), "counter");
    assert_eq!(MetricKind::Gauge.as_sql(), "gauge");
    assert_eq!(MetricKind::Histogram.as_sql(), "histogram");
}

#[test]
fn counters_are_read_back_from_the_rendered_text() {
    let mut metrics = Metrics::new();
    let transform = "say \"hi\", {all}\nof = you";
    for _ in 0..12 {
        increment_changes_applied(&mut metrics, transform);
    }
    record_transform_latency(&mut metrics, transform, Duration::from_millis(7));
    record_transform_latency(&mut metrics, transform, Duration::from_millis(9));
    let rendered = metrics.render_prometheus();
    let written = "{transform=\"say \\\"hi\\\", {all}\\nof = you\"}";
    let lines: Vec<&str> = rendered.lines().collect();
    assert!(lines.contains(&"# TYPE trellis_changes_applied_total counter"));
    assert!(lines.contains(&format!("trellis_changes_applied_total{written} 12").as_str()));
    assert!(lines.contains(&"# TYPE trellis_transform_latency_seconds histogram"));
    assert!(lines.contains(&format!("trellis_transform_latency_seconds_count{written} 2").as_str()));
    assert_eq!(lines.iter().filter(|l| l.starts_with("# TYPE ")).count(), 2);

    let sample = samples_in(&rendered)
        .into_iter()
        .find(|s| s.name == CHANGES_APPLIED_METRIC)
        .unwrap();
    assert_eq!(sample.kind, MetricKind::Counter);
    assert_eq!(sample.labels, vec![("transform".to_string(), transform.to_string())]);
    assert_eq!(value_of(sample.value), Some(12.0));
}

#[test]
fn histograms_are_read_back_with_their_buckets_and_counts() {
    let mut metrics = Metrics::new();
    for millis in [5, 10, 11, 250, 251, 70_000] {
        record_end_to_end_latency(&mut metrics, "orders", Duration::from_millis(millis));
    }
    let rendered = metrics.render_prometheus();
    let lines: Vec<&str> = rendered.lines().collect();
    assert!(lines.iter().any(|l| l.starts_with("# HELP trellis_end_to_end_latency_seconds Time from ")));
    for expected in [
        "trellis_end_to_end_latency_seconds_bucket{transform=\"orders\",le=\"0.01\"} 2",
        "trellis_end_to_end_latency_seconds_bucket{transform=\"orders\",le=\"0.025\"} 3",
        "trellis_end_to_end_latency_seconds_bucket{transform=\"orders\",le=\"0.25\"} 4",
        "trellis_end_to_end_latency_seconds_bucket{transform=\"orders\",le=\"2.5\"} 5",
        "trellis_end_to_end_latency_seconds_bucket{transform=\"orders\",le=\"60\"} 5",
        "trellis_end_to_end_latency_seconds_bucket{transform=\"orders\",le=\"+Inf\"} 6",
        "trellis_end_to_end_latency_seconds_count{transform=\"orders\"} 6",
    ] {
        assert_eq!(lines.iter().filter(|l| **l == expected).count(), 1, "{expected}");
    }
    let samples = samples_in(&rendered);
    assert_eq!(samples.len(), 1);
    assert_eq!(samples[0].count, Some(6));
    assert_eq!(samples[0].buckets.len(), 12);
    assert_eq!(samples[0].buckets[4], (reading(0.25), 4));
}

#[test]
fn the_last_value_of_a_gauge_is_read_back() {
    let mut metrics = Metrics::new();
    set_staging_segments(&mut metrics, "sealed", 3);
    set_staging_segments(&mut metrics, "active", 9_007_199_254_740_992);
    set_staging_segments(&mut metrics, "sealed", 0);
    set_staging_segments(&mut metrics, "drained", u64::MAX);
    let rendered = metrics.render_prometheus();
    assert!(rendered.contains("trellis_staging_segments{state=\"active\"} 9007199254740992\n"));
    let samples = samples_in(&rendered);
    assert_eq!(samples.len(), 3);
    let sealed: Vec<_> = samples
        .iter()
        .filter(|s| s.labels == vec![("state".to_string(), "sealed".to_string())])
        .collect();
    assert_eq!(sealed.len(), 1);
    assert_eq!(sealed[0].kind, MetricKind::Gauge);
    assert_eq!(value_of(sealed[0].value), Some(0.0));
}

#[test]
fn counting_leaves_other_series_as_they_were() {
    let mut metrics = Metrics::new();
    increment_changes_applied(&mut metrics, "a");
    increment_changes_applied(&mut metrics, "b\\c");
    set_staging_segments(&mut metrics, "sealed", 2);
    record_transform_latency(&mut metrics, "a", Duration::from_millis(30));
    let series = vec![("transform".to_string(), "a".to_string())];
    let others = |text: &str| {
        let mut rest: Vec<MetricSample> = samples_in(text)
            .into_iter()
            .filter(|s| !(s.name == CHANGES_APPLIED_METRIC && s.labels == series))
            .collect();
        rest.sort_by(|x, y| (&x.name, &x.labels).cmp(&(&y.name, &y.labels)));
        rest
    };
    let before = metrics.render_prometheus();
    increment_changes_applied(&mut metrics, "a");
    let after = metrics.render_prometheus();
    assert_eq!(others(&before), others(&after));
    assert_eq!(others(&after).len(), 3);
    assert!(others(&after)
        .iter()
        .any(|s| s.labels == vec![("transform".to_string(), "b\\c".to_string())]));
    let counted = samples_in(&after)
        .into_iter()
        .find(|s| s.name == CHANGES_APPLIED_METRIC && s.labels == series)
        .unwrap();
    assert_eq!(value_of(counted.value), Some(2.0));
}

#[test]
fn the_order_of_a_histograms_lines_does_not_matter() {
    let lines = [
        "# TYPE h histogram",
        "h_bucket{job=\"a\",le=\"0.5\"} 1",
        "h_bucket{job=\"a\",le=\"2\"} 4",
        "h_bucket{job=\"a\",le=\"+Inf\"} 5",
        "h_sum{job=\"a\"} 9.5",
        "h_count{job=\"a\"} 5",
        "h_count{job=\"b\"} 7",
    ];
    let expected = samples_in(&lines.join("\n"));
    assert_eq!(expected.len(), 2);
    let mut reversed = lines;
    reversed.reverse();
    assert_eq!(samples_in(&reversed.join("\n")), expected);
    let mut rotated = lines;
    rotated.rotate_left(3);
    assert_eq!(samples_in(&rotated.join("\n")), expected);
}

#[test]
fn backslashes_before_quotes_newlines_and_each_other_are_shown_shorter() {
    let mut metrics = Metrics::new();
    for (value, times) in [
        ("a\\\\b", 1),
        ("c\\\"d", 2),
        ("e\\\nf", 3),
        ("g\\\n\"h", 4),
        ("i\\\\\\", 5),
        ("plain", 6),
    ] {
        for _ in 0..times {
            increment_changes_applied(&mut metrics, value);
        }
    }
    let rendered = metrics.render_prometheus();
    for expected in [
        "trellis_changes_applied_total{transform=\"a\\\\b\"} 1\n",
        "trellis_changes_applied_total{transform=\"c\\\"d\"} 2\n",
        "trellis_changes_applied_total{transform=\"e\\n\\\\f\"} 3\n",
        "trellis_changes_applied_total{transform=\"g\\n\\\"h\"} 4\n",
        "trellis_changes_applied_total{transform=\"i\\\\\\\\\"} 5\n",
        "trellis_changes_applied_total{transform=\"plain\"} 6\n",
    ] {
        assert!(rendered.contains(expected), "{expected}");
    }
    let mut read: Vec<(String, Option<f64>)> = samples_in(&rendered)
        .into_iter()
        .map(|s| (s.labels[0].1.clone(), value_of(s.value)))
        .collect();
    read.sort_by(|x, y| x.0.cmp(&y.0));
    let expected: Vec<(String, Option<f64>)> = [
        ("a\\b", 1.0),
        ("c\"d", 2.0),
        ("e\n\\f", 3.0),
        ("g\n\"h", 4.0),
        ("i\\\\", 5.0),
        ("plain", 6.0),
    ]
    .iter()
    .map(|(value, n)| (value.to_string(), Some(*n)))
    .collect();
    assert_eq!(read, expected);
}
