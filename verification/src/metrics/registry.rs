//! Recording metrics in a Prometheus registry, and rendering them as text.
//!
//! What is recorded is kept by a [`PrometheusRecorder`]. Its contents are
//! modelled by the names below: the total of each counter, the value of each
//! gauge, and the latencies that each histogram observed.

use crate::metrics::exposition::MetricKind;
use crate::metrics::labels::written_labels;
use crate::text::{begins_with, digit_char, ends_with, lines_of, nat_text};
use metrics_exporter_prometheus::{PrometheusBuilder, PrometheusRecorder};
use std::time::Duration;
use vstd::multiset::Multiset;
use vstd::prelude::*;

verus! {

/// The registry of the Prometheus exporter.
#[verifier::external_type_specification]
#[verifier::external_body]
pub struct ExPrometheusRecorder(PrometheusRecorder);

/// What names a series: the metric, and its label's key and value.
pub type Series = (Seq<char>, Seq<char>, Seq<char>);

/// The total of each counter in the registry.
pub uninterp spec fn counter_totals(recorder: PrometheusRecorder) -> Map<Series, u64>;

/// The value that each gauge in the registry was last set to.
pub uninterp spec fn gauge_values(recorder: PrometheusRecorder) -> Map<Series, u64>;

/// How the value of each gauge in the registry is written.
pub uninterp spec fn gauge_texts(recorder: PrometheusRecorder) -> Map<Series, Seq<char>>;

/// The latencies that each histogram in the registry observed, in nanoseconds.
pub uninterp spec fn observed_latencies(recorder: PrometheusRecorder) -> Multiset<(Series, nat)>;

/// How the sum of each histogram's latencies is written, in seconds.
pub uninterp spec fn latency_sums(recorder: PrometheusRecorder) -> Map<Series, Seq<char>>;

/// The descriptions of the metrics in the registry.
pub uninterp spec fn descriptions(recorder: PrometheusRecorder) -> Map<Seq<char>, Seq<char>>;

/// The upper bounds of the registry's histogram buckets, in milliseconds.
pub uninterp spec fn bucket_bounds(recorder: PrometheusRecorder) -> Seq<u64>;

/// How many nanoseconds a span of time is: what `Duration::as_nanos` gives.
pub uninterp spec fn nanos_of(span: Duration) -> nat;

/// What a registry holds.
pub struct Recorded {
    /// The total of each counter.
    pub totals: Map<Series, u64>,
    /// The value of each gauge.
    pub gauges: Map<Series, u64>,
    /// How the value of each gauge is written.
    pub gauge_texts: Map<Series, Seq<char>>,
    /// The latencies that each histogram observed, in nanoseconds.
    pub latencies: Multiset<(Series, nat)>,
    /// How the sum of each histogram's latencies is written.
    pub sums: Map<Series, Seq<char>>,
    /// The metrics' descriptions.
    pub described: Map<Seq<char>, Seq<char>>,
    /// The upper bounds of the histograms' buckets, in milliseconds.
    pub bounds: Seq<u64>,
}

/// What a registry holds.
pub open spec fn recorded(recorder: PrometheusRecorder) -> Recorded {
    Recorded {
        totals: counter_totals(recorder),
        gauges: gauge_values(recorder),
        gauge_texts: gauge_texts(recorder),
        latencies: observed_latencies(recorder),
        sums: latency_sums(recorder),
        described: descriptions(recorder),
        bounds: bucket_bounds(recorder),
    }
}

/// The sum, modulo two to the power of sixty-four.
pub open spec fn wrapping_sum(a: u64, b: u64) -> u64 {
    if a + b <= u64::MAX {
        (a + b) as u64
    } else {
        (a + b - 0x1_0000_0000_0000_0000) as u64
    }
}

/// The total of a counter; zero where there is none yet.
pub open spec fn total_of(totals: Map<Series, u64>, series: Series) -> u64 {
    if totals.contains_key(series) {
        totals[series]
    } else {
        0
    }
}

/// Whether a name is made of small letters and underscores alone. The exporter
/// leaves such a name as it is; it replaces other characters of a name, so that
/// two names can become one.
pub open spec fn is_plain_name(name: Seq<char>) -> bool {
    forall|i: int| 0 <= i < name.len() ==> #[trigger] is_plain_char(name[i])
}

/// Whether a character is a small letter or an underscore.
pub open spec fn is_plain_char(c: char) -> bool {
    'a' <= c <= 'z' || c == '_'
}

/// What a label's value is shown as, `held` saying whether a backslash came
/// before: of two backslashes in a row one is shown, a backslash before a quote
/// is not, and one before a newline comes behind it. Everything else is shown as
/// it is.
pub open spec fn shown_from(held: bool, value: Seq<char>) -> Seq<char>
    decreases value.len(),
{
    let pending: Seq<char> = if held {
        seq!['\\']
    } else {
        seq![]
    };
    if value.len() == 0 {
        pending
    } else {
        let rest = value.drop_first();
        if value[0] == '\n' {
            seq!['\n'] + shown_from(held, rest)
        } else if value[0] == '"' {
            seq!['"'] + shown_from(false, rest)
        } else if value[0] == '\\' {
            pending + shown_from(!held, rest)
        } else {
            pending + seq![value[0]] + shown_from(false, rest)
        }
    }
}

/// What a label's value is shown as.
pub open spec fn shown(value: Seq<char>) -> Seq<char> {
    shown_from(false, value)
}

/// How a metric's line begins, up to its number.
pub open spec fn series_text(name: Seq<char>, labels: Seq<(Seq<char>, Seq<char>)>) -> Seq<char> {
    name + seq!['{'] + written_labels(labels) + seq!['}']
}

/// The line with a metric's number.
pub open spec fn sample_line(name: Seq<char>, labels: Seq<(Seq<char>, Seq<char>)>, number: Seq<char>) -> Seq<char> {
    series_text(name, labels) + seq![' '] + number
}

/// The line that declares a metric's kind.
pub open spec fn type_line(name: Seq<char>, kind: MetricKind) -> Seq<char> {
    "# TYPE "@ + name + seq![' '] + kind.name()
}

/// The line that describes a metric.
pub open spec fn help_line(name: Seq<char>, text: Seq<char>) -> Seq<char> {
    "# HELP "@ + name + seq![' '] + text
}

/// Milliseconds as seconds, in decimal, without superfluous zeros.
pub open spec fn seconds_text(millis: nat) -> Seq<char> {
    let whole = nat_text(millis / 1000);
    let (a, b, c) = (millis / 100 % 10, millis / 10 % 10, millis % 10);
    if c != 0 {
        whole + seq!['.', digit_char(a as int), digit_char(b as int), digit_char(c as int)]
    } else if b != 0 {
        whole + seq!['.', digit_char(a as int), digit_char(b as int)]
    } else if a != 0 {
        whole + seq!['.', digit_char(a as int)]
    } else {
        whole
    }
}

/// The largest number up to which all numbers are doubles: two to the power of
/// fifty-three.
pub const EXACT_UP_TO: u64 = 0x20_0000_0000_0000;

/// Whether a latency is of a series.
pub open spec fn is_of_series(series: Series) -> spec_fn((Series, nat)) -> bool {
    |o: (Series, nat)| o.0 == series
}

/// Whether a latency is of a series, and no longer than a bound in milliseconds.
pub open spec fn is_up_to(series: Series, millis: u64) -> spec_fn((Series, nat)) -> bool {
    |o: (Series, nat)| o.0 == series && o.1 <= millis * 1_000_000
}

/// How many latencies a histogram observed.
pub open spec fn observations(latencies: Multiset<(Series, nat)>, series: Series) -> nat {
    latencies.filter(is_of_series(series)).len()
}

/// How many latencies up to a bound, in milliseconds, a histogram observed.
pub open spec fn observations_up_to(latencies: Multiset<(Series, nat)>, series: Series, millis: u64) -> nat {
    latencies.filter(is_up_to(series, millis)).len()
}

/// Whether a number of milliseconds is a whole number of eighths of a second, or
/// less than a second: its double, in seconds, is then written as it is.
pub open spec fn is_bound(millis: u64) -> bool {
    (millis < 1000 || millis % 125 == 0) && millis <= 1_000_000_000
}

/// Whether bounds can be those of buckets: there are some, and they ascend.
pub open spec fn are_bounds(bounds: Seq<u64>) -> bool {
    &&& bounds.len() > 0
    &&& forall|i: int| 0 <= i < bounds.len() ==> is_bound(#[trigger] bounds[i])
    &&& forall|i: int, j: int| 0 <= i < j < bounds.len() ==> #[trigger] bounds[i] < #[trigger] bounds[j]
}

/// What one line of the exposition gives.
pub enum Item {
    /// A counter's total.
    Counter(Series),
    /// A gauge's value.
    Gauge(Series),
    /// How many latencies a histogram observed, up to the bound at a position.
    Bucket(Series, int),
    /// How many latencies a histogram observed, up to infinity.
    Infinity(Series),
    /// The sum of the latencies that a histogram observed.
    Sum(Series),
    /// How many latencies a histogram observed.
    Count(Series),
}

impl Item {
    /// The series that the line is about.
    pub open spec fn series(self) -> Series {
        match self {
            Item::Counter(s) => s,
            Item::Gauge(s) => s,
            Item::Bucket(s, _) => s,
            Item::Infinity(s) => s,
            Item::Sum(s) => s,
            Item::Count(s) => s,
        }
    }

    /// Whether the line is there.
    pub open spec fn is_in(self, r: Recorded) -> bool {
        match self {
            Item::Counter(s) => r.totals.contains_key(s),
            Item::Gauge(s) => r.gauges.contains_key(s),
            Item::Bucket(s, i) => observations(r.latencies, s) > 0 && 0 <= i < r.bounds.len(),
            Item::Infinity(s) => observations(r.latencies, s) > 0,
            Item::Sum(s) => observations(r.latencies, s) > 0,
            Item::Count(s) => observations(r.latencies, s) > 0,
        }
    }

    /// The name in the line: the metric's, with a suffix for what is given of a
    /// histogram.
    pub open spec fn name(self) -> Seq<char> {
        match self {
            Item::Counter(s) => s.0,
            Item::Gauge(s) => s.0,
            Item::Bucket(s, _) => s.0 + "_bucket"@,
            Item::Infinity(s) => s.0 + "_bucket"@,
            Item::Sum(s) => s.0 + "_sum"@,
            Item::Count(s) => s.0 + "_count"@,
        }
    }

    /// The labels in the line: the series' label, as it is shown, and a bucket's
    /// bound.
    pub open spec fn labels(self, r: Recorded) -> Seq<(Seq<char>, Seq<char>)> {
        let s = self.series();
        match self {
            Item::Bucket(_, i) => seq![(s.1, shown(s.2)), ("le"@, seconds_text(r.bounds[i] as nat))],
            Item::Infinity(_) => seq![(s.1, shown(s.2)), ("le"@, "+Inf"@)],
            _ => seq![(s.1, shown(s.2))],
        }
    }

    /// The number in the line.
    pub open spec fn number(self, r: Recorded) -> Seq<char> {
        match self {
            Item::Counter(s) => nat_text(r.totals[s] as nat),
            Item::Gauge(s) => r.gauge_texts[s],
            Item::Bucket(s, i) => nat_text(observations_up_to(r.latencies, s, r.bounds[i])),
            Item::Infinity(s) => nat_text(observations(r.latencies, s)),
            Item::Sum(s) => r.sums[s],
            Item::Count(s) => nat_text(observations(r.latencies, s)),
        }
    }

    /// The line.
    pub open spec fn line(self, r: Recorded) -> Seq<char> {
        sample_line(self.name(), self.labels(r), self.number(r))
    }
}

/// Whether a metric of the given name and kind is recorded.
pub open spec fn is_recorded(name: Seq<char>, kind: MetricKind, r: Recorded) -> bool {
    match kind {
        MetricKind::Counter => exists|s: Series| #[trigger] r.totals.contains_key(s) && s.0 == name,
        MetricKind::Gauge => exists|s: Series| #[trigger] r.gauges.contains_key(s) && s.0 == name,
        MetricKind::Histogram => exists|s: Series| #[trigger] observations(r.latencies, s) > 0 && s.0 == name,
    }
}

/// Whether a metric's name is plain, and takes a suffix as it is.
pub open spec fn is_base_name(name: Seq<char>) -> bool {
    &&& is_plain_name(name)
    &&& !ends_with(name, "bucket"@)
    &&& !ends_with(name, "sum"@)
    &&& !ends_with(name, "count"@)
}

/// Whether the recorded metrics are named so that no two of them, nor what is
/// given of them, can be mistaken for each other, and the buckets have bounds.
pub open spec fn is_orderly(r: Recorded) -> bool {
    &&& are_bounds(r.bounds)
    &&& forall|s: Series| #[trigger] r.totals.contains_key(s) ==> is_base_name(s.0) && is_plain_name(s.1)
    &&& forall|s: Series| #[trigger] r.gauges.contains_key(s) ==> is_base_name(s.0) && is_plain_name(s.1)
    &&& forall|s: Series| #[trigger]
        observations(r.latencies, s) > 0 ==> is_base_name(s.0) && is_plain_name(s.1)
    &&& forall|name: Seq<char>, a: MetricKind, b: MetricKind| #[trigger]
        is_recorded(name, a, r) && #[trigger] is_recorded(name, b, r) ==> a == b
}

/// Whether no count is too large for its type.
pub open spec fn counts_fit(r: Recorded) -> bool {
    forall|s: Series| #[trigger] observations(r.latencies, s) <= u64::MAX
}

/// Whether each recorded metric is declared, and described where it has a
/// description of one line.
pub open spec fn shows_metrics(text: Seq<char>, r: Recorded) -> bool {
    forall|name: Seq<char>, kind: MetricKind| #[trigger]
        is_recorded(name, kind, r) ==> {
            &&& lines_of(text).contains(type_line(name, kind))
            &&& r.described.contains_key(name) && is_one_line(r.described[name]) ==> lines_of(text).contains(
                help_line(name, r.described[name]),
            )
        }
}

/// Whether a description is written as it is, in one line.
pub open spec fn is_one_line(text: Seq<char>) -> bool {
    forall|i: int| 0 <= i < text.len() ==> #[trigger] text[i] != '\\' && text[i] != '\n' && text[i] != '\r'
}

/// Whether everything that is recorded is given.
pub open spec fn shows_items(text: Seq<char>, r: Recorded) -> bool {
    forall|item: Item| #[trigger] item.is_in(r) ==> lines_of(text).contains(item.line(r))
}

/// Whether a line is empty, or describes a metric, or declares the kind of a
/// recorded one, or gives what is recorded.
pub open spec fn is_exposed_line(line: Seq<char>, r: Recorded) -> bool {
    ||| line.len() == 0
    ||| begins_with(line, "# HELP "@)
    ||| exists|name: Seq<char>, kind: MetricKind|
        line == type_line(name, kind) && #[trigger] is_recorded(name, kind, r)
    ||| exists|item: Item| #[trigger] item.is_in(r) && line == item.line(r)
}

/// Whether two different items are written as one line.
pub open spec fn are_written_alike(a: Item, b: Item, line: Seq<char>, r: Recorded) -> bool {
    a != b && a.is_in(r) && b.is_in(r) && a.line(r) == line && b.line(r) == line
}

/// Whether nothing is given but what is recorded, and that once: a line with a
/// number comes again only for another item that is written alike.
pub open spec fn shows_nothing_else(text: Seq<char>, r: Recorded) -> bool {
    let all = lines_of(text);
    &&& forall|i: int| 0 <= i < all.len() ==> is_exposed_line(#[trigger] all[i], r)
    &&& forall|i: int, j: int|
        0 <= i < j < all.len() && #[trigger] all[i] == #[trigger] all[j] ==> all[i].len() == 0 || all[i][0] == '#' || (
        exists|a: Item, b: Item| #[trigger] are_written_alike(a, b, all[i], r))
}

/// Whether no kind is declared but those of the recorded metrics.
pub open spec fn declares_only(text: Seq<char>, r: Recorded) -> bool {
    let all = lines_of(text);
    forall|i: int|
        0 <= i < all.len() && begins_with(#[trigger] all[i], "# TYPE "@) ==> exists|name: Seq<char>, kind: MetricKind|
            all[i] == type_line(name, kind) && #[trigger] is_recorded(name, kind, r)
}

/// What a text in the exposition format has, in whichever order its lines come.
pub open spec fn exposes(text: Seq<char>, r: Recorded) -> bool {
    &&& shows_metrics(text, r)
    &&& shows_items(text, r)
    &&& declares_only(text, r)
    &&& shows_nothing_else(text, r)
}

/// What is recorded once a counter, new ones from zero, has grown.
pub open spec fn counted(r: Recorded, series: Series, amount: u64) -> Recorded {
    Recorded { totals: r.totals.insert(series, wrapping_sum(total_of(r.totals, series), amount)), ..r }
}

/// What is recorded once a gauge is set, its value then being written as given.
pub open spec fn with_gauge(r: Recorded, series: Series, reading: u64, text: Seq<char>) -> Recorded {
    Recorded {
        gauges: r.gauges.insert(series, reading),
        gauge_texts: r.gauge_texts.insert(series, text),
        ..r
    }
}

/// Whether a number is how a gauge's value is written: exactly, as far as all
/// numbers are doubles.
pub open spec fn is_gauge_text(reading: u64, text: Seq<char>) -> bool {
    &&& !text.contains(' ')
    &&& reading <= EXACT_UP_TO ==> text == nat_text(reading as nat)
}

/// What is recorded once a histogram has observed a latency, its sum then being
/// written as given.
pub open spec fn observed(r: Recorded, series: Series, nanos: nat, sum: Seq<char>) -> Recorded {
    Recorded { latencies: r.latencies.insert((series, nanos)), sums: r.sums.insert(series, sum), ..r }
}

/// Whether nothing but descriptions differs.
pub open spec fn same_values(a: PrometheusRecorder, b: PrometheusRecorder) -> bool {
    recorded(a) == (Recorded { described: recorded(a).described, ..recorded(b) })
}

/// Whether nothing is recorded or described.
pub open spec fn is_empty_registry(r: PrometheusRecorder) -> bool {
    &&& counter_totals(r) == Map::<Series, u64>::empty()
    &&& gauge_values(r) == Map::<Series, u64>::empty()
    &&& observed_latencies(r) == Multiset::<(Series, nat)>::empty()
    &&& descriptions(r) == Map::<Seq<char>, Seq<char>>::empty()
}

/// `PrometheusBuilder::new`, `set_buckets` and `build_recorder`: an empty
/// registry whose histograms have the given bounds, converted to seconds.
/// `set_buckets` fails only on an empty list.
#[verifier::external_body]
fn build_recorder(bounds_millis: &Vec<u64>) -> (r: PrometheusRecorder)
    requires
        are_bounds(bounds_millis@),
    ensures
        is_empty_registry(r),
        bucket_bounds(r) == bounds_millis@,
{
    let bounds: Vec<_> = bounds_millis.iter().map(|m| Duration::from_millis(*m).as_secs_f64()).collect();
    PrometheusBuilder::new().set_buckets(&bounds).expect("the bounds are not empty").build_recorder()
}

/// `Recorder::register_counter` of the registry and `Counter::increment`: the
/// counter of that name and label, new ones from zero, grows by the amount,
/// wrapping around.
#[verifier::external_body]
fn increment_counter(recorder: &mut PrometheusRecorder, name: &str, label: &str, value: &str, amount: u64)
    requires
        is_plain_name(name@),
        is_plain_name(label@),
    ensures
        counter_totals(*final(recorder)) == counter_totals(*old(recorder)).insert(
            (name@, label@, value@),
            wrapping_sum(total_of(counter_totals(*old(recorder)), (name@, label@, value@)), amount),
        ),
        gauge_values(*final(recorder)) == gauge_values(*old(recorder)),
        gauge_texts(*final(recorder)) == gauge_texts(*old(recorder)),
        observed_latencies(*final(recorder)) == observed_latencies(*old(recorder)),
        latency_sums(*final(recorder)) == latency_sums(*old(recorder)),
        descriptions(*final(recorder)) == descriptions(*old(recorder)),
        bucket_bounds(*final(recorder)) == bucket_bounds(*old(recorder)),
{
    let labels = vec![::metrics::Label::new(label.to_owned(), value.to_owned())];
    let key = ::metrics::Key::from_parts(name.to_owned(), labels);
    let metadata = ::metrics::Metadata::new("trellis", ::metrics::Level::INFO, None);
    ::metrics::Recorder::register_counter(recorder, &key, &metadata).increment(amount);
}

/// `Recorder::register_gauge` of the registry and `Gauge::set`: the gauge of
/// that name and label has the value, as a double. The text of a double that is
/// not exact is not stated, but that there is no space in it.
#[verifier::external_body]
fn set_gauge(recorder: &mut PrometheusRecorder, name: &str, label: &str, value: &str, reading: u64)
    requires
        is_plain_name(name@),
        is_plain_name(label@),
    ensures
        gauge_values(*final(recorder)) == gauge_values(*old(recorder)).insert((name@, label@, value@), reading),
        gauge_texts(*final(recorder)) == gauge_texts(*old(recorder)).insert(
            (name@, label@, value@),
            gauge_texts(*final(recorder))[(name@, label@, value@)],
        ),
        is_gauge_text(reading, gauge_texts(*final(recorder))[(name@, label@, value@)]),
        counter_totals(*final(recorder)) == counter_totals(*old(recorder)),
        observed_latencies(*final(recorder)) == observed_latencies(*old(recorder)),
        latency_sums(*final(recorder)) == latency_sums(*old(recorder)),
        descriptions(*final(recorder)) == descriptions(*old(recorder)),
        bucket_bounds(*final(recorder)) == bucket_bounds(*old(recorder)),
{
    let labels = vec![::metrics::Label::new(label.to_owned(), value.to_owned())];
    let key = ::metrics::Key::from_parts(name.to_owned(), labels);
    let metadata = ::metrics::Metadata::new("trellis", ::metrics::Level::INFO, None);
    ::metrics::Recorder::register_gauge(recorder, &key, &metadata).set(Duration::from_secs(reading));
}

/// `Recorder::register_histogram` of the registry and `Histogram::record`: the
/// histogram of that name and label observes the latency, in seconds. How its sum
/// is written then is not stated, but that there is no space in it: it is a sum of
/// floating-point numbers.
#[verifier::external_body]
fn observe_latency(recorder: &mut PrometheusRecorder, name: &str, label: &str, value: &str, latency: Duration)
    requires
        is_plain_name(name@),
        is_plain_name(label@),
    ensures
        observed_latencies(*final(recorder)) == observed_latencies(*old(recorder)).insert(
            ((name@, label@, value@), nanos_of(latency)),
        ),
        latency_sums(*final(recorder)) == latency_sums(*old(recorder)).insert(
            (name@, label@, value@),
            latency_sums(*final(recorder))[(name@, label@, value@)],
        ),
        !latency_sums(*final(recorder))[(name@, label@, value@)].contains(' '),
        counter_totals(*final(recorder)) == counter_totals(*old(recorder)),
        gauge_values(*final(recorder)) == gauge_values(*old(recorder)),
        gauge_texts(*final(recorder)) == gauge_texts(*old(recorder)),
        descriptions(*final(recorder)) == descriptions(*old(recorder)),
        bucket_bounds(*final(recorder)) == bucket_bounds(*old(recorder)),
{
    let labels = vec![::metrics::Label::new(label.to_owned(), value.to_owned())];
    let key = ::metrics::Key::from_parts(name.to_owned(), labels);
    let metadata = ::metrics::Metadata::new("trellis", ::metrics::Level::INFO, None);
    ::metrics::Recorder::register_histogram(recorder, &key, &metadata).record(latency);
}

/// `Recorder::describe_histogram` of the registry, for a histogram in seconds:
/// a metric that has no description has this one.
#[verifier::external_body]
fn describe_latency(recorder: &mut PrometheusRecorder, name: &str, text: &str)
    requires
        is_plain_name(name@),
        !descriptions(*old(recorder)).contains_key(name@),
    ensures
        descriptions(*final(recorder)) == descriptions(*old(recorder)).insert(name@, text@),
        same_values(*final(recorder), *old(recorder)),
{
    ::metrics::Recorder::describe_histogram(
        recorder,
        name.to_owned().into(),
        Some(::metrics::Unit::Seconds),
        text.to_owned().into(),
    );
}

/// `Recorder::describe_counter` of the registry, without a unit: a metric
/// that has no description has this one.
#[verifier::external_body]
fn describe_counter(recorder: &mut PrometheusRecorder, name: &str, text: &str)
    requires
        is_plain_name(name@),
        !descriptions(*old(recorder)).contains_key(name@),
    ensures
        descriptions(*final(recorder)) == descriptions(*old(recorder)).insert(name@, text@),
        same_values(*final(recorder), *old(recorder)),
{
    ::metrics::Recorder::describe_counter(recorder, name.to_owned().into(), None, text.to_owned().into());
}

/// `Recorder::describe_gauge` of the registry, without a unit: a metric
/// that has no description has this one.
#[verifier::external_body]
fn describe_gauge(recorder: &mut PrometheusRecorder, name: &str, text: &str)
    requires
        is_plain_name(name@),
        !descriptions(*old(recorder)).contains_key(name@),
    ensures
        descriptions(*final(recorder)) == descriptions(*old(recorder)).insert(name@, text@),
        same_values(*final(recorder), *old(recorder)),
{
    ::metrics::Recorder::describe_gauge(recorder, name.to_owned().into(), None, text.to_owned().into());
}

/// `PrometheusRecorder::handle` and `PrometheusHandle::render`: the registry's
/// contents in the Prometheus text exposition format. Each metric has a line with
/// its description and one with its kind; each counter and gauge has one with its
/// number; each histogram has one for each bucket, with how many latencies it
/// observed up to the bound, one for infinity, one for the sum and one for the
/// count. There is no other line with a number, and each comes once. Quotes,
/// backslashes and newlines of a label's value are escaped in what is shown of it.
/// The order of the lines is that in which hash maps are walked, and is not
/// stated.
#[verifier::external_body]
fn render(recorder: &PrometheusRecorder) -> (r: String)
    requires
        is_orderly(recorded(*recorder)),
    ensures
        counts_fit(recorded(*recorder)) ==> exposes(r@, recorded(*recorder)),
{
    recorder.handle().render()
}

/// The time from a change's arrival at a transform to its application.
pub open spec fn transform_latency_metric() -> Seq<char> {
    "trellis_transform_latency_seconds"@
}

/// How many changes a transform applied.
pub open spec fn changes_applied_metric() -> Seq<char> {
    "trellis_changes_applied_total"@
}

/// The time from a source commit to its application by a transform that
/// nothing reads.
pub open spec fn end_to_end_latency_metric() -> Seq<char> {
    "trellis_end_to_end_latency_seconds"@
}

/// How many segments are in a state.
pub open spec fn staging_segments_metric() -> Seq<char> {
    "trellis_staging_segments"@
}

/// The latencies of a transform.
pub open spec fn transform_latency_series(transform: Seq<char>) -> Series {
    (transform_latency_metric(), "transform"@, transform)
}

/// The changes that a transform applied.
pub open spec fn changes_applied_series(transform: Seq<char>) -> Series {
    (changes_applied_metric(), "transform"@, transform)
}

/// The latencies up to a transform that nothing reads.
pub open spec fn end_to_end_latency_series(transform: Seq<char>) -> Series {
    (end_to_end_latency_metric(), "transform"@, transform)
}

/// The segments in a state.
pub open spec fn staging_segments_series(state: Seq<char>) -> Series {
    (staging_segments_metric(), "state"@, state)
}

/// Whether nothing but this library's metrics is recorded and described.
pub open spec fn is_of_this_library(r: Recorded) -> bool {
    &&& forall|s: Series| #[trigger] r.totals.contains_key(s) ==> s == changes_applied_series(s.2)
    &&& forall|s: Series| #[trigger]
        r.gauges.contains_key(s) ==> s == staging_segments_series(s.2) && is_gauge_text(r.gauges[s], r.gauge_texts[s])
    &&& forall|s: Series| #[trigger]
        observations(r.latencies, s) > 0 ==> (s == transform_latency_series(s.2) || s == end_to_end_latency_series(
            s.2,
        )) && !r.sums[s].contains(' ')
    &&& r.described == metric_descriptions()
    &&& r.bounds == latency_bounds()
}

/// What this library says of its metrics.
pub open spec fn metric_descriptions() -> Map<Seq<char>, Seq<char>> {
    Map::<Seq<char>, Seq<char>>::empty().insert(
        transform_latency_metric(),
        "Time from a change becoming available at a transform's input to its output being applied, labeled by transform."@,
    ).insert(
        changes_applied_metric(),
        "Count of changes applied, labeled by transform — the throughput denominator for trellis_transform_latency_seconds."@,
    ).insert(
        end_to_end_latency_metric(),
        "Time from the source commit to a terminal (sink) transform's apply, labeled by that terminal transform and summed across every source feeding it."@,
    ).insert(
        staging_segments_metric(),
        "Count of staging ring segments, labeled by state (active/sealed/draining/drained)."@,
    )
}

/// The four metrics are recorded under different names.
pub proof fn law_metrics_are_told_apart()
    ensures
        transform_latency_metric() != changes_applied_metric(),
        transform_latency_metric() != end_to_end_latency_metric(),
        transform_latency_metric() != staging_segments_metric(),
        changes_applied_metric() != end_to_end_latency_metric(),
        changes_applied_metric() != staging_segments_metric(),
        end_to_end_latency_metric() != staging_segments_metric(),
{
    reveal_strlit("trellis_transform_latency_seconds");
    reveal_strlit("trellis_changes_applied_total");
    reveal_strlit("trellis_end_to_end_latency_seconds");
    reveal_strlit("trellis_staging_segments");
    assert(transform_latency_metric()[8] == 't');
    assert(changes_applied_metric()[8] == 'c');
    assert(end_to_end_latency_metric()[8] == 'e');
    assert(staging_segments_metric()[8] == 's');
}

/// The names of this library's metrics and labels are plain.
pub proof fn law_names_are_plain()
    ensures
        is_plain_name(transform_latency_metric()),
        is_plain_name(changes_applied_metric()),
        is_plain_name(end_to_end_latency_metric()),
        is_plain_name(staging_segments_metric()),
        is_plain_name("transform"@),
        is_plain_name("state"@),
{
    reveal_strlit("trellis_transform_latency_seconds");
    reveal_strlit("trellis_changes_applied_total");
    reveal_strlit("trellis_end_to_end_latency_seconds");
    reveal_strlit("trellis_staging_segments");
    reveal_strlit("transform");
    reveal_strlit("state");
}

/// The upper bounds of latency buckets, in milliseconds: exponential, from ten
/// milliseconds to a minute.
pub open spec fn latency_bounds() -> Seq<u64> {
    seq![10, 25, 50, 100, 250, 500, 1000, 2500, 5000, 10000, 25000, 60000]
}

proof fn lemma_last_char(name: Seq<char>, suffix: Seq<char>)
    requires
        name.len() > 0,
        suffix.len() > 0,
        name.last() != suffix.last(),
    ensures
        !ends_with(name, suffix),
{
    if ends_with(name, suffix) {
        let tail = name.skip(name.len() - suffix.len());
        assert(tail[suffix.len() - 1] == name[name.len() - 1]);
    }
}

proof fn lemma_is_base_name(name: Seq<char>)
    requires
        is_plain_name(name),
        name.len() > 0,
        name.last() == 's' || name.last() == 'l',
    ensures
        is_base_name(name),
{
    reveal_strlit("bucket");
    reveal_strlit("sum");
    reveal_strlit("count");
    lemma_last_char(name, "bucket"@);
    lemma_last_char(name, "sum"@);
    lemma_last_char(name, "count"@);
}

/// This library's metrics cannot be mistaken for each other.
pub(crate) proof fn lemma_this_library_is_orderly(r: Recorded)
    requires
        is_of_this_library(r),
    ensures
        is_orderly(r),
{
    law_names_are_plain();
    law_metrics_are_told_apart();
    reveal_strlit("trellis_transform_latency_seconds");
    reveal_strlit("trellis_changes_applied_total");
    reveal_strlit("trellis_end_to_end_latency_seconds");
    reveal_strlit("trellis_staging_segments");
    lemma_is_base_name(transform_latency_metric());
    lemma_is_base_name(changes_applied_metric());
    lemma_is_base_name(end_to_end_latency_metric());
    lemma_is_base_name(staging_segments_metric());
    assert forall|name: Seq<char>, a: MetricKind, b: MetricKind| #[trigger]
        is_recorded(name, a, r) && #[trigger] is_recorded(name, b, r) implies a == b by {
        lemma_recorded_name(name, a, r);
        lemma_recorded_name(name, b, r);
    }
}

/// The name of a metric of this library, by its kind.
proof fn lemma_recorded_name(name: Seq<char>, kind: MetricKind, r: Recorded)
    requires
        is_of_this_library(r),
        is_recorded(name, kind, r),
    ensures
        match kind {
            MetricKind::Counter => name == changes_applied_metric(),
            MetricKind::Gauge => name == staging_segments_metric(),
            MetricKind::Histogram => name == transform_latency_metric() || name == end_to_end_latency_metric(),
        },
{
}

/// How often a histogram was observed once one more latency is.
pub(crate) proof fn lemma_one_more_observation(latencies: Multiset<(Series, nat)>, o: (Series, nat), s: Series)
    ensures
        observations(latencies.insert(o), s) == observations(latencies, s) + if o.0 == s {
            1nat
        } else {
            0
        },
        forall|millis: u64| o.0 != s ==> #[trigger] observations_up_to(latencies.insert(o), s, millis)
            == observations_up_to(latencies, s, millis),
{
    lemma_filter_insert(latencies, o, is_of_series(s));
    assert forall|millis: u64| o.0 != s implies #[trigger] observations_up_to(latencies.insert(o), s, millis)
        == observations_up_to(latencies, s, millis) by {
        lemma_filter_insert(latencies, o, is_up_to(s, millis));
    }
}

proof fn lemma_filter_insert(latencies: Multiset<(Series, nat)>, o: (Series, nat), f: spec_fn((Series, nat)) -> bool)
    ensures
        latencies.insert(o).filter(f).len() == latencies.filter(f).len() + if f(o) {
            1nat
        } else {
            0
        },
{
    broadcast use vstd::multiset::group_multiset_axioms;

    if f(o) {
        assert(latencies.insert(o).filter(f) =~= latencies.filter(f).insert(o));
    } else {
        assert(latencies.insert(o).filter(f) =~= latencies.filter(f));
    }
}

proof fn lemma_counted_is_of_this_library(r: Recorded, transform: Seq<char>)
    requires
        is_of_this_library(r),
    ensures
        is_of_this_library(counted(r, changes_applied_series(transform), 1)),
{
}

proof fn lemma_gauge_is_of_this_library(r: Recorded, state: Seq<char>, count: u64)
    requires
        is_of_this_library(r),
    ensures
        forall|text: Seq<char>|
            is_gauge_text(count, text) ==> is_of_this_library(
                #[trigger] with_gauge(r, staging_segments_series(state), count, text),
            ),
{
}

proof fn lemma_nothing_is_of_this_library(r: Recorded)
    requires
        r.totals == Map::<Series, u64>::empty(),
        r.gauges == Map::<Series, u64>::empty(),
        r.latencies == Multiset::<(Series, nat)>::empty(),
        r.described == metric_descriptions(),
        r.bounds == latency_bounds(),
    ensures
        is_of_this_library(r),
{
    broadcast use vstd::multiset::group_multiset_axioms;

    assert forall|s: Series| observations(r.latencies, s) == 0 by {
        assert(r.latencies.filter(is_of_series(s)) =~= Multiset::empty());
    }
}

proof fn lemma_observed_is_of_this_library(r: Recorded, series: Series, nanos: nat)
    requires
        is_of_this_library(r),
        series == transform_latency_series(series.2) || series == end_to_end_latency_series(series.2),
    ensures
        forall|sum: Seq<char>|
            !sum.contains(' ') ==> is_of_this_library(#[trigger] observed(r, series, nanos, sum)),
{
    assert forall|sum: Seq<char>| !sum.contains(' ') implies is_of_this_library(
        #[trigger] observed(r, series, nanos, sum),
    ) by {
        let after = observed(r, series, nanos, sum);
        assert forall|s: Series| #[trigger] observations(after.latencies, s) > 0 implies (s == transform_latency_series(
            s.2,
        ) || s == end_to_end_latency_series(s.2)) && !after.sums[s].contains(' ') by {
            lemma_one_more_observation(r.latencies, (series, nanos), s);
        }
    }
}

/// The metrics of a process: a registry with this library's four metrics.
#[derive(Debug)]
pub struct Metrics {
    recorder: PrometheusRecorder,
}

impl Metrics {
    /// What is recorded.
    pub closed spec fn contents(self) -> Recorded {
        recorded(self.recorder)
    }

    /// Whether nothing but this library's metrics is recorded and described.
    pub open spec fn well_formed(self) -> bool {
        is_of_this_library(self.contents())
    }

    /// A registry with this library's metrics described and nothing recorded.
    pub fn new() -> (r: Metrics)
        ensures
            r.well_formed(),
            r.contents().totals == Map::<Series, u64>::empty(),
            r.contents().gauges == Map::<Series, u64>::empty(),
            r.contents().latencies == Multiset::<(Series, nat)>::empty(),
    {
        let bounds: Vec<u64> = vec![10, 25, 50, 100, 250, 500, 1000, 2500, 5000, 10000, 25000, 60000];
        assert(bounds@ =~= latency_bounds());
        let mut recorder = build_recorder(&bounds);
        proof {
            law_metrics_are_told_apart();
            law_names_are_plain();
        }
        describe_latency(
            &mut recorder,
            "trellis_transform_latency_seconds",
            "Time from a change becoming available at a transform's input to its output being applied, labeled by transform.",
        );
        describe_counter(
            &mut recorder,
            "trellis_changes_applied_total",
            "Count of changes applied, labeled by transform — the throughput denominator for trellis_transform_latency_seconds.",
        );
        describe_latency(
            &mut recorder,
            "trellis_end_to_end_latency_seconds",
            "Time from the source commit to a terminal (sink) transform's apply, labeled by that terminal transform and summed across every source feeding it.",
        );
        describe_gauge(
            &mut recorder,
            "trellis_staging_segments",
            "Count of staging ring segments, labeled by state (active/sealed/draining/drained).",
        );
        proof {
            assert(descriptions(recorder) =~= metric_descriptions());
            lemma_nothing_is_of_this_library(recorded(recorder));
        }
        Metrics { recorder }
    }

    /// The registry's contents in the Prometheus text exposition format.
    pub fn render_prometheus(&self) -> (r: String)
        requires
            self.well_formed(),
        ensures
            counts_fit(self.contents()) ==> exposes(r@, self.contents()),
    {
        proof {
            lemma_this_library_is_orderly(self.contents());
        }
        render(&self.recorder)
    }
}

/// Records that a transform applied a change this long after it arrived.
pub fn record_transform_latency(metrics: &mut Metrics, transform: &str, latency: Duration)
    requires
        old(metrics).well_formed(),
    ensures
        final(metrics).well_formed(),
        final(metrics).contents() == observed(
            old(metrics).contents(),
            transform_latency_series(transform@),
            nanos_of(latency),
            final(metrics).contents().sums[transform_latency_series(transform@)],
        ),
{
    proof {
        law_names_are_plain();
    }
    let ghost before = metrics.contents();
    observe_latency(
        &mut metrics.recorder,
        "trellis_transform_latency_seconds",
        "transform",
        transform,
        latency,
    );
    proof {
        let series = transform_latency_series(transform@);
        let nanos = nanos_of(latency);
        lemma_observed_is_of_this_library(before, series, nanos);
        assert(metrics.contents() == observed(before, series, nanos, metrics.contents().sums[series]));
    }
}

/// Records that a change reached a transform that nothing reads this long after
/// its source commit.
pub fn record_end_to_end_latency(metrics: &mut Metrics, transform: &str, latency: Duration)
    requires
        old(metrics).well_formed(),
    ensures
        final(metrics).well_formed(),
        final(metrics).contents() == observed(
            old(metrics).contents(),
            end_to_end_latency_series(transform@),
            nanos_of(latency),
            final(metrics).contents().sums[end_to_end_latency_series(transform@)],
        ),
{
    proof {
        law_names_are_plain();
    }
    let ghost before = metrics.contents();
    observe_latency(
        &mut metrics.recorder,
        "trellis_end_to_end_latency_seconds",
        "transform",
        transform,
        latency,
    );
    proof {
        let series = end_to_end_latency_series(transform@);
        let nanos = nanos_of(latency);
        lemma_observed_is_of_this_library(before, series, nanos);
        assert(metrics.contents() == observed(before, series, nanos, metrics.contents().sums[series]));
    }
}

/// Counts one more change that a transform applied.
pub fn increment_changes_applied(metrics: &mut Metrics, transform: &str)
    requires
        old(metrics).well_formed(),
    ensures
        final(metrics).well_formed(),
        final(metrics).contents() == counted(old(metrics).contents(), changes_applied_series(transform@), 1),
{
    proof {
        law_names_are_plain();
    }
    let ghost before = metrics.contents();
    increment_counter(&mut metrics.recorder, "trellis_changes_applied_total", "transform", transform, 1);
    proof {
        lemma_counted_is_of_this_library(before, transform@);
        assert(metrics.contents() == counted(before, changes_applied_series(transform@), 1));
    }
}

/// Sets how many segments are in a state.
pub fn set_staging_segments(metrics: &mut Metrics, state: &str, count: u64)
    requires
        old(metrics).well_formed(),
    ensures
        final(metrics).well_formed(),
        final(metrics).contents() == with_gauge(
            old(metrics).contents(),
            staging_segments_series(state@),
            count,
            final(metrics).contents().gauge_texts[staging_segments_series(state@)],
        ),
{
    proof {
        law_names_are_plain();
    }
    let ghost before = metrics.contents();
    set_gauge(&mut metrics.recorder, "trellis_staging_segments", "state", state, count);
    proof {
        let series = staging_segments_series(state@);
        lemma_gauge_is_of_this_library(before, state@, count);
        assert(metrics.contents() == with_gauge(before, series, count, metrics.contents().gauge_texts[series]));
    }
}

/// Recording changes its own series alone: a counter grows by the amount, from zero
/// where it is new, around two to the power of sixty-four; a gauge has the reading;
/// a histogram observed one latency more.
pub proof fn law_recording_changes_its_series(
    r: Recorded,
    series: Series,
    other: Series,
    amount: u64,
    nanos: nat,
    text: Seq<char>,
)
    ensures
        counted(r, series, amount).totals.contains_key(series),
        r.totals.contains_key(series) ==> (counted(r, series, amount).totals[series] - r.totals[series] - amount)
            % 0x1_0000_0000_0000_0000 == 0,
        !r.totals.contains_key(series) ==> counted(r, series, amount).totals[series] == amount,
        other != series ==> (counted(r, series, amount).totals.contains_key(other) <==> r.totals.contains_key(other)),
        other != series && r.totals.contains_key(other) ==> counted(r, series, amount).totals[other]
            == r.totals[other],
        counted(r, series, amount).gauges == r.gauges,
        counted(r, series, amount).latencies == r.latencies,
        with_gauge(r, series, amount, text).gauges.contains_key(series),
        with_gauge(r, series, amount, text).gauges[series] == amount,
        with_gauge(r, series, amount, text).gauge_texts[series] == text,
        other != series ==> with_gauge(r, series, amount, text).gauges[other] == r.gauges[other],
        with_gauge(r, series, amount, text).totals == r.totals,
        with_gauge(r, series, amount, text).latencies == r.latencies,
        observed(r, series, nanos, text).latencies == r.latencies.insert((series, nanos)),
        observed(r, series, nanos, text).totals == r.totals,
        observed(r, series, nanos, text).gauges == r.gauges,
{
}

/// The metrics' names, and what their series are labelled with.
pub proof fn law_metric_names(value: Seq<char>)
    ensures
        transform_latency_series(value) == ("trellis_transform_latency_seconds"@, "transform"@, value),
        changes_applied_series(value) == ("trellis_changes_applied_total"@, "transform"@, value),
        end_to_end_latency_series(value) == ("trellis_end_to_end_latency_seconds"@, "transform"@, value),
        staging_segments_series(value) == ("trellis_staging_segments"@, "state"@, value),
{
}

} // verus!
