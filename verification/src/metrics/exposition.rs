//! Reading the Prometheus text exposition back into samples.
//!
//! This reads the shapes that are recorded here: counters, gauges and
//! histograms. Numbers are read elsewhere: [`number_texts`] lists the texts
//! that may be numbers, and [`parse_prometheus_text`] takes what they were read as.

use super::labels::{labels_view, parse_labels, parsed_labels};
use crate::map::TextMap;
use crate::order::{comes_before, lemma_less_total, lemma_less_transitive, text_less};
use crate::text::{
    begins_with, ends_with, find, find_last, lines, lines_of, same, split_at_first, split_at_last, strip_prefix,
    strip_suffix, texts, without_last,
};
use crate::lists::{lemma_filter_none, lemma_filter_push};
use vstd::prelude::*;

verus! {

/// What kind of metric a series belongs to.
#[derive(Debug, Clone, Copy, PartialEq, Eq, Structural)]
pub enum MetricKind {
    /// A total that only grows.
    Counter,
    /// A value that goes up and down.
    Gauge,
    /// A distribution of values.
    Histogram,
}

impl MetricKind {
    /// The kind's name.
    pub open spec fn name(self) -> Seq<char> {
        match self {
            MetricKind::Counter => "counter"@,
            MetricKind::Gauge => "gauge"@,
            MetricKind::Histogram => "histogram"@,
        }
    }

    /// The kind's name, as a `# TYPE` line and the rollup table spell it.
    pub fn as_sql(self) -> (r: &'static str)
        ensures
            r@ == self.name(),
    {
        match self {
            MetricKind::Counter => "counter",
            MetricKind::Gauge => "gauge",
            MetricKind::Histogram => "histogram",
        }
    }
}

/// The kind of the given name, if it is one of the three.
pub open spec fn kind_named(name: Seq<char>) -> Option<MetricKind> {
    if name == "counter"@ {
        Some(MetricKind::Counter)
    } else if name == "gauge"@ {
        Some(MetricKind::Gauge)
    } else if name == "histogram"@ {
        Some(MetricKind::Histogram)
    } else {
        None
    }
}

fn kind_of_name(name: &str) -> (r: Option<MetricKind>)
    ensures
        r == kind_named(name@),
{
    if same(name, "counter") {
        Some(MetricKind::Counter)
    } else if same(name, "gauge") {
        Some(MetricKind::Gauge)
    } else if same(name, "histogram") {
        Some(MetricKind::Histogram)
    } else {
        None
    }
}

/// A number, as it was read: the bits of its IEEE 754 double, and the number as
/// an unsigned integer.
#[derive(Debug, Clone, Copy, PartialEq, Eq, Structural)]
pub struct Reading {
    /// The bits of the IEEE 754 double.
    pub bits: u64,
    /// The number without its fraction, at the nearest end of the range where
    /// it is outside.
    pub whole: u64,
}

impl Reading {
    /// The number's place in the total order of doubles: negative numbers by
    /// falling magnitude, then the others by rising magnitude.
    pub open spec fn rank(self) -> int {
        if self.bits < 0x8000_0000_0000_0000 {
            self.bits + 0x8000_0000_0000_0000
        } else {
            0xffff_ffff_ffff_ffff - self.bits
        }
    }

    fn order_key(self) -> (r: u64)
        ensures
            r == self.rank(),
    {
        if self.bits < 0x8000_0000_0000_0000 {
            self.bits + 0x8000_0000_0000_0000
        } else {
            0xffff_ffff_ffff_ffff - self.bits
        }
    }
}

/// One series' current values.
#[derive(Debug, Clone, PartialEq, Eq)]
pub struct MetricSample {
    /// The metric; for a histogram the name without a suffix.
    pub name: String,
    /// Its kind.
    pub kind: MetricKind,
    /// The labels, sorted.
    pub labels: Vec<(String, String)>,
    /// The value of a counter or a gauge.
    pub value: Option<Reading>,
    /// A histogram's upper bounds with the counts up to them, in ascending
    /// order, without the one for infinity.
    pub buckets: Vec<(Reading, u64)>,
    /// A histogram's sum.
    pub sum: Option<Reading>,
    /// A histogram's count.
    pub count: Option<u64>,
}

/// The labels of a series.
pub type Labels = Seq<(Seq<char>, Seq<char>)>;

/// The model of a [`MetricSample`].
pub struct SampleModel {
    /// The metric.
    pub name: Seq<char>,
    /// Its kind.
    pub kind: MetricKind,
    /// The labels, sorted.
    pub labels: Labels,
    /// The value of a counter or a gauge.
    pub value: Option<Reading>,
    /// A histogram's upper bounds with the counts up to them.
    pub buckets: Seq<(Reading, u64)>,
    /// A histogram's sum.
    pub sum: Option<Reading>,
    /// A histogram's count.
    pub count: Option<u64>,
}

impl View for MetricSample {
    type V = SampleModel;

    open spec fn view(&self) -> SampleModel {
        SampleModel {
            name: self.name@,
            kind: self.kind,
            labels: labels_view(self.labels@),
            value: self.value,
            buckets: self.buckets@,
            sum: self.sum,
            count: self.count,
        }
    }
}

/// The models of samples.
pub open spec fn samples_view(samples: Seq<MetricSample>) -> Seq<SampleModel> {
    samples.map_values(|s: MetricSample| s@)
}

/// Whether one label comes before another: by key, then by value.
pub open spec fn label_less(a: (Seq<char>, Seq<char>), b: (Seq<char>, Seq<char>)) -> bool {
    text_less(a.0, b.0) || (a.0 == b.0 && text_less(a.1, b.1))
}

fn label_before(a: &(String, String), b: &(String, String)) -> (r: bool)
    ensures
        r == label_less((a.0@, a.1@), (b.0@, b.1@)),
{
    comes_before(a.0.as_str(), b.0.as_str()) || (same(a.0.as_str(), b.0.as_str()) && comes_before(
        a.1.as_str(),
        b.1.as_str(),
    ))
}

/// Sorted labels with one more, behind all that do not come after it.
pub open spec fn with_label(sorted: Labels, label: (Seq<char>, Seq<char>)) -> Labels
    decreases sorted.len(),
{
    if sorted.len() == 0 || !label_less(label, sorted.last()) {
        sorted.push(label)
    } else {
        with_label(sorted.drop_last(), label).push(sorted.last())
    }
}

/// The labels, sorted by key, then by value.
pub open spec fn sorted_labels(labels: Labels) -> Labels
    decreases labels.len(),
{
    if labels.len() == 0 {
        seq![]
    } else {
        with_label(sorted_labels(labels.drop_last()), labels.last())
    }
}

proof fn lemma_with_label_at(sorted: Labels, label: (Seq<char>, Seq<char>), i: int)
    requires
        0 <= i <= sorted.len(),
        forall|j: int| i <= j < sorted.len() ==> label_less(label, #[trigger] sorted[j]),
        i > 0 ==> !label_less(label, sorted[i - 1]),
    ensures
        with_label(sorted, label) == sorted.insert(i, label),
    decreases sorted.len(),
{
    if i < sorted.len() {
        assert(label_less(label, sorted[sorted.len() - 1]));
        let front = sorted.drop_last();
        assert forall|j: int| i <= j < front.len() implies label_less(label, #[trigger] front[j]) by {
            assert(front[j] == sorted[j]);
        }
        lemma_with_label_at(front, label, i);
        assert(front.insert(i, label).push(sorted.last()) =~= sorted.insert(i, label));
    } else {
        assert(sorted.push(label) =~= sorted.insert(i, label));
    }
}

/// The labels, sorted by key, then by value.
fn sort_labels(labels: Vec<(String, String)>) -> (r: Vec<(String, String)>)
    ensures
        labels_view(r@) == sorted_labels(labels_view(labels@)),
{
    let mut r: Vec<(String, String)> = Vec::new();
    let ghost all = labels_view(labels@);
    assert(labels_view(r@) =~= sorted_labels(all.take(0)));
    for n in 0..labels.len()
        invariant
            all == labels_view(labels@),
            labels_view(r@) == sorted_labels(all.take(n as int)),
    {
        let label = (labels[n].0.clone(), labels[n].1.clone());
        let ghost model = (label.0@, label.1@);
        let ghost before = labels_view(r@);
        assert(all.take(n + 1).drop_last() =~= all.take(n as int));
        assert(all[n as int] == model);
        let mut i: usize = r.len();
        while i > 0 && label_before(&label, &r[i - 1])
            invariant
                i <= r@.len(),
                before == labels_view(r@),
                model == (label.0@, label.1@),
                forall|j: int| i <= j < before.len() ==> label_less(model, #[trigger] before[j]),
            decreases i,
        {
            i = i - 1;
        }
        proof {
            if i > 0 {
                assert(before[i - 1] == (r@[i - 1].0@, r@[i - 1].1@));
            }
            lemma_with_label_at(before, model, i as int);
        }
        r.insert(i, label);
        assert(labels_view(r@) =~= before.insert(i as int, model));
    }
    assert(all.take(labels@.len() as int) =~= all);
    r
}

/// What names a series: its metric and its sorted labels.
pub struct SeriesKey {
    /// The metric.
    pub name: Seq<char>,
    /// The sorted labels.
    pub labels: Labels,
}

/// Whether one list of labels comes before another, label by label.
pub open spec fn labels_less(a: Labels, b: Labels) -> bool
    decreases a.len(),
{
    if b.len() == 0 {
        false
    } else if a.len() == 0 {
        true
    } else if a[0] == b[0] {
        labels_less(a.drop_first(), b.drop_first())
    } else {
        label_less(a[0], b[0])
    }
}

/// Whether one series comes before another: by metric, then by labels.
pub open spec fn key_less(a: SeriesKey, b: SeriesKey) -> bool {
    text_less(a.name, b.name) || (a.name == b.name && labels_less(a.labels, b.labels))
}

fn same_label(a: &(String, String), b: &(String, String)) -> (r: bool)
    ensures
        r == ((a.0@, a.1@) == (b.0@, b.1@)),
{
    same(a.0.as_str(), b.0.as_str()) && same(a.1.as_str(), b.1.as_str())
}

fn same_labels(a: &Vec<(String, String)>, b: &Vec<(String, String)>) -> (r: bool)
    ensures
        r == (labels_view(a@) == labels_view(b@)),
{
    let ghost x = labels_view(a@);
    let ghost y = labels_view(b@);
    if a.len() != b.len() {
        assert(x.len() != y.len());
        return false;
    }
    for i in 0..a.len()
        invariant
            x == labels_view(a@),
            y == labels_view(b@),
            a@.len() == b@.len(),
            forall|j: int| 0 <= j < i ==> x[j] == y[j],
    {
        if !same_label(&a[i], &b[i]) {
            assert(x[i as int] != y[i as int]);
            return false;
        }
    }
    assert(x =~= y);
    true
}

fn labels_before(a: &Vec<(String, String)>, b: &Vec<(String, String)>) -> (r: bool)
    ensures
        r == labels_less(labels_view(a@), labels_view(b@)),
{
    let ghost x = labels_view(a@);
    let ghost y = labels_view(b@);
    let mut i: usize = 0;
    assert(x.skip(0) =~= x);
    assert(y.skip(0) =~= y);
    while i < a.len() && i < b.len()
        invariant
            x == labels_view(a@),
            y == labels_view(b@),
            i <= a@.len(),
            i <= b@.len(),
            labels_less(x, y) == labels_less(x.skip(i as int), y.skip(i as int)),
        decreases a@.len() - i,
    {
        proof {
            assert(x.skip(i as int).drop_first() =~= x.skip(i + 1));
            assert(y.skip(i as int).drop_first() =~= y.skip(i + 1));
            assert(x.skip(i as int)[0] == (a@[i as int].0@, a@[i as int].1@));
            assert(y.skip(i as int)[0] == (b@[i as int].0@, b@[i as int].1@));
        }
        if !same_label(&a[i], &b[i]) {
            return label_before(&a[i], &b[i]);
        }
        i = i + 1;
    }
    i < b.len()
}

/// Series in order, with one more unless it is there.
pub open spec fn with_key(keys: Seq<SeriesKey>, key: SeriesKey) -> Seq<SeriesKey>
    decreases keys.len(),
{
    if keys.len() == 0 {
        seq![key]
    } else if keys[0] == key {
        keys
    } else if key_less(keys[0], key) {
        seq![keys[0]] + with_key(keys.drop_first(), key)
    } else {
        seq![key] + keys
    }
}

/// Buckets by upper bound, with one more behind all whose bound is not larger.
pub open spec fn with_bucket(buckets: Seq<(Reading, u64)>, bucket: (Reading, u64)) -> Seq<(Reading, u64)>
    decreases buckets.len(),
{
    if buckets.len() == 0 || buckets.last().0.rank() <= bucket.0.rank() {
        buckets.push(bucket)
    } else {
        with_bucket(buckets.drop_last(), bucket).push(buckets.last())
    }
}

/// What one line of the exposition says.
pub enum EventModel {
    /// A series' value.
    Scalar {
        /// The metric.
        name: Seq<char>,
        /// Its kind.
        kind: MetricKind,
        /// The sorted labels.
        labels: Labels,
        /// The value.
        value: Reading,
    },
    /// A bucket of a histogram.
    Bucket {
        /// The histogram.
        key: SeriesKey,
        /// The upper bound and the count up to it.
        bucket: (Reading, u64),
    },
    /// The sum of a histogram.
    Sum {
        /// The histogram.
        key: SeriesKey,
        /// The sum.
        sum: Reading,
    },
    /// The count of a histogram.
    Count {
        /// The histogram.
        key: SeriesKey,
        /// The count.
        count: u64,
    },
}

/// The kinds that `# TYPE` lines declare: the last line for a metric counts.
pub open spec fn declared_kinds(all: Seq<Seq<char>>) -> Map<Seq<char>, MetricKind>
    decreases all.len(),
{
    if all.len() == 0 {
        Map::empty()
    } else {
        let before = declared_kinds(all.drop_last());
        match declaration(all.last()) {
            Some((name, kind)) => before.insert(name, kind),
            None => before,
        }
    }
}

/// The metric and kind that a `# TYPE` line declares.
pub open spec fn declaration(line: Seq<char>) -> Option<(Seq<char>, MetricKind)> {
    let rest = line.skip("# TYPE "@.len() as int);
    let at = find_last(rest, ' ');
    if begins_with(line, "# TYPE "@) && at >= 0 {
        match kind_named(rest.skip(at + 1)) {
            Some(kind) => Some((rest.take(at), kind)),
            None => None,
        }
    } else {
        None
    }
}

/// Name with labels, and value, of a sample line.
pub open spec fn sample_parts(line: Seq<char>) -> Option<(Seq<char>, Seq<char>)> {
    let at = find_last(line, ' ');
    if line.len() == 0 || line[0] == '#' || at < 0 {
        None
    } else {
        Some((line.take(at), line.skip(at + 1)))
    }
}

/// The labels that follow a sample's name.
pub open spec fn sample_labels(name_and_labels: Seq<char>) -> Labels {
    let at = find(name_and_labels, '{');
    let rest = name_and_labels.skip(at + 1);
    if at < name_and_labels.len() {
        parsed_labels(
            if ends_with(rest, "}"@) {
                without_last(rest, 1)
            } else {
                rest
            },
        )
    } else {
        seq![]
    }
}

/// Whether a metric is declared a histogram.
pub open spec fn is_histogram(kinds: Map<Seq<char>, MetricKind>, name: Seq<char>) -> bool {
    kinds.contains_key(name) && kinds[name] is Histogram
}

/// Whether `name` is a histogram's name with `suffix` behind it.
pub open spec fn is_part_of_histogram(kinds: Map<Seq<char>, MetricKind>, name: Seq<char>, suffix: Seq<char>) -> bool {
    ends_with(name, suffix) && is_histogram(kinds, without_last(name, suffix.len()))
}

/// The position of the first label with the key `le`; the number of labels
/// where there is none.
pub open spec fn bound_position(labels: Labels) -> int
    decreases labels.len(),
{
    if labels.len() == 0 || labels[0].0 == "le"@ {
        0
    } else {
        1 + bound_position(labels.drop_first())
    }
}

/// What a sample's name, labels and value say.
pub open spec fn sample_event(
    name: Seq<char>,
    labels: Labels,
    value: Reading,
    kinds: Map<Seq<char>, MetricKind>,
    numbers: Map<Seq<char>, Reading>,
) -> Option<EventModel> {
    if kinds.contains_key(name) {
        Some(EventModel::Scalar { name, kind: kinds[name], labels: sorted_labels(labels), value })
    } else if is_part_of_histogram(kinds, name, "_bucket"@) {
        let at = bound_position(labels);
        let bound = labels[at].1;
        if at < labels.len() && bound != "+Inf"@ && numbers.contains_key(bound) {
            Some(
                EventModel::Bucket {
                    key: SeriesKey {
                        name: without_last(name, "_bucket"@.len()),
                        labels: sorted_labels(labels.remove(at)),
                    },
                    bucket: (numbers[bound], value.whole),
                },
            )
        } else {
            None
        }
    } else if is_part_of_histogram(kinds, name, "_sum"@) {
        Some(
            EventModel::Sum {
                key: SeriesKey { name: without_last(name, "_sum"@.len()), labels: sorted_labels(labels) },
                sum: value,
            },
        )
    } else if is_part_of_histogram(kinds, name, "_count"@) {
        Some(
            EventModel::Count {
                key: SeriesKey { name: without_last(name, "_count"@.len()), labels: sorted_labels(labels) },
                count: value.whole,
            },
        )
    } else {
        None
    }
}

/// What a line says, given the declared kinds and the texts that are numbers.
pub open spec fn line_event(
    line: Seq<char>,
    kinds: Map<Seq<char>, MetricKind>,
    numbers: Map<Seq<char>, Reading>,
) -> Option<EventModel> {
    match sample_parts(line) {
        Some((name_and_labels, value)) => if numbers.contains_key(value) {
            sample_event(
                name_and_labels.take(find(name_and_labels, '{')),
                sample_labels(name_and_labels),
                numbers[value],
                kinds,
                numbers,
            )
        } else {
            None
        },
        None => None,
    }
}

/// What the lines say, in order.
pub open spec fn events_of(
    all: Seq<Seq<char>>,
    kinds: Map<Seq<char>, MetricKind>,
    numbers: Map<Seq<char>, Reading>,
) -> Seq<EventModel>
    decreases all.len(),
{
    if all.len() == 0 {
        seq![]
    } else {
        match line_event(all.last(), kinds, numbers) {
            Some(event) => events_of(all.drop_last(), kinds, numbers).push(event),
            None => events_of(all.drop_last(), kinds, numbers),
        }
    }
}

/// The histogram that an event belongs to.
pub open spec fn histogram_of(event: EventModel) -> Option<SeriesKey> {
    match event {
        EventModel::Scalar { .. } => None,
        EventModel::Bucket { key, .. } => Some(key),
        EventModel::Sum { key, .. } => Some(key),
        EventModel::Count { key, .. } => Some(key),
    }
}

/// The samples of single values, in order.
pub open spec fn scalars(events: Seq<EventModel>) -> Seq<SampleModel>
    decreases events.len(),
{
    if events.len() == 0 {
        seq![]
    } else {
        let before = scalars(events.drop_last());
        match events.last() {
            EventModel::Scalar { name, kind, labels, value } => before.push(
                SampleModel { name, kind, labels, value: Some(value), buckets: seq![], sum: None, count: None },
            ),
            _ => before,
        }
    }
}

/// The histograms, by name and labels.
pub open spec fn histogram_keys(events: Seq<EventModel>) -> Seq<SeriesKey>
    decreases events.len(),
{
    if events.len() == 0 {
        seq![]
    } else {
        let before = histogram_keys(events.drop_last());
        match histogram_of(events.last()) {
            Some(key) => with_key(before, key),
            None => before,
        }
    }
}

/// The buckets of a histogram, by upper bound.
pub open spec fn buckets_of(events: Seq<EventModel>, key: SeriesKey) -> Seq<(Reading, u64)>
    decreases events.len(),
{
    if events.len() == 0 {
        seq![]
    } else {
        let before = buckets_of(events.drop_last(), key);
        match events.last() {
            EventModel::Bucket { key: k, bucket } => if k == key {
                with_bucket(before, bucket)
            } else {
                before
            },
            _ => before,
        }
    }
}

/// The last sum of a histogram.
pub open spec fn sum_of(events: Seq<EventModel>, key: SeriesKey) -> Option<Reading>
    decreases events.len(),
{
    if events.len() == 0 {
        None
    } else {
        let before = sum_of(events.drop_last(), key);
        match events.last() {
            EventModel::Sum { key: k, sum } => if k == key {
                Some(sum)
            } else {
                before
            },
            _ => before,
        }
    }
}

/// The last count of a histogram.
pub open spec fn count_of(events: Seq<EventModel>, key: SeriesKey) -> Option<u64>
    decreases events.len(),
{
    if events.len() == 0 {
        None
    } else {
        let before = count_of(events.drop_last(), key);
        match events.last() {
            EventModel::Count { key: k, count } => if k == key {
                Some(count)
            } else {
                before
            },
            _ => before,
        }
    }
}

/// The sample of a histogram.
pub open spec fn histogram_sample(events: Seq<EventModel>, key: SeriesKey) -> SampleModel {
    SampleModel {
        name: key.name,
        kind: MetricKind::Histogram,
        labels: key.labels,
        value: None,
        buckets: buckets_of(events, key),
        sum: sum_of(events, key),
        count: count_of(events, key),
    }
}

/// The samples that events make up: the single values in order, then the
/// histograms by name and labels.
pub open spec fn samples_of(events: Seq<EventModel>) -> Seq<SampleModel> {
    scalars(events) + histogram_keys(events).map_values(|k: SeriesKey| histogram_sample(events, k))
}

/// The samples that a text exposes.
pub open spec fn exposed_samples(text: Seq<char>, numbers: Map<Seq<char>, Reading>) -> Seq<SampleModel> {
    let all = lines_of(text);
    samples_of(events_of(all, declared_kinds(all), numbers))
}

/// The kinds that `# TYPE` lines declare.
fn read_kinds(all: &Vec<String>) -> (r: TextMap<MetricKind>)
    ensures
        r@ == declared_kinds(texts(all@)),
{
    let mut r: TextMap<MetricKind> = TextMap::new();
    let ghost model = texts(all@);
    assert(r@ == declared_kinds(model.take(0)));
    for i in 0..all.len()
        invariant
            model == texts(all@),
            r@ == declared_kinds(model.take(i as int)),
    {
        assert(model.take(i + 1).drop_last() =~= model.take(i as int));
        assert(model.take(i + 1).last() == all@[i as int]@);
        if let Some(rest) = strip_prefix(all[i].as_str(), "# TYPE ") {
            if let Some((name, kind_name)) = split_at_last(rest.as_str(), ' ') {
                if let Some(kind) = kind_of_name(kind_name.as_str()) {
                    r = r.insert(name, kind);
                }
            }
        }
    }
    assert(model.take(all@.len() as int) =~= model);
    r
}

/// What one line of the exposition says.
enum Event {
    Scalar { name: String, kind: MetricKind, labels: Vec<(String, String)>, value: Reading },
    Bucket { name: String, labels: Vec<(String, String)>, bound: Reading, count: u64 },
    Sum { name: String, labels: Vec<(String, String)>, sum: Reading },
    Count { name: String, labels: Vec<(String, String)>, count: u64 },
}

impl View for Event {
    type V = EventModel;

    closed spec fn view(&self) -> EventModel {
        match *self {
            Event::Scalar { name, kind, labels, value } => EventModel::Scalar {
                name: name@,
                kind,
                labels: labels_view(labels@),
                value,
            },
            Event::Bucket { name, labels, bound, count } => EventModel::Bucket {
                key: SeriesKey { name: name@, labels: labels_view(labels@) },
                bucket: (bound, count),
            },
            Event::Sum { name, labels, sum } => EventModel::Sum {
                key: SeriesKey { name: name@, labels: labels_view(labels@) },
                sum,
            },
            Event::Count { name, labels, count } => EventModel::Count {
                key: SeriesKey { name: name@, labels: labels_view(labels@) },
                count,
            },
        }
    }
}

proof fn lemma_bound_position(labels: Labels, i: int)
    requires
        0 <= i <= labels.len(),
        forall|j: int| 0 <= j < i ==> (#[trigger] labels[j]).0 != "le"@,
        i < labels.len() ==> labels[i].0 == "le"@,
    ensures
        bound_position(labels) == i,
    decreases labels.len(),
{
    if i > 0 {
        assert(labels[0].0 != "le"@);
        let rest = labels.drop_first();
        assert forall|j: int| 0 <= j < i - 1 implies (#[trigger] rest[j]).0 != "le"@ by {
            assert(labels[j + 1].0 != "le"@);
        }
        lemma_bound_position(rest, i - 1);
    }
}

/// The position of the first label with the key `le`.
fn find_bound(labels: &Vec<(String, String)>) -> (r: usize)
    ensures
        r <= labels@.len(),
        r == bound_position(labels_view(labels@)),
{
    let ghost model = labels_view(labels@);
    let mut i: usize = 0;
    while i < labels.len() && !same(labels[i].0.as_str(), "le")
        invariant
            i <= labels@.len(),
            model == labels_view(labels@),
            forall|j: int| 0 <= j < i ==> (#[trigger] model[j]).0 != "le"@,
        decreases labels@.len() - i,
    {
        i = i + 1;
    }
    proof {
        lemma_bound_position(model, i as int);
    }
    i
}

fn declared_histogram(kinds: &TextMap<MetricKind>, name: &str) -> (r: bool)
    ensures
        r == is_histogram(kinds@, name@),
{
    match kinds.get(name) {
        Some(kind) => match kind {
            MetricKind::Histogram => true,
            MetricKind::Counter | MetricKind::Gauge => false,
        },
        None => false,
    }
}

/// A histogram's name, where `name` is it with `suffix` behind it.
fn histogram_base(kinds: &TextMap<MetricKind>, name: &str, suffix: &str) -> (r: Option<String>)
    ensures
        match r {
            Some(base) => is_part_of_histogram(kinds@, name@, suffix@) && base@ == without_last(name@, suffix@.len()),
            None => !is_part_of_histogram(kinds@, name@, suffix@),
        },
{
    match strip_suffix(name, suffix) {
        Some(base) => if declared_histogram(kinds, base.as_str()) {
            Some(base)
        } else {
            None
        },
        None => None,
    }
}

/// What a sample's name, labels and value say.
fn read_sample(
    name: String,
    labels: Vec<(String, String)>,
    value: Reading,
    kinds: &TextMap<MetricKind>,
    numbers: &TextMap<Reading>,
) -> (r: Option<Event>)
    ensures
        match r {
            Some(event) => sample_event(name@, labels_view(labels@), value, kinds@, numbers@) == Some(event@),
            None => sample_event(name@, labels_view(labels@), value, kinds@, numbers@) is None,
        },
{
    if let Some(kind) = kinds.get(name.as_str()) {
        return Some(Event::Scalar { name, kind: *kind, labels: sort_labels(labels), value });
    }
    if let Some(base) = histogram_base(kinds, name.as_str(), "_bucket") {
        let at = find_bound(&labels);
        if at == labels.len() {
            return None;
        }
        let mut rest = labels;
        let ghost before = labels_view(rest@);
        let (_, bound) = rest.remove(at);
        assert(before[at as int].1 == bound@);
        assert(labels_view(rest@) =~= before.remove(at as int));
        if same(bound.as_str(), "+Inf") {
            return None;
        }
        return match numbers.get(bound.as_str()) {
            Some(read) => Some(
                Event::Bucket { name: base, labels: sort_labels(rest), bound: *read, count: value.whole },
            ),
            None => None,
        };
    }
    if let Some(base) = histogram_base(kinds, name.as_str(), "_sum") {
        return Some(Event::Sum { name: base, labels: sort_labels(labels), sum: value });
    }
    if let Some(base) = histogram_base(kinds, name.as_str(), "_count") {
        return Some(Event::Count { name: base, labels: sort_labels(labels), count: value.whole });
    }
    None
}

/// Whether a line is no sample: empty, or a comment.
fn is_comment(line: &str) -> (r: bool)
    ensures
        r == (line@.len() == 0 || line@[0] == '#'),
{
    let chars = crate::text::chars_of(line);
    chars.len() == 0 || chars[0] == '#'
}

/// Name with labels, and value, of a sample line.
fn split_sample(line: &str) -> (r: Option<(String, String)>)
    ensures
        match r {
            Some((name_and_labels, value)) => sample_parts(line@) == Some((name_and_labels@, value@)),
            None => sample_parts(line@) is None,
        },
{
    if is_comment(line) {
        return None;
    }
    split_at_last(line, ' ')
}

/// The name of a sample, and its labels.
fn split_name(name_and_labels: &str) -> (r: (String, Vec<(String, String)>))
    ensures
        r.0@ == name_and_labels@.take(find(name_and_labels@, '{')),
        labels_view(r.1@) == sample_labels(name_and_labels@),
{
    let (name, rest) = split_at_first(name_and_labels, '{');
    let labels: Vec<(String, String)> = match rest {
        Some(rest) => {
            proof {
                reveal_strlit("}");
            }
            match strip_suffix(rest.as_str(), "}") {
                Some(body) => parse_labels(body.as_str()),
                None => parse_labels(rest.as_str()),
            }
        },
        None => Vec::new(),
    };
    assert(rest is None ==> labels_view(labels@) =~= seq![]);
    (name, labels)
}

/// What a line says.
fn read_line(line: &str, kinds: &TextMap<MetricKind>, numbers: &TextMap<Reading>) -> (r: Option<Event>)
    ensures
        match r {
            Some(event) => line_event(line@, kinds@, numbers@) == Some(event@),
            None => line_event(line@, kinds@, numbers@) is None,
        },
{
    match split_sample(line) {
        Some((name_and_labels, value)) => match numbers.get(value.as_str()) {
            Some(read) => {
                let (name, labels) = split_name(name_and_labels.as_str());
                read_sample(name, labels, *read, kinds, numbers)
            },
            None => None,
        },
        None => None,
    }
}

/// What is known of a histogram so far.
struct HistogramAccum {
    name: String,
    labels: Vec<(String, String)>,
    buckets: Vec<(Reading, u64)>,
    sum: Option<Reading>,
    count: Option<u64>,
}

impl HistogramAccum {
    spec fn key(self) -> SeriesKey {
        SeriesKey { name: self.name@, labels: labels_view(self.labels@) }
    }

    /// Whether this is what the events say of its histogram.
    spec fn follows(self, events: Seq<EventModel>) -> bool {
        &&& self.buckets@ == buckets_of(events, self.key())
        &&& self.sum == sum_of(events, self.key())
        &&& self.count == count_of(events, self.key())
    }
}

/// Whether the histograms are what the events say.
spec fn accumulated(histograms: Seq<HistogramAccum>, events: Seq<EventModel>) -> bool {
    &&& histograms.map_values(|h: HistogramAccum| h.key()) == histogram_keys(events)
    &&& forall|i: int| 0 <= i < histograms.len() ==> (#[trigger] histograms[i]).follows(events)
}

proof fn lemma_with_bucket_at(buckets: Seq<(Reading, u64)>, bucket: (Reading, u64), i: int)
    requires
        0 <= i <= buckets.len(),
        forall|j: int| i <= j < buckets.len() ==> (#[trigger] buckets[j]).0.rank() > bucket.0.rank(),
        i > 0 ==> buckets[i - 1].0.rank() <= bucket.0.rank(),
    ensures
        with_bucket(buckets, bucket) == buckets.insert(i, bucket),
    decreases buckets.len(),
{
    if i < buckets.len() {
        assert(buckets[buckets.len() - 1].0.rank() > bucket.0.rank());
        let front = buckets.drop_last();
        assert forall|j: int| i <= j < front.len() implies (#[trigger] front[j]).0.rank() > bucket.0.rank() by {
            assert(front[j] == buckets[j]);
        }
        lemma_with_bucket_at(front, bucket, i);
        assert(front.insert(i, bucket).push(buckets.last()) =~= buckets.insert(i, bucket));
    } else {
        assert(buckets.push(bucket) =~= buckets.insert(i, bucket));
    }
}

/// Adds a bucket, by upper bound.
fn add_bucket(buckets: &mut Vec<(Reading, u64)>, bound: Reading, count: u64)
    ensures
        final(buckets)@ == with_bucket(old(buckets)@, (bound, count)),
{
    let ghost before = buckets@;
    let key = bound.order_key();
    let mut i: usize = buckets.len();
    while i > 0 && buckets[i - 1].0.order_key() > key
        invariant
            i <= buckets@.len(),
            buckets@ == before,
            key == bound.rank(),
            forall|j: int| i <= j < before.len() ==> (#[trigger] before[j]).0.rank() > bound.rank(),
        decreases i,
    {
        i = i - 1;
    }
    proof {
        lemma_with_bucket_at(before, (bound, count), i as int);
    }
    buckets.insert(i, (bound, count));
}

proof fn lemma_with_key_at(keys: Seq<SeriesKey>, key: SeriesKey, i: int)
    requires
        0 <= i <= keys.len(),
        forall|j: int| 0 <= j < i ==> #[trigger] keys[j] != key && key_less(keys[j], key),
        i < keys.len() ==> keys[i] == key || !key_less(keys[i], key),
    ensures
        with_key(keys, key) == if i < keys.len() && keys[i] == key {
            keys
        } else {
            keys.insert(i, key)
        },
    decreases keys.len(),
{
    if i > 0 {
        assert(keys[0] != key && key_less(keys[0], key));
        let rest = keys.drop_first();
        assert forall|j: int| 0 <= j < i - 1 implies #[trigger] rest[j] != key && key_less(rest[j], key) by {
            assert(keys[j + 1] != key && key_less(keys[j + 1], key));
        }
        lemma_with_key_at(rest, key, i - 1);
        if i < keys.len() && keys[i] == key {
            assert(seq![keys[0]] + rest =~= keys);
        } else {
            assert(seq![keys[0]] + rest.insert(i - 1, key) =~= keys.insert(i, key));
        }
    } else if keys.len() > 0 {
        assert(seq![key] + keys =~= keys.insert(0, key));
    } else {
        assert(seq![key] =~= keys.insert(0, key));
    }
}

/// A histogram that no event belongs to has no buckets, sum or count.
proof fn lemma_unknown_histogram(events: Seq<EventModel>, key: SeriesKey)
    requires
        !histogram_keys(events).contains(key),
    ensures
        buckets_of(events, key) == Seq::<(Reading, u64)>::empty(),
        sum_of(events, key) is None,
        count_of(events, key) is None,
    decreases events.len(),
{
    if events.len() > 0 {
        let before = histogram_keys(events.drop_last());
        if let Some(k) = histogram_of(events.last()) {
            lemma_with_key_contains(before, k, key);
        }
        lemma_unknown_histogram(events.drop_last(), key);
    }
}

pub(crate) proof fn lemma_with_key_contains(keys: Seq<SeriesKey>, key: SeriesKey, other: SeriesKey)
    ensures
        with_key(keys, key).contains(other) <==> keys.contains(other) || other == key,
    decreases keys.len(),
{
    let all = with_key(keys, key);
    if keys.len() == 0 {
        assert(all[0] == key);
    } else if keys[0] == key {
    } else if key_less(keys[0], key) {
        let rest = keys.drop_first();
        lemma_with_key_contains(rest, key, other);
        let tail = with_key(rest, key);
        if keys.contains(other) {
            let i = choose|i: int| 0 <= i < keys.len() && keys[i] == other;
            if i > 0 {
                assert(rest[i - 1] == other);
                assert(tail.contains(other));
            } else {
                assert(all[0] == other);
            }
        }
        if tail.contains(other) {
            let i = choose|i: int| 0 <= i < tail.len() && tail[i] == other;
            assert(all[i + 1] == other);
            if rest.contains(other) {
                let j = choose|j: int| 0 <= j < rest.len() && rest[j] == other;
                assert(keys[j + 1] == other);
            }
        }
        if all.contains(other) {
            let i = choose|i: int| 0 <= i < all.len() && all[i] == other;
            if i > 0 {
                assert(tail[i - 1] == other);
                assert(tail.contains(other));
            } else {
                assert(keys[0] == other);
            }
        }
    } else {
        assert(all[0] == key);
        if keys.contains(other) {
            let i = choose|i: int| 0 <= i < keys.len() && keys[i] == other;
            assert(all[i + 1] == other);
        }
        if all.contains(other) {
            let i = choose|i: int| 0 <= i < all.len() && all[i] == other;
            if i > 0 {
                assert(keys[i - 1] == other);
            }
        }
    }
}

/// Makes sure that there is a histogram of the given name and labels, and says
/// where it is.
fn find_histogram(
    histograms: &mut Vec<HistogramAccum>,
    name: String,
    labels: Vec<(String, String)>,
    Ghost(events): Ghost<Seq<EventModel>>,
) -> (r: usize)
    requires
        accumulated(old(histograms)@, events),
    ensures
        ({
            let key = SeriesKey { name: name@, labels: labels_view(labels@) };
            &&& r < final(histograms)@.len()
            &&& final(histograms)@[r as int].key() == key
            &&& final(histograms)@.map_values(|h: HistogramAccum| h.key()) == with_key(histogram_keys(events), key)
            &&& forall|i: int| 0 <= i < final(histograms)@.len() ==> (#[trigger] final(histograms)@[i]).follows(events)
            &&& forall|i: int| 0 <= i < r ==> (#[trigger] final(histograms)@[i]).key() != key
        }),
{
    let ghost key = SeriesKey { name: name@, labels: labels_view(labels@) };
    let ghost keys = histograms@.map_values(|h: HistogramAccum| h.key());
    let ghost before = histograms@;
    let mut i: usize = 0;
    let mut found = false;
    while i < histograms.len()
        invariant_except_break
            !found,
        invariant
            i <= histograms@.len(),
            histograms@ == before,
            keys == histograms@.map_values(|h: HistogramAccum| h.key()),
            key == (SeriesKey { name: name@, labels: labels_view(labels@) }),
            forall|j: int| 0 <= j < i ==> #[trigger] keys[j] != key && key_less(keys[j], key),
        ensures
            i <= histograms@.len(),
            found ==> i < histograms@.len() && keys[i as int] == key,
            !found && i < histograms@.len() ==> keys[i as int] != key && !key_less(keys[i as int], key),
        decreases histograms@.len() - i,
    {
        let h = &histograms[i];
        assert(keys[i as int] == h.key());
        let same_name = same(h.name.as_str(), name.as_str());
        let equal = same_name && same_labels(&h.labels, &labels);
        if equal {
            found = true;
            break;
        }
        let less = comes_before(h.name.as_str(), name.as_str()) || (same_name && labels_before(&h.labels, &labels));
        if !less {
            break;
        }
        i = i + 1;
    }
    proof {
        lemma_with_key_at(keys, key, i as int);
    }
    if !found {
        proof {
            lemma_fresh_key(events, key, i as int);
        }
        histograms.insert(
            i,
            HistogramAccum { name, labels, buckets: Vec::new(), sum: None, count: None },
        );
        proof {
            assert(histograms@.map_values(|h: HistogramAccum| h.key()) =~= keys.insert(i as int, key));
            assert forall|j: int| 0 <= j < histograms@.len() implies (#[trigger] histograms@[j]).follows(events) by {
                if j < i {
                    assert(before[j].follows(events));
                } else if j > i {
                    assert(before[j - 1].follows(events));
                } else {
                    lemma_unknown_histogram(events, key);
                    assert(histograms@[j].buckets@ =~= Seq::<(Reading, u64)>::empty());
                }
            }
            assert forall|j: int| 0 <= j < i implies (#[trigger] histograms@[j]).key() != key by {
                assert(keys[j] != key);
            }
        }
    } else {
        proof {
            assert forall|j: int| 0 <= j < i implies (#[trigger] histograms@[j]).key() != key by {
                assert(keys[j] != key);
            }
        }
    }
    i
}

/// The keys are in strictly ascending order.
pub open spec fn keys_ascend(keys: Seq<SeriesKey>) -> bool {
    forall|i: int, j: int| 0 <= i < j < keys.len() ==> key_less(#[trigger] keys[i], #[trigger] keys[j])
}

proof fn lemma_label_order(a: (Seq<char>, Seq<char>), b: (Seq<char>, Seq<char>), c: (Seq<char>, Seq<char>))
    ensures
        a == b ==> !label_less(a, b),
        a != b ==> label_less(a, b) != label_less(b, a),
        label_less(a, b) && label_less(b, c) ==> label_less(a, c),
{
    lemma_less_total(a.0, b.0);
    lemma_less_total(a.1, b.1);
    if text_less(a.0, b.0) && text_less(b.0, c.0) {
        lemma_less_transitive(a.0, b.0, c.0);
    }
    if text_less(a.1, b.1) && text_less(b.1, c.1) {
        lemma_less_transitive(a.1, b.1, c.1);
    }
}

proof fn lemma_labels_order(a: Labels, b: Labels, c: Labels)
    ensures
        a == b ==> !labels_less(a, b),
        a != b ==> labels_less(a, b) != labels_less(b, a),
        labels_less(a, b) && labels_less(b, c) ==> labels_less(a, c),
    decreases a.len(),
{
    if a.len() > 0 && b.len() > 0 {
        let z = if c.len() > 0 {
            c[0]
        } else {
            a[0]
        };
        lemma_label_order(a[0], b[0], z);
        lemma_labels_order(a.drop_first(), b.drop_first(), c.drop_first());
        if a[0] == b[0] && a.drop_first() == b.drop_first() {
            assert(a =~= seq![a[0]] + a.drop_first());
            assert(b =~= seq![b[0]] + b.drop_first());
        }
        if c.len() > 0 {
            lemma_label_order(b[0], c[0], a[0]);
        }
    } else if a.len() == 0 && b.len() == 0 {
        assert(a =~= b);
    }
}

pub(crate) proof fn lemma_key_order(a: SeriesKey, b: SeriesKey, c: SeriesKey)
    ensures
        a == b ==> !key_less(a, b),
        a != b ==> key_less(a, b) != key_less(b, a),
        key_less(a, b) && key_less(b, c) ==> key_less(a, c),
{
    lemma_less_total(a.name, b.name);
    lemma_labels_order(a.labels, b.labels, c.labels);
    if text_less(a.name, b.name) && text_less(b.name, c.name) {
        lemma_less_transitive(a.name, b.name, c.name);
    }
}

proof fn lemma_with_key_ascends(keys: Seq<SeriesKey>, key: SeriesKey)
    requires
        keys_ascend(keys),
    ensures
        keys_ascend(with_key(keys, key)),
    decreases keys.len(),
{
    let all = with_key(keys, key);
    if keys.len() == 0 {
    } else if keys[0] == key {
    } else if key_less(keys[0], key) {
        let rest = keys.drop_first();
        assert forall|i: int, j: int| 0 <= i < j < rest.len() implies key_less(#[trigger] rest[i], #[trigger] rest[j]) by {
            assert(key_less(keys[i + 1], keys[j + 1]));
        }
        lemma_with_key_ascends(rest, key);
        let tail = with_key(rest, key);
        assert forall|i: int, j: int| 0 <= i < j < all.len() implies key_less(#[trigger] all[i], #[trigger] all[j]) by {
            assert(all[j] == tail[j - 1]);
            if i == 0 {
                let x = tail[j - 1];
                lemma_with_key_contains(rest, key, x);
                assert(tail.contains(x));
                if x != key {
                    let m = choose|m: int| 0 <= m < rest.len() && rest[m] == x;
                    assert(key_less(keys[0], keys[m + 1]));
                }
            } else {
                assert(key_less(tail[i - 1], tail[j - 1]));
            }
        }
    } else {
        lemma_key_order(keys[0], key, key);
        assert forall|i: int, j: int| 0 <= i < j < all.len() implies key_less(#[trigger] all[i], #[trigger] all[j]) by {
            if i == 0 {
                if j > 1 {
                    assert(key_less(keys[0], keys[j - 1]));
                    lemma_key_order(key, keys[0], keys[j - 1]);
                }
            } else {
                assert(key_less(keys[i - 1], keys[j - 1]));
            }
        }
    }
}

/// The histograms come in strictly ascending order of name and labels, so no
/// series comes twice.
pub proof fn law_histograms_ascend(events: Seq<EventModel>)
    ensures
        keys_ascend(histogram_keys(events)),
    decreases events.len(),
{
    if events.len() > 0 {
        law_histograms_ascend(events.drop_last());
        if let Some(key) = histogram_of(events.last()) {
            lemma_with_key_ascends(histogram_keys(events.drop_last()), key);
        }
    }
}

/// A key that is not where it belongs is nowhere.
proof fn lemma_fresh_key(events: Seq<EventModel>, key: SeriesKey, i: int)
    requires
        0 <= i <= histogram_keys(events).len(),
        forall|j: int| 0 <= j < i ==> #[trigger] histogram_keys(events)[j] != key,
        i < histogram_keys(events).len() ==> histogram_keys(events)[i] != key && !key_less(
            histogram_keys(events)[i],
            key,
        ),
    ensures
        !histogram_keys(events).contains(key),
{
    let keys = histogram_keys(events);
    law_histograms_ascend(events);
    if keys.contains(key) {
        let m = choose|m: int| 0 <= m < keys.len() && keys[m] == key;
        assert(m > i);
        assert(key_less(keys[i], keys[m]));
    }
}

/// Takes in what one line says of a histogram.
fn add_event(
    histograms: &mut Vec<HistogramAccum>,
    samples: &mut Vec<MetricSample>,
    event: Event,
    Ghost(events): Ghost<Seq<EventModel>>,
)
    requires
        accumulated(old(histograms)@, events),
        samples_view(old(samples)@) == scalars(events),
    ensures
        accumulated(final(histograms)@, events.push(event@)),
        samples_view(final(samples)@) == scalars(events.push(event@)),
{
    let ghost next = events.push(event@);
    assert(next.drop_last() =~= events);
    match event {
        Event::Scalar { name, kind, labels, value } => {
            let ghost before = samples_view(samples@);
            let sample = MetricSample {
                name,
                kind,
                labels,
                value: Some(value),
                buckets: Vec::new(),
                sum: None,
                count: None,
            };
            let ghost added = sample@;
            assert(added.buckets =~= seq![]);
            samples.push(sample);
            assert(samples_view(samples@) =~= before.push(added));
            assert forall|i: int| 0 <= i < histograms@.len() implies (#[trigger] histograms@[i]).follows(next) by {
                assert(histograms@[i].follows(events));
            }
        },
        Event::Bucket { name, labels, bound, count } => {
            let ghost key = SeriesKey { name: name@, labels: labels_view(labels@) };
            let at = find_histogram(histograms, name, labels, Ghost(events));
            let ghost found = histograms@;
            let h = &mut histograms[at];
            add_bucket(&mut h.buckets, bound, count);
            proof {
                lemma_keys_kept(found, histograms@);
                lemma_key_once(events, key, found, at as int);
                assert forall|i: int| 0 <= i < histograms@.len() implies (#[trigger] histograms@[i]).follows(next) by {
                    assert(found[i].follows(events));
                    assert(found[i].key() == histograms@[i].key());
                }
            }
        },
        Event::Sum { name, labels, sum } => {
            let ghost key = SeriesKey { name: name@, labels: labels_view(labels@) };
            let at = find_histogram(histograms, name, labels, Ghost(events));
            let ghost found = histograms@;
            let h = &mut histograms[at];
            h.sum = Some(sum);
            proof {
                lemma_keys_kept(found, histograms@);
                lemma_key_once(events, key, found, at as int);
                assert forall|i: int| 0 <= i < histograms@.len() implies (#[trigger] histograms@[i]).follows(next) by {
                    assert(found[i].follows(events));
                    assert(found[i].key() == histograms@[i].key());
                }
            }
        },
        Event::Count { name, labels, count } => {
            let ghost key = SeriesKey { name: name@, labels: labels_view(labels@) };
            let at = find_histogram(histograms, name, labels, Ghost(events));
            let ghost found = histograms@;
            let h = &mut histograms[at];
            h.count = Some(count);
            proof {
                lemma_keys_kept(found, histograms@);
                lemma_key_once(events, key, found, at as int);
                assert forall|i: int| 0 <= i < histograms@.len() implies (#[trigger] histograms@[i]).follows(next) by {
                    assert(found[i].follows(events));
                    assert(found[i].key() == histograms@[i].key());
                }
            }
        },
    }
}

proof fn lemma_keys_kept(a: Seq<HistogramAccum>, b: Seq<HistogramAccum>)
    requires
        a.len() == b.len(),
        forall|i: int| 0 <= i < a.len() ==> (#[trigger] a[i]).key() == b[i].key(),
    ensures
        a.map_values(|h: HistogramAccum| h.key()) == b.map_values(|h: HistogramAccum| h.key()),
{
    assert(a.map_values(|h: HistogramAccum| h.key()) =~= b.map_values(|h: HistogramAccum| h.key()));
}

/// Only one histogram has the key.
proof fn lemma_key_once(events: Seq<EventModel>, key: SeriesKey, found: Seq<HistogramAccum>, at: int)
    requires
        0 <= at < found.len(),
        found[at].key() == key,
        found.map_values(|h: HistogramAccum| h.key()) == with_key(histogram_keys(events), key),
    ensures
        forall|i: int| 0 <= i < found.len() && i != at ==> (#[trigger] found[i]).key() != key,
{
    let keys = found.map_values(|h: HistogramAccum| h.key());
    law_histograms_ascend(events);
    lemma_with_key_ascends(histogram_keys(events), key);
    assert forall|i: int| 0 <= i < found.len() && i != at implies (#[trigger] found[i]).key() != key by {
        if i < at {
            assert(key_less(keys[i], keys[at]));
        } else {
            assert(key_less(keys[at], keys[i]));
        }
        lemma_key_order(keys[i], keys[at], key);
    }
}

/// The samples that a text exposes, given what its texts were read as where
/// they are numbers.
pub fn parse_prometheus_text(text: &str, numbers: &TextMap<Reading>) -> (r: Vec<MetricSample>)
    ensures
        samples_view(r@) == exposed_samples(text@, numbers@),
{
    let all = lines(text);
    let kinds = read_kinds(&all);
    let ghost model = texts(all@);
    let mut samples: Vec<MetricSample> = Vec::new();
    let mut histograms: Vec<HistogramAccum> = Vec::new();
    let ghost mut events = Seq::<EventModel>::empty();
    proof {
        assert(samples_view(samples@) =~= scalars(events));
        assert(histograms@.map_values(|h: HistogramAccum| h.key()) =~= histogram_keys(events));
        assert(events =~= events_of(model.take(0), kinds@, numbers@));
    }
    for i in 0..all.len()
        invariant
            model == texts(all@),
            kinds@ == declared_kinds(model),
            events == events_of(model.take(i as int), kinds@, numbers@),
            accumulated(histograms@, events),
            samples_view(samples@) == scalars(events),
    {
        assert(model.take(i + 1).drop_last() =~= model.take(i as int));
        assert(model.take(i + 1).last() == all@[i as int]@);
        match read_line(all[i].as_str(), &kinds, numbers) {
            Some(event) => {
                let ghost said = event@;
                add_event(&mut histograms, &mut samples, event, Ghost(events));
                proof {
                    events = events.push(said);
                }
            },
            None => {},
        }
    }
    assert(model.take(all@.len() as int) =~= model);
    let ghost singles = samples_view(samples@);
    let ghost tail = histogram_keys(events).map_values(|k: SeriesKey| histogram_sample(events, k));
    let mut left = histograms;
    let mut built: Vec<MetricSample> = Vec::new();
    assert(samples_view(built@) =~= tail.skip(left@.len() as int));
    while left.len() > 0
        invariant
            left@.len() <= histograms@.len(),
            left@ == histograms@.take(left@.len() as int),
            accumulated(histograms@, events),
            tail == histogram_keys(events).map_values(|k: SeriesKey| histogram_sample(events, k)),
            samples_view(built@) == tail.skip(left@.len() as int),
        decreases left@.len(),
    {
        let ghost n = left@.len() as int;
        let ghost before = samples_view(built@);
        match left.pop() {
            Some(h) => {
                proof {
                    assert(h == histograms@[n - 1]);
                    assert(histograms@[n - 1].follows(events));
                    assert(left@ =~= histograms@.take(n - 1));
                    assert(histograms@.map_values(|h: HistogramAccum| h.key())[n - 1] == h.key());
                }
                let sample = MetricSample {
                    name: h.name,
                    kind: MetricKind::Histogram,
                    labels: h.labels,
                    value: None,
                    buckets: h.buckets,
                    sum: h.sum,
                    count: h.count,
                };
                let ghost added = sample@;
                assert(added == tail[n - 1]);
                built.insert(0, sample);
                assert(samples_view(built@) =~= seq![added] + before);
                assert(seq![added] + tail.skip(n) =~= tail.skip(n - 1));
            },
            None => {},
        }
    }
    assert(tail.skip(0) =~= tail);
    let mut r = samples;
    let mut rest = built;
    r.append(&mut rest);
    assert(samples_view(r@) =~= singles + tail);
    r
}

/// The texts of a line that may be numbers: a sample's value, and its upper bound.
pub open spec fn line_numbers(line: Seq<char>) -> Seq<Seq<char>> {
    match sample_parts(line) {
        Some((name_and_labels, value)) => {
            let labels = sample_labels(name_and_labels);
            let at = bound_position(labels);
            if at < labels.len() {
                seq![value, labels[at].1]
            } else {
                seq![value]
            }
        },
        None => seq![],
    }
}

/// The texts of lines that may be numbers.
pub open spec fn all_numbers(all: Seq<Seq<char>>) -> Seq<Seq<char>>
    decreases all.len(),
{
    if all.len() == 0 {
        seq![]
    } else {
        all_numbers(all.drop_last()) + line_numbers(all.last())
    }
}

/// The texts of an exposition that may be numbers; what any other text was read
/// as makes no difference.
pub fn number_texts(text: &str) -> (r: Vec<String>)
    ensures
        texts(r@) == all_numbers(lines_of(text@)),
{
    let all = lines(text);
    let ghost model = texts(all@);
    let mut r: Vec<String> = Vec::new();
    assert(texts(r@) =~= all_numbers(model.take(0)));
    for i in 0..all.len()
        invariant
            model == texts(all@),
            texts(r@) == all_numbers(model.take(i as int)),
    {
        assert(model.take(i + 1).drop_last() =~= model.take(i as int));
        assert(model.take(i + 1).last() == all@[i as int]@);
        let ghost before = texts(r@);
        match split_sample(all[i].as_str()) {
            Some((name_and_labels, value)) => {
                let (_, labels) = split_name(name_and_labels.as_str());
                let at = find_bound(&labels);
                let ghost value_text = value@;
                r.push(value);
                assert(texts(r@) =~= before.push(value_text));
                if at < labels.len() {
                    let bound = labels[at].1.clone();
                    let ghost bound_text = bound@;
                    assert(labels_view(labels@)[at as int].1 == bound_text);
                    r.push(bound);
                    assert(texts(r@) =~= before + seq![value_text, bound_text]);
                } else {
                    assert(texts(r@) =~= before + seq![value_text]);
                }
            },
            None => {
                assert(texts(r@) =~= before + seq![]);
            },
        }
    }
    assert(model.take(all@.len() as int) =~= model);
    r
}

/// Whether two readings agree on a text.
pub open spec fn agree_on(a: Map<Seq<char>, Reading>, b: Map<Seq<char>, Reading>, text: Seq<char>) -> bool {
    &&& a.contains_key(text) <==> b.contains_key(text)
    &&& a.contains_key(text) ==> a[text] == b[text]
}

/// The samples depend only on what the listed texts were read as.
pub proof fn law_only_listed_numbers_matter(
    text: Seq<char>,
    a: Map<Seq<char>, Reading>,
    b: Map<Seq<char>, Reading>,
)
    requires
        forall|t: Seq<char>| #[trigger] all_numbers(lines_of(text)).contains(t) ==> agree_on(a, b, t),
    ensures
        exposed_samples(text, a) == exposed_samples(text, b),
{
    let all = lines_of(text);
    lemma_events_agree(all, declared_kinds(all), a, b);
}

proof fn lemma_events_agree(
    all: Seq<Seq<char>>,
    kinds: Map<Seq<char>, MetricKind>,
    a: Map<Seq<char>, Reading>,
    b: Map<Seq<char>, Reading>,
)
    requires
        forall|t: Seq<char>| #[trigger] all_numbers(all).contains(t) ==> agree_on(a, b, t),
    ensures
        events_of(all, kinds, a) == events_of(all, kinds, b),
    decreases all.len(),
{
    if all.len() > 0 {
        let front = all.drop_last();
        let before = all_numbers(front);
        let own = line_numbers(all.last());
        assert forall|t: Seq<char>| #[trigger] before.contains(t) implies agree_on(a, b, t) by {
            let i = choose|i: int| 0 <= i < before.len() && before[i] == t;
            assert(all_numbers(all)[i] == t);
            assert(all_numbers(all).contains(t));
        }
        lemma_events_agree(front, kinds, a, b);
        if let Some((name_and_labels, value)) = sample_parts(all.last()) {
            let labels = sample_labels(name_and_labels);
            let at = bound_position(labels);
            assert(own[0] == value);
            assert(all_numbers(all)[before.len() as int] == value);
            assert(all_numbers(all).contains(value));
            assert(agree_on(a, b, value));
            if at < labels.len() {
                let bound = labels[at].1;
                assert(own[1] == bound);
                assert(all_numbers(all)[before.len() as int + 1] == bound);
                assert(all_numbers(all).contains(bound));
                assert(agree_on(a, b, bound));
            }
        }
        assert(line_event(all.last(), kinds, a) == line_event(all.last(), kinds, b));
    }
}

/// The buckets of a histogram come in ascending order of their upper bounds.
pub proof fn law_buckets_ascend(events: Seq<EventModel>, key: SeriesKey, i: int, j: int)
    requires
        0 <= i < j < buckets_of(events, key).len(),
    ensures
        buckets_of(events, key)[i].0.rank() <= buckets_of(events, key)[j].0.rank(),
{
    lemma_buckets_ascend(events, key);
}

spec fn buckets_ascend(buckets: Seq<(Reading, u64)>) -> bool {
    forall|i: int, j: int|
        0 <= i < j < buckets.len() ==> (#[trigger] buckets[i]).0.rank() <= (#[trigger] buckets[j]).0.rank()
}

proof fn lemma_buckets_ascend(events: Seq<EventModel>, key: SeriesKey)
    ensures
        buckets_ascend(buckets_of(events, key)),
    decreases events.len(),
{
    if events.len() > 0 {
        lemma_buckets_ascend(events.drop_last(), key);
        if let EventModel::Bucket { key: k, bucket } = events.last() {
            if k == key {
                lemma_with_bucket_ascends(buckets_of(events.drop_last(), key), bucket);
            }
        }
    }
}

proof fn lemma_with_bucket_ascends(buckets: Seq<(Reading, u64)>, bucket: (Reading, u64))
    requires
        buckets_ascend(buckets),
    ensures
        buckets_ascend(with_bucket(buckets, bucket)),
        with_bucket(buckets, bucket).len() == buckets.len() + 1,
        forall|i: int|
            0 <= i <= buckets.len() ==> (#[trigger] with_bucket(buckets, bucket)[i]) == bucket || buckets.contains(
                with_bucket(buckets, bucket)[i],
            ),
    decreases buckets.len(),
{
    let all = with_bucket(buckets, bucket);
    if buckets.len() == 0 || buckets.last().0.rank() <= bucket.0.rank() {
        assert forall|i: int, j: int| 0 <= i < j < all.len() implies (#[trigger] all[i]).0.rank() <= (
        #[trigger] all[j]).0.rank() by {
            if j == buckets.len() && i < buckets.len() - 1 {
                assert(buckets[i].0.rank() <= buckets[buckets.len() - 1].0.rank());
            } else if j < buckets.len() {
                assert(buckets[i].0.rank() <= buckets[j].0.rank());
            }
        }
        assert forall|i: int| 0 <= i <= buckets.len() implies (#[trigger] all[i]) == bucket || buckets.contains(all[i]) by {
            if i < buckets.len() {
                assert(buckets[i] == all[i]);
            }
        }
    } else {
        let front = buckets.drop_last();
        let last = buckets.last();
        assert forall|i: int, j: int| 0 <= i < j < front.len() implies (#[trigger] front[i]).0.rank() <= (
        #[trigger] front[j]).0.rank() by {
            assert(buckets[i].0.rank() <= buckets[j].0.rank());
        }
        lemma_with_bucket_ascends(front, bucket);
        let shorter = with_bucket(front, bucket);
        assert forall|i: int| 0 <= i < shorter.len() implies (#[trigger] shorter[i]).0.rank() <= last.0.rank() by {
            if shorter[i] != bucket {
                let m = choose|m: int| 0 <= m < front.len() && front[m] == shorter[i];
                assert(buckets[m].0.rank() <= buckets[buckets.len() - 1].0.rank());
            }
        }
        assert forall|i: int, j: int| 0 <= i < j < all.len() implies (#[trigger] all[i]).0.rank() <= (
        #[trigger] all[j]).0.rank() by {
            if j < shorter.len() {
                assert(shorter[i].0.rank() <= shorter[j].0.rank());
            } else {
                assert(shorter[i].0.rank() <= last.0.rank());
            }
        }
        assert forall|i: int| 0 <= i <= buckets.len() implies (#[trigger] all[i]) == bucket || buckets.contains(all[i]) by {
            if i < shorter.len() {
                assert(all[i] == shorter[i]);
                if shorter[i] != bucket {
                    let m = choose|m: int| 0 <= m < front.len() && front[m] == shorter[i];
                    assert(buckets[m] == all[i]);
                }
            } else {
                assert(buckets[buckets.len() - 1] == all[i]);
            }
        }
    }
}

/// The kinds that are known by name.
pub proof fn law_known_kinds(name: Seq<char>)
    ensures
        kind_named(name) == Some(MetricKind::Counter) <==> name == "counter"@,
        kind_named(name) == Some(MetricKind::Gauge) <==> name == "gauge"@,
        kind_named(name) == Some(MetricKind::Histogram) <==> name == "histogram"@,
        MetricKind::Counter.name() == "counter"@,
        MetricKind::Gauge.name() == "gauge"@,
        MetricKind::Histogram.name() == "histogram"@,
{
    reveal_strlit("counter");
    reveal_strlit("gauge");
    reveal_strlit("histogram");
    assert("counter"@[0] == 'c' && "gauge"@[0] == 'g' && "histogram"@[0] == 'h');
}

/// Numbers are ordered as doubles are: negative ones before the others, of two that
/// are not negative the one with the smaller bits first, of two negative ones the
/// one with the larger.
pub proof fn law_readings_are_ordered_as_doubles(a: Reading, b: Reading)
    ensures
        a.bits < 0x8000_0000_0000_0000 && b.bits < 0x8000_0000_0000_0000 ==> (a.rank() < b.rank() <==> a.bits < b.bits),
        a.bits >= 0x8000_0000_0000_0000 && b.bits >= 0x8000_0000_0000_0000 ==> (a.rank() < b.rank() <==> a.bits
            > b.bits),
        a.bits >= 0x8000_0000_0000_0000 && b.bits < 0x8000_0000_0000_0000 ==> a.rank() < b.rank(),
        a.rank() == b.rank() <==> a.bits == b.bits,
{
}

/// Labels are ordered by key, then by value; series by name, then by labels, the
/// first difference deciding.
pub proof fn law_series_are_ordered_by_name(a: SeriesKey, b: SeriesKey, x: Labels, y: Labels)
    ensures
        text_less(a.name, b.name) ==> key_less(a, b),
        a.name == b.name ==> (key_less(a, b) <==> labels_less(a.labels, b.labels)),
        !text_less(a.name, b.name) && a.name != b.name ==> !key_less(a, b),
        x.len() > 0 && y.len() > 0 && x[0] != y[0] ==> (labels_less(x, y) <==> text_less(x[0].0, y[0].0) || (x[0].0
            == y[0].0 && text_less(x[0].1, y[0].1))),
        x.len() > 0 && y.len() > 0 && x[0] == y[0] ==> (labels_less(x, y) <==> labels_less(
            x.drop_first(),
            y.drop_first(),
        )),
        y.len() > 0 ==> labels_less(Seq::empty(), y),
        !labels_less(x, Seq::empty()),
{
    lemma_less_total(a.name, b.name);
    if x.len() > 0 && y.len() > 0 {
        lemma_label_order(x[0], y[0], x[0]);
    }
}

/// Sorting labels keeps each of them, and puts none before one that is smaller.
pub proof fn law_labels_are_sorted(labels: Labels)
    ensures
        sorted_labels(labels).to_multiset() == labels.to_multiset(),
        forall|i: int, j: int|
            0 <= i < j < sorted_labels(labels).len() ==> !label_less(
                #[trigger] sorted_labels(labels)[j],
                #[trigger] sorted_labels(labels)[i],
            ),
    decreases labels.len(),
{
    broadcast use vstd::seq_lib::group_to_multiset_ensures;

    if labels.len() == 0 {
        assert(sorted_labels(labels) =~= labels);
    } else {
        let front = labels.drop_last();
        law_labels_are_sorted(front);
        let before = sorted_labels(front);
        lemma_with_label_sorted(before, labels.last());
        assert(labels =~= front.push(labels.last()));
        assert(labels.to_multiset() =~= front.to_multiset().insert(labels.last()));
    }
}

proof fn lemma_with_label_sorted(sorted: Labels, label: (Seq<char>, Seq<char>))
    requires
        forall|i: int, j: int| 0 <= i < j < sorted.len() ==> !label_less(#[trigger] sorted[j], #[trigger] sorted[i]),
    ensures
        with_label(sorted, label).to_multiset() == sorted.to_multiset().insert(label),
        with_label(sorted, label).len() == sorted.len() + 1,
        forall|i: int, j: int|
            0 <= i < j < with_label(sorted, label).len() ==> !label_less(
                #[trigger] with_label(sorted, label)[j],
                #[trigger] with_label(sorted, label)[i],
            ),
        forall|i: int|
            0 <= i < with_label(sorted, label).len() ==> (#[trigger] with_label(sorted, label)[i]) == label
                || sorted.contains(with_label(sorted, label)[i]),
    decreases sorted.len(),
{
    broadcast use vstd::seq_lib::group_to_multiset_ensures;

    let all = with_label(sorted, label);
    if sorted.len() == 0 || !label_less(label, sorted.last()) {
        assert forall|i: int, j: int| 0 <= i < j < all.len() implies !label_less(
            #[trigger] all[j],
            #[trigger] all[i],
        ) by {
            if j == sorted.len() {
                let last = sorted[sorted.len() - 1];
                if i < sorted.len() - 1 {
                    assert(!label_less(last, sorted[i]));
                    lemma_label_order(label, sorted[i], last);
                    lemma_label_order(last, sorted[i], last);
                    lemma_label_order(label, last, label);
                }
            } else {
                assert(!label_less(sorted[j], sorted[i]));
            }
        }
        assert forall|i: int| 0 <= i < all.len() implies (#[trigger] all[i]) == label || sorted.contains(all[i]) by {
            if i < sorted.len() {
                assert(sorted[i] == all[i]);
            }
        }
    } else {
        let front = sorted.drop_last();
        let last = sorted.last();
        assert forall|i: int, j: int| 0 <= i < j < front.len() implies !label_less(
            #[trigger] front[j],
            #[trigger] front[i],
        ) by {
            assert(!label_less(sorted[j], sorted[i]));
        }
        lemma_with_label_sorted(front, label);
        let shorter = with_label(front, label);
        assert(sorted =~= front.push(last));
        assert(all.to_multiset() =~= sorted.to_multiset().insert(label));
        assert forall|i: int| 0 <= i < shorter.len() implies !label_less(last, #[trigger] shorter[i]) by {
            if shorter[i] == label {
                lemma_label_order(label, last, label);
            } else {
                let m = choose|m: int| 0 <= m < front.len() && front[m] == shorter[i];
                assert(!label_less(sorted[sorted.len() - 1], sorted[m]));
            }
        }
        assert forall|i: int, j: int| 0 <= i < j < all.len() implies !label_less(
            #[trigger] all[j],
            #[trigger] all[i],
        ) by {
            if j < shorter.len() {
                assert(!label_less(shorter[j], shorter[i]));
            } else {
                assert(all[i] == shorter[i]);
            }
        }
        assert forall|i: int| 0 <= i < all.len() implies (#[trigger] all[i]) == label || sorted.contains(all[i]) by {
            if i < shorter.len() {
                assert(all[i] == shorter[i]);
                if shorter[i] != label {
                    let m = choose|m: int| 0 <= m < front.len() && front[m] == shorter[i];
                    assert(sorted[m] == all[i]);
                }
            } else {
                assert(sorted[sorted.len() - 1] == all[i]);
            }
        }
    }
}

/// The last line that declares a metric's kind counts, wherever it stands.
pub proof fn law_the_last_declaration_counts(all: Seq<Seq<char>>, name: Seq<char>, kind: MetricKind, i: int)
    requires
        0 <= i < all.len(),
        declaration(all[i]) == Some((name, kind)),
        forall|j: int| i < j < all.len() ==> !(declaration(#[trigger] all[j]) matches Some((n, _)) && n == name),
    ensures
        declared_kinds(all).contains_key(name),
        declared_kinds(all)[name] == kind,
    decreases all.len(),
{
    let front = all.drop_last();
    let n = all.len() - 1;
    if i < n {
        assert(!(declaration(all[n]) matches Some((m, _)) && m == name));
        assert(front[i] == all[i]);
        assert forall|j: int| i < j < front.len() implies !(declaration(#[trigger] front[j]) matches Some((m, _)) && m
            == name) by {
            assert(front[j] == all[j]);
        }
        law_the_last_declaration_counts(front, name, kind, i);
    }
}

/// A metric whose kind no line declares has none.
pub proof fn law_undeclared_metrics_have_no_kind(all: Seq<Seq<char>>, name: Seq<char>)
    requires
        forall|j: int| 0 <= j < all.len() ==> !(declaration(#[trigger] all[j]) matches Some((n, _)) && n == name),
    ensures
        !declared_kinds(all).contains_key(name),
    decreases all.len(),
{
    if all.len() > 0 {
        let front = all.drop_last();
        assert forall|j: int| 0 <= j < front.len() implies !(declaration(#[trigger] front[j]) matches Some((m, _)) && m
            == name) by {
            assert(front[j] == all[j]);
        }
        law_undeclared_metrics_have_no_kind(front, name);
        assert(!(declaration(all[all.len() - 1]) matches Some((m, _)) && m == name));
    }
}

/// What the lines say is what each of them says, in order; lines that say nothing
/// are passed over.
pub proof fn law_lines_are_read_in_order(all: Seq<Seq<char>>, kinds: Map<Seq<char>, MetricKind>, numbers: Map<Seq<char>, Reading>)
    ensures
        events_of(all, kinds, numbers) == all.filter(|l: Seq<char>| line_event(l, kinds, numbers) is Some).map_values(|l: Seq<char>| line_event(l, kinds, numbers)->0),
    decreases all.len(),
{
    let pass = |l: Seq<char>| line_event(l, kinds, numbers) is Some;
    let f = |l: Seq<char>| line_event(l, kinds, numbers)->0;
    if all.len() == 0 {
        lemma_filter_none(all, pass);
        assert(all.take(0) =~= all);
        assert(events_of(all, kinds, numbers) =~= all.filter(pass).map_values(f));
    } else {
        let front = all.drop_last();
        law_lines_are_read_in_order(front, kinds, numbers);
        lemma_filter_push(front, all.last(), pass);
        assert(all =~= front.push(all.last()));
        assert(front.filter(pass).push(all.last()).map_values(f) =~= front.filter(pass).map_values(f).push(
            f(all.last()),
        ));
        assert(events_of(all, kinds, numbers) =~= all.filter(pass).map_values(f));
    }
}

/// The samples of single values are those that lines give, in order.
pub proof fn law_single_values_keep_their_order(events: Seq<EventModel>)
    ensures
        scalars(events) == events.filter(|e: EventModel| e is Scalar).map_values(|e: EventModel|
                SampleModel {
                    name: e->name,
                    kind: e->kind,
                    labels: e->Scalar_labels,
                    value: Some(e->value),
                    buckets: seq![],
                    sum: None,
                    count: None,
                }),
    decreases events.len(),
{
    let pass = |e: EventModel| e is Scalar;
    let f = |e: EventModel|
                SampleModel {
                    name: e->name,
                    kind: e->kind,
                    labels: e->Scalar_labels,
                    value: Some(e->value),
                    buckets: seq![],
                    sum: None,
                    count: None,
                };
    if events.len() == 0 {
        lemma_filter_none(events, pass);
        assert(events.take(0) =~= events);
        assert(scalars(events) =~= events.filter(pass).map_values(f));
    } else {
        let front = events.drop_last();
        law_single_values_keep_their_order(front);
        lemma_filter_push(front, events.last(), pass);
        assert(events =~= front.push(events.last()));
        assert(front.filter(pass).push(events.last()).map_values(f) =~= front.filter(pass).map_values(f).push(
            f(events.last()),
        ));
        assert(scalars(events) =~= events.filter(pass).map_values(f));
    }
}

/// The last line with a histogram's sum counts.
pub proof fn law_the_last_sum_counts(events: Seq<EventModel>, key: SeriesKey, value: Reading)
    ensures
        sum_of(events, key) == Some(value) <==> exists|i: int|
            0 <= i < events.len() && is_sum_of((#[trigger] events[i]), key) && events[i]->sum == value && forall|j: int|
                i < j < events.len() ==> !(is_sum_of((#[trigger] events[j]), key)),
    decreases events.len(),
{
    if events.len() > 0 {
        let front = events.drop_last();
        let n = events.len() - 1;
        law_the_last_sum_counts(front, key, value);
        if is_sum_of(events[n], key) {
            if events[n]->sum == value {
                let i = n;
                assert(is_sum_of(events[i], key));
            }
        } else {
            if sum_of(front, key) == Some(value) {
                let i = choose|i: int|
                    0 <= i < front.len() && is_sum_of((#[trigger] front[i]), key) && front[i]->sum == value && forall|j: int|
                i < j < front.len() ==> !(is_sum_of((#[trigger] front[j]), key));
                assert(events[i] == front[i]);
                assert forall|j: int| i < j < events.len() implies !(is_sum_of((#[trigger] events[j]), key)) by {
                    if j < n {
                        assert(front[j] == events[j]);
                    }
                }
            }
            if exists|i: int|
                0 <= i < events.len() && is_sum_of((#[trigger] events[i]), key) && events[i]->sum == value && forall|j: int|
                i < j < events.len() ==> !(is_sum_of((#[trigger] events[j]), key)) {
                let i = choose|i: int|
                    0 <= i < events.len() && is_sum_of((#[trigger] events[i]), key) && events[i]->sum == value && forall|j: int|
                i < j < events.len() ==> !(is_sum_of((#[trigger] events[j]), key));
                assert(i < n);
                assert(front[i] == events[i]);
                assert forall|j: int| i < j < front.len() implies !(is_sum_of((#[trigger] front[j]), key)) by {
                    assert(front[j] == events[j]);
                }
            }
        }
    }
}

/// The last line with a histogram's count counts.
pub proof fn law_the_last_count_counts(events: Seq<EventModel>, key: SeriesKey, value: u64)
    ensures
        count_of(events, key) == Some(value) <==> exists|i: int|
            0 <= i < events.len() && is_count_of((#[trigger] events[i]), key) && events[i]->count == value && forall|j: int|
                i < j < events.len() ==> !(is_count_of((#[trigger] events[j]), key)),
    decreases events.len(),
{
    if events.len() > 0 {
        let front = events.drop_last();
        let n = events.len() - 1;
        law_the_last_count_counts(front, key, value);
        if is_count_of(events[n], key) {
            if events[n]->count == value {
                let i = n;
                assert(is_count_of(events[i], key));
            }
        } else {
            if count_of(front, key) == Some(value) {
                let i = choose|i: int|
                    0 <= i < front.len() && is_count_of((#[trigger] front[i]), key) && front[i]->count == value && forall|j: int|
                i < j < front.len() ==> !(is_count_of((#[trigger] front[j]), key));
                assert(events[i] == front[i]);
                assert forall|j: int| i < j < events.len() implies !(is_count_of((#[trigger] events[j]), key)) by {
                    if j < n {
                        assert(front[j] == events[j]);
                    }
                }
            }
            if exists|i: int|
                0 <= i < events.len() && is_count_of((#[trigger] events[i]), key) && events[i]->count == value && forall|j: int|
                i < j < events.len() ==> !(is_count_of((#[trigger] events[j]), key)) {
                let i = choose|i: int|
                    0 <= i < events.len() && is_count_of((#[trigger] events[i]), key) && events[i]->count == value && forall|j: int|
                i < j < events.len() ==> !(is_count_of((#[trigger] events[j]), key));
                assert(i < n);
                assert(front[i] == events[i]);
                assert forall|j: int| i < j < front.len() implies !(is_count_of((#[trigger] front[j]), key)) by {
                    assert(front[j] == events[j]);
                }
            }
        }
    }
}

/// Whether a line gives a histogram's sum.
pub open spec fn is_sum_of(e: EventModel, key: SeriesKey) -> bool {
    e matches EventModel::Sum { key: k, .. } && k == key
}

/// Whether a line gives a histogram's count.
pub open spec fn is_count_of(e: EventModel, key: SeriesKey) -> bool {
    e matches EventModel::Count { key: k, .. } && k == key
}

/// The single values come first, then the histograms, each with what lines say of
/// it.
pub proof fn law_single_values_come_first(events: Seq<EventModel>, i: int)
    requires
        0 <= i < histogram_keys(events).len(),
    ensures
        samples_of(events).len() == scalars(events).len() + histogram_keys(events).len(),
        samples_of(events).take(scalars(events).len() as int) == scalars(events),
        ({
            let sample = samples_of(events)[scalars(events).len() + i];
            let key = histogram_keys(events)[i];
            &&& sample.name == key.name
            &&& sample.labels == key.labels
            &&& sample.kind is Histogram
            &&& sample.value is None
            &&& sample.buckets == buckets_of(events, key)
            &&& sample.sum == sum_of(events, key)
            &&& sample.count == count_of(events, key)
        }),
{
    assert(samples_of(events).take(scalars(events).len() as int) =~= scalars(events));
}

/// A sample line is split at its last space; an empty line, a comment and a line
/// without a space are none.
pub proof fn law_sample_lines_are_split_at_the_last_space(series: Seq<char>, value: Seq<char>)
    requires
        series.len() > 0,
        series[0] != '#',
        !value.contains(' '),
    ensures
        sample_parts(series + seq![' '] + value) == Some((series, value)),
        sample_parts(seq!['#'] + series) is None,
        sample_parts(Seq::empty()) is None,
        !series.contains(' ') ==> sample_parts(series) is None,
{
    let line = series + seq![' '] + value;
    lemma_last_at(line, ' ', series.len() as int);
    assert(line.take(series.len() as int) =~= series);
    assert(line.skip(series.len() as int + 1) =~= value);
    if !series.contains(' ') {
        lemma_last_nowhere(series, ' ');
    }
}

proof fn lemma_last_nowhere(s: Seq<char>, c: char)
    requires
        !s.contains(c),
    ensures
        find_last(s, c) == -1,
    decreases s.len(),
{
    if s.len() > 0 {
        assert(s.contains(s[s.len() - 1]));
        let front = s.drop_last();
        assert forall|i: int| 0 <= i < front.len() implies #[trigger] front[i] != c by {
            assert(s.contains(s[i]));
        }
        lemma_last_nowhere(front, c);
    }
}

proof fn lemma_last_at(s: Seq<char>, c: char, i: int)
    requires
        0 <= i < s.len(),
        s[i] == c,
        !s.skip(i + 1).contains(c),
    ensures
        find_last(s, c) == i,
    decreases s.len(),
{
    if i < s.len() - 1 {
        let rest = s.skip(i + 1);
        assert(rest.contains(rest[rest.len() - 1]));
        assert(rest[rest.len() - 1] == s.last());
        let front = s.drop_last();
        let shorter = front.skip(i + 1);
        assert forall|j: int| 0 <= j < shorter.len() implies #[trigger] shorter[j] != c by {
            assert(shorter[j] == rest[j]);
            assert(rest.contains(rest[j]));
        }
        lemma_last_at(front, c, i);
    }
}

/// A metric that is declared is a single value of its kind. What is given of a
/// declared histogram under a name that is not declared itself is its sum, its
/// count, or a bucket; a bucket without a bound, up to infinity, or up to what is
/// no number is passed over. Anything else is.
pub proof fn law_samples_are_told_by_their_names(
    name: Seq<char>,
    base: Seq<char>,
    labels: Labels,
    value: Reading,
    kinds: Map<Seq<char>, MetricKind>,
    numbers: Map<Seq<char>, Reading>,
)
    ensures
        kinds.contains_key(name) ==> sample_event(name, labels, value, kinds, numbers) == Some(
            EventModel::Scalar { name, kind: kinds[name], labels: sorted_labels(labels), value },
        ),
        !kinds.contains_key(name) && name == base + "_sum"@ && kinds.contains_key(base) && kinds[base] is Histogram
            ==> sample_event(name, labels, value, kinds, numbers) == Some(
            EventModel::Sum { key: SeriesKey { name: base, labels: sorted_labels(labels) }, sum: value },
        ),
        !kinds.contains_key(name) && name == base + "_count"@ && kinds.contains_key(base) && kinds[base] is Histogram
            ==> sample_event(name, labels, value, kinds, numbers) == Some(
            EventModel::Count { key: SeriesKey { name: base, labels: sorted_labels(labels) }, count: value.whole },
        ),
        !kinds.contains_key(name) && name == base + "_bucket"@ && kinds.contains_key(base) && kinds[base] is Histogram
            ==> (sample_event(name, labels, value, kinds, numbers) is Some <==> bound_position(labels) < labels.len()
            && labels[bound_position(labels)].1 != "+Inf"@ && numbers.contains_key(labels[bound_position(labels)].1)),
        !kinds.contains_key(name) && name == base + "_bucket"@ && kinds.contains_key(base) && kinds[base] is Histogram
            && bound_position(labels) < labels.len() && labels[bound_position(labels)].1 != "+Inf"@
            && numbers.contains_key(labels[bound_position(labels)].1) ==> sample_event(
            name,
            labels,
            value,
            kinds,
            numbers,
        ) == Some(
            EventModel::Bucket {
                key: SeriesKey { name: base, labels: sorted_labels(labels.remove(bound_position(labels))) },
                bucket: (numbers[labels[bound_position(labels)].1], value.whole),
            },
        ),
        (forall|b: Seq<char>| #[trigger]
            kinds.contains_key(b) ==> name != b && name != b + "_sum"@ && name != b + "_count"@ && name != b
                + "_bucket"@) ==> sample_event(name, labels, value, kinds, numbers) is None,
{
    reveal_strlit("_bucket");
    reveal_strlit("_sum");
    reveal_strlit("_count");
    let (x, y, z) = ("_bucket"@, "_sum"@, "_count"@);
    if name == base + x || name == base + y || name == base + z {
        let suffix = name.skip(base.len() as int);
        assert(name.take(name.len() - suffix.len()) =~= base);
        assert(name.skip(name.len() - suffix.len()) =~= suffix);
        if name == base + x {
            assert(suffix =~= x);
        } else if name == base + y {
            assert(suffix =~= y);
            assert(name.last() == 'm');
            if ends_with(name, x) {
                assert(name.skip(name.len() - x.len())[x.len() - 1] == name.last());
            }
        } else {
            assert(suffix =~= z);
            assert(name[name.len() - 2] == 'n' && name.last() == 't');
            if ends_with(name, x) {
                assert(name.skip(name.len() - x.len())[x.len() - 2] == name[name.len() - 2]);
            }
            if ends_with(name, y) {
                assert(name.skip(name.len() - y.len())[y.len() - 1] == name.last());
            }
        }
    }
    if forall|b: Seq<char>| #[trigger]
        kinds.contains_key(b) ==> name != b && name != b + "_sum"@ && name != b + "_count"@ && name != b + "_bucket"@ {
        assert(!is_part_of_histogram(kinds, name, x)) by {
            if is_part_of_histogram(kinds, name, x) {
                let b = without_last(name, x.len());
                assert(kinds.contains_key(b));
                assert(name =~= b + x);
            }
        }
        assert(!is_part_of_histogram(kinds, name, y)) by {
            if is_part_of_histogram(kinds, name, y) {
                let b = without_last(name, y.len());
                assert(kinds.contains_key(b));
                assert(name =~= b + y);
            }
        }
        assert(!is_part_of_histogram(kinds, name, z)) by {
            if is_part_of_histogram(kinds, name, z) {
                let b = without_last(name, z.len());
                assert(kinds.contains_key(b));
                assert(name =~= b + z);
            }
        }
    }
}

/// A bucket's bound is in the first label with the key for it.
pub proof fn law_the_first_bound_counts(labels: Labels, i: int)
    requires
        0 <= i <= labels.len(),
        forall|j: int| 0 <= j < i ==> (#[trigger] labels[j]).0 != "le"@,
        i < labels.len() ==> labels[i].0 == "le"@,
    ensures
        bound_position(labels) == i,
{
    lemma_bound_position(labels, i);
}

/// The buckets of a histogram are all those that lines give, each as often as they
/// do.
pub proof fn law_every_bucket_is_kept(events: Seq<EventModel>, key: SeriesKey)
    ensures
        buckets_of(events, key).to_multiset() == events.filter(|e: EventModel| is_bucket_of(e, key)).map_values(
            |e: EventModel| e->bucket,
        ).to_multiset(),
    decreases events.len(),
{
    broadcast use vstd::seq_lib::group_to_multiset_ensures;

    let pass = |e: EventModel| is_bucket_of(e, key);
    let f = |e: EventModel| e->bucket;
    if events.len() == 0 {
        lemma_filter_none(events, pass);
        assert(events.take(0) =~= events);
        assert(buckets_of(events, key) =~= events.filter(pass).map_values(f));
    } else {
        let front = events.drop_last();
        law_every_bucket_is_kept(front, key);
        lemma_filter_push(front, events.last(), pass);
        assert(events =~= front.push(events.last()));
        let before = buckets_of(front, key);
        if is_bucket_of(events.last(), key) {
            lemma_with_bucket_multiset(before, events.last()->bucket);
            assert(front.filter(pass).push(events.last()).map_values(f) =~= front.filter(pass).map_values(f).push(
                f(events.last()),
            ));
        }
    }
}

/// Whether a line gives a histogram's bucket.
pub open spec fn is_bucket_of(e: EventModel, key: SeriesKey) -> bool {
    e matches EventModel::Bucket { key: k, .. } && k == key
}

proof fn lemma_with_bucket_multiset(buckets: Seq<(Reading, u64)>, bucket: (Reading, u64))
    ensures
        with_bucket(buckets, bucket).to_multiset() == buckets.to_multiset().insert(bucket),
    decreases buckets.len(),
{
    broadcast use vstd::seq_lib::group_to_multiset_ensures;

    if buckets.len() == 0 || buckets.last().0.rank() <= bucket.0.rank() {
    } else {
        let front = buckets.drop_last();
        lemma_with_bucket_multiset(front, bucket);
        assert(buckets =~= front.push(buckets.last()));
        assert(with_bucket(buckets, bucket).to_multiset() =~= buckets.to_multiset().insert(bucket));
    }
}

} // verus!
