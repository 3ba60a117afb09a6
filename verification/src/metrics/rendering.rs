//! Reading back what the registry renders.

use crate::digits::{is_digit_char, lemma_nat_text};
use crate::metrics::exposition::{
    bound_position, declaration, declared_kinds, events_of, exposed_samples, histogram_keys, histogram_of,
    histogram_sample, is_part_of_histogram, key_less, law_histograms_ascend, lemma_key_order, line_event,
    sample_labels, sample_parts, scalars, sorted_labels, with_label, EventModel, Labels, MetricKind, Reading,
    SampleModel, SeriesKey,
};
use crate::metrics::labels::{is_plain_key, law_label_list_round_trip, written_labels};
use crate::metrics::registry::{
    are_written_alike, changes_applied_series, counted, exposes, is_base_name, is_exposed_line,
    is_of_this_library, is_plain_char, is_plain_name, is_recorded, law_metrics_are_told_apart,
    law_names_are_plain, lemma_one_more_observation, lemma_this_library_is_orderly, observations,
    observations_up_to, observed, sample_line, seconds_text, series_text, shown, shown_from,
    staging_segments_series, type_line, with_gauge, Item, Recorded, Series, EXACT_UP_TO,
};
use crate::metrics::reordering::{
    conflict, histograms_of, is_tidy_at, lemma_buckets, lemma_count, lemma_events, lemma_histogram_keys,
    lemma_pairs_of_lines, lemma_same_histogram_sample, lemma_samples, lemma_scalars, lemma_sum, scalar_sample,
};
use crate::text::{begins_with, ends_with, find_last, lemma_find_is, lines_of, nat_text, without_last};
use vstd::prelude::*;

verus! {

/// The labels of a series, as they are shown.
pub open spec fn labels_of(series: Series) -> Labels {
    seq![(series.1, shown(series.2))]
}

/// The sample of a counter or a gauge.
pub open spec fn single_sample(series: Series, kind: MetricKind, value: Reading) -> SampleModel {
    SampleModel {
        name: series.0,
        kind,
        labels: labels_of(series),
        value: Some(value),
        buckets: seq![],
        sum: None,
        count: None,
    }
}

/// Whether a sample is that of a series.
pub open spec fn is_sample_of(sample: SampleModel, series: Series) -> bool {
    sample.name == series.0 && sample.labels == labels_of(series)
}

/// A series as the exposition's reader names it.
pub open spec fn key_of(series: Series) -> SeriesKey {
    SeriesKey { name: series.0, labels: labels_of(series) }
}

/// What the line of an item is read as.
pub open spec fn item_event(item: Item, r: Recorded, numbers: Map<Seq<char>, Reading>) -> Option<EventModel> {
    let number = item.number(r);
    let s = item.series();
    if !numbers.contains_key(number) {
        None
    } else {
        match item {
            Item::Counter(_) => Some(
                EventModel::Scalar {
                    name: s.0,
                    kind: MetricKind::Counter,
                    labels: labels_of(s),
                    value: numbers[number],
                },
            ),
            Item::Gauge(_) => Some(
                EventModel::Scalar { name: s.0, kind: MetricKind::Gauge, labels: labels_of(s), value: numbers[number] },
            ),
            Item::Bucket(_, i) => if numbers.contains_key(seconds_text(r.bounds[i] as nat)) {
                Some(
                    EventModel::Bucket {
                        key: key_of(s),
                        bucket: (numbers[seconds_text(r.bounds[i] as nat)], numbers[number].whole),
                    },
                )
            } else {
                None
            },
            Item::Infinity(_) => None,
            Item::Sum(_) => Some(EventModel::Sum { key: key_of(s), sum: numbers[number] }),
            Item::Count(_) => Some(EventModel::Count { key: key_of(s), count: numbers[number].whole }),
        }
    }
}

/// Whether the buckets' bounds are read as different numbers.
pub open spec fn tells_bounds_apart(numbers: Map<Seq<char>, Reading>, bounds: Seq<u64>) -> bool {
    forall|i: int, j: int|
        0 <= i < j < bounds.len() && numbers.contains_key(seconds_text(#[trigger] bounds[i] as nat))
            && numbers.contains_key(seconds_text(#[trigger] bounds[j] as nat)) ==> numbers[seconds_text(
            bounds[i] as nat,
        )].rank() != numbers[seconds_text(bounds[j] as nat)].rank()
}

/// Whether a text shows what is recorded of this library's metrics, and the
/// buckets' bounds are read as different numbers.
pub open spec fn is_readable(text: Seq<char>, r: Recorded, numbers: Map<Seq<char>, Reading>) -> bool {
    &&& is_of_this_library(r)
    &&& exposes(text, r)
    &&& tells_bounds_apart(numbers, r.bounds)
}

/// Whether no two recorded series are shown by the name and labels.
pub open spec fn shows_one_series(r: Recorded, key: SeriesKey) -> bool {
    forall|a: Item, b: Item| #[trigger]
        a.is_in(r) && #[trigger] b.is_in(r) && key_of(a.series()) == key && key_of(b.series()) == key ==> a.series()
            == b.series()
}

proof fn lemma_find_last_is(s: Seq<char>, c: char, i: int)
    requires
        0 <= i < s.len(),
        s[i] == c,
        forall|j: int| i < j < s.len() ==> s[j] != c,
    ensures
        find_last(s, c) == i,
    decreases s.len(),
{
    if i < s.len() - 1 {
        assert(s.last() == s[s.len() - 1]);
        lemma_find_last_is(s.drop_last(), c, i);
    }
}

proof fn lemma_digits_are_plain(n: nat)
    ensures
        !nat_text(n).contains(' '),
        nat_text(n).len() > 0,
        nat_text(n)[0] != '+',
{
    lemma_nat_text(n);
    assert forall|i: int| 0 <= i < nat_text(n).len() implies nat_text(n)[i] != ' ' && nat_text(n)[i] != '+' by {
        assert(is_digit_char(nat_text(n)[i]));
    }
}

/// What a line that declares a kind is read as.
proof fn lemma_type_line_is_read(name: Seq<char>, kind: MetricKind)
    ensures
        begins_with(type_line(name, kind), "# TYPE "@),
        declaration(type_line(name, kind)) == Some((name, kind)),
{
    reveal_strlit("counter");
    reveal_strlit("gauge");
    reveal_strlit("histogram");
    let front = "# TYPE "@;
    let line = type_line(name, kind);
    let rest = line.skip(front.len() as int);
    assert(line.take(front.len() as int) =~= front);
    assert(rest =~= name + seq![' '] + kind.name());
    lemma_find_last_is(rest, ' ', name.len() as int);
    assert(rest.skip(name.len() as int + 1) =~= kind.name());
    assert(rest.take(name.len() as int) =~= name);
    assert("counter"@ != "gauge"@) by {
        assert("counter"@.len() != "gauge"@.len());
    }
    assert("counter"@ != "histogram"@) by {
        assert("counter"@.len() != "histogram"@.len());
    }
    assert("gauge"@ != "histogram"@) by {
        assert("gauge"@.len() != "histogram"@.len());
    }
}

/// Whether a line declares no other kind for the metric.
spec fn agrees_on_kind(line: Seq<char>, name: Seq<char>, kind: MetricKind) -> bool {
    declaration(line) matches Some((n, k)) ==> n == name ==> k == kind
}

/// A kind that some line declares, and that no line contradicts, is the metric's.
proof fn lemma_kind_is_declared(all: Seq<Seq<char>>, line: Seq<char>, name: Seq<char>, kind: MetricKind)
    requires
        all.contains(line),
        declaration(line) == Some((name, kind)),
        forall|i: int| 0 <= i < all.len() ==> agrees_on_kind(#[trigger] all[i], name, kind),
    ensures
        declared_kinds(all).contains_key(name),
        declared_kinds(all)[name] == kind,
    decreases all.len(),
{
    let rest = all.drop_last();
    assert(agrees_on_kind(all[all.len() - 1], name, kind));
    let here = declaration(all.last()) matches Some((n, _)) && n == name;
    if !here {
        let i = choose|i: int| 0 <= i < all.len() && all[i] == line;
        assert(i < rest.len());
        assert(rest[i] == line);
        assert forall|j: int| 0 <= j < rest.len() implies agrees_on_kind(#[trigger] rest[j], name, kind) by {
            assert(agrees_on_kind(all[j], name, kind));
        }
        lemma_kind_is_declared(rest, line, name, kind);
    }
}

/// A metric's kind is one that some line declares.
proof fn lemma_kind_has_line(all: Seq<Seq<char>>, name: Seq<char>) -> (i: int)
    requires
        declared_kinds(all).contains_key(name),
    ensures
        0 <= i < all.len(),
        declaration(all[i]) matches Some((n, _)) && n == name,
    decreases all.len(),
{
    let here = declaration(all.last()) matches Some((n, _)) && n == name;
    if here {
        all.len() - 1
    } else {
        lemma_kind_has_line(all.drop_last(), name)
    }
}

/// The declared kinds are those of the recorded metrics.
proof fn lemma_kinds(text: Seq<char>, r: Recorded)
    requires
        is_of_this_library(r),
        exposes(text, r),
    ensures
        ({
            let kinds = declared_kinds(lines_of(text));
            &&& forall|name: Seq<char>, kind: MetricKind| #[trigger]
                is_recorded(name, kind, r) ==> kinds.contains_key(name) && kinds[name] == kind
            &&& forall|name: Seq<char>| #[trigger] kinds.contains_key(name) ==> is_base_name(name)
        }),
{
    let all = lines_of(text);
    let kinds = declared_kinds(all);
    lemma_this_library_is_orderly(r);
    assert forall|name: Seq<char>, kind: MetricKind| #[trigger] is_recorded(name, kind, r) implies kinds.contains_key(
        name,
    ) && kinds[name] == kind by {
        lemma_type_line_is_read(name, kind);
        assert forall|i: int| 0 <= i < all.len() implies agrees_on_kind(#[trigger] all[i], name, kind) by {
            if begins_with(all[i], "# TYPE "@) {
                let (n, k) = choose|n: Seq<char>, k: MetricKind|
                    all[i] == type_line(n, k) && #[trigger] is_recorded(n, k, r);
                lemma_type_line_is_read(n, k);
            }
        }
        lemma_kind_is_declared(all, type_line(name, kind), name, kind);
    }
    assert forall|name: Seq<char>| #[trigger] kinds.contains_key(name) implies is_base_name(name) by {
        let i = lemma_kind_has_line(all, name);
        let (n, k) = choose|n: Seq<char>, k: MetricKind|
            all[i] == type_line(n, k) && #[trigger] is_recorded(n, k, r);
        lemma_type_line_is_read(n, k);
    }
}

/// What a line with a number is taken apart into.
proof fn lemma_line_is_taken_apart(name: Seq<char>, labels: Labels, number: Seq<char>)
    requires
        is_plain_name(name),
        forall|i: int| 0 <= i < labels.len() ==> is_plain_name((#[trigger] labels[i]).0),
        !number.contains(' '),
    ensures
        ({
            let line = sample_line(name, labels, number);
            let front = series_text(name, labels);
            &&& line.len() > 0
            &&& line[0] != '#'
            &&& sample_parts(line) == Some((front, number))
            &&& front.take(crate::text::find(front, '{')) == name
            &&& sample_labels(front) == labels
        }),
{
    let line = sample_line(name, labels, number);
    let front = series_text(name, labels);
    assert forall|j: int| front.len() < j < line.len() implies line[j] != ' ' by {
        assert(line[j] == number[j - front.len() - 1]);
    }
    lemma_find_last_is(line, ' ', front.len() as int);
    assert(line.take(front.len() as int) =~= front);
    assert(line.skip(front.len() as int + 1) =~= number);
    if name.len() > 0 {
        assert(is_plain_char(name[0]));
        assert(line[0] == name[0]);
    } else {
        assert(line[0] == '{');
    }
    assert forall|j: int| 0 <= j < name.len() implies front[j] != '{' by {
        assert(front[j] == name[j]);
        assert(is_plain_char(name[j]));
    }
    lemma_find_is(front, '{', name.len() as int);
    assert(front.take(name.len() as int) =~= name);
    let rest = front.skip(name.len() as int + 1);
    reveal_strlit("}");
    assert(rest =~= written_labels(labels) + seq!['}']);
    assert(rest.skip(rest.len() - 1) =~= "}"@);
    assert(ends_with(rest, "}"@));
    assert(without_last(rest, 1) =~= written_labels(labels));
    assert forall|i: int| 0 <= i < labels.len() implies is_plain_key((#[trigger] labels[i]).0) by {
        let key = labels[i].0;
        assert forall|k: int| 0 <= k < key.len() implies key[k] != '"' && key[k] != ',' && key[k] != '=' by {
            assert(is_plain_char(key[k]));
        }
    }
    law_label_list_round_trip(labels);
}

proof fn lemma_one_label_is_sorted(label: (Seq<char>, Seq<char>))
    ensures
        sorted_labels(seq![label]) == seq![label],
{
    let one: Labels = seq![label];
    let none: Labels = seq![];
    assert(one.drop_last() =~= none);
    assert(sorted_labels(none) =~= none);
    assert(with_label(none, label) =~= one);
}

proof fn lemma_suffix(name: Seq<char>, suffix: Seq<char>)
    ensures
        ends_with(name + suffix, suffix),
        without_last(name + suffix, suffix.len()) == name,
{
    let all = name + suffix;
    assert(all.skip(all.len() - suffix.len()) =~= suffix);
    assert(all.take(all.len() - suffix.len()) =~= name);
}

/// A text that differs from another, so many characters from the end, does not
/// end with it.
proof fn lemma_other_ending(text: Seq<char>, suffix: Seq<char>, back: int)
    requires
        0 < back <= suffix.len(),
        back <= text.len(),
        text[text.len() - back] != suffix[suffix.len() - back],
    ensures
        !ends_with(text, suffix),
{
    if ends_with(text, suffix) {
        let tail = text.skip(text.len() - suffix.len());
        assert(tail[suffix.len() - back] == text[text.len() - back]);
    }
}

/// The suffixes of what is given of a histogram are told apart, and no metric
/// has one.
proof fn lemma_suffixes(name: Seq<char>)
    requires
        is_plain_name(name),
    ensures
        is_plain_name(name + "_bucket"@),
        is_plain_name(name + "_sum"@),
        is_plain_name(name + "_count"@),
        !is_base_name(name + "_bucket"@),
        !is_base_name(name + "_sum"@),
        !is_base_name(name + "_count"@),
        !ends_with(name + "_sum"@, "_bucket"@),
        !ends_with(name + "_count"@, "_bucket"@),
        !ends_with(name + "_count"@, "_sum"@),
{
    reveal_strlit("_bucket");
    reveal_strlit("_sum");
    reveal_strlit("_count");
    reveal_strlit("bucket");
    reveal_strlit("sum");
    reveal_strlit("count");
    lemma_other_ending(name + "_sum"@, "_bucket"@, 1);
    lemma_other_ending(name + "_count"@, "_bucket"@, 2);
    lemma_other_ending(name + "_count"@, "_sum"@, 1);
    assert((name + "_bucket"@).skip(name.len() as int + 1) =~= "bucket"@);
    assert((name + "_sum"@).skip(name.len() as int + 1) =~= "sum"@);
    assert((name + "_count"@).skip(name.len() as int + 1) =~= "count"@);
    lemma_plain_sum(name, "_bucket"@);
    lemma_plain_sum(name, "_sum"@);
    lemma_plain_sum(name, "_count"@);
}

proof fn lemma_plain_sum(a: Seq<char>, b: Seq<char>)
    requires
        is_plain_name(a),
        is_plain_name(b),
    ensures
        is_plain_name(a + b),
{
    assert forall|i: int| 0 <= i < (a + b).len() implies #[trigger] is_plain_char((a + b)[i]) by {
        if i < a.len() {
            assert(is_plain_char(a[i]));
        } else {
            assert(is_plain_char(b[i - a.len()]));
        }
    }
}

/// The series of what is recorded has plain names, a number without spaces, and
/// a recorded metric.
proof fn lemma_item(item: Item, r: Recorded)
    requires
        is_of_this_library(r),
        item.is_in(r),
    ensures
        is_base_name(item.series().0),
        is_plain_name(item.series().1),
        item.series().1 != "le"@,
        !item.number(r).contains(' '),
        is_plain_name(item.name()),
        forall|i: int| 0 <= i < item.labels(r).len() ==> is_plain_name((#[trigger] item.labels(r)[i]).0),
        item matches Item::Counter(s) ==> is_recorded(s.0, MetricKind::Counter, r),
        item matches Item::Gauge(s) ==> is_recorded(s.0, MetricKind::Gauge, r),
        !(item is Counter) && !(item is Gauge) ==> is_recorded(item.series().0, MetricKind::Histogram, r),
{
    let s = item.series();
    lemma_this_library_is_orderly(r);
    law_names_are_plain();
    reveal_strlit("le");
    reveal_strlit("transform");
    reveal_strlit("state");
    assert("transform"@.len() != "le"@.len());
    assert("state"@.len() != "le"@.len());
    match item {
        Item::Counter(_) => {
            lemma_digits_are_plain(r.totals[s] as nat);
        },
        Item::Gauge(_) => {},
        Item::Bucket(_, i) => {
            lemma_digits_are_plain(observations_up_to(r.latencies, s, r.bounds[i]));
        },
        Item::Infinity(_) => {
            lemma_digits_are_plain(observations(r.latencies, s));
        },
        Item::Sum(_) => {},
        Item::Count(_) => {
            lemma_digits_are_plain(observations(r.latencies, s));
        },
    }
    lemma_suffixes(s.0);
    assert(is_plain_name("le"@));
}

/// The line of an item is read as what it gives.
proof fn lemma_item_is_read(
    item: Item,
    r: Recorded,
    kinds: Map<Seq<char>, MetricKind>,
    numbers: Map<Seq<char>, Reading>,
)
    requires
        is_of_this_library(r),
        item.is_in(r),
        forall|name: Seq<char>, kind: MetricKind| #[trigger]
            is_recorded(name, kind, r) ==> kinds.contains_key(name) && kinds[name] == kind,
        forall|name: Seq<char>| #[trigger] kinds.contains_key(name) ==> is_base_name(name),
    ensures
        item.line(r).len() > 0,
        item.line(r)[0] != '#',
        line_event(item.line(r), kinds, numbers) == item_event(item, r, numbers),
{
    let s = item.series();
    let name = item.name();
    let labels = item.labels(r);
    lemma_item(item, r);
    lemma_line_is_taken_apart(name, labels, item.number(r));
    lemma_suffixes(s.0);
    lemma_suffix(s.0, "_bucket"@);
    lemma_suffix(s.0, "_sum"@);
    lemma_suffix(s.0, "_count"@);
    lemma_one_label_is_sorted((s.1, shown(s.2)));
    match item {
        Item::Counter(_) => {},
        Item::Gauge(_) => {},
        Item::Bucket(_, _) | Item::Infinity(_) => {
            assert(labels.drop_first()[0] == labels[1]);
            assert(bound_position(labels.drop_first()) == 0);
            assert(bound_position(labels) == 1);
            assert(labels.remove(1) =~= labels_of(s));
            assert(is_part_of_histogram(kinds, name, "_bucket"@));
            if let Item::Bucket(_, i) = item {
                lemma_digits_are_plain(r.bounds[i] as nat / 1000);
                reveal_strlit("+Inf");
                assert(seconds_text(r.bounds[i] as nat)[0] != "+Inf"@[0]);
            }
        },
        Item::Sum(_) => {
            assert(is_part_of_histogram(kinds, name, "_sum"@));
        },
        Item::Count(_) => {
            assert(is_part_of_histogram(kinds, name, "_count"@));
        },
    }
}

/// Whether two lines are read as giving the same of one series.
spec fn clash(a: EventModel, b: EventModel) -> bool {
    conflict(a, b) || same_single(a, b)
}

/// Whether two lines are read as single values of one series.
spec fn same_single(a: EventModel, b: EventModel) -> bool {
    match (a, b) {
        (EventModel::Scalar { name: m, labels: k, .. }, EventModel::Scalar { name: n, labels: l, .. }) => m == n && k
            == l,
        _ => false,
    }
}

/// The name and labels that a line is read as being of.
spec fn place_of(e: EventModel) -> SeriesKey {
    match e {
        EventModel::Scalar { name, labels, .. } => SeriesKey { name, labels },
        EventModel::Bucket { key, .. } => key,
        EventModel::Sum { key, .. } => key,
        EventModel::Count { key, .. } => key,
    }
}

proof fn lemma_place_of_item(item: Item, r: Recorded, numbers: Map<Seq<char>, Reading>)
    requires
        item_event(item, r, numbers) is Some,
    ensures
        place_of(item_event(item, r, numbers)->0) == key_of(item.series()),
{
}

/// Items that are read as giving the same of one series are the same.
proof fn lemma_items_are_told_apart(a: Item, b: Item, r: Recorded, numbers: Map<Seq<char>, Reading>)
    requires
        is_of_this_library(r),
        tells_bounds_apart(numbers, r.bounds),
        a.is_in(r),
        b.is_in(r),
        item_event(a, r, numbers) is Some,
        item_event(b, r, numbers) is Some,
        clash(item_event(a, r, numbers)->0, item_event(b, r, numbers)->0),
        shows_one_series(r, place_of(item_event(a, r, numbers)->0)),
    ensures
        a == b,
{
    law_metrics_are_told_apart();
    lemma_place_of_item(a, r, numbers);
    lemma_place_of_item(b, r, numbers);
    assert(a.series() == b.series());
}

/// A line that is read as anything gives what is recorded.
proof fn lemma_line_has_item(
    text: Seq<char>,
    r: Recorded,
    numbers: Map<Seq<char>, Reading>,
    i: int,
) -> (item: Item)
    requires
        is_readable(text, r, numbers),
        0 <= i < lines_of(text).len(),
        line_event(lines_of(text)[i], declared_kinds(lines_of(text)), numbers) is Some,
    ensures
        item.is_in(r),
        lines_of(text)[i] == item.line(r),
        line_event(lines_of(text)[i], declared_kinds(lines_of(text)), numbers) == item_event(item, r, numbers),
        lines_of(text)[i].len() > 0,
        lines_of(text)[i][0] != '#',
{
    let all = lines_of(text);
    let line = all[i];
    lemma_kinds(text, r);
    assert(is_exposed_line(line, r));
    reveal_strlit("# HELP ");
    reveal_strlit("# TYPE ");
    assert(sample_parts(line) is Some);
    if begins_with(line, "# HELP "@) {
        assert(line[0] == line.take("# HELP "@.len() as int)[0]);
    }
    assert(exists|item: Item| #[trigger] item.is_in(r) && line == item.line(r)) by {
        if exists|name: Seq<char>, kind: MetricKind|
            line == type_line(name, kind) && #[trigger] is_recorded(name, kind, r) {
            assert(line[0] == '#');
        }
    }
    let item = choose|item: Item| #[trigger] item.is_in(r) && line == item.line(r);
    lemma_item_is_read(item, r, declared_kinds(all), numbers);
    item
}

/// What a text is read as is what is recorded.
proof fn lemma_events_are_items(text: Seq<char>, r: Recorded, numbers: Map<Seq<char>, Reading>, e: EventModel)
    requires
        is_readable(text, r, numbers),
    ensures
        events_of(lines_of(text), declared_kinds(lines_of(text)), numbers).contains(e) <==> exists|item: Item|
            #[trigger] item.is_in(r) && item_event(item, r, numbers) == Some(e),
{
    let all = lines_of(text);
    let kinds = declared_kinds(all);
    lemma_events(all, kinds, numbers, e);
    lemma_kinds(text, r);
    if events_of(all, kinds, numbers).contains(e) {
        let i = choose|i: int| 0 <= i < all.len() && line_event(#[trigger] all[i], kinds, numbers) == Some(e);
        let item = lemma_line_has_item(text, r, numbers, i);
        assert(item.is_in(r));
    }
    if exists|item: Item| #[trigger] item.is_in(r) && item_event(item, r, numbers) == Some(e) {
        let item = choose|item: Item| #[trigger] item.is_in(r) && item_event(item, r, numbers) == Some(e);
        lemma_item_is_read(item, r, kinds, numbers);
        assert(all.contains(item.line(r)));
        let i = choose|i: int| 0 <= i < all.len() && all[i] == item.line(r);
        assert(line_event(all[i], kinds, numbers) == Some(e));
    }
}

/// No two lines of a text give the same of one series, where no other is shown
/// alike.
proof fn lemma_no_clash(text: Seq<char>, r: Recorded, numbers: Map<Seq<char>, Reading>, i: int, j: int)
    requires
        is_readable(text, r, numbers),
        0 <= i < j < lines_of(text).len(),
        line_event(lines_of(text)[i], declared_kinds(lines_of(text)), numbers) is Some,
        line_event(lines_of(text)[j], declared_kinds(lines_of(text)), numbers) is Some,
        shows_one_series(
            r,
            place_of(line_event(lines_of(text)[i], declared_kinds(lines_of(text)), numbers)->0),
        ),
    ensures
        !clash(
            line_event(lines_of(text)[i], declared_kinds(lines_of(text)), numbers)->0,
            line_event(lines_of(text)[j], declared_kinds(lines_of(text)), numbers)->0,
        ),
{
    let all = lines_of(text);
    let kinds = declared_kinds(all);
    let a = lemma_line_has_item(text, r, numbers, i);
    let b = lemma_line_has_item(text, r, numbers, j);
    if clash(line_event(all[i], kinds, numbers)->0, line_event(all[j], kinds, numbers)->0) {
        lemma_items_are_told_apart(a, b, r, numbers);
        assert(all[i] == all[j]);
        let (c, d) = choose|c: Item, d: Item| #[trigger] are_written_alike(c, d, all[i], r);
        lemma_kinds(text, r);
        lemma_item_is_read(c, r, kinds, numbers);
        lemma_item_is_read(d, r, kinds, numbers);
        lemma_items_are_told_apart(c, d, r, numbers);
    }
}

proof fn lemma_readable_is_tidy(text: Seq<char>, r: Recorded, numbers: Map<Seq<char>, Reading>, key: SeriesKey)
    requires
        is_readable(text, r, numbers),
        shows_one_series(r, key),
    ensures
        is_tidy_at(events_of(lines_of(text), declared_kinds(lines_of(text)), numbers), key),
{
    let all = lines_of(text);
    let kinds = declared_kinds(all);
    let related = |a: EventModel, b: EventModel| histogram_of(a) == Some(key) && conflict(a, b);
    assert forall|i: int, j: int|
        0 <= i < j < all.len() && line_event(#[trigger] all[i], kinds, numbers) is Some && line_event(
            #[trigger] all[j],
            kinds,
            numbers,
        ) is Some implies !related(
        line_event(all[i], kinds, numbers)->0,
        line_event(all[j], kinds, numbers)->0,
    ) by {
        if histogram_of(line_event(all[i], kinds, numbers)->0) == Some(key) {
            lemma_no_clash(text, r, numbers, i, j);
        }
    }
    lemma_pairs_of_lines(all, kinds, numbers, related);
    let events = events_of(all, kinds, numbers);
    assert forall|i: int, j: int| 0 <= i < j < events.len() && histogram_of(#[trigger] events[i]) == Some(
        key,
    ) implies !conflict(events[i], #[trigger] events[j]) by {
        assert(!related(events[i], events[j]));
    }
}

/// A single value that a line gives is among the samples.
proof fn lemma_single_is_a_sample(
    text: Seq<char>,
    line: Seq<char>,
    numbers: Map<Seq<char>, Reading>,
    series: Series,
    kind: MetricKind,
    value: Reading,
)
    requires
        lines_of(text).contains(line),
        line_event(line, declared_kinds(lines_of(text)), numbers) == Some(
            EventModel::Scalar { name: series.0, kind, labels: labels_of(series), value },
        ),
    ensures
        exposed_samples(text, numbers).contains(single_sample(series, kind, value)),
{
    let all = lines_of(text);
    let kinds = declared_kinds(all);
    let events = events_of(all, kinds, numbers);
    let e = EventModel::Scalar { name: series.0, kind, labels: labels_of(series), value };
    let i = choose|i: int| 0 <= i < all.len() && all[i] == line;
    assert(line_event(all[i], kinds, numbers) == Some(e));
    lemma_events(all, kinds, numbers, e);
    let sample = single_sample(series, kind, value);
    assert(scalar_sample(e) == Some(sample));
    lemma_scalars(events, sample);
    lemma_samples(events, sample);
}

/// A counter is read back from the rendered text with the total that was
/// recorded.
pub proof fn law_counters_are_read_back(
    text: Seq<char>,
    r: Recorded,
    numbers: Map<Seq<char>, Reading>,
    transform: Seq<char>,
)
    requires
        is_of_this_library(r),
        exposes(text, r),
        r.totals.contains_key(changes_applied_series(transform)),
        numbers.contains_key(nat_text(r.totals[changes_applied_series(transform)] as nat)),
    ensures
        exposed_samples(text, numbers).contains(
            single_sample(
                changes_applied_series(transform),
                MetricKind::Counter,
                numbers[nat_text(r.totals[changes_applied_series(transform)] as nat)],
            ),
        ),
{
    let s = changes_applied_series(transform);
    let item = Item::Counter(s);
    assert(item.is_in(r));
    lemma_kinds(text, r);
    lemma_item_is_read(item, r, declared_kinds(lines_of(text)), numbers);
    lemma_single_is_a_sample(text, item.line(r), numbers, s, MetricKind::Counter, numbers[item.number(r)]);
}

/// A gauge is read back from the rendered text with the value that it was last
/// set to, as far as all numbers are doubles.
pub proof fn law_gauges_are_read_back(
    text: Seq<char>,
    r: Recorded,
    numbers: Map<Seq<char>, Reading>,
    state: Seq<char>,
)
    requires
        is_of_this_library(r),
        exposes(text, r),
        r.gauges.contains_key(staging_segments_series(state)),
        r.gauges[staging_segments_series(state)] <= EXACT_UP_TO,
        numbers.contains_key(nat_text(r.gauges[staging_segments_series(state)] as nat)),
    ensures
        exposed_samples(text, numbers).contains(
            single_sample(
                staging_segments_series(state),
                MetricKind::Gauge,
                numbers[nat_text(r.gauges[staging_segments_series(state)] as nat)],
            ),
        ),
{
    let s = staging_segments_series(state);
    let item = Item::Gauge(s);
    assert(item.is_in(r));
    lemma_kinds(text, r);
    lemma_item_is_read(item, r, declared_kinds(lines_of(text)), numbers);
    lemma_single_is_a_sample(text, item.line(r), numbers, s, MetricKind::Gauge, numbers[item.number(r)]);
}

/// A histogram is read back from the rendered text with how many latencies it
/// observed, in all and up to each bound, and with their sum, where no other is
/// shown alike.
pub proof fn law_histograms_are_read_back(
    text: Seq<char>,
    r: Recorded,
    numbers: Map<Seq<char>, Reading>,
    series: Series,
) -> (sample: SampleModel)
    requires
        is_readable(text, r, numbers),
        observations(r.latencies, series) > 0,
        shows_one_series(r, key_of(series)),
        numbers.contains_key(nat_text(observations(r.latencies, series))),
    ensures
        exposed_samples(text, numbers).contains(sample),
        is_sample_of(sample, series),
        sample.kind is Histogram,
        sample.count == Some(numbers[nat_text(observations(r.latencies, series))].whole),
        numbers.contains_key(r.sums[series]) ==> sample.sum == Some(numbers[r.sums[series]]),
        forall|i: int|
            0 <= i < r.bounds.len() && numbers.contains_key(seconds_text(#[trigger] r.bounds[i] as nat))
                && numbers.contains_key(nat_text(observations_up_to(r.latencies, series, r.bounds[i])))
                ==> sample.buckets.contains(
                (
                    numbers[seconds_text(r.bounds[i] as nat)],
                    numbers[nat_text(observations_up_to(r.latencies, series, r.bounds[i]))].whole,
                ),
            ),
{
    let all = lines_of(text);
    let events = events_of(all, declared_kinds(all), numbers);
    let key = key_of(series);
    let sample = histogram_sample(events, key);
    lemma_readable_is_tidy(text, r, numbers, key);
    let count = item_event(Item::Count(series), r, numbers)->0;
    assert(Item::Count(series).is_in(r));
    lemma_events_are_items(text, r, numbers, count);
    assert(events.contains(count));
    lemma_count(events, key);
    lemma_histogram_keys(events, key);
    assert(histogram_of(count) == Some(key));
    let keys = histogram_keys(events);
    let at = choose|at: int| 0 <= at < keys.len() && keys[at] == key;
    assert(histograms_of(events)[at] == sample);
    lemma_samples(events, sample);
    if numbers.contains_key(r.sums[series]) {
        let sum = item_event(Item::Sum(series), r, numbers)->0;
        assert(Item::Sum(series).is_in(r));
        lemma_events_are_items(text, r, numbers, sum);
        lemma_sum(events, key);
        assert(events.contains(sum));
    }
    assert forall|i: int|
        0 <= i < r.bounds.len() && numbers.contains_key(seconds_text(#[trigger] r.bounds[i] as nat))
            && numbers.contains_key(
            nat_text(observations_up_to(r.latencies, series, r.bounds[i])),
        ) implies sample.buckets.contains(
        (
            numbers[seconds_text(r.bounds[i] as nat)],
            numbers[nat_text(observations_up_to(r.latencies, series, r.bounds[i]))].whole,
        ),
    ) by {
        let item = Item::Bucket(series, i);
        let e = item_event(item, r, numbers)->0;
        assert(item.is_in(r));
        assert(item.number(r) == nat_text(observations_up_to(r.latencies, series, r.bounds[i])));
        lemma_events_are_items(text, r, numbers, e);
        assert(events.contains(e));
        lemma_buckets(
            events,
            key,
            (
                numbers[seconds_text(r.bounds[i] as nat)],
                numbers[nat_text(observations_up_to(r.latencies, series, r.bounds[i]))].whole,
            ),
        );
    }
    sample
}

/// Whether two samples are of one series.
pub open spec fn same_place(a: SampleModel, b: SampleModel) -> bool {
    a.name == b.name && a.labels == b.labels
}

proof fn lemma_singles_differ(events: Seq<EventModel>, key: SeriesKey)
    requires
        forall|i: int, j: int|
            0 <= i < j < events.len() && place_of(#[trigger] events[i]) == key ==> !same_single(
                events[i],
                #[trigger] events[j],
            ),
    ensures
        forall|i: int, j: int|
            0 <= i < j < scalars(events).len() && is_at(#[trigger] scalars(events)[i], key) ==> !same_place(
                scalars(events)[i],
                #[trigger] scalars(events)[j],
            ),
    decreases events.len(),
{
    if events.len() > 0 {
        let front = events.drop_last();
        assert forall|i: int, j: int| 0 <= i < j < front.len() && place_of(#[trigger] front[i]) == key implies
            !same_single(front[i], #[trigger] front[j]) by {
            assert(!same_single(events[i], events[j]));
        }
        lemma_singles_differ(front, key);
        let before = scalars(front);
        let all = scalars(events);
        assert forall|i: int, j: int| 0 <= i < j < all.len() && is_at(#[trigger] all[i], key) implies !same_place(
            all[i],
            #[trigger] all[j],
        ) by {
            if j < before.len() {
                assert(is_at(before[i], key));
                assert(!same_place(before[i], before[j]));
            } else {
                assert(before.contains(before[i]));
                lemma_scalars(front, before[i]);
                let e = choose|e: EventModel| #[trigger] front.contains(e) && scalar_sample(e) == Some(before[i]);
                let m = choose|m: int| 0 <= m < front.len() && front[m] == e;
                assert(place_of(events[m]) == key);
                assert(!same_single(events[m], events[events.len() - 1]));
            }
        }
    }
}

/// Whether a sample has the name and labels.
pub open spec fn is_at(sample: SampleModel, key: SeriesKey) -> bool {
    sample.name == key.name && sample.labels == key.labels
}

/// Whether there are not two samples of a series.
pub open spec fn is_read_once(text: Seq<char>, numbers: Map<Seq<char>, Reading>, series: Series) -> bool {
    let samples = exposed_samples(text, numbers);
    forall|i: int, j: int|
        0 <= i < j < samples.len() && is_sample_of(#[trigger] samples[i], series) ==> !is_sample_of(
            #[trigger] samples[j],
            series,
        )
}

/// A series is not read twice, where no other is shown alike.
pub proof fn law_series_are_read_once(
    text: Seq<char>,
    r: Recorded,
    numbers: Map<Seq<char>, Reading>,
    series: Series,
)
    requires
        is_readable(text, r, numbers),
        shows_one_series(r, key_of(series)),
    ensures
        is_read_once(text, numbers, series),
{
    let samples = exposed_samples(text, numbers);
    assert forall|i: int, j: int|
        0 <= i < j < samples.len() && is_sample_of(#[trigger] samples[i], series) implies !is_sample_of(
        #[trigger] samples[j],
        series,
    ) by {
        lemma_read_once(text, r, numbers, key_of(series), i, j);
    }
}

proof fn lemma_read_once(
    text: Seq<char>,
    r: Recorded,
    numbers: Map<Seq<char>, Reading>,
    place: SeriesKey,
    i: int,
    j: int,
)
    requires
        is_readable(text, r, numbers),
        shows_one_series(r, place),
        0 <= i < j < exposed_samples(text, numbers).len(),
        is_at(exposed_samples(text, numbers)[i], place),
    ensures
        !same_place(exposed_samples(text, numbers)[i], exposed_samples(text, numbers)[j]),
{
    let all = lines_of(text);
    let kinds = declared_kinds(all);
    let events = events_of(all, kinds, numbers);
    let singles = scalars(events);
    let keys = histogram_keys(events);
    let samples = exposed_samples(text, numbers);
    let related = |a: EventModel, b: EventModel| place_of(a) == place && same_single(a, b);
    assert forall|m: int, n: int|
        0 <= m < n < all.len() && line_event(#[trigger] all[m], kinds, numbers) is Some && line_event(
            #[trigger] all[n],
            kinds,
            numbers,
        ) is Some implies !related(
        line_event(all[m], kinds, numbers)->0,
        line_event(all[n], kinds, numbers)->0,
    ) by {
        if place_of(line_event(all[m], kinds, numbers)->0) == place {
            lemma_no_clash(text, r, numbers, m, n);
        }
    }
    lemma_pairs_of_lines(all, kinds, numbers, related);
    assert forall|m: int, n: int| 0 <= m < n < events.len() && place_of(#[trigger] events[m]) == place implies
        !same_single(events[m], #[trigger] events[n]) by {
        assert(!related(events[m], events[n]));
    }
    lemma_singles_differ(events, place);
    law_histograms_ascend(events);
    if i >= singles.len() {
        let (k, l) = (keys[i - singles.len()], keys[j - singles.len()]);
        assert(samples[i].name == k.name && samples[i].labels == k.labels);
        assert(samples[j].name == l.name && samples[j].labels == l.labels);
        assert(key_less(k, l));
        lemma_key_order(k, l, k);
    } else if j < singles.len() {
        assert(is_at(singles[i], place));
        assert(!same_place(singles[i], singles[j]));
    } else {
        let key = keys[j - singles.len()];
        assert(samples[j].name == key.name);
        assert(singles.contains(singles[i]));
        lemma_scalars(events, singles[i]);
        let e = choose|e: EventModel| #[trigger] events.contains(e) && scalar_sample(e) == Some(singles[i]);
        lemma_events_are_items(text, r, numbers, e);
        assert(keys.contains(key));
        lemma_histogram_keys(events, key);
        let f = choose|f: EventModel| #[trigger] events.contains(f) && histogram_of(f) == Some(key);
        lemma_events_are_items(text, r, numbers, f);
        law_metrics_are_told_apart();
    }
}

/// A value without quotes and backslashes is shown as it is, and no other value
/// is shown like it.
pub proof fn law_plain_values_are_shown_as_they_are(value: Seq<char>, other: Seq<char>)
    requires
        !value.contains('"'),
        !value.contains('\\'),
    ensures
        shown(value) == value,
        shown(other) == value ==> other == value,
{
    lemma_shown_plain(value);
    if shown(other) == value {
        lemma_shown_like_plain(false, other);
    }
}

/// A value in which no backslash stands before a backslash, a quote or a newline
/// is shown as it is.
pub proof fn law_lone_backslashes_are_shown(value: Seq<char>)
    requires
        forall|i: int|
            0 <= i < value.len() - 1 && #[trigger] value[i] == '\\' ==> value[i + 1] != '\\' && value[i + 1] != '"'
                && value[i + 1] != '\n',
    ensures
        shown(value) == value,
    decreases value.len(),
{
    if value.len() == 0 {
        assert(shown(value) =~= value);
    } else {
        let rest = value.drop_first();
        assert forall|i: int| 0 <= i < rest.len() - 1 && #[trigger] rest[i] == '\\' implies rest[i + 1] != '\\'
            && rest[i + 1] != '"' && rest[i + 1] != '\n' by {
            assert(value[i + 1] == '\\');
        }
        law_lone_backslashes_are_shown(rest);
        let none: Seq<char> = seq![];
        if value[0] == '\\' {
            if rest.len() > 0 {
                assert(rest[0] == value[1]);
            }
            lemma_held_backslash(rest);
            assert(shown(value) == none + shown_from(true, rest));
        } else if value[0] == '\n' || value[0] == '"' {
            assert(shown(value) == seq![value[0]] + shown_from(false, rest));
        } else {
            assert(shown(value) == none + seq![value[0]] + shown_from(false, rest));
        }
        assert(shown(value) =~= seq![value[0]] + rest);
        assert(seq![value[0]] + rest =~= value);
    }
}

/// A backslash is shown before what is neither a backslash, a quote nor a newline.
proof fn lemma_held_backslash(rest: Seq<char>)
    requires
        rest.len() > 0 ==> rest[0] != '\\' && rest[0] != '"' && rest[0] != '\n',
    ensures
        shown_from(true, rest) == seq!['\\'] + shown_from(false, rest),
{
    let none: Seq<char> = seq![];
    let held: Seq<char> = seq!['\\'];
    if rest.len() == 0 {
        assert(shown_from(true, rest) == held);
        assert(shown_from(false, rest) == none);
        assert(held =~= held + none);
    } else {
        let tail = shown_from(false, rest.drop_first());
        assert(shown_from(true, rest) == held + seq![rest[0]] + tail);
        assert(shown_from(false, rest) == none + seq![rest[0]] + tail);
        assert(held + seq![rest[0]] + tail =~= held + (none + seq![rest[0]] + tail));
    }
}

proof fn lemma_shown_plain(value: Seq<char>)
    requires
        !value.contains('"'),
        !value.contains('\\'),
    ensures
        shown(value) == value,
{
    assert forall|i: int| 0 <= i < value.len() implies value[i] != '\\' by {
        assert(value.contains(value[i]));
    }
    law_lone_backslashes_are_shown(value);
}

/// What is shown without quotes and backslashes is what there was.
proof fn lemma_shown_like_plain(held: bool, value: Seq<char>)
    requires
        !shown_from(held, value).contains('"'),
        !shown_from(held, value).contains('\\'),
    ensures
        !held,
        shown_from(held, value) == value,
    decreases value.len(),
{
    let all = shown_from(held, value);
    if value.len() == 0 {
        if held {
            assert(all[0] == '\\');
        }
        assert(all =~= value);
    } else {
        let rest = value.drop_first();
        let next = if value[0] == '\n' {
            held
        } else if value[0] == '\\' {
            !held
        } else {
            false
        };
        let tail = shown_from(next, rest);
        assert(all.skip(all.len() - tail.len()) =~= tail);
        assert forall|i: int| 0 <= i < tail.len() implies tail[i] != '"' && tail[i] != '\\' by {
            assert(all[all.len() - tail.len() + i] == tail[i]);
            assert(all.contains(tail[i]));
        }
        lemma_shown_like_plain(next, rest);
        if held || value[0] == '"' {
            assert(all.contains(all[0]));
        }
        assert(all =~= value);
    }
}

/// A series with a value without quotes and backslashes is shown by no other.
pub proof fn law_plain_series_are_shown_alone(r: Recorded, series: Series)
    requires
        !series.2.contains('"'),
        !series.2.contains('\\'),
    ensures
        shows_one_series(r, key_of(series)),
        labels_of(series) == seq![(series.1, series.2)],
{
    law_plain_values_are_shown_as_they_are(series.2, series.2);
    assert forall|a: Item, b: Item| #[trigger] a.is_in(r) && #[trigger] b.is_in(r) && key_of(a.series()) == key_of(series)
        && key_of(b.series()) == key_of(series) implies a.series() == b.series() by {
        assert(labels_of(a.series())[0] == labels_of(series)[0]);
        assert(labels_of(b.series())[0] == labels_of(series)[0]);
        law_plain_values_are_shown_as_they_are(series.2, a.series().2);
        law_plain_values_are_shown_as_they_are(series.2, b.series().2);
    }
}

/// Whether the same is recorded of a series.
pub open spec fn same_series(a: Recorded, b: Recorded, s: Series) -> bool {
    &&& a.totals.contains_key(s) <==> b.totals.contains_key(s)
    &&& a.totals.contains_key(s) ==> a.totals[s] == b.totals[s]
    &&& a.gauges.contains_key(s) <==> b.gauges.contains_key(s)
    &&& a.gauge_texts[s] == b.gauge_texts[s]
    &&& observations(a.latencies, s) == observations(b.latencies, s)
    &&& forall|millis: u64| #[trigger]
        observations_up_to(a.latencies, s, millis) == observations_up_to(b.latencies, s, millis)
    &&& a.sums[s] == b.sums[s]
}

proof fn lemma_same_items(a: Recorded, b: Recorded, item: Item, numbers: Map<Seq<char>, Reading>)
    requires
        a.bounds == b.bounds,
        same_series(a, b, item.series()),
        item.is_in(a),
    ensures
        item.is_in(b),
        item_event(item, a, numbers) == item_event(item, b, numbers),
{
    if let Item::Bucket(s, i) = item {
        assert(observations_up_to(a.latencies, s, a.bounds[i]) == observations_up_to(b.latencies, s, a.bounds[i]));
    }
}

/// Whether a sample is a single value, or that of a histogram that no other is
/// shown like.
pub open spec fn is_of_one_series(sample: SampleModel, r: Recorded) -> bool {
    sample.kind is Histogram ==> shows_one_series(r, SeriesKey { name: sample.name, labels: sample.labels })
}

/// No series but one that is shown alike is shown by a name and labels, where the
/// same is recorded of those.
proof fn lemma_shows_one_series_later(before: Recorded, after: Recorded, series: Series, key: SeriesKey)
    requires
        before.bounds == after.bounds,
        forall|s: Series| s != series ==> #[trigger] same_series(before, after, s),
        shows_one_series(before, key),
        key != key_of(series),
    ensures
        shows_one_series(after, key),
{
    assert forall|a: Item, b: Item| #[trigger] a.is_in(after) && #[trigger] b.is_in(after) && key_of(a.series()) == key
        && key_of(b.series()) == key implies a.series() == b.series() by {
        assert(same_series(before, after, a.series()));
        assert(same_series(before, after, b.series()));
        lemma_same_series_back(before, after, a.series());
        lemma_same_series_back(before, after, b.series());
        lemma_same_items(after, before, a, Map::empty());
        lemma_same_items(after, before, b, Map::empty());
    }
}

/// A sample of one text is a sample of another, where the same is recorded of its
/// series.
proof fn lemma_sample_stays(
    text: Seq<char>,
    later: Seq<char>,
    before: Recorded,
    after: Recorded,
    numbers: Map<Seq<char>, Reading>,
    series: Series,
    sample: SampleModel,
)
    requires
        is_readable(text, before, numbers),
        is_readable(later, after, numbers),
        forall|s: Series| s != series ==> #[trigger] same_series(before, after, s),
        exposed_samples(text, numbers).contains(sample),
        !is_sample_of(sample, series),
        is_of_one_series(sample, before),
    ensures
        exposed_samples(later, numbers).contains(sample),
{
    let (a, b) = (lines_of(text), lines_of(later));
    let ea = events_of(a, declared_kinds(a), numbers);
    let eb = events_of(b, declared_kinds(b), numbers);
    lemma_samples(ea, sample);
    lemma_samples(eb, sample);
    if scalars(ea).contains(sample) {
        lemma_scalars(ea, sample);
        lemma_scalars(eb, sample);
        let e = choose|e: EventModel| #[trigger] ea.contains(e) && scalar_sample(e) == Some(sample);
        lemma_events_are_items(text, before, numbers, e);
        lemma_events_are_items(later, after, numbers, e);
        let item = choose|item: Item| #[trigger] item.is_in(before) && item_event(item, before, numbers) == Some(e);
        assert(same_series(before, after, item.series()));
        lemma_same_items(before, after, item, numbers);
        assert(eb.contains(e));
    } else {
        let keys = histogram_keys(ea);
        let at = choose|at: int| 0 <= at < keys.len() && histograms_of(ea)[at] == sample;
        let key = keys[at];
        assert(keys.contains(key));
        lemma_histogram_keys(ea, key);
        lemma_histogram_keys(eb, key);
        let e = choose|e: EventModel| #[trigger] ea.contains(e) && histogram_of(e) == Some(key);
        lemma_events_are_items(text, before, numbers, e);
        lemma_events_are_items(later, after, numbers, e);
        let item = choose|item: Item| #[trigger] item.is_in(before) && item_event(item, before, numbers) == Some(e);
        let s = item.series();
        assert(key == key_of(s));
        assert(same_series(before, after, s));
        lemma_same_items(before, after, item, numbers);
        assert(eb.contains(e));
        assert forall|x: EventModel| histogram_of(x) == Some(key) implies (#[trigger] ea.contains(x) <==> eb.contains(
            x,
        )) by {
            lemma_events_are_items(text, before, numbers, x);
            lemma_events_are_items(later, after, numbers, x);
            if ea.contains(x) {
                let i = choose|i: Item| #[trigger] i.is_in(before) && item_event(i, before, numbers) == Some(x);
                assert(same_series(before, after, i.series()));
                lemma_same_items(before, after, i, numbers);
            }
            if eb.contains(x) {
                let i = choose|i: Item| #[trigger] i.is_in(after) && item_event(i, after, numbers) == Some(x);
                assert(same_series(before, after, i.series()));
                lemma_same_series_back(before, after, i.series());
                lemma_same_items(after, before, i, numbers);
            }
        }
        lemma_shows_one_series_later(before, after, series, key);
        lemma_readable_is_tidy(text, before, numbers, key);
        lemma_readable_is_tidy(later, after, numbers, key);
        lemma_same_histogram_sample(ea, eb, key);
        let others = histogram_keys(eb);
        let to = choose|to: int| 0 <= to < others.len() && others[to] == key;
        assert(histograms_of(eb)[to] == sample);
    }
}

proof fn lemma_same_series_back(a: Recorded, b: Recorded, s: Series)
    requires
        same_series(a, b, s),
    ensures
        same_series(b, a, s),
{
    assert forall|millis: u64| #[trigger]
        observations_up_to(b.latencies, s, millis) == observations_up_to(a.latencies, s, millis) by {
        assert(observations_up_to(a.latencies, s, millis) == observations_up_to(b.latencies, s, millis));
    }
}

/// Where what is recorded differs in one series alone, all other series are read
/// as before, but for histograms that are shown alike.
pub proof fn law_other_series_are_read_as_before(
    text: Seq<char>,
    later: Seq<char>,
    before: Recorded,
    after: Recorded,
    numbers: Map<Seq<char>, Reading>,
    series: Series,
)
    requires
        is_readable(text, before, numbers),
        is_readable(later, after, numbers),
        forall|s: Series| s != series ==> #[trigger] same_series(before, after, s),
    ensures
        forall|sample: SampleModel|
            !is_sample_of(sample, series) && is_of_one_series(sample, before) ==> (#[trigger] exposed_samples(
                later,
                numbers,
            ).contains(sample) <==> exposed_samples(text, numbers).contains(sample)),
{
    assert forall|sample: SampleModel| !is_sample_of(sample, series) && is_of_one_series(sample, before) implies (
    #[trigger] exposed_samples(later, numbers).contains(sample) <==> exposed_samples(text, numbers).contains(
        sample,
    )) by {
        if exposed_samples(text, numbers).contains(sample) {
            lemma_sample_stays(text, later, before, after, numbers, series, sample);
        }
        if exposed_samples(later, numbers).contains(sample) {
            assert forall|s: Series| s != series implies #[trigger] same_series(after, before, s) by {
                assert(same_series(before, after, s));
                lemma_same_series_back(before, after, s);
            }
            if sample.kind is Histogram {
                let key = SeriesKey { name: sample.name, labels: sample.labels };
                lemma_shows_one_series_later(before, after, series, key);
            }
            lemma_sample_stays(later, text, after, before, numbers, series, sample);
        }
    }
}

/// Counting a change makes the counter's total one larger, and leaves all other
/// series as they were read, but for histograms that are shown alike. A transform
/// without quotes and backslashes then has one sample.
pub proof fn law_counting_changes_one_series(
    text: Seq<char>,
    later: Seq<char>,
    before: Recorded,
    numbers: Map<Seq<char>, Reading>,
    transform: Seq<char>,
)
    requires
        is_readable(text, before, numbers),
        is_readable(later, counted(before, changes_applied_series(transform), 1), numbers),
        numbers.contains_key(
            nat_text(
                counted(before, changes_applied_series(transform), 1).totals[changes_applied_series(transform)] as nat,
            ),
        ),
    ensures
        ({
            let series = changes_applied_series(transform);
            let total = counted(before, series, 1).totals[series];
            &&& exposed_samples(later, numbers).contains(
                single_sample(series, MetricKind::Counter, numbers[nat_text(total as nat)]),
            )
            &&& !transform.contains('"') && !transform.contains('\\') ==> is_read_once(later, numbers, series)
            &&& forall|sample: SampleModel|
                !is_sample_of(sample, series) && is_of_one_series(sample, before) ==> (#[trigger] exposed_samples(
                    later,
                    numbers,
                ).contains(sample) <==> exposed_samples(text, numbers).contains(sample))
        }),
{
    let series = changes_applied_series(transform);
    let after = counted(before, series, 1);
    assert(Item::Counter(series).is_in(after));
    law_counters_are_read_back(later, after, numbers, transform);
    if !transform.contains('"') && !transform.contains('\\') {
        law_plain_series_are_shown_alone(after, series);
        law_series_are_read_once(later, after, numbers, series);
    }
    law_other_series_are_read_as_before(text, later, before, after, numbers, series);
}

/// Setting a gauge makes its value the one that was set, whatever it was before,
/// and leaves all other series as they were read, but for histograms that are
/// shown alike. A state without quotes and backslashes then has one sample.
pub proof fn law_setting_a_gauge_changes_one_series(
    text: Seq<char>,
    later: Seq<char>,
    before: Recorded,
    numbers: Map<Seq<char>, Reading>,
    state: Seq<char>,
    count: u64,
    written: Seq<char>,
)
    requires
        is_readable(text, before, numbers),
        is_readable(later, with_gauge(before, staging_segments_series(state), count, written), numbers),
        count <= EXACT_UP_TO,
        numbers.contains_key(nat_text(count as nat)),
    ensures
        ({
            let series = staging_segments_series(state);
            &&& exposed_samples(later, numbers).contains(
                single_sample(series, MetricKind::Gauge, numbers[nat_text(count as nat)]),
            )
            &&& !state.contains('"') && !state.contains('\\') ==> is_read_once(later, numbers, series)
            &&& forall|sample: SampleModel|
                !is_sample_of(sample, series) && is_of_one_series(sample, before) ==> (#[trigger] exposed_samples(
                    later,
                    numbers,
                ).contains(sample) <==> exposed_samples(text, numbers).contains(sample))
        }),
{
    let series = staging_segments_series(state);
    let after = with_gauge(before, series, count, written);
    assert(Item::Gauge(series).is_in(after));
    law_gauges_are_read_back(later, after, numbers, state);
    if !state.contains('"') && !state.contains('\\') {
        law_plain_series_are_shown_alone(after, series);
        law_series_are_read_once(later, after, numbers, series);
    }
    law_other_series_are_read_as_before(text, later, before, after, numbers, series);
}

/// Observing a latency leaves all series but its own as they were read, but for
/// histograms that are shown alike.
pub proof fn law_observing_changes_one_series(
    text: Seq<char>,
    later: Seq<char>,
    before: Recorded,
    numbers: Map<Seq<char>, Reading>,
    series: Series,
    nanos: nat,
    sum: Seq<char>,
)
    requires
        is_readable(text, before, numbers),
        is_readable(later, observed(before, series, nanos, sum), numbers),
    ensures
        forall|sample: SampleModel|
            !is_sample_of(sample, series) && is_of_one_series(sample, before) ==> (#[trigger] exposed_samples(
                later,
                numbers,
            ).contains(sample) <==> exposed_samples(text, numbers).contains(sample)),
{
    let after = observed(before, series, nanos, sum);
    assert forall|s: Series| s != series implies #[trigger] same_series(before, after, s) by {
        lemma_one_more_observation(before.latencies, (series, nanos), s);
        assert forall|millis: u64| #[trigger]
            observations_up_to(before.latencies, s, millis) == observations_up_to(after.latencies, s, millis) by {
            assert(observations_up_to(after.latencies, s, millis) == observations_up_to(before.latencies, s, millis));
        }
    }
    law_other_series_are_read_as_before(text, later, before, after, numbers, series);
}

} // verus!
