//! What the order of an exposition's lines has to do with its samples.

use crate::metrics::exposition::{
    buckets_of, count_of, declaration, declared_kinds, events_of, exposed_samples, histogram_keys, histogram_of,
    histogram_sample, key_less, keys_ascend, law_histograms_ascend, lemma_key_order, lemma_with_key_contains,
    line_event, samples_of, scalars, sum_of, with_bucket, EventModel, MetricKind, Reading, SampleModel,
    SeriesKey,
};
use crate::text::lines_of;
use vstd::prelude::*;

verus! {

/// Whether two lines speak of the same thing: the same bucket of a histogram, its
/// sum, or its count.
pub open spec fn conflict(a: EventModel, b: EventModel) -> bool {
    match (a, b) {
        (EventModel::Bucket { key: k, bucket: x }, EventModel::Bucket { key: l, bucket: y }) => k == l && x.0.rank()
            == y.0.rank(),
        (EventModel::Sum { key: k, .. }, EventModel::Sum { key: l, .. }) => k == l,
        (EventModel::Count { key: k, .. }, EventModel::Count { key: l, .. }) => k == l,
        _ => false,
    }
}

/// Whether a histogram's bucket, sum and count come at most once each.
pub open spec fn is_tidy(events: Seq<EventModel>) -> bool {
    forall|i: int, j: int| 0 <= i < j < events.len() ==> !conflict(#[trigger] events[i], #[trigger] events[j])
}

/// Whether one histogram's bucket, sum and count come at most once each.
pub open spec fn is_tidy_at(events: Seq<EventModel>, key: SeriesKey) -> bool {
    forall|i: int, j: int|
        0 <= i < j < events.len() && histogram_of(#[trigger] events[i]) == Some(key) ==> !conflict(
            events[i],
            #[trigger] events[j],
        )
}

/// Whether the same is said of histograms.
pub open spec fn same_histograms(a: Seq<EventModel>, b: Seq<EventModel>) -> bool {
    forall|e: EventModel| histogram_of(e) is Some ==> (#[trigger] a.contains(e) <==> b.contains(e))
}

pub(crate) proof fn lemma_histogram_keys(events: Seq<EventModel>, key: SeriesKey)
    ensures
        histogram_keys(events).contains(key) <==> exists|e: EventModel|
            #[trigger] events.contains(e) && histogram_of(e) == Some(key),
    decreases events.len(),
{
    if events.len() > 0 {
        let front = events.drop_last();
        let last = events.last();
        lemma_histogram_keys(front, key);
        if let Some(k) = histogram_of(last) {
            lemma_with_key_contains(histogram_keys(front), k, key);
        }
        assert(events.contains(last));
        if histogram_keys(front).contains(key) {
            let e = choose|e: EventModel| #[trigger] front.contains(e) && histogram_of(e) == Some(key);
            let i = choose|i: int| 0 <= i < front.len() && front[i] == e;
            assert(events[i] == e);
            assert(events.contains(e));
        }
        if exists|e: EventModel| #[trigger] events.contains(e) && histogram_of(e) == Some(key) {
            let e = choose|e: EventModel| #[trigger] events.contains(e) && histogram_of(e) == Some(key);
            let i = choose|i: int| 0 <= i < events.len() && events[i] == e;
            if i < front.len() {
                assert(front[i] == e);
                assert(front.contains(e));
            }
        }
    }
}

proof fn lemma_with_bucket_contains(buckets: Seq<(Reading, u64)>, bucket: (Reading, u64), other: (Reading, u64))
    ensures
        with_bucket(buckets, bucket).contains(other) <==> buckets.contains(other) || other == bucket,
    decreases buckets.len(),
{
    let all = with_bucket(buckets, bucket);
    if buckets.len() == 0 || buckets.last().0.rank() <= bucket.0.rank() {
        assert(all[buckets.len() as int] == bucket);
        if buckets.contains(other) {
            let i = choose|i: int| 0 <= i < buckets.len() && buckets[i] == other;
            assert(all[i] == other);
        }
        if all.contains(other) && other != bucket {
            let i = choose|i: int| 0 <= i < all.len() && all[i] == other;
            assert(buckets[i] == other);
        }
    } else {
        let front = buckets.drop_last();
        lemma_with_bucket_contains(front, bucket, other);
        let shorter = with_bucket(front, bucket);
        if shorter.contains(other) {
            let i = choose|i: int| 0 <= i < shorter.len() && shorter[i] == other;
            assert(all[i] == other);
            if front.contains(other) {
                let m = choose|m: int| 0 <= m < front.len() && front[m] == other;
                assert(buckets[m] == other);
            }
        }
        if buckets.contains(other) {
            let i = choose|i: int| 0 <= i < buckets.len() && buckets[i] == other;
            if i < front.len() {
                assert(front[i] == other);
                assert(front.contains(other));
            } else {
                assert(all[shorter.len() as int] == other);
            }
        }
        if all.contains(other) {
            let i = choose|i: int| 0 <= i < all.len() && all[i] == other;
            if i < shorter.len() {
                assert(shorter[i] == other);
                assert(shorter.contains(other));
            } else {
                assert(buckets[buckets.len() - 1] == other);
            }
        }
    }
}

pub(crate) proof fn lemma_buckets(events: Seq<EventModel>, key: SeriesKey, bucket: (Reading, u64))
    ensures
        buckets_of(events, key).contains(bucket) <==> events.contains(EventModel::Bucket { key, bucket }),
    decreases events.len(),
{
    let said = EventModel::Bucket { key, bucket };
    if events.len() > 0 {
        let front = events.drop_last();
        lemma_buckets(front, key, bucket);
        lemma_contains_step(events, said);
        if let EventModel::Bucket { key: k, bucket: b } = events.last() {
            if k == key {
                lemma_with_bucket_contains(buckets_of(front, key), b, bucket);
            }
        }
    }
}

pub(crate) proof fn lemma_contains_step(events: Seq<EventModel>, e: EventModel)
    requires
        events.len() > 0,
    ensures
        events.contains(e) <==> events.drop_last().contains(e) || events.last() == e,
{
    let front = events.drop_last();
    if events.contains(e) {
        let i = choose|i: int| 0 <= i < events.len() && events[i] == e;
        if i < front.len() {
            assert(front[i] == e);
        }
    }
    if front.contains(e) {
        let i = choose|i: int| 0 <= i < front.len() && front[i] == e;
        assert(events[i] == e);
    }
    assert(events[events.len() - 1] == events.last());
}

/// Buckets whose bounds differ.
spec fn bounds_differ(buckets: Seq<(Reading, u64)>) -> bool {
    forall|i: int, j: int|
        0 <= i < j < buckets.len() ==> (#[trigger] buckets[i]).0.rank() < (#[trigger] buckets[j]).0.rank()
}

proof fn lemma_with_bucket_differs(buckets: Seq<(Reading, u64)>, bucket: (Reading, u64))
    requires
        bounds_differ(buckets),
        forall|i: int| 0 <= i < buckets.len() ==> (#[trigger] buckets[i]).0.rank() != bucket.0.rank(),
    ensures
        bounds_differ(with_bucket(buckets, bucket)),
    decreases buckets.len(),
{
    let all = with_bucket(buckets, bucket);
    if buckets.len() == 0 || buckets.last().0.rank() <= bucket.0.rank() {
        assert forall|i: int, j: int| 0 <= i < j < all.len() implies (#[trigger] all[i]).0.rank() < (
        #[trigger] all[j]).0.rank() by {
            if j == buckets.len() {
                assert(buckets[buckets.len() - 1].0.rank() < bucket.0.rank());
                if i < buckets.len() - 1 {
                    assert(buckets[i].0.rank() < buckets[buckets.len() - 1].0.rank());
                }
            } else {
                assert(buckets[i].0.rank() < buckets[j].0.rank());
            }
        }
    } else {
        let front = buckets.drop_last();
        let last = buckets.last();
        assert forall|i: int, j: int| 0 <= i < j < front.len() implies (#[trigger] front[i]).0.rank() < (
        #[trigger] front[j]).0.rank() by {
            assert(buckets[i].0.rank() < buckets[j].0.rank());
        }
        assert forall|i: int| 0 <= i < front.len() implies (#[trigger] front[i]).0.rank() != bucket.0.rank() by {
            assert(buckets[i].0.rank() != bucket.0.rank());
        }
        lemma_with_bucket_differs(front, bucket);
        let shorter = with_bucket(front, bucket);
        assert forall|i: int, j: int| 0 <= i < j < all.len() implies (#[trigger] all[i]).0.rank() < (
        #[trigger] all[j]).0.rank() by {
            if j < shorter.len() {
                assert(shorter[i].0.rank() < shorter[j].0.rank());
            } else {
                assert(all[i] == shorter[i]);
                lemma_with_bucket_contains(front, bucket, shorter[i]);
                assert(shorter.contains(shorter[i]));
                if front.contains(shorter[i]) {
                    let m = choose|m: int| 0 <= m < front.len() && front[m] == shorter[i];
                    assert(buckets[m].0.rank() < buckets[buckets.len() - 1].0.rank());
                }
            }
        }
    }
}

proof fn lemma_bounds_differ(events: Seq<EventModel>, key: SeriesKey)
    requires
        is_tidy_at(events, key),
    ensures
        bounds_differ(buckets_of(events, key)),
    decreases events.len(),
{
    if events.len() > 0 {
        let front = events.drop_last();
        lemma_tidy_front(events, key);
        lemma_bounds_differ(front, key);
        if let EventModel::Bucket { key: k, bucket } = events.last() {
            if k == key {
                let before = buckets_of(front, key);
                assert forall|i: int| 0 <= i < before.len() implies (#[trigger] before[i]).0.rank()
                    != bucket.0.rank() by {
                    assert(before.contains(before[i]));
                    lemma_buckets(front, key, before[i]);
                    let said = EventModel::Bucket { key, bucket: before[i] };
                    let m = choose|m: int| 0 <= m < front.len() && front[m] == said;
                    assert(!conflict(events[m], events[events.len() - 1]));
                }
                lemma_with_bucket_differs(before, bucket);
            }
        }
    }
}

proof fn lemma_tidy_front(events: Seq<EventModel>, key: SeriesKey)
    requires
        is_tidy_at(events, key),
        events.len() > 0,
    ensures
        is_tidy_at(events.drop_last(), key),
{
    let front = events.drop_last();
    assert forall|i: int, j: int| 0 <= i < j < front.len() && histogram_of(#[trigger] front[i]) == Some(
        key,
    ) implies !conflict(front[i], #[trigger] front[j]) by {
        assert(!conflict(events[i], events[j]));
    }
}

pub(crate) proof fn lemma_sum(events: Seq<EventModel>, key: SeriesKey)
    requires
        is_tidy_at(events, key),
    ensures
        forall|sum: Reading| #[trigger]
            events.contains(EventModel::Sum { key, sum }) <==> sum_of(events, key) == Some(sum),
    decreases events.len(),
{
    if events.len() > 0 {
        let front = events.drop_last();
        lemma_tidy_front(events, key);
        lemma_sum(front, key);
        assert forall|sum: Reading| #[trigger]
            events.contains(EventModel::Sum { key, sum }) <==> sum_of(events, key) == Some(sum) by {
            let said = EventModel::Sum { key, sum };
            lemma_contains_step(events, said);
            if front.contains(said) {
                let m = choose|m: int| 0 <= m < front.len() && front[m] == said;
                assert(!conflict(events[m], events[events.len() - 1]));
            }
        }
    }
}

pub(crate) proof fn lemma_count(events: Seq<EventModel>, key: SeriesKey)
    requires
        is_tidy_at(events, key),
    ensures
        forall|count: u64| #[trigger]
            events.contains(EventModel::Count { key, count }) <==> count_of(events, key) == Some(count),
    decreases events.len(),
{
    if events.len() > 0 {
        let front = events.drop_last();
        lemma_tidy_front(events, key);
        lemma_count(front, key);
        assert forall|count: u64| #[trigger]
            events.contains(EventModel::Count { key, count }) <==> count_of(events, key) == Some(count) by {
            let said = EventModel::Count { key, count };
            lemma_contains_step(events, said);
            if front.contains(said) {
                let m = choose|m: int| 0 <= m < front.len() && front[m] == said;
                assert(!conflict(events[m], events[events.len() - 1]));
            }
        }
    }
}

proof fn lemma_same_keys(a: Seq<SeriesKey>, b: Seq<SeriesKey>)
    requires
        keys_ascend(a),
        keys_ascend(b),
        forall|k: SeriesKey| #[trigger] a.contains(k) <==> b.contains(k),
    ensures
        a == b,
    decreases a.len(),
{
    if a.len() == 0 {
        if b.len() > 0 {
            assert(b.contains(b[0]));
            assert(a.contains(b[0]));
        }
        assert(a =~= b);
    } else {
        assert(a.contains(a[0]));
        let j = choose|j: int| 0 <= j < b.len() && b[j] == a[0];
        assert(b.contains(b[0]));
        assert(a.contains(b[0]));
        let i = choose|i: int| 0 <= i < a.len() && a[i] == b[0];
        if i > 0 && j > 0 {
            assert(key_less(a[0], a[i]));
            assert(key_less(b[0], b[j]));
            lemma_key_order(a[0], b[0], a[0]);
        }
        let (ra, rb) = (a.drop_first(), b.drop_first());
        assert forall|m: int, n: int| 0 <= m < n < ra.len() implies key_less(#[trigger] ra[m], #[trigger] ra[n]) by {
            assert(key_less(a[m + 1], a[n + 1]));
        }
        assert forall|m: int, n: int| 0 <= m < n < rb.len() implies key_less(#[trigger] rb[m], #[trigger] rb[n]) by {
            assert(key_less(b[m + 1], b[n + 1]));
        }
        assert forall|k: SeriesKey| #[trigger] ra.contains(k) <==> rb.contains(k) by {
            if ra.contains(k) {
                let m = choose|m: int| 0 <= m < ra.len() && ra[m] == k;
                assert(a[m + 1] == k);
                assert(a.contains(k));
                let n = choose|n: int| 0 <= n < b.len() && b[n] == k;
                assert(key_less(a[0], a[m + 1]));
                lemma_key_order(k, k, k);
                assert(rb[n - 1] == k);
            }
            if rb.contains(k) {
                let m = choose|m: int| 0 <= m < rb.len() && rb[m] == k;
                assert(b[m + 1] == k);
                assert(b.contains(k));
                assert(a.contains(k));
                let n = choose|n: int| 0 <= n < a.len() && a[n] == k;
                assert(key_less(b[0], b[m + 1]));
                lemma_key_order(k, k, k);
                assert(ra[n - 1] == k);
            }
        }
        lemma_same_keys(ra, rb);
        assert(a =~= seq![a[0]] + ra);
        assert(b =~= seq![b[0]] + rb);
    }
}

proof fn lemma_same_buckets(a: Seq<(Reading, u64)>, b: Seq<(Reading, u64)>)
    requires
        bounds_differ(a),
        bounds_differ(b),
        forall|k: (Reading, u64)| #[trigger] a.contains(k) <==> b.contains(k),
    ensures
        a == b,
    decreases a.len(),
{
    if a.len() == 0 {
        if b.len() > 0 {
            assert(b.contains(b[0]));
            assert(a.contains(b[0]));
        }
        assert(a =~= b);
    } else {
        assert(a.contains(a[0]));
        let j = choose|j: int| 0 <= j < b.len() && b[j] == a[0];
        assert(b.contains(b[0]));
        assert(a.contains(b[0]));
        let i = choose|i: int| 0 <= i < a.len() && a[i] == b[0];
        if i > 0 && j > 0 {
            assert(a[0].0.rank() < a[i].0.rank());
            assert(b[0].0.rank() < b[j].0.rank());
        }
        let (ra, rb) = (a.drop_first(), b.drop_first());
        assert forall|m: int, n: int| 0 <= m < n < ra.len() implies (#[trigger] ra[m]).0.rank() < (
        #[trigger] ra[n]).0.rank() by {
            assert(a[m + 1].0.rank() < a[n + 1].0.rank());
        }
        assert forall|m: int, n: int| 0 <= m < n < rb.len() implies (#[trigger] rb[m]).0.rank() < (
        #[trigger] rb[n]).0.rank() by {
            assert(b[m + 1].0.rank() < b[n + 1].0.rank());
        }
        assert forall|k: (Reading, u64)| #[trigger] ra.contains(k) <==> rb.contains(k) by {
            if ra.contains(k) {
                let m = choose|m: int| 0 <= m < ra.len() && ra[m] == k;
                assert(a[m + 1] == k);
                assert(a.contains(k));
                let n = choose|n: int| 0 <= n < b.len() && b[n] == k;
                assert(a[0].0.rank() < a[m + 1].0.rank());
                assert(rb[n - 1] == k);
            }
            if rb.contains(k) {
                let m = choose|m: int| 0 <= m < rb.len() && rb[m] == k;
                assert(b[m + 1] == k);
                assert(b.contains(k));
                assert(a.contains(k));
                let n = choose|n: int| 0 <= n < a.len() && a[n] == k;
                assert(b[0].0.rank() < b[m + 1].0.rank());
                assert(ra[n - 1] == k);
            }
        }
        lemma_same_buckets(ra, rb);
        assert(a =~= seq![a[0]] + ra);
        assert(b =~= seq![b[0]] + rb);
    }
}

/// What is said of a histogram, in whichever order, makes up its sample.
pub(crate) proof fn lemma_same_histogram_sample(a: Seq<EventModel>, b: Seq<EventModel>, key: SeriesKey)
    requires
        is_tidy_at(a, key),
        is_tidy_at(b, key),
        forall|e: EventModel| histogram_of(e) == Some(key) ==> (#[trigger] a.contains(e) <==> b.contains(e)),
    ensures
        histogram_sample(a, key) == histogram_sample(b, key),
{
    lemma_bounds_differ(a, key);
    lemma_bounds_differ(b, key);
    assert forall|k: (Reading, u64)| #[trigger] buckets_of(a, key).contains(k) <==> buckets_of(b, key).contains(k) by {
        lemma_buckets(a, key, k);
        lemma_buckets(b, key, k);
        let said = EventModel::Bucket { key, bucket: k };
        assert(a.contains(said) <==> b.contains(said));
    }
    lemma_same_buckets(buckets_of(a, key), buckets_of(b, key));
    lemma_sum(a, key);
    lemma_sum(b, key);
    lemma_count(a, key);
    lemma_count(b, key);
    if let Some(sum) = sum_of(a, key) {
        assert(a.contains(EventModel::Sum { key, sum }));
        assert(b.contains(EventModel::Sum { key, sum }));
    }
    if let Some(sum) = sum_of(b, key) {
        assert(b.contains(EventModel::Sum { key, sum }));
        assert(a.contains(EventModel::Sum { key, sum }));
    }
    if let Some(count) = count_of(a, key) {
        assert(a.contains(EventModel::Count { key, count }));
        assert(b.contains(EventModel::Count { key, count }));
    }
    if let Some(count) = count_of(b, key) {
        assert(b.contains(EventModel::Count { key, count }));
        assert(a.contains(EventModel::Count { key, count }));
    }
}

/// The histograms that events make up.
pub open spec fn histograms_of(events: Seq<EventModel>) -> Seq<SampleModel> {
    histogram_keys(events).map_values(|k: SeriesKey| histogram_sample(events, k))
}

/// What is said of histograms, in whichever order, makes up the same samples in
/// the same order, where nothing is said twice.
pub proof fn law_histograms_do_not_depend_on_order(a: Seq<EventModel>, b: Seq<EventModel>)
    requires
        is_tidy(a),
        is_tidy(b),
        same_histograms(a, b),
    ensures
        histograms_of(a) == histograms_of(b),
{
    law_histograms_ascend(a);
    law_histograms_ascend(b);
    let (ka, kb) = (histogram_keys(a), histogram_keys(b));
    assert forall|k: SeriesKey| #[trigger] ka.contains(k) <==> kb.contains(k) by {
        lemma_histogram_keys(a, k);
        lemma_histogram_keys(b, k);
        if ka.contains(k) {
            let e = choose|e: EventModel| #[trigger] a.contains(e) && histogram_of(e) == Some(k);
            assert(b.contains(e));
        }
        if kb.contains(k) {
            let e = choose|e: EventModel| #[trigger] b.contains(e) && histogram_of(e) == Some(k);
            assert(a.contains(e));
        }
    }
    lemma_same_keys(ka, kb);
    assert forall|i: int| 0 <= i < ka.len() implies histogram_sample(a, ka[i]) == histogram_sample(b, ka[i]) by {
        lemma_same_histogram_sample(a, b, ka[i]);
    }
    assert(histograms_of(a) =~= histograms_of(b));
}

/// An event of lines is what some line says.
pub(crate) proof fn lemma_events(
    all: Seq<Seq<char>>,
    kinds: Map<Seq<char>, MetricKind>,
    numbers: Map<Seq<char>, Reading>,
    e: EventModel,
)
    ensures
        events_of(all, kinds, numbers).contains(e) <==> exists|i: int|
            0 <= i < all.len() && line_event(#[trigger] all[i], kinds, numbers) == Some(e),
    decreases all.len(),
{
    let events = events_of(all, kinds, numbers);
    if all.len() > 0 {
        let front = all.drop_last();
        let before = events_of(front, kinds, numbers);
        lemma_events(front, kinds, numbers, e);
        if line_event(all.last(), kinds, numbers) is Some {
            lemma_contains_step(events, e);
            assert(events.drop_last() =~= before);
        }
        if before.contains(e) {
            let i = choose|i: int| 0 <= i < front.len() && line_event(#[trigger] front[i], kinds, numbers) == Some(e);
            assert(line_event(all[i], kinds, numbers) == Some(e));
        }
        assert(all[all.len() - 1] == all.last());
        if exists|i: int| 0 <= i < all.len() && line_event(#[trigger] all[i], kinds, numbers) == Some(e) {
            let i = choose|i: int| 0 <= i < all.len() && line_event(#[trigger] all[i], kinds, numbers) == Some(e);
            if i < front.len() {
                assert(line_event(front[i], kinds, numbers) == Some(e));
            }
        }
    }
}

/// Whether two lines say the same bucket, sum or count of a histogram.
pub open spec fn lines_conflict(
    a: Seq<char>,
    b: Seq<char>,
    kinds: Map<Seq<char>, MetricKind>,
    numbers: Map<Seq<char>, Reading>,
) -> bool {
    match (line_event(a, kinds, numbers), line_event(b, kinds, numbers)) {
        (Some(x), Some(y)) => conflict(x, y),
        _ => false,
    }
}

/// Whether no two lines say the same bucket, sum or count of a histogram.
pub open spec fn lines_are_tidy(
    all: Seq<Seq<char>>,
    kinds: Map<Seq<char>, MetricKind>,
    numbers: Map<Seq<char>, Reading>,
) -> bool {
    forall|i: int, j: int|
        0 <= i < j < all.len() ==> !lines_conflict(#[trigger] all[i], #[trigger] all[j], kinds, numbers)
}

/// What holds of no two lines holds of no two events.
pub(crate) proof fn lemma_pairs_of_lines(
    all: Seq<Seq<char>>,
    kinds: Map<Seq<char>, MetricKind>,
    numbers: Map<Seq<char>, Reading>,
    related: spec_fn(EventModel, EventModel) -> bool,
)
    requires
        forall|i: int, j: int|
            0 <= i < j < all.len() && line_event(#[trigger] all[i], kinds, numbers) is Some && line_event(
                #[trigger] all[j],
                kinds,
                numbers,
            ) is Some ==> !related(
                line_event(all[i], kinds, numbers)->0,
                line_event(all[j], kinds, numbers)->0,
            ),
    ensures
        ({
            let events = events_of(all, kinds, numbers);
            forall|i: int, j: int| 0 <= i < j < events.len() ==> !related(#[trigger] events[i], #[trigger] events[j])
        }),
    decreases all.len(),
{
    if all.len() > 0 {
        let front = all.drop_last();
        let before = events_of(front, kinds, numbers);
        let events = events_of(all, kinds, numbers);
        assert forall|i: int, j: int|
            0 <= i < j < front.len() && line_event(#[trigger] front[i], kinds, numbers) is Some && line_event(
                #[trigger] front[j],
                kinds,
                numbers,
            ) is Some implies !related(
            line_event(front[i], kinds, numbers)->0,
            line_event(front[j], kinds, numbers)->0,
        ) by {
            assert(front[i] == all[i] && front[j] == all[j]);
        }
        lemma_pairs_of_lines(front, kinds, numbers, related);
        if let Some(last) = line_event(all.last(), kinds, numbers) {
            assert forall|i: int, j: int| 0 <= i < j < events.len() implies !related(
                #[trigger] events[i],
                #[trigger] events[j],
            ) by {
                if j < before.len() {
                    assert(!related(before[i], before[j]));
                } else {
                    assert(before.contains(before[i]));
                    lemma_events(front, kinds, numbers, before[i]);
                    let m = choose|m: int|
                        0 <= m < front.len() && line_event(#[trigger] front[m], kinds, numbers) == Some(before[i]);
                    assert(front[m] == all[m]);
                    assert(all[all.len() - 1] == all.last());
                }
            }
        }
    }
}

/// Lines that are tidy are read as events that are.
pub(crate) proof fn lemma_tidy_lines(
    all: Seq<Seq<char>>,
    kinds: Map<Seq<char>, MetricKind>,
    numbers: Map<Seq<char>, Reading>,
)
    requires
        lines_are_tidy(all, kinds, numbers),
    ensures
        is_tidy(events_of(all, kinds, numbers)),
{
    assert forall|i: int, j: int|
        0 <= i < j < all.len() && line_event(#[trigger] all[i], kinds, numbers) is Some && line_event(
            #[trigger] all[j],
            kinds,
            numbers,
        ) is Some implies !conflict(
        line_event(all[i], kinds, numbers)->0,
        line_event(all[j], kinds, numbers)->0,
    ) by {
        assert(!lines_conflict(all[i], all[j], kinds, numbers));
    }
    lemma_pairs_of_lines(all, kinds, numbers, |a: EventModel, b: EventModel| conflict(a, b));
}

/// Whether no metric's kind is declared by two lines.
pub open spec fn declared_once(all: Seq<Seq<char>>) -> bool {
    forall|i: int, j: int|
        0 <= i < j < all.len() ==> !declares_same(#[trigger] all[i], #[trigger] all[j])
}

/// Whether two lines declare the kind of one metric.
pub open spec fn declares_same(a: Seq<char>, b: Seq<char>) -> bool {
    match (declaration(a), declaration(b)) {
        (Some((m, _)), Some((n, _))) => m == n,
        _ => false,
    }
}

/// Where no kind is declared twice, a metric's kind is the one that some line
/// declares.
proof fn lemma_kinds(all: Seq<Seq<char>>, name: Seq<char>, kind: MetricKind)
    requires
        declared_once(all),
    ensures
        declared_kinds(all).contains_key(name) && declared_kinds(all)[name] == kind <==> exists|i: int|
            0 <= i < all.len() && declaration(#[trigger] all[i]) == Some((name, kind)),
    decreases all.len(),
{
    if all.len() > 0 {
        let front = all.drop_last();
        assert forall|i: int, j: int| 0 <= i < j < front.len() implies !declares_same(
            #[trigger] front[i],
            #[trigger] front[j],
        ) by {
            assert(!declares_same(all[i], all[j]));
        }
        lemma_kinds(front, name, kind);
        assert(all[all.len() - 1] == all.last());
        if exists|i: int| 0 <= i < front.len() && declaration(#[trigger] front[i]) == Some((name, kind)) {
            let i = choose|i: int| 0 <= i < front.len() && declaration(#[trigger] front[i]) == Some((name, kind));
            assert(declaration(all[i]) == Some((name, kind)));
            assert(!declares_same(all[i], all[all.len() - 1]));
        }
        if exists|i: int| 0 <= i < all.len() && declaration(#[trigger] all[i]) == Some((name, kind)) {
            let i = choose|i: int| 0 <= i < all.len() && declaration(#[trigger] all[i]) == Some((name, kind));
            if i < front.len() {
                assert(declaration(front[i]) == Some((name, kind)));
            }
        }
    }
}

/// Whether `order` has each position of `n` things once.
pub open spec fn is_order_of(order: Seq<int>, n: nat) -> bool {
    &&& order.len() == n
    &&& forall|i: int| 0 <= i < order.len() ==> 0 <= #[trigger] order[i] < n
    &&& forall|i: int, j: int| 0 <= i < j < order.len() ==> #[trigger] order[i] != #[trigger] order[j]
    &&& forall|k: int| 0 <= k < n ==> #[trigger] order.contains(k)
}

/// Things in another order.
pub open spec fn reordered<T>(all: Seq<T>, order: Seq<int>) -> Seq<T> {
    order.map_values(|i: int| all[i])
}

pub(crate) proof fn lemma_scalars(events: Seq<EventModel>, sample: SampleModel)
    ensures
        scalars(events).contains(sample) <==> exists|e: EventModel|
            #[trigger] events.contains(e) && scalar_sample(e) == Some(sample),
    decreases events.len(),
{
    if events.len() > 0 {
        let front = events.drop_last();
        let last = events.last();
        lemma_scalars(front, sample);
        let before = scalars(front);
        let after = scalars(events);
        assert(events.contains(last));
        if before.contains(sample) {
            let e = choose|e: EventModel| #[trigger] front.contains(e) && scalar_sample(e) == Some(sample);
            lemma_contains_step(events, e);
            let i = choose|i: int| 0 <= i < before.len() && before[i] == sample;
            assert(after[i] == sample);
        }
        if scalar_sample(last) == Some(sample) {
            assert(after[before.len() as int] == sample);
        }
        if after.contains(sample) {
            let i = choose|i: int| 0 <= i < after.len() && after[i] == sample;
            if i < before.len() {
                assert(before[i] == sample);
            }
        }
        if exists|e: EventModel| #[trigger] events.contains(e) && scalar_sample(e) == Some(sample) {
            let e = choose|e: EventModel| #[trigger] events.contains(e) && scalar_sample(e) == Some(sample);
            lemma_contains_step(events, e);
        }
    }
}

/// The sample of a single value.
pub open spec fn scalar_sample(e: EventModel) -> Option<SampleModel> {
    match e {
        EventModel::Scalar { name, kind, labels, value } => Some(
            SampleModel { name, kind, labels, value: Some(value), buckets: seq![], sum: None, count: None },
        ),
        _ => None,
    }
}

proof fn lemma_no_scalars(events: Seq<EventModel>)
    requires
        forall|e: EventModel| #[trigger] events.contains(e) ==> !(e is Scalar),
    ensures
        scalars(events) == Seq::<SampleModel>::empty(),
{
    if scalars(events).len() > 0 {
        let sample = scalars(events)[0];
        assert(scalars(events).contains(sample));
        lemma_scalars(events, sample);
    }
    assert(scalars(events) =~= Seq::<SampleModel>::empty());
}

/// The order of a text's lines makes no difference to the histograms that are
/// found, nor to which single values are found, where no kind is declared twice
/// and no bucket, sum or count of a histogram is given twice. With no single
/// values among them it makes no difference at all.
pub proof fn law_line_order_does_not_matter(
    text: Seq<char>,
    other: Seq<char>,
    numbers: Map<Seq<char>, Reading>,
    order: Seq<int>,
)
    requires
        is_order_of(order, lines_of(text).len()),
        lines_of(other) == reordered(lines_of(text), order),
        declared_once(lines_of(text)),
        lines_are_tidy(lines_of(text), declared_kinds(lines_of(text)), numbers),
    ensures
        forall|sample: SampleModel| #[trigger]
            exposed_samples(other, numbers).contains(sample) <==> exposed_samples(text, numbers).contains(sample),
        (forall|i: int|
            0 <= i < lines_of(text).len() ==> !(line_event(
                #[trigger] lines_of(text)[i],
                declared_kinds(lines_of(text)),
                numbers,
            ) matches Some(EventModel::Scalar { .. }))) ==> exposed_samples(other, numbers) == exposed_samples(
            text,
            numbers,
        ),
{
    let a = lines_of(text);
    let b = lines_of(other);
    let kinds = declared_kinds(a);
    assert forall|i: int, j: int| 0 <= i < j < b.len() implies !declares_same(#[trigger] b[i], #[trigger] b[j]) by {
        let (p, q) = (order[i], order[j]);
        if p < q {
            assert(!declares_same(a[p], a[q]));
        } else {
            assert(!declares_same(a[q], a[p]));
        }
    }
    lemma_same_kinds(a, b, order);
    assert forall|i: int, j: int| 0 <= i < j < b.len() implies !lines_conflict(
        #[trigger] b[i],
        #[trigger] b[j],
        kinds,
        numbers,
    ) by {
        let (p, q) = (order[i], order[j]);
        if p < q {
            assert(!lines_conflict(a[p], a[q], kinds, numbers));
        } else {
            assert(!lines_conflict(a[q], a[p], kinds, numbers));
        }
    }
    lemma_tidy_lines(a, kinds, numbers);
    lemma_tidy_lines(b, kinds, numbers);
    let ea = events_of(a, kinds, numbers);
    let eb = events_of(b, kinds, numbers);
    assert forall|e: EventModel| #[trigger] ea.contains(e) <==> eb.contains(e) by {
        lemma_events(a, kinds, numbers, e);
        lemma_events(b, kinds, numbers, e);
        if ea.contains(e) {
            let i = choose|i: int| 0 <= i < a.len() && line_event(#[trigger] a[i], kinds, numbers) == Some(e);
            assert(order.contains(i));
            let j = choose|j: int| 0 <= j < order.len() && order[j] == i;
            assert(line_event(b[j], kinds, numbers) == Some(e));
        }
        if eb.contains(e) {
            let j = choose|j: int| 0 <= j < b.len() && line_event(#[trigger] b[j], kinds, numbers) == Some(e);
            assert(line_event(a[order[j]], kinds, numbers) == Some(e));
        }
    }
    law_histograms_do_not_depend_on_order(ea, eb);
    assert forall|sample: SampleModel| #[trigger]
        exposed_samples(other, numbers).contains(sample) <==> exposed_samples(text, numbers).contains(sample) by {
        if samples_of(ea).contains(sample) {
            lemma_same_samples(ea, eb, sample);
        }
        if samples_of(eb).contains(sample) {
            assert forall|e: EventModel| #[trigger] eb.contains(e) <==> ea.contains(e) by {
                assert(ea.contains(e) <==> eb.contains(e));
            }
            lemma_same_samples(eb, ea, sample);
        }
    }
    if forall|i: int|
        0 <= i < a.len() ==> !(line_event(#[trigger] a[i], kinds, numbers) matches Some(EventModel::Scalar { .. })) {
        assert forall|e: EventModel| #[trigger] ea.contains(e) implies !(e is Scalar) by {
            lemma_events(a, kinds, numbers, e);
        }
        assert forall|e: EventModel| #[trigger] eb.contains(e) implies !(e is Scalar) by {
            assert(ea.contains(e));
        }
        lemma_no_scalars(ea);
        lemma_no_scalars(eb);
    }
}

proof fn lemma_same_kinds(a: Seq<Seq<char>>, b: Seq<Seq<char>>, order: Seq<int>)
    requires
        is_order_of(order, a.len()),
        b == reordered(a, order),
        declared_once(a),
        declared_once(b),
    ensures
        declared_kinds(b) == declared_kinds(a),
{
    let (ka, kb) = (declared_kinds(a), declared_kinds(b));
    assert forall|name: Seq<char>| #[trigger]
        ka.contains_key(name) implies kb.contains_key(name) && kb[name] == ka[name] by {
        lemma_kinds(a, name, ka[name]);
        lemma_kinds(b, name, ka[name]);
        let i = choose|i: int| 0 <= i < a.len() && declaration(#[trigger] a[i]) == Some((name, ka[name]));
        assert(order.contains(i));
        let j = choose|j: int| 0 <= j < order.len() && order[j] == i;
        assert(declaration(b[j]) == Some((name, ka[name])));
    }
    assert forall|name: Seq<char>| #[trigger] kb.contains_key(name) implies ka.contains_key(name) by {
        lemma_kinds(a, name, kb[name]);
        lemma_kinds(b, name, kb[name]);
        let j = choose|j: int| 0 <= j < b.len() && declaration(#[trigger] b[j]) == Some((name, kb[name]));
        assert(declaration(a[order[j]]) == Some((name, kb[name])));
    }
    assert(kb =~= ka);
}

/// The samples of events are those of their single values and of their
/// histograms.
proof fn lemma_same_samples(a: Seq<EventModel>, b: Seq<EventModel>, sample: SampleModel)
    requires
        forall|e: EventModel| #[trigger] a.contains(e) <==> b.contains(e),
        histograms_of(a) == histograms_of(b),
        samples_of(a).contains(sample),
    ensures
        samples_of(b).contains(sample),
{
    lemma_samples(a, sample);
    lemma_samples(b, sample);
    lemma_scalars(a, sample);
    lemma_scalars(b, sample);
    if scalars(a).contains(sample) {
        let e = choose|e: EventModel| #[trigger] a.contains(e) && scalar_sample(e) == Some(sample);
        assert(b.contains(e));
    }
}

/// A sample is that of a single value, or that of a histogram.
pub(crate) proof fn lemma_samples(events: Seq<EventModel>, sample: SampleModel)
    ensures
        samples_of(events).contains(sample) <==> scalars(events).contains(sample) || histograms_of(events).contains(
            sample,
        ),
{
    let singles = scalars(events);
    let grouped = histograms_of(events);
    let all = samples_of(events);
    assert(all == singles + grouped);
    if singles.contains(sample) {
        let i = choose|i: int| 0 <= i < singles.len() && singles[i] == sample;
        assert(all[i] == sample);
    }
    if grouped.contains(sample) {
        let i = choose|i: int| 0 <= i < grouped.len() && grouped[i] == sample;
        assert(all[singles.len() + i] == sample);
    }
    if all.contains(sample) {
        let i = choose|i: int| 0 <= i < all.len() && all[i] == sample;
        if i < singles.len() {
            assert(singles[i] == sample);
        } else {
            assert(grouped[i - singles.len()] == sample);
        }
    }
}

} // verus!
