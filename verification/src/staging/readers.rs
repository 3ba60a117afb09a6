//! What follows planning: which targets to look up readers for, and the
//! latencies to record.

use super::change::SourceTime;
use super::compute::{applied_view, AppliedChange, AppliedModel, ApplyPlan};
use crate::map::{among, has_key, TextMap};
use crate::metrics::registry::{
    changes_applied_series, counted, increment_changes_applied, nanos_of, observed, record_transform_latency,
    transform_latency_series, Metrics,
};
use crate::text::same;
use std::time::Duration;
use crate::lists::{lemma_filter_none, lemma_filter_push};
use vstd::prelude::*;

verus! {

/// Adds a text where it is not among the texts yet.
fn add_new(r: &mut Vec<String>, text: &String)
    requires
        forall|i: int, j: int| 0 <= i < j < old(r)@.len() ==> #[trigger] old(r)@[i]@ != #[trigger] old(r)@[j]@,
    ensures
        forall|t: Seq<char>| #[trigger] among(final(r)@, t) <==> among(old(r)@, t) || t == text@,
        forall|i: int, j: int| 0 <= i < j < final(r)@.len() ==> #[trigger] final(r)@[i]@ != #[trigger] final(r)@[j]@,
{
    let ghost before = r@;
    let known = has_key(r, text.as_str());
    if !known {
        r.push(text.clone());
    }
    proof {
        assert forall|t: Seq<char>| #[trigger] among(r@, t) <==> among(before, t) || t == text@ by {
            if among(before, t) {
                let i = choose|i: int| 0 <= i < before.len() && #[trigger] before[i]@ == t;
                assert(r@[i]@ == t);
            }
            if t == text@ && !known {
                assert(r@[before.len() as int]@ == t);
            }
            if among(r@, t) && t != text@ {
                let i = choose|i: int| 0 <= i < r@.len() && #[trigger] r@[i]@ == t;
                assert(before[i]@ == t);
            }
        }
        assert forall|i: int, j: int| 0 <= i < j < r@.len() implies #[trigger] r@[i]@ != #[trigger] r@[j]@ by {
            if j == before.len() {
                assert(!among(before, text@));
                assert(before[i]@ != text@);
            } else {
                assert(before[i]@ != before[j]@);
            }
        }
    }
}

impl ApplyPlan {
    /// Whether the plan does something to a target.
    pub open spec fn is_target(self, t: Seq<char>) -> bool {
        ||| exists|i: int| 0 <= i < self.targets@.len() && (#[trigger] self.targets@[i]).target@ == t
        ||| exists|i: int| 0 <= i < self.clears@.len() && (#[trigger] self.clears@[i]).target@ == t
        ||| exists|i: int| 0 <= i < self.aggregate_targets@.len() && (#[trigger] self.aggregate_targets@[i]).target@ == t
        ||| exists|i: int| 0 <= i < self.aggregate_clears@.len() && (#[trigger] self.aggregate_clears@[i]).target@ == t
    }

    /// The targets that the plan does something to, each once.
    pub fn all_targets(&self) -> (r: Vec<String>)
        ensures
            forall|t: Seq<char>| #[trigger] among(r@, t) <==> self.is_target(t),
            forall|i: int, j: int| 0 <= i < j < r@.len() ==> #[trigger] r@[i]@ != #[trigger] r@[j]@,
    {
        let mut r: Vec<String> = Vec::new();
        for n in 0..self.targets.len()
            invariant
                forall|i: int, j: int| 0 <= i < j < r@.len() ==> #[trigger] r@[i]@ != #[trigger] r@[j]@,
                forall|t: Seq<char>| #[trigger]
                    among(r@, t) <==> exists|i: int| 0 <= i < n && (#[trigger] self.targets@[i]).target@ == t,
        {
            add_new(&mut r, &self.targets[n].target);
        }
        let ghost first = r@;
        for n in 0..self.clears.len()
            invariant
                forall|i: int, j: int| 0 <= i < j < r@.len() ==> #[trigger] r@[i]@ != #[trigger] r@[j]@,
                forall|t: Seq<char>| #[trigger]
                    among(r@, t) <==> among(first, t) || exists|i: int|
                        0 <= i < n && (#[trigger] self.clears@[i]).target@ == t,
        {
            add_new(&mut r, &self.clears[n].target);
        }
        let ghost second = r@;
        for n in 0..self.aggregate_targets.len()
            invariant
                forall|i: int, j: int| 0 <= i < j < r@.len() ==> #[trigger] r@[i]@ != #[trigger] r@[j]@,
                forall|t: Seq<char>| #[trigger]
                    among(r@, t) <==> among(second, t) || exists|i: int|
                        0 <= i < n && (#[trigger] self.aggregate_targets@[i]).target@ == t,
        {
            add_new(&mut r, &self.aggregate_targets[n].target);
        }
        let ghost third = r@;
        for n in 0..self.aggregate_clears.len()
            invariant
                forall|i: int, j: int| 0 <= i < j < r@.len() ==> #[trigger] r@[i]@ != #[trigger] r@[j]@,
                forall|t: Seq<char>| #[trigger]
                    among(r@, t) <==> among(third, t) || exists|i: int|
                        0 <= i < n && (#[trigger] self.aggregate_clears@[i]).target@ == t,
        {
            add_new(&mut r, &self.aggregate_clears[n].target);
        }
        assert forall|t: Seq<char>| #[trigger] among(r@, t) <==> self.is_target(t) by {
            assert(among(third, t) <==> among(second, t) || exists|i: int|
                0 <= i < self.aggregate_targets@.len() && (#[trigger] self.aggregate_targets@[i]).target@ == t);
            assert(among(second, t) <==> among(first, t) || exists|i: int|
                0 <= i < self.clears@.len() && (#[trigger] self.clears@[i]).target@ == t);
        }
        r
    }

    /// The plan, once it is known whether something reads each of its targets.
    pub fn with_readers(self, readers: TextMap<bool>) -> (r: ApplyPlan)
        ensures
            r == (ApplyPlan { downstream_readers: readers, ..self }),
    {
        ApplyPlan { downstream_readers: readers, ..self }
    }
}

/// The nanoseconds from `origin` to `now`; none where `origin` is later.
pub open spec fn elapsed(origin: SourceTime, now: SourceTime) -> int {
    if now.nanos > origin.nanos {
        now.nanos - origin.nanos
    } else {
        0
    }
}

/// The nanoseconds from `origin` to `now`; none where `origin` is later.
pub fn latency_nanos(origin: SourceTime, now: SourceTime) -> (r: u128)
    ensures
        r == elapsed(origin, now),
{
    if now.nanos > origin.nanos {
        if now.nanos >= 0 && origin.nanos < 0 {
            let before: u128 = (-(origin.nanos + 1)) as u128 + 1;
            now.nanos as u128 + before
        } else {
            (now.nanos - origin.nanos) as u128
        }
    } else {
        0
    }
}

/// A latency to record for a target.
#[derive(Debug, Clone, PartialEq, Eq)]
pub struct Latency {
    /// The target.
    pub target: String,
    /// The latency in nanoseconds.
    pub nanos: u128,
}

/// The end-to-end latencies of one target's applied changes with a known origin.
pub open spec fn latencies_of(applied: Seq<AppliedModel>, target: Seq<char>, now: SourceTime) -> Seq<int>
    decreases applied.len(),
{
    if applied.len() == 0 {
        seq![]
    } else {
        let before = latencies_of(applied.drop_last(), target, now);
        let a = applied.last();
        if a.target == target && a.src_changed is Some {
            before.push(elapsed(a.src_changed->0, now))
        } else {
            before
        }
    }
}

/// The end-to-end latencies of the first `n` targets: only of those that nothing reads.
pub open spec fn terminal_latencies(
    targets: Seq<String>,
    readers: Map<Seq<char>, bool>,
    applied: Seq<AppliedModel>,
    now: SourceTime,
) -> Seq<(Seq<char>, int)>
    decreases targets.len(),
{
    if targets.len() == 0 {
        seq![]
    } else {
        let before = terminal_latencies(targets.drop_last(), readers, applied, now);
        let t = targets.last()@;
        if readers.contains_key(t) && readers[t] {
            before
        } else {
            before + latencies_of(applied, t, now).map_values(|n: int| (t, n))
        }
    }
}

/// The targets and nanoseconds of latencies.
pub open spec fn latencies_view(latencies: Seq<Latency>) -> Seq<(Seq<char>, int)> {
    latencies.map_values(|l: Latency| (l.target@, l.nanos as int))
}

/// The end-to-end latencies to record: of every applied change with a known
/// origin, for each target that nothing reads.
pub fn end_to_end_latencies(
    targets: &Vec<String>,
    readers: &TextMap<bool>,
    applied: &Vec<AppliedChange>,
    now: SourceTime,
) -> (r: Vec<Latency>)
    ensures
        latencies_view(r@) == terminal_latencies(targets@, readers@, applied_view(applied@), now),
{
    let mut r: Vec<Latency> = Vec::new();
    let ghost all = applied_view(applied@);
    assert(latencies_view(r@) =~= seq![]);
    for i in 0..targets.len()
        invariant
            all == applied_view(applied@),
            latencies_view(r@) == terminal_latencies(targets@.take(i as int), readers@, all, now),
    {
        assert(targets@.take(i + 1).drop_last() =~= targets@.take(i as int));
        let target = &targets[i];
        let read = match readers.get(target.as_str()) {
            Some(read) => *read,
            None => false,
        };
        if !read {
            let ghost before = latencies_view(r@);
            let ghost t = target@;
            assert(before + latencies_of(all.take(0), t, now).map_values(|n: int| (t, n)) =~= before);
            for n in 0..applied.len()
                invariant
                    all == applied_view(applied@),
                    t == target@,
                    latencies_view(r@) == before + latencies_of(all.take(n as int), t, now).map_values(
                        |n: int| (t, n),
                    ),
            {
                assert(all.take(n + 1).drop_last() =~= all.take(n as int));
                let ghost so_far = latencies_view(r@);
                let ghost known = latencies_of(all.take(n as int), t, now);
                if same(applied[n].target.as_str(), target.as_str()) {
                    if let Some(origin) = applied[n].src_changed {
                        let nanos = latency_nanos(origin, now);
                        r.push(Latency { target: target.clone(), nanos });
                        proof {
                            assert(latencies_view(r@) =~= so_far.push((t, nanos as int)));
                            assert(known.push(nanos as int).map_values(|n: int| (t, n)) =~= known.map_values(
                                |n: int| (t, n),
                            ).push((t, nanos as int)));
                            assert(latencies_view(r@) =~= before + latencies_of(all.take(n + 1), t, now).map_values(
                                |n: int| (t, n),
                            ));
                        }
                    }
                }
            }
            assert(all.take(applied@.len() as int) =~= all);
        }
    }
    assert(targets@.take(targets@.len() as int) =~= targets@);
    r
}

/// `Duration::new`, for nanoseconds below a second, for which it does not
/// panic: the span is that many seconds and nanoseconds long.
#[verifier::external_body]
fn duration_from_parts(secs: u64, nanos: u32) -> (r: Duration)
    requires
        nanos < 1_000_000_000,
    ensures
        nanos_of(r) == secs * 1_000_000_000 + nanos,
{
    Duration::new(secs, nanos)
}

/// The span of a number of nanoseconds.
pub fn duration_from_nanos(nanos: u128) -> (r: Duration)
    requires
        nanos / 1_000_000_000 <= u64::MAX,
    ensures
        nanos_of(r) == nanos,
{
    duration_from_parts((nanos / 1_000_000_000) as u64, (nanos % 1_000_000_000) as u32)
}

/// Records that a transform applied a change: how long ago its source commit
/// was, where that is known, and one change more in any case.
pub fn record_transform_apply_metrics(
    metrics: &mut Metrics,
    transform: &str,
    src_changed: Option<SourceTime>,
    now: SourceTime,
)
    requires
        old(metrics).well_formed(),
        src_changed matches Some(origin) ==> elapsed(origin, now) / 1_000_000_000 <= u64::MAX,
    ensures
        final(metrics).well_formed(),
        final(metrics).contents() == counted(
            match src_changed {
                Some(origin) => observed(
                    old(metrics).contents(),
                    transform_latency_series(transform@),
                    elapsed(origin, now) as nat,
                    final(metrics).contents().sums[transform_latency_series(transform@)],
                ),
                None => old(metrics).contents(),
            },
            changes_applied_series(transform@),
            1,
        ),
{
    if let Some(origin) = src_changed {
        let nanos = latency_nanos(origin, now);
        record_transform_latency(metrics, transform, duration_from_nanos(nanos));
    }
    increment_changes_applied(metrics, transform);
}

/// The time since an origin, and the origin, make up the time; an origin that is
/// not past is no time ago.
pub proof fn law_elapsed_time(origin: SourceTime, now: SourceTime)
    ensures
        elapsed(origin, now) >= 0,
        origin.nanos <= now.nanos ==> origin.nanos + elapsed(origin, now) == now.nanos,
        origin.nanos >= now.nanos ==> elapsed(origin, now) == 0,
{
}

/// The latencies of a target are those of its applied changes whose origin is
/// known, in order.
pub proof fn law_latencies_follow_the_changes(applied: Seq<AppliedModel>, target: Seq<char>, now: SourceTime)
    ensures
        latencies_of(applied, target, now) == applied.filter(|a: AppliedModel| a.target == target && a.src_changed is Some).map_values(|a: AppliedModel| elapsed(a.src_changed->0, now)),
    decreases applied.len(),
{
    let pass = |a: AppliedModel| a.target == target && a.src_changed is Some;
    let f = |a: AppliedModel| elapsed(a.src_changed->0, now);
    if applied.len() == 0 {
        lemma_filter_none(applied, pass);
        assert(applied.take(0) =~= applied);
        assert(latencies_of(applied, target, now) =~= applied.filter(pass).map_values(f));
    } else {
        let front = applied.drop_last();
        law_latencies_follow_the_changes(front, target, now);
        lemma_filter_push(front, applied.last(), pass);
        assert(applied =~= front.push(applied.last()));
        assert(front.filter(pass).push(applied.last()).map_values(f) =~= front.filter(pass).map_values(f).push(
            f(applied.last()),
        ));
        assert(latencies_of(applied, target, now) =~= applied.filter(pass).map_values(f));
    }
}

/// A target that other definitions read has no end-to-end latency; one that nothing
/// reads has those of its changes.
pub proof fn law_only_terminal_targets_have_latencies(
    target: String,
    readers: Map<Seq<char>, bool>,
    applied: Seq<AppliedModel>,
    now: SourceTime,
    targets: Seq<String>,
)
    ensures
        readers.contains_key(target@) && readers[target@] ==> terminal_latencies(
            targets.push(target),
            readers,
            applied,
            now,
        ) == terminal_latencies(targets, readers, applied, now),
        !(readers.contains_key(target@) && readers[target@]) ==> terminal_latencies(
            targets.push(target),
            readers,
            applied,
            now,
        ) == terminal_latencies(targets, readers, applied, now) + latencies_of(applied, target@, now).map_values(
            |n: int| (target@, n),
        ),
        terminal_latencies(Seq::empty(), readers, applied, now).len() == 0,
{
    assert(targets.push(target).drop_last() =~= targets);
}

/// The targets of a plan are those that it writes, clears, or does either to the
/// groups of.
pub proof fn law_all_targets_are_told(plan: ApplyPlan, i: int)
    ensures
        0 <= i < plan.targets@.len() ==> plan.is_target(plan.targets@[i].target@),
        0 <= i < plan.clears@.len() ==> plan.is_target(plan.clears@[i].target@),
        0 <= i < plan.aggregate_targets@.len() ==> plan.is_target(plan.aggregate_targets@[i].target@),
        0 <= i < plan.aggregate_clears@.len() ==> plan.is_target(plan.aggregate_clears@[i].target@),
        plan.targets@.len() == 0 && plan.clears@.len() == 0 && plan.aggregate_targets@.len() == 0
            && plan.aggregate_clears@.len() == 0 ==> forall|t: Seq<char>| !#[trigger] plan.is_target(t),
{
}

} // verus!
