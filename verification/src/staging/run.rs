//! Applying a plan in one transaction: which steps it takes, in which order,
//! and what they add up to.

use super::apply::{
    applied_touches, check_fence, cleared_touches, group_touches, is_hop_bound_error, is_recompute, note_applied,
    note_cleared, note_groups, passed_on, propagate, within_bound, ApplyError,
};
use super::change::StagedChange;
use super::completion::{batch_drained, claimed_mask, full_mask, has_bit, is_bucket, ManyApplyOutcome};
use super::compute::ApplyPlan;
use super::reverse::hops_fit;
use super::touch::{touched, Touch, Touched};
use crate::text::texts;
use super::clears::ClearModel;
use super::plan::PlanModel;
use vstd::prelude::*;

verus! {

/// One step of applying a plan; the number says which of the plan's entries, or
/// which segment, it is for.
#[derive(Debug, Clone, Copy, PartialEq, Eq, Structural)]
pub enum ApplyStep {
    /// Compare a source table's version with the plan's.
    CheckVersion(usize),
    /// Park the changes of poisoned keys.
    Park,
    /// Clear a one-to-one target.
    Clear(usize),
    /// Clear an aggregate target.
    ClearAggregate(usize),
    /// Write a one-to-one target.
    Write(usize),
    /// Write an aggregate target.
    WriteAggregate(usize),
    /// Stage the requests that follow.
    Stage,
    /// Forget the deaths of the keys that were applied.
    ForgetDeaths,
    /// Release a segment's claim and mark its buckets drained.
    Complete(usize),
    /// Wake whoever waits.
    Notify,
}

/// How far a step is into the transaction.
pub open spec fn stage_of(step: ApplyStep) -> int {
    match step {
        ApplyStep::CheckVersion(_) => 0,
        ApplyStep::Park => 1,
        ApplyStep::Clear(_) => 2,
        ApplyStep::ClearAggregate(_) => 3,
        ApplyStep::Write(_) => 4,
        ApplyStep::WriteAggregate(_) => 5,
        ApplyStep::Stage => 6,
        ApplyStep::ForgetDeaths => 7,
        ApplyStep::Complete(_) => 8,
        ApplyStep::Notify => 9,
    }
}

/// How many entries of each sort a plan has.
pub struct Extent {
    /// Source tables.
    pub versions: nat,
    /// One-to-one targets to clear.
    pub clears: nat,
    /// Aggregate targets to clear.
    pub aggregate_clears: nat,
    /// One-to-one targets to write.
    pub targets: nat,
    /// Aggregate targets to write.
    pub aggregate_targets: nat,
    /// Segments to complete.
    pub segments: nat,
}

/// How many entries of each sort a plan has, and how many segments there are.
pub open spec fn extent_of(plan: ApplyPlan, segments: nat) -> Extent {
    Extent {
        versions: plan.versions.order().len(),
        clears: plan.clears@.len(),
        aggregate_clears: plan.aggregate_clears@.len(),
        targets: plan.targets@.len(),
        aggregate_targets: plan.aggregate_targets@.len(),
        segments,
    }
}

/// All steps, in order: the version fence, parking, the clears, the writes,
/// what follows from them, and the completion of each segment.
pub open spec fn steps_of(e: Extent) -> Seq<ApplyStep> {
    Seq::new(e.versions, |i: int| ApplyStep::CheckVersion(i as usize)) + seq![ApplyStep::Park] + Seq::new(
        e.clears,
        |i: int| ApplyStep::Clear(i as usize),
    ) + Seq::new(e.aggregate_clears, |i: int| ApplyStep::ClearAggregate(i as usize)) + Seq::new(
        e.targets,
        |i: int| ApplyStep::Write(i as usize),
    ) + Seq::new(e.aggregate_targets, |i: int| ApplyStep::WriteAggregate(i as usize)) + seq![
        ApplyStep::Stage,
        ApplyStep::ForgetDeaths,
    ] + Seq::new(e.segments, |i: int| ApplyStep::Complete(i as usize)) + seq![ApplyStep::Notify]
}

/// All steps of applying a plan and completing the given number of segments, in order.
pub fn apply_steps(plan: &ApplyPlan, segments: usize) -> (r: Vec<ApplyStep>)
    ensures
        r@ == steps_of(extent_of(*plan, segments as nat)),
{
    let ghost e = extent_of(*plan, segments as nat);
    let mut r: Vec<ApplyStep> = Vec::new();
    let n = plan.versions.len();
    let ghost part = Seq::new(e.versions, |i: int| ApplyStep::CheckVersion(i as usize));
    assert(r@ =~= part.take(0));
    for i in 0..n
        invariant
            n == e.versions,
            part == Seq::new(e.versions, |i: int| ApplyStep::CheckVersion(i as usize)),
            r@ == part.take(i as int),
    {
        r.push(ApplyStep::CheckVersion(i));
        assert(r@ =~= part.take(i + 1));
    }
    assert(part.take(n as int) =~= part);
    r.push(ApplyStep::Park);
    let ghost head = r@;
    assert(head =~= part + seq![ApplyStep::Park]);
    let n: usize = plan.clears.len();
    let ghost part = Seq::new(e.clears, |i: int| ApplyStep::Clear(i as usize));
    assert(r@ =~= head + part.take(0));
    for i in 0..n
        invariant
            n == e.clears,
            part == Seq::new(e.clears, |i: int| ApplyStep::Clear(i as usize)),
            r@ == head + part.take(i as int),
    {
        r.push(ApplyStep::Clear(i));
        assert(r@ =~= head + part.take(i + 1));
    }
    assert(part.take(n as int) =~= part);
    let ghost head = r@;
    let n: usize = plan.aggregate_clears.len();
    let ghost part = Seq::new(e.aggregate_clears, |i: int| ApplyStep::ClearAggregate(i as usize));
    assert(r@ =~= head + part.take(0));
    for i in 0..n
        invariant
            n == e.aggregate_clears,
            part == Seq::new(e.aggregate_clears, |i: int| ApplyStep::ClearAggregate(i as usize)),
            r@ == head + part.take(i as int),
    {
        r.push(ApplyStep::ClearAggregate(i));
        assert(r@ =~= head + part.take(i + 1));
    }
    assert(part.take(n as int) =~= part);
    let ghost head = r@;
    let n: usize = plan.targets.len();
    let ghost part = Seq::new(e.targets, |i: int| ApplyStep::Write(i as usize));
    assert(r@ =~= head + part.take(0));
    for i in 0..n
        invariant
            n == e.targets,
            part == Seq::new(e.targets, |i: int| ApplyStep::Write(i as usize)),
            r@ == head + part.take(i as int),
    {
        r.push(ApplyStep::Write(i));
        assert(r@ =~= head + part.take(i + 1));
    }
    assert(part.take(n as int) =~= part);
    let ghost head = r@;
    let n: usize = plan.aggregate_targets.len();
    let ghost part = Seq::new(e.aggregate_targets, |i: int| ApplyStep::WriteAggregate(i as usize));
    assert(r@ =~= head + part.take(0));
    for i in 0..n
        invariant
            n == e.aggregate_targets,
            part == Seq::new(e.aggregate_targets, |i: int| ApplyStep::WriteAggregate(i as usize)),
            r@ == head + part.take(i as int),
    {
        r.push(ApplyStep::WriteAggregate(i));
        assert(r@ =~= head + part.take(i + 1));
    }
    assert(part.take(n as int) =~= part);
    let ghost before = r@;
    r.push(ApplyStep::Stage);
    r.push(ApplyStep::ForgetDeaths);
    let ghost head = r@;
    assert(head =~= before + seq![ApplyStep::Stage, ApplyStep::ForgetDeaths]);
    let ghost part = Seq::new(e.segments, |i: int| ApplyStep::Complete(i as usize));
    assert(r@ =~= head + part.take(0));
    for i in 0..segments
        invariant
            segments == e.segments,
            part == Seq::new(e.segments, |i: int| ApplyStep::Complete(i as usize)),
            r@ == head + part.take(i as int),
    {
        r.push(ApplyStep::Complete(i));
        assert(r@ =~= head + part.take(i + 1));
    }
    assert(part.take(segments as int) =~= part);
    let ghost before = r@;
    r.push(ApplyStep::Notify);
    assert(r@ =~= before + seq![ApplyStep::Notify]);
    assert(r@ =~= steps_of(e));
    r
}

/// No step comes before one of an earlier stage: all versions are checked
/// before anything changes, all clears come before all writes, requests are
/// staged only after all writes, and segments are completed last.
pub proof fn law_steps_keep_their_order(e: Extent, i: int, j: int)
    requires
        0 <= i < j < steps_of(e).len(),
    ensures
        stage_of(steps_of(e)[i]) <= stage_of(steps_of(e)[j]),
{
}

/// What the steps of a run have done so far.
#[derive(Debug)]
pub struct ApplyRun {
    changed: Vec<Touch>,
    keys_written: usize,
    keys_deleted: usize,
    segments_drained: Vec<(i64, bool)>,
}

/// The model of an [`ApplyRun`].
pub struct RunModel {
    /// The keys that were physically changed.
    pub changed: Seq<Touched>,
    /// How many target rows were written.
    pub keys_written: int,
    /// How many target rows were deleted.
    pub keys_deleted: int,
    /// For each completed segment, whether it is drained now.
    pub segments_drained: Seq<(i64, bool)>,
}

impl View for ApplyRun {
    type V = RunModel;

    closed spec fn view(&self) -> RunModel {
        RunModel {
            changed: touched(self.changed@),
            keys_written: self.keys_written as int,
            keys_deleted: self.keys_deleted as int,
            segments_drained: self.segments_drained@,
        }
    }
}

impl ApplyRun {
    /// A run that has done nothing yet.
    pub fn start() -> (r: ApplyRun)
        ensures
            r@ == (RunModel { changed: seq![], keys_written: 0, keys_deleted: 0, segments_drained: seq![] }),
    {
        let r = ApplyRun { changed: Vec::new(), keys_written: 0, keys_deleted: 0, segments_drained: Vec::new() };
        assert(r@.changed =~= seq![]);
        assert(r@.segments_drained =~= seq![]);
        r
    }

    /// Takes in that a clear removed these keys.
    pub fn cleared(&mut self, plan: &ApplyPlan, index: usize, keys: &Vec<String>)
        requires
            index < plan.clears@.len(),
            old(self)@.keys_deleted + keys@.len() <= usize::MAX,
        ensures
            final(self)@ == (RunModel {
                changed: old(self)@.changed + cleared_touches(plan.clears@[index as int]@, texts(keys@)),
                keys_deleted: old(self)@.keys_deleted + keys@.len(),
                ..old(self)@
            }),
            final(self)@ == after_clear(old(self)@, plan.clears@[index as int]@, texts(keys@)),
    {
        self.keys_deleted = self.keys_deleted + keys.len();
        note_cleared(&mut self.changed, &plan.clears[index], keys);
    }

    /// Takes in that an aggregate clear removed this many groups. They are
    /// counted, but nothing follows from them.
    pub fn aggregate_cleared(&mut self, groups: usize)
        requires
            old(self)@.keys_deleted + groups <= usize::MAX,
        ensures
            final(self)@ == (RunModel { keys_deleted: old(self)@.keys_deleted + groups, ..old(self)@ }),
    {
        self.keys_deleted = self.keys_deleted + groups;
    }

    /// Takes in that a target's rows of these keys were written and deleted.
    pub fn wrote(&mut self, plan: &ApplyPlan, index: usize, written: &Vec<String>, deleted: &Vec<String>)
        requires
            index < plan.targets@.len(),
            old(self)@.keys_written + written@.len() <= usize::MAX,
            old(self)@.keys_deleted + deleted@.len() <= usize::MAX,
        ensures
            ({
                let target = plan.targets@[index as int]@;
                final(self)@ == (RunModel {
                    changed: old(self)@.changed + applied_touches(
                        target.target,
                        target.writes,
                        target.deletes,
                        texts(written@),
                    ) + applied_touches(target.target, target.writes, target.deletes, texts(deleted@)),
                    keys_written: old(self)@.keys_written + written@.len(),
                    keys_deleted: old(self)@.keys_deleted + deleted@.len(),
                    ..old(self)@
                })
            }),
            final(self)@ == after_write(
                old(self)@,
                plan.targets@[index as int]@,
                texts(written@),
                texts(deleted@),
            ),
    {
        self.keys_written = self.keys_written + written.len();
        self.keys_deleted = self.keys_deleted + deleted.len();
        note_applied(&mut self.changed, &plan.targets[index], written);
        note_applied(&mut self.changed, &plan.targets[index], deleted);
    }

    /// Takes in that an aggregate target's groups, given as key and hop count,
    /// were written and deleted.
    pub fn wrote_groups(
        &mut self,
        plan: &ApplyPlan,
        index: usize,
        written: &Vec<(String, i32)>,
        deleted: &Vec<(String, i32)>,
    )
        requires
            index < plan.aggregate_targets@.len(),
            old(self)@.keys_written + written@.len() <= usize::MAX,
            old(self)@.keys_deleted + deleted@.len() <= usize::MAX,
        ensures
            ({
                let target = plan.aggregate_targets@[index as int].target@;
                final(self)@ == (RunModel {
                    changed: old(self)@.changed + group_touches(target, written@) + group_touches(target, deleted@),
                    keys_written: old(self)@.keys_written + written@.len(),
                    keys_deleted: old(self)@.keys_deleted + deleted@.len(),
                    ..old(self)@
                })
            }),
            final(self)@ == after_groups(
                old(self)@,
                plan.aggregate_targets@[index as int].target@,
                written@,
                deleted@,
            ),
    {
        self.keys_written = self.keys_written + written.len();
        self.keys_deleted = self.keys_deleted + deleted.len();
        let target = plan.aggregate_targets[index].target.as_str();
        note_groups(&mut self.changed, target, written);
        note_groups(&mut self.changed, target, deleted);
    }

    /// The requests to stage: they follow from the changed keys of targets that
    /// are read, and from the plan's related rows.
    pub fn staged(&self, plan: &ApplyPlan) -> (r: Result<Vec<StagedChange>, ApplyError>)
        requires
            hops_fit(self@.changed),
        ensures
            ({
                let next = passed_on(self@.changed, plan.downstream_readers@) + touched(plan.reverse_recomputes@);
                match r {
                    Ok(staged) => {
                        &&& within_bound(next)
                        &&& staged@.len() == next.len()
                        &&& forall|i: int| 0 <= i < next.len() ==> is_recompute(#[trigger] staged@[i], next[i])
                    },
                    Err(e) => !within_bound(next) && is_hop_bound_error(e, next),
                }
            }),
    {
        proof {
            assert forall|i: int| 0 <= i < self.changed@.len() implies (#[trigger] self.changed@[i]).hop_gen
                < i32::MAX by {
                assert(touched(self.changed@)[i].hop_gen < i32::MAX);
            }
        }
        propagate(&self.changed, &plan.downstream_readers, &plan.reverse_recomputes)
    }

    /// Takes in that completing a segment left it in this state.
    pub fn completed(&mut self, seg_seq: i64, state: &Option<String>)
        ensures
            final(self)@ == (RunModel {
                segments_drained: old(self)@.segments_drained.push(
                    (seg_seq, state is Some && state->0@ == "drained"@),
                ),
                ..old(self)@
            }),
    {
        let drained = batch_drained(state);
        self.segments_drained.push((seg_seq, drained));
    }

    /// What the run did.
    pub fn finish(self) -> (r: ManyApplyOutcome)
        ensures
            r.keys_written == self@.keys_written,
            r.keys_deleted == self@.keys_deleted,
            r.segments_drained@ == self@.segments_drained,
    {
        ManyApplyOutcome {
            keys_written: self.keys_written,
            keys_deleted: self.keys_deleted,
            segments_drained: self.segments_drained,
        }
    }
}

/// The masks with which a segment is completed: that of the buckets whose claim
/// was released, and that of all its buckets. No released bucket means that the
/// claim was gone.
pub fn completion_masks(bucket_count: i16, released: &Vec<i16>) -> (r: Result<(u64, u64), ApplyError>)
    requires
        0 <= bucket_count < 64,
        forall|i: int| 0 <= i < released@.len() ==> 0 <= #[trigger] released@[i] < 64,
    ensures
        r is Err <==> released@.len() == 0,
        r matches Err(e) ==> e is ClaimLost,
        r matches Ok((mask, full)) ==> forall|b: u64|
            b < 64 ==> (#[trigger] has_bit(mask, b) <==> is_bucket(released@, b)),
        r matches Ok((mask, full)) ==> forall|b: u64| b < 64 ==> (#[trigger] has_bit(full, b) <==> b < bucket_count),
{
    match claimed_mask(released) {
        Ok(mask) => Ok((mask, full_mask(bucket_count))),
        Err(e) => Err(e),
    }
}

/// Lets a plan through only where the version of its source table at `index` is
/// what it was when the plan was made.
pub fn check_version(plan: &ApplyPlan, index: usize, current: Option<i64>) -> (r: Result<(), ApplyError>)
    requires
        index < plan.versions.order().len(),
    ensures
        ({
            let source_key = plan.versions.order()[index as int];
            &&& r is Ok <==> plan.versions@[source_key] == current
            &&& r matches Err(e) ==> e matches ApplyError::VersionFenceMiss { src_table } && src_table@ == source_key
        }),
{
    check_fence(plan.versions.key(index).as_str(), *plan.versions.value(index), current)
}

/// The steps check every version, park once, clear and write every target, stage
/// once, forget deaths once, complete every segment and notify once: nothing is
/// left out.
pub proof fn law_every_step_is_taken(e: Extent)
    requires
        e.versions <= usize::MAX,
        e.clears <= usize::MAX,
        e.aggregate_clears <= usize::MAX,
        e.targets <= usize::MAX,
        e.aggregate_targets <= usize::MAX,
        e.segments <= usize::MAX,
    ensures
        steps_of(e).len() == e.versions + e.clears + e.aggregate_clears + e.targets + e.aggregate_targets + e.segments
            + 4,
        forall|i: int| 0 <= i < e.versions ==> #[trigger] steps_of(e).contains(ApplyStep::CheckVersion(i as usize)),
        forall|i: int| 0 <= i < e.clears ==> #[trigger] steps_of(e).contains(ApplyStep::Clear(i as usize)),
        forall|i: int|
            0 <= i < e.aggregate_clears ==> #[trigger] steps_of(e).contains(ApplyStep::ClearAggregate(i as usize)),
        forall|i: int| 0 <= i < e.targets ==> #[trigger] steps_of(e).contains(ApplyStep::Write(i as usize)),
        forall|i: int|
            0 <= i < e.aggregate_targets ==> #[trigger] steps_of(e).contains(ApplyStep::WriteAggregate(i as usize)),
        forall|i: int| 0 <= i < e.segments ==> #[trigger] steps_of(e).contains(ApplyStep::Complete(i as usize)),
        steps_of(e).contains(ApplyStep::Park),
        steps_of(e).contains(ApplyStep::Stage),
        steps_of(e).contains(ApplyStep::ForgetDeaths),
        steps_of(e).last() is Notify,
{
    let s = steps_of(e);
    let a = e.versions as int;
    let b = a + 1;
    let c = b + e.clears;
    let d = c + e.aggregate_clears;
    let f = d + e.targets;
    let g = f + e.aggregate_targets;
    assert(s[a] is Park);
    assert(s[g] is Stage);
    assert(s[g + 1] is ForgetDeaths);
    assert forall|i: int| 0 <= i < e.versions implies #[trigger] s.contains(ApplyStep::CheckVersion(i as usize)) by {
        assert(s[i] == ApplyStep::CheckVersion(i as usize));
    }
    assert forall|i: int| 0 <= i < e.clears implies #[trigger] s.contains(ApplyStep::Clear(i as usize)) by {
        assert(s[b + i] == ApplyStep::Clear(i as usize));
    }
    assert forall|i: int| 0 <= i < e.aggregate_clears implies #[trigger] s.contains(ApplyStep::ClearAggregate(i as usize)) by {
        assert(s[c + i] == ApplyStep::ClearAggregate(i as usize));
    }
    assert forall|i: int| 0 <= i < e.targets implies #[trigger] s.contains(ApplyStep::Write(i as usize)) by {
        assert(s[d + i] == ApplyStep::Write(i as usize));
    }
    assert forall|i: int| 0 <= i < e.aggregate_targets implies #[trigger] s.contains(ApplyStep::WriteAggregate(i as usize)) by {
        assert(s[f + i] == ApplyStep::WriteAggregate(i as usize));
    }
    assert forall|i: int| 0 <= i < e.segments implies #[trigger] s.contains(ApplyStep::Complete(i as usize)) by {
        assert(s[g + 2 + i] == ApplyStep::Complete(i as usize));
    }
}

/// Versions are checked before anything is changed; targets are cleared before they
/// are written, and written before what follows is staged; segments are complete
/// only after everything is applied and staged, and others are told only then.
pub proof fn law_what_comes_first(e: Extent, i: int, j: int)
    requires
        0 <= i < steps_of(e).len(),
        0 <= j < steps_of(e).len(),
    ensures
        steps_of(e)[i] is CheckVersion && !(steps_of(e)[j] is CheckVersion) ==> i < j,
        steps_of(e)[i] is Park && !(steps_of(e)[j] is CheckVersion) && i != j ==> i < j,
        steps_of(e)[i] is Clear && (steps_of(e)[j] is Write || steps_of(e)[j] is WriteAggregate || steps_of(
            e,
        )[j] is Stage) ==> i < j,
        steps_of(e)[i] is ClearAggregate && (steps_of(e)[j] is Write || steps_of(e)[j] is WriteAggregate || steps_of(
            e,
        )[j] is Stage) ==> i < j,
        steps_of(e)[i] is Write && (steps_of(e)[j] is Stage || steps_of(e)[j] is Complete) ==> i < j,
        steps_of(e)[i] is WriteAggregate && (steps_of(e)[j] is Stage || steps_of(e)[j] is Complete) ==> i < j,
        steps_of(e)[i] is Stage && (steps_of(e)[j] is ForgetDeaths || steps_of(e)[j] is Complete || steps_of(
            e,
        )[j] is Notify) ==> i < j,
        steps_of(e)[i] is ForgetDeaths && (steps_of(e)[j] is Complete || steps_of(e)[j] is Notify) ==> i < j,
        steps_of(e)[j] is Notify && i != j ==> i < j,
{
}

/// What there is to do follows the plan.
pub proof fn law_the_extent_is_the_plan(plan: ApplyPlan, segments: nat)
    ensures
        extent_of(plan, segments).versions == plan.versions.order().len(),
        extent_of(plan, segments).clears == plan.clears@.len(),
        extent_of(plan, segments).aggregate_clears == plan.aggregate_clears@.len(),
        extent_of(plan, segments).targets == plan.targets@.len(),
        extent_of(plan, segments).aggregate_targets == plan.aggregate_targets@.len(),
        extent_of(plan, segments).segments == segments,
{
}

/// What a run has done once a clear removed keys.
pub open spec fn after_clear(run: RunModel, clear: ClearModel, keys: Seq<Seq<char>>) -> RunModel {
    RunModel {
        changed: run.changed + cleared_touches(clear, keys),
        keys_deleted: run.keys_deleted + keys.len(),
        ..run
    }
}

/// What a run has done once a target's rows were written and deleted.
pub open spec fn after_write(
    run: RunModel,
    target: PlanModel,
    written: Seq<Seq<char>>,
    deleted: Seq<Seq<char>>,
) -> RunModel {
    RunModel {
        changed: run.changed + applied_touches(target.target, target.writes, target.deletes, written)
            + applied_touches(target.target, target.writes, target.deletes, deleted),
        keys_written: run.keys_written + written.len(),
        keys_deleted: run.keys_deleted + deleted.len(),
        ..run
    }
}

/// What a run has done once an aggregate target's groups were written and deleted.
pub open spec fn after_groups(
    run: RunModel,
    target: Seq<char>,
    written: Seq<(String, i32)>,
    deleted: Seq<(String, i32)>,
) -> RunModel {
    RunModel {
        changed: run.changed + group_touches(target, written) + group_touches(target, deleted),
        keys_written: run.keys_written + written.len(),
        keys_deleted: run.keys_deleted + deleted.len(),
        ..run
    }
}

/// Every key that was cleared, written or deleted is counted once and touched once,
/// written ones before deleted ones; what was counted and touched before stays.
pub proof fn law_every_changed_key_counts(
    run: RunModel,
    clear: ClearModel,
    target: PlanModel,
    written: Seq<Seq<char>>,
    deleted: Seq<Seq<char>>,
    i: int,
)
    ensures
        after_clear(run, clear, deleted).keys_deleted == run.keys_deleted + deleted.len(),
        after_clear(run, clear, deleted).keys_written == run.keys_written,
        after_clear(run, clear, deleted).changed.len() == run.changed.len() + deleted.len(),
        run.changed.is_prefix_of(after_clear(run, clear, deleted).changed),
        0 <= i < deleted.len() ==> after_clear(run, clear, deleted).changed[run.changed.len() + i].key == deleted[i],
        0 <= i < deleted.len() ==> after_clear(run, clear, deleted).changed[run.changed.len() + i].table
            == clear.target,
        after_write(run, target, written, deleted).keys_written == run.keys_written + written.len(),
        after_write(run, target, written, deleted).keys_deleted == run.keys_deleted + deleted.len(),
        after_write(run, target, written, deleted).changed.len() == run.changed.len() + written.len() + deleted.len(),
        run.changed.is_prefix_of(after_write(run, target, written, deleted).changed),
        0 <= i < written.len() ==> after_write(run, target, written, deleted).changed[run.changed.len() + i].key
            == written[i],
        0 <= i < written.len() ==> after_write(run, target, written, deleted).changed[run.changed.len() + i].table
            == target.target,
        0 <= i < deleted.len() ==> after_write(run, target, written, deleted).changed[run.changed.len() + written.len()
            + i].key == deleted[i],
        after_write(run, target, written, deleted).segments_drained == run.segments_drained,
{
}

/// Every group that was written or deleted is counted once and touched once.
pub proof fn law_every_changed_group_counts(
    run: RunModel,
    target: Seq<char>,
    written: Seq<(String, i32)>,
    deleted: Seq<(String, i32)>,
    i: int,
)
    ensures
        after_groups(run, target, written, deleted).keys_written == run.keys_written + written.len(),
        after_groups(run, target, written, deleted).keys_deleted == run.keys_deleted + deleted.len(),
        after_groups(run, target, written, deleted).changed.len() == run.changed.len() + written.len() + deleted.len(),
        run.changed.is_prefix_of(after_groups(run, target, written, deleted).changed),
        0 <= i < written.len() ==> after_groups(run, target, written, deleted).changed[run.changed.len() + i].key
            == written[i].0@,
        0 <= i < deleted.len() ==> after_groups(run, target, written, deleted).changed[run.changed.len()
            + written.len() + i].key == deleted[i].0@,
{
}

} // verus!
