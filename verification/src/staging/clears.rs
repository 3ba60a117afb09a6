//! Truncates: which targets a truncated source table clears.

use super::change::{FoldedChange, SourceTime};
use super::plan::PrimaryKeyColumn;
use super::touch::{earliest, earliest_src_changed};
use crate::text::same;
use vstd::prelude::*;

verus! {

/// A target table that is cleared before anything is written to it.
#[derive(Debug, Clone, PartialEq, Eq)]
pub struct ClearPlan {
    /// The target table, without its schema.
    pub target: String,
    /// The target table with its schema.
    pub qualified_target: String,
    /// Its primary key.
    pub pk: PrimaryKeyColumn,
    /// The deepest hop count of the truncates.
    pub hop_gen: i32,
    /// The earliest origin of the truncates.
    pub src_changed: Option<SourceTime>,
}

/// The model of a [`ClearPlan`].
pub struct ClearModel {
    /// The target table, without its schema.
    pub target: Seq<char>,
    /// The target table with its schema.
    pub qualified_target: Seq<char>,
    /// Its primary key.
    pub pk: PrimaryKeyColumn,
    /// The deepest hop count of the truncates.
    pub hop_gen: i32,
    /// The earliest origin of the truncates.
    pub src_changed: Option<SourceTime>,
}

impl View for ClearPlan {
    type V = ClearModel;

    open spec fn view(&self) -> ClearModel {
        ClearModel {
            target: self.target@,
            qualified_target: self.qualified_target@,
            pk: self.pk,
            hop_gen: self.hop_gen,
            src_changed: self.src_changed,
        }
    }
}

/// The models of clears.
pub open spec fn clears_view(clears: Seq<ClearPlan>) -> Seq<ClearModel> {
    clears.map_values(|c: ClearPlan| c@)
}

/// An aggregate target table that is cleared; its groups have no single key.
#[derive(Debug, Clone, PartialEq, Eq)]
pub struct AggregateClearPlan {
    /// The target table, without its schema.
    pub target: String,
    /// The target table with its schema.
    pub qualified_target: String,
    /// The deepest hop count of the truncates.
    pub hop_gen: i32,
}

/// The model of an [`AggregateClearPlan`].
pub struct AggregateClearModel {
    /// The target table, without its schema.
    pub target: Seq<char>,
    /// The target table with its schema.
    pub qualified_target: Seq<char>,
    /// The deepest hop count of the truncates.
    pub hop_gen: i32,
}

impl View for AggregateClearPlan {
    type V = AggregateClearModel;

    open spec fn view(&self) -> AggregateClearModel {
        AggregateClearModel {
            target: self.target@,
            qualified_target: self.qualified_target@,
            hop_gen: self.hop_gen,
        }
    }
}

/// The models of aggregate clears.
pub open spec fn aggregate_clears_view(clears: Seq<AggregateClearPlan>) -> Seq<AggregateClearModel> {
    clears.map_values(|c: AggregateClearPlan| c@)
}

pub open spec fn larger(a: i32, b: i32) -> i32 {
    if a >= b {
        a
    } else {
        b
    }
}

/// The position of the clear of a target; their number where there is none.
pub open spec fn clear_position(clears: Seq<ClearModel>, target: Seq<char>) -> int
    decreases clears.len(),
{
    if clears.len() == 0 || clears[0].target == target {
        0
    } else {
        1 + clear_position(clears.drop_first(), target)
    }
}

/// The clears once one more is noted: a target that is cleared already takes
/// the deeper hop count and the earlier origin, and keeps the rest.
pub open spec fn with_clear(clears: Seq<ClearModel>, clear: ClearModel) -> Seq<ClearModel> {
    let i = clear_position(clears, clear.target);
    if i < clears.len() {
        clears.update(
            i,
            ClearModel {
                hop_gen: larger(clears[i].hop_gen, clear.hop_gen),
                src_changed: earliest(clears[i].src_changed, clear.src_changed),
                ..clears[i]
            },
        )
    } else {
        clears.push(clear)
    }
}

proof fn lemma_clear_position(clears: Seq<ClearModel>, target: Seq<char>, i: int)
    requires
        0 <= i <= clears.len(),
        forall|j: int| 0 <= j < i ==> (#[trigger] clears[j]).target != target,
        i < clears.len() ==> clears[i].target == target,
    ensures
        clear_position(clears, target) == i,
    decreases clears.len(),
{
    if i > 0 {
        assert(clears[0].target != target);
        let rest = clears.drop_first();
        assert forall|j: int| 0 <= j < i - 1 implies (#[trigger] rest[j]).target != target by {
            assert(clears[j + 1].target != target);
        }
        lemma_clear_position(rest, target, i - 1);
    }
}

/// Notes one more clear.
pub fn add_clear(clears: &mut Vec<ClearPlan>, clear: ClearPlan)
    ensures
        clears_view(final(clears)@) == with_clear(clears_view(old(clears)@), clear@),
{
    let ghost before = clears_view(clears@);
    let mut i: usize = 0;
    while i < clears.len() && !same(clears[i].target.as_str(), clear.target.as_str())
        invariant
            i <= clears@.len(),
            before == clears_view(clears@),
            forall|j: int| 0 <= j < i ==> (#[trigger] before[j]).target != clear.target@,
        decreases clears@.len() - i,
    {
        i = i + 1;
    }
    proof {
        lemma_clear_position(before, clear@.target, i as int);
    }
    if i < clears.len() {
        let known = &mut clears[i];
        if known.hop_gen < clear.hop_gen {
            known.hop_gen = clear.hop_gen;
        }
        known.src_changed = earliest_src_changed(known.src_changed, clear.src_changed);
        assert(clears_view(clears@) =~= with_clear(before, clear@));
    } else {
        clears.push(clear);
        assert(clears_view(clears@) =~= before.push(clear@));
    }
}

/// The position of the aggregate clear of a target; their number where there is none.
pub open spec fn aggregate_clear_position(clears: Seq<AggregateClearModel>, target: Seq<char>) -> int
    decreases clears.len(),
{
    if clears.len() == 0 || clears[0].target == target {
        0
    } else {
        1 + aggregate_clear_position(clears.drop_first(), target)
    }
}

/// The aggregate clears once one more is noted: a target that is cleared
/// already takes the deeper hop count.
pub open spec fn with_aggregate_clear(
    clears: Seq<AggregateClearModel>,
    clear: AggregateClearModel,
) -> Seq<AggregateClearModel> {
    let i = aggregate_clear_position(clears, clear.target);
    if i < clears.len() {
        clears.update(i, AggregateClearModel { hop_gen: larger(clears[i].hop_gen, clear.hop_gen), ..clears[i] })
    } else {
        clears.push(clear)
    }
}

proof fn lemma_aggregate_clear_position(clears: Seq<AggregateClearModel>, target: Seq<char>, i: int)
    requires
        0 <= i <= clears.len(),
        forall|j: int| 0 <= j < i ==> (#[trigger] clears[j]).target != target,
        i < clears.len() ==> clears[i].target == target,
    ensures
        aggregate_clear_position(clears, target) == i,
    decreases clears.len(),
{
    if i > 0 {
        assert(clears[0].target != target);
        let rest = clears.drop_first();
        assert forall|j: int| 0 <= j < i - 1 implies (#[trigger] rest[j]).target != target by {
            assert(clears[j + 1].target != target);
        }
        lemma_aggregate_clear_position(rest, target, i - 1);
    }
}

/// Notes one more aggregate clear.
pub fn add_aggregate_clear(clears: &mut Vec<AggregateClearPlan>, clear: AggregateClearPlan)
    ensures
        aggregate_clears_view(final(clears)@) == with_aggregate_clear(aggregate_clears_view(old(clears)@), clear@),
{
    let ghost before = aggregate_clears_view(clears@);
    let mut i: usize = 0;
    while i < clears.len() && !same(clears[i].target.as_str(), clear.target.as_str())
        invariant
            i <= clears@.len(),
            before == aggregate_clears_view(clears@),
            forall|j: int| 0 <= j < i ==> (#[trigger] before[j]).target != clear.target@,
        decreases clears@.len() - i,
    {
        i = i + 1;
    }
    proof {
        lemma_aggregate_clear_position(before, clear@.target, i as int);
    }
    if i < clears.len() {
        let known = &mut clears[i];
        if known.hop_gen < clear.hop_gen {
            known.hop_gen = clear.hop_gen;
        }
        assert(aggregate_clears_view(clears@) =~= with_aggregate_clear(before, clear@));
    } else {
        clears.push(clear);
        assert(aggregate_clears_view(clears@) =~= before.push(clear@));
    }
}

/// A definition that reads a truncated source table.
#[derive(Debug, Clone, PartialEq, Eq)]
pub struct TruncatedReader {
    /// Its target table, without its schema.
    pub target: String,
    /// Its target table with its schema.
    pub qualified_target: String,
    /// Whether it is an aggregate.
    pub aggregate: bool,
}

/// A relationship that leads to a truncated table, with the from-side keys
/// that have a join key at all.
#[derive(Debug, Clone, PartialEq, Eq)]
pub struct TruncatedRelationship {
    /// The table that declares the relationship.
    pub from_table: String,
    /// Its keys.
    pub from_keys: Vec<String>,
}

/// What the catalog and the database say about a truncated source table.
#[derive(Debug)]
pub struct LoadedTruncate {
    /// The source table without its schema.
    pub source_key: String,
    /// Its version in the catalog.
    pub version: Option<i64>,
    /// The truncate's sentinel.
    pub change: FoldedChange,
    /// The source table's primary key.
    pub pk: PrimaryKeyColumn,
    /// The definitions that read it.
    pub readers: Vec<TruncatedReader>,
    /// The relationships that lead to it.
    pub relationships: Vec<TruncatedRelationship>,
}

/// The clear of one reader's target.
pub open spec fn clear_of(t: LoadedTruncate, reader: TruncatedReader) -> ClearModel {
    ClearModel {
        target: reader.target@,
        qualified_target: reader.qualified_target@,
        pk: t.pk,
        hop_gen: t.change.hop_gen,
        src_changed: t.change.src_changed,
    }
}

/// The aggregate clear of one reader's target.
pub open spec fn aggregate_clear_of(t: LoadedTruncate, reader: TruncatedReader) -> AggregateClearModel {
    AggregateClearModel {
        target: reader.target@,
        qualified_target: reader.qualified_target@,
        hop_gen: t.change.hop_gen,
    }
}

/// The clears after the first `n` readers of a truncated source table.
pub open spec fn clears_after(before: Seq<ClearModel>, t: LoadedTruncate, n: int) -> Seq<ClearModel>
    decreases n,
{
    if n <= 0 {
        before
    } else {
        let so_far = clears_after(before, t, n - 1);
        let reader = t.readers@[n - 1];
        if reader.aggregate {
            so_far
        } else {
            with_clear(so_far, clear_of(t, reader))
        }
    }
}

/// The aggregate clears after the first `n` readers of a truncated source table.
pub open spec fn aggregate_clears_after(
    before: Seq<AggregateClearModel>,
    t: LoadedTruncate,
    n: int,
) -> Seq<AggregateClearModel>
    decreases n,
{
    if n <= 0 {
        before
    } else {
        let so_far = aggregate_clears_after(before, t, n - 1);
        let reader = t.readers@[n - 1];
        if reader.aggregate {
            with_aggregate_clear(so_far, aggregate_clear_of(t, reader))
        } else {
            so_far
        }
    }
}

/// The clears of all truncates.
pub open spec fn all_clears(truncates: Seq<LoadedTruncate>) -> Seq<ClearModel>
    decreases truncates.len(),
{
    if truncates.len() == 0 {
        seq![]
    } else {
        clears_after(all_clears(truncates.drop_last()), truncates.last(), truncates.last().readers@.len() as int)
    }
}

/// The aggregate clears of all truncates.
pub open spec fn all_aggregate_clears(truncates: Seq<LoadedTruncate>) -> Seq<AggregateClearModel>
    decreases truncates.len(),
{
    if truncates.len() == 0 {
        seq![]
    } else {
        aggregate_clears_after(
            all_aggregate_clears(truncates.drop_last()),
            truncates.last(),
            truncates.last().readers@.len() as int,
        )
    }
}

/// What truncates clear: every target that reads a truncated source table.
pub fn plan_clears(truncates: &Vec<LoadedTruncate>) -> (r: (Vec<ClearPlan>, Vec<AggregateClearPlan>))
    ensures
        clears_view(r.0@) == all_clears(truncates@),
        aggregate_clears_view(r.1@) == all_aggregate_clears(truncates@),
{
    let mut clears: Vec<ClearPlan> = Vec::new();
    let mut aggregate_clears: Vec<AggregateClearPlan> = Vec::new();
    assert(clears_view(clears@) =~= seq![]);
    assert(aggregate_clears_view(aggregate_clears@) =~= seq![]);
    for i in 0..truncates.len()
        invariant
            clears_view(clears@) == all_clears(truncates@.take(i as int)),
            aggregate_clears_view(aggregate_clears@) == all_aggregate_clears(truncates@.take(i as int)),
    {
        let t = &truncates[i];
        let ghost clears_before = clears_view(clears@);
        let ghost aggregate_before = aggregate_clears_view(aggregate_clears@);
        assert(truncates@.take(i + 1).drop_last() =~= truncates@.take(i as int));
        for n in 0..t.readers.len()
            invariant
                clears_view(clears@) == clears_after(clears_before, *t, n as int),
                aggregate_clears_view(aggregate_clears@) == aggregate_clears_after(aggregate_before, *t, n as int),
        {
            let reader = &t.readers[n];
            if reader.aggregate {
                add_aggregate_clear(
                    &mut aggregate_clears,
                    AggregateClearPlan {
                        target: reader.target.clone(),
                        qualified_target: reader.qualified_target.clone(),
                        hop_gen: t.change.hop_gen,
                    },
                );
            } else {
                add_clear(
                    &mut clears,
                    ClearPlan {
                        target: reader.target.clone(),
                        qualified_target: reader.qualified_target.clone(),
                        pk: t.pk.duplicate(),
                        hop_gen: t.change.hop_gen,
                        src_changed: t.change.src_changed,
                    },
                );
            }
        }
    }
    assert(truncates@.take(truncates@.len() as int) =~= truncates@);
    (clears, aggregate_clears)
}

proof fn lemma_clear_found(clears: Seq<ClearModel>, target: Seq<char>)
    ensures
        0 <= clear_position(clears, target) <= clears.len(),
        clear_position(clears, target) < clears.len() ==> clears[clear_position(clears, target)].target == target,
        forall|j: int| 0 <= j < clear_position(clears, target) ==> (#[trigger] clears[j]).target != target,
    decreases clears.len(),
{
    if clears.len() > 0 && clears[0].target != target {
        let rest = clears.drop_first();
        lemma_clear_found(rest, target);
        assert forall|j: int| 0 <= j < clear_position(clears, target) implies (#[trigger] clears[j]).target != target by {
            if j > 0 {
                assert(rest[j - 1] == clears[j]);
            }
        }
    }
}

/// Noting a clear clears its target once, at least as deep and with an origin
/// at least as early as before and as the clear, and leaves the others as they are.
pub proof fn law_clears_merge(clears: Seq<ClearModel>, clear: ClearModel)
    ensures
        ({
            let after = with_clear(clears, clear);
            let i = clear_position(after, clear.target);
            &&& 0 <= i < after.len()
            &&& after[i].target == clear.target
            &&& after[i].hop_gen >= clear.hop_gen
            &&& clear.src_changed is Some ==> after[i].src_changed is Some && after[i].src_changed->0.nanos
                <= clear.src_changed->0.nanos
            &&& forall|j: int| 0 <= j < clears.len() ==> {
                &&& (#[trigger] after[j]).target == clears[j].target
                &&& after[j].hop_gen >= clears[j].hop_gen
                &&& j != i ==> after[j] == clears[j]
            }
        }),
{
    lemma_clear_found(clears, clear.target);
    let k = clear_position(clears, clear.target);
    let after = with_clear(clears, clear);
    lemma_clear_position(after, clear.target, k);
}

/// Whether a truncate clears a target: a definition with the target reads the
/// table, an aggregate or not as asked.
pub open spec fn truncate_clears(t: LoadedTruncate, target: Seq<char>, aggregate: bool) -> bool {
    exists|n: int|
        0 <= n < t.readers@.len() && (#[trigger] t.readers@[n]).target@ == target && t.readers@[n].aggregate == aggregate
}

/// Whether a truncate of a batch clears a target.
pub open spec fn is_cleared(truncates: Seq<LoadedTruncate>, target: Seq<char>, aggregate: bool) -> bool {
    exists|i: int| 0 <= i < truncates.len() && truncate_clears(#[trigger] truncates[i], target, aggregate)
}

/// Whether clears name each target once.
pub open spec fn targets_differ(clears: Seq<ClearModel>) -> bool {
    forall|i: int, j: int| 0 <= i < j < clears.len() ==> (#[trigger] clears[i]).target != (#[trigger] clears[j]).target
}

/// Whether aggregate clears name each target once.
pub open spec fn aggregate_targets_differ(clears: Seq<AggregateClearModel>) -> bool {
    forall|i: int, j: int| 0 <= i < j < clears.len() ==> (#[trigger] clears[i]).target != (#[trigger] clears[j]).target
}

/// Whether a target is among those cleared.
pub open spec fn has_clear(clears: Seq<ClearModel>, target: Seq<char>) -> bool {
    exists|i: int| 0 <= i < clears.len() && (#[trigger] clears[i]).target == target
}

/// Whether an aggregate target is among those cleared.
pub open spec fn has_aggregate_clear(clears: Seq<AggregateClearModel>, target: Seq<char>) -> bool {
    exists|i: int| 0 <= i < clears.len() && (#[trigger] clears[i]).target == target
}

proof fn lemma_with_clear(clears: Seq<ClearModel>, clear: ClearModel)
    requires
        targets_differ(clears),
    ensures
        targets_differ(with_clear(clears, clear)),
        forall|target: Seq<char>| #[trigger]
            has_clear(with_clear(clears, clear), target) <==> has_clear(clears, target) || target == clear.target,
{
    let after = with_clear(clears, clear);
    let at = clear_position(clears, clear.target);
    lemma_clear_position_found(clears, clear.target);
    assert forall|i: int, j: int| 0 <= i < j < after.len() implies (#[trigger] after[i]).target != (
    #[trigger] after[j]).target by {
        if j < clears.len() {
            assert(after[i].target == clears[i].target && after[j].target == clears[j].target);
        } else {
            assert(clears[i].target != clear.target);
        }
    }
    assert forall|target: Seq<char>| #[trigger] has_clear(after, target) <==> has_clear(clears, target) || target
        == clear.target by {
        if has_clear(clears, target) {
            let i = choose|i: int| 0 <= i < clears.len() && (#[trigger] clears[i]).target == target;
            assert(after[i].target == target);
        }
        if target == clear.target {
            assert(after[at].target == target);
        }
        if has_clear(after, target) {
            let i = choose|i: int| 0 <= i < after.len() && (#[trigger] after[i]).target == target;
            if i < clears.len() {
                assert(clears[i].target == target);
            }
        }
    }
}

proof fn lemma_clear_position_found(clears: Seq<ClearModel>, target: Seq<char>)
    ensures
        0 <= clear_position(clears, target) <= clears.len(),
        clear_position(clears, target) < clears.len() ==> clears[clear_position(clears, target)].target == target,
        forall|j: int| 0 <= j < clear_position(clears, target) ==> (#[trigger] clears[j]).target != target,
    decreases clears.len(),
{
    if clears.len() > 0 && clears[0].target != target {
        let rest = clears.drop_first();
        lemma_clear_position_found(rest, target);
        assert forall|j: int| 0 <= j < clear_position(clears, target) implies (#[trigger] clears[j]).target != target by {
            if j > 0 {
                assert(rest[j - 1] == clears[j]);
            }
        }
    }
}

proof fn lemma_clears_after(before: Seq<ClearModel>, t: LoadedTruncate, n: int, target: Seq<char>)
    requires
        targets_differ(before),
        0 <= n <= t.readers@.len(),
    ensures
        targets_differ(clears_after(before, t, n)),
        has_clear(clears_after(before, t, n), target) <==> has_clear(before, target) || exists|k: int|
            0 <= k < n && (#[trigger] t.readers@[k]).target@ == target && !t.readers@[k].aggregate,
    decreases n,
{
    if n > 0 {
        lemma_clears_after(before, t, n - 1, target);
        if !t.readers@[n - 1].aggregate {
            lemma_with_clear(clears_after(before, t, n - 1), clear_of(t, t.readers@[n - 1]));
        }
    }
}

/// A truncate clears the target of every one-to-one definition that reads the
/// table, each target once, and no other.
pub proof fn law_truncates_clear_their_readers(truncates: Seq<LoadedTruncate>, target: Seq<char>)
    ensures
        targets_differ(all_clears(truncates)),
        has_clear(all_clears(truncates), target) <==> is_cleared(truncates, target, false),
    decreases truncates.len(),
{
    if truncates.len() > 0 {
        let front = truncates.drop_last();
        let last = truncates.last();
        law_truncates_clear_their_readers(front, target);
        lemma_clears_after(all_clears(front), last, last.readers@.len() as int, target);
        if is_cleared(front, target, false) {
            let i = choose|i: int| 0 <= i < front.len() && truncate_clears(#[trigger] front[i], target, false);
            assert(truncates[i] == front[i]);
        }
        if truncate_clears(last, target, false) {
            assert(truncates[truncates.len() - 1] == last);
        }
        if is_cleared(truncates, target, false) {
            let i = choose|i: int| 0 <= i < truncates.len() && truncate_clears(#[trigger] truncates[i], target, false);
            if i < front.len() {
                assert(front[i] == truncates[i]);
            }
        }
    }
}

proof fn lemma_aggregate_position_found(clears: Seq<AggregateClearModel>, target: Seq<char>)
    ensures
        0 <= aggregate_clear_position(clears, target) <= clears.len(),
        aggregate_clear_position(clears, target) < clears.len() ==> clears[aggregate_clear_position(
            clears,
            target,
        )].target == target,
        forall|j: int| 0 <= j < aggregate_clear_position(clears, target) ==> (#[trigger] clears[j]).target != target,
    decreases clears.len(),
{
    if clears.len() > 0 && clears[0].target != target {
        let rest = clears.drop_first();
        lemma_aggregate_position_found(rest, target);
        assert forall|j: int| 0 <= j < aggregate_clear_position(clears, target) implies (#[trigger] clears[j]).target
            != target by {
            if j > 0 {
                assert(rest[j - 1] == clears[j]);
            }
        }
    }
}

proof fn lemma_with_aggregate_clear(clears: Seq<AggregateClearModel>, clear: AggregateClearModel)
    requires
        aggregate_targets_differ(clears),
    ensures
        aggregate_targets_differ(with_aggregate_clear(clears, clear)),
        forall|target: Seq<char>| #[trigger]
            has_aggregate_clear(with_aggregate_clear(clears, clear), target) <==> has_aggregate_clear(clears, target)
                || target == clear.target,
{
    let after = with_aggregate_clear(clears, clear);
    let at = aggregate_clear_position(clears, clear.target);
    lemma_aggregate_position_found(clears, clear.target);
    assert forall|i: int, j: int| 0 <= i < j < after.len() implies (#[trigger] after[i]).target != (
    #[trigger] after[j]).target by {
        if j < clears.len() {
            assert(after[i].target == clears[i].target && after[j].target == clears[j].target);
        } else {
            assert(clears[i].target != clear.target);
        }
    }
    assert forall|target: Seq<char>| #[trigger]
        has_aggregate_clear(after, target) <==> has_aggregate_clear(clears, target) || target == clear.target by {
        if has_aggregate_clear(clears, target) {
            let i = choose|i: int| 0 <= i < clears.len() && (#[trigger] clears[i]).target == target;
            assert(after[i].target == target);
        }
        if target == clear.target {
            assert(after[at].target == target);
        }
        if has_aggregate_clear(after, target) {
            let i = choose|i: int| 0 <= i < after.len() && (#[trigger] after[i]).target == target;
            if i < clears.len() {
                assert(clears[i].target == target);
            }
        }
    }
}

proof fn lemma_aggregate_clears_after(
    before: Seq<AggregateClearModel>,
    t: LoadedTruncate,
    n: int,
    target: Seq<char>,
)
    requires
        aggregate_targets_differ(before),
        0 <= n <= t.readers@.len(),
    ensures
        aggregate_targets_differ(aggregate_clears_after(before, t, n)),
        has_aggregate_clear(aggregate_clears_after(before, t, n), target) <==> has_aggregate_clear(before, target)
            || exists|k: int|
            0 <= k < n && (#[trigger] t.readers@[k]).target@ == target && t.readers@[k].aggregate,
    decreases n,
{
    if n > 0 {
        lemma_aggregate_clears_after(before, t, n - 1, target);
        if t.readers@[n - 1].aggregate {
            lemma_with_aggregate_clear(
                aggregate_clears_after(before, t, n - 1),
                aggregate_clear_of(t, t.readers@[n - 1]),
            );
        }
    }
}

/// A truncate clears the target of every aggregate that reads the table, each
/// target once, and no other.
pub proof fn law_truncates_clear_their_aggregates(truncates: Seq<LoadedTruncate>, target: Seq<char>)
    ensures
        aggregate_targets_differ(all_aggregate_clears(truncates)),
        has_aggregate_clear(all_aggregate_clears(truncates), target) <==> is_cleared(truncates, target, true),
    decreases truncates.len(),
{
    if truncates.len() > 0 {
        let front = truncates.drop_last();
        let last = truncates.last();
        law_truncates_clear_their_aggregates(front, target);
        lemma_aggregate_clears_after(all_aggregate_clears(front), last, last.readers@.len() as int, target);
        if is_cleared(front, target, true) {
            let i = choose|i: int| 0 <= i < front.len() && truncate_clears(#[trigger] front[i], target, true);
            assert(truncates[i] == front[i]);
        }
        if truncate_clears(last, target, true) {
            assert(truncates[truncates.len() - 1] == last);
        }
        if is_cleared(truncates, target, true) {
            let i = choose|i: int| 0 <= i < truncates.len() && truncate_clears(#[trigger] truncates[i], target, true);
            if i < front.len() {
                assert(front[i] == truncates[i]);
            }
        }
    }
}

/// A clear of a target that is there takes the deeper of the hop counts and the
/// earlier of the origins, exactly; everything else stays as it was. A clear is of
/// its truncate's hop count and origin, with the table's primary key.
pub proof fn law_clears_take_the_deeper_hop(
    clears: Seq<ClearModel>,
    clear: ClearModel,
    i: int,
    t: LoadedTruncate,
    reader: TruncatedReader,
)
    requires
        0 <= i < clears.len(),
        forall|j: int| 0 <= j < i ==> (#[trigger] clears[j]).target != clear.target,
        clears[i].target == clear.target,
    ensures
        with_clear(clears, clear).len() == clears.len(),
        with_clear(clears, clear)[i].hop_gen >= clears[i].hop_gen,
        with_clear(clears, clear)[i].hop_gen >= clear.hop_gen,
        with_clear(clears, clear)[i].hop_gen == clears[i].hop_gen || with_clear(clears, clear)[i].hop_gen
            == clear.hop_gen,
        with_clear(clears, clear)[i].src_changed == clears[i].src_changed || with_clear(clears, clear)[i].src_changed
            == clear.src_changed,
        clear.src_changed is Some ==> with_clear(clears, clear)[i].src_changed is Some && with_clear(
            clears,
            clear,
        )[i].src_changed->0.nanos <= clear.src_changed->0.nanos,
        clears[i].src_changed is Some ==> with_clear(clears, clear)[i].src_changed is Some && with_clear(
            clears,
            clear,
        )[i].src_changed->0.nanos <= clears[i].src_changed->0.nanos,
        with_clear(clears, clear)[i].pk == clears[i].pk,
        with_clear(clears, clear)[i].qualified_target == clears[i].qualified_target,
        clear_of(t, reader).hop_gen == t.change.hop_gen,
        clear_of(t, reader).src_changed == t.change.src_changed,
        clear_of(t, reader).pk == t.pk,
        clear_of(t, reader).target == reader.target@,
        clear_of(t, reader).qualified_target == reader.qualified_target@,
        aggregate_clear_of(t, reader).hop_gen == t.change.hop_gen,
        aggregate_clear_of(t, reader).target == reader.target@,
        aggregate_clear_of(t, reader).qualified_target == reader.qualified_target@,
{
    lemma_clear_position_found(clears, clear.target);
    assert(clear_position(clears, clear.target) == i) by {
        let at = clear_position(clears, clear.target);
        if at < i {
            assert(clears[at].target != clear.target);
        }
    }
}

/// An aggregate's clear that is there takes the deeper of the hop counts, exactly.
pub proof fn law_aggregate_clears_take_the_deeper_hop(
    clears: Seq<AggregateClearModel>,
    clear: AggregateClearModel,
    i: int,
)
    requires
        0 <= i < clears.len(),
        forall|j: int| 0 <= j < i ==> (#[trigger] clears[j]).target != clear.target,
        clears[i].target == clear.target,
    ensures
        with_aggregate_clear(clears, clear).len() == clears.len(),
        with_aggregate_clear(clears, clear)[i].hop_gen >= clears[i].hop_gen,
        with_aggregate_clear(clears, clear)[i].hop_gen >= clear.hop_gen,
        with_aggregate_clear(clears, clear)[i].hop_gen == clears[i].hop_gen || with_aggregate_clear(
            clears,
            clear,
        )[i].hop_gen == clear.hop_gen,
        with_aggregate_clear(clears, clear)[i].qualified_target == clears[i].qualified_target,
{
    lemma_aggregate_position_found(clears, clear.target);
    assert(aggregate_clear_position(clears, clear.target) == i) by {
        let at = aggregate_clear_position(clears, clear.target);
        if at < i {
            assert(clears[at].target != clear.target);
        }
    }
}

} // verus!
