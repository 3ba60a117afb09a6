//! From what the catalog and the database say about a batch's source tables to
//! the plan that is applied.

use super::change::{FoldedChange, SourceTime};
use super::clears::{
    aggregate_clears_view, all_aggregate_clears, all_clears, clears_view, plan_clears, AggregateClearPlan, ClearPlan,
    LoadedTruncate,
};
use super::plan::{
    add_part, deletes_for, deletes_of, field_types, gathered, law_gathering_keeps_every_change, plan_position,
    plans_view, target_changes, types_of, unpaused_fields, unpaused_names, unpaused_types, values_of, writes_for,
    writes_of, DeleteModel, PlanModel, PrimaryKeyColumn, TargetPlan, WriteModel,
};
use super::reverse::{
    add_from_side, add_from_side_of_truncate, from_side, from_side_of_truncate, join_key_touches, join_touches,
    lemma_join_touches_fit,
};
use super::rows::Row;
use super::touch::{
    deepest_hop, law_deepest_hop_wins, merge_touches, merges, touched, touches_key, Touch, Touched,
};
use crate::defs::ast::ValueType;
use crate::defs::model::RelationshipCardinality;
use crate::lists::{lemma_filter_contains, lemma_filter_none, lemma_filter_step};
use crate::map::{among, has_key, TextMap};
use crate::order::{comes_before, text_less};
use crate::text::same;
use vstd::prelude::*;

verus! {

/// A to-one relationship that an aggregate reads through.
#[derive(Debug, Clone, PartialEq, Eq)]
pub struct RelJoin {
    /// The relationship's name.
    pub name: String,
    /// The related table.
    pub to_table: String,
    /// The related table's join column.
    pub to_col: String,
    /// The source table's join column.
    pub from_col: String,
}

/// A relationship that an aggregate reads through, as the catalog has it.
#[derive(Debug, Clone, PartialEq, Eq)]
pub struct LoadedJoin {
    /// Its endpoints.
    pub join: RelJoin,
    /// Whether related rows are unique.
    pub cardinality: RelationshipCardinality,
}

/// What a batch does to one aggregate target table, beside its groups' deltas.
#[derive(Debug)]
pub struct AggregatePlan {
    /// The target table, without its schema.
    pub target: String,
    /// The target table with its schema.
    pub qualified_target: String,
    /// The source table with its schema.
    pub source: String,
    /// The fields that are not grouping columns.
    pub field_names: Vec<String>,
    /// The grouping columns.
    pub group_by: Vec<String>,
    /// Their types, in the same order.
    pub group_by_types: Vec<ValueType>,
    /// The relationships it reads through, by name.
    pub rel_joins: Vec<RelJoin>,
}

/// The model of an [`AggregatePlan`].
pub struct AggregateModel {
    /// The target table, without its schema.
    pub target: Seq<char>,
    /// The target table with its schema.
    pub qualified_target: Seq<char>,
    /// The source table with its schema.
    pub source: Seq<char>,
    /// The fields that are not grouping columns.
    pub field_names: Seq<String>,
    /// The grouping columns.
    pub group_by: Seq<String>,
    /// Their types, in the same order.
    pub group_by_types: Seq<ValueType>,
    /// The relationships it reads through, by name.
    pub rel_joins: Seq<RelJoin>,
}

impl View for AggregatePlan {
    type V = AggregateModel;

    open spec fn view(&self) -> AggregateModel {
        AggregateModel {
            target: self.target@,
            qualified_target: self.qualified_target@,
            source: self.source@,
            field_names: self.field_names@,
            group_by: self.group_by@,
            group_by_types: self.group_by_types@,
            rel_joins: self.rel_joins@,
        }
    }
}

/// The models of aggregate plans.
pub open spec fn aggregates_view(plans: Seq<AggregatePlan>) -> Seq<AggregateModel> {
    plans.map_values(|p: AggregatePlan| p@)
}

/// What reads a source table, with what was loaded and evaluated for it.
#[derive(Debug)]
pub enum LoadedDefinition {
    /// A definition with one target row for each source row.
    OneToOne {
        /// The target table, without its schema.
        target: String,
        /// The target table with its schema.
        qualified_target: String,
        /// The calculated fields.
        field_names: Vec<String>,
        /// The types that are known of them.
        known_types: TextMap<ValueType>,
        /// The paused columns.
        paused: Vec<String>,
        /// For each change, the evaluated fields; nothing where the row is gone.
        evaluated: Vec<Option<Row>>,
    },
    /// A definition with one target row for each group.
    Aggregate {
        /// The target table, without its schema.
        target: String,
        /// The target table with its schema.
        qualified_target: String,
        /// The fields.
        field_names: Vec<String>,
        /// The grouping columns.
        group_by: Vec<String>,
        /// The types of the source table's columns.
        source_columns: TextMap<ValueType>,
        /// The relationships it reads through.
        joins: Vec<LoadedJoin>,
    },
}

/// A relationship that leads to a source table.
#[derive(Debug)]
pub struct LoadedRelationship {
    /// The table that declares the relationship.
    pub from_table: String,
    /// The source table's join column.
    pub to_col: String,
    /// From-side key and join key of each from-side row that has a touched join key.
    pub matched: Vec<(String, String)>,
}

/// What the catalog and the database say about one source table of a batch.
#[derive(Debug)]
pub struct LoadedSource {
    /// The source table without its schema.
    pub source_key: String,
    /// The source table as its changes name it.
    pub qualified_source: String,
    /// Its version in the catalog.
    pub version: Option<i64>,
    /// Its primary key.
    pub pk: PrimaryKeyColumn,
    /// Its changes.
    pub changes: Vec<FoldedChange>,
    /// The row behind each change.
    pub rows: Vec<Option<Row>>,
    /// The row before each change, where its image is there.
    pub old_rows: Vec<Option<Row>>,
    /// The relationships that lead to it.
    pub relationships: Vec<LoadedRelationship>,
    /// The definitions that read it.
    pub definitions: Vec<LoadedDefinition>,
}

impl LoadedSource {
    /// There is a row for each change, and every change can be followed by
    /// another hop.
    pub open spec fn well_formed(self) -> bool {
        &&& self.rows@.len() == self.changes@.len()
        &&& self.old_rows@.len() == self.changes@.len()
        &&& forall|i: int| 0 <= i < self.changes@.len() ==> (#[trigger] self.changes@[i]).hop_gen < i32::MAX
        &&& forall|i: int|
            0 <= i < self.definitions@.len() ==> match #[trigger] self.definitions@[i] {
                LoadedDefinition::OneToOne { evaluated, .. } => evaluated@.len() == self.changes@.len(),
                LoadedDefinition::Aggregate { .. } => true,
            }
    }
}

/// A change that a target applied, for the metrics.
#[derive(Debug, Clone, PartialEq, Eq)]
pub struct AppliedChange {
    /// The target table, without its schema.
    pub target: String,
    /// The origin of the change, where it is known.
    pub src_changed: Option<SourceTime>,
}

/// The model of an [`AppliedChange`].
pub struct AppliedModel {
    /// The target table, without its schema.
    pub target: Seq<char>,
    /// The origin of the change, where it is known.
    pub src_changed: Option<SourceTime>,
}

impl View for AppliedChange {
    type V = AppliedModel;

    open spec fn view(&self) -> AppliedModel {
        AppliedModel { target: self.target@, src_changed: self.src_changed }
    }
}

/// The models of applied changes.
pub open spec fn applied_view(applied: Seq<AppliedChange>) -> Seq<AppliedModel> {
    applied.map_values(|a: AppliedChange| a@)
}

/// Everything that is applied for a batch in one transaction.
#[derive(Debug)]
pub struct ApplyPlan {
    /// The catalog version of each source table, as it was when the plan was made.
    pub versions: TextMap<Option<i64>>,
    /// What one-to-one targets get.
    pub targets: Vec<TargetPlan>,
    /// What aggregate targets get.
    pub aggregate_targets: Vec<AggregatePlan>,
    /// Whether something reads each target.
    pub downstream_readers: TextMap<bool>,
    /// The one-to-one targets that are cleared first.
    pub clears: Vec<ClearPlan>,
    /// The aggregate targets that are cleared first.
    pub aggregate_clears: Vec<AggregateClearPlan>,
    /// The changes of poisoned keys, which are parked.
    pub poisoned_park: Vec<FoldedChange>,
    /// Source table and key of each applied change.
    pub applied_keys: Vec<(String, String)>,
    /// The rows to derive again because a related row changed.
    pub reverse_recomputes: Vec<Touch>,
}

/// Why a batch cannot be planned.
#[derive(Debug, Clone, Copy, PartialEq, Eq, Structural)]
pub enum ComputeError {
    /// An aggregate reads through a relationship with any number of related rows.
    ToManyAggregate,
}

impl ComputeError {
    /// The error in words.
    pub fn message(&self) -> (r: String)
        ensures
            r@ == "an aggregate over a to-many relationship"@,
    {
        "an aggregate over a to-many relationship".to_owned()
    }
}

/// What one definition's target gets, where it is one-to-one.
pub open spec fn part_of(source: LoadedSource, definition: LoadedDefinition) -> Option<PlanModel> {
    match definition {
        LoadedDefinition::OneToOne { target, qualified_target, field_names, known_types, paused, evaluated } => {
            let names = unpaused_names(field_names@, paused@);
            Some(
                PlanModel {
                    target: target@,
                    qualified_target: qualified_target@,
                    pk: source.pk,
                    field_names: names,
                    field_types: unpaused_types(field_names@, types_of(field_names@, known_types@), paused@),
                    writes: writes_of(names, source.changes@, evaluated@),
                    deletes: deletes_of(source.changes@, evaluated@),
                },
            )
        },
        LoadedDefinition::Aggregate { .. } => None,
    }
}

/// What the first `n` definitions of a source table contribute to one-to-one targets.
pub open spec fn source_parts(source: LoadedSource, n: int) -> Seq<PlanModel>
    decreases n,
{
    if n <= 0 {
        seq![]
    } else {
        match part_of(source, source.definitions@[n - 1]) {
            Some(part) => source_parts(source, n - 1).push(part),
            None => source_parts(source, n - 1),
        }
    }
}

/// What all source tables' definitions contribute to one-to-one targets.
pub open spec fn all_parts(sources: Seq<LoadedSource>) -> Seq<PlanModel>
    decreases sources.len(),
{
    if sources.len() == 0 {
        seq![]
    } else {
        all_parts(sources.drop_last()) + source_parts(sources.last(), sources.last().definitions@.len() as int)
    }
}

/// Whether `sorted` holds exactly the joins, ordered by name.
pub open spec fn joins_sorted(sorted: Seq<RelJoin>, joins: Seq<LoadedJoin>) -> bool {
    &&& sorted.to_multiset() == joins.map_values(|j: LoadedJoin| j.join).to_multiset()
    &&& forall|i: int, j: int|
        0 <= i < j < sorted.len() ==> !text_less((#[trigger] sorted[j]).name@, (#[trigger] sorted[i]).name@)
}

/// The names that are not among the grouping columns.
pub open spec fn aggregated(names: Seq<String>, group_by: Seq<String>) -> Seq<String> {
    names.filter(|n: String| !among(group_by, n@))
}

/// The fields of an aggregate that are not grouping columns, in order.
pub fn aggregate_fields(names: &Vec<String>, group_by: &Vec<String>) -> (r: Vec<String>)
    ensures
        r@ == aggregated(names@, group_by@),
{
    let mut r: Vec<String> = Vec::new();
    proof {
        lemma_filter_none(names@, |n: String| !among(group_by@, n@));
    }
    for i in 0..names.len()
        invariant
            r@ == aggregated(names@.take(i as int), group_by@),
    {
        proof {
            lemma_filter_step(names@, i as int, |n: String| !among(group_by@, n@));
        }
        if !has_key(group_by, names[i].as_str()) {
            r.push(names[i].clone());
        }
    }
    assert(names@.take(names@.len() as int) =~= names@);
    r
}

/// Whether `plan` is what an aggregate definition contributes.
pub open spec fn is_aggregate_part(source: LoadedSource, definition: LoadedDefinition, plan: AggregateModel) -> bool {
    match definition {
        LoadedDefinition::OneToOne { .. } => false,
        LoadedDefinition::Aggregate { target, qualified_target, field_names, group_by, source_columns, joins } => {
            &&& plan.target == target@
            &&& plan.qualified_target == qualified_target@
            &&& plan.source == source.qualified_source@
            &&& plan.field_names == aggregated(field_names@, group_by@)
            &&& plan.group_by == group_by@
            &&& plan.group_by_types == types_of(group_by@, source_columns@)
            &&& joins_sorted(plan.rel_joins, joins@)
        },
    }
}

/// The first definition, by source table and position, that is an aggregate
/// for `target`, among the first `n` of the last source table and all of the others.
pub open spec fn first_aggregate(sources: Seq<LoadedSource>, n: int, target: Seq<char>) -> Option<(int, int)>
    decreases sources.len(), n,
{
    if sources.len() == 0 {
        None
    } else if n <= 0 {
        let front = sources.drop_last();
        if front.len() == 0 {
            None
        } else {
            first_aggregate(front, front.last().definitions@.len() as int, target)
        }
    } else {
        match first_aggregate(sources, n - 1, target) {
            Some(found) => Some(found),
            None => match sources.last().definitions@[n - 1] {
                LoadedDefinition::Aggregate { target: t, .. } => if t@ == target {
                    Some((sources.len() - 1, n - 1))
                } else {
                    None
                },
                LoadedDefinition::OneToOne { .. } => None,
            },
        }
    }
}

/// Whether the aggregate plans are those of the definitions: one for each
/// aggregate target, as its first definition makes it.
pub open spec fn aggregates_planned(plans: Seq<AggregateModel>, sources: Seq<LoadedSource>, n: int) -> bool {
    &&& forall|i: int, j: int| 0 <= i < j < plans.len() ==> (#[trigger] plans[i]).target != (#[trigger] plans[j]).target
    &&& forall|target: Seq<char>|
        (#[trigger] first_aggregate(sources, n, target)) is Some <==> exists|i: int|
            0 <= i < plans.len() && (#[trigger] plans[i]).target == target
    &&& forall|i: int|
        0 <= i < plans.len() ==> {
            let at = first_aggregate(sources, n, (#[trigger] plans[i]).target)->0;
            &&& 0 <= at.0 < sources.len()
            &&& 0 <= at.1 < sources[at.0].definitions@.len()
            &&& is_aggregate_part(sources[at.0], sources[at.0].definitions@[at.1], plans[i])
        }
}

/// Whether a definition is an aggregate that reads through a to-many relationship.
pub open spec fn reads_to_many(definition: LoadedDefinition) -> bool {
    match definition {
        LoadedDefinition::OneToOne { .. } => false,
        LoadedDefinition::Aggregate { joins, .. } => exists|i: int|
            0 <= i < joins@.len() && (#[trigger] joins@[i]).cardinality is ToMany,
    }
}

/// Whether some definition is an aggregate that reads through a to-many relationship.
pub open spec fn some_reads_to_many(sources: Seq<LoadedSource>) -> bool {
    exists|i: int, j: int|
        0 <= i < sources.len() && 0 <= j < sources[i].definitions@.len() && reads_to_many(
            #[trigger] sources[i].definitions@[j],
        )
}

/// The from-side keys that the first `n` relationships of a source table reach.
pub open spec fn source_reverse(source: LoadedSource, n: int) -> Seq<Touched>
    decreases n,
{
    if n <= 0 {
        seq![]
    } else {
        let rel = source.relationships@[n - 1];
        source_reverse(source, n - 1) + from_side(
            join_touches(source.source_key@, rel.to_col@, source.changes@, source.rows@, source.old_rows@),
            source.source_key@,
            rel.from_table@,
            rel.matched@,
        )
    }
}

/// The from-side keys that all source tables' changes reach.
pub open spec fn all_source_reverse(sources: Seq<LoadedSource>) -> Seq<Touched>
    decreases sources.len(),
{
    if sources.len() == 0 {
        seq![]
    } else {
        all_source_reverse(sources.drop_last()) + source_reverse(
            sources.last(),
            sources.last().relationships@.len() as int,
        )
    }
}

/// The from-side keys that the first `n` relationships of a truncated table reach.
pub open spec fn truncate_reverse(t: LoadedTruncate, n: int) -> Seq<Touched>
    decreases n,
{
    if n <= 0 {
        seq![]
    } else {
        let rel = t.relationships@[n - 1];
        truncate_reverse(t, n - 1) + from_side_of_truncate(t.change, rel.from_table@, rel.from_keys@)
    }
}

/// The from-side keys that all truncates reach.
pub open spec fn all_truncate_reverse(truncates: Seq<LoadedTruncate>) -> Seq<Touched>
    decreases truncates.len(),
{
    if truncates.len() == 0 {
        seq![]
    } else {
        all_truncate_reverse(truncates.drop_last()) + truncate_reverse(
            truncates.last(),
            truncates.last().relationships@.len() as int,
        )
    }
}

/// The catalog versions of the source tables with keyed changes.
pub open spec fn source_versions(sources: Seq<LoadedSource>) -> Map<Seq<char>, Option<i64>>
    decreases sources.len(),
{
    if sources.len() == 0 {
        Map::empty()
    } else {
        source_versions(sources.drop_last()).insert(sources.last().source_key@, sources.last().version)
    }
}

/// The catalog versions of all source tables: a truncated one that is there
/// already keeps its version.
pub open spec fn all_versions(sources: Seq<LoadedSource>, truncates: Seq<LoadedTruncate>) -> Map<
    Seq<char>,
    Option<i64>,
>
    decreases truncates.len(),
{
    if truncates.len() == 0 {
        source_versions(sources)
    } else {
        let before = all_versions(sources, truncates.drop_last());
        if before.contains_key(truncates.last().source_key@) {
            before
        } else {
            before.insert(truncates.last().source_key@, truncates.last().version)
        }
    }
}

/// The target of a definition.
pub open spec fn target_of(definition: LoadedDefinition) -> Seq<char> {
    match definition {
        LoadedDefinition::OneToOne { target, .. } => target@,
        LoadedDefinition::Aggregate { target, .. } => target@,
    }
}

/// Each change, as applied by the target.
pub open spec fn applied_by(target: Seq<char>, changes: Seq<FoldedChange>) -> Seq<AppliedModel> {
    changes.map_values(|c: FoldedChange| AppliedModel { target, src_changed: c.src_changed })
}

/// What the first `n` definitions of a source table apply.
pub open spec fn source_applied(source: LoadedSource, n: int) -> Seq<AppliedModel>
    decreases n,
{
    if n <= 0 {
        seq![]
    } else {
        source_applied(source, n - 1) + applied_by(target_of(source.definitions@[n - 1]), source.changes@)
    }
}

/// What all definitions apply of the keyed changes: every change, once for each definition.
pub open spec fn all_source_applied(sources: Seq<LoadedSource>) -> Seq<AppliedModel>
    decreases sources.len(),
{
    if sources.len() == 0 {
        seq![]
    } else {
        all_source_applied(sources.drop_last()) + source_applied(
            sources.last(),
            sources.last().definitions@.len() as int,
        )
    }
}

/// What a truncate's readers apply: the truncate, once for each.
pub open spec fn truncate_applied(t: LoadedTruncate) -> Seq<AppliedModel> {
    t.readers@.map_values(
        |r: super::clears::TruncatedReader|
            AppliedModel { target: r.target@, src_changed: t.change.src_changed },
    )
}

/// What all definitions apply of the truncates.
pub open spec fn all_truncate_applied(truncates: Seq<LoadedTruncate>) -> Seq<AppliedModel>
    decreases truncates.len(),
{
    if truncates.len() == 0 {
        seq![]
    } else {
        all_truncate_applied(truncates.drop_last()) + truncate_applied(truncates.last())
    }
}

/// The joins by name, where all are to-one.
fn sorted_joins(joins: &Vec<LoadedJoin>) -> (r: Result<Vec<RelJoin>, ComputeError>)
    ensures
        r is Err <==> exists|i: int| 0 <= i < joins@.len() && (#[trigger] joins@[i]).cardinality is ToMany,
        r matches Ok(sorted) ==> joins_sorted(sorted@, joins@),
{
    broadcast use vstd::seq_lib::group_to_multiset_ensures;

    let mut sorted: Vec<RelJoin> = Vec::new();
    let ghost all = joins@.map_values(|j: LoadedJoin| j.join);
    assert(all.take(0) =~= seq![]);
    for n in 0..joins.len()
        invariant
            all == joins@.map_values(|j: LoadedJoin| j.join),
            forall|i: int| 0 <= i < n ==> !((#[trigger] joins@[i]).cardinality is ToMany),
            sorted@.to_multiset() == all.take(n as int).to_multiset(),
            forall|i: int, j: int|
                0 <= i < j < sorted@.len() ==> !text_less((#[trigger] sorted@[j]).name@, (#[trigger] sorted@[i]).name@),
    {
        let loaded = &joins[n];
        match loaded.cardinality {
            RelationshipCardinality::ToMany => {
                return Err(ComputeError::ToManyAggregate);
            },
            RelationshipCardinality::ToOne => {},
        }
        let join = RelJoin {
            name: loaded.join.name.clone(),
            to_table: loaded.join.to_table.clone(),
            to_col: loaded.join.to_col.clone(),
            from_col: loaded.join.from_col.clone(),
        };
        let ghost before = sorted@;
        let mut i: usize = sorted.len();
        while i > 0 && comes_before(join.name.as_str(), sorted[i - 1].name.as_str())
            invariant
                i <= sorted@.len(),
                sorted@ == before,
                forall|j: int| i <= j < sorted@.len() ==> text_less(join.name@, (#[trigger] sorted@[j]).name@),
            decreases i,
        {
            i = i - 1;
        }
        let ghost added = join;
        sorted.insert(i, join);
        proof {
            assert(added == all[n as int]);
            assert(all.take(n + 1) =~= all.take(n as int).push(added));
            assert(sorted@ == before.insert(i as int, added));
            vstd::seq_lib::to_multiset_insert(before, i as int, added);
            vstd::seq_lib::to_multiset_build(all.take(n as int), added);
            assert forall|a: int, b: int| 0 <= a < b < sorted@.len() implies !text_less(
                (#[trigger] sorted@[b]).name@,
                (#[trigger] sorted@[a]).name@,
            ) by {
                if b == i {
                    if a < i - 1 {
                        let top = before[i - 1].name@;
                        let low = before[a].name@;
                        assert(!text_less(top, low));
                        crate::order::lemma_less_total(low, top);
                        crate::order::lemma_less_total(added.name@, low);
                        if text_less(added.name@, low) {
                            if low == top {
                            } else {
                                crate::order::lemma_less_transitive(added.name@, low, top);
                            }
                        }
                    }
                } else if a == i {
                    assert(text_less(added.name@, before[b - 1].name@));
                    crate::order::lemma_less_total(added.name@, before[b - 1].name@);
                } else {
                    let x = if a < i {
                        a
                    } else {
                        a - 1
                    };
                    let y = if b < i {
                        b
                    } else {
                        b - 1
                    };
                    assert(!text_less(before[y].name@, before[x].name@));
                }
            }
        }
    }
    assert(all.take(joins@.len() as int) =~= all);
    Ok(sorted)
}

/// Adds an aggregate definition's plan where its target has none yet.
fn add_aggregate(
    plans: &mut Vec<AggregatePlan>,
    plan: AggregatePlan,
    Ghost(sources): Ghost<Seq<LoadedSource>>,
    Ghost(n): Ghost<int>,
)
    requires
        sources.len() > 0,
        0 <= n < sources.last().definitions@.len(),
        aggregates_planned(aggregates_view(old(plans)@), sources, n),
        is_aggregate_part(sources.last(), sources.last().definitions@[n], plan@),
    ensures
        aggregates_planned(aggregates_view(final(plans)@), sources, n + 1),
{
    let ghost before = aggregates_view(plans@);
    let mut i: usize = 0;
    while i < plans.len() && !same(plans[i].target.as_str(), plan.target.as_str())
        invariant
            i <= plans@.len(),
            before == aggregates_view(plans@),
            forall|j: int| 0 <= j < i ==> (#[trigger] before[j]).target != plan.target@,
        decreases plans@.len() - i,
    {
        i = i + 1;
    }
    let ghost part = plan@;
    if i < plans.len() {
        assert(before[i as int].target == part.target);
        assert(first_aggregate(sources, n, part.target) is Some);
        assert forall|target: Seq<char>|
            (#[trigger] first_aggregate(sources, n + 1, target)) is Some <==> exists|i: int|
                0 <= i < before.len() && (#[trigger] before[i]).target == target by {
            assert(first_aggregate(sources, n, target) is Some <==> exists|i: int|
                0 <= i < before.len() && (#[trigger] before[i]).target == target);
        }
    } else {
        plans.push(plan);
        proof {
            let after = aggregates_view(plans@);
            assert(after =~= before.push(part));
            assert(first_aggregate(sources, n, part.target) is None) by {
                if first_aggregate(sources, n, part.target) is Some {
                    let j = choose|j: int| 0 <= j < before.len() && (#[trigger] before[j]).target == part.target;
                    assert(before[j].target != part.target);
                }
            }
            assert forall|target: Seq<char>|
                (#[trigger] first_aggregate(sources, n + 1, target)) is Some <==> exists|i: int|
                    0 <= i < after.len() && (#[trigger] after[i]).target == target by {
                assert(first_aggregate(sources, n, target) is Some <==> exists|i: int|
                    0 <= i < before.len() && (#[trigger] before[i]).target == target);
                if first_aggregate(sources, n, target) is Some {
                    let j = choose|j: int| 0 <= j < before.len() && (#[trigger] before[j]).target == target;
                    assert(after[j].target == target);
                }
                if target == part.target {
                    assert(after[before.len() as int].target == target);
                }
                if exists|i: int| 0 <= i < after.len() && (#[trigger] after[i]).target == target {
                    let j = choose|j: int| 0 <= j < after.len() && (#[trigger] after[j]).target == target;
                    if j < before.len() {
                        assert(before[j].target == target);
                    }
                }
            }
            assert forall|j: int| 0 <= j < after.len() implies ({
                let at = first_aggregate(sources, n + 1, (#[trigger] after[j]).target)->0;
                &&& 0 <= at.0 < sources.len()
                &&& 0 <= at.1 < sources[at.0].definitions@.len()
                &&& is_aggregate_part(sources[at.0], sources[at.0].definitions@[at.1], after[j])
            }) by {
                if j < before.len() {
                    assert(after[j] == before[j]);
                    assert(before[j].target != part.target);
                    assert(first_aggregate(sources, n, before[j].target) is Some);
                }
            }
        }
    }
}

/// A copy of texts.
fn copy_texts(texts: &Vec<String>) -> (r: Vec<String>)
    ensures
        r@ == texts@,
{
    let mut r: Vec<String> = Vec::new();
    for i in 0..texts.len()
        invariant
            r@ == texts@.take(i as int),
    {
        r.push(texts[i].clone());
        assert(r@ =~= texts@.take(i + 1));
    }
    assert(texts@.take(texts@.len() as int) =~= texts@);
    r
}

/// Notes that a target applies each of the changes.
fn add_applied(out: &mut Vec<AppliedChange>, target: &str, changes: &Vec<FoldedChange>)
    ensures
        applied_view(final(out)@) == applied_view(old(out)@) + applied_by(target@, changes@),
{
    let ghost before = applied_view(out@);
    let ghost added = applied_by(target@, changes@);
    assert(before + added.take(0) =~= before);
    for i in 0..changes.len()
        invariant
            added == applied_by(target@, changes@),
            applied_view(out@) == before + added.take(i as int),
    {
        let ghost so_far = applied_view(out@);
        out.push(AppliedChange { target: target.to_owned(), src_changed: changes[i].src_changed });
        proof {
            assert(applied_view(out@) =~= so_far.push(added[i as int]));
            assert(before + added.take(i + 1) =~= (before + added.take(i as int)).push(added[i as int]));
        }
    }
    assert(added.take(changes@.len() as int) =~= added);
}

/// What the source tables' definitions contribute: to one-to-one targets, to
/// aggregate targets, and to the metrics.
fn plan_definitions(sources: &Vec<LoadedSource>) -> (r: Result<
    (Vec<TargetPlan>, Vec<AggregatePlan>, Vec<AppliedChange>),
    ComputeError,
>)
    requires
        forall|i: int| 0 <= i < sources@.len() ==> (#[trigger] sources@[i]).well_formed(),
    ensures
        r is Err <==> some_reads_to_many(sources@),
        r matches Ok((targets, aggregates, applied)) ==> {
            &&& plans_view(targets@) == gathered(all_parts(sources@))
            &&& all_aggregates_planned(aggregates_view(aggregates@), sources@)
            &&& applied_view(applied@) == all_source_applied(sources@)
        },
{
    let mut targets: Vec<TargetPlan> = Vec::new();
    let mut aggregates: Vec<AggregatePlan> = Vec::new();
    let mut applied: Vec<AppliedChange> = Vec::new();
    assert(plans_view(targets@) =~= seq![]);
    assert(aggregates_view(aggregates@) =~= seq![]);
    assert(applied_view(applied@) =~= seq![]);
    for i in 0..sources.len()
        invariant
            forall|i: int| 0 <= i < sources@.len() ==> (#[trigger] sources@[i]).well_formed(),
            plans_view(targets@) == gathered(all_parts(sources@.take(i as int))),
            all_aggregates_planned(aggregates_view(aggregates@), sources@.take(i as int)),
            applied_view(applied@) == all_source_applied(sources@.take(i as int)),
            !some_reads_to_many(sources@.take(i as int)),
    {
        let source = &sources[i];
        let ghost done = sources@.take(i as int);
        let ghost here = sources@.take(i + 1);
        proof {
            assert(here.drop_last() =~= done);
            assert(here.last() == *source);
            assert(all_parts(done) + source_parts(*source, 0) =~= all_parts(done));
            assert(all_source_applied(done) + source_applied(*source, 0) =~= all_source_applied(done));
            lemma_aggregates_start(aggregates_view(aggregates@), here);
        }
        for n in 0..source.definitions.len()
            invariant
                source.well_formed(),
                here.len() == i + 1,
                here.last() == *source,
                here.drop_last() == done,
                plans_view(targets@) == gathered(all_parts(done) + source_parts(*source, n as int)),
                aggregates_planned(aggregates_view(aggregates@), here, n as int),
                applied_view(applied@) == all_source_applied(done) + source_applied(*source, n as int),
                forall|j: int| 0 <= j < n ==> !reads_to_many(#[trigger] source.definitions@[j]),
                here == sources@.take(i + 1),
                i < sources@.len(),
                *source == sources@[i as int],
        {
            let definition = &source.definitions[n];
            let ghost so_far = all_parts(done) + source_parts(*source, n as int);
            match definition {
                LoadedDefinition::OneToOne {
                    target,
                    qualified_target,
                    field_names,
                    known_types,
                    paused,
                    evaluated,
                } => {
                    assert(match source.definitions@[n as int] {
                        LoadedDefinition::OneToOne { evaluated, .. } => evaluated@.len() == source.changes@.len(),
                        LoadedDefinition::Aggregate { .. } => true,
                    });
                    let types = field_types(field_names, known_types);
                    let (names, types) = unpaused_fields(field_names, &types, paused);
                    let (writes, deletes) = target_changes(&names, &source.changes, evaluated);
                    let part = TargetPlan {
                        target: target.clone(),
                        qualified_target: qualified_target.clone(),
                        pk: source.pk.duplicate(),
                        field_names: names,
                        field_types: types,
                        writes,
                        deletes,
                    };
                    let ghost model = part@;
                    add_part(&mut targets, part);
                    add_applied(&mut applied, target.as_str(), &source.changes);
                    proof {
                        let next = all_parts(done) + source_parts(*source, n + 1);
                        assert(next =~= so_far.push(model));
                        assert(so_far.push(model).drop_last() =~= so_far);
                        lemma_aggregates_skip(aggregates_view(aggregates@), here, n as int);
                    }
                },
                LoadedDefinition::Aggregate {
                    target,
                    qualified_target,
                    field_names,
                    group_by,
                    source_columns,
                    joins,
                } => {
                    let rel_joins = match sorted_joins(joins) {
                        Ok(rel_joins) => rel_joins,
                        Err(e) => {
                            assert(reads_to_many(sources@[i as int].definitions@[n as int]));
                            return Err(e);
                        },
                    };
                    let plan = AggregatePlan {
                        target: target.clone(),
                        qualified_target: qualified_target.clone(),
                        source: source.qualified_source.clone(),
                        field_names: aggregate_fields(field_names, group_by),
                        group_by: copy_texts(group_by),
                        group_by_types: field_types(group_by, source_columns),
                        rel_joins,
                    };
                    add_aggregate(&mut aggregates, plan, Ghost(here), Ghost(n as int));
                    add_applied(&mut applied, target.as_str(), &source.changes);
                },
            }
            assert(applied_view(applied@) =~= all_source_applied(done) + source_applied(*source, n + 1));
        }
        proof {
            assert(!some_reads_to_many(here)) by {
                if some_reads_to_many(here) {
                    let (a, b) = choose|a: int, b: int|
                        0 <= a < here.len() && 0 <= b < here[a].definitions@.len() && reads_to_many(
                            #[trigger] here[a].definitions@[b],
                        );
                    if a < i {
                        assert(done[a] == here[a]);
                        assert(reads_to_many(done[a].definitions@[b]));
                    } else {
                        assert(here[a] == *source);
                        assert(!reads_to_many(source.definitions@[b]));
                    }
                }
            }
        }
    }
    assert(sources@.take(sources@.len() as int) =~= sources@);
    Ok((targets, aggregates, applied))
}

/// Whether the aggregate plans are those of all definitions.
pub open spec fn all_aggregates_planned(plans: Seq<AggregateModel>, sources: Seq<LoadedSource>) -> bool {
    if sources.len() == 0 {
        plans.len() == 0
    } else {
        aggregates_planned(plans, sources, sources.last().definitions@.len() as int)
    }
}

proof fn lemma_aggregates_start(plans: Seq<AggregateModel>, sources: Seq<LoadedSource>)
    requires
        sources.len() > 0,
        all_aggregates_planned(plans, sources.drop_last()),
    ensures
        aggregates_planned(plans, sources, 0),
{
    let front = sources.drop_last();
    if front.len() > 0 {
        let n = front.last().definitions@.len() as int;
        assert forall|target: Seq<char>| #[trigger]
            first_aggregate(sources, 0, target) == first_aggregate(front, n, target) by {}
        assert forall|target: Seq<char>|
            (#[trigger] first_aggregate(sources, 0, target)) is Some <==> exists|i: int|
                0 <= i < plans.len() && (#[trigger] plans[i]).target == target by {
            assert(first_aggregate(front, n, target) is Some <==> exists|i: int|
                0 <= i < plans.len() && (#[trigger] plans[i]).target == target);
        }
        assert forall|i: int| 0 <= i < plans.len() implies ({
            let at = first_aggregate(sources, 0, (#[trigger] plans[i]).target)->0;
            &&& 0 <= at.0 < sources.len()
            &&& 0 <= at.1 < sources[at.0].definitions@.len()
            &&& is_aggregate_part(sources[at.0], sources[at.0].definitions@[at.1], plans[i])
        }) by {
            let at = first_aggregate(front, n, plans[i].target)->0;
            assert(first_aggregate(sources, 0, plans[i].target)->0 == at);
            assert(front[at.0] == sources[at.0]);
        }
    } else {
        assert forall|target: Seq<char>| (#[trigger] first_aggregate(sources, 0, target)) is None by {}
    }
}

proof fn lemma_aggregates_skip(plans: Seq<AggregateModel>, sources: Seq<LoadedSource>, n: int)
    requires
        sources.len() > 0,
        0 <= n < sources.last().definitions@.len(),
        sources.last().definitions@[n] is OneToOne,
        aggregates_planned(plans, sources, n),
    ensures
        aggregates_planned(plans, sources, n + 1),
{
    assert forall|target: Seq<char>| #[trigger]
        first_aggregate(sources, n + 1, target) == first_aggregate(sources, n, target) by {}
    assert forall|target: Seq<char>|
        (#[trigger] first_aggregate(sources, n + 1, target)) is Some <==> exists|i: int|
            0 <= i < plans.len() && (#[trigger] plans[i]).target == target by {
        assert(first_aggregate(sources, n, target) is Some <==> exists|i: int|
            0 <= i < plans.len() && (#[trigger] plans[i]).target == target);
    }
    assert forall|i: int| 0 <= i < plans.len() implies ({
        let at = first_aggregate(sources, n + 1, (#[trigger] plans[i]).target)->0;
        &&& 0 <= at.0 < sources.len()
        &&& 0 <= at.1 < sources[at.0].definitions@.len()
        &&& is_aggregate_part(sources[at.0], sources[at.0].definitions@[at.1], plans[i])
    }) by {
        assert(first_aggregate(sources, n + 1, plans[i].target) == first_aggregate(sources, n, plans[i].target));
    }
}

/// The from-side keys that changes and truncates reach, each once.
fn plan_reverse(sources: &Vec<LoadedSource>, truncates: &Vec<LoadedTruncate>) -> (r: Vec<Touch>)
    requires
        forall|i: int| 0 <= i < sources@.len() ==> (#[trigger] sources@[i]).well_formed(),
        forall|i: int| 0 <= i < truncates@.len() ==> (#[trigger] truncates@[i]).change.hop_gen < i32::MAX,
    ensures
        merges(touched(r@), all_source_reverse(sources@) + all_truncate_reverse(truncates@)),
{
    let mut found: Vec<Touch> = Vec::new();
    assert(touched(found@) =~= seq![]);
    for i in 0..sources.len()
        invariant
            forall|i: int| 0 <= i < sources@.len() ==> (#[trigger] sources@[i]).well_formed(),
            touched(found@) == all_source_reverse(sources@.take(i as int)),
    {
        let source = &sources[i];
        assert(sources@.take(i + 1).drop_last() =~= sources@.take(i as int));
        let ghost before = touched(found@);
        assert(before + source_reverse(*source, 0) =~= before);
        for n in 0..source.relationships.len()
            invariant
                source.well_formed(),
                touched(found@) == before + source_reverse(*source, n as int),
        {
            let rel = &source.relationships[n];
            let touches = join_key_touches(
                source.source_key.as_str(),
                rel.to_col.as_str(),
                &source.changes,
                &source.rows,
                &source.old_rows,
            );
            proof {
                lemma_join_touches_fit(
                    source.source_key@,
                    rel.to_col@,
                    source.changes@,
                    source.rows@,
                    source.old_rows@,
                );
            }
            add_from_side(
                &mut found,
                &touches,
                source.source_key.as_str(),
                rel.from_table.as_str(),
                &rel.matched,
            );
            assert(touched(found@) =~= before + source_reverse(*source, n + 1));
        }
    }
    assert(sources@.take(sources@.len() as int) =~= sources@);
    let ghost of_sources = all_source_reverse(sources@);
    assert(of_sources + all_truncate_reverse(truncates@.take(0)) =~= of_sources);
    for i in 0..truncates.len()
        invariant
            forall|i: int| 0 <= i < truncates@.len() ==> (#[trigger] truncates@[i]).change.hop_gen < i32::MAX,
            touched(found@) == of_sources + all_truncate_reverse(truncates@.take(i as int)),
    {
        let t = &truncates[i];
        assert(truncates@.take(i + 1).drop_last() =~= truncates@.take(i as int));
        let ghost before = touched(found@);
        assert(before + truncate_reverse(*t, 0) =~= before);
        for n in 0..t.relationships.len()
            invariant
                t.change.hop_gen < i32::MAX,
                touched(found@) == before + truncate_reverse(*t, n as int),
        {
            let rel = &t.relationships[n];
            add_from_side_of_truncate(&mut found, &t.change, rel.from_table.as_str(), &rel.from_keys);
            assert(touched(found@) =~= before + truncate_reverse(*t, n + 1));
        }
        assert(touched(found@) =~= of_sources + all_truncate_reverse(truncates@.take(i + 1)));
    }
    assert(truncates@.take(truncates@.len() as int) =~= truncates@);
    merge_touches(&found)
}

/// The catalog version of each source table.
fn plan_versions(sources: &Vec<LoadedSource>, truncates: &Vec<LoadedTruncate>) -> (r: TextMap<Option<i64>>)
    ensures
        r@ == all_versions(sources@, truncates@),
{
    let mut versions: TextMap<Option<i64>> = TextMap::new();
    for i in 0..sources.len()
        invariant
            versions@ == source_versions(sources@.take(i as int)),
    {
        assert(sources@.take(i + 1).drop_last() =~= sources@.take(i as int));
        versions = versions.insert(sources[i].source_key.clone(), sources[i].version);
    }
    assert(sources@.take(sources@.len() as int) =~= sources@);
    for i in 0..truncates.len()
        invariant
            versions@ == all_versions(sources@, truncates@.take(i as int)),
    {
        assert(truncates@.take(i + 1).drop_last() =~= truncates@.take(i as int));
        if !versions.contains(truncates[i].source_key.as_str()) {
            versions = versions.insert(truncates[i].source_key.clone(), truncates[i].version);
        }
    }
    assert(truncates@.take(truncates@.len() as int) =~= truncates@);
    versions
}

/// Notes what the truncates' readers apply.
fn add_truncates_applied(out: &mut Vec<AppliedChange>, truncates: &Vec<LoadedTruncate>)
    ensures
        applied_view(final(out)@) == applied_view(old(out)@) + all_truncate_applied(truncates@),
{
    let ghost start = applied_view(out@);
    assert(start + all_truncate_applied(truncates@.take(0)) =~= start);
    for i in 0..truncates.len()
        invariant
            applied_view(out@) == start + all_truncate_applied(truncates@.take(i as int)),
    {
        let t = &truncates[i];
        assert(truncates@.take(i + 1).drop_last() =~= truncates@.take(i as int));
        let ghost before = applied_view(out@);
        let ghost added = truncate_applied(*t);
        assert(before + added.take(0) =~= before);
        for n in 0..t.readers.len()
            invariant
                added == truncate_applied(*t),
                applied_view(out@) == before + added.take(n as int),
        {
            let ghost so_far = applied_view(out@);
            out.push(AppliedChange { target: t.readers[n].target.clone(), src_changed: t.change.src_changed });
            proof {
                assert(applied_view(out@) =~= so_far.push(added[n as int]));
                assert(before + added.take(n + 1) =~= (before + added.take(n as int)).push(added[n as int]));
            }
        }
        assert(added.take(t.readers@.len() as int) =~= added);
        assert(applied_view(out@) =~= start + all_truncate_applied(truncates@.take(i + 1)));
    }
    assert(truncates@.take(truncates@.len() as int) =~= truncates@);
}

/// Plans a batch: what every target gets, what is cleared, what is derived
/// again, and which changes each target applies. Which targets are read by
/// other definitions is not known yet; see [`ApplyPlan::with_readers`].
pub fn compute(
    sources: &Vec<LoadedSource>,
    truncates: &Vec<LoadedTruncate>,
    poisoned_park: Vec<FoldedChange>,
    applied_keys: Vec<(String, String)>,
) -> (r: Result<(ApplyPlan, Vec<AppliedChange>), ComputeError>)
    requires
        forall|i: int| 0 <= i < sources@.len() ==> (#[trigger] sources@[i]).well_formed(),
        forall|i: int| 0 <= i < truncates@.len() ==> (#[trigger] truncates@[i]).change.hop_gen < i32::MAX,
    ensures
        r is Err <==> some_reads_to_many(sources@),
        r matches Ok((plan, applied)) ==> {
            &&& plan.versions@ == all_versions(sources@, truncates@)
            &&& plans_view(plan.targets@) == gathered(all_parts(sources@))
            &&& all_aggregates_planned(aggregates_view(plan.aggregate_targets@), sources@)
            &&& plan.downstream_readers@ == Map::<Seq<char>, bool>::empty()
            &&& clears_view(plan.clears@) == all_clears(truncates@)
            &&& aggregate_clears_view(plan.aggregate_clears@) == all_aggregate_clears(truncates@)
            &&& plan.poisoned_park == poisoned_park
            &&& plan.applied_keys == applied_keys
            &&& merges(
                touched(plan.reverse_recomputes@),
                all_source_reverse(sources@) + all_truncate_reverse(truncates@),
            )
            &&& applied_view(applied@) == all_source_applied(sources@) + all_truncate_applied(truncates@)
        },
{
    let (targets, aggregate_targets, applied) = match plan_definitions(sources) {
        Ok(planned) => planned,
        Err(e) => {
            return Err(e);
        },
    };
    let mut applied = applied;
    add_truncates_applied(&mut applied, truncates);
    let versions = plan_versions(sources, truncates);
    let (clears, aggregate_clears) = plan_clears(truncates);
    let reverse_recomputes = plan_reverse(sources, truncates);
    Ok(
        (
            ApplyPlan {
                versions,
                targets,
                aggregate_targets,
                downstream_readers: TextMap::new(),
                clears,
                aggregate_clears,
                poisoned_park,
                applied_keys,
                reverse_recomputes,
            },
            applied,
        ),
    )
}

proof fn lemma_change_is_planned(names: Seq<String>, changes: Seq<FoldedChange>, evaluated: Seq<Option<Row>>, k: int)
    requires
        changes.len() == evaluated.len(),
        0 <= k < changes.len(),
    ensures
        match evaluated[k] {
            Some(row) => writes_of(names, changes, evaluated).contains(
                WriteModel {
                    key: changes[k].key@,
                    values: values_of(names, row),
                    hop_gen: changes[k].hop_gen,
                    src_changed: changes[k].src_changed,
                },
            ),
            None => deletes_of(changes, evaluated).contains(
                DeleteModel {
                    key: changes[k].key@,
                    hop_gen: changes[k].hop_gen,
                    src_changed: changes[k].src_changed,
                },
            ),
        },
    decreases changes.len(),
{
    let front = changes.drop_last();
    let front_evaluated = evaluated.drop_last();
    let writes = writes_of(names, changes, evaluated);
    let deletes = deletes_of(changes, evaluated);
    if k < front.len() {
        lemma_change_is_planned(names, front, front_evaluated, k);
        let writes_before = writes_of(names, front, front_evaluated);
        let deletes_before = deletes_of(front, front_evaluated);
        match evaluated[k] {
            Some(row) => {
                let w = WriteModel {
                    key: changes[k].key@,
                    values: values_of(names, row),
                    hop_gen: changes[k].hop_gen,
                    src_changed: changes[k].src_changed,
                };
                let i = choose|i: int| 0 <= i < writes_before.len() && writes_before[i] == w;
                assert(writes[i] == w);
            },
            None => {
                let d = DeleteModel {
                    key: changes[k].key@,
                    hop_gen: changes[k].hop_gen,
                    src_changed: changes[k].src_changed,
                };
                let i = choose|i: int| 0 <= i < deletes_before.len() && deletes_before[i] == d;
                assert(deletes[i] == d);
            },
        }
    } else {
        match evaluated[k] {
            Some(_) => {
                assert(writes[writes.len() - 1] == writes.last());
            },
            None => {
                assert(deletes[deletes.len() - 1] == deletes.last());
            },
        }
    }
}

proof fn lemma_part_is_listed(sources: Seq<LoadedSource>, i: int, n: int)
    requires
        0 <= i < sources.len(),
        0 <= n < sources[i].definitions@.len(),
        part_of(sources[i], sources[i].definitions@[n]) is Some,
    ensures
        all_parts(sources).contains(part_of(sources[i], sources[i].definitions@[n])->0),
    decreases sources.len(),
{
    let part = part_of(sources[i], sources[i].definitions@[n])->0;
    let front = sources.drop_last();
    let last = sources.last();
    let count = last.definitions@.len() as int;
    let all = all_parts(sources);
    let before = all_parts(front);
    let own = source_parts(last, count);
    if i < front.len() {
        lemma_part_is_listed(front, i, n);
        let p = choose|p: int| 0 <= p < before.len() && before[p] == part;
        assert(all[p] == part);
    } else {
        lemma_source_part_is_listed(last, n, count);
        let p = choose|p: int| 0 <= p < own.len() && own[p] == part;
        assert(all[before.len() + p] == part);
    }
}

proof fn lemma_source_part_is_listed(source: LoadedSource, n: int, count: int)
    requires
        0 <= n < count <= source.definitions@.len(),
        part_of(source, source.definitions@[n]) is Some,
    ensures
        source_parts(source, count).contains(part_of(source, source.definitions@[n])->0),
    decreases count,
{
    let part = part_of(source, source.definitions@[n])->0;
    let all = source_parts(source, count);
    let before = source_parts(source, count - 1);
    if n < count - 1 {
        lemma_source_part_is_listed(source, n, count - 1);
        let p = choose|p: int| 0 <= p < before.len() && before[p] == part;
        assert(all[p] == part);
    } else {
        assert(all[before.len() as int] == part);
    }
}

proof fn lemma_part_is_gathered(parts: Seq<PlanModel>, p: int)
    requires
        0 <= p < parts.len(),
    ensures
        forall|w: WriteModel| #[trigger] parts[p].writes.contains(w) ==> writes_for(parts, parts[p].target).contains(w),
        forall|d: DeleteModel| #[trigger]
            parts[p].deletes.contains(d) ==> deletes_for(parts, parts[p].target).contains(d),
    decreases parts.len(),
{
    let target = parts[p].target;
    let front = parts.drop_last();
    let last = parts.last();
    let writes = writes_for(parts, target);
    let deletes = deletes_for(parts, target);
    let writes_before = writes_for(front, target);
    let deletes_before = deletes_for(front, target);
    if p < front.len() {
        lemma_part_is_gathered(front, p);
        assert(front[p] == parts[p]);
    }
    assert forall|w: WriteModel| #[trigger] parts[p].writes.contains(w) implies writes.contains(w) by {
        if p < front.len() {
            assert(writes_before.contains(w));
            let i = choose|i: int| 0 <= i < writes_before.len() && writes_before[i] == w;
            assert(writes[i] == w);
        } else {
            let i = choose|i: int| 0 <= i < last.writes.len() && last.writes[i] == w;
            assert(writes[writes_before.len() + i] == w);
        }
    }
    assert forall|d: DeleteModel| #[trigger] parts[p].deletes.contains(d) implies deletes.contains(d) by {
        if p < front.len() {
            assert(deletes_before.contains(d));
            let i = choose|i: int| 0 <= i < deletes_before.len() && deletes_before[i] == d;
            assert(deletes[i] == d);
        } else {
            let i = choose|i: int| 0 <= i < last.deletes.len() && last.deletes[i] == d;
            assert(deletes[deletes_before.len() + i] == d);
        }
    }
}

/// Every change of a source table reaches the target of every one-to-one
/// definition that reads it: the target's plan writes the key where its row was
/// evaluated, and deletes it where the row is gone, at the change's hop count
/// and with its origin.
pub proof fn law_every_change_reaches_its_targets(sources: Seq<LoadedSource>, i: int, n: int, k: int)
    requires
        0 <= i < sources.len(),
        0 <= n < sources[i].definitions@.len(),
        sources[i].well_formed(),
        sources[i].definitions@[n] is OneToOne,
        0 <= k < sources[i].changes@.len(),
    ensures
        ({
            let part = part_of(sources[i], sources[i].definitions@[n])->0;
            let plans = gathered(all_parts(sources));
            let p = plan_position(plans, part.target);
            let change = sources[i].changes@[k];
            let evaluated = match sources[i].definitions@[n] {
                LoadedDefinition::OneToOne { evaluated, .. } => evaluated@,
                LoadedDefinition::Aggregate { .. } => seq![],
            };
            &&& 0 <= p < plans.len()
            &&& plans[p].target == part.target
            &&& match evaluated[k] {
                Some(row) => plans[p].writes.contains(
                    WriteModel {
                        key: change.key@,
                        values: values_of(part.field_names, row),
                        hop_gen: change.hop_gen,
                        src_changed: change.src_changed,
                    },
                ),
                None => plans[p].deletes.contains(
                    DeleteModel { key: change.key@, hop_gen: change.hop_gen, src_changed: change.src_changed },
                ),
            }
        }),
{
    let source = sources[i];
    let definition = source.definitions@[n];
    let part = part_of(source, definition)->0;
    let parts = all_parts(sources);
    lemma_part_is_listed(sources, i, n);
    let q = choose|q: int| 0 <= q < parts.len() && parts[q] == part;
    law_gathering_keeps_every_change(parts, part.target);
    assert(parts[q].target == part.target);
    lemma_part_is_gathered(parts, q);
    if let LoadedDefinition::OneToOne { target, qualified_target, field_names, known_types, paused, evaluated } = definition {
        assert(source.definitions@[n] == definition);
        assert(evaluated@.len() == source.changes@.len());
        lemma_change_is_planned(part.field_names, source.changes@, evaluated@, k);
        let change = source.changes@[k];
        match evaluated@[k] {
            Some(row) => {
                let w = WriteModel {
                    key: change.key@,
                    values: values_of(part.field_names, row),
                    hop_gen: change.hop_gen,
                    src_changed: change.src_changed,
                };
                assert(parts[q].writes.contains(w));
                assert(writes_for(parts, part.target).contains(w));
            },
            None => {
                let d = DeleteModel { key: change.key@, hop_gen: change.hop_gen, src_changed: change.src_changed };
                assert(parts[q].deletes.contains(d));
                assert(deletes_for(parts, part.target).contains(d));
            },
        }
    }
}

proof fn lemma_match_is_listed(sources: Seq<LoadedSource>, i: int, n: int, m: int)
    requires
        0 <= i < sources.len(),
        0 <= n < sources[i].relationships@.len(),
        0 <= m < sources[i].relationships@[n].matched@.len(),
    ensures
        all_source_reverse(sources).contains(reverse_touch(sources[i], sources[i].relationships@[n], m)),
    decreases sources.len(),
{
    let t = reverse_touch(sources[i], sources[i].relationships@[n], m);
    let front = sources.drop_last();
    let last = sources.last();
    let count = last.relationships@.len() as int;
    let all = all_source_reverse(sources);
    let before = all_source_reverse(front);
    let own = source_reverse(last, count);
    if i < front.len() {
        lemma_match_is_listed(front, i, n, m);
        let p = choose|p: int| 0 <= p < before.len() && before[p] == t;
        assert(all[p] == t);
    } else {
        lemma_source_match_is_listed(last, n, m, count);
        let p = choose|p: int| 0 <= p < own.len() && own[p] == t;
        assert(all[before.len() + p] == t);
    }
}

proof fn lemma_source_match_is_listed(source: LoadedSource, n: int, m: int, count: int)
    requires
        0 <= n < count <= source.relationships@.len(),
        0 <= m < source.relationships@[n].matched@.len(),
    ensures
        source_reverse(source, count).contains(reverse_touch(source, source.relationships@[n], m)),
    decreases count,
{
    let t = reverse_touch(source, source.relationships@[n], m);
    let all = source_reverse(source, count);
    let before = source_reverse(source, count - 1);
    if n < count - 1 {
        lemma_source_match_is_listed(source, n, m, count - 1);
        let p = choose|p: int| 0 <= p < before.len() && before[p] == t;
        assert(all[p] == t);
    } else {
        assert(all[before.len() + m] == t);
    }
}

/// The touch of a from-side row through a relationship.
pub open spec fn reverse_touch(source: LoadedSource, rel: LoadedRelationship, m: int) -> Touched {
    from_side(
        join_touches(source.source_key@, rel.to_col@, source.changes@, source.rows@, source.old_rows@),
        source.source_key@,
        rel.from_table@,
        rel.matched@,
    )[m]
}

/// Every row that reads a changed related row is derived again, at least one
/// hop behind the change, and once.
pub proof fn law_related_rows_are_derived_again(
    sources: Seq<LoadedSource>,
    truncates: Seq<LoadedTruncate>,
    merged: Seq<Touched>,
    i: int,
    n: int,
    m: int,
)
    requires
        merges(merged, all_source_reverse(sources) + all_truncate_reverse(truncates)),
        0 <= i < sources.len(),
        0 <= n < sources[i].relationships@.len(),
        0 <= m < sources[i].relationships@[n].matched@.len(),
    ensures
        ({
            let t = reverse_touch(sources[i], sources[i].relationships@[n], m);
            exists|r: int|
                0 <= r < merged.len() && (#[trigger] merged[r]).is_of(t.table, t.key) && merged[r].hop_gen >= t.hop_gen
                    && forall|q: int| 0 <= q < merged.len() && (#[trigger] merged[q]).is_of(t.table, t.key) ==> q == r
        }),
{
    let all = all_source_reverse(sources) + all_truncate_reverse(truncates);
    let first = all_source_reverse(sources);
    let t = reverse_touch(sources[i], sources[i].relationships@[n], m);
    lemma_match_is_listed(sources, i, n, m);
    let p = choose|p: int| 0 <= p < first.len() && first[p] == t;
    assert(all[p] == t);
    assert(all[p].is_of(t.table, t.key));
    law_deepest_hop_wins(all, t.table, t.key);
    assert(touches_key(all, t.table, t.key));
    assert(touches_key(merged, t.table, t.key));
    let r = choose|r: int| 0 <= r < merged.len() && (#[trigger] merged[r]).is_of(t.table, t.key);
    assert(deepest_hop(all, merged[r].table, merged[r].key) == Some(merged[r].hop_gen));
    assert forall|q: int| 0 <= q < merged.len() && (#[trigger] merged[q]).is_of(t.table, t.key) implies q == r by {
        if q < r {
            assert(!merged[q].is_of(merged[r].table, merged[r].key));
        } else if r < q {
            assert(!merged[r].is_of(merged[q].table, merged[q].key));
        }
    }
}

/// A one-to-one definition plans, for its target, its fields that are not paused,
/// and writes and deletes for the source table's changes, under the source table's
/// primary key; an aggregate has no such part.
pub proof fn law_a_definition_plans_its_target(source: LoadedSource, definition: LoadedDefinition)
    ensures
        definition is Aggregate ==> part_of(source, definition) is None,
        match definition {
            LoadedDefinition::OneToOne { target, qualified_target, field_names, known_types, paused, evaluated } => {
                let part = part_of(source, definition)->0;
                &&& part_of(source, definition) is Some
                &&& part.target == target@
                &&& part.qualified_target == qualified_target@
                &&& part.pk == source.pk
                &&& part.field_names == unpaused_names(field_names@, paused@)
                &&& part.field_types == unpaused_types(field_names@, types_of(field_names@, known_types@), paused@)
                &&& part.writes == writes_of(part.field_names, source.changes@, evaluated@)
                &&& part.deletes == deletes_of(source.changes@, evaluated@)
            },
            LoadedDefinition::Aggregate { .. } => true,
        },
{
}

proof fn lemma_source_parts(source: LoadedSource, n: int, part: PlanModel)
    requires
        0 <= n <= source.definitions@.len(),
    ensures
        source_parts(source, n).contains(part) <==> exists|k: int|
            0 <= k < n && part_of(source, #[trigger] source.definitions@[k]) == Some(part),
    decreases n,
{
    if n > 0 {
        lemma_source_parts(source, n - 1, part);
        let before = source_parts(source, n - 1);
        let all = source_parts(source, n);
        if before.contains(part) {
            let i = choose|i: int| 0 <= i < before.len() && before[i] == part;
            assert(all[i] == part);
        }
        if part_of(source, source.definitions@[n - 1]) == Some(part) {
            assert(all[before.len() as int] == part);
        }
        if all.contains(part) {
            let i = choose|i: int| 0 <= i < all.len() && all[i] == part;
            if i < before.len() {
                assert(before[i] == part);
            }
        }
    }
}

/// The parts of a plan are those of the definitions that read the source tables,
/// and no others.
pub proof fn law_parts_come_from_definitions(sources: Seq<LoadedSource>, part: PlanModel)
    ensures
        all_parts(sources).contains(part) <==> exists|i: int, k: int|
            0 <= i < sources.len() && 0 <= k < sources[i].definitions@.len() && part_of(
                sources[i],
                #[trigger] sources[i].definitions@[k],
            ) == Some(part),
    decreases sources.len(),
{
    if sources.len() > 0 {
        let front = sources.drop_last();
        let last = sources.last();
        law_parts_come_from_definitions(front, part);
        let n = last.definitions@.len() as int;
        lemma_source_parts(last, n, part);
        let before = all_parts(front);
        let own = source_parts(last, n);
        let all = all_parts(sources);
        if before.contains(part) {
            let m = choose|m: int| 0 <= m < before.len() && before[m] == part;
            assert(all[m] == part);
            let (i, k) = choose|i: int, k: int|
                0 <= i < front.len() && 0 <= k < front[i].definitions@.len() && part_of(
                    front[i],
                    #[trigger] front[i].definitions@[k],
                ) == Some(part);
            assert(sources[i].definitions@[k] == front[i].definitions@[k]);
        }
        if own.contains(part) {
            let m = choose|m: int| 0 <= m < own.len() && own[m] == part;
            assert(all[before.len() + m] == part);
            let k = choose|k: int| 0 <= k < n && part_of(last, #[trigger] last.definitions@[k]) == Some(part);
            assert(sources[sources.len() - 1].definitions@[k] == last.definitions@[k]);
        }
        if all.contains(part) {
            let m = choose|m: int| 0 <= m < all.len() && all[m] == part;
            if m < before.len() {
                assert(before[m] == part);
            } else {
                assert(own[m - before.len()] == part);
            }
        }
        if exists|i: int, k: int|
            0 <= i < sources.len() && 0 <= k < sources[i].definitions@.len() && part_of(
                sources[i],
                #[trigger] sources[i].definitions@[k],
            ) == Some(part) {
            let (i, k) = choose|i: int, k: int|
                0 <= i < sources.len() && 0 <= k < sources[i].definitions@.len() && part_of(
                    sources[i],
                    #[trigger] sources[i].definitions@[k],
                ) == Some(part);
            if i < front.len() {
                assert(front[i].definitions@[k] == sources[i].definitions@[k]);
            } else {
                assert(last.definitions@[k] == sources[i].definitions@[k]);
            }
        }
    }
}

/// Whether a source table is among those loaded.
pub open spec fn is_source(sources: Seq<LoadedSource>, key: Seq<char>) -> bool {
    exists|i: int| 0 <= i < sources.len() && (#[trigger] sources[i]).source_key@ == key
}

/// Whether a table is among those truncated.
pub open spec fn is_truncated(truncates: Seq<LoadedTruncate>, key: Seq<char>) -> bool {
    exists|i: int| 0 <= i < truncates.len() && (#[trigger] truncates[i]).source_key@ == key
}

proof fn lemma_source_has_version(sources: Seq<LoadedSource>, key: Seq<char>)
    ensures
        source_versions(sources).contains_key(key) <==> is_source(sources, key),
    decreases sources.len(),
{
    if sources.len() > 0 {
        let front = sources.drop_last();
        let n = sources.len() - 1;
        lemma_source_has_version(front, key);
        if is_source(front, key) {
            let i = choose|i: int| 0 <= i < front.len() && (#[trigger] front[i]).source_key@ == key;
            assert(sources[i].source_key@ == key);
        }
        if sources[n].source_key@ == key {
            assert(is_source(sources, key));
        }
        if is_source(sources, key) && sources[n].source_key@ != key {
            let i = choose|i: int| 0 <= i < sources.len() && (#[trigger] sources[i]).source_key@ == key;
            assert(front[i].source_key@ == key);
        }
    }
}

proof fn lemma_last_source_has_the_version(sources: Seq<LoadedSource>, key: Seq<char>, i: int)
    requires
        0 <= i < sources.len(),
        sources[i].source_key@ == key,
        forall|j: int| i < j < sources.len() ==> (#[trigger] sources[j]).source_key@ != key,
    ensures
        source_versions(sources).contains_key(key),
        source_versions(sources)[key] == sources[i].version,
    decreases sources.len(),
{
    let front = sources.drop_last();
    let n = sources.len() - 1;
    if i < n {
        assert(sources[n].source_key@ != key);
        assert(front[i] == sources[i]);
        assert forall|j: int| i < j < front.len() implies (#[trigger] front[j]).source_key@ != key by {
            assert(sources[j].source_key@ != key);
        }
        lemma_last_source_has_the_version(front, key, i);
    }
}

/// Every source table and every truncated table has its version checked, and no
/// other.
pub proof fn law_versions_are_checked(sources: Seq<LoadedSource>, truncates: Seq<LoadedTruncate>, key: Seq<char>)
    ensures
        all_versions(sources, truncates).contains_key(key) <==> is_source(sources, key) || is_truncated(truncates, key),
    decreases truncates.len(),
{
    if truncates.len() == 0 {
        lemma_source_has_version(sources, key);
    } else {
        let front = truncates.drop_last();
        let n = truncates.len() - 1;
        law_versions_are_checked(sources, front, key);
        if is_truncated(front, key) {
            let i = choose|i: int| 0 <= i < front.len() && (#[trigger] front[i]).source_key@ == key;
            assert(truncates[i].source_key@ == key);
        }
        if truncates[n].source_key@ == key {
            assert(is_truncated(truncates, key));
        }
        if is_truncated(truncates, key) && truncates[n].source_key@ != key {
            let i = choose|i: int| 0 <= i < truncates.len() && (#[trigger] truncates[i]).source_key@ == key;
            assert(front[i].source_key@ == key);
        }
    }
}

/// The version of a source table is the one that was read last, whatever was
/// truncated.
pub proof fn law_source_versions_count(
    sources: Seq<LoadedSource>,
    truncates: Seq<LoadedTruncate>,
    key: Seq<char>,
    i: int,
)
    requires
        0 <= i < sources.len(),
        sources[i].source_key@ == key,
        forall|j: int| i < j < sources.len() ==> (#[trigger] sources[j]).source_key@ != key,
    ensures
        all_versions(sources, truncates).contains_key(key),
        all_versions(sources, truncates)[key] == sources[i].version,
    decreases truncates.len(),
{
    if truncates.len() == 0 {
        lemma_last_source_has_the_version(sources, key, i);
    } else {
        law_source_versions_count(sources, truncates.drop_last(), key, i);
    }
}

/// The version of a truncated table that is no source table is the one that was
/// read first.
pub proof fn law_truncated_versions_count(
    sources: Seq<LoadedSource>,
    truncates: Seq<LoadedTruncate>,
    key: Seq<char>,
    i: int,
)
    requires
        !is_source(sources, key),
        0 <= i < truncates.len(),
        truncates[i].source_key@ == key,
        forall|j: int| 0 <= j < i ==> (#[trigger] truncates[j]).source_key@ != key,
    ensures
        all_versions(sources, truncates).contains_key(key),
        all_versions(sources, truncates)[key] == truncates[i].version,
    decreases truncates.len(),
{
    let front = truncates.drop_last();
    let n = truncates.len() - 1;
    law_versions_are_checked(sources, front, key);
    if i < n {
        assert(front[i] == truncates[i]);
        assert forall|j: int| 0 <= j < i implies (#[trigger] front[j]).source_key@ != key by {
            assert(truncates[j].source_key@ != key);
        }
        law_truncated_versions_count(sources, front, key, i);
    } else {
        assert(!is_truncated(front, key)) by {
            if is_truncated(front, key) {
                let j = choose|j: int| 0 <= j < front.len() && (#[trigger] front[j]).source_key@ == key;
                assert(truncates[j].source_key@ != key);
            }
        }
    }
}

/// Every change counts as applied by every definition that reads its table, an
/// aggregate too, with its origin; every truncate by every reader.
pub proof fn law_changes_count_for_every_reader(source: LoadedSource, t: LoadedTruncate, d: int, k: int, r: int)
    requires
        0 <= d < source.definitions@.len(),
        0 <= k < source.changes@.len(),
        0 <= r < t.readers@.len(),
    ensures
        source_applied(source, source.definitions@.len() as int).len() == source.definitions@.len()
            * source.changes@.len(),
        0 <= d * source.changes@.len() + k < source.definitions@.len() * source.changes@.len(),
        source_applied(source, source.definitions@.len() as int)[d * source.changes@.len() + k] == (AppliedModel {
            target: match source.definitions@[d] {
                LoadedDefinition::OneToOne { target, .. } => target@,
                LoadedDefinition::Aggregate { target, .. } => target@,
            },
            src_changed: source.changes@[k].src_changed,
        }),
        truncate_applied(t).len() == t.readers@.len(),
        truncate_applied(t)[r] == (AppliedModel {
            target: t.readers@[r].target@,
            src_changed: t.change.src_changed,
        }),
{
    lemma_source_applied(source, source.definitions@.len() as int, d, k);
}

proof fn lemma_source_applied(source: LoadedSource, n: int, d: int, k: int)
    requires
        0 <= d < n <= source.definitions@.len(),
        0 <= k < source.changes@.len(),
    ensures
        source_applied(source, n).len() == n * source.changes@.len(),
        0 <= d * source.changes@.len() + k < n * source.changes@.len(),
        source_applied(source, n)[d * source.changes@.len() + k] == (AppliedModel {
            target: target_of(source.definitions@[d]),
            src_changed: source.changes@[k].src_changed,
        }),
    decreases n,
{
    let len = source.changes@.len() as int;
    assert(n * len == (n - 1) * len + len) by (nonlinear_arith);
    assert(d * len + k < n * len) by (nonlinear_arith)
        requires
            d <= n - 1,
            0 <= k < len,
    ;
    assert(0 <= d * len) by (nonlinear_arith)
        requires
            d >= 0,
            len >= 0,
    ;
    if n - 1 > 0 {
        let at = if d < n - 1 {
            d
        } else {
            0
        };
        lemma_source_applied(source, n - 1, at, k);
    } else {
        assert(source_applied(source, 0).len() == 0);
        assert((n - 1) * len == 0) by (nonlinear_arith)
            requires
                n == 1,
        ;
    }
    let before = source_applied(source, n - 1);
    assert(before.len() == (n - 1) * len);
    if d == n - 1 {
        assert(source_applied(source, n)[d * len + k] == applied_by(
            target_of(source.definitions@[n - 1]),
            source.changes@,
        )[k]);
    } else {
        assert(d * len + k < (n - 1) * len) by (nonlinear_arith)
            requires
                d <= n - 2,
                0 <= k < len,
        ;
    }
}

/// What is applied goes source table by source table, then truncate by truncate.
pub proof fn law_applied_changes_come_in_order(
    sources: Seq<LoadedSource>,
    source: LoadedSource,
    truncates: Seq<LoadedTruncate>,
    t: LoadedTruncate,
)
    ensures
        all_source_applied(sources.push(source)) == all_source_applied(sources) + source_applied(
            source,
            source.definitions@.len() as int,
        ),
        all_truncate_applied(truncates.push(t)) == all_truncate_applied(truncates) + truncate_applied(t),
        all_source_applied(Seq::empty()).len() == 0,
        all_truncate_applied(Seq::empty()).len() == 0,
{
    assert(sources.push(source).drop_last() =~= sources);
    assert(truncates.push(t).drop_last() =~= truncates);
}

/// A plan is refused exactly where an aggregate reads through a relationship whose
/// related rows are not unique.
pub proof fn law_aggregates_over_many_are_refused(sources: Seq<LoadedSource>)
    ensures
        some_reads_to_many(sources) <==> exists|i: int, d: int, k: int|
            0 <= i < sources.len() && 0 <= d < sources[i].definitions@.len() && (
            sources[i].definitions@[d] matches LoadedDefinition::Aggregate { joins, .. } && 0 <= k < joins@.len() && (
            #[trigger] joins_of(sources[i].definitions@[d])[k]).cardinality is ToMany),
{
    if some_reads_to_many(sources) {
        let (i, d) = choose|i: int, d: int|
            0 <= i < sources.len() && 0 <= d < sources[i].definitions@.len() && reads_to_many(
                #[trigger] sources[i].definitions@[d],
            );
        let joins = joins_of(sources[i].definitions@[d]);
        let k = choose|k: int| 0 <= k < joins.len() && (#[trigger] joins[k]).cardinality is ToMany;
        assert(joins_of(sources[i].definitions@[d])[k].cardinality is ToMany);
    }
    if exists|i: int, d: int, k: int|
        0 <= i < sources.len() && 0 <= d < sources[i].definitions@.len() && (
        sources[i].definitions@[d] matches LoadedDefinition::Aggregate { joins, .. } && 0 <= k < joins@.len() && (
        #[trigger] joins_of(sources[i].definitions@[d])[k]).cardinality is ToMany) {
        let (i, d, k) = choose|i: int, d: int, k: int|
            0 <= i < sources.len() && 0 <= d < sources[i].definitions@.len() && (
            sources[i].definitions@[d] matches LoadedDefinition::Aggregate { joins, .. } && 0 <= k < joins@.len() && (
            #[trigger] joins_of(sources[i].definitions@[d])[k]).cardinality is ToMany);
        let joins = joins_of(sources[i].definitions@[d]);
        assert(joins[k].cardinality is ToMany);
        assert(reads_to_many(sources[i].definitions@[d]));
    }
}

/// The relationships that an aggregate reads through.
pub open spec fn joins_of(definition: LoadedDefinition) -> Seq<LoadedJoin> {
    match definition {
        LoadedDefinition::OneToOne { .. } => seq![],
        LoadedDefinition::Aggregate { joins, .. } => joins@,
    }
}

/// An aggregate's plan has its own target, the source table with its schema, its
/// grouping columns with their types, the fields that are no grouping columns, and
/// each of its relationships, by name.
pub proof fn law_an_aggregate_plans_its_target(source: LoadedSource, definition: LoadedDefinition, plan: AggregateModel)
    requires
        is_aggregate_part(source, definition, plan),
    ensures
        definition is Aggregate,
        match definition {
            LoadedDefinition::OneToOne { .. } => false,
            LoadedDefinition::Aggregate { target, qualified_target, field_names, group_by, source_columns, joins } => {
                &&& plan.target == target@
                &&& plan.qualified_target == qualified_target@
                &&& plan.source == source.qualified_source@
                &&& plan.group_by == group_by@
                &&& plan.group_by_types.len() == group_by@.len()
                &&& forall|n: String| #[trigger]
                    plan.field_names.contains(n) <==> field_names@.contains(n) && !among(group_by@, n@)
                &&& plan.rel_joins.to_multiset() == joins@.map_values(|j: LoadedJoin| j.join).to_multiset()
                &&& forall|i: int, j: int|
                    0 <= i < j < plan.rel_joins.len() ==> !text_less(
                        (#[trigger] plan.rel_joins[j]).name@,
                        (#[trigger] plan.rel_joins[i]).name@,
                    )
            },
        },
{
    match definition {
        LoadedDefinition::OneToOne { .. } => {},
        LoadedDefinition::Aggregate { field_names, group_by, .. } => {
            assert forall|n: String| #[trigger] plan.field_names.contains(n) <==> field_names@.contains(n) && !among(
                group_by@,
                n@,
            ) by {
                lemma_filter_contains(field_names@, n, |n: String| !among(group_by@, n@));
            }
        },
    }
}

/// After a truncate, each row that read the table through a relationship is derived
/// again, at least one hop behind the truncate, and once.
pub proof fn law_truncated_relations_are_derived_again(
    sources: Seq<LoadedSource>,
    truncates: Seq<LoadedTruncate>,
    merged: Seq<Touched>,
    i: int,
    n: int,
    k: int,
)
    requires
        merges(merged, all_source_reverse(sources) + all_truncate_reverse(truncates)),
        0 <= i < truncates.len(),
        truncates[i].change.hop_gen < i32::MAX,
        0 <= n < truncates[i].relationships@.len(),
        0 <= k < truncates[i].relationships@[n].from_keys@.len(),
    ensures
        exists|r: int|
            0 <= r < merged.len() && (#[trigger] merged[r]).table == truncates[i].relationships@[n].from_table@
                && merged[r].key == truncates[i].relationships@[n].from_keys@[k]@ && merged[r].hop_gen
                > truncates[i].change.hop_gen,
{
    let first = all_source_reverse(sources);
    let second = all_truncate_reverse(truncates);
    let all = first + second;
    let rel = truncates[i].relationships@[n];
    let t = Touched {
        table: rel.from_table@,
        key: rel.from_keys@[k]@,
        hop_gen: (truncates[i].change.hop_gen + 1) as i32,
        src_changed: truncates[i].change.src_changed,
    };
    lemma_truncate_reverse_listed(truncates, i, n, k);
    let p = choose|p: int| 0 <= p < second.len() && second[p] == t;
    assert(all[first.len() + p] == t);
    law_deepest_hop_wins(all, t.table, t.key);
    assert(all[first.len() + p].is_of(t.table, t.key));
    assert(touches_key(all, t.table, t.key));
    assert(touches_key(merged, t.table, t.key));
    let r = choose|r: int| 0 <= r < merged.len() && (#[trigger] merged[r]).is_of(t.table, t.key);
    assert(merged[r].table == t.table);
}

proof fn lemma_truncate_reverse_listed(truncates: Seq<LoadedTruncate>, i: int, n: int, k: int)
    requires
        0 <= i < truncates.len(),
        0 <= n < truncates[i].relationships@.len(),
        0 <= k < truncates[i].relationships@[n].from_keys@.len(),
    ensures
        all_truncate_reverse(truncates).contains(
            Touched {
                table: truncates[i].relationships@[n].from_table@,
                key: truncates[i].relationships@[n].from_keys@[k]@,
                hop_gen: (truncates[i].change.hop_gen + 1) as i32,
                src_changed: truncates[i].change.src_changed,
            },
        ),
    decreases truncates.len(),
{
    let front = truncates.drop_last();
    let before = all_truncate_reverse(front);
    let all = all_truncate_reverse(truncates);
    let rel = truncates[i].relationships@[n];
    let t = Touched {
        table: rel.from_table@,
        key: rel.from_keys@[k]@,
        hop_gen: (truncates[i].change.hop_gen + 1) as i32,
        src_changed: truncates[i].change.src_changed,
    };
    if i < front.len() {
        assert(front[i] == truncates[i]);
        lemma_truncate_reverse_listed(front, i, n, k);
        let p = choose|p: int| 0 <= p < before.len() && before[p] == t;
        assert(all[p] == t);
    } else {
        let last = truncates.last();
        let len = last.relationships@.len() as int;
        lemma_truncate_reverse_of(last, len, n, k);
        let own = truncate_reverse(last, len);
        let p = choose|p: int| 0 <= p < own.len() && own[p] == t;
        assert(all[before.len() + p] == t);
    }
}

proof fn lemma_truncate_reverse_of(t: LoadedTruncate, len: int, n: int, k: int)
    requires
        0 <= n < len <= t.relationships@.len(),
        0 <= k < t.relationships@[n].from_keys@.len(),
    ensures
        truncate_reverse(t, len).contains(
            Touched {
                table: t.relationships@[n].from_table@,
                key: t.relationships@[n].from_keys@[k]@,
                hop_gen: (t.change.hop_gen + 1) as i32,
                src_changed: t.change.src_changed,
            },
        ),
    decreases len,
{
    let before = truncate_reverse(t, len - 1);
    let all = truncate_reverse(t, len);
    let rel = t.relationships@[n];
    let x = Touched {
        table: rel.from_table@,
        key: rel.from_keys@[k]@,
        hop_gen: (t.change.hop_gen + 1) as i32,
        src_changed: t.change.src_changed,
    };
    if n < len - 1 {
        lemma_truncate_reverse_of(t, len - 1, n, k);
        let p = choose|p: int| 0 <= p < before.len() && before[p] == x;
        assert(all[p] == x);
    } else {
        let own = from_side_of_truncate(t.change, rel.from_table@, rel.from_keys@);
        assert(own[k] == x);
        assert(all[before.len() + k] == x);
    }
}

/// Whether a definition is an aggregate for a target.
pub open spec fn is_aggregate_for(definition: LoadedDefinition, target: Seq<char>) -> bool {
    definition matches LoadedDefinition::Aggregate { target: t, .. } && t@ == target
}

/// The definition that an aggregate target's plan comes from is the first one with
/// the target: no definition of an earlier source table, or earlier in the same
/// one, has it.
pub proof fn law_the_first_aggregate_counts(sources: Seq<LoadedSource>, n: int, target: Seq<char>, i: int, d: int)
    requires
        sources.len() > 0,
        0 <= n <= sources.last().definitions@.len(),
        0 <= i < sources.len(),
        0 <= d < sources[i].definitions@.len(),
        i == sources.len() - 1 ==> d < n,
        is_aggregate_for(sources[i].definitions@[d], target),
    ensures
        first_aggregate(sources, n, target) matches Some((a, b)) && 0 <= a <= i && (a == i ==> b <= d) && 0 <= b
            < sources[a].definitions@.len() && is_aggregate_for(sources[a].definitions@[b], target),
    decreases sources.len(), n,
{
    let front = sources.drop_last();
    if n <= 0 {
        assert(i < front.len());
        assert(front[i] == sources[i]);
        law_the_first_aggregate_counts(front, front.last().definitions@.len() as int, target, i, d);
    } else if i == sources.len() - 1 && d == n - 1 {
        if let Some((a, b)) = first_aggregate(sources, n - 1, target) {
            lemma_first_aggregate_is_one(sources, n - 1, target);
        }
    } else {
        law_the_first_aggregate_counts(sources, n - 1, target, i, d);
    }
}

proof fn lemma_first_aggregate_is_one(sources: Seq<LoadedSource>, n: int, target: Seq<char>)
    requires
        sources.len() > 0,
        0 <= n <= sources.last().definitions@.len(),
        first_aggregate(sources, n, target) is Some,
    ensures
        first_aggregate(sources, n, target) matches Some((a, b)) && 0 <= a < sources.len() && 0 <= b
            < sources[a].definitions@.len() && (a == sources.len() - 1 ==> b < n) && is_aggregate_for(
            sources[a].definitions@[b],
            target,
        ),
    decreases sources.len(), n,
{
    let front = sources.drop_last();
    if n <= 0 {
        lemma_first_aggregate_is_one(front, front.last().definitions@.len() as int, target);
    } else if first_aggregate(sources, n - 1, target) is Some {
        lemma_first_aggregate_is_one(sources, n - 1, target);
    }
}

/// Each aggregate target has one plan, made by the first definition with the
/// target, and no other target has one.
pub proof fn law_aggregates_have_their_plans(
    plans: Seq<AggregateModel>,
    sources: Seq<LoadedSource>,
    target: Seq<char>,
    i: int,
    d: int,
)
    requires
        all_aggregates_planned(plans, sources),
        0 <= i < sources.len(),
        0 <= d < sources[i].definitions@.len(),
        is_aggregate_for(sources[i].definitions@[d], target),
    ensures
        exists|p: int, a: int, b: int|
            #![trigger plans[p], sources[a].definitions@[b]]
            0 <= p < plans.len() && plans[p].target == target && 0 <= a <= i && 0 <= b < sources[a].definitions@.len()
                && (a == i ==> b <= d) && is_aggregate_for(sources[a].definitions@[b], target) && is_aggregate_part(
                sources[a],
                sources[a].definitions@[b],
                plans[p],
            ),
        forall|p: int, q: int| 0 <= p < q < plans.len() ==> (#[trigger] plans[p]).target != (#[trigger] plans[q]).target,
{
    let n = sources.last().definitions@.len() as int;
    law_the_first_aggregate_counts(sources, n, target, i, d);
    let (a, b) = first_aggregate(sources, n, target)->0;
    let p = choose|p: int| 0 <= p < plans.len() && (#[trigger] plans[p]).target == target;
    assert(is_aggregate_part(sources[a], sources[a].definitions@[b], plans[p]));
}

} // verus!
