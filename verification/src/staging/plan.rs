//! Planning a batch: what each definition's target gets written, deleted and
//! cleared, and which other rows have to be derived again.

use super::change::{FoldedChange, SourceTime};
use super::rows::Row;
use crate::defs::ast::ValueType;
use crate::map::{among, find_key, has_key, position, TextMap};
use crate::text::same;
use crate::lists::{lemma_filter_none, lemma_filter_push, zipped};
use vstd::prelude::*;

verus! {

/// The single column of a table's primary key.
#[derive(Debug, Clone, PartialEq, Eq)]
pub struct PrimaryKeyColumn {
    /// The column.
    pub name: String,
    /// Its type, as SQL spells it.
    pub data_type: String,
}

impl PrimaryKeyColumn {
    /// A copy.
    pub fn duplicate(&self) -> (r: PrimaryKeyColumn)
        ensures
            r == *self,
    {
        PrimaryKeyColumn { name: self.name.clone(), data_type: self.data_type.clone() }
    }
}

/// One key's write into a target table.
#[derive(Debug)]
pub struct TargetWrite {
    /// The key's text.
    pub pk_text: String,
    /// The calculated fields' texts, or null, in field order.
    pub values: Vec<Option<String>>,
    /// How many propagation hops led here.
    pub hop_gen: i32,
    /// The origin it carries forward.
    pub src_changed: Option<SourceTime>,
}

/// The model of a [`TargetWrite`].
pub struct WriteModel {
    /// The key's text.
    pub key: Seq<char>,
    /// The calculated fields' texts.
    pub values: Seq<Option<String>>,
    /// How many propagation hops led here.
    pub hop_gen: i32,
    /// The origin it carries forward.
    pub src_changed: Option<SourceTime>,
}

impl View for TargetWrite {
    type V = WriteModel;

    open spec fn view(&self) -> WriteModel {
        WriteModel {
            key: self.pk_text@,
            values: self.values@,
            hop_gen: self.hop_gen,
            src_changed: self.src_changed,
        }
    }
}

/// The models of writes.
pub open spec fn writes_view(writes: Seq<TargetWrite>) -> Seq<WriteModel> {
    writes.map_values(|w: TargetWrite| w@)
}

/// One key's deletion from a target table.
#[derive(Debug, Clone, PartialEq, Eq)]
pub struct TargetDelete {
    /// The key's text.
    pub pk_text: String,
    /// How many propagation hops led here.
    pub hop_gen: i32,
    /// The origin it carries forward.
    pub src_changed: Option<SourceTime>,
}

/// The model of a [`TargetDelete`].
pub struct DeleteModel {
    /// The key's text.
    pub key: Seq<char>,
    /// How many propagation hops led here.
    pub hop_gen: i32,
    /// The origin it carries forward.
    pub src_changed: Option<SourceTime>,
}

impl View for TargetDelete {
    type V = DeleteModel;

    open spec fn view(&self) -> DeleteModel {
        DeleteModel { key: self.pk_text@, hop_gen: self.hop_gen, src_changed: self.src_changed }
    }
}

/// The models of deletions.
pub open spec fn deletes_view(deletes: Seq<TargetDelete>) -> Seq<DeleteModel> {
    deletes.map_values(|d: TargetDelete| d@)
}

/// What a batch does to one target table.
#[derive(Debug)]
pub struct TargetPlan {
    /// The target table, without its schema.
    pub target: String,
    /// The target table with its schema.
    pub qualified_target: String,
    /// Its primary key.
    pub pk: PrimaryKeyColumn,
    /// The calculated fields that are written.
    pub field_names: Vec<String>,
    /// Their types, in the same order.
    pub field_types: Vec<ValueType>,
    /// The writes, in order.
    pub writes: Vec<TargetWrite>,
    /// The deletions, in order.
    pub deletes: Vec<TargetDelete>,
}

/// The model of a [`TargetPlan`].
pub struct PlanModel {
    /// The target table, without its schema.
    pub target: Seq<char>,
    /// The target table with its schema.
    pub qualified_target: Seq<char>,
    /// Its primary key.
    pub pk: PrimaryKeyColumn,
    /// The calculated fields that are written.
    pub field_names: Seq<String>,
    /// Their types, in the same order.
    pub field_types: Seq<ValueType>,
    /// The writes, in order.
    pub writes: Seq<WriteModel>,
    /// The deletions, in order.
    pub deletes: Seq<DeleteModel>,
}

impl View for TargetPlan {
    type V = PlanModel;

    open spec fn view(&self) -> PlanModel {
        PlanModel {
            target: self.target@,
            qualified_target: self.qualified_target@,
            pk: self.pk,
            field_names: self.field_names@,
            field_types: self.field_types@,
            writes: writes_view(self.writes@),
            deletes: deletes_view(self.deletes@),
        }
    }
}

/// The models of target plans.
pub open spec fn plans_view(plans: Seq<TargetPlan>) -> Seq<PlanModel> {
    plans.map_values(|p: TargetPlan| p@)
}

/// The type of each field: as it is known, else numeric.
pub open spec fn types_of(names: Seq<String>, known: Map<Seq<char>, ValueType>) -> Seq<ValueType> {
    names.map_values(
        |n: String|
            if known.contains_key(n@) {
                known[n@]
            } else {
                ValueType::Numeric
            },
    )
}

/// The type of each field: as it is known, else numeric.
pub fn field_types(names: &Vec<String>, known: &TextMap<ValueType>) -> (r: Vec<ValueType>)
    ensures
        r@ == types_of(names@, known@),
{
    let mut r: Vec<ValueType> = Vec::new();
    for i in 0..names.len()
        invariant
            r@ == types_of(names@, known@).take(i as int),
    {
        let t = match known.get(names[i].as_str()) {
            Some(t) => *t,
            None => ValueType::Numeric,
        };
        r.push(t);
        assert(r@ =~= types_of(names@, known@).take(i + 1));
    }
    assert(r@ =~= types_of(names@, known@));
    r
}

/// The fields that are not paused.
pub open spec fn unpaused_names(names: Seq<String>, paused: Seq<String>) -> Seq<String>
    decreases names.len(),
{
    if names.len() == 0 {
        seq![]
    } else if among(paused, names.last()@) {
        unpaused_names(names.drop_last(), paused)
    } else {
        unpaused_names(names.drop_last(), paused).push(names.last())
    }
}

/// The types of the fields that are not paused.
pub open spec fn unpaused_types(names: Seq<String>, types: Seq<ValueType>, paused: Seq<String>) -> Seq<ValueType>
    decreases names.len(),
{
    if names.len() == 0 {
        seq![]
    } else if among(paused, names.last()@) {
        unpaused_types(names.drop_last(), types.drop_last(), paused)
    } else {
        unpaused_types(names.drop_last(), types.drop_last(), paused).push(types.last())
    }
}

/// The fields that are not paused, with their types: a paused column is frozen,
/// neither evaluated nor written.
pub fn unpaused_fields(names: &Vec<String>, types: &Vec<ValueType>, paused: &Vec<String>) -> (r: (
    Vec<String>,
    Vec<ValueType>,
))
    requires
        names@.len() == types@.len(),
    ensures
        r.0@ == unpaused_names(names@, paused@),
        r.1@ == unpaused_types(names@, types@, paused@),
        r.0@.len() == r.1@.len(),
{
    let mut kept: Vec<String> = Vec::new();
    let mut kept_types: Vec<ValueType> = Vec::new();
    for i in 0..names.len()
        invariant
            names@.len() == types@.len(),
            kept@ == unpaused_names(names@.take(i as int), paused@),
            kept_types@ == unpaused_types(names@.take(i as int), types@.take(i as int), paused@),
            kept@.len() == kept_types@.len(),
    {
        proof {
            assert(names@.take(i + 1).drop_last() =~= names@.take(i as int));
            assert(types@.take(i + 1).drop_last() =~= types@.take(i as int));
        }
        if !has_key(paused, names[i].as_str()) {
            kept.push(names[i].clone());
            kept_types.push(types[i]);
        }
    }
    proof {
        assert(names@.take(names@.len() as int) =~= names@);
        assert(types@.take(types@.len() as int) =~= types@);
    }
    (kept, kept_types)
}

/// Whether the name at `j` occurs before `j`.
pub open spec fn occurs_before(names: Seq<String>, j: int) -> bool {
    exists|i: int| 0 <= i < j && #[trigger] names[i]@ == names[j]@
}

/// The evaluated value of each field; nothing for one that was not evaluated.
/// A value goes to the first field of its name.
pub open spec fn values_of(names: Seq<String>, evaluated: Row) -> Seq<Option<String>> {
    Seq::new(
        names.len(),
        |j: int|
            if evaluated@.contains_key(names[j]@) && !occurs_before(names, j) {
                evaluated@[names[j]@]
            } else {
                None
            },
    )
}

/// The evaluated value of each field, in field order.
pub fn field_values(names: &Vec<String>, evaluated: &Row) -> (r: Vec<Option<String>>)
    ensures
        r@ == values_of(names@, *evaluated),
{
    let mut r: Vec<Option<String>> = Vec::new();
    for j in 0..names.len()
        invariant
            r@ == values_of(names@, *evaluated).take(j as int),
    {
        let first = find_key(names, names[j].as_str());
        proof {
            crate::map::lemma_position(names@, names@[j as int]@);
            if occurs_before(names@, j as int) {
                let i = choose|i: int| 0 <= i < j && #[trigger] names@[i]@ == names@[j as int]@;
                assert(first <= i);
            } else if first < j {
                assert(names@[first as int]@ == names@[j as int]@);
            }
        }
        let value: Option<String> = if first < j {
            None
        } else {
            match evaluated.get(names[j].as_str()) {
                Some(value) => value.clone(),
                None => None,
            }
        };
        r.push(value);
        assert(r@ =~= values_of(names@, *evaluated).take(j + 1));
    }
    assert(r@ =~= values_of(names@, *evaluated));
    r
}

/// The writes of the changes whose rows were evaluated.
pub open spec fn writes_of(
    names: Seq<String>,
    changes: Seq<FoldedChange>,
    evaluated: Seq<Option<Row>>,
) -> Seq<WriteModel>
    decreases changes.len(),
{
    if changes.len() == 0 {
        seq![]
    } else {
        let before = writes_of(names, changes.drop_last(), evaluated.drop_last());
        let c = changes.last();
        match evaluated.last() {
            Some(row) => before.push(
                WriteModel {
                    key: c.key@,
                    values: values_of(names, row),
                    hop_gen: c.hop_gen,
                    src_changed: c.src_changed,
                },
            ),
            None => before,
        }
    }
}

/// The deletions of the changes whose rows are gone.
pub open spec fn deletes_of(changes: Seq<FoldedChange>, evaluated: Seq<Option<Row>>) -> Seq<DeleteModel>
    decreases changes.len(),
{
    if changes.len() == 0 {
        seq![]
    } else {
        let before = deletes_of(changes.drop_last(), evaluated.drop_last());
        let c = changes.last();
        match evaluated.last() {
            Some(_) => before,
            None => before.push(DeleteModel { key: c.key@, hop_gen: c.hop_gen, src_changed: c.src_changed }),
        }
    }
}

/// What a one-to-one definition makes of a source table's changes: a write for
/// each change whose row was evaluated, and a deletion for each whose row is gone.
pub fn target_changes(names: &Vec<String>, changes: &Vec<FoldedChange>, evaluated: &Vec<Option<Row>>) -> (r: (
    Vec<TargetWrite>,
    Vec<TargetDelete>,
))
    requires
        changes@.len() == evaluated@.len(),
    ensures
        writes_view(r.0@) == writes_of(names@, changes@, evaluated@),
        deletes_view(r.1@) == deletes_of(changes@, evaluated@),
{
    let mut writes: Vec<TargetWrite> = Vec::new();
    let mut deletes: Vec<TargetDelete> = Vec::new();
    proof {
        assert(writes_view(writes@) =~= seq![]);
        assert(deletes_view(deletes@) =~= seq![]);
    }
    for i in 0..changes.len()
        invariant
            changes@.len() == evaluated@.len(),
            writes_view(writes@) == writes_of(names@, changes@.take(i as int), evaluated@.take(i as int)),
            deletes_view(deletes@) == deletes_of(changes@.take(i as int), evaluated@.take(i as int)),
    {
        proof {
            assert(changes@.take(i + 1).drop_last() =~= changes@.take(i as int));
            assert(evaluated@.take(i + 1).drop_last() =~= evaluated@.take(i as int));
        }
        let change = &changes[i];
        let ghost writes_before = writes_view(writes@);
        let ghost deletes_before = deletes_view(deletes@);
        match &evaluated[i] {
            Some(row) => {
                let values = field_values(names, row);
                let write = TargetWrite {
                    pk_text: change.key.clone(),
                    values,
                    hop_gen: change.hop_gen,
                    src_changed: change.src_changed,
                };
                let ghost model = write@;
                writes.push(write);
                assert(writes_view(writes@) =~= writes_before.push(model));
            },
            None => {
                let delete = TargetDelete {
                    pk_text: change.key.clone(),
                    hop_gen: change.hop_gen,
                    src_changed: change.src_changed,
                };
                let ghost model = delete@;
                deletes.push(delete);
                assert(deletes_view(deletes@) =~= deletes_before.push(model));
            },
        }
    }
    proof {
        assert(changes@.take(changes@.len() as int) =~= changes@);
        assert(evaluated@.take(evaluated@.len() as int) =~= evaluated@);
    }
    (writes, deletes)
}

/// The position of the plan for a target; their number where there is none.
pub open spec fn plan_position(plans: Seq<PlanModel>, target: Seq<char>) -> int
    decreases plans.len(),
{
    if plans.len() == 0 {
        0
    } else if plans[0].target == target {
        0
    } else {
        1 + plan_position(plans.drop_first(), target)
    }
}

/// The plans once one definition's part is added: to its target's plan, which
/// keeps its own shape, or as a plan of its own.
pub open spec fn with_part(plans: Seq<PlanModel>, part: PlanModel) -> Seq<PlanModel> {
    let i = plan_position(plans, part.target);
    if i < plans.len() {
        plans.update(
            i,
            PlanModel { writes: plans[i].writes + part.writes, deletes: plans[i].deletes + part.deletes, ..plans[i] },
        )
    } else {
        plans.push(part)
    }
}

/// All parts, gathered by target.
pub open spec fn gathered(parts: Seq<PlanModel>) -> Seq<PlanModel>
    decreases parts.len(),
{
    if parts.len() == 0 {
        seq![]
    } else {
        with_part(gathered(parts.drop_last()), parts.last())
    }
}

proof fn lemma_plan_position(plans: Seq<PlanModel>, target: Seq<char>, i: int)
    requires
        0 <= i <= plans.len(),
        forall|j: int| 0 <= j < i ==> (#[trigger] plans[j]).target != target,
        i < plans.len() ==> plans[i].target == target,
    ensures
        plan_position(plans, target) == i,
    decreases plans.len(),
{
    if i > 0 {
        assert(plans[0].target != target);
        let rest = plans.drop_first();
        assert forall|j: int| 0 <= j < i - 1 implies (#[trigger] rest[j]).target != target by {
            assert(plans[j + 1].target != target);
        }
        lemma_plan_position(rest, target, i - 1);
    }
}

/// Adds one definition's part to the plans.
pub fn add_part(plans: &mut Vec<TargetPlan>, part: TargetPlan)
    ensures
        plans_view(final(plans)@) == with_part(plans_view(old(plans)@), part@),
{
    let ghost before = plans_view(plans@);
    let mut i: usize = 0;
    while i < plans.len() && !same(plans[i].target.as_str(), part.target.as_str())
        invariant
            i <= plans@.len(),
            before == plans_view(plans@),
            forall|j: int| 0 <= j < i ==> (#[trigger] before[j]).target != part.target@,
        decreases plans@.len() - i,
    {
        i = i + 1;
    }
    proof {
        lemma_plan_position(before, part@.target, i as int);
    }
    if i < plans.len() {
        let TargetPlan { target: _, qualified_target: _, pk: _, field_names: _, field_types: _, writes, deletes } = part;
        let mut writes = writes;
        let mut deletes = deletes;
        let ghost old_plan = plans@[i as int];
        let plan = &mut plans[i];
        plan.writes.append(&mut writes);
        plan.deletes.append(&mut deletes);
        proof {
            let new_plan = plans@[i as int];
            assert(new_plan.writes@ =~= old_plan.writes@ + part.writes@);
            assert(new_plan.deletes@ =~= old_plan.deletes@ + part.deletes@);
            assert(writes_view(new_plan.writes@) =~= old_plan@.writes + part@.writes);
            assert(deletes_view(new_plan.deletes@) =~= old_plan@.deletes + part@.deletes);
            assert(plans_view(plans@) =~= with_part(before, part@));
        }
    } else {
        plans.push(part);
        assert(plans_view(plans@) =~= before.push(part@));
    }
}

/// The writes of all parts for a target, one part after the other.
pub open spec fn writes_for(parts: Seq<PlanModel>, target: Seq<char>) -> Seq<WriteModel>
    decreases parts.len(),
{
    if parts.len() == 0 {
        seq![]
    } else if parts.last().target == target {
        writes_for(parts.drop_last(), target) + parts.last().writes
    } else {
        writes_for(parts.drop_last(), target)
    }
}

/// The deletions of all parts for a target, one part after the other.
pub open spec fn deletes_for(parts: Seq<PlanModel>, target: Seq<char>) -> Seq<DeleteModel>
    decreases parts.len(),
{
    if parts.len() == 0 {
        seq![]
    } else if parts.last().target == target {
        deletes_for(parts.drop_last(), target) + parts.last().deletes
    } else {
        deletes_for(parts.drop_last(), target)
    }
}

/// Gathering makes one plan for each target, with all the writes and deletions
/// of its parts in their order, and none for any other target.
pub proof fn law_gathering_keeps_every_change(parts: Seq<PlanModel>, target: Seq<char>)
    ensures
        ({
            let plans = gathered(parts);
            let i = plan_position(plans, target);
            &&& 0 <= i <= plans.len()
            &&& forall|a: int, b: int|
                0 <= a < b < plans.len() ==> (#[trigger] plans[a]).target != (#[trigger] plans[b]).target
            &&& i < plans.len() <==> exists|p: int| 0 <= p < parts.len() && (#[trigger] parts[p]).target == target
            &&& i < plans.len() ==> plans[i].target == target && plans[i].writes == writes_for(parts, target)
                && plans[i].deletes == deletes_for(parts, target)
        }),
    decreases parts.len(),
{
    let plans = gathered(parts);
    if parts.len() > 0 {
        let front = parts.drop_last();
        let part = parts.last();
        let before = gathered(front);
        law_gathering_keeps_every_change(front, target);
        law_gathering_keeps_every_change(front, part.target);
        lemma_position_found(before, target);
        lemma_position_found(before, part.target);
        let k = plan_position(before, part.target);
        let i = plan_position(before, target);
        assert(plans == with_part(before, part));
        assert(parts[parts.len() - 1] == part);
        if exists|p: int| 0 <= p < front.len() && (#[trigger] front[p]).target == target {
            let p = choose|p: int| 0 <= p < front.len() && (#[trigger] front[p]).target == target;
            assert(parts[p].target == target);
        }
        assert((exists|p: int| 0 <= p < parts.len() && (#[trigger] parts[p]).target == target) ==> part.target
            == target || exists|p: int| 0 <= p < front.len() && (#[trigger] front[p]).target == target) by {
            if exists|p: int| 0 <= p < parts.len() && (#[trigger] parts[p]).target == target {
                let p = choose|p: int| 0 <= p < parts.len() && (#[trigger] parts[p]).target == target;
                if p < front.len() {
                    assert(front[p].target == target);
                }
            }
        }
        if target == part.target {
            lemma_plan_position(plans, target, k);
            if k == before.len() {
                lemma_nothing_for(front, target);
                assert(seq![] + part.writes =~= part.writes);
                assert(seq![] + part.deletes =~= part.deletes);
            }
        } else if i < before.len() {
            lemma_plan_position(plans, target, i);
        } else {
            lemma_plan_position(plans, target, plans.len() as int);
        }
    }
}

proof fn lemma_position_found(plans: Seq<PlanModel>, target: Seq<char>)
    ensures
        0 <= plan_position(plans, target) <= plans.len(),
        plan_position(plans, target) < plans.len() ==> plans[plan_position(plans, target)].target == target,
        forall|j: int| 0 <= j < plan_position(plans, target) ==> (#[trigger] plans[j]).target != target,
    decreases plans.len(),
{
    if plans.len() > 0 && plans[0].target != target {
        let rest = plans.drop_first();
        lemma_position_found(rest, target);
        assert forall|j: int| 0 <= j < plan_position(plans, target) implies (#[trigger] plans[j]).target != target by {
            if j > 0 {
                assert(rest[j - 1] == plans[j]);
            }
        }
    }
}

proof fn lemma_nothing_for(parts: Seq<PlanModel>, target: Seq<char>)
    requires
        !(exists|p: int| 0 <= p < parts.len() && (#[trigger] parts[p]).target == target),
    ensures
        writes_for(parts, target) == Seq::<WriteModel>::empty(),
        deletes_for(parts, target) == Seq::<DeleteModel>::empty(),
    decreases parts.len(),
{
    if parts.len() > 0 {
        assert(parts[parts.len() - 1].target != target);
        if exists|p: int| 0 <= p < parts.drop_last().len() && (#[trigger] parts.drop_last()[p]).target == target {
            let p = choose|p: int| 0 <= p < parts.drop_last().len() && (#[trigger] parts.drop_last()[p]).target == target;
            assert(parts[p].target == target);
        }
        lemma_nothing_for(parts.drop_last(), target);
    }
}

/// Every change of a source table gives a one-to-one target exactly one write
/// or one deletion.
pub proof fn law_every_change_writes_or_deletes(
    names: Seq<String>,
    changes: Seq<FoldedChange>,
    evaluated: Seq<Option<Row>>,
)
    requires
        changes.len() == evaluated.len(),
    ensures
        writes_of(names, changes, evaluated).len() + deletes_of(changes, evaluated).len() == changes.len(),
    decreases changes.len(),
{
    if changes.len() > 0 {
        law_every_change_writes_or_deletes(names, changes.drop_last(), evaluated.drop_last());
    }
}

/// The fields that are not paused keep their order.
pub proof fn law_paused_fields_are_left_out(names: Seq<String>, types: Seq<ValueType>, paused: Seq<String>)
    requires
        names.len() == types.len(),
    ensures
        unpaused_names(names, paused) == zipped(names, types).filter(|f: (String, ValueType)| !among(paused, f.0@)).map_values(|f: (String, ValueType)| f.0),
    decreases names.len(),
{
    let pass = |f: (String, ValueType)| !among(paused, f.0@);
    let f = |f: (String, ValueType)| f.0;
    let both = zipped(names, types);
    if names.len() == 0 {
        lemma_filter_none(both, pass);
        assert(both.take(0) =~= both);
        assert(unpaused_names(names, paused) =~= both.filter(pass).map_values(f));
    } else {
        let front = zipped(names.drop_last(), types.drop_last());
        law_paused_fields_are_left_out(names.drop_last(), types.drop_last(), paused);
        lemma_filter_push(front, both.last(), pass);
        assert(both =~= front.push(both.last()));
        assert(front.filter(pass).push(both.last()).map_values(f) =~= front.filter(pass).map_values(f).push(
            f(both.last()),
        ));
        assert(unpaused_names(names, paused) =~= both.filter(pass).map_values(f));
    }
}

/// The fields that are not paused keep their types.
pub proof fn law_fields_keep_their_types(names: Seq<String>, types: Seq<ValueType>, paused: Seq<String>)
    requires
        names.len() == types.len(),
    ensures
        unpaused_types(names, types, paused) == zipped(names, types).filter(|f: (String, ValueType)| !among(paused, f.0@)).map_values(|f: (String, ValueType)| f.1),
    decreases names.len(),
{
    let pass = |f: (String, ValueType)| !among(paused, f.0@);
    let f = |f: (String, ValueType)| f.1;
    let both = zipped(names, types);
    if names.len() == 0 {
        lemma_filter_none(both, pass);
        assert(both.take(0) =~= both);
        assert(unpaused_types(names, types, paused) =~= both.filter(pass).map_values(f));
    } else {
        let front = zipped(names.drop_last(), types.drop_last());
        law_fields_keep_their_types(names.drop_last(), types.drop_last(), paused);
        lemma_filter_push(front, both.last(), pass);
        assert(both =~= front.push(both.last()));
        assert(front.filter(pass).push(both.last()).map_values(f) =~= front.filter(pass).map_values(f).push(
            f(both.last()),
        ));
        assert(unpaused_types(names, types, paused) =~= both.filter(pass).map_values(f));
    }
}

/// A field has the type that is known of it; a field of which none is known is
/// numeric.
pub proof fn law_unknown_fields_are_numeric(names: Seq<String>, known: Map<Seq<char>, ValueType>, i: int)
    requires
        0 <= i < names.len(),
    ensures
        types_of(names, known).len() == names.len(),
        known.contains_key(names[i]@) ==> types_of(names, known)[i] == known[names[i]@],
        !known.contains_key(names[i]@) ==> types_of(names, known)[i] is Numeric,
{
}

/// A field has the value that was evaluated for it, and null where none was; of
/// two fields of one name the first has it.
pub proof fn law_fields_have_their_values(names: Seq<String>, evaluated: Row, j: int)
    requires
        0 <= j < names.len(),
    ensures
        values_of(names, evaluated).len() == names.len(),
        evaluated@.contains_key(names[j]@) && (forall|i: int| 0 <= i < j ==> (#[trigger] names[i])@ != names[j]@)
            ==> values_of(names, evaluated)[j] == evaluated@[names[j]@],
        !evaluated@.contains_key(names[j]@) ==> values_of(names, evaluated)[j] is None,
        (exists|i: int| 0 <= i < j && (#[trigger] names[i])@ == names[j]@) ==> values_of(names, evaluated)[j] is None,
{
}

/// Each change whose row was evaluated, and no other, is a write of its key, with
/// the row's values, the hop count and the origin.
pub proof fn law_present_rows_are_written(changes: Seq<FoldedChange>, evaluated: Seq<Option<Row>>, names: Seq<String>)
    requires
        changes.len() == evaluated.len(),
    ensures
        writes_of(names, changes, evaluated) == zipped(changes, evaluated).filter(|c: (FoldedChange, Option<Row>)| c.1 is Some).map_values(|c: (FoldedChange, Option<Row>)|
                WriteModel {
                    key: c.0.key@,
                    values: values_of(names, c.1->0),
                    hop_gen: c.0.hop_gen,
                    src_changed: c.0.src_changed,
                }),
    decreases changes.len(),
{
    let pass = |c: (FoldedChange, Option<Row>)| c.1 is Some;
    let f = |c: (FoldedChange, Option<Row>)|
                WriteModel {
                    key: c.0.key@,
                    values: values_of(names, c.1->0),
                    hop_gen: c.0.hop_gen,
                    src_changed: c.0.src_changed,
                };
    let both = zipped(changes, evaluated);
    if changes.len() == 0 {
        lemma_filter_none(both, pass);
        assert(both.take(0) =~= both);
        assert(writes_of(names, changes, evaluated) =~= both.filter(pass).map_values(f));
    } else {
        let front = zipped(changes.drop_last(), evaluated.drop_last());
        law_present_rows_are_written(changes.drop_last(), evaluated.drop_last(), names);
        lemma_filter_push(front, both.last(), pass);
        assert(both =~= front.push(both.last()));
        assert(front.filter(pass).push(both.last()).map_values(f) =~= front.filter(pass).map_values(f).push(
            f(both.last()),
        ));
        assert(writes_of(names, changes, evaluated) =~= both.filter(pass).map_values(f));
    }
}

/// Each change whose row is gone, and no other, is a delete of its key, with the
/// hop count and the origin.
pub proof fn law_gone_rows_are_deleted(changes: Seq<FoldedChange>, evaluated: Seq<Option<Row>>)
    requires
        changes.len() == evaluated.len(),
    ensures
        deletes_of(changes, evaluated) == zipped(changes, evaluated).filter(|c: (FoldedChange, Option<Row>)| c.1 is None).map_values(|c: (FoldedChange, Option<Row>)|
                DeleteModel { key: c.0.key@, hop_gen: c.0.hop_gen, src_changed: c.0.src_changed }),
    decreases changes.len(),
{
    let pass = |c: (FoldedChange, Option<Row>)| c.1 is None;
    let f = |c: (FoldedChange, Option<Row>)|
                DeleteModel { key: c.0.key@, hop_gen: c.0.hop_gen, src_changed: c.0.src_changed };
    let both = zipped(changes, evaluated);
    if changes.len() == 0 {
        lemma_filter_none(both, pass);
        assert(both.take(0) =~= both);
        assert(deletes_of(changes, evaluated) =~= both.filter(pass).map_values(f));
    } else {
        let front = zipped(changes.drop_last(), evaluated.drop_last());
        law_gone_rows_are_deleted(changes.drop_last(), evaluated.drop_last());
        lemma_filter_push(front, both.last(), pass);
        assert(both =~= front.push(both.last()));
        assert(front.filter(pass).push(both.last()).map_values(f) =~= front.filter(pass).map_values(f).push(
            f(both.last()),
        ));
        assert(deletes_of(changes, evaluated) =~= both.filter(pass).map_values(f));
    }
}

/// What a part adds to the plans: to a target that is there its writes and
/// deletes, behind those that are there, and nothing else; a target that is not
/// there as it is.
pub proof fn law_a_part_adds_its_changes(plans: Seq<PlanModel>, part: PlanModel, i: int)
    requires
        0 <= i < plans.len(),
        forall|j: int| 0 <= j < i ==> (#[trigger] plans[j]).target != part.target,
    ensures
        plans[i].target == part.target ==> {
            &&& with_part(plans, part).len() == plans.len()
            &&& with_part(plans, part)[i].writes == plans[i].writes + part.writes
            &&& with_part(plans, part)[i].deletes == plans[i].deletes + part.deletes
            &&& with_part(plans, part)[i].target == plans[i].target
            &&& with_part(plans, part)[i].qualified_target == plans[i].qualified_target
            &&& with_part(plans, part)[i].pk == plans[i].pk
            &&& with_part(plans, part)[i].field_names == plans[i].field_names
            &&& with_part(plans, part)[i].field_types == plans[i].field_types
            &&& forall|j: int| 0 <= j < plans.len() && j != i ==> #[trigger] with_part(plans, part)[j] == plans[j]
        },
        i == plans.len() - 1 && plans[i].target != part.target ==> with_part(plans, part) == plans.push(part),
{
    if plans[i].target == part.target {
        lemma_plan_position_is(plans, part.target, i);
    } else if i == plans.len() - 1 {
        lemma_plan_position_is(plans, part.target, plans.len() as int);
    }
}

proof fn lemma_plan_position_is(plans: Seq<PlanModel>, target: Seq<char>, i: int)
    requires
        0 <= i <= plans.len(),
        forall|j: int| 0 <= j < i ==> (#[trigger] plans[j]).target != target,
        i < plans.len() ==> plans[i].target == target,
    ensures
        plan_position(plans, target) == i,
    decreases plans.len(),
{
    if i > 0 {
        assert(plans[0].target != target);
        let rest = plans.drop_first();
        assert forall|j: int| 0 <= j < i - 1 implies (#[trigger] rest[j]).target != target by {
            assert(rest[j] == plans[j + 1]);
        }
        lemma_plan_position_is(rest, target, i - 1);
    }
}

/// Gathering goes part by part: what more parts add, they add to what is there.
pub proof fn law_parts_are_gathered_in_order(parts: Seq<PlanModel>, part: PlanModel)
    ensures
        gathered(parts.push(part)) == with_part(gathered(parts), part),
        gathered(Seq::<PlanModel>::empty()).len() == 0,
        gathered(seq![part]) == seq![part],
{
    assert(parts.push(part).drop_last() =~= parts);
    let one = seq![part];
    assert(one.drop_last() =~= Seq::<PlanModel>::empty());
    assert(gathered(Seq::<PlanModel>::empty()) =~= Seq::<PlanModel>::empty());
    assert(gathered(one) =~= one);
}

} // verus!
