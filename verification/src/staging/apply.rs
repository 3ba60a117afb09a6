//! Applying a plan: the version fence, what the applied keys pass on, the hop
//! bound, and the completion of the drained segments.

use super::change::{SourceTime, StagedChange};
use super::clears::{ClearModel, ClearPlan};
use super::plan::{deletes_view, writes_view, DeleteModel, TargetPlan, WriteModel};
use super::touch::{touched, Touch, Touched};
use crate::defs::error::{CatalogError, ValidationError};
use crate::error_code::ErrorCode;
use crate::map::{among, TextMap};
use crate::order::{increasing, sorted_unique, text_less};
use crate::text::{has_within, i64_text, int_text, same, texts};
use crate::lists::{lemma_filter_none, lemma_filter_push};
use vstd::prelude::*;

verus! {

/// The most propagation hops: no change is staged behind more.
pub const MAX_HOP_GEN: i32 = 32;

/// The most segments that one drain takes at once.
pub const MAX_COALESCE_SEGMENTS: usize = 32;

/// Why a drain failed. An error of another layer is held as its category.
#[derive(Debug, Clone, PartialEq, Eq)]
pub enum ApplyError {
    /// The staging ring failed.
    Staging(ErrorCode),
    /// The catalog failed.
    Catalog(CatalogError),
    /// A source table's primary key could not be read.
    Ddl(ErrorCode),
    /// A calculated field could not be evaluated.
    Eval(ErrorCode),
    /// A calculated field's type could not be inferred.
    Validate(ValidationError),
    /// A calculated field's aliases could not be substituted.
    Backfill(ErrorCode),
    /// The database failed.
    Db(ErrorCode),
    /// No connection could be had.
    Pool(ErrorCode),
    /// The claim was gone when it was to be completed.
    ClaimLost,
    /// A source table's definitions changed since the plan was made.
    VersionFenceMiss {
        /// The source table.
        src_table: String,
    },
    /// Propagation would go on behind the hop bound.
    HopBoundExceeded {
        /// The deepest hop count.
        hop_gen: i32,
        /// The tables it went through.
        tables: Vec<String>,
    },
    /// A source table is gone.
    SourceTableDropped {
        /// The source table.
        source_table: String,
    },
    /// A column that is to be resumed is not paused.
    ColumnNotPaused {
        /// The transform.
        transform: String,
        /// The column.
        column: String,
    },
    /// A transform whose column is to be resumed is not live.
    DefinitionNotLive {
        /// The transform.
        transform: String,
    },
}

/// What the `Debug` form of a list of texts is.
pub uninterp spec fn debug_list(list: Seq<Seq<char>>) -> Seq<char>;

/// `format!` with `{:?}` on a `Vec<String>`: its text depends on the texts in
/// the list alone. What it looks like is not stated.
#[verifier::external_body]
fn debug_text(list: &Vec<String>) -> (r: String)
    ensures
        r@ == debug_list(texts(list@)),
{
    format!("{list:?}")
}

impl ApplyError {
    /// The error's category: that of the wrapped error, where there is one.
    pub open spec fn category(self) -> ErrorCode {
        match self {
            ApplyError::Staging(code) => code,
            ApplyError::Catalog(err) => err.category(),
            ApplyError::Ddl(code) => code,
            ApplyError::Eval(code) => code,
            ApplyError::Validate(err) => err.category(),
            ApplyError::Backfill(code) => code,
            ApplyError::Db(code) => code,
            ApplyError::Pool(code) => code,
            ApplyError::ClaimLost => ErrorCode::Internal,
            ApplyError::VersionFenceMiss { .. } => ErrorCode::Internal,
            ApplyError::HopBoundExceeded { .. } => ErrorCode::Internal,
            ApplyError::SourceTableDropped { .. } => ErrorCode::NotFound,
            ApplyError::ColumnNotPaused { .. } => ErrorCode::NotFound,
            ApplyError::DefinitionNotLive { .. } => ErrorCode::Conflict,
        }
    }

    /// The error's category.
    pub fn code(&self) -> (r: ErrorCode)
        ensures
            r == self.category(),
    {
        match self {
            ApplyError::Staging(code) => *code,
            ApplyError::Catalog(err) => err.code(),
            ApplyError::Ddl(code) => *code,
            ApplyError::Eval(code) => *code,
            ApplyError::Validate(err) => err.code(),
            ApplyError::Backfill(code) => *code,
            ApplyError::Db(code) => *code,
            ApplyError::Pool(code) => *code,
            ApplyError::ClaimLost
            | ApplyError::VersionFenceMiss { .. }
            | ApplyError::HopBoundExceeded { .. } => ErrorCode::Internal,
            ApplyError::SourceTableDropped { .. } => ErrorCode::NotFound,
            ApplyError::ColumnNotPaused { .. } => ErrorCode::NotFound,
            ApplyError::DefinitionNotLive { .. } => ErrorCode::Conflict,
        }
    }

    /// The error in words, around the words of the wrapped error, if there is one.
    pub open spec fn text(self, cause: Seq<char>) -> Seq<char> {
        match self {
            ApplyError::Staging(_) => "staging ring error: "@ + cause,
            ApplyError::Catalog(_) => "transform catalog error: "@ + cause,
            ApplyError::Ddl(_) => "target-table DDL error: "@ + cause,
            ApplyError::Eval(_) => "calculated-field evaluation error: "@ + cause,
            ApplyError::Validate(_) => "calculated-field type inference error: "@ + cause,
            ApplyError::Backfill(_) => "calculated-field alias substitution error: "@ + cause,
            ApplyError::Db(_) => "apply database error: "@ + cause,
            ApplyError::Pool(_) => "failed to acquire a connection: "@ + cause,
            ApplyError::ClaimLost => "this worker's claim was gone by completion time; nothing was applied twice, but the buckets it thought it owned must be reclaimed by whoever holds them now"@,
            ApplyError::VersionFenceMiss { src_table } => "source table '"@ + src_table@
                + "' changed definitions mid-drain; retry against the current catalog"@,
            ApplyError::HopBoundExceeded { hop_gen, tables } => "downstream propagation exceeded the hop bound (hop_gen "@
                + int_text(hop_gen as int) + " > "@ + int_text(MAX_HOP_GEN as int) + ") through: "@ + debug_list(
                texts(tables@),
            ),
            ApplyError::SourceTableDropped { source_table } => "source table '"@ + source_table@
                + "' no longer exists; purging its staged rows"@,
            ApplyError::ColumnNotPaused { transform, column } => "'"@ + transform@ + "."@ + column@
                + "' is not currently paused (or is not a column of that definition)"@,
            ApplyError::DefinitionNotLive { transform } => "'"@ + transform@
                + "' is not currently live (it may still be backfilling); resuming a paused column requires its definition to be live first"@,
        }
    }

    /// The error in words, around the words of the wrapped error, if there is one.
    pub fn message(&self, cause: &str) -> (r: String)
        ensures
            r@ == self.text(cause@),
    {
        let mut r = String::new();
        match self {
            ApplyError::Staging(_) => {
                r.append("staging ring error: ");
                r.append(cause);
            },
            ApplyError::Catalog(_) => {
                r.append("transform catalog error: ");
                r.append(cause);
            },
            ApplyError::Ddl(_) => {
                r.append("target-table DDL error: ");
                r.append(cause);
            },
            ApplyError::Eval(_) => {
                r.append("calculated-field evaluation error: ");
                r.append(cause);
            },
            ApplyError::Validate(_) => {
                r.append("calculated-field type inference error: ");
                r.append(cause);
            },
            ApplyError::Backfill(_) => {
                r.append("calculated-field alias substitution error: ");
                r.append(cause);
            },
            ApplyError::Db(_) => {
                r.append("apply database error: ");
                r.append(cause);
            },
            ApplyError::Pool(_) => {
                r.append("failed to acquire a connection: ");
                r.append(cause);
            },
            ApplyError::ClaimLost => {
                r.append(
                    "this worker's claim was gone by completion time; nothing was applied twice, but the buckets it thought it owned must be reclaimed by whoever holds them now",
                );
            },
            ApplyError::VersionFenceMiss { src_table } => {
                r.append("source table '");
                r.append(src_table.as_str());
                r.append("' changed definitions mid-drain; retry against the current catalog");
            },
            ApplyError::HopBoundExceeded { hop_gen, tables } => {
                r.append("downstream propagation exceeded the hop bound (hop_gen ");
                let hop = i64_text(*hop_gen as i64);
                r.append(hop.as_str());
                r.append(" > ");
                let bound = i64_text(MAX_HOP_GEN as i64);
                r.append(bound.as_str());
                r.append(") through: ");
                let list = debug_text(tables);
                r.append(list.as_str());
            },
            ApplyError::SourceTableDropped { source_table } => {
                r.append("source table '");
                r.append(source_table.as_str());
                r.append("' no longer exists; purging its staged rows");
            },
            ApplyError::ColumnNotPaused { transform, column } => {
                r.append("'");
                r.append(transform.as_str());
                r.append(".");
                r.append(column.as_str());
                r.append("' is not currently paused (or is not a column of that definition)");
            },
            ApplyError::DefinitionNotLive { transform } => {
                r.append("'");
                r.append(transform.as_str());
                r.append(
                    "' is not currently live (it may still be backfilling); resuming a paused column requires its definition to be live first",
                );
            },
        }
        assert(r@ =~= self.text(cause@));
        r
    }
}

/// How reading a source table's primary key failed.
#[derive(Debug, Clone, PartialEq, Eq)]
pub enum PrimaryKeyFailure {
    /// The database does not know the table.
    UndefinedTable,
    /// The table has no primary key.
    NoPrimaryKey {
        /// The table, as it was asked for.
        source_table: String,
        /// Whether the table is missing.
        missing: bool,
    },
    /// Anything else, by its category.
    Other(ErrorCode),
}

/// What a failure to read a source table's primary key means: that the table is
/// gone, where it is, else that the key could not be read. `code` is the
/// category of a table without a primary key.
pub fn primary_key_error(source_key: &str, failure: PrimaryKeyFailure, code: ErrorCode) -> (r: ApplyError)
    ensures
        match failure {
            PrimaryKeyFailure::UndefinedTable => r matches ApplyError::SourceTableDropped { source_table }
                && source_table@ == source_key@,
            PrimaryKeyFailure::NoPrimaryKey { source_table: t, missing } => if missing {
                r matches ApplyError::SourceTableDropped { source_table } && source_table == t
            } else {
                r == ApplyError::Ddl(code)
            },
            PrimaryKeyFailure::Other(other) => r == ApplyError::Ddl(other),
        },
        is_primary_key_error(r, source_key@, failure, code),
{
    match failure {
        PrimaryKeyFailure::UndefinedTable => ApplyError::SourceTableDropped { source_table: source_key.to_owned() },
        PrimaryKeyFailure::NoPrimaryKey { source_table, missing } => if missing {
            ApplyError::SourceTableDropped { source_table }
        } else {
            ApplyError::Ddl(code)
        },
        PrimaryKeyFailure::Other(other) => ApplyError::Ddl(other),
    }
}

/// Lets a plan through only where a source table's version is what it was when
/// the plan was made.
pub fn check_fence(source_key: &str, loaded: Option<i64>, current: Option<i64>) -> (r: Result<(), ApplyError>)
    ensures
        r is Ok <==> loaded == current,
        r matches Err(e) ==> e matches ApplyError::VersionFenceMiss { src_table } && src_table@ == source_key@,
{
    let holds = match (loaded, current) {
        (Some(a), Some(b)) => a == b,
        (None, None) => true,
        (Some(_), None) => false,
        (None, Some(_)) => false,
    };
    if holds {
        Ok(())
    } else {
        Err(ApplyError::VersionFenceMiss { src_table: source_key.to_owned() })
    }
}

/// What a key carries forward from the last of its writes.
pub open spec fn last_write(writes: Seq<WriteModel>, key: Seq<char>) -> Option<(i32, Option<SourceTime>)>
    decreases writes.len(),
{
    if writes.len() == 0 {
        None
    } else if writes.last().key == key {
        Some((writes.last().hop_gen, writes.last().src_changed))
    } else {
        last_write(writes.drop_last(), key)
    }
}

/// What a key carries forward from the last of its deletions.
pub open spec fn last_delete(deletes: Seq<DeleteModel>, key: Seq<char>) -> Option<(i32, Option<SourceTime>)>
    decreases deletes.len(),
{
    if deletes.len() == 0 {
        None
    } else if deletes.last().key == key {
        Some((deletes.last().hop_gen, deletes.last().src_changed))
    } else {
        last_delete(deletes.drop_last(), key)
    }
}

/// What a key carries forward: from its last deletion, else from its last
/// write, else nothing.
pub open spec fn carried(writes: Seq<WriteModel>, deletes: Seq<DeleteModel>, key: Seq<char>) -> (
    i32,
    Option<SourceTime>,
) {
    match last_delete(deletes, key) {
        Some(found) => found,
        None => match last_write(writes, key) {
            Some(found) => found,
            None => (0, None),
        },
    }
}

/// The touch of an applied key.
pub open spec fn applied_touch(
    target: Seq<char>,
    writes: Seq<WriteModel>,
    deletes: Seq<DeleteModel>,
    key: Seq<char>,
) -> Touched {
    let (hop_gen, src_changed) = carried(writes, deletes, key);
    Touched { table: target, key, hop_gen, src_changed }
}

/// The touches of applied keys.
pub open spec fn applied_touches(
    target: Seq<char>,
    writes: Seq<WriteModel>,
    deletes: Seq<DeleteModel>,
    keys: Seq<Seq<char>>,
) -> Seq<Touched> {
    keys.map_values(|k: Seq<char>| applied_touch(target, writes, deletes, k))
}

fn find_carried(plan: &TargetPlan, key: &str) -> (r: (i32, Option<SourceTime>))
    ensures
        r == carried(writes_view(plan.writes@), deletes_view(plan.deletes@), key@),
{
    let ghost ds = deletes_view(plan.deletes@);
    let ghost ws = writes_view(plan.writes@);
    let mut n: usize = plan.deletes.len();
    assert(ds.take(n as int) =~= ds);
    while n > 0
        invariant
            n <= plan.deletes@.len(),
            ds == deletes_view(plan.deletes@),
            ws == writes_view(plan.writes@),
            last_delete(ds, key@) == last_delete(ds.take(n as int), key@),
        decreases n,
    {
        assert(ds.take(n as int).drop_last() =~= ds.take(n - 1));
        let delete = &plan.deletes[n - 1];
        if same(delete.pk_text.as_str(), key) {
            return (delete.hop_gen, delete.src_changed);
        }
        n = n - 1;
    }
    let mut m: usize = plan.writes.len();
    assert(ws.take(m as int) =~= ws);
    while m > 0
        invariant
            m <= plan.writes@.len(),
            ds == deletes_view(plan.deletes@),
            last_delete(ds, key@) is None,
            ws == writes_view(plan.writes@),
            last_write(ws, key@) == last_write(ws.take(m as int), key@),
        decreases m,
    {
        assert(ws.take(m as int).drop_last() =~= ws.take(m - 1));
        let write = &plan.writes[m - 1];
        if same(write.pk_text.as_str(), key) {
            return (write.hop_gen, write.src_changed);
        }
        m = m - 1;
    }
    (0, None)
}

/// Notes the keys of a target that were physically written or deleted.
pub fn note_applied(changed: &mut Vec<Touch>, plan: &TargetPlan, keys: &Vec<String>)
    ensures
        touched(final(changed)@) == touched(old(changed)@) + applied_touches(
            plan.target@,
            writes_view(plan.writes@),
            deletes_view(plan.deletes@),
            texts(keys@),
        ),
{
    let ghost before = touched(changed@);
    let ghost added = applied_touches(
        plan.target@,
        writes_view(plan.writes@),
        deletes_view(plan.deletes@),
        texts(keys@),
    );
    assert(before + added.take(0) =~= before);
    for n in 0..keys.len()
        invariant
            added == applied_touches(
                plan.target@,
                writes_view(plan.writes@),
                deletes_view(plan.deletes@),
                texts(keys@),
            ),
            touched(changed@) == before + added.take(n as int),
    {
        let (hop_gen, src_changed) = find_carried(plan, keys[n].as_str());
        let ghost so_far = touched(changed@);
        changed.push(Touch { table: plan.target.clone(), key: keys[n].clone(), hop_gen, src_changed });
        proof {
            assert(touched(changed@) =~= so_far.push(added[n as int]));
            assert(before + added.take(n + 1) =~= (before + added.take(n as int)).push(added[n as int]));
        }
    }
    assert(added.take(keys@.len() as int) =~= added);
}

/// The touches of keys that a clear removed.
pub open spec fn cleared_touches(clear: ClearModel, keys: Seq<Seq<char>>) -> Seq<Touched> {
    keys.map_values(
        |k: Seq<char>|
            Touched { table: clear.target, key: k, hop_gen: clear.hop_gen, src_changed: clear.src_changed },
    )
}

/// Notes the keys that a clear physically removed.
pub fn note_cleared(changed: &mut Vec<Touch>, clear: &ClearPlan, keys: &Vec<String>)
    ensures
        touched(final(changed)@) == touched(old(changed)@) + cleared_touches(clear@, texts(keys@)),
{
    let ghost before = touched(changed@);
    let ghost added = cleared_touches(clear@, texts(keys@));
    assert(before + added.take(0) =~= before);
    for n in 0..keys.len()
        invariant
            added == cleared_touches(clear@, texts(keys@)),
            touched(changed@) == before + added.take(n as int),
    {
        let ghost so_far = touched(changed@);
        changed.push(
            Touch {
                table: clear.target.clone(),
                key: keys[n].clone(),
                hop_gen: clear.hop_gen,
                src_changed: clear.src_changed,
            },
        );
        proof {
            assert(touched(changed@) =~= so_far.push(added[n as int]));
            assert(before + added.take(n + 1) =~= (before + added.take(n as int)).push(added[n as int]));
        }
    }
    assert(added.take(keys@.len() as int) =~= added);
}

/// The touches of an aggregate's changed groups; they carry no origin.
pub open spec fn group_touches(target: Seq<char>, groups: Seq<(String, i32)>) -> Seq<Touched> {
    groups.map_values(|g: (String, i32)| Touched { table: target, key: g.0@, hop_gen: g.1, src_changed: None })
}

/// Notes an aggregate's physically written or deleted groups, given as key and
/// hop count.
pub fn note_groups(changed: &mut Vec<Touch>, target: &str, groups: &Vec<(String, i32)>)
    ensures
        touched(final(changed)@) == touched(old(changed)@) + group_touches(target@, groups@),
{
    let ghost before = touched(changed@);
    let ghost added = group_touches(target@, groups@);
    assert(before + added.take(0) =~= before);
    for n in 0..groups.len()
        invariant
            added == group_touches(target@, groups@),
            touched(changed@) == before + added.take(n as int),
    {
        let ghost so_far = touched(changed@);
        changed.push(
            Touch { table: target.to_owned(), key: groups[n].0.clone(), hop_gen: groups[n].1, src_changed: None },
        );
        proof {
            assert(touched(changed@) =~= so_far.push(added[n as int]));
            assert(before + added.take(n + 1) =~= (before + added.take(n as int)).push(added[n as int]));
        }
    }
    assert(added.take(groups@.len() as int) =~= added);
}

/// Whether something reads a target.
pub open spec fn is_read(readers: Map<Seq<char>, bool>, target: Seq<char>) -> bool {
    readers.contains_key(target) && readers[target]
}

/// What the changed keys of targets that are read pass on: themselves, one hop deeper.
pub open spec fn passed_on(changed: Seq<Touched>, readers: Map<Seq<char>, bool>) -> Seq<Touched>
    decreases changed.len(),
{
    if changed.len() == 0 {
        seq![]
    } else {
        let before = passed_on(changed.drop_last(), readers);
        let t = changed.last();
        if is_read(readers, t.table) {
            before.push(Touched { hop_gen: (t.hop_gen + 1) as i32, ..t })
        } else {
            before
        }
    }
}

/// The request to derive a key again.
pub open spec fn is_recompute(staged: StagedChange, t: Touched) -> bool {
    match staged {
        StagedChange::Recompute { src_table, key, hop_gen, group_key, src_changed } => src_table@ == t.table && key@
            == t.key && hop_gen == t.hop_gen && group_key is None && src_changed == t.src_changed,
    }
}

/// Whether a table has a request behind the hop bound.
pub open spec fn runs_away(next: Seq<Touched>, table: Seq<char>) -> bool {
    exists|i: int| 0 <= i < next.len() && (#[trigger] next[i]).table == table && next[i].hop_gen > MAX_HOP_GEN
}

/// Whether all requests are within the hop bound.
pub open spec fn within_bound(next: Seq<Touched>) -> bool {
    forall|i: int| 0 <= i < next.len() ==> (#[trigger] next[i]).hop_gen <= MAX_HOP_GEN
}

/// Whether the error reports the hop bound: the deepest hop count, and the
/// tables whose requests are behind the bound, each once, in order.
pub open spec fn is_hop_bound_error(error: ApplyError, next: Seq<Touched>) -> bool {
    match error {
        ApplyError::HopBoundExceeded { hop_gen, tables } => {
            &&& forall|i: int| 0 <= i < next.len() ==> (#[trigger] next[i]).hop_gen <= hop_gen
            &&& exists|i: int| 0 <= i < next.len() && (#[trigger] next[i]).hop_gen == hop_gen
            &&& hop_gen > MAX_HOP_GEN
            &&& increasing(tables@)
            &&& forall|t: Seq<char>| #[trigger] among(tables@, t) <==> runs_away(next, t)
        },
        _ => false,
    }
}

/// The touches to follow: those of targets that are read, one hop deeper.
fn pass_on(changed: &Vec<Touch>, readers: &TextMap<bool>) -> (r: Vec<Touch>)
    requires
        forall|i: int| 0 <= i < changed@.len() ==> (#[trigger] changed@[i]).hop_gen < i32::MAX,
    ensures
        touched(r@) == passed_on(touched(changed@), readers@),
{
    let mut r: Vec<Touch> = Vec::new();
    let ghost all = touched(changed@);
    assert(touched(r@) =~= passed_on(all.take(0), readers@));
    for n in 0..changed.len()
        invariant
            all == touched(changed@),
            forall|i: int| 0 <= i < changed@.len() ==> (#[trigger] changed@[i]).hop_gen < i32::MAX,
            touched(r@) == passed_on(all.take(n as int), readers@),
    {
        let touch = &changed[n];
        assert(all.take(n + 1).drop_last() =~= all.take(n as int));
        let read = match readers.get(touch.table.as_str()) {
            Some(read) => *read,
            None => false,
        };
        if read {
            let ghost before = touched(r@);
            let next = Touch {
                table: touch.table.clone(),
                key: touch.key.clone(),
                hop_gen: touch.hop_gen + 1,
                src_changed: touch.src_changed,
            };
            let ghost added = next@;
            r.push(next);
            assert(touched(r@) =~= before.push(added));
        }
    }
    assert(all.take(changed@.len() as int) =~= all);
    r
}

/// The requests to stage for a later drain: every changed key of a target that
/// is read, one hop deeper, then the keys to derive again because a related row
/// changed. Where one would be behind the hop bound, nothing is staged.
pub fn propagate(changed: &Vec<Touch>, readers: &TextMap<bool>, reverse_recomputes: &Vec<Touch>) -> (r: Result<
    Vec<StagedChange>,
    ApplyError,
>)
    requires
        forall|i: int| 0 <= i < changed@.len() ==> (#[trigger] changed@[i]).hop_gen < i32::MAX,
    ensures
        ({
            let next = passed_on(touched(changed@), readers@) + touched(reverse_recomputes@);
            match r {
                Ok(staged) => {
                    &&& within_bound(next)
                    &&& staged@.len() == next.len()
                    &&& forall|i: int| 0 <= i < next.len() ==> is_recompute(#[trigger] staged@[i], next[i])
                },
                Err(e) => !within_bound(next) && is_hop_bound_error(e, next),
            }
        }),
{
    let mut next = pass_on(changed, readers);
    let ghost forward = touched(next@);
    assert(forward + touched(reverse_recomputes@).take(0) =~= forward);
    for i in 0..reverse_recomputes.len()
        invariant
            touched(next@) == forward + touched(reverse_recomputes@).take(i as int),
    {
        let ghost before = touched(next@);
        next.push(reverse_recomputes[i].duplicate());
        proof {
            let all = touched(reverse_recomputes@);
            assert(touched(next@) =~= before.push(all[i as int]));
            assert(forward + all.take(i + 1) =~= (forward + all.take(i as int)).push(all[i as int]));
        }
    }
    let ghost model = touched(next@);
    assert(touched(reverse_recomputes@).take(reverse_recomputes@.len() as int) =~= touched(reverse_recomputes@));
    let mut staged: Vec<StagedChange> = Vec::new();
    let mut away: Vec<String> = Vec::new();
    let mut worst: i32 = 0;
    for i in 0..next.len()
        invariant
            model == touched(next@),
            away@.len() == 0 <==> within_bound(model.take(i as int)),
            away@.len() == 0 ==> {
                &&& worst == 0
                &&& staged@.len() == i
                &&& forall|j: int| 0 <= j < i ==> is_recompute(#[trigger] staged@[j], model[j])
            },
            away@.len() > 0 ==> {
                &&& worst > MAX_HOP_GEN
                &&& forall|j: int| 0 <= j < i ==> (#[trigger] model[j]).hop_gen <= worst
                &&& exists|j: int| 0 <= j < i && (#[trigger] model[j]).hop_gen == worst
            },
            forall|t: Seq<char>| #[trigger] among(away@, t) <==> runs_away(model.take(i as int), t),
    {
        let touch = &next[i];
        let ghost done = model.take(i as int);
        let ghost now = model.take(i + 1);
        let ghost away_before = away@;
        assert(model[i as int] == touch@);
        assert(now =~= done.push(touch@));
        if touch.hop_gen > MAX_HOP_GEN {
            away.push(touch.table.clone());
            let ghost worst_before = worst;
            if worst < touch.hop_gen {
                worst = touch.hop_gen;
            }
            proof {
                assert(now[i as int].hop_gen > MAX_HOP_GEN);
                assert(!within_bound(now));
                if away_before.len() > 0 {
                    let j = choose|j: int| 0 <= j < i && (#[trigger] model[j]).hop_gen == worst_before;
                    if worst == worst_before {
                        assert(model[j].hop_gen == worst);
                    } else {
                        assert(model[i as int].hop_gen == worst);
                    }
                } else {
                    assert(model[i as int].hop_gen == worst);
                    assert forall|j: int| 0 <= j < i + 1 implies (#[trigger] model[j]).hop_gen <= worst by {
                        if j < i {
                            assert(done[j].hop_gen <= MAX_HOP_GEN);
                        }
                    }
                }
                assert forall|t: Seq<char>| #[trigger] among(away@, t) <==> runs_away(now, t) by {
                    if among(away@, t) {
                        let j = choose|j: int| 0 <= j < away@.len() && #[trigger] away@[j]@ == t;
                        if j < away_before.len() {
                            assert(away_before[j]@ == t);
                            assert(among(away_before, t));
                            let k = choose|k: int|
                                0 <= k < done.len() && (#[trigger] done[k]).table == t && done[k].hop_gen > MAX_HOP_GEN;
                            assert(now[k].table == t);
                        } else {
                            assert(now[i as int].table == t);
                        }
                    }
                    if runs_away(now, t) {
                        let k = choose|k: int|
                            0 <= k < now.len() && (#[trigger] now[k]).table == t && now[k].hop_gen > MAX_HOP_GEN;
                        if k < i {
                            assert(done[k].table == t);
                            assert(runs_away(done, t));
                            assert(among(away_before, t));
                            let j = choose|j: int| 0 <= j < away_before.len() && #[trigger] away_before[j]@ == t;
                            assert(away@[j]@ == t);
                        } else {
                            assert(away@[away_before.len() as int]@ == t);
                        }
                    }
                }
            }
        } else {
            staged.push(
                StagedChange::Recompute {
                    src_table: touch.table.clone(),
                    key: touch.key.clone(),
                    hop_gen: touch.hop_gen,
                    group_key: None,
                    src_changed: touch.src_changed,
                },
            );
            proof {
                assert(within_bound(now) <==> within_bound(done)) by {
                    if within_bound(now) {
                        assert forall|j: int| 0 <= j < done.len() implies (#[trigger] done[j]).hop_gen <= MAX_HOP_GEN by {
                            assert(now[j].hop_gen <= MAX_HOP_GEN);
                        }
                    }
                }
                if away_before.len() > 0 {
                    let j = choose|j: int| 0 <= j < i && (#[trigger] model[j]).hop_gen == worst;
                    assert(model[j].hop_gen == worst);
                }
                assert forall|t: Seq<char>| #[trigger] among(away@, t) <==> runs_away(now, t) by {
                    assert(among(away@, t) <==> runs_away(done, t));
                    if runs_away(done, t) {
                        let k = choose|k: int|
                            0 <= k < done.len() && (#[trigger] done[k]).table == t && done[k].hop_gen > MAX_HOP_GEN;
                        assert(now[k].table == t);
                    }
                    if runs_away(now, t) {
                        let k = choose|k: int|
                            0 <= k < now.len() && (#[trigger] now[k]).table == t && now[k].hop_gen > MAX_HOP_GEN;
                        assert(done[k].table == t);
                    }
                }
            }
        }
    }
    assert(model.take(next@.len() as int) =~= model);
    if away.len() > 0 {
        let tables = sorted_unique(&away);
        Err(ApplyError::HopBoundExceeded { hop_gen: worst, tables })
    } else {
        Ok(staged)
    }
}

/// No staged request is behind the hop bound, so propagation ends: a chain of
/// requests is no longer than the bound.
pub proof fn law_staged_requests_stay_within_the_bound(next: Seq<Touched>, staged: Seq<StagedChange>)
    requires
        within_bound(next),
        staged.len() == next.len(),
        forall|i: int| 0 <= i < next.len() ==> is_recompute(#[trigger] staged[i], next[i]),
    ensures
        forall|i: int| 0 <= i < staged.len() ==> match #[trigger] staged[i] {
            StagedChange::Recompute { hop_gen, .. } => hop_gen <= MAX_HOP_GEN,
        },
{
    assert forall|i: int| 0 <= i < staged.len() implies match #[trigger] staged[i] {
        StagedChange::Recompute { hop_gen, .. } => hop_gen <= MAX_HOP_GEN,
    } by {
        assert(is_recompute(staged[i], next[i]));
        assert(next[i].hop_gen <= MAX_HOP_GEN);
    }
}

/// Every changed key of a target that is read is passed on one hop deeper, and
/// no key of any other target is.
pub proof fn law_propagation_follows_readers(changed: Seq<Touched>, readers: Map<Seq<char>, bool>, t: Touched)
    requires
        t.hop_gen < i32::MAX,
    ensures
        changed.contains(t) && is_read(readers, t.table) ==> passed_on(changed, readers).contains(
            Touched { hop_gen: (t.hop_gen + 1) as i32, ..t },
        ),
        !is_read(readers, t.table) ==> !passed_on(changed, readers).contains(t),
    decreases changed.len(),
{
    if changed.len() > 0 {
        let front = changed.drop_last();
        let last = changed.last();
        law_propagation_follows_readers(front, readers, t);
        let before = passed_on(front, readers);
        let all = passed_on(changed, readers);
        let next = Touched { hop_gen: (t.hop_gen + 1) as i32, ..t };
        if changed.contains(t) && is_read(readers, t.table) {
            let i = choose|i: int| 0 <= i < changed.len() && changed[i] == t;
            if i < front.len() {
                assert(front[i] == t);
                assert(front.contains(t));
                let k = choose|k: int| 0 <= k < before.len() && before[k] == next;
                assert(all[k] == next);
            } else {
                assert(all[before.len() as int] == next);
            }
        }
        if !is_read(readers, t.table) && all.contains(t) {
            let k = choose|k: int| 0 <= k < all.len() && all[k] == t;
            if k < before.len() {
                assert(before[k] == t);
                assert(before.contains(t));
            }
        }
    }
}

/// The last write of a key says what is carried on from it.
pub proof fn law_the_last_write_counts(writes: Seq<WriteModel>, key: Seq<char>, value: (i32, Option<SourceTime>))
    ensures
        last_write(writes, key) == Some(value) <==> exists|i: int|
            0 <= i < writes.len() && (#[trigger] writes[i]).key == key && (writes[i].hop_gen, writes[i].src_changed) == value && forall|j: int|
                i < j < writes.len() ==> !((#[trigger] writes[j]).key == key),
    decreases writes.len(),
{
    if writes.len() > 0 {
        let front = writes.drop_last();
        let n = writes.len() - 1;
        law_the_last_write_counts(front, key, value);
        if writes[n].key == key {
            if (writes[n].hop_gen, writes[n].src_changed) == value {
                let i = n;
                assert(writes[i].key == key);
            }
        } else {
            if last_write(front, key) == Some(value) {
                let i = choose|i: int|
                    0 <= i < front.len() && (#[trigger] front[i]).key == key && (front[i].hop_gen, front[i].src_changed) == value && forall|j: int|
                i < j < front.len() ==> !((#[trigger] front[j]).key == key);
                assert(writes[i] == front[i]);
                assert forall|j: int| i < j < writes.len() implies !((#[trigger] writes[j]).key == key) by {
                    if j < n {
                        assert(front[j] == writes[j]);
                    }
                }
            }
            if exists|i: int|
                0 <= i < writes.len() && (#[trigger] writes[i]).key == key && (writes[i].hop_gen, writes[i].src_changed) == value && forall|j: int|
                i < j < writes.len() ==> !((#[trigger] writes[j]).key == key) {
                let i = choose|i: int|
                    0 <= i < writes.len() && (#[trigger] writes[i]).key == key && (writes[i].hop_gen, writes[i].src_changed) == value && forall|j: int|
                i < j < writes.len() ==> !((#[trigger] writes[j]).key == key);
                assert(i < n);
                assert(front[i] == writes[i]);
                assert forall|j: int| i < j < front.len() implies !((#[trigger] front[j]).key == key) by {
                    assert(front[j] == writes[j]);
                }
            }
        }
    }
}

/// The last delete of a key says what is carried on from it.
pub proof fn law_the_last_delete_counts(deletes: Seq<DeleteModel>, key: Seq<char>, value: (i32, Option<SourceTime>))
    ensures
        last_delete(deletes, key) == Some(value) <==> exists|i: int|
            0 <= i < deletes.len() && (#[trigger] deletes[i]).key == key && (deletes[i].hop_gen, deletes[i].src_changed) == value && forall|j: int|
                i < j < deletes.len() ==> !((#[trigger] deletes[j]).key == key),
    decreases deletes.len(),
{
    if deletes.len() > 0 {
        let front = deletes.drop_last();
        let n = deletes.len() - 1;
        law_the_last_delete_counts(front, key, value);
        if deletes[n].key == key {
            if (deletes[n].hop_gen, deletes[n].src_changed) == value {
                let i = n;
                assert(deletes[i].key == key);
            }
        } else {
            if last_delete(front, key) == Some(value) {
                let i = choose|i: int|
                    0 <= i < front.len() && (#[trigger] front[i]).key == key && (front[i].hop_gen, front[i].src_changed) == value && forall|j: int|
                i < j < front.len() ==> !((#[trigger] front[j]).key == key);
                assert(deletes[i] == front[i]);
                assert forall|j: int| i < j < deletes.len() implies !((#[trigger] deletes[j]).key == key) by {
                    if j < n {
                        assert(front[j] == deletes[j]);
                    }
                }
            }
            if exists|i: int|
                0 <= i < deletes.len() && (#[trigger] deletes[i]).key == key && (deletes[i].hop_gen, deletes[i].src_changed) == value && forall|j: int|
                i < j < deletes.len() ==> !((#[trigger] deletes[j]).key == key) {
                let i = choose|i: int|
                    0 <= i < deletes.len() && (#[trigger] deletes[i]).key == key && (deletes[i].hop_gen, deletes[i].src_changed) == value && forall|j: int|
                i < j < deletes.len() ==> !((#[trigger] deletes[j]).key == key);
                assert(i < n);
                assert(front[i] == deletes[i]);
                assert forall|j: int| i < j < front.len() implies !((#[trigger] front[j]).key == key) by {
                    assert(front[j] == deletes[j]);
                }
            }
        }
    }
}

/// A key that is written carries on its last write, unless it is deleted too: then
/// its last delete. A key that is neither carries on nothing.
pub proof fn law_keys_carry_their_origin(writes: Seq<WriteModel>, deletes: Seq<DeleteModel>, key: Seq<char>)
    ensures
        forall|i: int|
            0 <= i < deletes.len() && (#[trigger] deletes[i]).key == key && (forall|j: int|
                i < j < deletes.len() ==> (#[trigger] deletes[j]).key != key) ==> carried(writes, deletes, key) == (
                deletes[i].hop_gen,
                deletes[i].src_changed,
            ),
        forall|i: int|
            0 <= i < writes.len() && (#[trigger] writes[i]).key == key && (forall|j: int|
                i < j < writes.len() ==> (#[trigger] writes[j]).key != key) && (forall|j: int|
                0 <= j < deletes.len() ==> (#[trigger] deletes[j]).key != key) ==> carried(writes, deletes, key) == (
                writes[i].hop_gen,
                writes[i].src_changed,
            ),
        (forall|j: int| 0 <= j < writes.len() ==> (#[trigger] writes[j]).key != key) && (forall|j: int|
            0 <= j < deletes.len() ==> (#[trigger] deletes[j]).key != key) ==> carried(writes, deletes, key) == (
            0i32,
            None::<SourceTime>,
        ),
{
    assert forall|i: int|
        0 <= i < deletes.len() && (#[trigger] deletes[i]).key == key && (forall|j: int|
            i < j < deletes.len() ==> (#[trigger] deletes[j]).key != key) implies carried(writes, deletes, key) == (
        deletes[i].hop_gen,
        deletes[i].src_changed,
    ) by {
        law_the_last_delete_counts(deletes, key, (deletes[i].hop_gen, deletes[i].src_changed));
    }
    if forall|j: int| 0 <= j < deletes.len() ==> (#[trigger] deletes[j]).key != key {
        if let Some(found) = last_delete(deletes, key) {
            law_the_last_delete_counts(deletes, key, found);
        }
        assert forall|i: int|
            0 <= i < writes.len() && (#[trigger] writes[i]).key == key && (forall|j: int|
                i < j < writes.len() ==> (#[trigger] writes[j]).key != key) implies carried(writes, deletes, key) == (
            writes[i].hop_gen,
            writes[i].src_changed,
        ) by {
            law_the_last_write_counts(writes, key, (writes[i].hop_gen, writes[i].src_changed));
        }
        if let Some(found) = last_write(writes, key) {
            law_the_last_write_counts(writes, key, found);
        }
    }
}

/// What a target's applied keys touch: each its own key in the target, with what
/// it carries; a cleared key with its clear's, a group with its own hop count and
/// no origin.
pub proof fn law_applied_keys_are_touched(
    target: Seq<char>,
    writes: Seq<WriteModel>,
    deletes: Seq<DeleteModel>,
    clear: ClearModel,
    keys: Seq<Seq<char>>,
    groups: Seq<(String, i32)>,
)
    ensures
        applied_touches(target, writes, deletes, keys).len() == keys.len(),
        forall|i: int|
            0 <= i < keys.len() ==> {
                let t = #[trigger] applied_touches(target, writes, deletes, keys)[i];
                t.table == target && t.key == keys[i] && t.hop_gen == carried(writes, deletes, keys[i]).0
                    && t.src_changed == carried(writes, deletes, keys[i]).1
            },
        cleared_touches(clear, keys).len() == keys.len(),
        forall|i: int|
            0 <= i < keys.len() ==> {
                let t = #[trigger] cleared_touches(clear, keys)[i];
                t.table == clear.target && t.key == keys[i] && t.hop_gen == clear.hop_gen && t.src_changed
                    == clear.src_changed
            },
        group_touches(target, groups).len() == groups.len(),
        forall|i: int|
            0 <= i < groups.len() ==> {
                let t = #[trigger] group_touches(target, groups)[i];
                t.table == target && t.key == groups[i].0@ && t.hop_gen == groups[i].1 && t.src_changed is None
            },
{
}

/// The touched keys of targets that are read, and no others, are passed on in
/// order, one hop further and with their origins.
pub proof fn law_read_targets_are_passed_on(changed: Seq<Touched>, readers: Map<Seq<char>, bool>)
    ensures
        passed_on(changed, readers) == changed.filter(|t: Touched| readers.contains_key(t.table) && readers[t.table]).map_values(|t: Touched|
                Touched { table: t.table, key: t.key, hop_gen: (t.hop_gen + 1) as i32, src_changed: t.src_changed }),
    decreases changed.len(),
{
    let pass = |t: Touched| readers.contains_key(t.table) && readers[t.table];
    let f = |t: Touched|
                Touched { table: t.table, key: t.key, hop_gen: (t.hop_gen + 1) as i32, src_changed: t.src_changed };
    if changed.len() == 0 {
        lemma_filter_none(changed, pass);
        assert(changed.take(0) =~= changed);
        assert(passed_on(changed, readers) =~= changed.filter(pass).map_values(f));
    } else {
        let front = changed.drop_last();
        law_read_targets_are_passed_on(front, readers);
        lemma_filter_push(front, changed.last(), pass);
        assert(changed =~= front.push(changed.last()));
        assert(front.filter(pass).push(changed.last()).map_values(f) =~= front.filter(pass).map_values(f).push(
            f(changed.last()),
        ));
        assert(passed_on(changed, readers) =~= changed.filter(pass).map_values(f));
    }
}

/// A staged request asks for exactly one key of one table, with its hop count and
/// origin, and for no group.
pub proof fn law_requests_name_their_key(staged: StagedChange, t: Touched)
    requires
        is_recompute(staged, t),
    ensures
        match staged {
            StagedChange::Recompute { src_table, key, hop_gen, group_key, src_changed } => {
                &&& src_table@ == t.table
                &&& key@ == t.key
                &&& hop_gen == t.hop_gen
                &&& group_key is None
                &&& src_changed == t.src_changed
            },
        },
{
}

/// What is passed on may go up to thirty-two hops: one request beyond that rejects
/// all of them, and names its table.
pub proof fn law_the_hop_bound(next: Seq<Touched>, i: int)
    requires
        0 <= i < next.len(),
    ensures
        MAX_HOP_GEN == 32,
        next[i].hop_gen > 32 ==> !within_bound(next) && runs_away(next, next[i].table),
        (forall|k: int| 0 <= k < next.len() ==> (#[trigger] next[k]).hop_gen <= 32) ==> within_bound(next),
{
}

/// The categories of errors that wrap no other.
pub proof fn law_categories(e: ApplyError)
    ensures
        e is ClaimLost || e is VersionFenceMiss || e is HopBoundExceeded ==> e.category() is Internal,
        e is SourceTableDropped || e is ColumnNotPaused ==> e.category() is NotFound,
        e is DefinitionNotLive ==> e.category() is Conflict,
        e matches ApplyError::Catalog(inner) ==> e.category() == inner.category(),
        e matches ApplyError::Validate(inner) ==> e.category() == inner.category(),
        e matches ApplyError::Staging(code) ==> e.category() == code,
        e matches ApplyError::Ddl(code) ==> e.category() == code,
        e matches ApplyError::Eval(code) ==> e.category() == code,
        e matches ApplyError::Backfill(code) ==> e.category() == code,
        e matches ApplyError::Db(code) ==> e.category() == code,
        e matches ApplyError::Pool(code) ==> e.category() == code,
{
}

proof fn lemma_has_within(before: Seq<char>, part: Seq<char>, after: Seq<char>)
    ensures
        has_within(before + part + after, part),
{
    let i = before.len() as int;
    assert((before + part + after).subrange(i, i + part.len()) =~= part);
}

/// An error names in its words what it is about: the table, the column, or the
/// error that it wraps.
pub proof fn law_messages_name_what_failed(e: ApplyError, cause: Seq<char>)
    ensures
        e is Staging || e is Catalog || e is Ddl || e is Eval || e is Validate || e is Backfill || e is Db || e is Pool
            ==> has_within(e.text(cause), cause),
        e matches ApplyError::VersionFenceMiss { src_table } ==> has_within(e.text(cause), src_table@),
        e matches ApplyError::SourceTableDropped { source_table } ==> has_within(e.text(cause), source_table@),
        e matches ApplyError::ColumnNotPaused { transform, column } ==> has_within(
            e.text(cause),
            transform@ + seq!['.'] + column@,
        ),
        e matches ApplyError::DefinitionNotLive { transform } ==> has_within(e.text(cause), transform@),
        e matches ApplyError::HopBoundExceeded { hop_gen, tables } ==> has_within(
            e.text(cause),
            int_text(hop_gen as int),
        ) && has_within(e.text(cause), debug_list(texts(tables@))),
{
    let none: Seq<char> = seq![];
    match e {
        ApplyError::Staging(_) => {
            lemma_has_within("staging ring error: "@, cause, none);
            assert("staging ring error: "@ + cause + none =~= e.text(cause));
        },
        ApplyError::Catalog(_) => {
            lemma_has_within("transform catalog error: "@, cause, none);
            assert("transform catalog error: "@ + cause + none =~= e.text(cause));
        },
        ApplyError::Ddl(_) => {
            lemma_has_within("target-table DDL error: "@, cause, none);
            assert("target-table DDL error: "@ + cause + none =~= e.text(cause));
        },
        ApplyError::Eval(_) => {
            lemma_has_within("calculated-field evaluation error: "@, cause, none);
            assert("calculated-field evaluation error: "@ + cause + none =~= e.text(cause));
        },
        ApplyError::Validate(_) => {
            lemma_has_within("calculated-field type inference error: "@, cause, none);
            assert("calculated-field type inference error: "@ + cause + none =~= e.text(cause));
        },
        ApplyError::Backfill(_) => {
            lemma_has_within("calculated-field alias substitution error: "@, cause, none);
            assert("calculated-field alias substitution error: "@ + cause + none =~= e.text(cause));
        },
        ApplyError::Db(_) => {
            lemma_has_within("apply database error: "@, cause, none);
            assert("apply database error: "@ + cause + none =~= e.text(cause));
        },
        ApplyError::Pool(_) => {
            lemma_has_within("failed to acquire a connection: "@, cause, none);
            assert("failed to acquire a connection: "@ + cause + none =~= e.text(cause));
        },
        ApplyError::ClaimLost => {},
        ApplyError::VersionFenceMiss { src_table } => {
            lemma_has_within(
                "source table '"@,
                src_table@,
                "' changed definitions mid-drain; retry against the current catalog"@,
            );
        },
        ApplyError::HopBoundExceeded { hop_gen, tables } => {
            let text = e.text(cause);
            let front = "downstream propagation exceeded the hop bound (hop_gen "@;
            let hop = int_text(hop_gen as int);
            let rest = " > "@ + int_text(MAX_HOP_GEN as int) + ") through: "@ + debug_list(texts(tables@));
            lemma_has_within(front, hop, rest);
            assert(front + hop + rest =~= text);
            let start = front + hop + " > "@ + int_text(MAX_HOP_GEN as int) + ") through: "@;
            lemma_has_within(start, debug_list(texts(tables@)), none);
            assert(start + debug_list(texts(tables@)) + none =~= text);
        },
        ApplyError::SourceTableDropped { source_table } => {
            lemma_has_within("source table '"@, source_table@, "' no longer exists; purging its staged rows"@);
        },
        ApplyError::ColumnNotPaused { transform, column } => {
            reveal_strlit(".");
            let named = transform@ + seq!['.'] + column@;
            let end = "' is not currently paused (or is not a column of that definition)"@;
            lemma_has_within("'"@, named, end);
            assert("."@ =~= seq!['.']);
            assert("'"@ + named + end =~= e.text(cause));
        },
        ApplyError::DefinitionNotLive { transform } => {
            lemma_has_within(
                "'"@,
                transform@,
                "' is not currently live (it may still be backfilling); resuming a paused column requires its definition to be live first"@,
            );
        },
    }
}

/// Whether an error is what a failure to find a primary key means.
pub open spec fn is_primary_key_error(
    error: ApplyError,
    source_key: Seq<char>,
    failure: PrimaryKeyFailure,
    code: ErrorCode,
) -> bool {
    match error {
        ApplyError::SourceTableDropped { source_table } => match failure {
            PrimaryKeyFailure::UndefinedTable => source_table@ == source_key,
            PrimaryKeyFailure::NoPrimaryKey { source_table: t, missing } => missing && source_table@ == t@,
            PrimaryKeyFailure::Other(_) => false,
        },
        ApplyError::Ddl(c) => match failure {
            PrimaryKeyFailure::UndefinedTable => false,
            PrimaryKeyFailure::NoPrimaryKey { missing, .. } => !missing && c == code,
            PrimaryKeyFailure::Other(other) => c == other,
        },
        _ => false,
    }
}

/// A table counts as dropped exactly where it is not defined, or has no primary key
/// because it is missing; any other failure is one of the table's definition.
pub proof fn law_dropped_tables(error: ApplyError, source_key: Seq<char>, failure: PrimaryKeyFailure, code: ErrorCode)
    requires
        is_primary_key_error(error, source_key, failure, code),
    ensures
        error is SourceTableDropped <==> failure is UndefinedTable || (failure matches PrimaryKeyFailure::NoPrimaryKey {
            missing,
            ..
        } && missing),
        error is Ddl <==> !(error is SourceTableDropped),
        failure is UndefinedTable ==> (error matches ApplyError::SourceTableDropped { source_table } && source_table@
            == source_key),
{
}

/// The error of requests beyond the hop bound has the deepest of their hop counts,
/// and names in order, each once, the tables that have one, and no others.
pub proof fn law_the_hop_bound_error_names_its_tables(error: ApplyError, next: Seq<Touched>, i: int)
    requires
        is_hop_bound_error(error, next),
        0 <= i < next.len(),
    ensures
        match error {
            ApplyError::HopBoundExceeded { hop_gen, tables } => {
                &&& next[i].hop_gen <= hop_gen
                &&& exists|k: int| 0 <= k < next.len() && (#[trigger] next[k]).hop_gen == hop_gen
                &&& hop_gen > 32
                &&& next[i].hop_gen > 32 ==> among(tables@, next[i].table)
                &&& forall|t: int|
                    0 <= t < tables@.len() ==> exists|k: int|
                        0 <= k < next.len() && (#[trigger] next[k]).table == (#[trigger] tables@[t])@ && next[k].hop_gen
                            > 32
                &&& forall|s: int, t: int|
                    0 <= s < t < tables@.len() ==> text_less((#[trigger] tables@[s])@, (#[trigger] tables@[t])@)
            },
            _ => false,
        },
{
    if let ApplyError::HopBoundExceeded { hop_gen, tables } = error {
        assert forall|t: int| 0 <= t < tables@.len() implies exists|k: int|
            0 <= k < next.len() && (#[trigger] next[k]).table == (#[trigger] tables@[t])@ && next[k].hop_gen > 32 by {
            assert(among(tables@, tables@[t]@));
            assert(runs_away(next, tables@[t]@));
        }
        if next[i].hop_gen > 32 {
            assert(runs_away(next, next[i].table));
        }
    }
}

} // verus!
