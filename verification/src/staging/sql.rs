//! The statements that apply one target's plan.
//!
//! Identifiers come in quoted; values are bound as parameters, never spelled
//! out in a statement's text.

use super::plan::{DeleteModel, TargetDelete, TargetWrite, WriteModel};
use crate::defs::ast::ValueType;
use crate::map::{among, has_key};
use crate::order::{increasing, sorted_unique};
use crate::text::{has_within, join_texts, joined, nat_text, texts, u64_text};
use crate::lists::{lemma_filter_none, lemma_filter_push};
use vstd::prelude::*;

verus! {

/// The most parameters that one statement binds, unless a single row needs more.
pub const MAX_WRITE_PARAMS_PER_STATEMENT: usize = 60000;

/// A target table as statements spell it.
#[derive(Debug, Clone, PartialEq, Eq)]
pub struct TargetIdents {
    /// The table, quoted, with its schema.
    pub table: String,
    /// The primary key column, quoted.
    pub pk: String,
    /// The primary key's type.
    pub pk_cast: String,
    /// The calculated fields, quoted.
    pub fields: Vec<String>,
}

/// A statement and the texts that its parameters bind.
#[derive(Debug, Clone, PartialEq, Eq)]
pub struct Statement {
    /// The statement's text.
    pub sql: String,
    /// What its parameters bind, in order.
    pub params: Vec<Option<String>>,
}

/// The keys of writes, then those of deletions.
pub open spec fn is_plan_key(writes: Seq<TargetWrite>, deletes: Seq<TargetDelete>, key: Seq<char>) -> bool {
    ||| exists|i: int| 0 <= i < writes.len() && (#[trigger] writes[i]).pk_text@ == key
    ||| exists|i: int| 0 <= i < deletes.len() && (#[trigger] deletes[i]).pk_text@ == key
}

/// The keys that are locked before anything is written: all that are written or
/// deleted, each once, in ascending order.
pub fn lock_keys(writes: &Vec<TargetWrite>, deletes: &Vec<TargetDelete>) -> (r: Vec<String>)
    ensures
        increasing(r@),
        forall|k: Seq<char>| #[trigger] among(r@, k) <==> is_plan_key(writes@, deletes@, k),
{
    let mut keys: Vec<String> = Vec::new();
    for i in 0..writes.len()
        invariant
            keys@.len() == i,
            forall|j: int| 0 <= j < i ==> #[trigger] keys@[j]@ == writes@[j].pk_text@,
    {
        keys.push(writes[i].pk_text.clone());
    }
    let ghost n = writes@.len() as int;
    for i in 0..deletes.len()
        invariant
            n == writes@.len(),
            keys@.len() == n + i,
            forall|j: int| 0 <= j < n ==> #[trigger] keys@[j]@ == writes@[j].pk_text@,
            forall|j: int| n <= j < n + i ==> #[trigger] keys@[j]@ == deletes@[j - n].pk_text@,
    {
        keys.push(deletes[i].pk_text.clone());
    }
    proof {
        assert forall|k: Seq<char>| #[trigger] among(keys@, k) <==> is_plan_key(writes@, deletes@, k) by {
            if among(keys@, k) {
                let j = choose|j: int| 0 <= j < keys@.len() && #[trigger] keys@[j]@ == k;
                if j < n {
                    assert(writes@[j].pk_text@ == k);
                } else {
                    assert(deletes@[j - n].pk_text@ == k);
                }
            }
            if exists|i: int| 0 <= i < writes@.len() && (#[trigger] writes@[i]).pk_text@ == k {
                let i = choose|i: int| 0 <= i < writes@.len() && (#[trigger] writes@[i]).pk_text@ == k;
                assert(keys@[i]@ == k);
            }
            if exists|i: int| 0 <= i < deletes@.len() && (#[trigger] deletes@[i]).pk_text@ == k {
                let i = choose|i: int| 0 <= i < deletes@.len() && (#[trigger] deletes@[i]).pk_text@ == k;
                assert(keys@[n + i]@ == k);
            }
        }
    }
    sorted_unique(&keys)
}

/// The statement that locks keys, in ascending order.
pub open spec fn lock_text(table: Seq<char>, pk: Seq<char>, cast: Seq<char>) -> Seq<char> {
    "select "@ + pk + " from "@ + table + " where "@ + pk + " = any($1::text[]::"@ + cast + "[]) order by "@ + pk
        + " for update"@
}

/// The statement that locks keys, in ascending order.
pub fn lock_sql(idents: &TargetIdents) -> (r: String)
    ensures
        r@ == lock_text(idents.table@, idents.pk@, idents.pk_cast@),
{
    let mut r = String::new();
    r.append("select ");
    r.append(idents.pk.as_str());
    r.append(" from ");
    r.append(idents.table.as_str());
    r.append(" where ");
    r.append(idents.pk.as_str());
    r.append(" = any($1::text[]::");
    r.append(idents.pk_cast.as_str());
    r.append("[]) order by ");
    r.append(idents.pk.as_str());
    r.append(" for update");
    assert(r@ =~= lock_text(idents.table@, idents.pk@, idents.pk_cast@));
    r
}

/// The statement that deletes keys and returns those it found.
pub open spec fn delete_text(table: Seq<char>, pk: Seq<char>, cast: Seq<char>) -> Seq<char> {
    "delete from "@ + table + " where "@ + pk + " = any($1::text[]::"@ + cast + "[]) returning "@ + pk
        + "::text as pk"@
}

/// The statement that deletes keys and returns those it found.
pub fn delete_sql(idents: &TargetIdents) -> (r: String)
    ensures
        r@ == delete_text(idents.table@, idents.pk@, idents.pk_cast@),
{
    let mut r = String::new();
    r.append("delete from ");
    r.append(idents.table.as_str());
    r.append(" where ");
    r.append(idents.pk.as_str());
    r.append(" = any($1::text[]::");
    r.append(idents.pk_cast.as_str());
    r.append("[]) returning ");
    r.append(idents.pk.as_str());
    r.append("::text as pk");
    assert(r@ =~= delete_text(idents.table@, idents.pk@, idents.pk_cast@));
    r
}

/// The statement that clears a table and returns the keys it held.
pub open spec fn clear_text(table: Seq<char>, pk: Seq<char>) -> Seq<char> {
    "delete from "@ + table + " returning "@ + pk + "::text as pk"@
}

/// The statement that clears a table and returns the keys it held.
pub fn clear_sql(table: &str, pk: &str) -> (r: String)
    ensures
        r@ == clear_text(table@, pk@),
{
    let mut r = String::new();
    r.append("delete from ");
    r.append(table);
    r.append(" returning ");
    r.append(pk);
    r.append("::text as pk");
    assert(r@ =~= clear_text(table@, pk@));
    r
}

/// The statement that reads the rows of given keys, one column for each line.
pub open spec fn live_rows_text(table: Seq<char>, pk: Seq<char>, cast: Seq<char>) -> Seq<char> {
    "select m.k, e.key, e.value from (select "@ + pk + "::text as k, to_jsonb(t.*) as doc from "@ + table
        + " t where "@ + pk + " = any($1::text[]::"@ + cast
        + "[])) m cross join lateral jsonb_each_text(m.doc) e"@
}

/// The statement that reads the rows of given keys, one column for each line.
pub fn live_rows_sql(table: &str, pk: &str, cast: &str) -> (r: String)
    ensures
        r@ == live_rows_text(table@, pk@, cast@),
{
    let mut r = String::new();
    r.append("select m.k, e.key, e.value from (select ");
    r.append(pk);
    r.append("::text as k, to_jsonb(t.*) as doc from ");
    r.append(table);
    r.append(" t where ");
    r.append(pk);
    r.append(" = any($1::text[]::");
    r.append(cast);
    r.append("[])) m cross join lateral jsonb_each_text(m.doc) e");
    assert(r@ =~= live_rows_text(table@, pk@, cast@));
    r
}

/// The statement that finds the keys of rows with given join keys.
pub open spec fn join_matches_text(table: Seq<char>, pk: Seq<char>, column: Seq<char>) -> Seq<char> {
    "select "@ + pk + "::text, "@ + column + "::text from "@ + table + " where "@ + column
        + "::text = any($1::text[])"@
}

/// The statement that finds the keys of rows with given join keys.
pub fn join_matches_sql(table: &str, pk: &str, column: &str) -> (r: String)
    ensures
        r@ == join_matches_text(table@, pk@, column@),
{
    let mut r = String::new();
    r.append("select ");
    r.append(pk);
    r.append("::text, ");
    r.append(column);
    r.append("::text from ");
    r.append(table);
    r.append(" where ");
    r.append(column);
    r.append("::text = any($1::text[])");
    assert(r@ =~= join_matches_text(table@, pk@, column@));
    r
}

/// The statement that finds the keys of rows that have a join key at all.
pub open spec fn joined_keys_text(table: Seq<char>, pk: Seq<char>, column: Seq<char>) -> Seq<char> {
    "select "@ + pk + "::text from "@ + table + " where "@ + column + " is not null"@
}

/// The statement that finds the keys of rows that have a join key at all.
pub fn joined_keys_sql(table: &str, pk: &str, column: &str) -> (r: String)
    ensures
        r@ == joined_keys_text(table@, pk@, column@),
{
    let mut r = String::new();
    r.append("select ");
    r.append(pk);
    r.append("::text from ");
    r.append(table);
    r.append(" where ");
    r.append(column);
    r.append(" is not null");
    assert(r@ =~= joined_keys_text(table@, pk@, column@));
    r
}

/// The statement that reads related rows by join key, one column for each line.
pub open spec fn related_rows_text(table: Seq<char>, column: Seq<char>) -> Seq<char> {
    "select m.jk, m.rn, e.key, e.value from (select "@ + column
        + "::text as jk, row_number() over () as rn, to_jsonb(t.*) as doc from "@ + table + " t where "@ + column
        + "::text = any($1::text[])) m cross join lateral jsonb_each_text(m.doc) e"@
}

/// The statement that reads related rows by join key, one column for each line.
pub fn related_rows_sql(table: &str, column: &str) -> (r: String)
    ensures
        r@ == related_rows_text(table@, column@),
{
    let mut r = String::new();
    r.append("select m.jk, m.rn, e.key, e.value from (select ");
    r.append(column);
    r.append("::text as jk, row_number() over () as rn, to_jsonb(t.*) as doc from ");
    r.append(table);
    r.append(" t where ");
    r.append(column);
    r.append("::text = any($1::text[])) m cross join lateral jsonb_each_text(m.doc) e");
    assert(r@ =~= related_rows_text(table@, column@));
    r
}

/// The statement that clears a table.
pub open spec fn clear_all_text(table: Seq<char>) -> Seq<char> {
    "delete from "@ + table
}

/// The statement that clears a table.
pub fn clear_all_sql(table: &str) -> (r: String)
    ensures
        r@ == clear_all_text(table@),
{
    let mut r = String::new();
    r.append("delete from ");
    r.append(table);
    assert(r@ =~= clear_all_text(table@));
    r
}

/// Each field with `before` in front of it.
pub open spec fn prefixed(before: Seq<char>, fields: Seq<Seq<char>>) -> Seq<Seq<char>> {
    fields.map_values(|f: Seq<char>| before + f)
}

fn prefix_all(before: &str, fields: &Vec<String>) -> (r: Vec<String>)
    ensures
        texts(r@) == prefixed(before@, texts(fields@)),
{
    let mut r: Vec<String> = Vec::new();
    for i in 0..fields.len()
        invariant
            r@.len() == i,
            forall|j: int| 0 <= j < i ==> #[trigger] r@[j]@ == before@ + fields@[j]@,
    {
        let mut text = String::new();
        text.append(before);
        text.append(fields[i].as_str());
        assert(text@ =~= before@ + fields@[i as int]@);
        r.push(text);
    }
    assert(texts(r@) =~= prefixed(before@, texts(fields@)));
    r
}

/// Each field set to its excluded value.
pub open spec fn set_items(fields: Seq<Seq<char>>) -> Seq<Seq<char>> {
    fields.map_values(|f: Seq<char>| f + " = excluded."@ + f)
}

fn set_all(fields: &Vec<String>) -> (r: Vec<String>)
    ensures
        texts(r@) == set_items(texts(fields@)),
{
    let mut r: Vec<String> = Vec::new();
    for i in 0..fields.len()
        invariant
            r@.len() == i,
            forall|j: int| 0 <= j < i ==> #[trigger] r@[j]@ == fields@[j]@ + " = excluded."@ + fields@[j]@,
    {
        let mut text = String::new();
        text.append(fields[i].as_str());
        text.append(" = excluded.");
        text.append(fields[i].as_str());
        assert(text@ =~= fields@[i as int]@ + " = excluded."@ + fields@[i as int]@);
        r.push(text);
    }
    assert(texts(r@) =~= set_items(texts(fields@)));
    r
}

/// What happens to a key that is there: nothing where no field is written, else
/// an update, unless it would change nothing.
pub open spec fn on_conflict_text(table: Seq<char>, pk: Seq<char>, fields: Seq<Seq<char>>) -> Seq<char> {
    if fields.len() == 0 {
        "on conflict ("@ + pk + ") do nothing"@
    } else {
        "on conflict ("@ + pk + ") do update set "@ + joined(set_items(fields), ", "@) + " where ("@ + joined(
            prefixed(table + "."@, fields),
            ", "@,
        ) + ") is distinct from ("@ + joined(prefixed("excluded."@, fields), ", "@) + ")"@
    }
}

fn on_conflict(idents: &TargetIdents) -> (r: String)
    ensures
        r@ == on_conflict_text(idents.table@, idents.pk@, texts(idents.fields@)),
{
    let mut r = String::new();
    r.append("on conflict (");
    r.append(idents.pk.as_str());
    if idents.fields.len() == 0 {
        r.append(") do nothing");
    } else {
        r.append(") do update set ");
        let sets = set_all(&idents.fields);
        let set_list = join_texts(&sets, ", ");
        r.append(set_list.as_str());
        r.append(" where (");
        let mut qualifier = String::new();
        qualifier.append(idents.table.as_str());
        qualifier.append(".");
        assert(qualifier@ =~= idents.table@ + "."@);
        let target = prefix_all(qualifier.as_str(), &idents.fields);
        let target_cols = join_texts(&target, ", ");
        r.append(target_cols.as_str());
        r.append(") is distinct from (");
        let excluded = prefix_all("excluded.", &idents.fields);
        let excluded_cols = join_texts(&excluded, ", ");
        r.append(excluded_cols.as_str());
        r.append(")");
    }
    assert(r@ =~= on_conflict_text(idents.table@, idents.pk@, texts(idents.fields@)));
    r
}

/// The `n`-th parameter, as text cast to a type.
pub open spec fn placeholder(n: nat, cast: Seq<char>) -> Seq<char> {
    "$"@ + nat_text(n) + "::text::"@ + cast
}

fn push_placeholder(parts: &mut Vec<String>, n: usize, cast: &str)
    ensures
        texts(final(parts)@) == texts(old(parts)@).push(placeholder(n as nat, cast@)),
{
    let ghost before = texts(parts@);
    let mut text = String::new();
    text.append("$");
    let number = u64_text(n as u64);
    text.append(number.as_str());
    text.append("::text::");
    text.append(cast);
    assert(text@ =~= placeholder(n as nat, cast@));
    parts.push(text);
    assert(texts(parts@) =~= before.push(placeholder(n as nat, cast@)));
}

/// The placeholders of the row at `row` in a statement: the key's, then the
/// fields', numbered on from the rows before it.
pub open spec fn row_placeholders(row: nat, cast: Seq<char>, types: Seq<ValueType>) -> Seq<Seq<char>> {
    let base = row * (1 + types.len());
    seq![placeholder(base + 1, cast)] + Seq::new(types.len(), |j: int| placeholder((base + 2 + j) as nat, types[j].name()))
}

/// The row at `row` in a statement.
pub open spec fn row_text(row: nat, cast: Seq<char>, types: Seq<ValueType>) -> Seq<char> {
    "("@ + joined(row_placeholders(row, cast, types), ", "@) + ")"@
}

fn row_sql(row: usize, cast: &str, types: &Vec<ValueType>) -> (r: String)
    requires
        row * (1 + types@.len()) + 1 + types@.len() <= usize::MAX,
    ensures
        r@ == row_text(row as nat, cast@, types@),
{
    let cols: usize = 1 + types.len();
    proof {
        assert(row * cols <= usize::MAX) by (nonlinear_arith)
            requires
                row * cols + cols <= usize::MAX,
                cols >= 0,
        ;
    }
    let base: usize = row * cols;
    let mut parts: Vec<String> = Vec::new();
    let ghost all = row_placeholders(row as nat, cast@, types@);
    assert(base as nat == row as nat * (1 + types@.len()));
    push_placeholder(&mut parts, base + 1, cast);
    assert(texts(parts@) =~= all.take(1));
    for j in 0..types.len()
        invariant
            cols == 1 + types@.len(),
            base + cols <= usize::MAX,
            base as nat == row as nat * (1 + types@.len()),
            all == row_placeholders(row as nat, cast@, types@),
            texts(parts@) == all.take(1 + j),
    {
        let ghost before = texts(parts@);
        push_placeholder(&mut parts, base + 2 + j, types[j].as_sql());
        assert(texts(parts@) =~= all.take(2 + j)) by {
            assert(all[1 + j] == placeholder((base + 2 + j) as nat, types@[j as int].name()));
        }
    }
    assert(all.take(1 + types@.len() as int) =~= all);
    let list = join_texts(&parts, ", ");
    let mut r = String::new();
    r.append("(");
    r.append(list.as_str());
    r.append(")");
    assert(r@ =~= row_text(row as nat, cast@, types@));
    r
}

/// The columns that are inserted: the key, then the fields.
pub open spec fn column_list(pk: Seq<char>, fields: Seq<Seq<char>>) -> Seq<char> {
    joined(seq![pk] + fields, ", "@)
}

/// The statement that writes the given number of rows and returns the keys that
/// it changed.
pub open spec fn insert_text(
    table: Seq<char>,
    pk: Seq<char>,
    cast: Seq<char>,
    fields: Seq<Seq<char>>,
    types: Seq<ValueType>,
    rows: nat,
) -> Seq<char> {
    "insert into "@ + table + " ("@ + column_list(pk, fields) + ") select * from (values "@ + joined(
        Seq::new(rows, |i: int| row_text(i as nat, cast, types)),
        ", "@,
    ) + ") as v("@ + column_list(pk, fields) + ") "@ + on_conflict_text(table, pk, fields) + " returning "@ + pk
        + "::text as pk"@
}

fn insert_sql(idents: &TargetIdents, types: &Vec<ValueType>, rows: usize) -> (r: String)
    requires
        rows * (1 + types@.len()) <= usize::MAX,
        1 + types@.len() <= usize::MAX,
    ensures
        r@ == insert_text(idents.table@, idents.pk@, idents.pk_cast@, texts(idents.fields@), types@, rows as nat),
{
    let mut columns: Vec<String> = Vec::new();
    columns.push(idents.pk.clone());
    for i in 0..idents.fields.len()
        invariant
            columns@.len() == i + 1,
            columns@[0]@ == idents.pk@,
            forall|j: int| 0 <= j < i ==> #[trigger] columns@[j + 1]@ == idents.fields@[j]@,
    {
        columns.push(idents.fields[i].clone());
    }
    assert(texts(columns@) =~= seq![idents.pk@] + texts(idents.fields@)) by {
        assert forall|j: int| 1 <= j < columns@.len() implies texts(columns@)[j] == idents.fields@[j - 1]@ by {
            assert(columns@[(j - 1) + 1]@ == idents.fields@[j - 1]@);
        }
    }
    let col_list = join_texts(&columns, ", ");
    let mut row_texts: Vec<String> = Vec::new();
    let ghost all = Seq::new(rows as nat, |i: int| row_text(i as nat, idents.pk_cast@, types@));
    assert(texts(row_texts@) =~= all.take(0));
    for i in 0..rows
        invariant
            rows * (1 + types@.len()) <= usize::MAX,
            all == Seq::new(rows as nat, |i: int| row_text(i as nat, idents.pk_cast@, types@)),
            texts(row_texts@) == all.take(i as int),
    {
        proof {
            let c = 1 + types@.len() as int;
            assert(i * c + c <= rows * c) by (nonlinear_arith)
                requires
                    i + 1 <= rows,
                    c >= 0,
            ;
        }
        let text = row_sql(i, idents.pk_cast.as_str(), types);
        let ghost before = texts(row_texts@);
        let ghost added = text@;
        row_texts.push(text);
        assert(all[i as int] == row_text(i as nat, idents.pk_cast@, types@));
        assert(texts(row_texts@) =~= before.push(added));
        assert(all.take(i + 1) =~= all.take(i as int).push(all[i as int]));
    }
    assert(all.take(rows as int) =~= all);
    let row_list = join_texts(&row_texts, ", ");
    let conflict = on_conflict(idents);
    let mut r = String::new();
    r.append("insert into ");
    r.append(idents.table.as_str());
    r.append(" (");
    r.append(col_list.as_str());
    r.append(") select * from (values ");
    r.append(row_list.as_str());
    r.append(") as v(");
    r.append(col_list.as_str());
    r.append(") ");
    r.append(conflict.as_str());
    r.append(" returning ");
    r.append(idents.pk.as_str());
    r.append("::text as pk");
    assert(r@ =~= insert_text(
        idents.table@,
        idents.pk@,
        idents.pk_cast@,
        texts(idents.fields@),
        types@,
        rows as nat,
    ));
    r
}

/// How many rows one statement writes: as many as its parameters allow, at least one.
pub open spec fn rows_per_statement(columns: nat) -> nat {
    if MAX_WRITE_PARAMS_PER_STATEMENT as nat / columns >= 1 {
        MAX_WRITE_PARAMS_PER_STATEMENT as nat / columns
    } else {
        1
    }
}

/// The text of a value, if it has one.
pub open spec fn text_view(value: Option<String>) -> Option<Seq<char>> {
    match value {
        Some(text) => Some(text@),
        None => None,
    }
}

/// The texts of values.
pub open spec fn values_view(values: Seq<Option<String>>) -> Seq<Option<Seq<char>>> {
    values.map_values(|v: Option<String>| text_view(v))
}

/// The parameters of one row: its key, then its values.
pub open spec fn row_params(write: WriteModel) -> Seq<Option<Seq<char>>> {
    seq![Some(write.key)] + values_view(write.values)
}

/// The parameters of rows, one row after the other.
pub open spec fn all_params(writes: Seq<WriteModel>) -> Seq<Option<Seq<char>>>
    decreases writes.len(),
{
    if writes.len() == 0 {
        seq![]
    } else {
        all_params(writes.drop_last()) + row_params(writes.last())
    }
}

/// The model of a [`Statement`].
pub struct StatementModel {
    /// The statement's text.
    pub sql: Seq<char>,
    /// What its parameters bind, in order.
    pub params: Seq<Option<Seq<char>>>,
}

impl View for Statement {
    type V = StatementModel;

    open spec fn view(&self) -> StatementModel {
        StatementModel { sql: self.sql@, params: values_view(self.params@) }
    }
}

/// The models of statements.
pub open spec fn statements_view(statements: Seq<Statement>) -> Seq<StatementModel> {
    statements.map_values(|s: Statement| s@)
}

/// The statement that writes some rows.
pub open spec fn write_statement(
    idents: TargetIdents,
    types: Seq<ValueType>,
    writes: Seq<WriteModel>,
) -> StatementModel {
    StatementModel {
        sql: insert_text(
            idents.table@,
            idents.pk@,
            idents.pk_cast@,
            texts(idents.fields@),
            types,
            writes.len(),
        ),
        params: all_params(writes),
    }
}

/// The statements that write all rows, `per` at a time.
pub open spec fn write_statements_of(
    idents: TargetIdents,
    types: Seq<ValueType>,
    writes: Seq<WriteModel>,
    per: nat,
) -> Seq<StatementModel>
    decreases writes.len(),
{
    if writes.len() == 0 || per == 0 {
        seq![]
    } else if writes.len() <= per {
        seq![write_statement(idents, types, writes)]
    } else {
        seq![write_statement(idents, types, writes.take(per as int))] + write_statements_of(
            idents,
            types,
            writes.skip(per as int),
            per,
        )
    }
}

fn push_row_params(params: &mut Vec<Option<String>>, write: &TargetWrite)
    ensures
        values_view(final(params)@) == values_view(old(params)@) + row_params(write@),
{
    let ghost before = values_view(params@);
    let ghost row = row_params(write@);
    params.push(Some(write.pk_text.clone()));
    assert(values_view(params@) =~= before + row.take(1));
    for j in 0..write.values.len()
        invariant
            row == row_params(write@),
            values_view(params@) == before + row.take(1 + j),
    {
        let ghost so_far = values_view(params@);
        params.push(write.values[j].clone());
        proof {
            assert(row[1 + j] == text_view(write.values@[j as int]));
            assert(values_view(params@) =~= so_far.push(row[1 + j]));
            assert(before + row.take(2 + j) =~= (before + row.take(1 + j)).push(row[1 + j]));
        }
    }
    assert(row.take(1 + write.values@.len() as int) =~= row);
}

/// The statements that write a target's rows: as many rows at a time as the
/// limit on parameters allows, each value bound to the placeholder of its
/// column's type.
pub fn write_statements(idents: &TargetIdents, types: &Vec<ValueType>, writes: &Vec<TargetWrite>) -> (r: Vec<Statement>)
    requires
        types@.len() + 1 <= usize::MAX,
        forall|i: int| 0 <= i < writes@.len() ==> (#[trigger] writes@[i]).values@.len() == types@.len(),
    ensures
        statements_view(r@) == write_statements_of(
            *idents,
            types@,
            super::plan::writes_view(writes@),
            rows_per_statement(1 + types@.len()),
        ),
{
    let cols: usize = 1 + types.len();
    let per: usize = if MAX_WRITE_PARAMS_PER_STATEMENT / cols >= 1 {
        MAX_WRITE_PARAMS_PER_STATEMENT / cols
    } else {
        1
    };
    let ghost model = super::plan::writes_view(writes@);
    let ghost wanted = write_statements_of(*idents, types@, model, per as nat);
    proof {
        assert(per as nat == rows_per_statement(1 + types@.len()));
        vstd::arithmetic::div_mod::lemma_fundamental_div_mod(MAX_WRITE_PARAMS_PER_STATEMENT as int, cols as int);
        assert(per * cols <= usize::MAX) by (nonlinear_arith)
            requires
                per == 1 || cols * per <= 60000,
                cols <= usize::MAX,
                60000 <= usize::MAX,
        ;
    }
    let mut r: Vec<Statement> = Vec::new();
    let mut at: usize = 0;
    assert(model.skip(0) =~= model);
    assert(statements_view(r@) + wanted =~= wanted);
    while at < writes.len()
        invariant
            per >= 1,
            per as nat == rows_per_statement(1 + types@.len()),
            cols == 1 + types@.len(),
            per * cols <= usize::MAX,
            at <= writes@.len(),
            model == super::plan::writes_view(writes@),
            statements_view(r@) + write_statements_of(*idents, types@, model.skip(at as int), per as nat) == wanted,
        decreases writes@.len() - at,
    {
        let end: usize = if writes.len() - at <= per {
            writes.len()
        } else {
            at + per
        };
        let ghost rest = model.skip(at as int);
        let ghost chunk = model.subrange(at as int, end as int);
        let mut params: Vec<Option<String>> = Vec::new();
        assert(values_view(params@) =~= all_params(chunk.take(0)));
        for i in at..end
            invariant
                at <= end <= writes@.len(),
                model == super::plan::writes_view(writes@),
                chunk == model.subrange(at as int, end as int),
                values_view(params@) == all_params(chunk.take(i - at)),
        {
            assert(chunk.take(i + 1 - at).drop_last() =~= chunk.take(i - at));
            push_row_params(&mut params, &writes[i]);
        }
        assert(chunk.take(end - at) =~= chunk);
        let rows: usize = end - at;
        proof {
            assert(rows * cols <= per * cols) by (nonlinear_arith)
                requires
                    rows <= per,
                    cols >= 0,
            ;
        }
        let sql = insert_sql(idents, types, rows);
        let ghost before = statements_view(r@);
        let statement = Statement { sql, params };
        let ghost added = statement@;
        r.push(statement);
        proof {
            assert(added == write_statement(*idents, types@, chunk));
            assert(statements_view(r@) =~= before.push(added));
            if rest.len() <= per {
                assert(chunk =~= rest);
                assert(model.skip(end as int) =~= seq![]);
                assert(before + seq![added] =~= before.push(added) + seq![]);
            } else {
                assert(chunk =~= rest.take(per as int));
                assert(rest.skip(per as int) =~= model.skip(end as int));
                let tail = write_statements_of(*idents, types@, model.skip(end as int), per as nat);
                assert(before + (seq![added] + tail) =~= before.push(added) + tail);
            }
        }
        at = end;
    }
    assert(model.skip(at as int) =~= seq![]);
    assert(statements_view(r@) + seq![] =~= statements_view(r@));
    r
}

/// The keys of deletions that no write of the same batch wrote, in order.
pub open spec fn delete_keys_of(writes: Seq<WriteModel>, deletes: Seq<DeleteModel>) -> Seq<Seq<char>>
    decreases deletes.len(),
{
    if deletes.len() == 0 {
        seq![]
    } else {
        let before = delete_keys_of(writes, deletes.drop_last());
        let key = deletes.last().key;
        if exists|i: int| 0 <= i < writes.len() && (#[trigger] writes[i]).key == key {
            before
        } else {
            before.push(key)
        }
    }
}

/// The keys to delete: those of the deletions, but a key that is written as
/// well stays.
pub fn delete_keys(writes: &Vec<TargetWrite>, deletes: &Vec<TargetDelete>) -> (r: Vec<String>)
    ensures
        texts(r@) == delete_keys_of(super::plan::writes_view(writes@), super::plan::deletes_view(deletes@)),
{
    let mut written: Vec<String> = Vec::new();
    for i in 0..writes.len()
        invariant
            written@.len() == i,
            forall|j: int| 0 <= j < i ==> #[trigger] written@[j]@ == writes@[j].pk_text@,
    {
        written.push(writes[i].pk_text.clone());
    }
    let ghost ws = super::plan::writes_view(writes@);
    let ghost ds = super::plan::deletes_view(deletes@);
    let mut r: Vec<String> = Vec::new();
    assert(texts(r@) =~= delete_keys_of(ws, ds.take(0)));
    for i in 0..deletes.len()
        invariant
            ws == super::plan::writes_view(writes@),
            ds == super::plan::deletes_view(deletes@),
            written@.len() == writes@.len(),
            forall|j: int| 0 <= j < written@.len() ==> #[trigger] written@[j]@ == writes@[j].pk_text@,
            texts(r@) == delete_keys_of(ws, ds.take(i as int)),
    {
        let key = &deletes[i].pk_text;
        let ghost before = texts(r@);
        proof {
            assert(ds.take(i + 1).drop_last() =~= ds.take(i as int));
            assert(among(written@, key@) <==> exists|j: int| 0 <= j < ws.len() && (#[trigger] ws[j]).key == key@) by {
                if among(written@, key@) {
                    let j = choose|j: int| 0 <= j < written@.len() && #[trigger] written@[j]@ == key@;
                    assert(ws[j].key == key@);
                }
                if exists|j: int| 0 <= j < ws.len() && (#[trigger] ws[j]).key == key@ {
                    let j = choose|j: int| 0 <= j < ws.len() && (#[trigger] ws[j]).key == key@;
                    assert(written@[j]@ == key@);
                }
            }
        }
        if !has_key(&written, key.as_str()) {
            r.push(key.clone());
            assert(texts(r@) =~= before.push(key@));
        }
    }
    assert(ds.take(deletes@.len() as int) =~= ds);
    r
}

/// A key that is written in a batch is never deleted by it: the write wins.
pub proof fn law_write_wins(writes: Seq<WriteModel>, deletes: Seq<DeleteModel>, i: int)
    requires
        0 <= i < writes.len(),
    ensures
        !delete_keys_of(writes, deletes).contains(writes[i].key),
    decreases deletes.len(),
{
    if deletes.len() > 0 {
        law_write_wins(writes, deletes.drop_last(), i);
        let before = delete_keys_of(writes, deletes.drop_last());
        let all = delete_keys_of(writes, deletes);
        if all.contains(writes[i].key) {
            let j = choose|j: int| 0 <= j < all.len() && all[j] == writes[i].key;
            if j < before.len() {
                assert(before[j] == writes[i].key);
            }
        }
    }
}

/// Every row has as many parameters as placeholders, and a statement of several
/// rows stays within the limit on parameters.
pub proof fn law_statement_size(types: Seq<ValueType>, writes: Seq<WriteModel>)
    requires
        forall|i: int| 0 <= i < writes.len() ==> (#[trigger] writes[i]).values.len() == types.len(),
        writes.len() <= rows_per_statement(1 + types.len()),
    ensures
        all_params(writes).len() == writes.len() * (1 + types.len()),
        forall|row: nat, cast: Seq<char>| (#[trigger] row_placeholders(row, cast, types)).len() == 1 + types.len(),
        all_params(writes).len() <= MAX_WRITE_PARAMS_PER_STATEMENT || writes.len() == 1,
{
    lemma_params_len(types, writes);
    let n = writes.len() as int;
    let c = 1 + types.len() as int;
    let q = MAX_WRITE_PARAMS_PER_STATEMENT as int / c;
    vstd::arithmetic::div_mod::lemma_fundamental_div_mod(MAX_WRITE_PARAMS_PER_STATEMENT as int, c);
    if q >= 1 {
        assert(n * c <= c * q) by (nonlinear_arith)
            requires
                n <= q,
                c >= 0,
        ;
    } else if n == 0 {
        assert(n * c == 0) by (nonlinear_arith)
            requires
                n == 0,
        ;
    }
}

proof fn lemma_params_len(types: Seq<ValueType>, writes: Seq<WriteModel>)
    requires
        forall|i: int| 0 <= i < writes.len() ==> (#[trigger] writes[i]).values.len() == types.len(),
    ensures
        all_params(writes).len() == writes.len() * (1 + types.len()),
    decreases writes.len(),
{
    let c = 1 + types.len() as int;
    let n = writes.len() as int;
    if n > 0 {
        let front = writes.drop_last();
        assert forall|i: int| 0 <= i < front.len() implies (#[trigger] front[i]).values.len() == types.len() by {
            assert(writes[i].values.len() == types.len());
        }
        assert(writes[n - 1].values.len() == types.len());
        lemma_params_len(types, front);
        assert((n - 1) * c + c == n * c) by (nonlinear_arith);
    } else {
        assert(n * c == 0) by (nonlinear_arith)
            requires
                n == 0,
        ;
    }
}

/// The keys that are deleted are those of the deletes that no write names, in
/// order.
pub proof fn law_keys_without_a_write_are_deleted(deletes: Seq<DeleteModel>, writes: Seq<WriteModel>)
    ensures
        delete_keys_of(writes, deletes) == deletes.filter(|d: DeleteModel|
                !(exists|i: int| 0 <= i < writes.len() && (#[trigger] writes[i]).key == d.key)).map_values(|d: DeleteModel| d.key),
    decreases deletes.len(),
{
    let pass = |d: DeleteModel|
                !(exists|i: int| 0 <= i < writes.len() && (#[trigger] writes[i]).key == d.key);
    let f = |d: DeleteModel| d.key;
    if deletes.len() == 0 {
        lemma_filter_none(deletes, pass);
        assert(deletes.take(0) =~= deletes);
        assert(delete_keys_of(writes, deletes) =~= deletes.filter(pass).map_values(f));
    } else {
        let front = deletes.drop_last();
        law_keys_without_a_write_are_deleted(front, writes);
        lemma_filter_push(front, deletes.last(), pass);
        assert(deletes =~= front.push(deletes.last()));
        assert(front.filter(pass).push(deletes.last()).map_values(f) =~= front.filter(pass).map_values(f).push(
            f(deletes.last()),
        ));
        assert(delete_keys_of(writes, deletes) =~= deletes.filter(pass).map_values(f));
    }
}

/// A statement takes as many rows as its parameters allow, and one in any case.
pub proof fn law_statements_are_as_large_as_they_can_be(columns: nat)
    requires
        columns > 0,
    ensures
        MAX_WRITE_PARAMS_PER_STATEMENT == 60_000,
        rows_per_statement(columns) >= 1,
        columns <= 60_000 ==> rows_per_statement(columns) * columns <= 60_000,
        (rows_per_statement(columns) + 1) * columns > 60_000,
{
    let q = 60_000nat / columns;
    let n = columns as int;
    vstd::arithmetic::div_mod::lemma_fundamental_div_mod(60_000, n);
    vstd::arithmetic::div_mod::lemma_mod_bound(60_000, n);
    assert(n * q == q * n) by (nonlinear_arith);
    assert((q + 1) * n == q * n + n) by (nonlinear_arith);
    if columns <= 60_000 {
        assert(q >= 1) by (nonlinear_arith)
            requires
                60_000 < (q + 1) * n,
                n <= 60_000,
                n > 0,
        ;
    } else {
        let r = rows_per_statement(columns) as int;
        assert((r + 1) * n > 60_000) by (nonlinear_arith)
            requires
                r >= 1,
                n > 60_000,
        ;
    }
}

/// Whether a statement writes between one row and as many as fit.
pub open spec fn is_full_or_less(statement: StatementModel, columns: nat, per: nat) -> bool {
    0 < statement.params.len() <= per * columns
}

/// The parameters of the statements, put together, are those of all writes, in
/// order; the rows of no statement are more than fit.
pub proof fn law_statements_write_everything(
    idents: TargetIdents,
    types: Seq<ValueType>,
    writes: Seq<WriteModel>,
    per: nat,
)
    requires
        per > 0,
        forall|i: int| 0 <= i < writes.len() ==> (#[trigger] writes[i]).values.len() == types.len(),
    ensures
        params_together(write_statements_of(idents, types, writes, per)) == all_params(writes),
        forall|k: int|
            0 <= k < write_statements_of(idents, types, writes, per).len() ==> is_full_or_less(
                #[trigger] write_statements_of(idents, types, writes, per)[k],
                1 + types.len(),
                per,
            ),
    decreases writes.len(),
{
    let all = write_statements_of(idents, types, writes, per);
    let columns = 1 + types.len();
    if writes.len() == 0 {
        assert(all_params(writes) =~= seq![]);
        assert(params_together(all) =~= seq![]);
    } else if writes.len() <= per {
        lemma_params_len(types, writes);
        let one = write_statement(idents, types, writes);
        assert(all =~= seq![one]);
        let none: Seq<StatementModel> = seq![];
        assert(all.drop_first() =~= none);
        assert(params_together(none) =~= seq![]);
        assert(params_together(all) =~= one.params);
        assert(0 < writes.len() * columns <= per * columns) by (nonlinear_arith)
            requires
                0 < writes.len() <= per,
                columns > 0,
        ;
    } else {
        let front = writes.take(per as int);
        let rest = writes.skip(per as int);
        assert forall|i: int| 0 <= i < rest.len() implies (#[trigger] rest[i]).values.len() == types.len() by {
            assert(rest[i] == writes[i + per]);
        }
        assert forall|i: int| 0 <= i < front.len() implies (#[trigger] front[i]).values.len() == types.len() by {
            assert(front[i] == writes[i]);
        }
        law_statements_write_everything(idents, types, rest, per);
        lemma_params_len(types, front);
        lemma_params_split(front, rest);
        assert(front + rest =~= writes);
        let one = write_statement(idents, types, front);
        let others = write_statements_of(idents, types, rest, per);
        assert(all == seq![one] + others);
        assert(all.drop_first() =~= others);
        assert(all[0] == one);
        assert(0 < per * columns) by (nonlinear_arith)
            requires
                per > 0,
                columns > 0,
        ;
        assert forall|k: int| 0 <= k < all.len() implies is_full_or_less(#[trigger] all[k], columns, per) by {
            if k > 0 {
                assert(all[k] == others[k - 1]);
            }
        }
    }
}

/// The parameters of statements, one statement after the other.
pub open spec fn params_together(statements: Seq<StatementModel>) -> Seq<Option<Seq<char>>>
    decreases statements.len(),
{
    if statements.len() == 0 {
        seq![]
    } else {
        statements[0].params + params_together(statements.drop_first())
    }
}

proof fn lemma_params_split(a: Seq<WriteModel>, b: Seq<WriteModel>)
    ensures
        all_params(a + b) == all_params(a) + all_params(b),
    decreases b.len(),
{
    if b.len() == 0 {
        assert(a + b =~= a);
        assert(all_params(b) =~= seq![]);
        assert(all_params(a) + all_params(b) =~= all_params(a));
    } else {
        lemma_params_split(a, b.drop_last());
        assert((a + b).drop_last() =~= a + b.drop_last());
        assert((a + b).last() == b.last());
        assert(all_params(a + b) =~= all_params(a) + all_params(b));
    }
}

/// The parameter that a row's placeholder numbers is the row's: first its key, then
/// its values in the order of the fields.
pub proof fn law_placeholders_number_their_parameters(
    writes: Seq<WriteModel>,
    cast: Seq<char>,
    types: Seq<ValueType>,
    row: nat,
    column: nat,
)
    requires
        forall|i: int| 0 <= i < writes.len() ==> (#[trigger] writes[i]).values.len() == types.len(),
        row < writes.len(),
        column <= types.len(),
    ensures
        row_placeholders(row, cast, types).len() == 1 + types.len(),
        row_placeholders(row, cast, types)[column as int] == "$"@ + nat_text(row * (1 + types.len()) + column + 1)
            + "::text::"@ + if column == 0 {
            cast
        } else {
            types[column - 1].name()
        },
        row * (1 + types.len()) + column < all_params(writes).len(),
        all_params(writes)[(row * (1 + types.len()) + column) as int] == if column == 0 {
            Some(writes[row as int].key)
        } else {
            match writes[row as int].values[column - 1] {
                Some(text) => Some(text@),
                None => None,
            }
        },
{
    let columns = 1 + types.len();
    let front = writes.take(row as int);
    let rest = writes.skip(row as int);
    assert(front + rest =~= writes);
    lemma_params_split(front, rest);
    assert forall|i: int| 0 <= i < front.len() implies (#[trigger] front[i]).values.len() == types.len() by {
        assert(front[i] == writes[i]);
    }
    lemma_params_len(types, front);
    let one = rest.take(1);
    let tail = rest.skip(1);
    assert(one + tail =~= rest);
    lemma_params_split(one, tail);
    assert(one[0] == writes[row as int]);
    assert(one.drop_last() =~= seq![]);
    assert(all_params(one.drop_last()) =~= seq![]);
    assert(all_params(one) =~= row_params(writes[row as int]));
    assert(all_params(rest)[column as int] == row_params(writes[row as int])[column as int]);
    assert(all_params(writes)[(row * columns + column) as int] == all_params(rest)[column as int]);
    assert(row_placeholders(row, cast, types)[column as int] =~= "$"@ + nat_text(row * columns + column + 1)
        + "::text::"@ + if column == 0 {
        cast
    } else {
        types[column - 1].name()
    });
}

/// The keys that are locked are those that are written and those that are deleted.
pub proof fn law_all_changed_keys_are_locked(writes: Seq<TargetWrite>, deletes: Seq<TargetDelete>, i: int, key: Seq<char>)
    ensures
        0 <= i < writes.len() ==> is_plan_key(writes, deletes, writes[i].pk_text@),
        0 <= i < deletes.len() ==> is_plan_key(writes, deletes, deletes[i].pk_text@),
        is_plan_key(writes, deletes, key) ==> (exists|k: int|
            0 <= k < writes.len() && (#[trigger] writes[k]).pk_text@ == key) || exists|k: int|
            0 <= k < deletes.len() && (#[trigger] deletes[k]).pk_text@ == key,
{
}

proof fn lemma_spells(text: Seq<char>, before: Seq<char>, inner: Seq<char>, after: Seq<char>, part: Seq<char>)
    requires
        text == before + inner + after,
        has_within(inner, part),
    ensures
        has_within(text, part),
{
    let i = choose|i: int| 0 <= i <= inner.len() - part.len() && #[trigger] inner.subrange(i, i + part.len()) == part;
    assert(text.subrange(before.len() + i, before.len() + i + part.len()) =~= inner.subrange(i, i + part.len()));
}

proof fn lemma_spells_itself(part: Seq<char>)
    ensures
        has_within(part, part),
{
    let start: int = 0;
    assert(part.subrange(start, start + part.len()) =~= part);
}

proof fn lemma_joined_spells(parts: Seq<Seq<char>>, separator: Seq<char>, j: int)
    requires
        0 <= j < parts.len(),
    ensures
        has_within(joined(parts, separator), parts[j]),
    decreases parts.len(),
{
    let all = joined(parts, separator);
    let none: Seq<char> = seq![];
    if parts.len() == 1 {
        lemma_spells_itself(parts[0]);
    } else {
        let front = joined(parts.drop_last(), separator);
        if j < parts.len() - 1 {
            lemma_joined_spells(parts.drop_last(), separator, j);
            assert(all =~= none + front + (separator + parts.last()));
            lemma_spells(all, none, front, separator + parts.last(), parts[j]);
        } else {
            let last = parts.last();
            lemma_spells_itself(last);
            assert(all =~= (front + separator) + last + none);
            lemma_spells(all, front + separator, last, none, last);
        }
    }
}

/// Where a row is there already, every field is set to its new value, and every
/// field's old and new value are compared; without fields nothing is done.
pub proof fn law_every_field_is_updated(table: Seq<char>, pk: Seq<char>, fields: Seq<Seq<char>>, j: int)
    requires
        0 <= j < fields.len(),
    ensures
        has_within(on_conflict_text(table, pk, fields), fields[j] + " = excluded."@ + fields[j]),
        has_within(on_conflict_text(table, pk, fields), table + "."@ + fields[j]),
        has_within(on_conflict_text(table, pk, fields), "excluded."@ + fields[j]),
        has_within(on_conflict_text(table, pk, fields), ") do update set "@),
        has_within(on_conflict_text(table, pk, fields), ") is distinct from ("@),
        on_conflict_text(table, pk, Seq::empty()) == "on conflict ("@ + pk + ") do nothing"@,
{
    let text = on_conflict_text(table, pk, fields);
    let a = "on conflict ("@ + pk;
    let b = ") do update set "@;
    let c = joined(set_items(fields), ", "@);
    let d = " where ("@;
    let e = joined(prefixed(table + "."@, fields), ", "@);
    let f = ") is distinct from ("@;
    let g = joined(prefixed("excluded."@, fields), ", "@);
    let h = ")"@;
    lemma_joined_spells(set_items(fields), ", "@, j);
    lemma_joined_spells(prefixed(table + "."@, fields), ", "@, j);
    lemma_joined_spells(prefixed("excluded."@, fields), ", "@, j);
    assert(text =~= (a + b) + c + (d + e + f + g + h));
    lemma_spells(text, a + b, c, d + e + f + g + h, fields[j] + " = excluded."@ + fields[j]);
    assert(text =~= (a + b + c + d) + e + (f + g + h));
    lemma_spells(text, a + b + c + d, e, f + g + h, table + "."@ + fields[j]);
    assert(text =~= (a + b + c + d + e + f) + g + h);
    lemma_spells(text, a + b + c + d + e + f, g, h, "excluded."@ + fields[j]);
    lemma_spells_itself(b);
    assert(text =~= a + b + (c + d + e + f + g + h));
    lemma_spells(text, a, b, c + d + e + f + g + h, b);
    lemma_spells_itself(f);
    assert(text =~= (a + b + c + d + e) + f + (g + h));
    lemma_spells(text, a + b + c + d + e, f, g + h, f);
}

} // verus!
