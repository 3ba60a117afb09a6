//! Reading definitions back: one row for each column type that is stored with
//! a definition, put together again.

use super::ast::ValueType;
use super::error::CatalogError;
use super::model::TransformStatus;
use crate::map::TextMap;
use vstd::prelude::*;

verus! {

/// One row of a definition: its own values, and one column with its type. A
/// definition without columns has one row with neither.
#[derive(Debug, Clone, PartialEq, Eq)]
pub struct DefinitionRow {
    /// The definition.
    pub id: i64,
    /// Its source table's version when it was created.
    pub source_version: i64,
    /// Its text.
    pub text: String,
    /// How far its target has come.
    pub status: TransformStatus,
    /// A column of its source table.
    pub column: Option<String>,
    /// That column's stored type.
    pub value_type: Option<String>,
}

/// A definition whose text is still to be parsed.
#[derive(Debug)]
pub struct PendingDefinition {
    /// The definition.
    pub id: i64,
    /// Its source table's version when it was created.
    pub source_version: i64,
    /// Its text.
    pub text: String,
    /// How far its target has come.
    pub status: TransformStatus,
    /// The types of its source table's columns.
    pub source_columns: TextMap<ValueType>,
}

/// The type of the given name, if there is one.
pub open spec fn type_named(text: Seq<char>) -> Option<ValueType> {
    if text == ValueType::Numeric.name() {
        Some(ValueType::Numeric)
    } else if text == ValueType::Text.name() {
        Some(ValueType::Text)
    } else if text == ValueType::Boolean.name() {
        Some(ValueType::Boolean)
    } else if text == ValueType::Uuid.name() {
        Some(ValueType::Uuid)
    } else {
        None
    }
}

impl DefinitionRow {
    /// Whether the row has a column whose stored type is none that is known.
    pub open spec fn is_bad(self) -> bool {
        match (self.column, self.value_type) {
            (Some(_), Some(text)) => type_named(text@) is None,
            _ => false,
        }
    }
}

/// The columns with the row's column added, where it has one.
pub open spec fn with_row(columns: Map<Seq<char>, ValueType>, row: DefinitionRow) -> Map<Seq<char>, ValueType> {
    match (row.column, row.value_type) {
        (Some(column), Some(text)) => match type_named(text@) {
            Some(t) => columns.insert(column@, t),
            None => columns,
        },
        _ => columns,
    }
}

/// The column types that the rows of one definition hold.
pub open spec fn columns_of(rows: Seq<DefinitionRow>, id: i64) -> Map<Seq<char>, ValueType>
    decreases rows.len(),
{
    if rows.len() == 0 {
        Map::empty()
    } else if rows.last().id == id {
        with_row(columns_of(rows.drop_last(), id), rows.last())
    } else {
        columns_of(rows.drop_last(), id)
    }
}

/// The definitions, in the order in which their first rows come.
pub open spec fn id_order(rows: Seq<DefinitionRow>) -> Seq<i64>
    decreases rows.len(),
{
    if rows.len() == 0 {
        seq![]
    } else {
        let before = id_order(rows.drop_last());
        if before.contains(rows.last().id) {
            before
        } else {
            before.push(rows.last().id)
        }
    }
}

/// The first row of a definition.
pub open spec fn first_row(rows: Seq<DefinitionRow>, id: i64) -> DefinitionRow
    decreases rows.len(),
{
    if rows.len() <= 1 || rows[0].id == id {
        rows[0]
    } else {
        first_row(rows.drop_first(), id)
    }
}

/// Whether a definition is what its rows make up.
pub open spec fn is_read_back(d: PendingDefinition, rows: Seq<DefinitionRow>) -> bool {
    let first = first_row(rows, d.id);
    &&& d.source_version == first.source_version
    &&& d.text == first.text
    &&& d.status == first.status
    &&& d.source_columns@ == columns_of(rows, d.id)
}

/// Whether the definitions are those that the rows make up, in order.
pub open spec fn are_read_back(found: Seq<PendingDefinition>, rows: Seq<DefinitionRow>) -> bool {
    &&& found.len() == id_order(rows).len()
    &&& forall|i: int| 0 <= i < found.len() ==> (#[trigger] found[i]).id == id_order(rows)[i] && is_read_back(found[i], rows)
}

/// Whether the error names the column and the stored type of the first bad row.
pub open spec fn names_bad_row(error: CatalogError, rows: Seq<DefinitionRow>) -> bool {
    exists|i: int|
        0 <= i < rows.len() && (#[trigger] rows[i]).is_bad() && (forall|j: int| 0 <= j < i ==> !(#[trigger] rows[j]).is_bad())
            && match error {
            CatalogError::UnknownValueType { column, text } => rows[i].column == Some(column) && rows[i].value_type
                == Some(text),
            _ => false,
        }
}

proof fn lemma_id_order(rows: Seq<DefinitionRow>)
    ensures
        id_order(rows).no_duplicates(),
        forall|id: i64| #[trigger] id_order(rows).contains(id) <==> exists|i: int|
            0 <= i < rows.len() && (#[trigger] rows[i]).id == id,
    decreases rows.len(),
{
    if rows.len() > 0 {
        let front = rows.drop_last();
        lemma_id_order(front);
        let before = id_order(front);
        assert forall|id: i64| #[trigger] id_order(rows).contains(id) <==> exists|i: int|
            0 <= i < rows.len() && (#[trigger] rows[i]).id == id by {
            if before.contains(id) {
                let k = choose|k: int| 0 <= k < before.len() && before[k] == id;
                assert(id_order(rows)[k] == id);
                let i = choose|i: int| 0 <= i < front.len() && (#[trigger] front[i]).id == id;
                assert(rows[i].id == id);
            }
            if id == rows.last().id {
                assert(rows[rows.len() - 1].id == id);
                if !before.contains(id) {
                    assert(id_order(rows)[before.len() as int] == id);
                }
            }
            if id_order(rows).contains(id) {
                let k = choose|k: int| 0 <= k < id_order(rows).len() && id_order(rows)[k] == id;
                if k < before.len() {
                    assert(before[k] == id);
                }
            }
            if exists|i: int| 0 <= i < rows.len() && (#[trigger] rows[i]).id == id {
                let i = choose|i: int| 0 <= i < rows.len() && (#[trigger] rows[i]).id == id;
                if i < front.len() {
                    assert(front[i].id == id);
                }
            }
        }
    }
}

proof fn lemma_first_row_push(rows: Seq<DefinitionRow>, row: DefinitionRow, id: i64)
    requires
        exists|i: int| 0 <= i < rows.len() && (#[trigger] rows[i]).id == id,
    ensures
        first_row(rows.push(row), id) == first_row(rows, id),
    decreases rows.len(),
{
    let all = rows.push(row);
    if rows[0].id != id {
        let i = choose|i: int| 0 <= i < rows.len() && (#[trigger] rows[i]).id == id;
        assert(rows.drop_first()[i - 1].id == id);
        lemma_first_row_push(rows.drop_first(), row, id);
        assert(all.drop_first() =~= rows.drop_first().push(row));
        assert(rows.len() > 1);
    }
}

proof fn lemma_first_row_new(rows: Seq<DefinitionRow>, row: DefinitionRow)
    requires
        !(exists|i: int| 0 <= i < rows.len() && (#[trigger] rows[i]).id == row.id),
    ensures
        first_row(rows.push(row), row.id) == row,
        columns_of(rows, row.id) == Map::<Seq<char>, ValueType>::empty(),
    decreases rows.len(),
{
    let all = rows.push(row);
    if rows.len() > 0 {
        assert(rows[0].id != row.id);
        let rest = rows.drop_first();
        if exists|i: int| 0 <= i < rest.len() && (#[trigger] rest[i]).id == row.id {
            let i = choose|i: int| 0 <= i < rest.len() && (#[trigger] rest[i]).id == row.id;
            assert(rows[i + 1].id == row.id);
        }
        lemma_first_row_new(rest, row);
        assert(all.drop_first() =~= rest.push(row));
        lemma_no_columns(rows, row.id);
    }
}

proof fn lemma_no_columns(rows: Seq<DefinitionRow>, id: i64)
    requires
        !(exists|i: int| 0 <= i < rows.len() && (#[trigger] rows[i]).id == id),
    ensures
        columns_of(rows, id) == Map::<Seq<char>, ValueType>::empty(),
    decreases rows.len(),
{
    if rows.len() > 0 {
        let front = rows.drop_last();
        assert(rows[rows.len() - 1].id != id);
        if exists|i: int| 0 <= i < front.len() && (#[trigger] front[i]).id == id {
            let i = choose|i: int| 0 <= i < front.len() && (#[trigger] front[i]).id == id;
            assert(rows[i].id == id);
        }
        lemma_no_columns(front, id);
    }
}

/// Adds a row's column to the columns; the error, where its type is not known.
fn add_column(columns: TextMap<ValueType>, row: &DefinitionRow) -> (r: Result<TextMap<ValueType>, CatalogError>)
    ensures
        r is Err <==> row.is_bad(),
        r matches Ok(after) ==> after@ == with_row(columns@, *row),
        r matches Err(e) ==> match e {
            CatalogError::UnknownValueType { column, text } => row.column == Some(column) && row.value_type == Some(
                text,
            ),
            _ => false,
        },
{
    if let Some(column) = &row.column {
        if let Some(text) = &row.value_type {
            let named = ValueType::from_persisted(text.as_str());
            assert(text@ == ValueType::Numeric.name() <==> named == Some(ValueType::Numeric));
            assert(text@ == ValueType::Text.name() <==> named == Some(ValueType::Text));
            assert(text@ == ValueType::Boolean.name() <==> named == Some(ValueType::Boolean));
            assert(text@ == ValueType::Uuid.name() <==> named == Some(ValueType::Uuid));
            assert(named == type_named(text@));
            return match named {
                Some(t) => Ok(columns.insert(column.clone(), t)),
                None => Err(CatalogError::UnknownValueType { column: column.clone(), text: text.clone() }),
            };
        }
    }
    Ok(columns)
}

/// The definitions that rows make up, in the order of their first rows. A stored
/// type that is not known is an error.
pub fn group_definitions(rows: &Vec<DefinitionRow>) -> (r: Result<Vec<PendingDefinition>, CatalogError>)
    ensures
        r is Err <==> exists|i: int| 0 <= i < rows@.len() && (#[trigger] rows@[i]).is_bad(),
        r matches Ok(found) ==> are_read_back(found@, rows@),
        r matches Err(e) ==> names_bad_row(e, rows@),
{
    let mut found: Vec<PendingDefinition> = Vec::new();
    for n in 0..rows.len()
        invariant
            forall|j: int| 0 <= j < n ==> !(#[trigger] rows@[j]).is_bad(),
            are_read_back(found@, rows@.take(n as int)),
    {
        let row = &rows[n];
        let ghost done = rows@.take(n as int);
        let ghost next = rows@.take(n + 1);
        let ghost before = found@;
        proof {
            assert(next =~= done.push(*row));
            assert(next.drop_last() =~= done);
            lemma_id_order(done);
        }
        let mut i: usize = 0;
        while i < found.len() && found[i].id != row.id
            invariant
                i <= found@.len(),
                found@ == before,
                forall|j: int| 0 <= j < i ==> (#[trigger] found@[j]).id != row.id,
            decreases found@.len() - i,
        {
            i = i + 1;
        }
        if i < found.len() {
            let known = found.remove(i);
            let ghost known_before = known;
            let PendingDefinition { id, source_version, text, status, source_columns } = known;
            let source_columns = match add_column(source_columns, row) {
                Ok(columns) => columns,
                Err(e) => {
                    assert(rows@[n as int].is_bad());
                    return Err(e);
                },
            };
            found.insert(i, PendingDefinition { id, source_version, text, status, source_columns });
            proof {
                assert(id_order(done)[i as int] == row.id);
                assert(id_order(next) == id_order(done));
                assert forall|j: int| 0 <= j < found@.len() implies (#[trigger] found@[j]).id == id_order(next)[j]
                    && is_read_back(found@[j], next) by {
                    assert(before[j].id == id_order(done)[j]);
                    assert(is_read_back(before[j], done));
                    assert(id_order(done).contains(before[j].id));
                    lemma_first_row_push(done, *row, before[j].id);
                    if j != i {
                        assert(found@[j] == before[j]);
                        assert(before[j].id != row.id);
                    }
                }
            }
        } else {
            proof {
                assert(!id_order(done).contains(row.id)) by {
                    if id_order(done).contains(row.id) {
                        let k = choose|k: int| 0 <= k < id_order(done).len() && id_order(done)[k] == row.id;
                        assert(before[k].id == row.id);
                    }
                }
                lemma_first_row_new(done, *row);
            }
            let source_columns = match add_column(TextMap::new(), row) {
                Ok(columns) => columns,
                Err(e) => {
                    assert(rows@[n as int].is_bad());
                    return Err(e);
                },
            };
            found.push(
                PendingDefinition {
                    id: row.id,
                    source_version: row.source_version,
                    text: row.text.clone(),
                    status: row.status,
                    source_columns,
                },
            );
            proof {
                assert forall|j: int| 0 <= j < found@.len() implies (#[trigger] found@[j]).id == id_order(next)[j]
                    && is_read_back(found@[j], next) by {
                    if j < before.len() {
                        assert(found@[j] == before[j]);
                        assert(before[j].id == id_order(done)[j]);
                        assert(is_read_back(before[j], done));
                        assert(id_order(done).contains(before[j].id));
                        lemma_first_row_push(done, *row, before[j].id);
                        assert(before[j].id != row.id);
                    }
                }
            }
        }
    }
    assert(rows@.take(rows@.len() as int) =~= rows@);
    Ok(found)
}

/// The columns of the given types, and those types' names, in the same order.
pub fn encode_type_map(source_columns: &TextMap<ValueType>) -> (r: (Vec<String>, Vec<String>))
    ensures
        crate::text::texts(r.0@) == source_columns.order(),
        r.1@.len() == r.0@.len(),
        forall|i: int| 0 <= i < r.1@.len() ==> (#[trigger] r.1@[i])@ == source_columns@[r.0@[i]@].name(),
{
    let mut keys: Vec<String> = Vec::new();
    let mut values: Vec<String> = Vec::new();
    let n = source_columns.len();
    for i in 0..n
        invariant
            n == source_columns.order().len(),
            keys@.len() == i,
            values@.len() == i,
            forall|j: int| 0 <= j < i ==> (#[trigger] keys@[j])@ == source_columns.order()[j],
            forall|j: int| 0 <= j < i ==> (#[trigger] values@[j])@ == source_columns@[keys@[j]@].name(),
    {
        keys.push(source_columns.key(i).clone());
        values.push(source_columns.value(i).as_sql().to_owned());
    }
    assert(crate::text::texts(keys@) =~= source_columns.order());
    (keys, values)
}

/// What encoding a column type map stores is read back as that map.
pub proof fn law_type_map_round_trip(columns: Map<Seq<char>, ValueType>, rows: Seq<DefinitionRow>, id: i64)
    requires
        forall|i: int|
            0 <= i < rows.len() ==> {
                &&& (#[trigger] rows[i]).id == id
                &&& rows[i].column is Some
                &&& rows[i].value_type is Some
                &&& columns.contains_key(rows[i].column->0@)
                &&& rows[i].value_type->0@ == columns[rows[i].column->0@].name()
            },
        forall|k: Seq<char>| columns.contains_key(k) ==> exists|i: int|
            0 <= i < rows.len() && (#[trigger] rows[i]).column->0@ == k,
    ensures
        columns_of(rows, id) == columns,
        forall|i: int| 0 <= i < rows.len() ==> !(#[trigger] rows[i]).is_bad(),
{
    assert forall|a: ValueType| #[trigger] type_named(a.name()) == Some(a) by {
        super::ast::law_type_names_round_trip(a, ValueType::Numeric);
        super::ast::law_type_names_round_trip(a, ValueType::Text);
        super::ast::law_type_names_round_trip(a, ValueType::Boolean);
        super::ast::law_type_names_round_trip(a, ValueType::Uuid);
    }
    lemma_columns_grow(columns, rows, id);
    assert forall|k: Seq<char>| columns.contains_key(k) implies #[trigger] columns_of(rows, id).contains_key(k) by {
        let i = choose|i: int| 0 <= i < rows.len() && (#[trigger] rows[i]).column->0@ == k;
        assert(columns_of(rows, id).contains_key(rows[i].column->0@));
    }
    assert(columns_of(rows, id) =~= columns);
    assert forall|i: int| 0 <= i < rows.len() implies !(#[trigger] rows[i]).is_bad() by {
        assert(type_named(columns[rows[i].column->0@].name()) is Some);
    }
}

proof fn lemma_columns_grow(columns: Map<Seq<char>, ValueType>, rows: Seq<DefinitionRow>, id: i64)
    requires
        forall|a: ValueType| #[trigger] type_named(a.name()) == Some(a),
        forall|i: int|
            0 <= i < rows.len() ==> {
                &&& (#[trigger] rows[i]).id == id
                &&& rows[i].column is Some
                &&& rows[i].value_type is Some
                &&& columns.contains_key(rows[i].column->0@)
                &&& rows[i].value_type->0@ == columns[rows[i].column->0@].name()
            },
    ensures
        forall|k: Seq<char>| #[trigger]
            columns_of(rows, id).contains_key(k) ==> columns.contains_key(k) && columns_of(rows, id)[k] == columns[k],
        forall|i: int| 0 <= i < rows.len() ==> columns_of(rows, id).contains_key((#[trigger] rows[i]).column->0@),
    decreases rows.len(),
{
    if rows.len() > 0 {
        let front = rows.drop_last();
        assert forall|i: int| 0 <= i < front.len() implies ({
            &&& (#[trigger] front[i]).id == id
            &&& front[i].column is Some
            &&& front[i].value_type is Some
            &&& columns.contains_key(front[i].column->0@)
            &&& front[i].value_type->0@ == columns[front[i].column->0@].name()
        }) by {
            assert(rows[i].id == id);
        }
        lemma_columns_grow(columns, front, id);
        let last = rows[rows.len() - 1];
        assert(type_named(columns[last.column->0@].name()) == Some(columns[last.column->0@]));
        let before = columns_of(front, id);
        assert(columns_of(rows, id) == before.insert(last.column->0@, columns[last.column->0@]));
        assert forall|k: Seq<char>| #[trigger] columns_of(rows, id).contains_key(k) implies columns.contains_key(k)
            && columns_of(rows, id)[k] == columns[k] by {
            if k != last.column->0@ {
                assert(before.contains_key(k));
            }
        }
        assert forall|i: int| 0 <= i < rows.len() implies columns_of(rows, id).contains_key(
            (#[trigger] rows[i]).column->0@,
        ) by {
            if i < front.len() {
                assert(front[i] == rows[i]);
            }
        }
    }
}

/// Definitions are each read back once, in the order of their first rows.
pub proof fn law_definitions_come_in_order(rows: Seq<DefinitionRow>)
    ensures
        id_order(rows).no_duplicates(),
        forall|k: i64| #[trigger]
            id_order(rows).contains(k) <==> exists|i: int|
                0 <= i < rows.len() && (#[trigger] rows[i]).id == k,
        rows.len() > 0 ==> id_order(rows.drop_last()).is_prefix_of(id_order(rows)),
    decreases rows.len(),
{
    let all = id_order(rows);
    if rows.len() > 0 {
        let front = rows.drop_last();
        let n = rows.len() - 1;
        law_definitions_come_in_order(front);
        let before = id_order(front);
        assert forall|k: i64| #[trigger] all.contains(k) <==> exists|i: int|
            0 <= i < rows.len() && (#[trigger] rows[i]).id == k by {
            if before.contains(k) {
                let m = choose|m: int| 0 <= m < before.len() && before[m] == k;
                assert(all[m] == k);
                let i = choose|i: int| 0 <= i < front.len() && (#[trigger] front[i]).id == k;
                assert(rows[i] == front[i]);
            }
            if all.contains(k) && !before.contains(k) {
                let m = choose|m: int| 0 <= m < all.len() && all[m] == k;
                assert(m == before.len());
                assert(rows[n].id == k);
            }
            if exists|i: int| 0 <= i < rows.len() && (#[trigger] rows[i]).id == k {
                let i = choose|i: int| 0 <= i < rows.len() && (#[trigger] rows[i]).id == k;
                if i < n {
                    assert(front[i] == rows[i]);
                    assert(before.contains(k));
                } else if !before.contains(k) {
                    assert(all[before.len() as int] == k);
                }
            }
        }
    }
}

/// The value types that are known by name.
pub proof fn law_known_type_names(text: Seq<char>)
    ensures
        type_named(text) == Some(ValueType::Numeric) <==> text == "numeric"@,
        type_named(text) == Some(ValueType::Text) <==> text == "text"@,
        type_named(text) == Some(ValueType::Boolean) <==> text == "boolean"@,
        type_named(text) == Some(ValueType::Uuid) <==> text == "uuid"@,
        type_named(text) is None <==> text != "numeric"@ && text != "text"@ && text != "boolean"@ && text != "uuid"@,
{
    reveal_strlit("numeric");
    reveal_strlit("text");
    reveal_strlit("boolean");
    reveal_strlit("uuid");
    assert("numeric"@[0] == 'n' && "text"@[0] == 't' && "boolean"@[0] == 'b' && "uuid"@[0] == 'u');
}

/// A row is bad exactly where it gives a column a type that is not known by name.
pub proof fn law_bad_rows(row: DefinitionRow)
    ensures
        row.is_bad() <==> row.column is Some && row.value_type is Some && row.value_type->0@ != "numeric"@
            && row.value_type->0@ != "text"@ && row.value_type->0@ != "boolean"@ && row.value_type->0@ != "uuid"@,
{
    if row.value_type is Some {
        law_known_type_names(row.value_type->0@);
    }
}

/// Whether a row gives a definition's column a type.
pub open spec fn gives_type(row: DefinitionRow, id: i64, column: Seq<char>) -> bool {
    row.id == id && row.column is Some && row.column->0@ == column && row.value_type is Some && type_named(
        row.value_type->0@,
    ) is Some
}

/// A definition's column has the type that the last of its rows gives it.
pub proof fn law_the_last_type_counts(rows: Seq<DefinitionRow>, id: i64, column: Seq<char>, i: int)
    requires
        0 <= i < rows.len(),
        gives_type(rows[i], id, column),
        forall|j: int| i < j < rows.len() ==> !gives_type(#[trigger] rows[j], id, column),
    ensures
        columns_of(rows, id).contains_key(column),
        Some(columns_of(rows, id)[column]) == type_named(rows[i].value_type->0@),
    decreases rows.len(),
{
    let front = rows.drop_last();
    let n = rows.len() - 1;
    if i < n {
        assert(!gives_type(rows[n], id, column));
        assert(front[i] == rows[i]);
        assert forall|j: int| i < j < front.len() implies !gives_type(#[trigger] front[j], id, column) by {
            assert(front[j] == rows[j]);
        }
        law_the_last_type_counts(front, id, column, i);
    }
}

/// A definition has no column that none of its rows gives a type.
pub proof fn law_only_given_columns_are_there(rows: Seq<DefinitionRow>, id: i64, column: Seq<char>)
    requires
        forall|j: int| 0 <= j < rows.len() ==> !gives_type(#[trigger] rows[j], id, column),
    ensures
        !columns_of(rows, id).contains_key(column),
    decreases rows.len(),
{
    if rows.len() > 0 {
        let front = rows.drop_last();
        assert forall|j: int| 0 <= j < front.len() implies !gives_type(#[trigger] front[j], id, column) by {
            assert(front[j] == rows[j]);
        }
        law_only_given_columns_are_there(front, id, column);
        assert(!gives_type(rows[rows.len() - 1], id, column));
    }
}

/// Version, text and status of a definition are those of its first row.
pub proof fn law_the_first_row_counts(rows: Seq<DefinitionRow>, id: i64, i: int)
    requires
        0 <= i < rows.len(),
        rows[i].id == id,
        forall|j: int| 0 <= j < i ==> (#[trigger] rows[j]).id != id,
    ensures
        first_row(rows, id) == rows[i],
    decreases rows.len(),
{
    if i > 0 {
        assert(rows[0].id != id);
        let rest = rows.drop_first();
        assert(rest[i - 1] == rows[i]);
        assert forall|j: int| 0 <= j < i - 1 implies (#[trigger] rest[j]).id != id by {
            assert(rest[j] == rows[j + 1]);
        }
        law_the_first_row_counts(rest, id, i - 1);
    }
}

/// A definition that is read back has version, text and status of its first row,
/// and the columns that its rows give.
pub proof fn law_definitions_are_read_back(d: PendingDefinition, rows: Seq<DefinitionRow>, i: int)
    requires
        is_read_back(d, rows),
        0 <= i < rows.len(),
        rows[i].id == d.id,
        forall|j: int| 0 <= j < i ==> (#[trigger] rows[j]).id != d.id,
    ensures
        d.source_version == rows[i].source_version,
        d.text == rows[i].text,
        d.status == rows[i].status,
        d.source_columns@ == columns_of(rows, d.id),
{
    law_the_first_row_counts(rows, d.id, i);
}

/// The error names the first bad row's column and type.
pub proof fn law_the_first_bad_row_is_named(e: CatalogError, rows: Seq<DefinitionRow>, i: int)
    requires
        names_bad_row(e, rows),
        0 <= i < rows.len(),
        rows[i].is_bad(),
        forall|j: int| 0 <= j < i ==> !(#[trigger] rows[j]).is_bad(),
    ensures
        e matches CatalogError::UnknownValueType { column, text } && rows[i].column == Some(column)
            && rows[i].value_type == Some(text),
{
    let k = choose|k: int|
        0 <= k < rows.len() && (#[trigger] rows[k]).is_bad() && (forall|j: int|
            0 <= j < k ==> !(#[trigger] rows[j]).is_bad()) && match e {
            CatalogError::UnknownValueType { column, text } => rows[k].column == Some(column) && rows[k].value_type
                == Some(text),
            _ => false,
        };
    if k < i {
        assert(!rows[k].is_bad());
    } else if i < k {
        assert(!rows[i].is_bad());
    }
}

/// Definitions that are read back come in the order of their first rows, one for
/// each id.
pub proof fn law_every_definition_is_read_back(found: Seq<PendingDefinition>, rows: Seq<DefinitionRow>, i: int)
    requires
        are_read_back(found, rows),
        0 <= i < rows.len(),
    ensures
        found.len() == id_order(rows).len(),
        exists|k: int| 0 <= k < found.len() && (#[trigger] found[k]).id == rows[i].id && is_read_back(found[k], rows),
        forall|a: int, b: int| 0 <= a < b < found.len() ==> (#[trigger] found[a]).id != (#[trigger] found[b]).id,
{
    law_definitions_come_in_order(rows);
    let order = id_order(rows);
    assert(order.contains(rows[i].id));
    let k = choose|k: int| 0 <= k < order.len() && order[k] == rows[i].id;
    assert(found[k].id == rows[i].id);
    assert forall|a: int, b: int| 0 <= a < b < found.len() implies (#[trigger] found[a]).id != (
    #[trigger] found[b]).id by {
        assert(order[a] != order[b]);
    }
}

} // verus!
