//! Related rows: what a definition that reads through relationships needs for
//! its evaluation.

use super::reverse::text_in;
use super::rows::Row;
use crate::defs::ast::ValueType;
use crate::defs::model::RelationshipCardinality;
use crate::map::{among, has_key, TextMap};
use crate::text::texts;
use crate::lists::{lemma_filter_none, lemma_filter_push};
use vstd::prelude::*;

verus! {

/// The columns that references, given as relationship and column, read through
/// a relationship, each once, in the order of first occurrence.
pub open spec fn columns_through(references: Seq<(String, String)>, rel: Seq<char>) -> Seq<Seq<char>>
    decreases references.len(),
{
    if references.len() == 0 {
        seq![]
    } else {
        let before = columns_through(references.drop_last(), rel);
        let last = references.last();
        if last.0@ == rel && !before.contains(last.1@) {
            before.push(last.1@)
        } else {
            before
        }
    }
}

/// The columns that references read through each relationship.
pub fn columns_by_relationship(references: &Vec<(String, String)>) -> (r: TextMap<Vec<String>>)
    ensures
        forall|rel: Seq<char>| #[trigger] r@.contains_key(rel) <==> columns_through(references@, rel).len() > 0,
        forall|rel: Seq<char>| #[trigger]
            r@.contains_key(rel) ==> texts(r@[rel]@) == columns_through(references@, rel),
{
    let mut r: TextMap<Vec<String>> = TextMap::new();
    for i in 0..references.len()
        invariant
            forall|rel: Seq<char>| #[trigger]
                r@.contains_key(rel) <==> columns_through(references@.take(i as int), rel).len() > 0,
            forall|rel: Seq<char>| #[trigger]
                r@.contains_key(rel) ==> texts(r@[rel]@) == columns_through(references@.take(i as int), rel),
    {
        let rel = &references[i].0;
        let column = &references[i].1;
        let ghost before = r@;
        let ghost done = references@.take(i as int);
        let ghost next = references@.take(i + 1);
        let (rest, known) = r.remove(rel.as_str());
        let mut columns: Vec<String> = match known {
            Some(columns) => columns,
            None => Vec::new(),
        };
        let ghost columns_before = columns@;
        proof {
            assert(next.drop_last() =~= done);
            assert(before.contains_key(rel@) <==> columns_through(done, rel@).len() > 0);
            assert(texts(columns@) =~= columns_through(done, rel@));
            assert(among(columns@, column@) <==> texts(columns@).contains(column@)) by {
                if among(columns@, column@) {
                    let j = choose|j: int| 0 <= j < columns@.len() && #[trigger] columns@[j]@ == column@;
                    assert(texts(columns@)[j] == column@);
                }
                if texts(columns@).contains(column@) {
                    let j = choose|j: int| 0 <= j < texts(columns@).len() && texts(columns@)[j] == column@;
                    assert(columns@[j]@ == column@);
                }
            }
        }
        if !has_key(&columns, column.as_str()) {
            columns.push(column.clone());
            assert(texts(columns@) =~= texts(columns_before).push(column@));
        }
        proof {
            assert(texts(columns@) == columns_through(next, rel@));
            if columns@.len() == 0 {
                assert(columns_through(done, rel@).contains(column@));
            }
        }
        r = rest.insert(rel.clone(), columns);
        proof {
            assert forall|q: Seq<char>| #[trigger] r@.contains_key(q) <==> columns_through(next, q).len() > 0 by {
                assert(before.contains_key(q) <==> columns_through(done, q).len() > 0);
            }
            assert forall|q: Seq<char>| #[trigger] r@.contains_key(q) implies texts(r@[q]@) == columns_through(
                next,
                q,
            ) by {
                if q != rel@ {
                    assert(before.contains_key(q));
                }
            }
        }
    }
    assert(references@.take(references@.len() as int) =~= references@);
    r
}

/// The texts that a column has in the rows, each once, in the order of first
/// occurrence; a null or a missing column has none.
pub open spec fn distinct_texts(rows: Seq<Option<Row>>, column: Seq<char>) -> Seq<Seq<char>>
    decreases rows.len(),
{
    if rows.len() == 0 {
        seq![]
    } else {
        let before = distinct_texts(rows.drop_last(), column);
        match text_in(rows.last(), column) {
            Some(text) => if before.contains(text) {
                before
            } else {
                before.push(text)
            },
            None => before,
        }
    }
}

/// The join keys to look up: the texts that a column has in the rows, each once.
pub fn distinct_join_keys(rows: &Vec<Option<Row>>, column: &str) -> (r: Vec<String>)
    ensures
        texts(r@) == distinct_texts(rows@, column@),
{
    let mut r: Vec<String> = Vec::new();
    assert(texts(r@) =~= seq![]);
    for i in 0..rows.len()
        invariant
            texts(r@) == distinct_texts(rows@.take(i as int), column@),
    {
        assert(rows@.take(i + 1).drop_last() =~= rows@.take(i as int));
        let ghost before = texts(r@);
        if let Some(row) = &rows[i] {
            if let Some(value) = row.get(column) {
                if let Some(text) = value {
                    proof {
                        assert(among(r@, text@) <==> before.contains(text@)) by {
                            if among(r@, text@) {
                                let j = choose|j: int| 0 <= j < r@.len() && #[trigger] r@[j]@ == text@;
                                assert(before[j] == text@);
                            }
                            if before.contains(text@) {
                                let j = choose|j: int| 0 <= j < before.len() && before[j] == text@;
                                assert(r@[j]@ == text@);
                            }
                        }
                    }
                    if !has_key(&r, text.as_str()) {
                        r.push(text.clone());
                        assert(texts(r@) =~= before.push(text@));
                    }
                }
            }
        }
    }
    assert(rows@.take(rows@.len() as int) =~= rows@);
    r
}

/// One column of one related row.
#[derive(Debug, Clone, PartialEq, Eq)]
pub struct RelatedCell {
    /// The row's join key.
    pub join_key: String,
    /// The row's number in the answer.
    pub row_number: i64,
    /// The column.
    pub column: String,
    /// Its text, or null.
    pub value: Option<String>,
}

/// A related row and its join key.
#[derive(Debug)]
pub struct RelatedRow {
    /// The row's number in the answer.
    pub row_number: i64,
    /// The row's join key.
    pub join_key: String,
    /// The row.
    pub row: Row,
}

/// The numbers of the rows, in the order in which their first cells come.
pub open spec fn row_numbers(cells: Seq<RelatedCell>) -> Seq<i64>
    decreases cells.len(),
{
    if cells.len() == 0 {
        seq![]
    } else {
        let before = row_numbers(cells.drop_last());
        if before.contains(cells.last().row_number) {
            before
        } else {
            before.push(cells.last().row_number)
        }
    }
}

/// The columns and values of a row: the last cell of a column counts.
pub open spec fn row_cells(cells: Seq<RelatedCell>, number: i64) -> Map<Seq<char>, Option<String>>
    decreases cells.len(),
{
    if cells.len() == 0 {
        Map::empty()
    } else if cells.last().row_number == number {
        row_cells(cells.drop_last(), number).insert(cells.last().column@, cells.last().value)
    } else {
        row_cells(cells.drop_last(), number)
    }
}

/// The join key of a row's first cell.
pub open spec fn first_join_key(cells: Seq<RelatedCell>, number: i64) -> Option<String>
    decreases cells.len(),
{
    if cells.len() == 0 {
        None
    } else {
        match first_join_key(cells.drop_last(), number) {
            Some(key) => Some(key),
            None => if cells.last().row_number == number {
                Some(cells.last().join_key)
            } else {
                None
            },
        }
    }
}

/// Whether the rows are those that the cells make up, in order.
pub open spec fn are_related_rows(rows: Seq<RelatedRow>, cells: Seq<RelatedCell>) -> bool {
    &&& rows.len() == row_numbers(cells).len()
    &&& forall|i: int|
        0 <= i < rows.len() ==> {
            &&& (#[trigger] rows[i]).row_number == row_numbers(cells)[i]
            &&& first_join_key(cells, rows[i].row_number) == Some(rows[i].join_key)
            &&& rows[i].row@ == row_cells(cells, rows[i].row_number)
        }
}

proof fn lemma_row_numbers(cells: Seq<RelatedCell>, number: i64)
    ensures
        row_numbers(cells).no_duplicates(),
        row_numbers(cells).contains(number) <==> first_join_key(cells, number) is Some,
        !row_numbers(cells).contains(number) ==> row_cells(cells, number) == Map::<Seq<char>, Option<String>>::empty(),
    decreases cells.len(),
{
    if cells.len() > 0 {
        lemma_row_numbers(cells.drop_last(), number);
        let before = row_numbers(cells.drop_last());
        let all = row_numbers(cells);
        if before.contains(number) {
            let i = choose|i: int| 0 <= i < before.len() && before[i] == number;
            assert(all[i] == number);
        }
        if all.contains(number) {
            let i = choose|i: int| 0 <= i < all.len() && all[i] == number;
            if i < before.len() {
                assert(before[i] == number);
            }
        }
        if cells.last().row_number == number && !before.contains(number) {
            assert(all[before.len() as int] == number);
        }
    }
}

/// The rows that cells make up.
pub fn related_rows(cells: &Vec<RelatedCell>) -> (r: Vec<RelatedRow>)
    ensures
        are_related_rows(r@, cells@),
{
    let mut r: Vec<RelatedRow> = Vec::new();
    for n in 0..cells.len()
        invariant
            are_related_rows(r@, cells@.take(n as int)),
    {
        let cell = &cells[n];
        let ghost done = cells@.take(n as int);
        let ghost next = cells@.take(n + 1);
        let ghost before = r@;
        proof {
            assert(next.drop_last() =~= done);
            lemma_row_numbers(done, cell.row_number);
        }
        let mut i: usize = 0;
        while i < r.len() && r[i].row_number != cell.row_number
            invariant
                i <= r@.len(),
                r@ == before,
                forall|j: int| 0 <= j < i ==> (#[trigger] r@[j]).row_number != cell.row_number,
            decreases r@.len() - i,
        {
            i = i + 1;
        }
        if i < r.len() {
            let RelatedRow { row_number, join_key, row } = r.remove(i);
            let row = row.insert(cell.column.clone(), cell.value.clone());
            r.insert(i, RelatedRow { row_number, join_key, row });
            proof {
                assert(row_numbers(done)[i as int] == cell.row_number);
                assert(row_numbers(next) == row_numbers(done));
                assert forall|j: int| 0 <= j < r@.len() implies ({
                    &&& (#[trigger] r@[j]).row_number == row_numbers(next)[j]
                    &&& first_join_key(next, r@[j].row_number) == Some(r@[j].join_key)
                    &&& r@[j].row@ == row_cells(next, r@[j].row_number)
                }) by {
                    assert(before[j].row_number == row_numbers(done)[j]);
                    if j != i {
                        assert(r@[j] == before[j]);
                        assert(before[j].row_number != cell.row_number);
                    }
                }
            }
        } else {
            proof {
                if row_numbers(done).contains(cell.row_number) {
                    let j = choose|j: int| 0 <= j < row_numbers(done).len() && row_numbers(done)[j] == cell.row_number;
                    assert(before[j].row_number == cell.row_number);
                }
            }
            let row: Row = TextMap::new();
            let row = row.insert(cell.column.clone(), cell.value.clone());
            r.push(RelatedRow { row_number: cell.row_number, join_key: cell.join_key.clone(), row });
            proof {
                assert forall|j: int| 0 <= j < r@.len() implies ({
                    &&& (#[trigger] r@[j]).row_number == row_numbers(next)[j]
                    &&& first_join_key(next, r@[j].row_number) == Some(r@[j].join_key)
                    &&& r@[j].row@ == row_cells(next, r@[j].row_number)
                }) by {
                    if j < before.len() {
                        assert(r@[j] == before[j]);
                        assert(before[j].row_number == row_numbers(done)[j]);
                        assert(before[j].row_number != cell.row_number);
                    }
                }
            }
        }
    }
    assert(cells@.take(cells@.len() as int) =~= cells@);
    r
}

/// The last related row of a join key.
pub open spec fn last_related(rows: Seq<RelatedRow>, key: Seq<char>) -> Option<Row>
    decreases rows.len(),
{
    if rows.len() == 0 {
        None
    } else if rows.last().join_key@ == key {
        Some(rows.last().row)
    } else {
        last_related(rows.drop_last(), key)
    }
}

/// One related row for each join key: a to-one relationship has no more.
pub fn to_one_rows(rows: Vec<RelatedRow>) -> (r: TextMap<Row>)
    ensures
        forall|k: Seq<char>|
            match last_related(rows@, k) {
                Some(row) => #[trigger] r@.contains_key(k) && r@[k] == row,
                None => !r@.contains_key(k),
            },
{
    let mut left = rows;
    let mut r: TextMap<Row> = TextMap::new();
    while left.len() > 0
        invariant
            forall|k: Seq<char>| #[trigger]
                r@.contains_key(k) ==> last_related(rows@, k) == Some(r@[k]),
            forall|k: Seq<char>| !#[trigger] r@.contains_key(k) ==> last_related(rows@, k) == last_related(left@, k),
        decreases left@.len(),
    {
        let ghost before = left@;
        let ghost known = r@;
        match left.pop() {
            Some(last) => {
                assert(left@ =~= before.drop_last());
                assert(last == before.last());
                let RelatedRow { row_number: _, join_key, row } = last;
                if !r.contains(join_key.as_str()) {
                    r = r.insert(join_key, row);
                }
                assert forall|k: Seq<char>| !#[trigger] r@.contains_key(k) implies last_related(rows@, k)
                    == last_related(left@, k) by {
                    assert(!known.contains_key(k));
                }
            },
            None => {},
        }
    }
    assert forall|k: Seq<char>|
        match last_related(rows@, k) {
            Some(row) => #[trigger] r@.contains_key(k) && r@[k] == row,
            None => !r@.contains_key(k),
        } by {
        if !r@.contains_key(k) {
            assert(last_related(left@, k) is None);
        }
    }
    r
}

/// All related rows of a join key, in order.
pub open spec fn all_related(rows: Seq<RelatedRow>, key: Seq<char>) -> Seq<Row>
    decreases rows.len(),
{
    if rows.len() == 0 {
        seq![]
    } else if rows.last().join_key@ == key {
        all_related(rows.drop_last(), key).push(rows.last().row)
    } else {
        all_related(rows.drop_last(), key)
    }
}

/// What is stored for a join key.
pub open spec fn stored(map: Map<Seq<char>, Vec<Row>>, key: Seq<char>) -> Seq<Row> {
    if map.contains_key(key) {
        map[key]@
    } else {
        seq![]
    }
}

/// All related rows for each join key.
pub fn to_many_rows(rows: Vec<RelatedRow>) -> (r: TextMap<Vec<Row>>)
    ensures
        forall|k: Seq<char>| #[trigger] stored(r@, k) == all_related(rows@, k),
        forall|k: Seq<char>| #[trigger] r@.contains_key(k) <==> all_related(rows@, k).len() > 0,
{
    let mut left = rows;
    let mut r: TextMap<Vec<Row>> = TextMap::new();
    assert forall|k: Seq<char>| all_related(left@, k) + #[trigger] stored(r@, k) == all_related(rows@, k) by {
        assert(all_related(left@, k) + stored(r@, k) =~= all_related(rows@, k));
    }
    while left.len() > 0
        invariant
            forall|k: Seq<char>| all_related(left@, k) + #[trigger] stored(r@, k) == all_related(rows@, k),
            forall|k: Seq<char>| #[trigger] r@.contains_key(k) <==> stored(r@, k).len() > 0,
        decreases left@.len(),
    {
        let ghost before = left@;
        let ghost known = r@;
        match left.pop() {
            Some(last) => {
                assert(left@ =~= before.drop_last());
                assert(last == before.last());
                let ghost added = last.row;
                let ghost key = last.join_key@;
                let RelatedRow { row_number: _, join_key, row } = last;
                let (rest, found) = r.remove(join_key.as_str());
                let mut group: Vec<Row> = match found {
                    Some(group) => group,
                    None => Vec::new(),
                };
                assert(group@ =~= stored(known, key));
                group.insert(0, row);
                assert(group@ =~= seq![added] + stored(known, key));
                r = rest.insert(join_key, group);
                proof {
                    assert forall|k: Seq<char>| all_related(left@, k) + #[trigger] stored(r@, k) == all_related(
                        rows@,
                        k,
                    ) by {
                        assert(all_related(before, k) + stored(known, k) == all_related(rows@, k));
                        if k == key {
                            assert(all_related(left@, k) + (seq![added] + stored(known, k)) =~= all_related(
                                left@,
                                k,
                            ).push(added) + stored(known, k));
                        } else {
                            assert(stored(r@, k) == stored(known, k));
                        }
                    }
                    assert forall|k: Seq<char>| #[trigger] r@.contains_key(k) <==> stored(r@, k).len() > 0 by {
                        assert(known.contains_key(k) <==> stored(known, k).len() > 0);
                    }
                }
            },
            None => {},
        }
    }
    assert forall|k: Seq<char>| #[trigger] stored(r@, k) == all_related(rows@, k) by {
        assert(all_related(left@, k) + stored(r@, k) =~= stored(r@, k));
    }
    assert forall|k: Seq<char>| #[trigger] r@.contains_key(k) <==> all_related(rows@, k).len() > 0 by {
        assert(stored(r@, k) == all_related(rows@, k));
    }
    r
}

/// What was loaded for one relationship that a definition reads through.
#[derive(Debug)]
pub struct LoadedRelated {
    /// The relationship's name.
    pub name: String,
    /// Whether related rows are unique.
    pub cardinality: RelationshipCardinality,
    /// The source table's join column.
    pub from_col: String,
    /// The types of the related columns that are read.
    pub to_columns: TextMap<ValueType>,
    /// The related rows.
    pub rows: Vec<RelatedRow>,
}

/// A to-one relationship, ready for evaluation.
#[derive(Debug)]
pub struct ToOneRelationship {
    /// The source table's join column.
    pub from_col: String,
    /// The types of the related columns that are read.
    pub to_columns: TextMap<ValueType>,
    /// The related row of each join key.
    pub to_rows_by_key: TextMap<Row>,
}

/// A to-many relationship, ready for evaluation.
#[derive(Debug)]
pub struct ToManyRelationship {
    /// The source table's join column.
    pub from_col: String,
    /// The types of the related columns that are read.
    pub to_columns: TextMap<ValueType>,
    /// The related rows of each join key.
    pub to_rows_by_key: TextMap<Vec<Row>>,
}

/// All relationships that a definition reads through.
#[derive(Debug)]
pub struct RelationshipContext {
    /// The to-one relationships by name.
    pub to_one: TextMap<ToOneRelationship>,
    /// The to-many relationships by name.
    pub to_many: TextMap<ToManyRelationship>,
}

/// Whether a to-one relationship is what was loaded.
pub open spec fn is_to_one(built: ToOneRelationship, loaded: LoadedRelated) -> bool {
    &&& built.from_col == loaded.from_col
    &&& built.to_columns == loaded.to_columns
    &&& forall|k: Seq<char>|
        match last_related(loaded.rows@, k) {
            Some(row) => #[trigger] built.to_rows_by_key@.contains_key(k) && built.to_rows_by_key@[k] == row,
            None => !built.to_rows_by_key@.contains_key(k),
        }
}

/// Whether a to-many relationship is what was loaded.
pub open spec fn is_to_many(built: ToManyRelationship, loaded: LoadedRelated) -> bool {
    &&& built.from_col == loaded.from_col
    &&& built.to_columns == loaded.to_columns
    &&& forall|k: Seq<char>| #[trigger] stored(built.to_rows_by_key@, k) == all_related(loaded.rows@, k)
    &&& forall|k: Seq<char>| #[trigger]
        built.to_rows_by_key@.contains_key(k) <==> all_related(loaded.rows@, k).len() > 0
}

/// No relationship is loaded twice.
pub open spec fn names_differ(loaded: Seq<LoadedRelated>) -> bool {
    forall|i: int, j: int| 0 <= i < j < loaded.len() ==> (#[trigger] loaded[i]).name@ != (#[trigger] loaded[j]).name@
}

/// Whether a relationship of the name and cardinality is among those loaded.
pub open spec fn is_loaded(loaded: Seq<LoadedRelated>, name: Seq<char>, cardinality: RelationshipCardinality) -> bool {
    exists|i: int| 0 <= i < loaded.len() && (#[trigger] loaded[i]).name@ == name && loaded[i].cardinality == cardinality
}

/// The relationships that a definition reads through, ready for evaluation. One
/// that is not known is not loaded, and left out.
pub fn build_relationship_context(loaded: Vec<LoadedRelated>) -> (r: RelationshipContext)
    requires
        names_differ(loaded@),
    ensures
        forall|n: Seq<char>| #[trigger]
            r.to_one@.contains_key(n) <==> is_loaded(loaded@, n, RelationshipCardinality::ToOne),
        forall|n: Seq<char>| #[trigger]
            r.to_many@.contains_key(n) <==> is_loaded(loaded@, n, RelationshipCardinality::ToMany),
        forall|i: int|
            0 <= i < loaded@.len() ==> {
                let l = #[trigger] loaded@[i];
                match l.cardinality {
                    RelationshipCardinality::ToOne => is_to_one(r.to_one@[l.name@], l),
                    RelationshipCardinality::ToMany => is_to_many(r.to_many@[l.name@], l),
                }
            },
{
    let mut left = loaded;
    let mut to_one: TextMap<ToOneRelationship> = TextMap::new();
    let mut to_many: TextMap<ToManyRelationship> = TextMap::new();
    while left.len() > 0
        invariant
            names_differ(loaded@),
            left@.len() <= loaded@.len(),
            left@ == loaded@.take(left@.len() as int),
            forall|n: Seq<char>| #[trigger]
                to_one@.contains_key(n) <==> is_loaded(
                    loaded@.skip(left@.len() as int),
                    n,
                    RelationshipCardinality::ToOne,
                ),
            forall|n: Seq<char>| #[trigger]
                to_many@.contains_key(n) <==> is_loaded(
                    loaded@.skip(left@.len() as int),
                    n,
                    RelationshipCardinality::ToMany,
                ),
            forall|i: int|
                left@.len() <= i < loaded@.len() ==> {
                    let l = #[trigger] loaded@[i];
                    match l.cardinality {
                        RelationshipCardinality::ToOne => is_to_one(to_one@[l.name@], l),
                        RelationshipCardinality::ToMany => is_to_many(to_many@[l.name@], l),
                    }
                },
        decreases left@.len(),
    {
        let ghost n = left@.len() as int;
        let ghost one_before = to_one@;
        let ghost many_before = to_many@;
        match left.pop() {
            Some(last) => {
                let ghost l = last;
                assert(l == loaded@[n - 1]);
                assert(left@ =~= loaded@.take(n - 1));
                let LoadedRelated { name, cardinality, from_col, to_columns, rows } = last;
                match cardinality {
                    RelationshipCardinality::ToOne => {
                        let to_rows_by_key = to_one_rows(rows);
                        to_one = to_one.insert(name, ToOneRelationship { from_col, to_columns, to_rows_by_key });
                    },
                    RelationshipCardinality::ToMany => {
                        let to_rows_by_key = to_many_rows(rows);
                        to_many = to_many.insert(name, ToManyRelationship { from_col, to_columns, to_rows_by_key });
                    },
                }
                proof {
                    let old_tail = loaded@.skip(n);
                    let tail = loaded@.skip(n - 1);
                    assert(tail[0] == l);
                    assert forall|q: Seq<char>, c: RelationshipCardinality| #[trigger]
                        is_loaded(tail, q, c) <==> is_loaded(old_tail, q, c) || (q == l.name@ && c == l.cardinality) by {
                        if is_loaded(old_tail, q, c) {
                            let i = choose|i: int|
                                0 <= i < old_tail.len() && (#[trigger] old_tail[i]).name@ == q && old_tail[i].cardinality == c;
                            assert(tail[i + 1].name@ == q);
                        }
                        if is_loaded(tail, q, c) {
                            let i = choose|i: int|
                                0 <= i < tail.len() && (#[trigger] tail[i]).name@ == q && tail[i].cardinality == c;
                            if i > 0 {
                                assert(old_tail[i - 1].name@ == q);
                            }
                        }
                    }
                    assert forall|i: int| n - 1 <= i < loaded@.len() implies ({
                        let k = #[trigger] loaded@[i];
                        match k.cardinality {
                            RelationshipCardinality::ToOne => is_to_one(to_one@[k.name@], k),
                            RelationshipCardinality::ToMany => is_to_many(to_many@[k.name@], k),
                        }
                    }) by {
                        if i >= n {
                            assert(loaded@[n - 1].name@ != loaded@[i].name@);
                        }
                    }
                }
            },
            None => {},
        }
    }
    assert(loaded@.skip(0) =~= loaded@);
    RelationshipContext { to_one, to_many }
}

/// The columns that are read through a relationship are each listed once, in the
/// order of their first references.
pub proof fn law_columns_are_listed_once(references: Seq<(String, String)>, rel: Seq<char>)
    ensures
        columns_through(references, rel).no_duplicates(),
        forall|k: Seq<char>| #[trigger]
            columns_through(references, rel).contains(k) <==> exists|i: int|
                0 <= i < references.len() && (#[trigger] references[i]).0@ == rel && references[i].1@ == k,
        references.len() > 0 ==> columns_through(references.drop_last(), rel).is_prefix_of(columns_through(references, rel)),
    decreases references.len(),
{
    let all = columns_through(references, rel);
    if references.len() > 0 {
        let front = references.drop_last();
        let n = references.len() - 1;
        law_columns_are_listed_once(front, rel);
        let before = columns_through(front, rel);
        assert forall|k: Seq<char>| #[trigger] all.contains(k) <==> exists|i: int|
            0 <= i < references.len() && (#[trigger] references[i]).0@ == rel && references[i].1@ == k by {
            if before.contains(k) {
                let m = choose|m: int| 0 <= m < before.len() && before[m] == k;
                assert(all[m] == k);
                let i = choose|i: int| 0 <= i < front.len() && (#[trigger] front[i]).0@ == rel && front[i].1@ == k;
                assert(references[i] == front[i]);
            }
            if all.contains(k) && !before.contains(k) {
                let m = choose|m: int| 0 <= m < all.len() && all[m] == k;
                assert(m == before.len());
                assert(references[n].0@ == rel && references[n].1@ == k);
            }
            if exists|i: int| 0 <= i < references.len() && (#[trigger] references[i]).0@ == rel && references[i].1@ == k {
                let i = choose|i: int| 0 <= i < references.len() && (#[trigger] references[i]).0@ == rel && references[i].1@ == k;
                if i < n {
                    assert(front[i] == references[i]);
                    assert(before.contains(k));
                } else if !before.contains(k) {
                    assert(all[before.len() as int] == k);
                }
            }
        }
    }
}

/// The join keys of rows are each listed once, in the order of their first rows;
/// rows without one have none.
pub proof fn law_join_keys_are_listed_once(rows: Seq<Option<Row>>, column: Seq<char>)
    ensures
        distinct_texts(rows, column).no_duplicates(),
        forall|k: Seq<char>| #[trigger]
            distinct_texts(rows, column).contains(k) <==> exists|i: int|
                0 <= i < rows.len() && text_in((#[trigger] rows[i]), column) is Some && text_in(rows[i], column)->0 == k,
        rows.len() > 0 ==> distinct_texts(rows.drop_last(), column).is_prefix_of(distinct_texts(rows, column)),
    decreases rows.len(),
{
    let all = distinct_texts(rows, column);
    if rows.len() > 0 {
        let front = rows.drop_last();
        let n = rows.len() - 1;
        law_join_keys_are_listed_once(front, column);
        let before = distinct_texts(front, column);
        assert forall|k: Seq<char>| #[trigger] all.contains(k) <==> exists|i: int|
            0 <= i < rows.len() && text_in((#[trigger] rows[i]), column) is Some && text_in(rows[i], column)->0 == k by {
            if before.contains(k) {
                let m = choose|m: int| 0 <= m < before.len() && before[m] == k;
                assert(all[m] == k);
                let i = choose|i: int| 0 <= i < front.len() && text_in((#[trigger] front[i]), column) is Some && text_in(front[i], column)->0 == k;
                assert(rows[i] == front[i]);
            }
            if all.contains(k) && !before.contains(k) {
                let m = choose|m: int| 0 <= m < all.len() && all[m] == k;
                assert(m == before.len());
                assert(text_in(rows[n], column) is Some && text_in(rows[n], column)->0 == k);
            }
            if exists|i: int| 0 <= i < rows.len() && text_in((#[trigger] rows[i]), column) is Some && text_in(rows[i], column)->0 == k {
                let i = choose|i: int| 0 <= i < rows.len() && text_in((#[trigger] rows[i]), column) is Some && text_in(rows[i], column)->0 == k;
                if i < n {
                    assert(front[i] == rows[i]);
                    assert(before.contains(k));
                } else if !before.contains(k) {
                    assert(all[before.len() as int] == k);
                }
            }
        }
    }
}

/// The rows that cells belong to are each listed once, in the order of their first
/// cells.
pub proof fn law_rows_are_listed_once(cells: Seq<RelatedCell>)
    ensures
        row_numbers(cells).no_duplicates(),
        forall|k: i64| #[trigger]
            row_numbers(cells).contains(k) <==> exists|i: int|
                0 <= i < cells.len() && (#[trigger] cells[i]).row_number == k,
        cells.len() > 0 ==> row_numbers(cells.drop_last()).is_prefix_of(row_numbers(cells)),
    decreases cells.len(),
{
    let all = row_numbers(cells);
    if cells.len() > 0 {
        let front = cells.drop_last();
        let n = cells.len() - 1;
        law_rows_are_listed_once(front);
        let before = row_numbers(front);
        assert forall|k: i64| #[trigger] all.contains(k) <==> exists|i: int|
            0 <= i < cells.len() && (#[trigger] cells[i]).row_number == k by {
            if before.contains(k) {
                let m = choose|m: int| 0 <= m < before.len() && before[m] == k;
                assert(all[m] == k);
                let i = choose|i: int| 0 <= i < front.len() && (#[trigger] front[i]).row_number == k;
                assert(cells[i] == front[i]);
            }
            if all.contains(k) && !before.contains(k) {
                let m = choose|m: int| 0 <= m < all.len() && all[m] == k;
                assert(m == before.len());
                assert(cells[n].row_number == k);
            }
            if exists|i: int| 0 <= i < cells.len() && (#[trigger] cells[i]).row_number == k {
                let i = choose|i: int| 0 <= i < cells.len() && (#[trigger] cells[i]).row_number == k;
                if i < n {
                    assert(front[i] == cells[i]);
                    assert(before.contains(k));
                } else if !before.contains(k) {
                    assert(all[before.len() as int] == k);
                }
            }
        }
    }
}

/// All rows of a join key, and no others, in order.
pub proof fn law_related_rows_are_all_listed(rows: Seq<RelatedRow>, key: Seq<char>)
    ensures
        all_related(rows, key) == rows.filter(|r: RelatedRow| r.join_key@ == key).map_values(|r: RelatedRow| r.row),
    decreases rows.len(),
{
    let pass = |r: RelatedRow| r.join_key@ == key;
    let f = |r: RelatedRow| r.row;
    if rows.len() == 0 {
        lemma_filter_none(rows, pass);
        assert(rows.take(0) =~= rows);
        assert(all_related(rows, key) =~= rows.filter(pass).map_values(f));
    } else {
        let front = rows.drop_last();
        law_related_rows_are_all_listed(front, key);
        lemma_filter_push(front, rows.last(), pass);
        assert(rows =~= front.push(rows.last()));
        assert(front.filter(pass).push(rows.last()).map_values(f) =~= front.filter(pass).map_values(f).push(
            f(rows.last()),
        ));
        assert(all_related(rows, key) =~= rows.filter(pass).map_values(f));
    }
}

/// Where a join key has several rows the last one is its row.
pub proof fn law_the_last_related_row_counts(rows: Seq<RelatedRow>, key: Seq<char>, value: Row)
    ensures
        last_related(rows, key) == Some(value) <==> exists|i: int|
            0 <= i < rows.len() && (#[trigger] rows[i]).join_key@ == key && rows[i].row == value && forall|j: int|
                i < j < rows.len() ==> !((#[trigger] rows[j]).join_key@ == key),
    decreases rows.len(),
{
    if rows.len() > 0 {
        let front = rows.drop_last();
        let n = rows.len() - 1;
        law_the_last_related_row_counts(front, key, value);
        if rows[n].join_key@ == key {
            if rows[n].row == value {
                let i = n;
                assert(rows[i].join_key@ == key);
            }
        } else {
            if last_related(front, key) == Some(value) {
                let i = choose|i: int|
                    0 <= i < front.len() && (#[trigger] front[i]).join_key@ == key && front[i].row == value && forall|j: int|
                i < j < front.len() ==> !((#[trigger] front[j]).join_key@ == key);
                assert(rows[i] == front[i]);
                assert forall|j: int| i < j < rows.len() implies !((#[trigger] rows[j]).join_key@ == key) by {
                    if j < n {
                        assert(front[j] == rows[j]);
                    }
                }
            }
            if exists|i: int|
                0 <= i < rows.len() && (#[trigger] rows[i]).join_key@ == key && rows[i].row == value && forall|j: int|
                i < j < rows.len() ==> !((#[trigger] rows[j]).join_key@ == key) {
                let i = choose|i: int|
                    0 <= i < rows.len() && (#[trigger] rows[i]).join_key@ == key && rows[i].row == value && forall|j: int|
                i < j < rows.len() ==> !((#[trigger] rows[j]).join_key@ == key);
                assert(i < n);
                assert(front[i] == rows[i]);
                assert forall|j: int| i < j < front.len() implies !((#[trigger] front[j]).join_key@ == key) by {
                    assert(front[j] == rows[j]);
                }
            }
        }
    }
}

/// A row has the columns of its cells, and no others.
pub proof fn law_rows_have_the_columns_of_their_cells(cells: Seq<RelatedCell>, number: i64, column: Seq<char>)
    ensures
        row_cells(cells, number).contains_key(column) <==> exists|i: int|
            0 <= i < cells.len() && (#[trigger] cells[i]).row_number == number && cells[i].column@ == column,
    decreases cells.len(),
{
    if cells.len() > 0 {
        let front = cells.drop_last();
        let n = cells.len() - 1;
        law_rows_have_the_columns_of_their_cells(front, number, column);
        if exists|i: int| 0 <= i < front.len() && (#[trigger] front[i]).row_number == number && front[i].column@ == column {
            let i = choose|i: int|
                0 <= i < front.len() && (#[trigger] front[i]).row_number == number && front[i].column@ == column;
            assert(cells[i] == front[i]);
        }
        if exists|i: int| 0 <= i < cells.len() && (#[trigger] cells[i]).row_number == number && cells[i].column@ == column {
            let i = choose|i: int|
                0 <= i < cells.len() && (#[trigger] cells[i]).row_number == number && cells[i].column@ == column;
            if i < n {
                assert(front[i] == cells[i]);
            }
        }
        if cells[n].row_number == number && cells[n].column@ == column {
            assert(row_cells(cells, number).contains_key(column));
        }
    }
}

/// A row's column has the value of the last cell that gives it.
pub proof fn law_the_last_cell_of_a_row_counts(cells: Seq<RelatedCell>, number: i64, column: Seq<char>, i: int)
    requires
        0 <= i < cells.len(),
        cells[i].row_number == number,
        cells[i].column@ == column,
        forall|j: int|
            i < j < cells.len() ==> (#[trigger] cells[j]).row_number != number || cells[j].column@ != column,
    ensures
        row_cells(cells, number)[column] == cells[i].value,
    decreases cells.len(),
{
    let front = cells.drop_last();
    let n = cells.len() - 1;
    if i < n {
        assert(cells[n].row_number != number || cells[n].column@ != column);
        assert(front[i] == cells[i]);
        assert forall|j: int| i < j < front.len() implies (#[trigger] front[j]).row_number != number || front[j].column@
            != column by {
            assert(cells[j] == front[j]);
        }
        law_the_last_cell_of_a_row_counts(front, number, column, i);
    }
}

/// A row's join key is that of its first cell.
pub proof fn law_the_first_cell_has_the_join_key(cells: Seq<RelatedCell>, number: i64, i: int)
    requires
        0 <= i < cells.len(),
        cells[i].row_number == number,
        forall|j: int| 0 <= j < i ==> (#[trigger] cells[j]).row_number != number,
    ensures
        first_join_key(cells, number) == Some(cells[i].join_key),
    decreases cells.len(),
{
    let front = cells.drop_last();
    let n = cells.len() - 1;
    if i < n {
        assert(front[i] == cells[i]);
        assert forall|j: int| 0 <= j < i implies (#[trigger] front[j]).row_number != number by {
            assert(cells[j].row_number != number);
        }
        law_the_first_cell_has_the_join_key(front, number, i);
    } else {
        lemma_no_join_key(front, number);
    }
}

proof fn lemma_no_join_key(cells: Seq<RelatedCell>, number: i64)
    requires
        forall|j: int| 0 <= j < cells.len() ==> (#[trigger] cells[j]).row_number != number,
    ensures
        first_join_key(cells, number) is None,
    decreases cells.len(),
{
    if cells.len() > 0 {
        let front = cells.drop_last();
        assert forall|j: int| 0 <= j < front.len() implies (#[trigger] front[j]).row_number != number by {
            assert(cells[j].row_number != number);
        }
        lemma_no_join_key(front, number);
        assert(cells[cells.len() - 1].row_number != number);
    }
}

/// A related row has the columns of its cells, and is of the join key of the first
/// of them; there is one row for each number, in the order of their first cells.
pub proof fn law_related_rows_are_their_cells(rows: Seq<RelatedRow>, cells: Seq<RelatedCell>, r: int, column: Seq<char>)
    requires
        are_related_rows(rows, cells),
        0 <= r < rows.len(),
    ensures
        rows.len() == row_numbers(cells).len(),
        rows[r].row_number == row_numbers(cells)[r],
        rows[r].row@.contains_key(column) <==> exists|i: int|
            0 <= i < cells.len() && (#[trigger] cells[i]).row_number == rows[r].row_number && cells[i].column@ == column,
        forall|i: int|
            0 <= i < cells.len() && (#[trigger] cells[i]).row_number == rows[r].row_number && (forall|j: int|
                0 <= j < i ==> (#[trigger] cells[j]).row_number != rows[r].row_number) ==> rows[r].join_key
                == cells[i].join_key,
{
    law_rows_have_the_columns_of_their_cells(cells, rows[r].row_number, column);
    assert forall|i: int|
        0 <= i < cells.len() && (#[trigger] cells[i]).row_number == rows[r].row_number && (forall|j: int|
            0 <= j < i ==> (#[trigger] cells[j]).row_number != rows[r].row_number) implies rows[r].join_key
        == cells[i].join_key by {
        law_the_first_cell_has_the_join_key(cells, rows[r].row_number, i);
    }
}

/// A to-one relationship has, for each join key of a related row and no other, the
/// last such row; a to-many relationship has them all, in order. Both keep the
/// column that is joined by and the related columns' types.
pub proof fn law_relationships_have_their_rows(
    one: ToOneRelationship,
    many: ToManyRelationship,
    loaded: LoadedRelated,
    i: int,
    key: Seq<char>,
)
    requires
        0 <= i < loaded.rows@.len(),
        key == loaded.rows@[i].join_key@,
    ensures
        is_to_one(one, loaded) ==> {
            &&& one.from_col == loaded.from_col
            &&& one.to_columns == loaded.to_columns
            &&& one.to_rows_by_key@.contains_key(loaded.rows@[i].join_key@)
            &&& (forall|j: int|
                i < j < loaded.rows@.len() ==> (#[trigger] loaded.rows@[j]).join_key@ != loaded.rows@[i].join_key@)
                ==> one.to_rows_by_key@[loaded.rows@[i].join_key@] == loaded.rows@[i].row
            &&& forall|k: Seq<char>| #[trigger]
                one.to_rows_by_key@.contains_key(k) ==> exists|j: int|
                    0 <= j < loaded.rows@.len() && (#[trigger] loaded.rows@[j]).join_key@ == k
        },
        is_to_many(many, loaded) ==> {
            &&& many.from_col == loaded.from_col
            &&& many.to_columns == loaded.to_columns
            &&& many.to_rows_by_key@.contains_key(loaded.rows@[i].join_key@)
            &&& many.to_rows_by_key@[key]@ == loaded.rows@.filter(
                |r: RelatedRow| r.join_key@ == key,
            ).map_values(|r: RelatedRow| r.row)
            &&& forall|k: Seq<char>| #[trigger]
                many.to_rows_by_key@.contains_key(k) ==> exists|j: int|
                    0 <= j < loaded.rows@.len() && (#[trigger] loaded.rows@[j]).join_key@ == k
        },
{
    let rows = loaded.rows@;
    lemma_related_somewhere(rows, key);
    if is_to_one(one, loaded) {
        assert(one.to_rows_by_key@.contains_key(key));
        if forall|j: int| i < j < rows.len() ==> (#[trigger] rows[j]).join_key@ != key {
            law_the_last_related_row_counts(rows, key, rows[i].row);
        }
        assert forall|k: Seq<char>| #[trigger] one.to_rows_by_key@.contains_key(k) implies exists|j: int|
            0 <= j < rows.len() && (#[trigger] rows[j]).join_key@ == k by {
            lemma_related_somewhere(rows, k);
        }
    }
    if is_to_many(many, loaded) {
        assert(rows[i].join_key@ == key);
        assert(many.to_rows_by_key@.contains_key(key));
        law_related_rows_are_all_listed(rows, key);
        assert(stored(many.to_rows_by_key@, key) == all_related(rows, key));
        assert forall|k: Seq<char>| #[trigger] many.to_rows_by_key@.contains_key(k) implies exists|j: int|
            0 <= j < rows.len() && (#[trigger] rows[j]).join_key@ == k by {
            lemma_related_somewhere(rows, k);
        }
    }
}

proof fn lemma_related_somewhere(rows: Seq<RelatedRow>, key: Seq<char>)
    ensures
        last_related(rows, key) is Some <==> exists|j: int|
            0 <= j < rows.len() && (#[trigger] rows[j]).join_key@ == key,
        all_related(rows, key).len() > 0 <==> exists|j: int|
            0 <= j < rows.len() && (#[trigger] rows[j]).join_key@ == key,
    decreases rows.len(),
{
    if rows.len() > 0 {
        let front = rows.drop_last();
        lemma_related_somewhere(front, key);
        if exists|j: int| 0 <= j < front.len() && (#[trigger] front[j]).join_key@ == key {
            let j = choose|j: int| 0 <= j < front.len() && (#[trigger] front[j]).join_key@ == key;
            assert(rows[j].join_key@ == key);
        }
        if rows.last().join_key@ == key {
            assert(rows[rows.len() - 1].join_key@ == key);
        }
        if exists|j: int| 0 <= j < rows.len() && (#[trigger] rows[j]).join_key@ == key {
            let j = choose|j: int| 0 <= j < rows.len() && (#[trigger] rows[j]).join_key@ == key;
            if j < front.len() {
                assert(front[j].join_key@ == key);
            }
        }
    }
}

} // verus!
