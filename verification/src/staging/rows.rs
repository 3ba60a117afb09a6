//! The row behind each change: its image, nothing, or what the source table
//! holds now.

use super::change::FoldedChange;
use crate::lists::{lemma_filter_none, lemma_filter_push};
use crate::map::TextMap;
use crate::text::same;
use vstd::prelude::*;

verus! {

/// A row: each column that is there, with its text or null.
pub type Row = TextMap<Option<String>>;

/// Where a change's row comes from.
#[derive(Debug, Clone, PartialEq, Eq)]
pub enum RowSource {
    /// From the image that was staged with it.
    Image(String),
    /// Nowhere: the row was deleted.
    Gone,
    /// From the source table, as it is now.
    Refetch,
}

/// Where a change's row comes from: its new image; nowhere, where only an old
/// image is there; and the source table, where there is no image at all.
pub open spec fn source_of(change: FoldedChange) -> RowSource {
    match (change.new_image, change.old_image) {
        (Some(image), _) => RowSource::Image(image),
        (None, Some(_)) => RowSource::Gone,
        (None, None) => RowSource::Refetch,
    }
}

/// Where a change's row comes from.
pub fn row_source(change: &FoldedChange) -> (r: RowSource)
    ensures
        r == source_of(*change),
        change.new_image matches Some(image) ==> r == RowSource::Image(image),
        r is Gone <==> change.new_image is None && change.old_image is Some,
        r is Refetch <==> change.new_image is None && change.old_image is None,
{
    match &change.new_image {
        Some(image) => RowSource::Image(image.clone()),
        None => match &change.old_image {
            Some(_) => RowSource::Gone,
            None => RowSource::Refetch,
        },
    }
}

/// The keys to read from the source table, in the order of their changes.
pub open spec fn refetched(changes: Seq<FoldedChange>) -> Seq<String>
    decreases changes.len(),
{
    if changes.len() == 0 {
        seq![]
    } else if source_of(changes.last()) is Refetch {
        refetched(changes.drop_last()).push(changes.last().key)
    } else {
        refetched(changes.drop_last())
    }
}

/// The keys to read from the source table, in the order of their changes.
pub fn refetch_keys(changes: &Vec<FoldedChange>) -> (r: Vec<String>)
    ensures
        r@ == refetched(changes@),
{
    let mut r: Vec<String> = Vec::new();
    for i in 0..changes.len()
        invariant
            r@ == refetched(changes@.take(i as int)),
    {
        assert(changes@.take(i + 1).drop_last() =~= changes@.take(i as int));
        match row_source(&changes[i]) {
            RowSource::Refetch => {
                r.push(changes[i].key.clone());
            },
            RowSource::Image(_) | RowSource::Gone => {},
        }
    }
    assert(changes@.take(changes@.len() as int) =~= changes@);
    r
}

/// Whether an earlier change reads the same key from the source table.
pub open spec fn taken_before(changes: Seq<FoldedChange>, i: int) -> bool {
    exists|j: int|
        0 <= j < i && source_of(#[trigger] changes[j]) is Refetch && changes[j].key@ == changes[i].key@
}

/// The row behind the change at `i`: what was decoded for it, or, for a change
/// without images, the row the source table holds. A row that was read is
/// handed out once, to the first change of its key.
pub open spec fn row_behind(
    changes: Seq<FoldedChange>,
    decoded: Seq<Option<Row>>,
    live: Map<Seq<char>, Row>,
    i: int,
) -> Option<Row> {
    if source_of(changes[i]) is Refetch {
        if live.contains_key(changes[i].key@) && !taken_before(changes, i) {
            Some(live[changes[i].key@])
        } else {
            None
        }
    } else {
        decoded[i]
    }
}

/// The row behind each change, from the decoded images and the rows read from
/// the source table.
pub fn fill_rows(changes: &Vec<FoldedChange>, decoded: Vec<Option<Row>>, live: TextMap<Row>) -> (r: Vec<Option<Row>>)
    requires
        decoded@.len() == changes@.len(),
    ensures
        r@.len() == changes@.len(),
        forall|i: int| 0 <= i < r@.len() ==> #[trigger] r@[i] == row_behind(changes@, decoded@, live@, i),
        forall|i: int|
            0 <= i < r@.len() && !has_no_image(changes@[i]) ==> #[trigger] r@[i] == decoded@[i],
        forall|i: int|
            0 <= i < r@.len() && is_first_without_image(changes@, i) ==> #[trigger] r@[i] == if live@.contains_key(
                changes@[i].key@,
            ) {
                Some(live@[changes@[i].key@])
            } else {
                None
            },
{
    proof {
        assert forall|i: int| 0 <= i < changes@.len() && !has_no_image(changes@[i]) implies row_behind(
            changes@,
            decoded@,
            live@,
            i,
        ) == decoded@[i] by {
            law_rows_come_from_images(changes@, decoded@, live@, i);
        }
        assert forall|i: int| 0 <= i < changes@.len() && is_first_without_image(changes@, i) implies row_behind(
            changes@,
            decoded@,
            live@,
            i,
        ) == if live@.contains_key(changes@[i].key@) {
            Some(live@[changes@[i].key@])
        } else {
            None
        } by {
            law_rows_come_from_images(changes@, decoded@, live@, i);
        }
    }
    let mut rows = decoded;
    let mut rest = live;
    for i in 0..changes.len()
        invariant
            rows@.len() == changes@.len(),
            decoded@.len() == changes@.len(),
            forall|j: int| 0 <= j < i ==> #[trigger] rows@[j] == row_behind(changes@, decoded@, live@, j),
            forall|j: int| i <= j < rows@.len() ==> #[trigger] rows@[j] == decoded@[j],
            forall|k: Seq<char>| #[trigger] rest@.contains_key(k) <==> live@.contains_key(k) && !(exists|j: int|
                0 <= j < i && source_of(#[trigger] changes@[j]) is Refetch && changes@[j].key@ == k),
            forall|k: Seq<char>| #[trigger] rest@.contains_key(k) ==> rest@[k] == live@[k],
    {
        match row_source(&changes[i]) {
            RowSource::Refetch => {
                let ghost before = rest@;
                let (left, row) = rest.remove(changes[i].key.as_str());
                rest = left;
                rows.set(i, row);
                proof {
                    let key = changes@[i as int].key@;
                    assert(before.contains_key(key) <==> live@.contains_key(key) && !taken_before(changes@, i as int));
                    assert forall|k: Seq<char>| #[trigger] rest@.contains_key(k) <==> live@.contains_key(k) && !(exists|
                        j: int,
                    |
                        0 <= j < i + 1 && source_of(#[trigger] changes@[j]) is Refetch && changes@[j].key@ == k) by {
                        assert(before.contains_key(k) <==> live@.contains_key(k) && !(exists|j: int|
                            0 <= j < i && source_of(#[trigger] changes@[j]) is Refetch && changes@[j].key@ == k));
                    }
                    assert forall|k: Seq<char>| #[trigger] rest@.contains_key(k) implies rest@[k] == live@[k] by {
                        assert(before.contains_key(k));
                    }
                }
            },
            RowSource::Image(_) | RowSource::Gone => {
                proof {
                    assert forall|k: Seq<char>| #[trigger] rest@.contains_key(k) <==> live@.contains_key(k) && !(exists|
                        j: int,
                    |
                        0 <= j < i + 1 && source_of(#[trigger] changes@[j]) is Refetch && changes@[j].key@ == k) by {}
                }
            },
        }
    }
    rows
}

/// The value of the last cell of one row and column, of cells given as row key,
/// column and value; nothing where there is no such cell.
pub open spec fn last_cell(cells: Seq<(String, String, Option<String>)>, key: Seq<char>, column: Seq<char>) -> Option<
    Option<String>,
>
    decreases cells.len(),
{
    if cells.len() == 0 {
        None
    } else if cells.last().0@ == key && cells.last().1@ == column {
        Some(cells.last().2)
    } else {
        last_cell(cells.drop_last(), key, column)
    }
}

/// Whether some cell belongs to the row.
pub open spec fn has_cell(cells: Seq<(String, String, Option<String>)>, key: Seq<char>) -> bool {
    exists|i: int| 0 <= i < cells.len() && #[trigger] cells[i].0@ == key
}

/// Whether a row's columns and values are those of its cells.
pub open spec fn is_row_of(row: Row, cells: Seq<(String, String, Option<String>)>, key: Seq<char>) -> bool {
    forall|column: Seq<char>|
        match last_cell(cells, key, column) {
            Some(value) => #[trigger] row@.contains_key(column) && row@[column] == value,
            None => !row@.contains_key(column),
        }
}

/// The rows that cells make up, by row key.
#[verifier::spinoff_prover]
pub fn rows_of_cells(cells: Vec<(String, String, Option<String>)>) -> (r: TextMap<Row>)
    ensures
        forall|k: Seq<char>| #[trigger] r@.contains_key(k) <==> has_cell(cells@, k),
        forall|k: Seq<char>| #[trigger] r@.contains_key(k) ==> is_row_of(r@[k], cells@, k),
{
    let mut r: TextMap<Row> = TextMap::new();
    for i in 0..cells.len()
        invariant
            forall|k: Seq<char>| #[trigger] r@.contains_key(k) <==> has_cell(cells@.take(i as int), k),
            forall|k: Seq<char>| #[trigger] r@.contains_key(k) ==> is_row_of(r@[k], cells@.take(i as int), k),
    {
        let ghost before = r@;
        let key = &cells[i].0;
        let column = &cells[i].1;
        let value = &cells[i].2;
        let (rest, known) = r.remove(key.as_str());
        let row: Row = match known {
            Some(row) => row,
            None => TextMap::new(),
        };
        let ghost row_before = row@;
        let row = row.insert(column.clone(), value.clone());
        r = rest.insert(key.clone(), row);
        proof {
            let done = cells@.take(i as int);
            let next = cells@.take(i + 1);
            assert(next.drop_last() =~= done);
            assert(next.last() == cells@[i as int]);
            assert forall|k: Seq<char>| #[trigger] r@.contains_key(k) <==> has_cell(next, k) by {
                if k == key@ {
                    assert(next[i as int].0@ == k);
                } else {
                    assert(before.contains_key(k) <==> has_cell(done, k));
                    if has_cell(done, k) {
                        let j = choose|j: int| 0 <= j < done.len() && #[trigger] done[j].0@ == k;
                        assert(next[j].0@ == k);
                    }
                    if has_cell(next, k) {
                        let j = choose|j: int| 0 <= j < next.len() && #[trigger] next[j].0@ == k;
                        assert(done[j].0@ == k);
                    }
                }
            }
            assert forall|k: Seq<char>| #[trigger] r@.contains_key(k) implies is_row_of(r@[k], next, k) by {
                if k == key@ {
                    if !before.contains_key(k) {
                        lemma_no_cell(done, k);
                    }
                    assert forall|c: Seq<char>|
                        match last_cell(next, k, c) {
                            Some(value) => #[trigger] r@[k]@.contains_key(c) && r@[k]@[c] == value,
                            None => !r@[k]@.contains_key(c),
                        } by {
                        assert(row_before.contains_key(c) <==> last_cell(done, k, c) is Some);
                        assert(last_cell(next, k, c) == if c == column@ {
                            Some(*value)
                        } else {
                            last_cell(done, k, c)
                        });
                    }
                    assert(is_row_of(r@[k], next, k));
                } else {
                    assert(before.contains_key(k));
                    assert(is_row_of(before[k], done, k));
                    assert forall|c: Seq<char>|
                        match last_cell(next, k, c) {
                            Some(value) => #[trigger] r@[k]@.contains_key(c) && r@[k]@[c] == value,
                            None => !r@[k]@.contains_key(c),
                        } by {
                        assert(before[k]@.contains_key(c) <==> last_cell(done, k, c) is Some);
                        assert(last_cell(next, k, c) == last_cell(done, k, c));
                    }
                    assert(is_row_of(r@[k], next, k));
                }
            }
        }
    }
    assert(cells@.take(cells@.len() as int) =~= cells@);
    r
}

proof fn lemma_no_cell(cells: Seq<(String, String, Option<String>)>, key: Seq<char>)
    requires
        !has_cell(cells, key),
    ensures
        forall|column: Seq<char>| (#[trigger] last_cell(cells, key, column)) is None,
    decreases cells.len(),
{
    if cells.len() > 0 {
        assert(cells[cells.len() - 1].0@ != key);
        if has_cell(cells.drop_last(), key) {
            let j = choose|j: int| 0 <= j < cells.drop_last().len() && #[trigger] cells.drop_last()[j].0@ == key;
            assert(cells[j].0@ == key);
        }
        lemma_no_cell(cells.drop_last(), key);
        assert forall|column: Seq<char>| (#[trigger] last_cell(cells, key, column)) is None by {
            assert(last_cell(cells.drop_last(), key, column) is None);
        }
    }
}

/// A change with a new image has the row of exactly that image, whether or not
/// there is an old one; a change counts as deleted where there is an old image
/// alone; and only a change without images is read from the source table.
pub proof fn law_the_new_image_is_the_row(change: FoldedChange)
    ensures
        change.new_image matches Some(image) ==> source_of(change) == RowSource::Image(image),
        source_of(change) is Gone <==> change.new_image is None && change.old_image is Some,
        source_of(change) is Refetch <==> change.new_image is None && change.old_image is None,
{
}

/// Whether a change has no image at all.
pub open spec fn has_no_image(change: FoldedChange) -> bool {
    change.new_image is None && change.old_image is None
}

/// Whether a change is the first one of its key without images.
pub open spec fn is_first_without_image(changes: Seq<FoldedChange>, i: int) -> bool {
    has_no_image(changes[i]) && forall|j: int|
        0 <= j < i && has_no_image(#[trigger] changes[j]) ==> changes[j].key@ != changes[i].key@
}

/// A change with an image keeps the row that was decoded for it. Of the changes
/// without images, the first one of a key gets the row that the source table
/// holds, and those after it none.
pub proof fn law_rows_come_from_images(
    changes: Seq<FoldedChange>,
    decoded: Seq<Option<Row>>,
    live: Map<Seq<char>, Row>,
    i: int,
)
    requires
        0 <= i < changes.len(),
    ensures
        !has_no_image(changes[i]) ==> row_behind(changes, decoded, live, i) == decoded[i],
        is_first_without_image(changes, i) && live.contains_key(changes[i].key@) ==> row_behind(
            changes,
            decoded,
            live,
            i,
        ) == Some(live[changes[i].key@]),
        has_no_image(changes[i]) && !(is_first_without_image(changes, i) && live.contains_key(changes[i].key@))
            ==> row_behind(changes, decoded, live, i) is None,
{
    if has_no_image(changes[i]) && !is_first_without_image(changes, i) {
        let j = choose|j: int| 0 <= j < i && has_no_image(#[trigger] changes[j]) && changes[j].key@ == changes[i].key@;
        assert(source_of(changes[j]) is Refetch);
    }
}

/// The keys that are read are those of the changes without images, in order.
pub proof fn law_keys_without_images_are_read(changes: Seq<FoldedChange>)
    ensures
        refetched(changes) == changes.filter(|c: FoldedChange| has_no_image(c)).map_values(|c: FoldedChange| c.key),
    decreases changes.len(),
{
    let bare = |c: FoldedChange| has_no_image(c);
    let key = |c: FoldedChange| c.key;
    if changes.len() == 0 {
        lemma_filter_none(changes, bare);
        assert(changes.take(0) =~= changes);
        assert(refetched(changes) =~= changes.filter(bare).map_values(key));
    } else {
        let front = changes.drop_last();
        law_keys_without_images_are_read(front);
        lemma_filter_push(front, changes.last(), bare);
        assert(changes =~= front.push(changes.last()));
        assert(front.filter(bare).push(changes.last()).map_values(key) =~= front.filter(bare).map_values(key).push(
            changes.last().key,
        ));
    }
}

/// A row's column has the value of the last cell that gives it.
pub proof fn law_the_last_cell_counts(
    cells: Seq<(String, String, Option<String>)>,
    key: Seq<char>,
    column: Seq<char>,
    value: Option<String>,
)
    ensures
        last_cell(cells, key, column) == Some(value) <==> exists|i: int|
            0 <= i < cells.len() && (#[trigger] cells[i]).0@ == key && cells[i].1@ == column && cells[i].2 == value
                && forall|j: int| i < j < cells.len() ==> (#[trigger] cells[j]).0@ != key || cells[j].1@ != column,
    decreases cells.len(),
{
    if cells.len() > 0 {
        let front = cells.drop_last();
        let n = cells.len() - 1;
        law_the_last_cell_counts(front, key, column, value);
        if cells[n].0@ == key && cells[n].1@ == column {
            if cells[n].2 == value {
                assert(cells[n].0@ == key);
            }
        } else {
            if last_cell(front, key, column) == Some(value) {
                let i = choose|i: int|
                    0 <= i < front.len() && (#[trigger] front[i]).0@ == key && front[i].1@ == column && front[i].2
                        == value && forall|j: int|
                        i < j < front.len() ==> (#[trigger] front[j]).0@ != key || front[j].1@ != column;
                assert(cells[i] == front[i]);
                assert forall|j: int| i < j < cells.len() implies (#[trigger] cells[j]).0@ != key || cells[j].1@
                    != column by {
                    if j < n {
                        assert(front[j] == cells[j]);
                    }
                }
            }
            if exists|i: int|
                0 <= i < cells.len() && (#[trigger] cells[i]).0@ == key && cells[i].1@ == column && cells[i].2 == value
                    && forall|j: int|
                    i < j < cells.len() ==> (#[trigger] cells[j]).0@ != key || cells[j].1@ != column {
                let i = choose|i: int|
                    0 <= i < cells.len() && (#[trigger] cells[i]).0@ == key && cells[i].1@ == column && cells[i].2
                        == value && forall|j: int|
                        i < j < cells.len() ==> (#[trigger] cells[j]).0@ != key || cells[j].1@ != column;
                assert(i < n);
                assert(front[i] == cells[i]);
                assert forall|j: int| i < j < front.len() implies (#[trigger] front[j]).0@ != key || front[j].1@
                    != column by {
                    assert(front[j] == cells[j]);
                }
            }
        }
    }
}

} // verus!
