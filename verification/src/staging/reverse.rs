//! Reverse recompute: which rows read a related row that changed, and have to
//! be derived again.

use super::change::{FoldedChange, SourceTime};
use super::rows::Row;
use super::touch::{
    deepest_hop, earliest_origin, law_deepest_hop_wins, law_earliest_origin_wins, merge_touches, merges,
    touched, touches_key, Touch, Touched,
};
use crate::map::among;
use crate::text::same;
use vstd::prelude::*;

verus! {

/// The text of a row's column, where the row is there and the column is not null.
pub open spec fn text_in(row: Option<Row>, column: Seq<char>) -> Option<Seq<char>> {
    match row {
        Some(row) => if row@.contains_key(column) {
            match row@[column] {
                Some(text) => Some(text@),
                None => None,
            }
        } else {
            None
        },
        None => None,
    }
}

/// A touch of the join key that a row has, if it has one.
pub open spec fn noted(table: Seq<char>, key: Option<Seq<char>>, change: FoldedChange) -> Seq<Touched> {
    match key {
        Some(key) => seq![Touched { table, key, hop_gen: change.hop_gen, src_changed: change.src_changed }],
        None => seq![],
    }
}

/// The join keys of `table` that the changes touch: the new row's and the old row's.
pub open spec fn join_touches(
    table: Seq<char>,
    to_col: Seq<char>,
    changes: Seq<FoldedChange>,
    rows: Seq<Option<Row>>,
    old_rows: Seq<Option<Row>>,
) -> Seq<Touched>
    decreases changes.len(),
{
    if changes.len() == 0 {
        seq![]
    } else {
        join_touches(table, to_col, changes.drop_last(), rows.drop_last(), old_rows.drop_last()) + noted(
            table,
            text_in(rows.last(), to_col),
            changes.last(),
        ) + noted(table, text_in(old_rows.last(), to_col), changes.last())
    }
}

fn note(touches: &mut Vec<Touch>, table: &str, row: &Option<Row>, to_col: &str, change: &FoldedChange)
    ensures
        touched(final(touches)@) == touched(old(touches)@) + noted(table@, text_in(*row, to_col@), *change),
{
    let ghost before = touched(touches@);
    if let Some(row) = row {
        if let Some(value) = row.get(to_col) {
            if let Some(text) = value {
                touches.push(
                    Touch {
                        table: table.to_owned(),
                        key: text.clone(),
                        hop_gen: change.hop_gen,
                        src_changed: change.src_changed,
                    },
                );
            }
        }
    }
    assert(touched(touches@) =~= before + noted(table@, text_in(*row, to_col@), *change));
}

/// The join keys of `table` that the changes touch: a change that moves a row
/// from one key to another touches both, a deletion the old one.
pub fn join_key_touches(
    table: &str,
    to_col: &str,
    changes: &Vec<FoldedChange>,
    rows: &Vec<Option<Row>>,
    old_rows: &Vec<Option<Row>>,
) -> (r: Vec<Touch>)
    requires
        rows@.len() == changes@.len(),
        old_rows@.len() == changes@.len(),
    ensures
        touched(r@) == join_touches(table@, to_col@, changes@, rows@, old_rows@),
{
    let mut r: Vec<Touch> = Vec::new();
    assert(touched(r@) =~= seq![]);
    for i in 0..changes.len()
        invariant
            rows@.len() == changes@.len(),
            old_rows@.len() == changes@.len(),
            touched(r@) == join_touches(
                table@,
                to_col@,
                changes@.take(i as int),
                rows@.take(i as int),
                old_rows@.take(i as int),
            ),
    {
        proof {
            assert(changes@.take(i + 1).drop_last() =~= changes@.take(i as int));
            assert(rows@.take(i + 1).drop_last() =~= rows@.take(i as int));
            assert(old_rows@.take(i + 1).drop_last() =~= old_rows@.take(i as int));
        }
        note(&mut r, table, &rows[i], to_col, &changes[i]);
        note(&mut r, table, &old_rows[i], to_col, &changes[i]);
    }
    proof {
        assert(changes@.take(changes@.len() as int) =~= changes@);
        assert(rows@.take(rows@.len() as int) =~= rows@);
        assert(old_rows@.take(old_rows@.len() as int) =~= old_rows@);
    }
    r
}

/// The join keys among touches, each once: what to look up on the from-side.
pub fn join_keys(touches: &Vec<Touch>) -> (r: Vec<String>)
    ensures
        forall|k: Seq<char>| #[trigger] among(r@, k) <==> exists|i: int|
            0 <= i < touches@.len() && (#[trigger] touches@[i]).key@ == k,
        forall|i: int, j: int| 0 <= i < j < r@.len() ==> #[trigger] r@[i]@ != #[trigger] r@[j]@,
{
    let mut r: Vec<String> = Vec::new();
    for n in 0..touches.len()
        invariant
            forall|k: Seq<char>| #[trigger] among(r@, k) <==> exists|i: int|
                0 <= i < n && (#[trigger] touches@[i]).key@ == k,
            forall|i: int, j: int| 0 <= i < j < r@.len() ==> #[trigger] r@[i]@ != #[trigger] r@[j]@,
    {
        let key = &touches[n].key;
        let ghost before = r@;
        if !crate::map::has_key(&r, key.as_str()) {
            r.push(key.clone());
            proof {
                assert(r@[before.len() as int]@ == key@);
                assert forall|i: int, j: int| 0 <= i < j < r@.len() implies #[trigger] r@[i]@ != #[trigger] r@[j]@ by {
                    if j == before.len() {
                        assert(before[i]@ != key@) by {
                            assert(!among(before, key@));
                        }
                    } else {
                        assert(before[i]@ != before[j]@);
                    }
                }
            }
        }
        proof {
            assert forall|k: Seq<char>| #[trigger] among(r@, k) <==> exists|i: int|
                0 <= i < n + 1 && (#[trigger] touches@[i]).key@ == k by {
                if among(r@, k) {
                    let j = choose|j: int| 0 <= j < r@.len() && #[trigger] r@[j]@ == k;
                    if j < before.len() {
                        assert(before[j]@ == k);
                        assert(among(before, k));
                        let i = choose|i: int| 0 <= i < n && (#[trigger] touches@[i]).key@ == k;
                        assert(touches@[i].key@ == k);
                    } else {
                        assert(touches@[n as int].key@ == k);
                    }
                }
                if exists|i: int| 0 <= i < n + 1 && (#[trigger] touches@[i]).key@ == k {
                    let i = choose|i: int| 0 <= i < n + 1 && (#[trigger] touches@[i]).key@ == k;
                    if i < n {
                        assert(among(before, k));
                        let j = choose|j: int| 0 <= j < before.len() && #[trigger] before[j]@ == k;
                        assert(r@[j]@ == k);
                    } else if among(before, k) {
                        let j = choose|j: int| 0 <= j < before.len() && #[trigger] before[j]@ == k;
                        assert(r@[j]@ == k);
                    } else {
                        assert(r@[before.len() as int]@ == k);
                    }
                }
            }
        }
    }
    r
}

/// One hop behind the deepest touch of a join key.
pub open spec fn next_hop_of(touches: Seq<Touched>, table: Seq<char>, key: Seq<char>) -> i32 {
    match deepest_hop(touches, table, key) {
        Some(hop) => (hop + 1) as i32,
        None => 1,
    }
}

/// The from-side keys that touched join keys reach, given which from-side key
/// has which join key: one hop behind the deepest touch of the join key, with
/// its earliest origin.
pub open spec fn from_side(
    touches: Seq<Touched>,
    table: Seq<char>,
    from_table: Seq<char>,
    matches_: Seq<(String, String)>,
) -> Seq<Touched> {
    matches_.map_values(
        |m: (String, String)|
            Touched {
                table: from_table,
                key: m.0@,
                hop_gen: next_hop_of(touches, table, m.1@),
                src_changed: earliest_origin(touches, table, m.1@),
            },
    )
}

/// Every touch can be followed by another hop.
pub open spec fn hops_fit(touches: Seq<Touched>) -> bool {
    forall|i: int| 0 <= i < touches.len() ==> (#[trigger] touches[i]).hop_gen < i32::MAX
}

proof fn lemma_deepest_fits(touches: Seq<Touched>, table: Seq<char>, key: Seq<char>)
    requires
        hops_fit(touches),
    ensures
        deepest_hop(touches, table, key) matches Some(hop) ==> hop < i32::MAX,
    decreases touches.len(),
{
    if touches.len() > 0 {
        assert(touches[touches.len() - 1].hop_gen < i32::MAX);
        let front = touches.drop_last();
        assert forall|i: int| 0 <= i < front.len() implies (#[trigger] front[i]).hop_gen < i32::MAX by {
            assert(touches[i].hop_gen < i32::MAX);
        }
        lemma_deepest_fits(front, table, key);
    }
}

/// Adds the from-side keys that touched join keys reach.
pub fn add_from_side(
    out: &mut Vec<Touch>,
    touches: &Vec<Touch>,
    table: &str,
    from_table: &str,
    matched: &Vec<(String, String)>,
)
    requires
        hops_fit(touched(touches@)),
    ensures
        touched(final(out)@) == touched(old(out)@) + from_side(touched(touches@), table@, from_table@, matched@),
{
    let merged = merge_touches(touches);
    let ghost all = touched(touches@);
    let ghost one = touched(merged@);
    let ghost before = touched(out@);
    let ghost added = from_side(all, table@, from_table@, matched@);
    assert(before + added.take(0) =~= before);
    for n in 0..matched.len()
        invariant
            hops_fit(all),
            all == touched(touches@),
            one == touched(merged@),
            merges(one, all),
            added == from_side(all, table@, from_table@, matched@),
            touched(out@) == before + added.take(n as int),
    {
        let join = &matched[n].1;
        let mut i: usize = 0;
        while i < merged.len() && !(same(merged[i].table.as_str(), table) && same(
            merged[i].key.as_str(),
            join.as_str(),
        ))
            invariant
                i <= merged@.len(),
                one == touched(merged@),
                forall|j: int| 0 <= j < i ==> !(#[trigger] one[j]).is_of(table@, join@),
            decreases merged@.len() - i,
        {
            i = i + 1;
        }
        proof {
            lemma_deepest_fits(all, table@, join@);
            if i < merged@.len() {
                assert(one[i as int].is_of(table@, join@));
            } else {
                assert(!touches_key(one, table@, join@));
                super::touch::lemma_no_origin(all, table@, join@);
            }
        }
        let hop_gen: i32 = if i < merged.len() {
            merged[i].hop_gen + 1
        } else {
            1
        };
        let src_changed: Option<SourceTime> = if i < merged.len() {
            merged[i].src_changed
        } else {
            None
        };
        let ghost so_far = touched(out@);
        out.push(Touch { table: from_table.to_owned(), key: matched[n].0.clone(), hop_gen, src_changed });
        proof {
            assert(touched(out@) =~= so_far.push(added[n as int]));
            assert(added.take(n + 1) =~= added.take(n as int).push(added[n as int]));
            assert(touched(out@) =~= before + added.take(n + 1));
        }
    }
    assert(added.take(matched@.len() as int) =~= added);
}

/// The from-side keys that a truncate reaches: all that have a join key at all.
pub open spec fn from_side_of_truncate(
    change: FoldedChange,
    from_table: Seq<char>,
    keys: Seq<String>,
) -> Seq<Touched> {
    keys.map_values(
        |k: String|
            Touched {
                table: from_table,
                key: k@,
                hop_gen: (change.hop_gen + 1) as i32,
                src_changed: change.src_changed,
            },
    )
}

/// Adds the from-side keys that a truncate reaches.
pub fn add_from_side_of_truncate(
    out: &mut Vec<Touch>,
    change: &FoldedChange,
    from_table: &str,
    keys: &Vec<String>,
)
    requires
        change.hop_gen < i32::MAX,
    ensures
        touched(final(out)@) == touched(old(out)@) + from_side_of_truncate(*change, from_table@, keys@),
{
    let ghost before = touched(out@);
    let ghost added = from_side_of_truncate(*change, from_table@, keys@);
    assert(before + added.take(0) =~= before);
    for n in 0..keys.len()
        invariant
            change.hop_gen < i32::MAX,
            added == from_side_of_truncate(*change, from_table@, keys@),
            touched(out@) == before + added.take(n as int),
    {
        let ghost so_far = touched(out@);
        out.push(
            Touch {
                table: from_table.to_owned(),
                key: keys[n].clone(),
                hop_gen: change.hop_gen + 1,
                src_changed: change.src_changed,
            },
        );
        proof {
            assert(touched(out@) =~= so_far.push(added[n as int]));
            assert(added.take(n + 1) =~= added.take(n as int).push(added[n as int]));
            assert(touched(out@) =~= before + added.take(n + 1));
        }
    }
    assert(added.take(keys@.len() as int) =~= added);
}

/// Touches of join keys are as deep as the changes they come from.
pub proof fn lemma_join_touches_fit(
    table: Seq<char>,
    to_col: Seq<char>,
    changes: Seq<FoldedChange>,
    rows: Seq<Option<Row>>,
    old_rows: Seq<Option<Row>>,
)
    requires
        forall|i: int| 0 <= i < changes.len() ==> (#[trigger] changes[i]).hop_gen < i32::MAX,
    ensures
        hops_fit(join_touches(table, to_col, changes, rows, old_rows)),
    decreases changes.len(),
{
    if changes.len() > 0 {
        let front = changes.drop_last();
        assert forall|i: int| 0 <= i < front.len() implies (#[trigger] front[i]).hop_gen < i32::MAX by {
            assert(changes[i].hop_gen < i32::MAX);
        }
        assert(changes[changes.len() - 1].hop_gen < i32::MAX);
        lemma_join_touches_fit(table, to_col, front, rows.drop_last(), old_rows.drop_last());
    }
}

/// A row's text in a column is there where the row is, the column is, and its
/// value is not null.
pub proof fn law_texts_are_values_that_are_there(row: Option<Row>, column: Seq<char>, text: Seq<char>)
    ensures
        text_in(row, column) == Some(text) <==> row is Some && row->0@.contains_key(column) && row->0@[column] is Some
            && row->0@[column]->0@ == text,
{
}

/// The join keys that are touched are those in the rows of the changes, before and
/// after, each with the hop count and the origin of its change.
pub proof fn law_touched_join_keys(
    table: Seq<char>,
    to_col: Seq<char>,
    changes: Seq<FoldedChange>,
    rows: Seq<Option<Row>>,
    old_rows: Seq<Option<Row>>,
    t: Touched,
)
    requires
        rows.len() == changes.len(),
        old_rows.len() == changes.len(),
    ensures
        join_touches(table, to_col, changes, rows, old_rows).contains(t) <==> t.table == table && exists|i: int|
            0 <= i < changes.len() && (#[trigger] changes[i]).hop_gen == t.hop_gen && changes[i].src_changed
                == t.src_changed && (text_in(rows[i], to_col) == Some(t.key) || text_in(old_rows[i], to_col) == Some(
                t.key,
            )),
    decreases changes.len(),
{
    let all = join_touches(table, to_col, changes, rows, old_rows);
    if changes.len() > 0 {
        let n = changes.len() - 1;
        let (c, r, o) = (changes.drop_last(), rows.drop_last(), old_rows.drop_last());
        law_touched_join_keys(table, to_col, c, r, o, t);
        let before = join_touches(table, to_col, c, r, o);
        let now = noted(table, text_in(rows[n], to_col), changes[n]);
        let old = noted(table, text_in(old_rows[n], to_col), changes[n]);
        assert(all == before + now + old);
        if before.contains(t) {
            let k = choose|k: int| 0 <= k < before.len() && before[k] == t;
            assert(all[k] == t);
            let i = choose|i: int|
                0 <= i < c.len() && (#[trigger] c[i]).hop_gen == t.hop_gen && c[i].src_changed == t.src_changed && (
                text_in(r[i], to_col) == Some(t.key) || text_in(o[i], to_col) == Some(t.key));
            assert(changes[i] == c[i]);
        }
        if all.contains(t) && !before.contains(t) {
            let k = choose|k: int| 0 <= k < all.len() && all[k] == t;
            assert(k >= before.len()) by {
                if k < before.len() {
                    assert(before[k] == t);
                }
            }
            assert(changes[n].hop_gen == t.hop_gen);
        }
        if t.table == table && exists|i: int|
            0 <= i < changes.len() && (#[trigger] changes[i]).hop_gen == t.hop_gen && changes[i].src_changed
                == t.src_changed && (text_in(rows[i], to_col) == Some(t.key) || text_in(old_rows[i], to_col) == Some(
                t.key,
            )) {
            let i = choose|i: int|
                0 <= i < changes.len() && (#[trigger] changes[i]).hop_gen == t.hop_gen && changes[i].src_changed
                    == t.src_changed && (text_in(rows[i], to_col) == Some(t.key) || text_in(old_rows[i], to_col)
                    == Some(t.key));
            if i < n {
                assert(c[i] == changes[i]);
                assert(before.contains(t));
            } else if text_in(rows[n], to_col) == Some(t.key) {
                assert(all[before.len() as int] == t);
            } else {
                assert(all[(before.len() + now.len()) as int] == t);
            }
        }
    }
}

/// A row that has a touched join key is derived again one hop behind the deepest
/// change that touched the key, with the earliest of their origins.
pub proof fn law_related_rows_follow_their_join_key(
    touches: Seq<Touched>,
    table: Seq<char>,
    from_table: Seq<char>,
    matched: Seq<(String, String)>,
    m: int,
    i: int,
)
    requires
        hops_fit(touches),
        0 <= m < matched.len(),
        0 <= i < touches.len(),
        touches[i].table == table,
        touches[i].key == matched[m].1@,
    ensures
        from_side(touches, table, from_table, matched).len() == matched.len(),
        from_side(touches, table, from_table, matched)[m].table == from_table,
        from_side(touches, table, from_table, matched)[m].key == matched[m].0@,
        from_side(touches, table, from_table, matched)[m].hop_gen > touches[i].hop_gen,
        exists|k: int|
            0 <= k < touches.len() && (#[trigger] touches[k]).table == table && touches[k].key == matched[m].1@
                && from_side(touches, table, from_table, matched)[m].hop_gen == touches[k].hop_gen + 1,
        touches[i].src_changed is Some ==> from_side(touches, table, from_table, matched)[m].src_changed is Some
            && from_side(touches, table, from_table, matched)[m].src_changed->0.nanos
            <= touches[i].src_changed->0.nanos,
{
    let key = matched[m].1@;
    law_deepest_hop_wins(touches, table, key);
    law_earliest_origin_wins(touches, table, key);
    assert(touches[i].is_of(table, key));
    assert(touches_key(touches, table, key));
    let k = choose|k: int|
        0 <= k < touches.len() && (#[trigger] touches[k]).is_of(table, key) && touches[k].hop_gen == deepest_hop(
            touches,
            table,
            key,
        )->0;
    assert(touches[k].hop_gen < i32::MAX);
    assert(touches[k].table == table);
}

/// After a truncate, each row that had a join key is derived again one hop behind
/// it, with its origin.
pub proof fn law_truncated_rows_are_followed(change: FoldedChange, from_table: Seq<char>, keys: Seq<String>, k: int)
    requires
        change.hop_gen < i32::MAX,
        0 <= k < keys.len(),
    ensures
        from_side_of_truncate(change, from_table, keys).len() == keys.len(),
        from_side_of_truncate(change, from_table, keys)[k] == (Touched {
            table: from_table,
            key: keys[k]@,
            hop_gen: (change.hop_gen + 1) as i32,
            src_changed: change.src_changed,
        }),
{
}

} // verus!
