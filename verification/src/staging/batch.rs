//! Sorting a folded batch: which changes are truncates, which belong to
//! poisoned keys and are only parked, and which are applied, by source table.

use super::change::FoldedChange;
use crate::lists::{lemma_filter_contains, lemma_filter_none, lemma_filter_push, lemma_filter_step};
use crate::text::{after_last, chars_of, find_last, same, text_after_last};
use vstd::prelude::*;

verus! {

/// The applied changes of one source table.
#[derive(Debug)]
pub struct SourceBatch {
    /// The source table without its schema.
    pub source_key: String,
    /// Its changes, in batch order.
    pub changes: Vec<FoldedChange>,
}

/// A folded batch, sorted.
#[derive(Debug)]
pub struct SortedBatch {
    /// The applied changes by source table, in the order of first occurrence.
    pub by_source: Vec<SourceBatch>,
    /// The truncate sentinels.
    pub truncated: Vec<FoldedChange>,
    /// The changes of poisoned keys.
    pub poisoned_park: Vec<FoldedChange>,
    /// Source table and key of each applied change.
    pub applied_keys: Vec<(String, String)>,
}

/// Whether the change's key is among the poisoned ones.
pub open spec fn is_poisoned(poisoned: Seq<(String, String)>, c: FoldedChange) -> bool {
    exists|i: int|
        0 <= i < poisoned.len() && (#[trigger] poisoned[i]).0@ == c.src_table@ && poisoned[i].1@ == c.key@
}

/// The truncate sentinels of a batch.
pub open spec fn truncates(folded: Seq<FoldedChange>) -> Seq<FoldedChange> {
    folded.filter(|c: FoldedChange| c.is_truncate)
}

/// The keyed changes of a batch.
pub open spec fn keyed(folded: Seq<FoldedChange>) -> Seq<FoldedChange> {
    folded.filter(|c: FoldedChange| !c.is_truncate)
}

/// The keyed changes of poisoned keys.
pub open spec fn parked(folded: Seq<FoldedChange>, poisoned: Seq<(String, String)>) -> Seq<FoldedChange> {
    folded.filter(|c: FoldedChange| !c.is_truncate && is_poisoned(poisoned, c))
}

/// The keyed changes of all other keys.
pub open spec fn applied(folded: Seq<FoldedChange>, poisoned: Seq<(String, String)>) -> Seq<FoldedChange> {
    folded.filter(|c: FoldedChange| !c.is_truncate && !is_poisoned(poisoned, c))
}

/// Source table and key of each change.
pub open spec fn keys_of(changes: Seq<FoldedChange>) -> Seq<(String, String)> {
    changes.map_values(|c: FoldedChange| (c.src_table, c.key))
}

/// A source table's name without its schema.
pub open spec fn bare_name(table: Seq<char>) -> Seq<char> {
    after_last(table, '.')
}

/// The changes of one source table.
pub open spec fn of_source(changes: Seq<FoldedChange>, source_key: Seq<char>) -> Seq<FoldedChange> {
    changes.filter(|c: FoldedChange| bare_name(c.src_table@) == source_key)
}

/// The source tables of the changes, each once, in the order of first occurrence.
pub open spec fn source_order(changes: Seq<FoldedChange>) -> Seq<Seq<char>>
    decreases changes.len(),
{
    if changes.len() == 0 {
        seq![]
    } else {
        let before = source_order(changes.drop_last());
        let key = bare_name(changes.last().src_table@);
        if before.contains(key) {
            before
        } else {
            before.push(key)
        }
    }
}

/// A batch is sorted by source table where each source table in order has all its changes.
pub open spec fn sorted_by_source(sources: Seq<SourceBatch>, changes: Seq<FoldedChange>) -> bool {
    &&& sources.len() == source_order(changes).len()
    &&& forall|i: int|
        0 <= i < sources.len() ==> {
            &&& (#[trigger] sources[i]).source_key@ == source_order(changes)[i]
            &&& sources[i].changes@ == of_source(changes, source_order(changes)[i])
        }
}

/// The source table's name in the catalog: what follows its last `.`.
pub fn catalog_source_key(src_table: &str) -> (r: String)
    ensures
        r@ == bare_name(src_table@),
{
    text_after_last(src_table, '.')
}

/// Whether a table's name has its schema in front.
pub fn is_qualified(table: &str) -> (r: bool)
    ensures
        r == table@.contains('.'),
{
    let chars = chars_of(table);
    for i in 0..chars.len()
        invariant
            chars@ == table@,
            forall|j: int| 0 <= j < i ==> chars@[j] != '.',
    {
        if chars[i] == '.' {
            assert(table@[i as int] == '.');
            return true;
        }
    }
    false
}

/// Source table and key of each change that may be poisoned: truncate
/// sentinels never are.
pub fn poison_candidates(folded: &Vec<FoldedChange>) -> (r: Vec<(String, String)>)
    ensures
        r@ == keys_of(keyed(folded@)),
{
    let mut r: Vec<(String, String)> = Vec::new();
    proof {
        lemma_filter_none(folded@, |c: FoldedChange| !c.is_truncate);
        assert(r@ =~= keys_of(keyed(folded@.take(0))));
    }
    for i in 0..folded.len()
        invariant
            r@ == keys_of(keyed(folded@.take(i as int))),
    {
        let ghost before = keyed(folded@.take(i as int));
        proof {
            lemma_filter_step(folded@, i as int, |c: FoldedChange| !c.is_truncate);
        }
        if !folded[i].is_truncate {
            r.push((folded[i].src_table.clone(), folded[i].key.clone()));
            assert(r@ =~= keys_of(before.push(folded@[i as int])));
        }
    }
    proof {
        assert(folded@.take(folded@.len() as int) =~= folded@);
    }
    r
}

fn poisoned_change(poisoned: &Vec<(String, String)>, c: &FoldedChange) -> (r: bool)
    ensures
        r == is_poisoned(poisoned@, *c),
{
    let mut i: usize = 0;
    while i < poisoned.len()
        invariant
            i <= poisoned@.len(),
            forall|j: int|
                0 <= j < i ==> !((#[trigger] poisoned@[j]).0@ == c.src_table@ && poisoned@[j].1@ == c.key@),
        decreases poisoned@.len() - i,
    {
        if same(poisoned[i].0.as_str(), c.src_table.as_str()) && same(poisoned[i].1.as_str(), c.key.as_str()) {
            return true;
        }
        i = i + 1;
    }
    false
}

/// Adds one change to its source table's changes.
fn add_to_source(sources: &mut Vec<SourceBatch>, change: FoldedChange, Ghost(done): Ghost<Seq<FoldedChange>>)
    requires
        sorted_by_source(old(sources)@, done),
    ensures
        sorted_by_source(final(sources)@, done.push(change)),
{
    let key = catalog_source_key(change.src_table.as_str());
    let ghost next = done.push(change);
    let ghost before = sources@;
    proof {
        assert(next.drop_last() =~= done);
        assert forall|k: Seq<char>| #[trigger]
            of_source(next, k) == if k == key@ {
                of_source(done, k).push(change)
            } else {
                of_source(done, k)
            } by {
            lemma_filter_push(done, change, |c: FoldedChange| bare_name(c.src_table@) == k);
        }
    }
    let mut i: usize = 0;
    while i < sources.len() && !same(sources[i].source_key.as_str(), key.as_str())
        invariant
            i <= sources@.len(),
            sources@ == before,
            forall|j: int| 0 <= j < i ==> (#[trigger] sources@[j]).source_key@ != key@,
        decreases sources@.len() - i,
    {
        i = i + 1;
    }
    if i < sources.len() {
        sources[i].changes.push(change);
        proof {
            assert(source_order(done)[i as int] == key@);
            assert(source_order(next) == source_order(done));
            lemma_source_order(done);
            assert forall|j: int| 0 <= j < sources@.len() implies ({
                &&& (#[trigger] sources@[j]).source_key@ == source_order(next)[j]
                &&& sources@[j].changes@ == of_source(next, source_order(next)[j])
            }) by {
                assert(before[j].source_key@ == source_order(done)[j]);
                assert(before[j].changes@ == of_source(done, source_order(done)[j]));
                if j != i {
                    assert(source_order(done)[j] != key@);
                    assert(sources@[j] == before[j]);
                }
            }
        }
    } else {
        proof {
            if source_order(done).contains(key@) {
                let j = choose|j: int| 0 <= j < source_order(done).len() && source_order(done)[j] == key@;
                assert(before[j].source_key@ == key@);
            }
            assert(of_source(done, key@) == Seq::<FoldedChange>::empty()) by {
                lemma_source_complete(done, key@);
            }
        }
        let ghost k = key@;
        let mut changes: Vec<FoldedChange> = Vec::new();
        changes.push(change);
        assert(changes@ =~= of_source(done, k).push(change));
        sources.push(SourceBatch { source_key: key, changes });
        assert forall|j: int| 0 <= j < sources@.len() implies ({
            &&& (#[trigger] sources@[j]).source_key@ == source_order(next)[j]
            &&& sources@[j].changes@ == of_source(next, source_order(next)[j])
        }) by {
            if j < before.len() {
                assert(before[j].source_key@ == source_order(done)[j]);
                assert(before[j].changes@ == of_source(done, source_order(done)[j]));
                assert(sources@[j] == before[j]);
                assert(before[j].source_key@ != k);
            }
        }
    }
}

/// Sorts a folded batch, given which keys are poisoned.
pub fn sort_batch(folded: &Vec<FoldedChange>, poisoned: &Vec<(String, String)>) -> (r: SortedBatch)
    ensures
        r.truncated@ == truncates(folded@),
        r.poisoned_park@ == parked(folded@, poisoned@),
        r.applied_keys@ == keys_of(applied(folded@, poisoned@)),
        sorted_by_source(r.by_source@, applied(folded@, poisoned@)),
{
    let mut by_source: Vec<SourceBatch> = Vec::new();
    let mut truncated: Vec<FoldedChange> = Vec::new();
    let mut poisoned_park: Vec<FoldedChange> = Vec::new();
    let mut applied_keys: Vec<(String, String)> = Vec::new();
    proof {
        lemma_filter_none(folded@, |c: FoldedChange| c.is_truncate);
        lemma_filter_none(folded@, |c: FoldedChange| !c.is_truncate && is_poisoned(poisoned@, c));
        lemma_filter_none(folded@, |c: FoldedChange| !c.is_truncate && !is_poisoned(poisoned@, c));
        assert(applied_keys@ =~= keys_of(applied(folded@.take(0), poisoned@)));
    }
    for i in 0..folded.len()
        invariant
            truncated@ == truncates(folded@.take(i as int)),
            poisoned_park@ == parked(folded@.take(i as int), poisoned@),
            applied_keys@ == keys_of(applied(folded@.take(i as int), poisoned@)),
            sorted_by_source(by_source@, applied(folded@.take(i as int), poisoned@)),
    {
        proof {
            lemma_filter_step(folded@, i as int, |c: FoldedChange| c.is_truncate);
            lemma_filter_step(folded@, i as int, |c: FoldedChange| !c.is_truncate && is_poisoned(poisoned@, c));
            lemma_filter_step(folded@, i as int, |c: FoldedChange| !c.is_truncate && !is_poisoned(poisoned@, c));
        }
        let change = &folded[i];
        if change.is_truncate {
            truncated.push(change.duplicate());
        } else if poisoned_change(poisoned, change) {
            poisoned_park.push(change.duplicate());
        } else {
            let ghost done = applied(folded@.take(i as int), poisoned@);
            applied_keys.push((change.src_table.clone(), change.key.clone()));
            assert(applied_keys@ =~= keys_of(done.push(*change)));
            add_to_source(&mut by_source, change.duplicate(), Ghost(done));
        }
    }
    proof {
        assert(folded@.take(folded@.len() as int) =~= folded@);
    }
    SortedBatch { by_source, truncated, poisoned_park, applied_keys }
}

/// No source table is listed twice.
pub proof fn lemma_source_order(changes: Seq<FoldedChange>)
    ensures
        source_order(changes).no_duplicates(),
    decreases changes.len(),
{
    if changes.len() > 0 {
        lemma_source_order(changes.drop_last());
    }
}

/// A source table that is not listed has no changes.
pub proof fn lemma_source_complete(changes: Seq<FoldedChange>, source_key: Seq<char>)
    requires
        !source_order(changes).contains(source_key),
    ensures
        of_source(changes, source_key) == Seq::<FoldedChange>::empty(),
    decreases changes.len(),
{
    reveal(Seq::filter);
    if changes.len() > 0 {
        let front = changes.drop_last();
        let key = bare_name(changes.last().src_table@);
        let before = source_order(front);
        if before.contains(source_key) {
            let j = choose|j: int| 0 <= j < before.len() && before[j] == source_key;
            assert(source_order(changes)[j] == source_key);
        }
        if key == source_key {
            assert(source_order(changes) == before.push(key));
            assert(source_order(changes)[before.len() as int] == key);
        }
        lemma_source_complete(front, source_key);
        assert(changes =~= front.push(changes.last()));
        lemma_filter_push(front, changes.last(), |c: FoldedChange| bare_name(c.src_table@) == source_key);
    } else {
        assert(of_source(changes, source_key) =~= Seq::<FoldedChange>::empty());
    }
}

proof fn lemma_in_filter<A>(s: Seq<A>, pass: spec_fn(A) -> bool, x: A)
    ensures
        s.filter(pass).contains(x) <==> s.contains(x) && pass(x),
    decreases s.len(),
{
    reveal(Seq::filter);
    if s.len() > 0 {
        let front = s.drop_last();
        let kept = s.filter(pass);
        let before = front.filter(pass);
        lemma_in_filter(front, pass, x);
        assert(s =~= front.push(s.last()));
        if kept.contains(x) {
            let i = choose|i: int| 0 <= i < kept.len() && kept[i] == x;
            if i < before.len() {
                assert(before[i] == x);
                let j = choose|j: int| 0 <= j < front.len() && front[j] == x;
                assert(s[j] == x);
            } else {
                assert(s[s.len() - 1] == x);
            }
        }
        if s.contains(x) && pass(x) {
            let j = choose|j: int| 0 <= j < s.len() && s[j] == x;
            if j < front.len() {
                assert(front[j] == x);
                let i = choose|i: int| 0 <= i < before.len() && before[i] == x;
                assert(kept[i] == x);
            } else {
                assert(kept[before.len() as int] == x);
            }
        }
    }
}

proof fn lemma_listed(changes: Seq<FoldedChange>, c: FoldedChange)
    requires
        changes.contains(c),
    ensures
        source_order(changes).contains(bare_name(c.src_table@)),
    decreases changes.len(),
{
    let key = bare_name(c.src_table@);
    if !source_order(changes).contains(key) {
        lemma_source_complete(changes, key);
        lemma_in_filter(changes, |c: FoldedChange| bare_name(c.src_table@) == key, c);
        assert(of_source(changes, key).contains(c));
    }
}

/// No change of a poisoned key is applied, and every applied change is among
/// the changes of its own source table, which is listed once.
pub proof fn law_applied_changes_go_to_their_source(
    folded: Seq<FoldedChange>,
    poisoned: Seq<(String, String)>,
    c: FoldedChange,
)
    requires
        applied(folded, poisoned).contains(c),
    ensures
        folded.contains(c),
        !c.is_truncate,
        !is_poisoned(poisoned, c),
        source_order(applied(folded, poisoned)).no_duplicates(),
        source_order(applied(folded, poisoned)).contains(bare_name(c.src_table@)),
        of_source(applied(folded, poisoned), bare_name(c.src_table@)).contains(c),
{
    let all = applied(folded, poisoned);
    lemma_in_filter(folded, |c: FoldedChange| !c.is_truncate && !is_poisoned(poisoned, c), c);
    lemma_source_order(all);
    lemma_listed(all, c);
    let key = bare_name(c.src_table@);
    lemma_in_filter(all, |c: FoldedChange| bare_name(c.src_table@) == key, c);
}

/// Every change of a batch is a truncate, parked, or applied, and only one of
/// these: sorting a batch loses and repeats nothing.
pub proof fn law_sorting_loses_nothing(folded: Seq<FoldedChange>, poisoned: Seq<(String, String)>)
    ensures
        folded.to_multiset() == truncates(folded).to_multiset().add(parked(folded, poisoned).to_multiset()).add(
            applied(folded, poisoned).to_multiset(),
        ),
    decreases folded.len(),
{
    broadcast use vstd::seq_lib::group_to_multiset_ensures;

    reveal(Seq::filter);
    if folded.len() > 0 {
        let front = folded.drop_last();
        let c = folded.last();
        law_sorting_loses_nothing(front, poisoned);
        assert(folded =~= front.push(c));
        lemma_filter_push(front, c, |c: FoldedChange| c.is_truncate);
        lemma_filter_push(front, c, |c: FoldedChange| !c.is_truncate && is_poisoned(poisoned, c));
        lemma_filter_push(front, c, |c: FoldedChange| !c.is_truncate && !is_poisoned(poisoned, c));
    }
    assert(folded.to_multiset() =~= truncates(folded).to_multiset().add(parked(folded, poisoned).to_multiset()).add(
        applied(folded, poisoned).to_multiset(),
    ));
}

/// A change is poisoned where its table and key, both of them, are listed.
pub proof fn law_poisoned_keys_are_listed(poisoned: Seq<(String, String)>, c: FoldedChange)
    ensures
        is_poisoned(poisoned, c) <==> poisoned.map_values(|p: (String, String)| (p.0@, p.1@)).contains(
            (c.src_table@, c.key@),
        ),
{
    let pairs = poisoned.map_values(|p: (String, String)| (p.0@, p.1@));
    let pair = (c.src_table@, c.key@);
    if is_poisoned(poisoned, c) {
        let i = choose|i: int|
            0 <= i < poisoned.len() && (#[trigger] poisoned[i]).0@ == c.src_table@ && poisoned[i].1@ == c.key@;
        assert(pairs[i] == pair);
    }
    if pairs.contains(pair) {
        let i = choose|i: int| 0 <= i < pairs.len() && pairs[i] == pair;
        assert(poisoned[i].0@ == c.src_table@);
    }
}

/// Each change of a batch is a truncate, or parked because its key is poisoned,
/// or applied, and nothing else is any of these.
pub proof fn law_each_change_has_its_part(folded: Seq<FoldedChange>, poisoned: Seq<(String, String)>, c: FoldedChange)
    ensures
        truncates(folded).contains(c) <==> folded.contains(c) && c.is_truncate,
        keyed(folded).contains(c) <==> folded.contains(c) && !c.is_truncate,
        parked(folded, poisoned).contains(c) <==> folded.contains(c) && !c.is_truncate && poisoned.map_values(
            |p: (String, String)| (p.0@, p.1@),
        ).contains((c.src_table@, c.key@)),
        applied(folded, poisoned).contains(c) <==> folded.contains(c) && !c.is_truncate && !poisoned.map_values(
            |p: (String, String)| (p.0@, p.1@),
        ).contains((c.src_table@, c.key@)),
{
    law_poisoned_keys_are_listed(poisoned, c);
    lemma_filter_contains(folded, c, |c: FoldedChange| c.is_truncate);
    lemma_filter_contains(folded, c, |c: FoldedChange| !c.is_truncate);
    lemma_filter_contains(folded, c, |c: FoldedChange| !c.is_truncate && is_poisoned(poisoned, c));
    lemma_filter_contains(folded, c, |c: FoldedChange| !c.is_truncate && !is_poisoned(poisoned, c));
}

/// The keys of changes are their tables and keys, one for one.
pub proof fn law_keys_follow_the_changes(changes: Seq<FoldedChange>, i: int)
    requires
        0 <= i < changes.len(),
    ensures
        keys_of(changes).len() == changes.len(),
        keys_of(changes)[i].0 == changes[i].src_table,
        keys_of(changes)[i].1 == changes[i].key,
{
}

/// A table's name in the catalog has no schema: it is what follows the last dot.
pub proof fn law_bare_names(schema: Seq<char>, table: Seq<char>)
    requires
        !table.contains('.'),
    ensures
        bare_name(table) == table,
        bare_name(schema + seq!['.'] + table) == table,
{
    lemma_find_last_none(table, '.');
    assert(table.skip(0) =~= table);
    let all = schema + seq!['.'] + table;
    lemma_find_last_at(all, '.', schema.len() as int);
    assert(all.skip(schema.len() as int + 1) =~= table);
}

proof fn lemma_find_last_none(s: Seq<char>, c: char)
    requires
        !s.contains(c),
    ensures
        find_last(s, c) == -1,
    decreases s.len(),
{
    if s.len() > 0 {
        assert(s.contains(s[s.len() - 1]));
        assert forall|i: int| 0 <= i < s.drop_last().len() implies s.drop_last()[i] != c by {
            assert(s.contains(s[i]));
        }
        lemma_find_last_none(s.drop_last(), c);
    }
}

proof fn lemma_find_last_at(s: Seq<char>, c: char, i: int)
    requires
        0 <= i < s.len(),
        s[i] == c,
        !s.skip(i + 1).contains(c),
    ensures
        find_last(s, c) == i,
    decreases s.len(),
{
    if i < s.len() - 1 {
        let rest = s.skip(i + 1);
        assert(rest.contains(rest[rest.len() - 1]));
        assert(rest[rest.len() - 1] == s.last());
        let front = s.drop_last();
        let shorter = front.skip(i + 1);
        assert forall|j: int| 0 <= j < shorter.len() implies #[trigger] shorter[j] != c by {
            assert(shorter[j] == rest[j]);
            assert(rest.contains(rest[j]));
        }
        lemma_find_last_at(front, c, i);
    }
}

/// The source tables of changes are each listed once, in the order of their first
/// changes: what more changes add comes behind.
pub proof fn law_sources_come_in_order(changes: Seq<FoldedChange>)
    ensures
        source_order(changes).no_duplicates(),
        forall|k: Seq<char>| #[trigger]
            source_order(changes).contains(k) <==> exists|i: int|
                0 <= i < changes.len() && bare_name((#[trigger] changes[i]).src_table@) == k,
        changes.len() > 0 ==> source_order(changes.drop_last()).is_prefix_of(source_order(changes)),
    decreases changes.len(),
{
    let all = source_order(changes);
    if changes.len() > 0 {
        let front = changes.drop_last();
        let n = changes.len() - 1;
        law_sources_come_in_order(front);
        let before = source_order(front);
        assert forall|k: Seq<char>| #[trigger] all.contains(k) <==> exists|i: int|
            0 <= i < changes.len() && bare_name((#[trigger] changes[i]).src_table@) == k by {
            if before.contains(k) {
                let m = choose|m: int| 0 <= m < before.len() && before[m] == k;
                assert(all[m] == k);
                let i = choose|i: int| 0 <= i < front.len() && bare_name((#[trigger] front[i]).src_table@) == k;
                assert(changes[i] == front[i]);
            }
            if all.contains(k) && !before.contains(k) {
                let m = choose|m: int| 0 <= m < all.len() && all[m] == k;
                assert(m == before.len());
                assert(bare_name(changes[n].src_table@) == k);
            }
            if exists|i: int| 0 <= i < changes.len() && bare_name((#[trigger] changes[i]).src_table@) == k {
                let i = choose|i: int| 0 <= i < changes.len() && bare_name((#[trigger] changes[i]).src_table@) == k;
                if i < n {
                    assert(front[i] == changes[i]);
                    assert(before.contains(k));
                } else if !before.contains(k) {
                    assert(all[before.len() as int] == k);
                }
            }
        }
    }
}

/// Each applied change is with the changes of its source table, and every change
/// there is an applied one of that table; each source table has one place.
pub proof fn law_changes_are_with_their_source(sources: Seq<SourceBatch>, changes: Seq<FoldedChange>, c: FoldedChange)
    requires
        sorted_by_source(sources, changes),
    ensures
        changes.contains(c) ==> exists|i: int|
            0 <= i < sources.len() && (#[trigger] sources[i]).changes@.contains(c) && sources[i].source_key@ == bare_name(
                c.src_table@,
            ),
        forall|i: int|
            0 <= i < sources.len() && (#[trigger] sources[i]).changes@.contains(c) ==> changes.contains(c)
                && sources[i].source_key@ == bare_name(c.src_table@),
        forall|i: int, j: int|
            0 <= i < j < sources.len() ==> (#[trigger] sources[i]).source_key@ != (#[trigger] sources[j]).source_key@,
        forall|i: int|
            0 <= i < sources.len() ==> (#[trigger] sources[i]).changes@ == changes.filter(
                |x: FoldedChange| bare_name(x.src_table@) == sources[i].source_key@,
            ),
{
    law_sources_come_in_order(changes);
    let order = source_order(changes);
    if changes.contains(c) {
        let k = choose|k: int| 0 <= k < changes.len() && changes[k] == c;
        assert(bare_name(changes[k].src_table@) == bare_name(c.src_table@));
        assert(order.contains(bare_name(c.src_table@)));
        let i = choose|i: int| 0 <= i < order.len() && order[i] == bare_name(c.src_table@);
        lemma_filter_contains(changes, c, |x: FoldedChange| bare_name(x.src_table@) == order[i]);
        assert(sources[i].changes@.contains(c));
    }
    assert forall|i: int| 0 <= i < sources.len() && (#[trigger] sources[i]).changes@.contains(c) implies changes.contains(
        c,
    ) && sources[i].source_key@ == bare_name(c.src_table@) by {
        lemma_filter_contains(changes, c, |x: FoldedChange| bare_name(x.src_table@) == order[i]);
    }
    assert forall|i: int, j: int| 0 <= i < j < sources.len() implies (#[trigger] sources[i]).source_key@ != (
    #[trigger] sources[j]).source_key@ by {
        assert(order[i] != order[j]);
    }
}

} // verus!
