//! A map from text to values that remembers the order in which keys came in.

use crate::text::same;
use vstd::prelude::*;

verus! {

/// The position of `key` among `keys`; their number where it is not there.
pub open spec fn position(keys: Seq<String>, key: Seq<char>) -> int
    decreases keys.len(),
{
    if keys.len() == 0 {
        0
    } else if keys[0]@ == key {
        0
    } else {
        1 + position(keys.drop_first(), key)
    }
}

pub proof fn lemma_position(keys: Seq<String>, key: Seq<char>)
    ensures
        0 <= position(keys, key) <= keys.len(),
        position(keys, key) < keys.len() ==> keys[position(keys, key)]@ == key,
        forall|j: int| 0 <= j < position(keys, key) ==> keys[j]@ != key,
    decreases keys.len(),
{
    if keys.len() > 0 && keys[0]@ != key {
        let rest = keys.drop_first();
        lemma_position(rest, key);
        assert forall|j: int| 0 <= j < position(keys, key) implies keys[j]@ != key by {
            if j > 0 {
                assert(keys[j] == rest[j - 1]);
            }
        }
    }
}

pub proof fn lemma_position_is(keys: Seq<String>, key: Seq<char>, i: int)
    requires
        0 <= i <= keys.len(),
        forall|j: int| 0 <= j < i ==> keys[j]@ != key,
        i < keys.len() ==> keys[i]@ == key,
    ensures
        position(keys, key) == i,
{
    lemma_position(keys, key);
    let p = position(keys, key);
    if p < i {
        assert(keys[p]@ != key);
    } else if i < p {
        assert(keys[i]@ != key);
    }
}

/// The position of `key` among `keys`; their number where it is not there.
pub fn find_key(keys: &Vec<String>, key: &str) -> (r: usize)
    ensures
        r == position(keys@, key@),
        r <= keys@.len(),
        r < keys@.len() ==> keys@[r as int]@ == key@,
        forall|j: int| 0 <= j < r ==> keys@[j]@ != key@,
{
    let mut i: usize = 0;
    while i < keys.len() && !same(keys[i].as_str(), key)
        invariant
            i <= keys@.len(),
            forall|j: int| 0 <= j < i ==> keys@[j]@ != key@,
        decreases keys@.len() - i,
    {
        i = i + 1;
    }
    proof {
        lemma_position_is(keys@, key@, i as int);
    }
    i
}

/// Whether `key` is one of `keys`.
pub open spec fn among(keys: Seq<String>, key: Seq<char>) -> bool {
    exists|i: int| 0 <= i < keys.len() && #[trigger] keys[i]@ == key
}

/// Whether `key` is one of `keys`.
pub fn has_key(keys: &Vec<String>, key: &str) -> (r: bool)
    ensures
        r == among(keys@, key@),
{
    find_key(keys, key) < keys.len()
}

/// A map from text to values, in the order in which its keys came in.
#[derive(Debug)]
pub struct TextMap<V> {
    keys: Vec<String>,
    values: Vec<V>,
}

impl<V> View for TextMap<V> {
    type V = Map<Seq<char>, V>;

    closed spec fn view(&self) -> Map<Seq<char>, V> {
        Map::new(|k: Seq<char>| among(self.keys@, k), |k: Seq<char>| self.values@[position(self.keys@, k)])
    }
}

impl<V> TextMap<V> {
    /// One value for each key, and no key twice.
    #[verifier::type_invariant]
    pub closed spec fn well_formed(self) -> bool {
        &&& self.keys@.len() == self.values@.len()
        &&& forall|i: int, j: int| 0 <= i < j < self.keys@.len() ==> self.keys@[i]@ != self.keys@[j]@
    }

    /// The keys, in the order in which they came in.
    pub closed spec fn order(self) -> Seq<Seq<char>> {
        self.keys@.map_values(|k: String| k@)
    }

    /// An empty map.
    pub fn new() -> (r: TextMap<V>)
        ensures
            r@ == Map::<Seq<char>, V>::empty(),
            r.order() == Seq::<Seq<char>>::empty(),
    {
        let r = TextMap { keys: Vec::new(), values: Vec::new() };
        assert(r@ =~= Map::<Seq<char>, V>::empty());
        assert(r.order() =~= Seq::<Seq<char>>::empty());
        r
    }

    /// How many keys there are. They are the map's domain, each once.
    pub fn len(&self) -> (r: usize)
        ensures
            r == self.order().len(),
            self.order().no_duplicates(),
            forall|k: Seq<char>| self@.contains_key(k) <==> #[trigger] self.order().contains(k),
    {
        proof {
            use_type_invariant(self);
            assert forall|k: Seq<char>| self@.contains_key(k) <==> #[trigger] self.order().contains(k) by {
                if among(self.keys@, k) {
                    let j = choose|j: int| 0 <= j < self.keys@.len() && #[trigger] self.keys@[j]@ == k;
                    assert(self.order()[j] == k);
                }
                if self.order().contains(k) {
                    let j = choose|j: int| 0 <= j < self.order().len() && self.order()[j] == k;
                    assert(self.keys@[j]@ == k);
                }
            }
        }
        self.keys.len()
    }

    /// The value of `key`, if it has one.
    pub fn get(&self, key: &str) -> (r: Option<&V>)
        ensures
            match r {
                Some(v) => self@.contains_key(key@) && *v == self@[key@],
                None => !self@.contains_key(key@),
            },
    {
        proof {
            use_type_invariant(self);
        }
        let i = find_key(&self.keys, key);
        if i < self.keys.len() {
            assert(among(self.keys@, key@));
            Some(&self.values[i])
        } else {
            None
        }
    }

    /// Whether `key` has a value.
    pub fn contains(&self, key: &str) -> (r: bool)
        ensures
            r == self@.contains_key(key@),
    {
        has_key(&self.keys, key)
    }

    /// The key at a position.
    pub fn key(&self, i: usize) -> (r: &String)
        requires
            i < self.order().len(),
        ensures
            r@ == self.order()[i as int],
            self@.contains_key(r@),
    {
        assert(among(self.keys@, self.keys@[i as int]@));
        &self.keys[i]
    }

    /// The value at a position.
    pub fn value(&self, i: usize) -> (r: &V)
        requires
            i < self.order().len(),
        ensures
            *r == self@[self.order()[i as int]],
    {
        proof {
            use_type_invariant(self);
            lemma_position_is(self.keys@, self.keys@[i as int]@, i as int);
            assert(among(self.keys@, self.keys@[i as int]@));
        }
        &self.values[i]
    }

    /// The map with `value` for `key`; a key that is there keeps its place.
    pub fn insert(self, key: String, value: V) -> (r: TextMap<V>)
        ensures
            r@ == self@.insert(key@, value),
            self@.contains_key(key@) ==> r.order() == self.order(),
            !self@.contains_key(key@) ==> r.order() == self.order().push(key@),
    {
        proof {
            use_type_invariant(&self);
        }
        let TextMap { mut keys, mut values } = self;
        let i = find_key(&keys, key.as_str());
        let ghost k = key@;
        if i < keys.len() {
            values.set(i, value);
            assert(among(keys@, k));
        } else {
            keys.push(key);
            values.push(value);
            assert(among(keys@, k)) by {
                assert(keys@[i as int]@ == k);
            }
        }
        let r = TextMap { keys, values };
        proof {
            assert forall|q: Seq<char>| #[trigger] among(r.keys@, q) <==> (among(self.keys@, q) || q == k) by {
                if among(self.keys@, q) {
                    let j = choose|j: int| 0 <= j < self.keys@.len() && #[trigger] self.keys@[j]@ == q;
                    assert(r.keys@[j]@ == q);
                }
                if among(r.keys@, q) && q != k {
                    let j = choose|j: int| 0 <= j < r.keys@.len() && #[trigger] r.keys@[j]@ == q;
                    assert(self.keys@[j]@ == q);
                }
            }
            assert forall|q: Seq<char>| #[trigger] among(r.keys@, q) implies r.values@[position(r.keys@, q)]
                == self@.insert(k, value)[q] by {
                lemma_position(self.keys@, q);
                lemma_position(r.keys@, q);
                if q == k {
                    lemma_position_is(r.keys@, q, i as int);
                } else {
                    let j = position(self.keys@, q);
                    lemma_position_is(r.keys@, q, j);
                }
            }
            assert(r@ =~= self@.insert(k, value));
            if self@.contains_key(k) {
                assert(r.order() =~= self.order());
            } else {
                assert(r.order() =~= self.order().push(k));
            }
        }
        r
    }

    /// The map without `key`, and the value it had.
    pub fn remove(self, key: &str) -> (r: (TextMap<V>, Option<V>))
        ensures
            r.0@ == self@.remove(key@),
            match r.1 {
                Some(v) => self@.contains_key(key@) && v == self@[key@],
                None => !self@.contains_key(key@),
            },
    {
        proof {
            use_type_invariant(&self);
        }
        let TextMap { mut keys, mut values } = self;
        let i = find_key(&keys, key);
        if i < keys.len() {
            assert(among(keys@, key@));
            let ghost old_keys = keys@;
            let ghost old_values = values@;
            let _ = keys.remove(i);
            let value = values.remove(i);
            let map = TextMap { keys, values };
            proof {
                assert forall|q: Seq<char>| #[trigger] among(map.keys@, q) <==> (among(old_keys, q) && q != key@) by {
                    if among(old_keys, q) && q != key@ {
                        let j = choose|j: int| 0 <= j < old_keys.len() && #[trigger] old_keys[j]@ == q;
                        if j < i {
                            assert(map.keys@[j]@ == q);
                        } else {
                            assert(map.keys@[j - 1]@ == q);
                        }
                    }
                    if among(map.keys@, q) {
                        let j = choose|j: int| 0 <= j < map.keys@.len() && #[trigger] map.keys@[j]@ == q;
                        if j < i {
                            assert(old_keys[j]@ == q);
                        } else {
                            assert(old_keys[j + 1]@ == q);
                        }
                    }
                }
                assert forall|q: Seq<char>| #[trigger] among(map.keys@, q) implies map.values@[position(map.keys@, q)]
                    == old_values[position(old_keys, q)] by {
                    lemma_position(map.keys@, q);
                    let j = position(map.keys@, q);
                    if j < i {
                        lemma_position_is(old_keys, q, j);
                    } else {
                        assert(old_keys[j + 1]@ == q);
                        lemma_position_is(old_keys, q, j + 1);
                    }
                }
                assert(map@ =~= self@.remove(key@));
            }
            (map, Some(value))
        } else {
            let map = TextMap { keys, values };
            assert(map@ =~= self@.remove(key@));
            (map, None)
        }
    }
}

} // verus!
