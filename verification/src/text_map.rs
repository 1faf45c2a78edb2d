//! A map keyed by text, kept as two parallel vectors in insertion order.

use vstd::prelude::*;
use crate::text::{same_text, views_of};

verus! {

/// A finite map from text keys to values; each key occurs once, and entries
/// keep the order in which their keys were first inserted.
#[derive(Debug)]
pub struct TextMap<V> {
    keys: Vec<String>,
    values: Vec<V>,
}

/// In a sequence without repeats, each element is found at its own position.
pub proof fn lemma_index_of_distinct<A>(s: Seq<A>)
    requires
        s.no_duplicates(),
    ensures
        forall|i: int| 0 <= i < s.len() ==> s.index_of(#[trigger] s[i]) == i,
{
    assert forall|i: int| 0 <= i < s.len() implies s.index_of(#[trigger] s[i]) == i by {
        assert(s.contains(s[i]));
    }
}

impl<V> TextMap<V> {
    /// The keys, in insertion order.
    pub closed spec fn key_seq(&self) -> Seq<Seq<char>> {
        views_of(self.keys@)
    }

    /// The values, in the order of their keys.
    pub closed spec fn value_seq(&self) -> Seq<V> {
        self.values@
    }

    #[verifier::type_invariant]
    closed spec fn well_formed(self) -> bool {
        &&& self.keys.len() == self.values.len()
        &&& views_of(self.keys@).no_duplicates()
    }

    /// The map that the entries describe.
    pub open spec fn spec_map(&self) -> Map<Seq<char>, V> {
        Map::new(
            |k: Seq<char>| self.key_seq().contains(k),
            |k: Seq<char>| self.value_seq()[self.key_seq().index_of(k)],
        )
    }

    /// The entries as (key, value) pairs, in insertion order.
    pub open spec fn pairs(&self) -> Seq<(Seq<char>, V)> {
        Seq::new(self.key_seq().len(), |i: int| (self.key_seq()[i], self.value_seq()[i]))
    }

    /// The pairs and the map agree: each key occurs once among the pairs,
    /// each pair holds its key's value, and every key of the map has a pair.
    pub open spec fn entries_agree(&self) -> bool {
        &&& forall|a: int, b: int|
            0 <= a < b < self.pairs().len() ==> #[trigger] self.pairs()[a].0
                != #[trigger] self.pairs()[b].0
        &&& forall|a: int|
            0 <= a < self.pairs().len() ==> self.spec_map().contains_key(
                #[trigger] self.pairs()[a].0,
            ) && self.spec_map()[self.pairs()[a].0] == self.pairs()[a].1
        &&& forall|k: Seq<char>|
            #[trigger] self.spec_map().contains_key(k) ==> exists|a: int|
                0 <= a < self.pairs().len() && self.pairs()[a].0 == k
    }

    /// A well-formed map's pairs agree with its map.
    proof fn lemma_entries_agree(&self)
        requires
            self.key_seq().no_duplicates(),
            self.key_seq().len() == self.value_seq().len(),
        ensures
            self.entries_agree(),
    {
        lemma_index_of_distinct(self.key_seq());
        assert forall|k: Seq<char>| #[trigger] self.spec_map().contains_key(k) implies exists|a: int|
            0 <= a < self.pairs().len() && self.pairs()[a].0 == k by {
            let a = self.key_seq().index_of(k);
            assert(self.pairs()[a].0 == k);
        }
    }

    /// The empty map.
    pub fn new() -> (r: Self)
        ensures
            r.entries_agree(),
            r.key_seq() == Seq::<Seq<char>>::empty(),
            r.value_seq() == Seq::<V>::empty(),
            r.spec_map() == Map::<Seq<char>, V>::empty(),
    {
        let r = TextMap { keys: Vec::new(), values: Vec::new() };
        assert(views_of(r.keys@) =~= Seq::<Seq<char>>::empty());
        assert(r.spec_map() =~= Map::<Seq<char>, V>::empty());
        proof {
            r.lemma_entries_agree();
        }
        r
    }

    /// The number of entries.
    pub fn len(&self) -> (r: usize)
        ensures
            r == self.key_seq().len(),
            r == self.value_seq().len(),
    {
        proof {
            use_type_invariant(self);
        }
        self.keys.len()
    }

    /// The key of the entry at position `i`.
    pub fn key_at(&self, i: usize) -> (r: &String)
        requires
            i < self.key_seq().len(),
        ensures
            r@ == self.key_seq()[i as int],
    {
        &self.keys[i]
    }

    /// The value of the entry at position `i`.
    pub fn value_at(&self, i: usize) -> (r: &V)
        requires
            i < self.value_seq().len(),
        ensures
            *r == self.value_seq()[i as int],
            self.spec_map().contains_key(self.key_seq()[i as int]),
            self.spec_map()[self.key_seq()[i as int]] == *r,
    {
        proof {
            use_type_invariant(self);
            lemma_index_of_distinct(self.key_seq());
        }
        &self.values[i]
    }

    /// The position of `key`, if the map has it.
    pub fn position(&self, key: &str) -> (r: Option<usize>)
        ensures
            match r {
                Some(i) => i < self.key_seq().len() && self.key_seq()[i as int] == key@,
                None => !self.key_seq().contains(key@),
            },
    {
        proof {
            use_type_invariant(self);
        }
        let mut i: usize = 0;
        while i < self.keys.len()
            invariant
                i <= self.keys.len(),
                forall|j: int| 0 <= j < i ==> self.key_seq()[j] != key@,
            decreases self.keys.len() - i,
        {
            if same_text(self.keys[i].as_str(), key) {
                return Some(i);
            }
            i = i + 1;
        }
        None
    }

    /// The value stored under `key`, if any.
    pub fn get(&self, key: &str) -> (r: Option<&V>)
        ensures
            match r {
                Some(v) => self.spec_map().contains_key(key@) && *v == self.spec_map()[key@],
                None => !self.spec_map().contains_key(key@),
            },
    {
        proof {
            use_type_invariant(self);
            lemma_index_of_distinct(self.key_seq());
        }
        match self.position(key) {
            Some(i) => Some(&self.values[i]),
            None => None,
        }
    }

    /// Stores `value` under `key`: an existing entry keeps its position and
    /// takes the new value, a new key is appended.
    pub fn insert(&mut self, key: String, value: V)
        ensures
            final(self).spec_map() == old(self).spec_map().insert(key@, value),
            final(self).key_seq().no_duplicates(),
            final(self).key_seq().len() == final(self).value_seq().len(),
            old(self).key_seq().contains(key@) ==> final(self).key_seq() == old(self).key_seq(),
            !old(self).key_seq().contains(key@) ==> final(self).key_seq() == old(
                self,
            ).key_seq().push(key@),
            !old(self).key_seq().contains(key@) ==> final(self).value_seq() == old(
                self,
            ).value_seq().push(value),
            final(self).entries_agree(),
    {
        proof {
            use_type_invariant(&*self);
            lemma_index_of_distinct(self.key_seq());
        }
        let ghost old_keys = self.key_seq();
        let ghost old_map = self.spec_map();
        let ghost old_vals = self.value_seq();
        let found = self.position(key.as_str());
        let mut taken = TextMap { keys: Vec::new(), values: Vec::new() };
        proof {
            assert(views_of(taken.keys@) =~= Seq::<Seq<char>>::empty());
        }
        std::mem::swap(&mut taken, self);
        let TextMap { mut keys, mut values } = taken;
        match found {
            Some(i) => {
                values.set(i, value);
                *self = TextMap { keys, values };
                proof {
                    assert(self.key_seq() == old_keys);
                    assert(self.spec_map() =~= old_map.insert(key@, value));
                }
            },
            None => {
                let ghost k = key@;
                keys.push(key);
                values.push(value);
                proof {
                    assert(views_of(keys@) =~= old_keys.push(k));
                    assert forall|a: int, b: int|
                        0 <= a < b < views_of(keys@).len() implies views_of(keys@)[a]
                        != views_of(keys@)[b] by {
                        if b == old_keys.len() {
                            assert(old_keys.contains(views_of(keys@)[a]));
                        }
                    }
                }
                *self = TextMap { keys, values };
                proof {
                    lemma_index_of_distinct(self.key_seq());
                    assert forall|x: Seq<char>| old_keys.contains(x) implies self.key_seq().index_of(x)
                        == old_keys.index_of(x) by {
                        let j = old_keys.index_of(x);
                        assert(old_keys[j] == x);
                        assert(self.key_seq()[j] == x);
                    }
                    assert(self.key_seq().index_of(k) == old_keys.len()) by {
                        assert(self.key_seq()[old_keys.len() as int] == k);
                    }
                    assert(self.value_seq() == old_vals.push(value));
                    assert forall|x: Seq<char>| #[trigger] old_map.contains_key(x) implies self.spec_map()[x]
                        == old_map[x] by {
                        let j = old_keys.index_of(x);
                        assert(old_keys.contains(x));
                        assert(0 <= j < old_keys.len() && old_keys[j] == x);
                        assert(self.key_seq()[j] == x);
                        assert(self.key_seq().contains(x));
                        assert(self.key_seq().index_of(x) == j);
                        assert(self.value_seq()[j] == old_vals[j]);
                    }
                    assert(self.key_seq() == old_keys.push(k));
                    assert forall|x: Seq<char>| #[trigger] self.key_seq().contains(x) <==> (
                    old_keys.contains(x) || x == k) by {
                        if self.key_seq().contains(x) {
                            let j = self.key_seq().index_of(x);
                            if j < old_keys.len() {
                                assert(old_keys[j] == x);
                            }
                        }
                        if old_keys.contains(x) {
                            let j = old_keys.index_of(x);
                            assert(self.key_seq()[j] == x);
                        }
                        if x == k {
                            assert(self.key_seq()[old_keys.len() as int] == x);
                        }
                    }
                    assert(self.spec_map()[k] == value);
                    assert(self.spec_map() =~= old_map.insert(k, value));
                }
            },
        }
        proof {
            use_type_invariant(&*self);
            self.lemma_entries_agree();
        }
    }
}

} // verus!
