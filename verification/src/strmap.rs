//! A small map from strings to strings that remembers the order in which its
//! names were first inserted.
//!
//! It serves both as the per-key map from locale to template and as the set of
//! named values handed to interpolation.

use vstd::prelude::*;
use crate::assoc::{
    folded, has_key, keys_distinct, keys_of, lemma_folded_index, lemma_folded_keys, lemma_folded_len,
    lemma_folded_push, lemma_folded_update, lemma_keys_no_duplicates,
};
use crate::text::str_eq;

verus! {

/// The pairs of `pairs` as texts.
pub open spec fn pair_texts(pairs: Seq<(String, String)>) -> Seq<(Seq<char>, Seq<char>)> {
    Seq::new(pairs.len(), |i: int| (pairs[i].0@, pairs[i].1@))
}

/// The mapping that storing the pairs of `pairs` one after the other builds:
/// where a name occurs twice, its later value stands.
pub open spec fn pairs_map(pairs: Seq<(String, String)>) -> Map<Seq<char>, Seq<char>> {
    folded(pair_texts(pairs))
}

/// A map from strings to strings, kept in the order of first insertion.
#[derive(Debug)]
pub struct StringMap {
    entries: Vec<(String, String)>,
}

impl View for StringMap {
    type V = Map<Seq<char>, Seq<char>>;

    closed spec fn view(&self) -> Map<Seq<char>, Seq<char>> {
        pairs_map(self.entries@)
    }
}

impl StringMap {
    #[verifier::type_invariant]
    spec fn distinct(self) -> bool {
        keys_distinct(pair_texts(self.entries@))
    }

    /// The names that the map holds, in the order of first insertion.
    pub closed spec fn names(&self) -> Seq<Seq<char>> {
        keys_of(pair_texts(self.entries@))
    }

    /// An empty map.
    pub fn new() -> (m: Self)
        ensures
            m@ == Map::<Seq<char>, Seq<char>>::empty(),
            m.names() == Seq::<Seq<char>>::empty(),
    {
        let m = StringMap { entries: Vec::new() };
        assert(m.names() =~= Seq::<Seq<char>>::empty());
        m
    }

    /// The map that storing the pairs of `pairs` in their order builds.
    pub fn from_pairs(pairs: &Vec<(String, String)>) -> (m: Self)
        ensures
            m@ == pairs_map(pairs@),
    {
        let mut m = StringMap::new();
        let mut i: usize = 0;
        assert(pairs@.take(0) =~= Seq::<(String, String)>::empty());
        while i < pairs.len()
            invariant
                i <= pairs@.len(),
                m@ == pairs_map(pairs@.take(i as int)),
            decreases pairs@.len() - i,
        {
            proof {
                let done = pair_texts(pairs@.take(i as int));
                let pair = (pairs@[i as int].0@, pairs@[i as int].1@);
                assert(pair_texts(pairs@.take(i + 1)) =~= done.push(pair));
                lemma_folded_push(done, pair.0, pair.1);
            }
            m.insert(pairs[i].0.clone(), pairs[i].1.clone());
            i += 1;
        }
        assert(pairs@.take(i as int) =~= pairs@);
        m
    }

    /// The number of names in the map. Each of them is listed once in `names()`.
    pub fn len(&self) -> (n: usize)
        ensures
            n == self.names().len(),
            n == self@.dom().len(),
            self@.dom().finite(),
            self.names().no_duplicates(),
            forall|name: Seq<char>|
                #![trigger self@.contains_key(name)]
                #![trigger self.names().contains(name)]
                self@.contains_key(name) <==> self.names().contains(name),
    {
        proof {
            use_type_invariant(self);
            lemma_folded_len(pair_texts(self.entries@));
            lemma_folded_keys(pair_texts(self.entries@));
            lemma_keys_no_duplicates(pair_texts(self.entries@));
        }
        self.entries.len()
    }

    /// Whether the map holds no name at all.
    pub fn is_empty(&self) -> (b: bool)
        ensures
            b == (self@ == Map::<Seq<char>, Seq<char>>::empty()),
            b == (self.names().len() == 0),
    {
        proof {
            use_type_invariant(self);
            lemma_folded_len(pair_texts(self.entries@));
        }
        self.entries.len() == 0
    }

    fn position(&self, name: &str) -> (found: Option<usize>)
        ensures
            match found {
                Some(i) => i < self.entries@.len() && self.entries@[i as int].0@ == name@,
                None => !has_key(pair_texts(self.entries@), name@),
            },
    {
        let mut i: usize = 0;
        while i < self.entries.len()
            invariant
                i <= self.entries@.len(),
                forall|j: int| 0 <= j < i ==> self.entries@[j].0@ != name@,
            decreases self.entries@.len() - i,
        {
            if str_eq(self.entries[i].0.as_str(), name) {
                return Some(i);
            }
            i += 1;
        }
        None
    }

    /// Whether the map holds `name`.
    pub fn contains(&self, name: &str) -> (b: bool)
        ensures
            b == self@.contains_key(name@),
    {
        proof {
            use_type_invariant(self);
            lemma_folded_keys(pair_texts(self.entries@));
        }
        match self.position(name) {
            Some(i) => {
                proof {
                    lemma_folded_index(pair_texts(self.entries@), i as int);
                }
                true
            },
            None => false,
        }
    }

    /// The value stored under `name`, if the map holds that name.
    pub fn get(&self, name: &str) -> (value: Option<&String>)
        ensures
            match value {
                Some(v) => self@.contains_key(name@) && v@ == self@[name@],
                None => !self@.contains_key(name@),
            },
    {
        match self.position(name) {
            Some(i) => {
                proof {
                    use_type_invariant(self);
                    lemma_folded_index(pair_texts(self.entries@), i as int);
                }
                Some(&self.entries[i].1)
            },
            None => {
                proof {
                    lemma_folded_keys(pair_texts(self.entries@));
                }
                None
            },
        }
    }

    /// The name at place `i` in the order of first insertion.
    pub fn name_at(&self, i: usize) -> (name: &String)
        requires
            i < self.names().len(),
        ensures
            name@ == self.names()[i as int],
    {
        &self.entries[i].0
    }

    /// The value of the name at place `i` in the order of first insertion.
    pub fn value_at(&self, i: usize) -> (value: &String)
        requires
            i < self.names().len(),
        ensures
            self@.contains_key(self.names()[i as int]),
            value@ == self@[self.names()[i as int]],
    {
        proof {
            use_type_invariant(self);
            lemma_folded_index(pair_texts(self.entries@), i as int);
        }
        &self.entries[i].1
    }

    /// Stores `value` under `name`, replacing what was stored there before.
    pub fn insert(&mut self, name: String, value: String)
        ensures
            final(self)@ == old(self)@.insert(name@, value@),
            final(self).names() == if old(self)@.contains_key(name@) {
                old(self).names()
            } else {
                old(self).names().push(name@)
            },
    {
        proof {
            use_type_invariant(&*self);
        }
        let found = self.position(name.as_str());
        let mut entries: Vec<(String, String)> = Vec::new();
        std::mem::swap(&mut entries, &mut self.entries);
        let ghost texts = pair_texts(entries@);
        match found {
            Some(i) => {
                proof {
                    lemma_folded_index(texts, i as int);
                    lemma_folded_update(texts, i as int, value@);
                }
                entries[i].1 = value;
                assert(pair_texts(entries@) =~= texts.update(
                    i as int,
                    (texts[i as int].0, value@),
                ));
            },
            None => {
                proof {
                    lemma_folded_keys(texts);
                    lemma_folded_push(texts, name@, value@);
                    assert(pair_texts(entries@.push((name, value))) =~= texts.push(
                        (name@, value@),
                    ));
                }
                entries.push((name, value));
            },
        }
        self.entries = entries;
    }

    /// Stores a copy of `value` under a copy of `name`.
    pub fn set(&mut self, name: &str, value: &str)
        ensures
            final(self)@ == old(self)@.insert(name@, value@),
            final(self).names() == if old(self)@.contains_key(name@) {
                old(self).names()
            } else {
                old(self).names().push(name@)
            },
    {
        self.insert(name.to_owned(), value.to_owned());
    }

    /// Stores every entry of `other`, replacing what was stored under the
    /// same name before. Names that only `self` holds keep their values.
    pub fn extend_from(&mut self, other: &StringMap)
        ensures
            final(self)@ == old(self)@.union_prefer_right(other@),
    {
        let n = other.len();
        let mut i: usize = 0;
        while i < n
            invariant
                i <= n,
                n == other.names().len(),
                other.names().no_duplicates(),
                forall|name: Seq<char>|
                    #![trigger other@.contains_key(name)]
                    #![trigger other.names().contains(name)]
                    other@.contains_key(name) <==> other.names().contains(name),
                forall|name: Seq<char>| #[trigger]
                    self@.contains_key(name) <==> old(self)@.contains_key(name)
                        || other.names().take(i as int).contains(name),
                forall|name: Seq<char>| #[trigger]
                    self@.contains_key(name) ==> self@[name] == if other.names().take(
                        i as int,
                    ).contains(name) {
                        other@[name]
                    } else {
                        old(self)@[name]
                    },
            decreases n - i,
        {
            let ghost before = self@;
            let ghost done = other.names().take(i as int);
            let name = other.name_at(i);
            let value = other.value_at(i);
            self.insert(name.clone(), value.clone());
            proof {
                let next = other.names().take(i + 1);
                assert(next =~= done.push(name@));
                assert forall|k: Seq<char>| next.contains(k) <==> (done.contains(k) || k == name@) by {
                    if next.contains(k) {
                        let j = choose|j: int| 0 <= j < next.len() && next[j] == k;
                        if j < i {
                            assert(done[j] == k);
                        }
                    }
                    if done.contains(k) {
                        let j = choose|j: int| 0 <= j < done.len() && done[j] == k;
                        assert(next[j] == k);
                    }
                    assert(next[i as int] == name@);
                }
            }
            i += 1;
        }
        proof {
            assert(other.names().take(n as int) =~= other.names());
            assert(self@ =~= old(self)@.union_prefer_right(other@));
        }
    }
}

impl Clone for StringMap {
    /// A map with the same names, in the same order, and the same values.
    fn clone(&self) -> (copy: Self)
        ensures
            copy@ == self@,
            copy.names() == self.names(),
    {
        proof {
            use_type_invariant(self);
        }
        let mut entries: Vec<(String, String)> = Vec::new();
        let mut i: usize = 0;
        while i < self.entries.len()
            invariant
                i <= self.entries@.len(),
                entries@.len() == i,
                forall|j: int|
                    0 <= j < i ==> entries@[j].0@ == self.entries@[j].0@ && entries@[j].1@
                        == self.entries@[j].1@,
            decreases self.entries@.len() - i,
        {
            entries.push((self.entries[i].0.clone(), self.entries[i].1.clone()));
            i += 1;
        }
        assert(pair_texts(entries@) =~= pair_texts(self.entries@));
        StringMap { entries }
    }
}

} // verus!
