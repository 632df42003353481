//! A map from words to values that keeps its words in lexicographic order.

use crate::words::{lemma_insert_sorted, lemma_sorted_no_duplicates, search, sorted, words_of};
use vstd::prelude::*;

verus! {

/// A finite map keyed by words. The keys ascend, so a key is found by binary
/// search and the pairs are walked in the order of their keys.
pub struct WordMap<V> {
    keys: Vec<String>,
    values: Vec<V>,
}

impl<V> WordMap<V> {
    #[verifier::type_invariant]
    spec fn inv(self) -> bool {
        self.keys.len() == self.values.len() && sorted(words_of(self.keys@))
    }

    /// The keys, ascending.
    pub closed spec fn keys(self) -> Seq<Seq<char>> {
        words_of(self.keys@)
    }

    /// The values, each at the place of its key.
    pub closed spec fn values(self) -> Seq<V> {
        self.values@
    }

    /// Keys and values pair up, and the keys ascend.
    pub open spec fn wf(self) -> bool {
        self.keys().len() == self.values().len() && sorted(self.keys())
    }

    /// Whether a word is a key.
    pub open spec fn contains(self, w: Seq<char>) -> bool {
        self.keys().contains(w)
    }

    /// The value kept under a word.
    pub open spec fn value_of(self, w: Seq<char>) -> V {
        self.values()[self.keys().index_of(w)]
    }

    /// The map as a mathematical map.
    pub open spec fn view(self) -> Map<Seq<char>, V> {
        Map::new(|w: Seq<char>| self.contains(w), |w: Seq<char>| self.value_of(w))
    }

    /// In a well-formed map a key stands at one place only.
    pub proof fn lemma_index(self, i: int)
        requires
            self.wf(),
            0 <= i < self.keys().len(),
        ensures
            self.contains(self.keys()[i]),
            self.keys().index_of(self.keys()[i]) == i,
            self.value_of(self.keys()[i]) == self.values()[i],
    {
        let keys = self.keys();
        lemma_sorted_no_duplicates(keys);
        assert(keys.contains(keys[i]));
        let j = keys.index_of(keys[i]);
        assert(0 <= j < keys.len() && keys[j] == keys[i]);
    }

    /// The map without keys.
    pub fn new() -> (m: Self)
        ensures
            m.wf(),
            m.keys() == Seq::<Seq<char>>::empty(),
            m.values() == Seq::<V>::empty(),
            m@ == Map::<Seq<char>, V>::empty(),
    {
        let m = WordMap { keys: Vec::new(), values: Vec::new() };
        proof {
            assert(m.keys() =~= Seq::<Seq<char>>::empty());
            assert(m@ =~= Map::<Seq<char>, V>::empty());
        }
        m
    }

    /// The number of keys.
    pub fn len(&self) -> (n: usize)
        ensures
            self.wf(),
            n == self.keys().len(),
    {
        proof {
            use_type_invariant(self);
        }
        self.keys.len()
    }

    /// The place of a word among the keys, if it is one.
    pub fn find(&self, w: &str) -> (r: Option<usize>)
        ensures
            self.wf(),
            match r {
                Some(i) => i < self.keys().len() && self.keys()[i as int] == w@ && self.contains(
                    w@,
                ) && self.value_of(w@) == self.values()[i as int],
                None => !self.contains(w@),
            },
    {
        proof {
            use_type_invariant(self);
        }
        let (at, found) = search(&self.keys, w);
        if found {
            proof {
                assert(self.keys()[at as int] == w@);
                self.lemma_index(at as int);
            }
            Some(at)
        } else {
            None
        }
    }

    /// The key at a place.
    pub fn key(&self, i: usize) -> (k: &String)
        requires
            i < self.keys().len(),
        ensures
            self.wf(),
            k@ == self.keys()[i as int],
    {
        proof {
            use_type_invariant(self);
        }
        &self.keys[i]
    }

    /// The value at a place.
    pub fn value(&self, i: usize) -> (v: &V)
        requires
            i < self.keys().len(),
        ensures
            self.wf(),
            *v == self.values()[i as int],
            *v == self.value_of(self.keys()[i as int]),
    {
        proof {
            use_type_invariant(self);
            self.lemma_index(i as int);
        }
        &self.values[i]
    }

    /// The map with one more word, which was no key yet, and its value.
    pub fn insert(self, w: String, v: V) -> (r: Self)
        requires
            !self.contains(w@),
        ensures
            r.wf(),
            r.keys().len() == self.keys().len() + 1,
            r@ == self@.insert(w@, v),
    {
        proof {
            use_type_invariant(&self);
        }
        let ghost word = w@;
        let WordMap { mut keys, mut values } = self;
        let (at, found) = search(&keys, w.as_str());
        keys.insert(at, w);
        values.insert(at, v);
        proof {
            assert(words_of(keys@) =~= self.keys().insert(at as int, word));
            lemma_insert_sorted(self.keys(), at as int, word);
        }
        let r = WordMap { keys, values };
        proof {
            self.lemma_insert_view(r, at as int, word, v);
        }
        r
    }

    /// The map with a new value at place `i`, and the value that was there.
    pub fn replace(self, i: usize, v: V) -> (r: (Self, V))
        requires
            i < self.keys().len(),
        ensures
            r.0.wf(),
            r.0.keys() == self.keys(),
            r.0.values() == self.values().update(i as int, v),
            r.0@ == self@.insert(self.keys()[i as int], v),
            r.1 == self.values()[i as int],
    {
        proof {
            use_type_invariant(&self);
        }
        let WordMap { keys, mut values } = self;
        values.push(v);
        let was = values.swap_remove(i);
        let r = WordMap { keys, values };
        proof {
            assert(r.values() =~= self.values().update(i as int, v));
            self.lemma_update_view(r, i as int, v);
        }
        (r, was)
    }

    /// A key and a value put in at one place give the map with that pair more.
    proof fn lemma_insert_view(self, after: Self, at: int, w: Seq<char>, v: V)
        requires
            self.wf(),
            after.wf(),
            0 <= at <= self.keys().len(),
            !self.contains(w),
            after.keys() == self.keys().insert(at, w),
            after.values() == self.values().insert(at, v),
        ensures
            after@ == self@.insert(w, v),
    {
        let target = self@.insert(w, v);
        assert forall|x: Seq<char>| after@.dom().contains(x) <==> target.dom().contains(x) by {
            if after.keys().contains(x) {
                let i = choose|i: int| 0 <= i < after.keys().len() && after.keys()[i] == x;
                if i < at {
                    assert(self.keys()[i] == x);
                } else if i > at {
                    assert(self.keys()[i - 1] == x);
                }
            }
            if self.keys().contains(x) {
                let i = choose|i: int| 0 <= i < self.keys().len() && self.keys()[i] == x;
                if i < at {
                    assert(after.keys()[i] == x);
                } else {
                    assert(after.keys()[i + 1] == x);
                }
            }
            if x == w {
                assert(after.keys()[at] == x);
            }
        }
        assert forall|x: Seq<char>| after@.dom().contains(x) implies after@[x] == target[x] by {
            let i = choose|i: int| 0 <= i < after.keys().len() && after.keys()[i] == x;
            after.lemma_index(i);
            if i < at {
                self.lemma_index(i);
                lemma_sorted_no_duplicates(after.keys());
            } else if i > at {
                self.lemma_index(i - 1);
                lemma_sorted_no_duplicates(after.keys());
            }
        }
        assert(after@ =~= target);
    }

    /// A value put in the place of another gives the map with that key
    /// rebound.
    proof fn lemma_update_view(self, after: Self, i: int, v: V)
        requires
            self.wf(),
            0 <= i < self.keys().len(),
            after.keys() == self.keys(),
            after.values() == self.values().update(i, v),
        ensures
            after.wf(),
            after@ == self@.insert(self.keys()[i], v),
    {
        let target = self@.insert(self.keys()[i], v);
        self.lemma_index(i);
        assert forall|x: Seq<char>| after@.dom().contains(x) implies after@[x] == target[x] by {
            let j = choose|j: int| 0 <= j < after.keys().len() && after.keys()[j] == x;
            after.lemma_index(j);
            self.lemma_index(j);
        }
        assert(after@ =~= target);
    }
}

} // verus!
