//! A map from string keys to values, kept sorted by key.
//!
//! It stands where a sorted map keyed by strings is needed: the key/value
//! arguments of `ENV`, `LABEL` and `ARG`, and the options of an instruction.
use vstd::prelude::*;

use crate::text::chars_of;
use crate::text::compare_chars;
use crate::text::lemma_seq_lt_total;
use crate::text::lemma_seq_lt_trans;
use crate::text::seq_lt;

verus! {

/// Whether the keys of `e` are in strictly increasing order.
pub open spec fn keys_sorted<X>(e: Seq<(Seq<char>, X)>) -> bool {
    forall|i: int, j: int| 0 <= i < j < e.len() ==> seq_lt(#[trigger] e[i].0, #[trigger] e[j].0)
}

/// Whether `k` is the key of some entry of `e`.
pub open spec fn has_key<X>(e: Seq<(Seq<char>, X)>, k: Seq<char>) -> bool {
    exists|i: int| 0 <= i < e.len() && e[i].0 == k
}

/// The map that a sequence of entries with distinct keys stands for.
pub open spec fn to_map<X>(e: Seq<(Seq<char>, X)>) -> Map<Seq<char>, X> {
    Map::new(
        |k: Seq<char>| has_key(e, k),
        |k: Seq<char>| e[choose|i: int| 0 <= i < e.len() && e[i].0 == k].1,
    )
}

/// In sorted entries, each key stands at one place, and the map gives its value there.
pub proof fn lemma_to_map_at<X>(e: Seq<(Seq<char>, X)>, i: int)
    requires
        keys_sorted(e),
        0 <= i < e.len(),
    ensures
        to_map(e).contains_key(e[i].0),
        to_map(e)[e[i].0] == e[i].1,
        forall|j: int| 0 <= j < e.len() && e[j].0 == e[i].0 ==> j == i,
{
    assert forall|j: int| 0 <= j < e.len() && e[j].0 == e[i].0 implies j == i by {
        lemma_seq_lt_total(e[i].0, e[j].0);
        if j < i {
            assert(seq_lt(e[j].0, e[i].0));
        } else if i < j {
            assert(seq_lt(e[i].0, e[j].0));
        }
    }
    assert(has_key(e, e[i].0));
}

/// A map from string keys to values of type `V`, its entries sorted by key.
#[derive(Debug, PartialEq, Eq)]
pub struct KeyValueMap<V: DeepView> {
    entries: Vec<(String, V)>,
}

impl<V: DeepView> KeyValueMap<V> {
    /// The entries, as keys and values, in increasing order of key.
    pub closed spec fn entries(&self) -> Seq<(Seq<char>, V::V)> {
        self.entries@.map_values(|e: (String, V)| (e.0@, e.1.deep_view()))
    }

    #[verifier::type_invariant]
    closed spec fn sorted(&self) -> bool {
        keys_sorted(self.entries())
    }

    /// Well-formedness, which every map value has: its keys are in increasing order.
    pub open spec fn wf(&self) -> bool {
        keys_sorted(self.entries())
    }

    /// The map from keys to values.
    pub open spec fn view(&self) -> Map<Seq<char>, V::V> {
        to_map(self.entries())
    }

    /// The empty map.
    pub fn new() -> (r: Self)
        ensures
            r.entries().len() == 0,
            r@ == Map::<Seq<char>, V::V>::empty(),
    {
        let r = KeyValueMap { entries: Vec::new() };
        assert(r.entries() =~= Seq::empty());
        assert(r@ =~= Map::<Seq<char>, V::V>::empty());
        r
    }

    /// The number of entries.
    pub fn len(&self) -> (r: usize)
        ensures
            r == self.entries().len(),
    {
        self.entries.len()
    }

    /// Whether the map has no entry.
    pub fn is_empty(&self) -> (r: bool)
        ensures
            r == (self.entries().len() == 0),
    {
        self.entries.len() == 0
    }

    /// The key and the value of the entry at place `i` in key order.
    pub fn entry(&self, i: usize) -> (r: (&String, &V))
        requires
            i < self.entries().len(),
        ensures
            r.0@ == self.entries()[i as int].0,
            r.1.deep_view() == self.entries()[i as int].1,
    {
        let e = &self.entries[i];
        (&e.0, &e.1)
    }

    /// The place of `key` in the entries, or where it would be inserted.
    fn position(&self, key: &[char]) -> (r: (usize, bool))
        ensures
            r.0 <= self.entries().len(),
            forall|j: int| 0 <= j < r.0 ==> seq_lt(#[trigger] self.entries()[j].0, key@),
            r.1 ==> r.0 < self.entries().len() && self.entries()[r.0 as int].0 == key@,
            !r.1 ==> r.0 == self.entries().len() || seq_lt(key@, self.entries()[r.0 as int].0),
    {
        let mut i: usize = 0;
        while i < self.entries.len()
            invariant
                i <= self.entries().len(),
                self.entries().len() == self.entries@.len(),
                forall|j: int| 0 <= j < i ==> seq_lt(#[trigger] self.entries()[j].0, key@),
            decreases self.entries.len() - i,
        {
            let k = chars_of(self.entries[i].0.as_str());
            assert(k@ == self.entries()[i as int].0);
            let c = compare_chars(k.as_slice(), key);
            if c == 0 {
                return (i, true);
            } else if c > 0 {
                return (i, false);
            }
            i += 1;
        }
        (i, false)
    }

    /// The value of `key`, if the map has it.
    pub fn get(&self, key: &str) -> (r: Option<&V>)
        ensures
            r is Some <==> self@.contains_key(key@),
            r matches Some(v) ==> v.deep_view() == self@[key@],
    {
        proof {
            use_type_invariant(self);
        }
        let k = chars_of(key);
        let (i, found) = self.position(k.as_slice());
        if found {
            proof {
                lemma_to_map_at(self.entries(), i as int);
            }
            Some(&self.entries[i].1)
        } else {
            proof {
                if has_key(self.entries(), key@) {
                    let j = choose|j: int| 0 <= j < self.entries().len() && self.entries()[j].0 == key@;
                    lemma_seq_lt_total(key@, key@);
                    if j >= i {
                        if j > i {
                            assert(seq_lt(self.entries()[i as int].0, self.entries()[j].0));
                            lemma_seq_lt_trans(key@, self.entries()[i as int].0, key@);
                        }
                    }
                }
            }
            None
        }
    }

    /// Sets the value of `key` to `value`, replacing the one it had.
    #[verifier::rlimit(100)]
    pub fn insert(&mut self, key: String, value: V)
        ensures
            final(self)@ == old(self)@.insert(key@, value.deep_view()),
    {
        proof {
            use_type_invariant(&*self);
        }
        let ghost old_e = self.entries();
        let k = chars_of(key.as_str());
        let (i, found) = self.position(k.as_slice());
        let ghost kv = key@;
        let ghost vv = value.deep_view();
        let mut e: Vec<(String, V)> = Vec::new();
        core::mem::swap(&mut self.entries, &mut e);
        if found {
            e.set(i, (key, value));
            let ghost new_e = e@.map_values(|e: (String, V)| (e.0@, e.1.deep_view()));
            assert(new_e =~= old_e.update(i as int, (kv, vv)));
            assert(keys_sorted(new_e));
            proof {
                lemma_to_map_at(old_e, i as int);
                lemma_to_map_at(new_e, i as int);
                assert forall|k2: Seq<char>| #[trigger] has_key(new_e, k2) == has_key(old_e, k2) by {
                    if has_key(old_e, k2) {
                        let j = choose|j: int| 0 <= j < old_e.len() && old_e[j].0 == k2;
                        assert(new_e[j].0 == k2);
                    }
                    if has_key(new_e, k2) {
                        let j = choose|j: int| 0 <= j < new_e.len() && new_e[j].0 == k2;
                        assert(old_e[j].0 == k2);
                    }
                }
                assert forall|k2: Seq<char>| has_key(new_e, k2) && k2 != kv implies to_map(new_e)[k2] == to_map(old_e)[k2] by {
                    let j = choose|j: int| 0 <= j < new_e.len() && new_e[j].0 == k2;
                    lemma_to_map_at(new_e, j);
                    lemma_to_map_at(old_e, j);
                }
                assert(to_map(new_e) =~= to_map(old_e).insert(kv, vv));
            }
            self.entries = e;
        } else {
            e.insert(i, (key, value));
            let ghost new_e = e@.map_values(|e: (String, V)| (e.0@, e.1.deep_view()));
            assert(new_e =~= old_e.insert(i as int, (kv, vv)));
            proof {
                assert forall|a: int, b: int| 0 <= a < b < new_e.len() implies seq_lt(#[trigger] new_e[a].0, #[trigger] new_e[b].0) by {
                    if b < i {
                    } else if b == i {
                    } else if a < i {
                        assert(seq_lt(old_e[a].0, kv));
                        assert(seq_lt(kv, old_e[i as int].0));
                        if b - 1 > i {
                            assert(seq_lt(old_e[i as int].0, old_e[b - 1].0));
                            lemma_seq_lt_trans(kv, old_e[i as int].0, old_e[b - 1].0);
                        }
                        lemma_seq_lt_trans(old_e[a].0, kv, old_e[b - 1].0);
                    } else if a == i {
                        if b - 1 > i {
                            assert(seq_lt(old_e[i as int].0, old_e[b - 1].0));
                            lemma_seq_lt_trans(kv, old_e[i as int].0, old_e[b - 1].0);
                        }
                    } else {
                        assert(seq_lt(old_e[a - 1].0, old_e[b - 1].0));
                    }
                }
                assert(keys_sorted(new_e));
                lemma_to_map_at(new_e, i as int);
                assert forall|k2: Seq<char>| k2 != kv implies #[trigger] has_key(new_e, k2) == has_key(old_e, k2) by {
                    if has_key(old_e, k2) {
                        let j = choose|j: int| 0 <= j < old_e.len() && old_e[j].0 == k2;
                        if j < i {
                            assert(new_e[j].0 == k2);
                        } else {
                            assert(new_e[j + 1].0 == k2);
                        }
                    }
                    if has_key(new_e, k2) {
                        let j = choose|j: int| 0 <= j < new_e.len() && new_e[j].0 == k2;
                        if j < i {
                            assert(old_e[j].0 == k2);
                        } else if j > i {
                            assert(old_e[j - 1].0 == k2);
                        }
                    }
                }
                assert forall|k2: Seq<char>| has_key(new_e, k2) && k2 != kv implies to_map(new_e)[k2] == to_map(old_e)[k2] by {
                    let j = choose|j: int| 0 <= j < new_e.len() && new_e[j].0 == k2;
                    lemma_to_map_at(new_e, j);
                    if j < i {
                        lemma_to_map_at(old_e, j);
                    } else {
                        lemma_to_map_at(old_e, j - 1);
                    }
                }
                assert(to_map(new_e) =~= to_map(old_e).insert(kv, vv));
            }
            self.entries = e;
        }
    }
}

impl<V: DeepView + Clone> Clone for KeyValueMap<V> {
    fn clone(&self) -> Self {
        let mut r = KeyValueMap::new();
        let mut i: usize = 0;
        while i < self.len()
            decreases self.entries().len() - i,
        {
            let (k, v) = self.entry(i);
            r.insert(k.clone(), v.clone());
            i += 1;
        }
        r
    }
}

} // verus!
