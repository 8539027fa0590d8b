//! Maps keyed by text: the entries in the order in which their keys first
//! came, each key once; storing under a key that is there replaces its
//! value in place.

use vstd::prelude::*;

use crate::text::{chars_eq, chars_of};

verus! {

/// The index of the first entry at or after `i` whose key is `key`.
pub open spec fn key_index_from<V>(es: Seq<(Seq<char>, V)>, key: Seq<char>, i: int) -> Option<int>
    decreases es.len() - i,
{
    if i < 0 || i >= es.len() {
        None
    } else if es[i].0 == key {
        Some(i)
    } else {
        key_index_from(es, key, i + 1)
    }
}

/// The index of the entry whose key is `key`, if any.
pub open spec fn key_index<V>(es: Seq<(Seq<char>, V)>, key: Seq<char>) -> Option<int> {
    key_index_from(es, key, 0)
}

/// The value stored under `key`, if any.
pub open spec fn lookup<V>(es: Seq<(Seq<char>, V)>, key: Seq<char>) -> Option<V> {
    match key_index(es, key) {
        Some(k) => Some(es[k].1),
        None => None,
    }
}

/// The entries with `value` stored under `key`: in place where `key` is
/// there, at the end where it is not.
pub open spec fn put<V>(es: Seq<(Seq<char>, V)>, key: Seq<char>, value: V) -> Seq<(Seq<char>, V)> {
    match key_index(es, key) {
        Some(k) => es.update(k, (key, value)),
        None => es.push((key, value)),
    }
}

pub proof fn lemma_key_index_from<V>(es: Seq<(Seq<char>, V)>, key: Seq<char>, i: int)
    requires
        0 <= i,
    ensures
        match key_index_from(es, key, i) {
            Some(k) => i <= k < es.len() && es[k].0 == key && forall|j: int| i <= j < k ==> es[j].0 != key,
            None => forall|j: int| i <= j < es.len() ==> es[j].0 != key,
        },
    decreases es.len() - i,
{
    if i < es.len() && es[i].0 != key {
        lemma_key_index_from(es, key, i + 1);
    }
}

/// `key_index` as the first index with the key.
pub proof fn lemma_key_index_is_first<V>(es: Seq<(Seq<char>, V)>, key: Seq<char>, k: int)
    requires
        0 <= k < es.len(),
        es[k].0 == key,
        forall|j: int| 0 <= j < k ==> es[j].0 != key,
    ensures
        key_index(es, key) == Some(k),
{
    lemma_key_index_from(es, key, 0);
    match key_index(es, key) {
        Some(x) => {
            if x < k {
            } else if x > k {
            }
        },
        None => {},
    }
}

/// What was stored last under a key is what a lookup gives.
pub proof fn law_lookup_after_put<V>(es: Seq<(Seq<char>, V)>, key: Seq<char>, value: V)
    ensures
        lookup(put(es, key, value), key) == Some(value),
{
    lemma_key_index_from(es, key, 0);
    let p = put(es, key, value);
    match key_index(es, key) {
        Some(k) => {
            assert forall|j: int| 0 <= j < k implies p[j].0 != key by {}
            lemma_key_index_is_first(p, key, k);
        },
        None => {
            assert forall|j: int| 0 <= j < es.len() implies p[j].0 != key by {}
            lemma_key_index_is_first(p, key, es.len() as int);
        },
    }
}

/// Storing under one key leaves what the other keys give as it was.
pub proof fn law_put_keeps_other_keys<V>(es: Seq<(Seq<char>, V)>, key: Seq<char>, value: V, other: Seq<char>)
    requires
        other != key,
    ensures
        lookup(put(es, key, value), other) == lookup(es, other),
{
    lemma_key_index_from(es, key, 0);
    lemma_key_index_from(es, other, 0);
    let p = put(es, key, value);
    lemma_key_index_from(p, other, 0);
    match key_index(es, other) {
        Some(k) => {
            lemma_key_index_is_first(p, other, k);
        },
        None => {
            match key_index(p, other) {
                Some(x) => {
                    assert(p[x].0 == other);
                    if x < es.len() {
                        assert(es[x].0 == other || x == key_index(es, key)->0);
                    }
                },
                None => {},
            }
        },
    }
}

/// Whether no two entries have the same key.
pub open spec fn distinct_keys<V>(es: Seq<(Seq<char>, V)>) -> bool {
    forall|i: int, j: int| 0 <= i < j < es.len() ==> (#[trigger] es[i]).0 != (#[trigger] es[j]).0
}

/// Storing under a key keeps the keys distinct.
pub proof fn law_put_keeps_keys_distinct<V>(es: Seq<(Seq<char>, V)>, key: Seq<char>, value: V)
    requires
        distinct_keys(es),
    ensures
        distinct_keys(put(es, key, value)),
{
    lemma_key_index_from(es, key, 0);
    let p = put(es, key, value);
    assert forall|i: int, j: int| 0 <= i < j < p.len() implies (#[trigger] p[i]).0 != (#[trigger] p[j]).0 by {
        match key_index(es, key) {
            Some(k) => {
                if i != k && j != k {
                    assert(p[i] == es[i] && p[j] == es[j]);
                } else if i == k {
                    assert(p[j] == es[j]);
                    assert(es[i].0 == key);
                    assert(es[i].0 != es[j].0);
                } else {
                    assert(p[i] == es[i]);
                    assert(es[j].0 == key);
                    assert(es[i].0 != es[j].0);
                }
            },
            None => {
                if j == es.len() {
                    assert(p[i] == es[i]);
                } else {
                    assert(p[i] == es[i] && p[j] == es[j]);
                }
            },
        }
    }
}

/// Entries keyed by text (see the module); no key occurs twice.
#[derive(Debug)]
pub struct TextMap<V: View> {
    entries: Vec<(String, V)>,
}

pub open spec fn entry_views<V: View>(es: Seq<(String, V)>) -> Seq<(Seq<char>, V::V)> {
    es.map_values(|e: (String, V)| (e.0@, e.1@))
}

impl<V: View> TextMap<V> {
    /// The entries, keys and values by their views.
    pub closed spec fn map_view(&self) -> Seq<(Seq<char>, V::V)> {
        entry_views(self.entries@)
    }

    #[verifier::type_invariant]
    spec fn keys_once(self) -> bool {
        distinct_keys(entry_views(self.entries@))
    }

    /// An empty map.
    pub fn new() -> (r: Self)
        ensures
            r.map_view() == Seq::<(Seq<char>, V::V)>::empty(),
            distinct_keys(r.map_view()),
    {
        let r = TextMap { entries: Vec::new() };
        assert(entry_views(r.entries@) =~= Seq::<(Seq<char>, V::V)>::empty());
        r
    }

    /// The number of keys.
    pub fn len(&self) -> (r: usize)
        ensures
            r == self.map_view().len(),
    {
        self.entries.len()
    }

    /// The entries in order.
    pub fn entries(&self) -> (r: &[(String, V)])
        ensures
            entry_views(r@) == self.map_view(),
            distinct_keys(self.map_view()),
    {
        proof {
            use_type_invariant(self);
        }
        self.entries.as_slice()
    }

    fn find(&self, key: &Vec<char>) -> (r: Option<usize>)
        ensures
            match r {
                Some(k) => key_index(self.map_view(), key@) == Some(k as int) && k < self.entries.len(),
                None => key_index(self.map_view(), key@) is None,
            },
    {
        let ghost es = self.map_view();
        proof {
            lemma_key_index_from(es, key@, 0);
        }
        let mut i: usize = 0;
        while i < self.entries.len()
            invariant
                i <= self.entries.len(),
                es == entry_views(self.entries@),
                key_index_from(es, key@, i as int) == key_index(es, key@),
            decreases self.entries.len() - i,
        {
            let k = chars_of(self.entries[i].0.as_str());
            assert(es[i as int].0 == self.entries@[i as int].0@);
            if chars_eq(&k, key) {
                return Some(i);
            }
            i = i + 1;
        }
        None
    }

    /// Store `value` under `key`, replacing what the key held.
    pub fn insert(&mut self, key: String, value: V)
        ensures
            final(self).map_view() == put(old(self).map_view(), key@, value@),
            distinct_keys(final(self).map_view()),
    {
        proof {
            use_type_invariant(&*self);
            law_put_keeps_keys_distinct(self.map_view(), key@, value@);
        }
        let kv = chars_of(key.as_str());
        let ghost before = self.entries@;
        let found = self.find(&kv);
        let mut es: Vec<(String, V)> = Vec::new();
        assert(distinct_keys(entry_views(es@))) by {
            assert(entry_views(es@) =~= Seq::<(Seq<char>, V::V)>::empty());
        }
        std::mem::swap(&mut es, &mut self.entries);
        match found {
            Some(k) => {
                es.set(k, (key, value));
            },
            None => {
                es.push((key, value));
            },
        }
        assert(entry_views(es@) =~= put(entry_views(before), kv@, value@));
        self.entries = es;
    }

    /// The value stored under `key`, if any.
    pub fn get(&self, key: &str) -> (r: Option<&V>)
        ensures
            match lookup(self.map_view(), key@) {
                Some(v) => r matches Some(x) && x@ == v,
                None => r is None,
            },
    {
        let kv = chars_of(key);
        match self.find(&kv) {
            Some(k) => Some(&self.entries[k].1),
            None => None,
        }
    }

    /// Whether a value is stored under `key`.
    pub fn contains_key(&self, key: &str) -> (r: bool)
        ensures
            r == lookup(self.map_view(), key@) is Some,
    {
        let kv = chars_of(key);
        self.find(&kv).is_some()
    }
}

pub open spec fn keys_of<V>(es: Seq<(String, V)>) -> Seq<Seq<char>> {
    es.map_values(|e: (String, V)| e.0@)
}

impl<V: View + Clone> Clone for TextMap<V> {
    /// A map with the same keys, in the same order, and each value cloned.
    fn clone(&self) -> (r: Self) {
        proof {
            use_type_invariant(self);
        }
        let mut out: Vec<(String, V)> = Vec::new();
        let mut i: usize = 0;
        while i < self.entries.len()
            invariant
                i <= self.entries.len(),
                distinct_keys(entry_views(self.entries@)),
                keys_of(out@) == keys_of(self.entries@).take(i as int),
            decreases self.entries.len() - i,
        {
            let ghost before = out@;
            let k = self.entries[i].0.clone();
            let v = self.entries[i].1.clone();
            out.push((k, v));
            assert(keys_of(out@) =~= keys_of(before).push(k@));
            assert(keys_of(self.entries@).take(i + 1) =~= keys_of(self.entries@).take(i as int).push(
                keys_of(self.entries@)[i as int]));
            i = i + 1;
        }
        proof {
            assert(keys_of(self.entries@).take(self.entries.len() as int) =~= keys_of(self.entries@));
            assert forall|a: int, b: int| 0 <= a < b < out@.len() implies (#[trigger] entry_views(out@)[a]).0 != (
            #[trigger] entry_views(out@)[b]).0 by {
                assert(entry_views(out@)[a].0 == keys_of(out@)[a]);
                assert(entry_views(out@)[b].0 == keys_of(out@)[b]);
                assert(entry_views(self.entries@)[a].0 == keys_of(self.entries@)[a]);
                assert(entry_views(self.entries@)[b].0 == keys_of(self.entries@)[b]);
            }
        }
        TextMap { entries: out }
    }
}

impl TextMap<String> {
    /// A copy with the same entries.
    pub fn copy(&self) -> (r: Self)
        ensures
            r.map_view() == self.map_view(),
    {
        proof {
            use_type_invariant(self);
        }
        let mut out: Vec<(String, String)> = Vec::new();
        let mut i: usize = 0;
        while i < self.entries.len()
            invariant
                i <= self.entries.len(),
                entry_views(out@) == entry_views(self.entries@).take(i as int),
            decreases self.entries.len() - i,
        {
            let ghost before = out@;
            let k = self.entries[i].0.clone();
            let v = self.entries[i].1.clone();
            out.push((k, v));
            assert(entry_views(out@) =~= entry_views(before).push((k@, v@)));
            assert(entry_views(self.entries@).take(i + 1) =~= entry_views(self.entries@).take(i as int).push(
                entry_views(self.entries@)[i as int]));
            i = i + 1;
        }
        assert(entry_views(self.entries@).take(self.entries.len() as int) =~= entry_views(self.entries@));
        TextMap { entries: out }
    }
}

} // verus!
