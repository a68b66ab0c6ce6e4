//! The bounded cache of reranking scores: first-in first-out, and a score
//! once cached is kept until its entry is evicted.

use vstd::prelude::*;
use crate::strings::{str_eq, to_string};

verus! {

/// Cached values by key, oldest first.
pub struct RerankCache<V> {
    entries: Vec<(String, V)>,
    max_size: usize,
}

/// `e` has an entry for `k`.
pub open spec fn has_key<V>(e: Seq<(Seq<char>, V)>, k: Seq<char>) -> bool {
    exists|i: int| 0 <= i < e.len() && (#[trigger] e[i]).0 == k
}

/// The value cached for `k`, if any (the keys are distinct).
pub open spec fn value_of<V>(e: Seq<(Seq<char>, V)>, k: Seq<char>) -> Option<V> {
    if has_key(e, k) {
        Some(e[choose|i: int| 0 <= i < e.len() && (#[trigger] e[i]).0 == k].1)
    } else {
        None
    }
}

/// No key occurs twice.
pub open spec fn keys_distinct<V>(e: Seq<(Seq<char>, V)>) -> bool {
    forall|i: int, j: int| 0 <= i < j < e.len() ==> (#[trigger] e[i]).0 != (#[trigger] e[j]).0
}

/// The entries after inserting `(k, v)` into a cache of at most `max`
/// entries: nothing changes when `k` is cached; else the oldest entry
/// leaves when the cache is full, and the new one comes last.
pub open spec fn inserted<V>(e: Seq<(Seq<char>, V)>, max: nat, k: Seq<char>, v: V) -> Seq<(Seq<char>, V)> {
    if has_key(e, k) {
        e
    } else if e.len() >= max && e.len() > 0 {
        e.drop_first().push((k, v))
    } else {
        e.push((k, v))
    }
}

/// The most entries a cache of size `max` holds: `max`, or one when `max`
/// is zero.
pub open spec fn capacity(max: nat) -> nat {
    if max == 0 { 1 } else { max }
}

impl<V> RerankCache<V> {
    /// The cached (key, value) pairs, oldest first.
    pub closed spec fn entries(&self) -> Seq<(Seq<char>, V)> {
        self.entries@.map_values(|e: (String, V)| (e.0@, e.1))
    }

    /// The size the cache was made with.
    pub closed spec fn max_size(&self) -> nat {
        self.max_size as nat
    }

    /// The cache's keys are distinct and fit its capacity.
    #[verifier::type_invariant]
    spec fn wf(&self) -> bool {
        keys_distinct(self.entries@.map_values(|e: (String, V)| (e.0@, e.1)))
            && self.entries@.len() <= capacity(self.max_size as nat)
    }
}

impl<V: Copy> RerankCache<V> {
    /// An empty cache of size `max_size`.
    pub fn new(max_size: usize) -> (c: Self)
        ensures
            c.entries() == Seq::<(Seq<char>, V)>::empty(),
            c.max_size() == max_size,
    {
        let c = RerankCache { entries: Vec::new(), max_size };
        assert(c.entries() =~= Seq::<(Seq<char>, V)>::empty());
        c
    }

    /// The number of cached entries; the keys are distinct and fit the
    /// capacity.
    pub fn len(&self) -> (n: usize)
        ensures
            n == self.entries().len(),
            n <= capacity(self.max_size()),
            keys_distinct(self.entries()),
    {
        proof { use_type_invariant(self); }
        self.entries.len()
    }

    fn position(&self, key: &str) -> (r: Option<usize>)
        ensures
            match r {
                Some(i) => i < self.entries().len() && self.entries()[i as int].0 == key@,
                None => !has_key(self.entries(), key@),
            },
    {
        let ghost e = self.entries();
        let mut i: usize = 0;
        while i < self.entries.len()
            invariant
                e == self.entries(),
                i <= self.entries@.len(),
                forall|j: int| 0 <= j < i ==> (#[trigger] e[j]).0 != key@,
            decreases self.entries@.len() - i,
        {
            if str_eq(self.entries[i].0.as_str(), key) {
                return Some(i);
            }
            i = i + 1;
        }
        None
    }

    /// The value cached for `key`.
    pub fn get(&self, key: &str) -> (r: Option<V>)
        ensures
            r == value_of(self.entries(), key@),
    {
        proof { use_type_invariant(self); }
        match self.position(key) {
            Some(i) => {
                proof {
                    let e = self.entries();
                    let k = choose|k: int| 0 <= k < e.len() && (#[trigger] e[k]).0 == key@;
                    if k != i as int {
                        if k < i { assert(e[k].0 != e[i as int].0); } else { assert(e[i as int].0 != e[k].0); }
                    }
                }
                Some(self.entries[i].1)
            },
            None => None,
        }
    }

    /// Caches `value` for `key` unless `key` is cached; the oldest entry
    /// leaves when the cache is full.
    pub fn insert(&mut self, key: String, value: V)
        ensures
            final(self).entries() == inserted(old(self).entries(), old(self).max_size(), key@, value),
            final(self).max_size() == old(self).max_size(),
    {
        proof { use_type_invariant(&*self); }
        let ghost e0 = self.entries();
        if self.position(key.as_str()).is_some() {
            return;
        }
        let mut v: Vec<(String, V)> = Vec::new();
        std::mem::swap(&mut v, &mut self.entries);
        assert(v@.map_values(|e: (String, V)| (e.0@, e.1)) == e0);
        if v.len() >= self.max_size && v.len() > 0 {
            v.remove(0);
            assert(v@.map_values(|e: (String, V)| (e.0@, e.1)) =~= e0.drop_first());
        }
        let ghost e1 = v@.map_values(|e: (String, V)| (e.0@, e.1));
        let ghost k = key@;
        v.push((key, value));
        proof {
            let e = v@.map_values(|e: (String, V)| (e.0@, e.1));
            assert(e =~= e1.push((k, value)));
            assert forall|i: int, j: int| 0 <= i < j < e.len() implies
                (#[trigger] e[i]).0 != (#[trigger] e[j]).0 by {
                if j == e.len() - 1 {
                    if e1.len() < e0.len() {
                        assert(e1[i] == e0[i + 1]);
                        assert(!has_key(e0, k));
                    } else {
                        assert(e1[i] == e0[i]);
                    }
                } else if e1.len() < e0.len() {
                    assert(e1[i] == e0[i + 1] && e1[j] == e0[j + 1]);
                }
            };
        }
        self.entries = v;
    }
}

/// Law: a score once cached is read back until its entry leaves, the cache
/// never holds more than its capacity, and inserting a cached key changes
/// nothing.
pub proof fn lemma_insert_then_get<V>(e: Seq<(Seq<char>, V)>, max: nat, k: Seq<char>, v: V, other: Seq<char>)
    requires
        keys_distinct(e),
        e.len() <= capacity(max),
    ensures
        inserted(e, max, k, v).len() <= capacity(max),
        !has_key(e, k) ==> value_of(inserted(e, max, k, v), k) == Some(v),
        has_key(e, k) ==> inserted(e, max, k, v) == e,
        other != k && has_key(inserted(e, max, k, v), other) ==> value_of(inserted(e, max, k, v), other) == value_of(e, other),
{
    let r = inserted(e, max, k, v);
    if !has_key(e, k) {
        let e1 = if e.len() >= max && e.len() > 0 { e.drop_first() } else { e };
        assert(r == e1.push((k, v)));
        let last = r.len() - 1;
        assert(r[last].0 == k);
        assert(has_key(r, k));
        let c = choose|i: int| 0 <= i < r.len() && (#[trigger] r[i]).0 == k;
        if c != last {
            assert(r[c] == e1[c]);
            if e1.len() < e.len() {
                assert(e1[c] == e[c + 1]);
            }
            assert(has_key(e, k));
        }
        if other != k && has_key(r, other) {
            let p = choose|i: int| 0 <= i < r.len() && (#[trigger] r[i]).0 == other;
            assert(p != last);
            assert(r[p] == e1[p]);
            let q = if e1.len() < e.len() { p + 1 } else { p };
            assert(e[q] == r[p]);
            assert(has_key(e, other));
            let w = choose|i: int| 0 <= i < e.len() && (#[trigger] e[i]).0 == other;
            if w != q {
                if w < q { assert(e[w].0 != e[q].0); } else { assert(e[q].0 != e[w].0); }
            }
        }
    }
}

} // verus!
