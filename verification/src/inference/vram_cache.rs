//! The GPU-resident tensor cache with least-recently-used eviction under a
//! byte cap. The tensors themselves are opaque payloads here: the cache logic
//! only reads their names and sizes.

use vstd::prelude::*;
use crate::strings::{str_eq, to_string};

verus! {

/// Cached tensors by name, per rank, with their sizes and access order.
pub struct VramCache<T1, T2> {
    pub layers_1d: Vec<(String, T1)>,
    pub layers_2d: Vec<(String, T2)>,
    pub max_cached_tensors: usize,
    pub max_vram_bytes: Option<usize>,
    pub current_vram_bytes: usize,
    /// Names from least to most recently used.
    pub access_order: Vec<String>,
    pub tensor_sizes: Vec<(String, usize)>,
    pub suppress_eviction_logs: bool,
}

/// The abstract state of a cache: entries by name (payloads kept), sizes by
/// name, the access order and the bytes in use.
pub struct CacheView<T1, T2> {
    pub l1: Seq<(Seq<char>, T1)>,
    pub l2: Seq<(Seq<char>, T2)>,
    pub sizes: Seq<(Seq<char>, usize)>,
    pub order: Seq<Seq<char>>,
    pub current: int,
}

/// A named list as (name, payload) pairs.
pub open spec fn named<T>(v: Seq<(String, T)>) -> Seq<(Seq<char>, T)> {
    v.map_values(|e: (String, T)| (e.0@, e.1))
}

/// Whether some entry of `s` has name `n`.
pub open spec fn has_name<T>(s: Seq<(Seq<char>, T)>, n: Seq<char>) -> bool {
    exists|i: int| 0 <= i < s.len() && (#[trigger] s[i]).0 == n
}

/// `s` without the entries named `n`.
pub open spec fn without_name<T>(s: Seq<(Seq<char>, T)>, n: Seq<char>) -> Seq<(Seq<char>, T)> {
    s.filter(|e: (Seq<char>, T)| e.0 != n)
}

/// The value of the first entry named `n`, or 0.
pub open spec fn size_of_name(s: Seq<(Seq<char>, usize)>, n: Seq<char>) -> int
    decreases s.len(),
{
    if s.len() == 0 {
        0
    } else if s[0].0 == n {
        s[0].1 as int
    } else {
        size_of_name(s.drop_first(), n)
    }
}

/// Whether a tensor named `n` is cached in either rank.
pub open spec fn is_resident<T1, T2>(c: CacheView<T1, T2>, n: Seq<char>) -> bool {
    has_name(c.l1, n) || has_name(c.l2, n)
}

/// The first position in the access order whose tensor is cached.
pub open spec fn first_resident<T1, T2>(c: CacheView<T1, T2>, i: int) -> bool {
    &&& 0 <= i < c.order.len()
    &&& is_resident(c, c.order[i])
    &&& forall|j: int| 0 <= j < i ==> !is_resident(c, #[trigger] c.order[j])
}

/// Evicting the tensor at position `i` of the access order.
pub open spec fn evict_at<T1, T2>(c: CacheView<T1, T2>, i: int) -> CacheView<T1, T2> {
    let n = c.order[i];
    let size = size_of_name(c.sizes, n);
    CacheView {
        l1: without_name(c.l1, n),
        l2: without_name(c.l2, n),
        sizes: without_name(c.sizes, n),
        order: c.order.remove(i),
        current: if c.current >= size { c.current - size } else { 0 },
    }
}

/// The cache after making room for `new_bytes` under `max`: least recently
/// used cached tensors are evicted while the cap would be exceeded; names in
/// the access order that are no longer cached are skipped, and when none is
/// cached the order is dropped. Also gives the (name, size) of each eviction.
pub open spec fn make_room<T1, T2>(c: CacheView<T1, T2>, new_bytes: int, max: int) -> (CacheView<T1, T2>, Seq<(Seq<char>, int)>)
    decreases c.order.len(),
{
    if c.current + new_bytes <= max || c.order.len() == 0 {
        (c, Seq::empty())
    } else if exists|i: int| first_resident(c, i) {
        let i = choose|i: int| first_resident(c, i);
        let n = c.order[i];
        let rest = make_room(evict_at(c, i), new_bytes, max);
        (rest.0, seq![(n, size_of_name(c.sizes, n))] + rest.1)
    } else {
        (CacheView { order: Seq::empty(), ..c }, Seq::empty())
    }
}

/// The access order after a use of `n`: `n` moves to the most recent end.
pub open spec fn touched(order: Seq<Seq<char>>, n: Seq<char>) -> Seq<Seq<char>> {
    if exists|i: int| 0 <= i < order.len() && order[i] == n {
        let i = choose|i: int| 0 <= i < order.len() && order[i] == n && forall|j: int| 0 <= j < i ==> order[j] != n;
        order.remove(i).push(n)
    } else {
        order.push(n)
    }
}

/// `i` is the first position of an entry named `n`.
pub open spec fn first_named<T>(s: Seq<(Seq<char>, T)>, n: Seq<char>, i: int) -> bool {
    0 <= i < s.len() && s[i].0 == n && forall|j: int| 0 <= j < i ==> (#[trigger] s[j]).0 != n
}

/// The value of the first entry named `n`, if any: what a lookup gives.
pub open spec fn lookup_name<T>(s: Seq<(Seq<char>, T)>, n: Seq<char>) -> Option<T> {
    if exists|i: int| #[trigger] first_named(s, n, i) {
        Some(s[choose|i: int| #[trigger] first_named(s, n, i)].1)
    } else {
        None
    }
}

proof fn lemma_first_named_unique<T>(s: Seq<(Seq<char>, T)>, n: Seq<char>, i: int, k: int)
    requires
        first_named(s, n, i),
        first_named(s, n, k),
    ensures
        i == k,
{
    if i < k {
        assert(s[i].0 != n);
    }
    if k < i {
        assert(s[k].0 != n);
    }
}

proof fn lemma_lookup_at<T>(s: Seq<(Seq<char>, T)>, n: Seq<char>, i: int)
    requires
        first_named(s, n, i),
    ensures
        lookup_name(s, n) == Some(s[i].1),
{
    let k = choose|k: int| #[trigger] first_named(s, n, k);
    lemma_first_named_unique(s, n, i, k);
}

proof fn lemma_lookup_updated<T>(s: Seq<(Seq<char>, T)>, n: Seq<char>, x: T, i: int)
    requires
        0 <= i < s.len(),
        s[i].0 == n,
        forall|j: int| 0 <= j < i ==> (#[trigger] s[j]).0 != n,
    ensures
        lookup_name(s.update(i, (n, x)), n) == Some(x),
{
    let u = s.update(i, (n, x));
    assert forall|j: int| 0 <= j < i implies (#[trigger] u[j]).0 != n by {
        assert(u[j] == s[j]);
    };
    assert(first_named(u, n, i));
    lemma_lookup_at(u, n, i);
}

proof fn lemma_lookup_pushed<T>(s: Seq<(Seq<char>, T)>, n: Seq<char>, x: T)
    requires
        !has_name(s, n),
    ensures
        lookup_name(s.push((n, x)), n) == Some(x),
{
    let u = s.push((n, x));
    let i = s.len() as int;
    assert forall|j: int| 0 <= j < i implies (#[trigger] u[j]).0 != n by {
        assert(u[j] == s[j]);
        if s[j].0 == n {
            assert(has_name(s, n));
        }
    };
    assert(first_named(u, n, i));
    lemma_lookup_at(u, n, i);
}

proof fn lemma_first_named_exists<T>(s: Seq<(Seq<char>, T)>, n: Seq<char>)
    requires
        has_name(s, n),
    ensures
        exists|i: int| #[trigger] first_named(s, n, i),
    decreases s.len(),
{
    let t = s.drop_last();
    if has_name(t, n) {
        lemma_first_named_exists(t, n);
        let i = choose|i: int| #[trigger] first_named(t, n, i);
        assert forall|j: int| 0 <= j < i implies (#[trigger] s[j]).0 != n by {
            assert(s[j] == t[j]);
        };
        assert(first_named(s, n, i));
    } else {
        let i = s.len() - 1;
        assert forall|j: int| 0 <= j < i implies (#[trigger] s[j]).0 != n by {
            assert(s[j] == t[j]);
            if s[j].0 == n {
                assert(has_name(t, n));
            }
        };
        let k = choose|k: int| 0 <= k < s.len() && (#[trigger] s[k]).0 == n;
        if k < i {
            assert(s[k] == t[k]);
            assert(has_name(t, n));
        }
        assert(first_named(s, n, i));
    }
}

/// A lookup after an upsert of `(n, x)` gives `x`.
proof fn lemma_lookup_upserted<T>(s: Seq<(Seq<char>, T)>, n: Seq<char>, x: T)
    ensures
        lookup_name(upserted(s, n, x), n) == Some(x),
{
    if has_name(s, n) {
        lemma_first_named_exists(s, n);
        let w = choose|i: int| #[trigger] first_named(s, n, i);
        assert(0 <= w < s.len() && s[w].0 == n && forall|j: int| 0 <= j < w ==> (#[trigger] s[j]).0 != n);
        let i = choose|i: int| 0 <= i < s.len() && s[i].0 == n && forall|j: int| 0 <= j < i ==> (#[trigger] s[j]).0 != n;
        lemma_lookup_updated(s, n, x, i);
    } else {
        lemma_lookup_pushed(s, n, x);
    }
}

/// A named list after inserting `(n, x)`: the first entry named `n` takes
/// the new value, or the pair is appended.
pub open spec fn upserted<T>(s: Seq<(Seq<char>, T)>, n: Seq<char>, x: T) -> Seq<(Seq<char>, T)> {
    if has_name(s, n) {
        let i = choose|i: int| 0 <= i < s.len() && s[i].0 == n && forall|j: int| 0 <= j < i ==> (#[trigger] s[j]).0 != n;
        s.update(i, (n, x))
    } else {
        s.push((n, x))
    }
}

fn position_in<T>(v: &Vec<(String, T)>, name: &str) -> (r: Option<usize>)
    ensures
        match r {
            Some(i) => i < v@.len() && named(v@)[i as int].0 == name@
                && forall|j: int| 0 <= j < i ==> (#[trigger] named(v@)[j]).0 != name@,
            None => !has_name(named(v@), name@),
        },
{
    let mut i: usize = 0;
    while i < v.len()
        invariant
            i <= v@.len(),
            forall|j: int| 0 <= j < i ==> (#[trigger] named(v@)[j]).0 != name@,
        decreases v@.len() - i,
    {
        if str_eq(v[i].0.as_str(), name) {
            return Some(i);
        }
        i = i + 1;
    }
    None
}

fn remove_named<T>(v: &mut Vec<(String, T)>, name: &str)
    ensures
        named(final(v)@) == without_name(named(old(v)@), name@),
{
    let ghost pred = |e: (Seq<char>, T)| e.0 != name@;
    let ghost s0 = named(v@);
    let ghost mut j: int = 0;
    let mut i: usize = 0;
    while i < v.len()
        invariant
            pred == |e: (Seq<char>, T)| e.0 != name@,
            s0 == named(old(v)@),
            0 <= i <= v@.len(),
            0 <= j <= s0.len(),
            named(v@).take(i as int) == s0.take(j).filter(pred),
            named(v@).skip(i as int) == s0.skip(j),
        decreases v@.len() - i,
    {
        proof {
            assert(s0.skip(j).len() == named(v@).skip(i as int).len());
            assert(named(v@)[i as int] == s0[j]) by {
                assert(named(v@).skip(i as int)[0] == s0.skip(j)[0]);
            };
            let t = s0.take(j + 1);
            assert(t.drop_last() =~= s0.take(j));
            reveal_with_fuel(Seq::filter, 1);
            assert(t.filter(pred) == (if pred(s0[j]) { s0.take(j).filter(pred).push(s0[j]) } else { s0.take(j).filter(pred) }));
        }
        if str_eq(v[i].0.as_str(), name) {
            let ghost before = named(v@);
            v.remove(i);
            proof {
                assert(named(v@).take(i as int) =~= before.take(i as int));
                assert(named(v@).skip(i as int) =~= before.skip(i + 1));
                assert(before.skip(i + 1) =~= s0.skip(j + 1)) by {
                    assert(before.skip(i as int).drop_first() =~= before.skip(i + 1));
                    assert(s0.skip(j).drop_first() =~= s0.skip(j + 1));
                };
                j = j + 1;
            }
        } else {
            proof {
                let before = named(v@);
                assert(before.take(i + 1) =~= before.take(i as int).push(before[i as int]));
                assert(before.skip(i + 1) =~= s0.skip(j + 1)) by {
                    assert(before.skip(i as int).drop_first() =~= before.skip(i + 1));
                    assert(s0.skip(j).drop_first() =~= s0.skip(j + 1));
                };
                j = j + 1;
            }
            i = i + 1;
        }
    }
    proof {
        assert(named(v@).skip(i as int).len() == 0);
        assert(s0.skip(j).len() == 0);
        assert(j == s0.len());
        assert(s0.take(j) =~= s0);
        assert(named(v@).take(i as int) =~= named(v@));
    }
}

fn size_lookup(v: &Vec<(String, usize)>, name: &str) -> (r: usize)
    ensures
        r == size_of_name(named(v@), name@),
{
    let mut i: usize = 0;
    assert(named(v@).skip(0) =~= named(v@));
    while i < v.len()
        invariant
            i <= v@.len(),
            size_of_name(named(v@), name@) == size_of_name(named(v@).skip(i as int), name@),
        decreases v@.len() - i,
    {
        let ghost rest = named(v@).skip(i as int);
        assert(rest.drop_first() =~= named(v@).skip(i + 1));
        if str_eq(v[i].0.as_str(), name) {
            return v[i].1;
        }
        i = i + 1;
    }
    0
}

fn position_in_order(order: &Vec<String>, name: &str) -> (r: Option<usize>)
    ensures
        match r {
            Some(p) => p < order@.len() && order@[p as int]@ == name@
                && forall|j: int| 0 <= j < p ==> (#[trigger] order@[j])@ != name@,
            None => forall|j: int| 0 <= j < order@.len() ==> (#[trigger] order@[j])@ != name@,
        },
{
    let mut i: usize = 0;
    while i < order.len()
        invariant
            i <= order@.len(),
            forall|j: int| 0 <= j < i ==> (#[trigger] order@[j])@ != name@,
        decreases order@.len() - i,
    {
        if str_eq(order[i].as_str(), name) {
            return Some(i);
        }
        i = i + 1;
    }
    None
}

fn upsert<T>(v: &mut Vec<(String, T)>, name: &str, x: T)
    ensures
        named(final(v)@) == upserted(named(old(v)@), name@, x),
{
    match position_in(v, name) {
        Some(i) => {
            proof {
                let s = named(v@);
                assert(has_name(s, name@));
                let k = choose|k: int| 0 <= k < s.len() && s[k].0 == name@ && forall|j: int| 0 <= j < k ==> (#[trigger] s[j]).0 != name@;
                assert(k == i as int) by {
                    if k < i { assert(s[k].0 != name@); }
                    if k > i { assert(s[i as int].0 != name@); }
                };
            }
            v.set(i, (to_string(name), x));
            assert(named(v@) =~= upserted(named(old(v)@), name@, x));
        },
        None => {
            v.push((to_string(name), x));
            assert(named(v@) =~= named(old(v)@).push((name@, x)));
        },
    }
}

fn get_named<'a, T>(v: &'a Vec<(String, T)>, name: &str) -> (r: Option<&'a T>)
    ensures
        match r {
            Some(x) => lookup_name(named(v@), name@) == Some(*x),
            None => lookup_name(named(v@), name@) is None,
        },
{
    match position_in(v, name) {
        Some(i) => {
            assert(named(v@)[i as int] == (name@, v@[i as int].1));
            proof {
                let s = named(v@);
                assert forall|j: int| 0 <= j < i implies (#[trigger] s[j]).0 != name@ by {
                    assert(s[j].0 == v@[j].0@);
                };
                assert(first_named(s, name@, i as int));
                lemma_lookup_at(s, name@, i as int);
            }
            Some(&v[i].1)
        },
        None => {
            proof {
                let s = named(v@);
                if exists|k: int| #[trigger] first_named(s, name@, k) {
                    let k = choose|k: int| #[trigger] first_named(s, name@, k);
                    assert(has_name(s, name@));
                }
            }
            None
        },
    }
}

/// The cache after caching tensor `x` of `size` bytes under `n` in the
/// ranks `l` (applied to the state after making room): the tensor is kept
/// only while fewer than the tensor limit are cached.
pub open spec fn cached_after<T1, T2>(c: CacheView<T1, T2>, max_cached: int, l1: Option<T1>, l2: Option<T2>, n: Seq<char>, size: int) -> CacheView<T1, T2> {
    if c.l1.len() + c.l2.len() < max_cached {
        CacheView {
            l1: match l1 { Some(x) => upserted(c.l1, n, x), None => c.l1 },
            l2: match l2 { Some(x) => upserted(c.l2, n, x), None => c.l2 },
            sizes: upserted(c.sizes, n, size as usize),
            order: touched(c.order, n),
            current: c.current + size,
        }
    } else {
        c
    }
}

/// The state after making room for `size` more bytes (when there is a cap).
pub open spec fn after_room<T1, T2>(c: CacheView<T1, T2>, cap: Option<usize>, size: int) -> CacheView<T1, T2> {
    match cap {
        Some(max) => make_room(c, size, max as int).0,
        None => c,
    }
}

/// The (name, size) of each tensor evicted in making room for `size` more
/// bytes, in eviction order: none without a cap.
pub open spec fn room_evictions<T1, T2>(c: CacheView<T1, T2>, cap: Option<usize>, size: int) -> Seq<(Seq<char>, int)> {
    match cap {
        Some(max) => make_room(c, size, max as int).1,
        None => Seq::empty(),
    }
}

/// A list of evictions as (name, size) values.
pub open spec fn eviction_view(e: Seq<(String, usize)>) -> Seq<(Seq<char>, int)> {
    e.map_values(|x: (String, usize)| (x.0@, x.1 as int))
}

impl<T1, T2> VramCache<T1, T2> {
    /// The abstract state of the cache.
    pub open spec fn view_state(&self) -> CacheView<T1, T2> {
        CacheView {
            l1: named(self.layers_1d@),
            l2: named(self.layers_2d@),
            sizes: named(self.tensor_sizes@),
            order: self.access_order@.map_values(|s: String| s@),
            current: self.current_vram_bytes as int,
        }
    }

    /// An empty cache holding at most `max_cached_tensors` tensors within
    /// `max_vram_bytes` bytes (no byte cap when `None`).
    pub fn new(max_cached_tensors: usize, max_vram_bytes: Option<usize>, suppress_eviction_logs: bool) -> (c: Self)
        ensures
            c.view_state().l1.len() == 0,
            c.view_state().l2.len() == 0,
            c.view_state().sizes.len() == 0,
            c.view_state().order.len() == 0,
            c.current_vram_bytes == 0,
            c.max_cached_tensors == max_cached_tensors,
            c.max_vram_bytes == max_vram_bytes,
            c.suppress_eviction_logs == suppress_eviction_logs,
    {
        VramCache {
            layers_1d: Vec::new(),
            layers_2d: Vec::new(),
            max_cached_tensors,
            max_vram_bytes,
            current_vram_bytes: 0,
            access_order: Vec::new(),
            tensor_sizes: Vec::new(),
            suppress_eviction_logs,
        }
    }

    /// Whether a tensor named `name` is cached in either rank.
    pub fn contains(&self, name: &str) -> (b: bool)
        ensures
            b == is_resident(self.view_state(), name@),
    {
        position_in(&self.layers_1d, name).is_some() || position_in(&self.layers_2d, name).is_some()
    }

    /// The first position of the access order whose tensor is cached.
    fn first_resident_index(&self) -> (r: Option<usize>)
        ensures
            match r {
                Some(i) => first_resident(self.view_state(), i as int),
                None => forall|k: int| !first_resident(self.view_state(), k),
            },
    {
        let ghost c = self.view_state();
        let mut i: usize = 0;
        while i < self.access_order.len()
            invariant
                c == self.view_state(),
                i <= self.access_order@.len(),
                forall|j: int| 0 <= j < i ==> !is_resident(c, #[trigger] c.order[j]),
            decreases self.access_order@.len() - i,
        {
            if self.contains(self.access_order[i].as_str()) {
                return Some(i);
            }
            i = i + 1;
        }
        proof {
            assert forall|k: int| !first_resident(c, k) by {
                if 0 <= k < c.order.len() {
                    assert(!is_resident(c, c.order[k]));
                }
            };
        }
        None
    }

    /// Evicts least recently used tensors while the byte cap would be
    /// exceeded with `new_tensor_bytes` more, and gives the (name, size) of
    /// each eviction for logging. Without a byte cap nothing changes.
    pub fn enforce_limits(&mut self, new_tensor_bytes: usize) -> (evicted: Vec<(String, usize)>)
        requires
            old(self).current_vram_bytes + new_tensor_bytes <= usize::MAX,
        ensures
            final(self).max_vram_bytes == old(self).max_vram_bytes,
            final(self).max_cached_tensors == old(self).max_cached_tensors,
            final(self).suppress_eviction_logs == old(self).suppress_eviction_logs,
            final(self).current_vram_bytes <= old(self).current_vram_bytes,
            match old(self).max_vram_bytes {
                None => final(self).view_state() == old(self).view_state() && evicted@.len() == 0,
                Some(max) => {
                    let r = make_room(old(self).view_state(), new_tensor_bytes as int, max as int);
                    &&& final(self).view_state() == r.0
                    &&& evicted@.map_values(|e: (String, usize)| (e.0@, e.1 as int)) == r.1
                },
            },
    {
        let mut evicted: Vec<(String, usize)> = Vec::new();
        let max_bytes = match self.max_vram_bytes {
            Some(m) => m,
            None => return evicted,
        };
        let ghost target = make_room(self.view_state(), new_tensor_bytes as int, max_bytes as int);
        let ghost mut done: Seq<(Seq<char>, int)> = Seq::empty();
        assert(evicted@.map_values(|e: (String, usize)| (e.0@, e.1 as int)) =~= done);
        let mut stopped = false;
        while !stopped && self.current_vram_bytes + new_tensor_bytes > max_bytes && self.access_order.len() > 0
            invariant
                self.max_vram_bytes == old(self).max_vram_bytes,
                self.max_cached_tensors == old(self).max_cached_tensors,
                self.suppress_eviction_logs == old(self).suppress_eviction_logs,
                old(self).max_vram_bytes == Some(max_bytes),
                self.current_vram_bytes <= old(self).current_vram_bytes,
                old(self).current_vram_bytes + new_tensor_bytes <= usize::MAX,
                target == make_room(old(self).view_state(), new_tensor_bytes as int, max_bytes as int),
                stopped ==> target.0 == self.view_state() && target.1 == done,
                !stopped ==> target.0 == make_room(self.view_state(), new_tensor_bytes as int, max_bytes as int).0,
                !stopped ==> target.1 == done + make_room(self.view_state(), new_tensor_bytes as int, max_bytes as int).1,
                evicted@.map_values(|e: (String, usize)| (e.0@, e.1 as int)) == done,
            decreases self.access_order@.len(), (if stopped { 0int } else { 1int }),
        {
            let ghost c = self.view_state();
            // Find the least recently used name whose tensor is cached
            let found = self.first_resident_index();
            match found {
                Some(i) => {
                    proof {
                        assert(first_resident(c, i as int));
                        let k = choose|k: int| first_resident(c, k);
                        assert(k == i as int) by {
                            if k < i { assert(!is_resident(c, c.order[k])); }
                            if k > i { assert(!is_resident(c, c.order[i as int])); }
                        };
                    }
                    let name = self.access_order.remove(i);
                    let size = size_lookup(&self.tensor_sizes, name.as_str());
                    remove_named(&mut self.tensor_sizes, name.as_str());
                    remove_named(&mut self.layers_1d, name.as_str());
                    remove_named(&mut self.layers_2d, name.as_str());
                    self.current_vram_bytes = self.current_vram_bytes.saturating_sub(size);
                    proof {
                        let ev = evict_at(c, i as int);
                        assert(self.view_state().order =~= ev.order);
                        assert(self.view_state() == ev);
                        done = done + seq![(name@, size as int)];
                        assert(target.1 =~= done + make_room(self.view_state(), new_tensor_bytes as int, max_bytes as int).1);
                    }
                    let ghost before = evicted@;
                    evicted.push((name, size));
                    assert(evicted@.map_values(|e: (String, usize)| (e.0@, e.1 as int)) =~=
                        before.map_values(|e: (String, usize)| (e.0@, e.1 as int)).push(done.last()));
                },
                None => {
                    self.access_order.clear();
                    proof {
                        assert(self.view_state().order =~= Seq::<Seq<char>>::empty());
                        assert(self.view_state() == (CacheView { order: Seq::<Seq<char>>::empty(), ..c }));
                        assert(done + Seq::<(Seq<char>, int)>::empty() =~= done);
                    }
                    stopped = true;
                },
            }
        }
        proof {
            if !stopped {
                assert(done + Seq::<(Seq<char>, int)>::empty() =~= done);
            }
        }
        evicted
    }

    /// The cached rank-1 tensor named `name`.
    pub fn get_1d(&self, name: &str) -> (r: Option<&T1>)
        ensures
            match r {
                Some(x) => lookup_name(self.view_state().l1, name@) == Some(*x),
                None => lookup_name(self.view_state().l1, name@) is None,
            },
    {
        get_named(&self.layers_1d, name)
    }

    /// The cached rank-2 tensor named `name`.
    pub fn get_2d(&self, name: &str) -> (r: Option<&T2>)
        ensures
            match r {
                Some(x) => lookup_name(self.view_state().l2, name@) == Some(*x),
                None => lookup_name(self.view_state().l2, name@) is None,
            },
    {
        get_named(&self.layers_2d, name)
    }

    /// Caches a rank-1 tensor of `size_bytes` under `name`: makes room under
    /// the byte cap, then keeps the tensor, its size and a use of it while
    /// fewer than the tensor limit are cached. Gives the evictions.
    pub fn insert_1d(&mut self, name: &str, tensor: T1, size_bytes: usize) -> (evicted: Vec<(String, usize)>)
        requires
            old(self).current_vram_bytes + size_bytes <= usize::MAX,
        ensures
            final(self).view_state() == cached_after(
                after_room(old(self).view_state(), old(self).max_vram_bytes, size_bytes as int),
                old(self).max_cached_tensors as int, Some(tensor), None, name@, size_bytes as int),
            eviction_view(evicted@) == room_evictions(old(self).view_state(), old(self).max_vram_bytes, size_bytes as int),
            final(self).max_vram_bytes == old(self).max_vram_bytes,
            final(self).max_cached_tensors == old(self).max_cached_tensors,
            final(self).suppress_eviction_logs == old(self).suppress_eviction_logs,
    {
        let evicted = self.enforce_limits(size_bytes);
        if self.layers_1d.len() < self.max_cached_tensors
            && self.layers_2d.len() < self.max_cached_tensors - self.layers_1d.len() {
            upsert(&mut self.layers_1d, name, tensor);
            upsert(&mut self.tensor_sizes, name, size_bytes);
            self.current_vram_bytes = self.current_vram_bytes + size_bytes;
            self.record_access(name);
        }
        evicted
    }

    /// Caches a rank-2 tensor of `size_bytes` under `name`, as
    /// [`VramCache::insert_1d`] does for rank 1.
    pub fn insert_2d(&mut self, name: &str, tensor: T2, size_bytes: usize) -> (evicted: Vec<(String, usize)>)
        requires
            old(self).current_vram_bytes + size_bytes <= usize::MAX,
        ensures
            final(self).view_state() == cached_after(
                after_room(old(self).view_state(), old(self).max_vram_bytes, size_bytes as int),
                old(self).max_cached_tensors as int, None, Some(tensor), name@, size_bytes as int),
            eviction_view(evicted@) == room_evictions(old(self).view_state(), old(self).max_vram_bytes, size_bytes as int),
            final(self).max_vram_bytes == old(self).max_vram_bytes,
            final(self).max_cached_tensors == old(self).max_cached_tensors,
            final(self).suppress_eviction_logs == old(self).suppress_eviction_logs,
    {
        let evicted = self.enforce_limits(size_bytes);
        if self.layers_1d.len() < self.max_cached_tensors
            && self.layers_2d.len() < self.max_cached_tensors - self.layers_1d.len() {
            upsert(&mut self.layers_2d, name, tensor);
            upsert(&mut self.tensor_sizes, name, size_bytes);
            self.current_vram_bytes = self.current_vram_bytes + size_bytes;
            self.record_access(name);
        }
        evicted
    }

    /// Sets the byte cap to `cap_bytes` and evicts down to it at once.
    pub fn set_max_vram_bytes(&mut self, cap_bytes: usize) -> (evicted: Vec<(String, usize)>)
        ensures
            final(self).max_vram_bytes == Some(cap_bytes),
            final(self).view_state() == make_room(old(self).view_state(), 0, cap_bytes as int).0,
            eviction_view(evicted@) == make_room(old(self).view_state(), 0, cap_bytes as int).1,
            final(self).max_cached_tensors == old(self).max_cached_tensors,
            final(self).suppress_eviction_logs == old(self).suppress_eviction_logs,
    {
        self.max_vram_bytes = Some(cap_bytes);
        self.enforce_limits(0)
    }

    /// Moves `name` to the most recently used end of the access order.
    pub fn record_access(&mut self, name: &str)
        ensures
            final(self).view_state() == (CacheView { order: touched(old(self).view_state().order, name@), ..old(self).view_state() }),
            final(self).max_vram_bytes == old(self).max_vram_bytes,
            final(self).max_cached_tensors == old(self).max_cached_tensors,
            final(self).suppress_eviction_logs == old(self).suppress_eviction_logs,
    {
        let ghost o = self.view_state().order;
        let pos = position_in_order(&self.access_order, name);
        if let Some(p) = pos {
            proof {
                assert(o[p as int] == name@);
                assert forall|j: int| 0 <= j < p implies o[j] != name@ by {
                    assert(o[j] == self.access_order@[j]@);
                };
                let k = choose|k: int| 0 <= k < o.len() && o[k] == name@ && forall|j: int| 0 <= j < k ==> o[j] != name@;
                assert(k == p as int) by {
                    if k < p { assert(o[k] != name@); }
                    if k > p { assert(o[p as int] != name@); }
                };
            }
            self.access_order.remove(p);
        }
        self.access_order.push(to_string(name));
        assert(self.view_state().order =~= touched(o, name@));
    }
}

/// Law: making room always ends under the cap (with the new bytes
/// counted) unless nothing is left in the access order, and it never grows
/// the bytes in use.
pub proof fn lemma_make_room_fits<T1, T2>(c: CacheView<T1, T2>, new_bytes: int, max: int)
    ensures
        make_room(c, new_bytes, max).0.current + new_bytes <= max || make_room(c, new_bytes, max).0.order.len() == 0,
        c.current >= 0 ==> 0 <= make_room(c, new_bytes, max).0.current <= c.current,
    decreases c.order.len(),
{
    if c.current + new_bytes <= max || c.order.len() == 0 {
    } else if exists|i: int| first_resident(c, i) {
        let i = choose|i: int| first_resident(c, i);
        lemma_size_nonneg(c.sizes, c.order[i]);
        lemma_make_room_fits(evict_at(c, i), new_bytes, max);
    } else {
    }
}

/// Law: a read gives back what a write wrote. After caching `x` under `n`
/// in a cache with room for another tensor (once room is made for its
/// bytes), a lookup of `n` in that rank gives `x`.
pub proof fn lemma_read_after_insert<T1, T2>(c: CacheView<T1, T2>, cap: Option<usize>, max_cached: int, x1: Option<T1>, x2: Option<T2>, n: Seq<char>, size: int)
    requires
        after_room(c, cap, size).l1.len() + after_room(c, cap, size).l2.len() < max_cached,
    ensures
        x1 matches Some(x) ==> lookup_name(cached_after(after_room(c, cap, size), max_cached, x1, x2, n, size).l1, n) == Some(x),
        x2 matches Some(x) ==> lookup_name(cached_after(after_room(c, cap, size), max_cached, x1, x2, n, size).l2, n) == Some(x),
{
    let r = after_room(c, cap, size);
    match x1 {
        Some(x) => { lemma_lookup_upserted(r.l1, n, x); },
        None => {},
    }
    match x2 {
        Some(x) => { lemma_lookup_upserted(r.l2, n, x); },
        None => {},
    }
}

proof fn lemma_size_nonneg(s: Seq<(Seq<char>, usize)>, n: Seq<char>)
    ensures
        size_of_name(s, n) >= 0,
    decreases s.len(),
{
    if s.len() > 0 && s[0].0 != n {
        lemma_size_nonneg(s.drop_first(), n);
    }
}

} // verus!
