//! Per-layer sizes read from a model's storage manifest.

use vstd::prelude::*;
use crate::strings::{chars_of, parse_usize, parse_usize_str, str_eq};

verus! {

/// A stored tensor of a model, as the manifest lists it.
#[derive(Debug, Clone)]
pub struct LayerMetadata {
    /// The tensor's name, e.g. `model.layers.5.self_attn.q_proj.weight`.
    pub layer_id: String,
    /// Bytes it takes in storage.
    pub stored_bytes: u64,
}

/// The stored tensors of a model.
#[derive(Debug, Clone)]
pub struct ModelManifest {
    pub layers: Vec<LayerMetadata>,
}

/// The first `.` at or after `from`, or the length when there is none.
pub open spec fn next_dot(s: Seq<char>, from: int) -> int
    decreases s.len() - from,
{
    if from >= s.len() || from < 0 {
        s.len() as int
    } else if s[from] == '.' {
        from
    } else {
        next_dot(s, from + 1)
    }
}

/// The layer index in a tensor name: the third `.`-separated part, when the
/// name has at least three parts, the second part is `layers` and the third
/// parses as an unsigned integer.
pub open spec fn layer_index_of(id: Seq<char>) -> Option<nat> {
    let a = next_dot(id, 0);
    let b = next_dot(id, a + 1);
    let c = next_dot(id, b + 1);
    if a < id.len() && b < id.len() && id.subrange(a + 1, b) == "layers"@ {
        parse_usize(id.subrange(b + 1, c))
    } else {
        None
    }
}

/// The (layer index, bytes) of the manifest entries that name a layer, in
/// manifest order.
pub open spec fn manifest_pairs(layers: Seq<LayerMetadata>) -> Seq<(nat, u64)>
    decreases layers.len(),
{
    if layers.len() == 0 {
        Seq::empty()
    } else {
        let rest = manifest_pairs(layers.drop_last());
        match layer_index_of(layers.last().layer_id@) {
            Some(i) => rest.push((i, layers.last().stored_bytes)),
            None => rest,
        }
    }
}

/// The bytes of the first entry of `pairs` with layer index `k`.
pub open spec fn first_bytes(pairs: Seq<(nat, u64)>, k: nat) -> Option<u64>
    decreases pairs.len(),
{
    if pairs.len() == 0 {
        None
    } else {
        match first_bytes(pairs.drop_last(), k) {
            Some(b) => Some(b),
            None => if pairs.last().0 == k { Some(pairs.last().1) } else { None },
        }
    }
}

/// `t` lists each layer index of `pairs` once, in increasing order, with the
/// bytes of its first entry.
pub open spec fn is_layer_table(pairs: Seq<(nat, u64)>, t: Seq<(usize, u64)>) -> bool {
    &&& forall|i: int, j: int| 0 <= i < j < t.len() ==> (#[trigger] t[i]).0 < (#[trigger] t[j]).0
    &&& forall|i: int| 0 <= i < t.len() ==> first_bytes(pairs, (#[trigger] t[i]).0 as nat) == Some(t[i].1)
    &&& forall|k: nat| (#[trigger] first_bytes(pairs, k)) is Some ==> exists|i: int| 0 <= i < t.len() && (#[trigger] t[i]).0 as nat == k
}

fn next_dot_exec(s: &Vec<char>, from: usize) -> (r: usize)
    requires
        from <= s@.len(),
    ensures
        r == next_dot(s@, from as int),
        from <= r <= s@.len(),
    decreases s@.len() - from,
{
    if from >= s.len() {
        s.len()
    } else if s[from] == '.' {
        from
    } else {
        next_dot_exec(s, from + 1)
    }
}

/// The layer index named by a tensor name.
pub fn layer_index(id: &str) -> (r: Option<usize>)
    ensures
        match r {
            Some(i) => layer_index_of(id@) == Some(i as nat),
            None => layer_index_of(id@) is None,
        },
{
    let cs = chars_of(id);
    let n = cs.len();
    let a = next_dot_exec(&cs, 0);
    if a >= n {
        return None;
    }
    let b = next_dot_exec(&cs, a + 1);
    if b >= n {
        return None;
    }
    let c = next_dot_exec(&cs, b + 1);
    let second = id.substring_char(a + 1, b);
    if !str_eq(second, "layers") {
        return None;
    }
    let third = id.substring_char(b + 1, c);
    parse_usize_str(third)
}

/// Appending an entry whose index the table already lists leaves the table
/// right.
proof fn lemma_table_known(pairs: Seq<(nat, u64)>, t: Seq<(usize, u64)>, idx: usize, bytes: u64, p: int)
    requires
        is_layer_table(pairs, t),
        0 <= p < t.len(),
        t[p].0 == idx,
    ensures
        is_layer_table(pairs.push((idx as nat, bytes)), t),
{
    let p1 = pairs.push((idx as nat, bytes));
    assert(p1.drop_last() =~= pairs);
    assert(first_bytes(pairs, idx as nat) == Some(t[p].1));
    assert forall|k: nat| #[trigger] first_bytes(p1, k) == first_bytes(pairs, k) by {};
}

/// Appending an entry with a new index, inserted at its place in the table,
/// leaves the table right.
proof fn lemma_table_insert(pairs: Seq<(nat, u64)>, before: Seq<(usize, u64)>, idx: usize, bytes: u64, p: int)
    requires
        is_layer_table(pairs, before),
        0 <= p <= before.len(),
        forall|q: int| 0 <= q < p ==> (#[trigger] before[q]).0 < idx,
        p < before.len() ==> before[p].0 > idx,
    ensures
        is_layer_table(pairs.push((idx as nat, bytes)), before.insert(p, (idx, bytes))),
{
    let p1 = pairs.push((idx as nat, bytes));
    let t = before.insert(p, (idx, bytes));
    assert(p1.drop_last() =~= pairs);
    if first_bytes(pairs, idx as nat) is Some {
        let i = choose|i: int| 0 <= i < before.len() && (#[trigger] before[i]).0 as nat == idx as nat;
        if i < p {
            assert(before[i].0 < idx);
        } else {
            assert(before[p].0 <= before[i].0);
        }
    }
    assert forall|k: nat| #[trigger] first_bytes(p1, k) == (if k == idx as nat { Some(bytes) } else { first_bytes(pairs, k) }) by {};
    assert forall|i: int, j: int| 0 <= i < j < t.len() implies (#[trigger] t[i]).0 < (#[trigger] t[j]).0 by {
        if j < p {
            assert(t[i] == before[i] && t[j] == before[j]);
        } else if j == p {
            assert(t[i] == before[i]);
        } else if i < p {
            assert(t[i] == before[i] && t[j] == before[j - 1]);
            assert(before[p].0 <= before[j - 1].0);
        } else if i == p {
            assert(t[j] == before[j - 1]);
            assert(before[p].0 <= before[j - 1].0);
        } else {
            assert(t[i] == before[i - 1] && t[j] == before[j - 1]);
        }
    };
    assert forall|i: int| 0 <= i < t.len() implies first_bytes(p1, (#[trigger] t[i]).0 as nat) == Some(t[i].1) by {
        if i < p {
            assert(t[i] == before[i]);
        } else if i > p {
            assert(t[i] == before[i - 1]);
        }
    };
    assert forall|k: nat| (#[trigger] first_bytes(p1, k)) is Some implies exists|i: int| 0 <= i < t.len() && (#[trigger] t[i]).0 as nat == k by {
        if k == idx as nat {
            assert(t[p].0 as nat == k);
        } else {
            let i = choose|i: int| 0 <= i < before.len() && (#[trigger] before[i]).0 as nat == k;
            if i < p {
                assert(t[i] == before[i]);
            } else {
                assert(t[i + 1] == before[i]);
            }
        }
    };
}

/// Some entry of `t` has index `k`.
pub open spec fn has_index(t: Seq<(usize, u64)>, k: usize) -> bool {
    exists|j: int| 0 <= j < t.len() && (#[trigger] t[j]).0 == k
}

/// `t` is sorted strictly by index.
pub open spec fn strictly_sorted(t: Seq<(usize, u64)>) -> bool {
    forall|i: int, j: int| 0 <= i < j < t.len() ==> (#[trigger] t[i]).0 < (#[trigger] t[j]).0
}

/// Two tables sorted strictly by index, with the same indices and the same
/// bytes for each index, are the same table.
proof fn lemma_sorted_tables_equal(a: Seq<(usize, u64)>, b: Seq<(usize, u64)>)
    requires
        strictly_sorted(a),
        strictly_sorted(b),
        forall|k: usize| has_index(a, k) <==> has_index(b, k),
        forall|i: int, j: int| 0 <= i < a.len() && 0 <= j < b.len() && (#[trigger] a[i]).0 == (#[trigger] b[j]).0 ==> a[i].1 == b[j].1,
    ensures
        a == b,
    decreases a.len(),
{
    if a.len() == 0 {
        if b.len() > 0 {
            assert(has_index(b, b[0].0));
        }
        assert(a =~= b);
    } else if b.len() == 0 {
        assert(has_index(a, a[0].0));
    } else {
        let la = a.len() - 1;
        let lb = b.len() - 1;
        assert(has_index(a, a[la].0));
        assert(has_index(b, b[lb].0));
        let jb = choose|j: int| 0 <= j < b.len() && (#[trigger] b[j]).0 == a[la].0;
        let ia = choose|i: int| 0 <= i < a.len() && (#[trigger] a[i]).0 == b[lb].0;
        assert(a[la].0 <= b[lb].0) by {
            if jb < lb {
                assert(b[jb].0 < b[lb].0);
            }
        };
        assert(b[lb].0 <= a[la].0) by {
            if ia < la {
                assert(a[ia].0 < a[la].0);
            }
        };
        let a2 = a.drop_last();
        let b2 = b.drop_last();
        assert forall|k: usize| has_index(a2, k) implies has_index(b2, k) by {
            let i = choose|i: int| 0 <= i < a2.len() && (#[trigger] a2[i]).0 == k;
            assert(a2[i] == a[i]);
            assert(a[i].0 < a[la].0);
            assert(has_index(a, k));
            let j = choose|j: int| 0 <= j < b.len() && (#[trigger] b[j]).0 == k;
            assert(b2[j] == b[j]);
        };
        assert forall|k: usize| has_index(b2, k) implies has_index(a2, k) by {
            let j = choose|j: int| 0 <= j < b2.len() && (#[trigger] b2[j]).0 == k;
            assert(b2[j] == b[j]);
            assert(b[j].0 < b[lb].0);
            assert(has_index(b, k));
            let i = choose|i: int| 0 <= i < a.len() && (#[trigger] a[i]).0 == k;
            assert(a2[i] == a[i]);
        };
        assert forall|i: int, j: int| 0 <= i < a2.len() && 0 <= j < b2.len() && (#[trigger] a2[i]).0 == (#[trigger] b2[j]).0 implies a2[i].1 == b2[j].1 by {
            assert(a2[i] == a[i] && b2[j] == b[j]);
        };
        lemma_sorted_tables_equal(a2, b2);
        assert(a[la] == b[lb]);
        assert(a =~= a2.push(a[la]));
        assert(b =~= b2.push(b[lb]));
    }
}

/// The layer table of a manifest is unique: a manifest has one list of
/// per-layer sizes.
pub proof fn lemma_layer_table_unique(pairs: Seq<(nat, u64)>, t1: Seq<(usize, u64)>, t2: Seq<(usize, u64)>)
    requires
        is_layer_table(pairs, t1),
        is_layer_table(pairs, t2),
    ensures
        t1 == t2,
{
    assert forall|k: usize| has_index(t1, k) implies has_index(t2, k) by {
        let i = choose|i: int| 0 <= i < t1.len() && (#[trigger] t1[i]).0 == k;
        assert(first_bytes(pairs, k as nat) is Some);
        let j = choose|j: int| 0 <= j < t2.len() && (#[trigger] t2[j]).0 as nat == k as nat;
    };
    assert forall|k: usize| has_index(t2, k) implies has_index(t1, k) by {
        let j = choose|j: int| 0 <= j < t2.len() && (#[trigger] t2[j]).0 == k;
        assert(first_bytes(pairs, k as nat) is Some);
        let i = choose|i: int| 0 <= i < t1.len() && (#[trigger] t1[i]).0 as nat == k as nat;
    };
    lemma_sorted_tables_equal(t1, t2);
}

/// Records one (layer index, bytes) entry in the sorted table: a new index
/// goes to its place, a known one keeps the bytes it has.
fn add_layer_entry(table: &mut Vec<(usize, u64)>, idx: usize, bytes: u64, Ghost(pairs): Ghost<Seq<(nat, u64)>>)
    requires
        is_layer_table(pairs, old(table)@),
    ensures
        is_layer_table(pairs.push((idx as nat, bytes)), final(table)@),
{
    let mut p: usize = 0;
    while p < table.len() && table[p].0 < idx
        invariant
            p <= table@.len(),
            forall|q: int| 0 <= q < p ==> (#[trigger] table@[q]).0 < idx,
        decreases table@.len() - p,
    {
        p = p + 1;
    }
    if p < table.len() && table[p].0 == idx {
        proof {
            lemma_table_known(pairs, table@, idx, bytes, p as int);
        }
    } else {
        proof {
            lemma_table_insert(pairs, table@, idx, bytes, p as int);
        }
        table.insert(p, (idx, bytes));
    }
}

/// The layer index that a weight key of the form `model.layers.<i>...`
/// names.
pub open spec fn model_layer_of(id: Seq<char>) -> Option<nat> {
    if id.len() >= 13 && id.subrange(0, 13) == "model.layers."@ {
        layer_index_of(id)
    } else {
        None
    }
}

/// The largest layer index that the first `n` keys name, or 0.
pub open spec fn max_model_layer(keys: Seq<Seq<char>>, n: nat) -> nat
    decreases n,
{
    if n == 0 {
        0
    } else {
        let m = max_model_layer(keys, (n - 1) as nat);
        match model_layer_of(keys[n - 1]) {
            Some(i) => if i > m { i } else { m },
            None => m,
        }
    }
}

/// The largest layer index that the weight keys of a model name (0 when
/// they name none): the deepest layer that early-exit calibration covers.
pub fn max_layer_index(keys: &Vec<String>) -> (r: usize)
    ensures
        r == max_model_layer(keys@.map_values(|k: String| k@), keys@.len()),
{
    let ghost kv = keys@.map_values(|k: String| k@);
    let mut m: usize = 0;
    let mut i: usize = 0;
    while i < keys.len()
        invariant
            i <= keys@.len(),
            kv == keys@.map_values(|k: String| k@),
            m == max_model_layer(kv, i as nat),
        decreases keys@.len() - i,
    {
        let key = keys[i].as_str();
        assert(kv[i as int] == key@);
        let n = key.unicode_len();
        proof { reveal_strlit("model.layers."); }
        if n >= 13 && str_eq(key.substring_char(0, 13), "model.layers.") {
            match layer_index(key) {
                Some(idx) => {
                    if idx > m {
                        m = idx;
                    }
                },
                None => {},
            }
        }
        i = i + 1;
    }
    m
}

impl ModelManifest {
    /// The per-layer sizes of the manifest, in layer order: each layer index
    /// named by an entry once, with the bytes of its first entry.
    pub fn layer_sizes(&self) -> (v: Vec<u64>)
        ensures
            exists|t: Seq<(usize, u64)>| is_layer_table(manifest_pairs(self.layers@), t)
                && v@ == t.map_values(|e: (usize, u64)| e.1),
    {
        let mut table: Vec<(usize, u64)> = Vec::new();
        let n = self.layers.len();
        let mut k: usize = 0;
        while k < n
            invariant
                n == self.layers@.len(),
                k <= n,
                is_layer_table(manifest_pairs(self.layers@.take(k as int)), table@),
            decreases n - k,
        {
            let ghost pairs0 = manifest_pairs(self.layers@.take(k as int));
            proof {
                assert(self.layers@.take(k + 1).drop_last() =~= self.layers@.take(k as int));
            }
            match layer_index(self.layers[k].layer_id.as_str()) {
                Some(idx) => {
                    let bytes = self.layers[k].stored_bytes;
                    assert(manifest_pairs(self.layers@.take(k + 1)) == pairs0.push((idx as nat, bytes)));
                    add_layer_entry(&mut table, idx, bytes, Ghost(pairs0));
                },
                None => {
                    assert(manifest_pairs(self.layers@.take(k + 1)) == pairs0);
                },
            }
            k = k + 1;
        }
        assert(self.layers@.take(n as int) =~= self.layers@);
        let mut sizes: Vec<u64> = Vec::new();
        let mut i: usize = 0;
        while i < table.len()
            invariant
                i <= table@.len(),
                sizes@ == table@.take(i as int).map_values(|e: (usize, u64)| e.1),
            decreases table@.len() - i,
        {
            sizes.push(table[i].1);
            i = i + 1;
            assert(sizes@ =~= table@.take(i as int).map_values(|e: (usize, u64)| e.1));
        }
        assert(table@.take(table@.len() as int) =~= table@);
        sizes
    }
}

} // verus!
