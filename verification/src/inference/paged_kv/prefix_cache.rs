//! Prefix KV-cache entries and the hash under which they are stored.

use vstd::prelude::*;
use crate::hashing::{hex_lower, sha256, sha256_hex};
use crate::strings::to_string;

verus! {

/// The cached key/value state of a token prefix. `keys[layer]` and
/// `values[layer]` hold the flattened per-token data of each layer.
pub struct PrefixCacheEntry<T> {
    pub tokens: Vec<u32>,
    pub keys: Vec<Vec<T>>,
    pub values: Vec<Vec<T>>,
    pub last_accessed: u64,
}

/// The four little-endian bytes of `t`.
pub open spec fn u32_le(t: u32) -> Seq<u8> {
    seq![(t % 256) as u8, ((t / 256) % 256) as u8, ((t / 65536) % 256) as u8, (t / 16777216) as u8]
}

/// The little-endian bytes of the tokens, one after the other.
pub open spec fn tokens_le_bytes(tokens: Seq<u32>) -> Seq<u8>
    decreases tokens.len(),
{
    if tokens.len() == 0 {
        Seq::empty()
    } else {
        tokens_le_bytes(tokens.drop_last()) + u32_le(tokens.last())
    }
}

/// The hash of a token sequence: the lowercase hex SHA-256 digest of the
/// little-endian bytes of its tokens.
pub open spec fn spec_tokens_hash(tokens: Seq<u32>) -> Seq<char> {
    hex_lower(sha256(tokens_le_bytes(tokens)))
}

/// Computes the SHA-256 hash of a token sequence, in lowercase hex.
pub fn compute_tokens_hash(tokens: &[u32]) -> (h: String)
    ensures
        h@ == spec_tokens_hash(tokens@),
        h@.len() == 64,
{
    let mut bytes: Vec<u8> = Vec::new();
    let mut i: usize = 0;
    while i < tokens.len()
        invariant
            i <= tokens@.len(),
            bytes@ == tokens_le_bytes(tokens@.take(i as int)),
        decreases tokens@.len() - i,
    {
        let t = tokens[i];
        bytes.push((t % 256) as u8);
        bytes.push(((t / 256) % 256) as u8);
        bytes.push(((t / 65536) % 256) as u8);
        bytes.push((t / 16777216) as u8);
        proof {
            let s = tokens@.take(i + 1);
            assert(s.drop_last() =~= tokens@.take(i as int));
            assert(s.last() == t);
            assert(bytes@ =~= tokens_le_bytes(s));
        }
        i = i + 1;
    }
    assert(tokens@.take(tokens@.len() as int) =~= tokens@);
    sha256_hex(bytes.as_slice())
}

/// The prefix lengths that a lookup probes for `len` tokens, longest first:
/// every multiple of the 16-token page size from `len` rounded down to a
/// page, down to one page.
pub open spec fn probe_lengths(len: nat) -> Seq<nat> {
    Seq::new(len / 16, |k: int| ((len / 16 - k) * 16) as nat)
}

/// The prefix lengths to probe for `len` tokens, longest first.
pub fn prefix_probe_lengths(len: usize) -> (r: Vec<usize>)
    ensures
        r@.len() == probe_lengths(len as nat).len(),
        forall|k: int| 0 <= k < r@.len() ==> r@[k] as nat == #[trigger] probe_lengths(len as nat)[k],
{
    let max_pages = len / 16;
    let mut r: Vec<usize> = Vec::new();
    let mut pages = max_pages;
    while pages >= 1
        invariant
            pages <= max_pages,
            max_pages == len / 16,
            r@.len() == max_pages - pages,
            forall|k: int| 0 <= k < r@.len() ==> r@[k] as nat == #[trigger] probe_lengths(len as nat)[k],
        decreases pages,
    {
        assert(pages * 16 <= len) by (nonlinear_arith)
            requires pages <= len / 16;
        r.push(pages * 16);
        pages = pages - 1;
    }
    r
}

/// The page size, in tokens, at whose multiples prefixes are cached.
pub const PAGE_SIZE: usize = 16;

/// What saving the prefixes of `len` tokens does, when the last `trim_n`
/// tokens are left out and the first layer's key data has
/// `first_key_len` values (`None` when there is no layer): nothing when no
/// full page remains or there is no key data; else the per-token key
/// width `first_key_len / len` and the prefix lengths to save, every
/// multiple of the page size up to the remaining tokens (none when the
/// width is 0).
pub open spec fn spec_save_plan(len: nat, trim_n: nat, first_key_len: Option<nat>) -> Option<(nat, Seq<nat>)> {
    if len <= trim_n {
        None
    } else {
        let active = (len - trim_n) as nat;
        match first_key_len {
            Some(k) => if active < 16 || k == 0 {
                None
            } else {
                let dim = k / len;
                let pages: nat = if dim == 0 { 0 } else { active / 16 };
                Some((dim, Seq::new(pages, |p: int| ((p + 1) * 16) as nat)))
            },
            None => None,
        }
    }
}

/// Law: what a save plan is. A plan exists exactly when a full page of
/// tokens remains after the trim and there is key data. Its per-token key
/// width is the first layer's key length divided by the full token count
/// (whatever the trim): the largest `dim` with `dim * len <= k`. Its prefix
/// lengths are the page multiples `16, 32, ...` in increasing order, each
/// within the untrimmed tokens, and every such multiple is listed when the
/// width is positive (none when it is zero).
pub proof fn lemma_save_plan(len: nat, trim_n: nat, k: nat, trim2: nat)
    ensures
        spec_save_plan(len, trim_n, None) is None,
        spec_save_plan(len, trim_n, Some(k)) is Some <==> (len >= trim_n + 16 && k > 0),
        spec_save_plan(len, trim_n, Some(k)) matches Some((dim, lens)) ==> {
            &&& dim * len <= k < (dim + 1) * len
            &&& forall|i: int| 0 <= i < lens.len() ==> (#[trigger] lens[i]) % 16 == 0 && 16 <= lens[i] <= len - trim_n
            &&& forall|i: int| 0 < i < lens.len() ==> (#[trigger] lens[i]) == lens[i - 1] + 16
            &&& lens.len() > 0 ==> lens[0] == 16
            &&& dim == 0 ==> lens.len() == 0
            &&& dim > 0 ==> lens.len() * 16 <= len - trim_n < (lens.len() + 1) * 16
        },
        spec_save_plan(len, trim_n, Some(k)) matches Some((d1, _)) ==>
            (spec_save_plan(len, trim2, Some(k)) matches Some((d2, _)) ==> d1 == d2),
{
    if len > trim_n {
        let active = (len - trim_n) as nat;
        if active >= 16 && k > 0 {
            let dim = k / len;
            assert(dim * len <= k < (dim + 1) * len) by (nonlinear_arith)
                requires dim == k / len, len > 0;
            let pages: nat = if dim == 0 { 0 } else { active / 16 };
            assert(pages * 16 <= active) by (nonlinear_arith)
                requires pages == 0 || pages == active / 16;
            if dim > 0 {
                assert(active < (pages + 1) * 16) by (nonlinear_arith)
                    requires pages == active / 16;
            }
            let lens = Seq::new(pages, |p: int| ((p + 1) * 16) as nat);
            assert forall|i: int| 0 <= i < lens.len() implies (#[trigger] lens[i]) % 16 == 0 && 16 <= lens[i] <= active by {
                assert(((i + 1) * 16) % 16 == 0) by (nonlinear_arith);
                assert((i + 1) * 16 <= pages * 16) by (nonlinear_arith)
                    requires i < pages;
            };
        }
    }
}

/// Plans the saving of the prefixes of `len` tokens: `None` when nothing is
/// to be saved; else the per-token key width and the prefix lengths to
/// save, shortest first (the cache directory is made in that case, even
/// when the list is empty).
pub fn prefix_save_plan(len: usize, trim_n: usize, first_key_len: Option<usize>) -> (r: Option<(usize, Vec<usize>)>)
    ensures
        match r {
            Some((dim, lens)) => spec_save_plan(len as nat, trim_n as nat, match first_key_len { Some(k) => Some(k as nat), None => None })
                == Some((dim as nat, lens@.map_values(|l: usize| l as nat))),
            None => spec_save_plan(len as nat, trim_n as nat, match first_key_len { Some(k) => Some(k as nat), None => None }) is None,
        },
{
    if len <= trim_n {
        return None;
    }
    let active = len - trim_n;
    let k = match first_key_len {
        Some(k) => k,
        None => { return None; },
    };
    if active < PAGE_SIZE || k == 0 {
        return None;
    }
    let dim = k / len;
    let pages: usize = if dim == 0 { 0 } else { active / PAGE_SIZE };
    let mut lens: Vec<usize> = Vec::new();
    let mut p: usize = 0;
    while p < pages
        invariant
            p <= pages,
            pages <= active / 16,
            active <= len,
            lens@.map_values(|l: usize| l as nat) == Seq::new(p as nat, |q: int| ((q + 1) * 16) as nat),
        decreases pages - p,
    {
        assert((p + 1) * 16 <= active) by (nonlinear_arith)
            requires p < pages, pages <= active / 16;
        let ghost before = lens@.map_values(|l: usize| l as nat);
        lens.push((p + 1) * PAGE_SIZE);
        assert(lens@.map_values(|l: usize| l as nat) =~= before.push(((p + 1) * 16) as nat));
        p = p + 1;
        assert(lens@.map_values(|l: usize| l as nat) =~= Seq::new(p as nat, |q: int| ((q + 1) * 16) as nat));
    }
    Some((dim, lens))
}

/// Every layer has at least `n` key values and `n` value values.
pub open spec fn layers_hold<T>(keys: Seq<Vec<T>>, values: Seq<Vec<T>>, n: nat) -> bool {
    forall|l: int| 0 <= l < keys.len() ==> (#[trigger] keys[l])@.len() >= n && values[l]@.len() >= n
}

fn copy_prefix<T: Copy>(v: &Vec<T>, n: usize) -> (r: Vec<T>)
    requires
        n <= v@.len(),
    ensures
        r@ == v@.take(n as int),
{
    let mut r: Vec<T> = Vec::new();
    let mut i: usize = 0;
    while i < n
        invariant
            i <= n,
            n <= v@.len(),
            r@ == v@.take(i as int),
        decreases n - i,
    {
        r.push(v[i]);
        i = i + 1;
        assert(r@ =~= v@.take(i as int));
    }
    r
}

/// The cache entry of the first `prefix_len` tokens: for each layer the
/// first `prefix_len * dim` key and value values. Fails, as saving does,
/// when a layer holds fewer than that.
pub fn slice_prefix_entry<T: Copy>(tokens: &[u32], keys: &Vec<Vec<T>>, values: &Vec<Vec<T>>, prefix_len: usize, dim: usize, last_accessed: u64) -> (r: Result<PrefixCacheEntry<T>, String>)
    requires
        prefix_len <= tokens@.len(),
        prefix_len * dim <= usize::MAX,
        values@.len() >= keys@.len(),
    ensures
        match r {
            Ok(e) => {
                &&& layers_hold(keys@, values@, (prefix_len * dim) as nat)
                &&& e.tokens@ == tokens@.take(prefix_len as int)
                &&& e.keys@.len() == keys@.len()
                &&& e.values@.len() == keys@.len()
                &&& forall|l: int| 0 <= l < keys@.len() ==> (#[trigger] e.keys@[l])@ == keys@[l]@.take(prefix_len * dim)
                &&& forall|l: int| 0 <= l < keys@.len() ==> (#[trigger] e.values@[l])@ == values@[l]@.take(prefix_len * dim)
                &&& e.last_accessed == last_accessed
            },
            Err(msg) => !layers_hold(keys@, values@, (prefix_len * dim) as nat)
                && msg@ == "KV length is shorter than sliced prefix length"@,
        },
{
    let slice_len = prefix_len * dim;
    let mut pk: Vec<Vec<T>> = Vec::new();
    let mut pv: Vec<Vec<T>> = Vec::new();
    let mut l: usize = 0;
    while l < keys.len()
        invariant
            l <= keys@.len(),
            values@.len() >= keys@.len(),
            slice_len == prefix_len * dim,
            pk@.len() == l,
            pv@.len() == l,
            forall|m: int| 0 <= m < l ==> (#[trigger] keys@[m])@.len() >= slice_len && values@[m]@.len() >= slice_len,
            forall|m: int| 0 <= m < l ==> (#[trigger] pk@[m])@ == keys@[m]@.take(slice_len as int),
            forall|m: int| 0 <= m < l ==> (#[trigger] pv@[m])@ == values@[m]@.take(slice_len as int),
        decreases keys@.len() - l,
    {
        if keys[l].len() < slice_len || values[l].len() < slice_len {
            return Err(to_string("KV length is shorter than sliced prefix length"));
        }
        pk.push(copy_prefix(&keys[l], slice_len));
        pv.push(copy_prefix(&values[l], slice_len));
        l = l + 1;
    }
    let mut tk: Vec<u32> = Vec::new();
    let mut i: usize = 0;
    while i < prefix_len
        invariant
            i <= prefix_len,
            prefix_len <= tokens@.len(),
            tk@ == tokens@.take(i as int),
        decreases prefix_len - i,
    {
        tk.push(tokens[i]);
        i = i + 1;
        assert(tk@ =~= tokens@.take(i as int));
    }
    Ok(PrefixCacheEntry { tokens: tk, keys: pk, values: pv, last_accessed })
}

/// Whether a loaded entry's tokens are exactly the first `prefix_len`
/// tokens of the prompt, which a lookup checks before using it.
pub fn entry_matches_prefix(entry_tokens: &[u32], tokens: &[u32], prefix_len: usize) -> (b: bool)
    requires
        prefix_len <= tokens@.len(),
    ensures
        b == (entry_tokens@ == tokens@.take(prefix_len as int)),
{
    if entry_tokens.len() != prefix_len {
        return false;
    }
    let mut i: usize = 0;
    while i < prefix_len
        invariant
            i <= prefix_len,
            prefix_len <= tokens@.len(),
            entry_tokens@.len() == prefix_len,
            forall|j: int| 0 <= j < i ==> entry_tokens@[j] == tokens@[j],
        decreases prefix_len - i,
    {
        if entry_tokens[i] != tokens[i] {
            assert(entry_tokens@[i as int] != tokens@.take(prefix_len as int)[i as int]);
            return false;
        }
        i = i + 1;
    }
    assert(entry_tokens@ =~= tokens@.take(prefix_len as int));
    true
}

} // verus!
