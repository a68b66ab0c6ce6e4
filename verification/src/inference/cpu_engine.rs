//! The key/value history of a decoder layer with an attention sink.

use vstd::prelude::*;

verus! {

/// Longest context kept per layer, in tokens.
pub const MAX_CONTEXT_TOKENS: usize = 4096;

/// Tokens at the start of the context that are never evicted.
pub const SINK_TOKENS: usize = 4;

/// The key/value history of one decoder layer, flattened per token:
/// `[seq_len, num_kv_heads * head_dim]`.
pub struct LayerKvCache<T> {
    pub keys: Vec<T>,
    pub values: Vec<T>,
}

/// Where the eviction of a history whose keys hold `len` elements of
/// `head_size` per token cuts, if it cuts: the middle tokens beyond the
/// context limit, after the sink, are removed, unless that would reach the
/// end.
pub open spec fn eviction_cut(len: int, head_size: int) -> Option<(int, int)> {
    let tokens = len / head_size;
    if tokens > MAX_CONTEXT_TOKENS {
        let start = SINK_TOKENS * head_size;
        let end = start + (tokens - MAX_CONTEXT_TOKENS) * head_size;
        if end < len { Some((start, end)) } else { None }
    } else {
        None
    }
}

/// `s` with the elements in `[cut.0, cut.1)` removed.
pub open spec fn remove_span<T>(s: Seq<T>, cut: Option<(int, int)>) -> Seq<T> {
    match cut {
        Some((a, b)) => s.subrange(0, a) + s.subrange(b, s.len() as int),
        None => s,
    }
}

fn drain_span<T: Copy>(v: &Vec<T>, start: usize, end: usize) -> (r: Vec<T>)
    requires
        start <= end <= v@.len(),
    ensures
        r@ == v@.subrange(0, start as int) + v@.subrange(end as int, v@.len() as int),
{
    let mut r: Vec<T> = Vec::new();
    let mut i: usize = 0;
    while i < start
        invariant
            i <= start,
            start <= end <= v@.len(),
            r@ == v@.subrange(0, i as int),
        decreases start - i,
    {
        r.push(v[i]);
        i = i + 1;
        assert(r@ =~= v@.subrange(0, i as int));
    }
    let mut j: usize = end;
    while j < v.len()
        invariant
            start <= end <= j <= v@.len(),
            r@ == v@.subrange(0, start as int) + v@.subrange(end as int, j as int),
        decreases v@.len() - j,
    {
        r.push(v[j]);
        j = j + 1;
        assert(r@ =~= v@.subrange(0, start as int) + v@.subrange(end as int, j as int));
    }
    r
}

fn extend_copy<T: Copy>(v: &mut Vec<T>, other: &[T])
    ensures
        final(v)@ == old(v)@ + other@,
{
    let mut i: usize = 0;
    while i < other.len()
        invariant
            i <= other@.len(),
            v@ == old(v)@ + other@.subrange(0, i as int),
        decreases other@.len() - i,
    {
        v.push(other[i]);
        i = i + 1;
        assert(v@ =~= old(v)@ + other@.subrange(0, i as int));
    }
    assert(other@.subrange(0, other@.len() as int) =~= other@);
}

impl<T: Copy> LayerKvCache<T> {
    /// Appends the keys and values of new tokens; when the history then
    /// exceeds the context limit, evicts the oldest tokens after the sink
    /// (the first four tokens stay) until the limit holds.
    pub fn append_and_evict(&mut self, new_k: &[T], new_v: &[T], num_kv_heads: usize, head_dim: usize)
        requires
            num_kv_heads * head_dim > 0,
            num_kv_heads * head_dim <= usize::MAX,
            eviction_cut(old(self).keys@.len() + new_k@.len() as int, num_kv_heads * head_dim) matches Some((a, b))
                ==> b <= old(self).values@.len() + new_v@.len(),
        ensures
            final(self).keys@ == remove_span(old(self).keys@ + new_k@,
                eviction_cut(old(self).keys@.len() + new_k@.len() as int, num_kv_heads * head_dim)),
            final(self).values@ == remove_span(old(self).values@ + new_v@,
                eviction_cut(old(self).keys@.len() + new_k@.len() as int, num_kv_heads * head_dim)),
    {
        let head_size = num_kv_heads * head_dim;
        extend_copy(&mut self.keys, new_k);
        extend_copy(&mut self.values, new_v);

        let current_tokens = self.keys.len() / head_size;
        if current_tokens > MAX_CONTEXT_TOKENS {
            let tokens_to_evict = current_tokens - MAX_CONTEXT_TOKENS;
            assert(current_tokens * head_size <= self.keys@.len()) by (nonlinear_arith)
                requires current_tokens == self.keys@.len() as int / head_size as int, head_size > 0;
            assert((SINK_TOKENS + tokens_to_evict) * head_size <= current_tokens * head_size) by (nonlinear_arith)
                requires SINK_TOKENS + tokens_to_evict <= current_tokens, head_size > 0;
            assert(SINK_TOKENS * head_size + tokens_to_evict * head_size == (SINK_TOKENS + tokens_to_evict) * head_size) by (nonlinear_arith);
            let drain_start = SINK_TOKENS * head_size;
            let drain_end = drain_start + (tokens_to_evict * head_size);
            // Never drain the tokens that were just added
            if drain_end < self.keys.len() {
                self.keys = drain_span(&self.keys, drain_start, drain_end);
                self.values = drain_span(&self.values, drain_start, drain_end);
            }
        }
    }
}

/// Law: the attention sink stays and the context limit holds. For a
/// history of whole tokens of `head_size` elements, what eviction keeps
/// holds at most the context limit of tokens, and its first
/// `SINK_TOKENS` tokens are those of the history.
pub proof fn lemma_eviction_keeps_sink<T>(s: Seq<T>, head_size: int)
    requires
        head_size > 0,
        (s.len() as int) % head_size == 0,
    ensures
        remove_span(s, eviction_cut(s.len() as int, head_size)).len() <= MAX_CONTEXT_TOKENS * head_size,
        forall|i: int| 0 <= i < SINK_TOKENS * head_size && i < s.len()
            ==> #[trigger] remove_span(s, eviction_cut(s.len() as int, head_size))[i] == s[i],
{
    let len = s.len() as int;
    let tokens = len / head_size;
    assert(len == tokens * head_size) by (nonlinear_arith)
        requires
            len % head_size == 0,
            tokens == len / head_size,
            head_size > 0;
    if tokens > MAX_CONTEXT_TOKENS {
        let start = SINK_TOKENS * head_size;
        let end = start + (tokens - MAX_CONTEXT_TOKENS) * head_size;
        assert(end == (tokens - 4092) * head_size) by (nonlinear_arith)
            requires
                start == 4 * head_size,
                end == start + (tokens - 4096) * head_size;
        assert(end < len) by (nonlinear_arith)
            requires
                end == (tokens - 4092) * head_size,
                len == tokens * head_size,
                head_size > 0;
        assert(len - (end - start) == MAX_CONTEXT_TOKENS * head_size) by (nonlinear_arith)
            requires
                len == tokens * head_size,
                start == 4 * head_size,
                end == start + (tokens - 4096) * head_size;
        assert(start <= end) by (nonlinear_arith)
            requires
                end == start + (tokens - 4096) * head_size,
                tokens > 4096,
                head_size > 0;
    } else {
        assert(len <= MAX_CONTEXT_TOKENS * head_size) by (nonlinear_arith)
            requires
                len == tokens * head_size,
                tokens <= 4096,
                head_size > 0;
    }
}

} // verus!
