//! Activation replay: resuming from a materialized view of an earlier branch.

use vstd::prelude::*;
use crate::inference::paged_kv::prefix_cache::{PrefixCacheEntry, compute_tokens_hash, spec_tokens_hash};
use crate::strings::to_string;

verus! {

/// A validated replay: how many requested tokens the view covers, and the
/// view cut down to them.
pub struct ReplayResult<T> {
    pub valid_length: usize,
    pub entry: PrefixCacheEntry<T>,
}

/// The length of the longest common prefix of `a` and `b`.
pub open spec fn common_prefix_len(a: Seq<u32>, b: Seq<u32>) -> nat
    decreases a.len(),
{
    if a.len() == 0 || b.len() == 0 || a[0] != b[0] {
        0
    } else {
        1 + common_prefix_len(a.drop_first(), b.drop_first())
    }
}

proof fn lemma_common_prefix(a: Seq<u32>, b: Seq<u32>)
    ensures
        common_prefix_len(a, b) <= a.len(),
        common_prefix_len(a, b) <= b.len(),
        forall|i: int| 0 <= i < common_prefix_len(a, b) ==> a[i] == b[i],
        common_prefix_len(a, b) < a.len() && common_prefix_len(a, b) < b.len()
            ==> a[common_prefix_len(a, b) as int] != b[common_prefix_len(a, b) as int],
    decreases a.len(),
{
    if !(a.len() == 0 || b.len() == 0 || a[0] != b[0]) {
        lemma_common_prefix(a.drop_first(), b.drop_first());
        let c = common_prefix_len(a, b);
        assert forall|i: int| 0 <= i < c implies a[i] == b[i] by {
            if i > 0 {
                assert(a.drop_first()[i - 1] == b.drop_first()[i - 1]);
            }
        };
    }
}

/// Whether an entry can be cut down to its common prefix with a request:
/// the precondition of [`validate_branch`], tested.
pub fn can_replay<T>(entry: &PrefixCacheEntry<T>, requested_tokens: &[u32]) -> (b: bool)
    ensures
        b == replay_cuttable(*entry, requested_tokens@),
{
    proof { lemma_common_prefix(entry.tokens@, requested_tokens@); }
    let shares = requested_tokens.len() > 0 && entry.tokens.len() > 0 && entry.tokens[0] == requested_tokens[0];
    proof {
        if !shares {
            assert(common_prefix_len(entry.tokens@, requested_tokens@) == 0);
        } else {
            assert(common_prefix_len(entry.tokens@, requested_tokens@) > 0);
        }
    }
    !shares || (entry.keys.len() > 0 && entry.values.len() >= entry.keys.len())
}

/// The replay fails with this message when the view shares no prefix with
/// the request.
pub open spec fn no_prefix_message() -> Seq<char> {
    "No matching token prefix found in the materialized view."@
}

/// The replay would fail with this message if the hashes of the shared
/// prefix disagreed.
pub open spec fn hash_mismatch_message() -> Seq<char> {
    "Activation Replay Validation failed: SHA-256 mismatch! Cache may be corrupted."@
}

/// The view can be cut: when it shares a prefix with the request it has key
/// data for at least one layer and value data for each such layer.
pub open spec fn replay_cuttable<T>(entry: PrefixCacheEntry<T>, requested: Seq<u32>) -> bool {
    common_prefix_len(entry.tokens@, requested) > 0 ==> entry.keys@.len() > 0 && entry.values@.len() >= entry.keys@.len()
}

/// The per-token width of the layer data: the first layer's key length over
/// the number of cached tokens.
pub open spec fn token_width<T>(entry: PrefixCacheEntry<T>) -> int {
    entry.keys@[0].len() as int / entry.tokens@.len() as int
}

/// Validates a loaded view against the requested tokens: finds where the
/// branch diverges, checks the hash of the shared prefix, and cuts the
/// view's tokens and every layer's keys and values down to that prefix.
pub fn validate_branch<T>(entry: PrefixCacheEntry<T>, requested_tokens: &[u32]) -> (r: Result<ReplayResult<T>, String>)
    requires
        replay_cuttable(entry, requested_tokens@),
    ensures
        ({
            let v = common_prefix_len(entry.tokens@, requested_tokens@);
            if v == 0 {
                r matches Err(msg) && msg@ == no_prefix_message()
            } else {
                r matches Ok(res) && {
                    &&& res.valid_length == v
                    &&& res.entry.tokens@ == entry.tokens@.take(v as int)
                    &&& res.entry.tokens@ == requested_tokens@.take(v as int)
                    &&& res.entry.last_accessed == entry.last_accessed
                    &&& res.entry.keys@.len() == entry.keys@.len()
                    &&& res.entry.values@.len() == entry.values@.len()
                    &&& forall|l: int| 0 <= l < entry.keys@.len() ==> (#[trigger] res.entry.keys@[l])@
                        == entry.keys@[l]@.take(min_len(entry.keys@[l]@.len(), v * token_width(entry)))
                    &&& forall|l: int| 0 <= l < entry.values@.len() ==> (#[trigger] res.entry.values@[l])@
                        == (if l < entry.keys@.len() {
                            entry.values@[l]@.take(min_len(entry.values@[l]@.len(), v * token_width(entry)))
                        } else {
                            entry.values@[l]@
                        })
                }
            }
        }),
{
    let mut entry = entry;
    let ghost e0 = entry;
    proof { lemma_common_prefix(entry.tokens@, requested_tokens@); }
    // Find where the branch diverges
    let mut valid_len: usize = 0;
    while valid_len < requested_tokens.len() && valid_len < entry.tokens.len()
        && entry.tokens[valid_len] == requested_tokens[valid_len]
        invariant
            entry == e0,
            valid_len <= common_prefix_len(e0.tokens@, requested_tokens@),
            common_prefix_len(e0.tokens@, requested_tokens@) <= e0.tokens@.len(),
            common_prefix_len(e0.tokens@, requested_tokens@) <= requested_tokens@.len(),
            ({
                let c = common_prefix_len(e0.tokens@, requested_tokens@);
                c < e0.tokens@.len() && c < requested_tokens@.len() ==> e0.tokens@[c as int] != requested_tokens@[c as int]
            }),
        decreases requested_tokens@.len() - valid_len,
    {
        valid_len = valid_len + 1;
    }
    let ghost v = common_prefix_len(e0.tokens@, requested_tokens@);
    assert(valid_len == v);

    if valid_len == 0 {
        return Err(to_string("No matching token prefix found in the materialized view."));
    }

    // Verify the SHA-256 of the validated prefix
    let subset_hash = compute_tokens_hash(&requested_tokens[0..valid_len]);
    let cached_subset_hash = compute_tokens_hash(&entry.tokens.as_slice()[0..valid_len]);
    assert(requested_tokens@.subrange(0, valid_len as int) =~= entry.tokens@.subrange(0, valid_len as int));
    if subset_hash != cached_subset_hash {
        return Err(to_string("Activation Replay Validation failed: SHA-256 mismatch! Cache may be corrupted."));
    }

    let cached_len = entry.tokens.len();
    entry.tokens.truncate(valid_len);
    assert(entry.tokens@ =~= e0.tokens@.take(v as int));
    assert(entry.tokens@ =~= requested_tokens@.take(v as int));

    // Cut every layer's keys and values to the validated prefix
    if cached_len > 0 {
        let dim = entry.keys[0].len() / cached_len;
        assert(valid_len * dim <= entry.keys@[0].len()) by (nonlinear_arith)
            requires
                valid_len <= cached_len,
                cached_len > 0,
                dim == entry.keys@[0].len() / cached_len,
        ;
        let valid_slice_len = valid_len * dim;
        let nl = entry.keys.len();
        let mut layer_idx: usize = 0;
        while layer_idx < nl
            invariant
                nl == e0.keys@.len(),
                e0.values@.len() >= nl,
                layer_idx <= nl,
                entry.tokens@ == e0.tokens@.take(v as int),
                entry.last_accessed == e0.last_accessed,
                entry.keys@.len() == e0.keys@.len(),
                entry.values@.len() == e0.values@.len(),
                valid_slice_len == v * token_width(e0),
                forall|l: int| 0 <= l < layer_idx ==> (#[trigger] entry.keys@[l])@
                    == e0.keys@[l]@.take(min_len(e0.keys@[l]@.len(), valid_slice_len as int)),
                forall|l: int| 0 <= l < layer_idx ==> (#[trigger] entry.values@[l])@
                    == e0.values@[l]@.take(min_len(e0.values@[l]@.len(), valid_slice_len as int)),
                forall|l: int| layer_idx <= l < nl ==> #[trigger] entry.keys@[l] == e0.keys@[l],
                forall|l: int| layer_idx <= l < e0.values@.len() ==> #[trigger] entry.values@[l] == e0.values@[l],
            decreases nl - layer_idx,
        {
            let ghost kb = entry.keys@[layer_idx as int]@;
            let ghost vb = entry.values@[layer_idx as int]@;
            entry.keys[layer_idx].truncate(valid_slice_len);
            entry.values[layer_idx].truncate(valid_slice_len);
            assert(entry.keys@[layer_idx as int]@ =~= kb.take(min_len(kb.len(), valid_slice_len as int)));
            assert(entry.values@[layer_idx as int]@ =~= vb.take(min_len(vb.len(), valid_slice_len as int)));
            layer_idx = layer_idx + 1;
        }
    }
    Ok(ReplayResult { valid_length: valid_len, entry })
}

/// The smaller of a length and a cut point.
pub open spec fn min_len(len: nat, cut: int) -> int {
    if cut < len { cut } else { len as int }
}

} // verus!
