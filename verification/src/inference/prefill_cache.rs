//! Where prefill caches of prompts are stored.

use vstd::prelude::*;
use crate::hashing::{hex_lower, sha256, sha256_hex};
use crate::strings::to_string;

verus! {

/// `base` joined with the relative component `comp`, as a Unix path: a `/`
/// goes between them unless `base` is empty or already ends with one.
pub open spec fn path_join(base: Seq<char>, comp: Seq<char>) -> Seq<char> {
    if base.len() == 0 {
        comp
    } else if base.last() == '/' {
        base + comp
    } else {
        base + "/"@ + comp
    }
}

/// Joins the relative component `comp` to the path `base`.
pub fn join_path(base: &str, comp: &str) -> (r: String)
    ensures
        r@ == path_join(base@, comp@),
{
    let n = base.unicode_len();
    let mut r = to_string(base);
    if n > 0 && base.get_char(n - 1) != '/' {
        r.append("/");
    }
    r.append(comp);
    r
}

pub struct PrefillCacheManager;

/// The hash under which the prefill of `prompt` is stored: the lowercase hex
/// SHA-256 digest of its UTF-8 bytes.
pub open spec fn spec_prompt_hash(prompt: Seq<char>) -> Seq<char> {
    hex_lower(sha256(vstd::utf8::encode_utf8(prompt)))
}

impl PrefillCacheManager {
    /// The directory of the prefill caches under a model's base path.
    pub fn get_cache_dir(base_path: &str) -> (p: String)
        ensures
            p@ == path_join(base_path@, "prefill_cache"@),
    {
        join_path(base_path, "prefill_cache")
    }

    /// The SHA-256 hash of a prompt, in lowercase hex.
    pub fn compute_prompt_hash(prompt: &str) -> (h: String)
        ensures
            h@ == spec_prompt_hash(prompt@),
            h@.len() == 64,
    {
        sha256_hex(prompt.as_bytes())
    }

    /// The file of the prefill cache of `prompt`: `<hash>.bin` in the cache
    /// directory.
    pub fn get_cache_file_path(base_path: &str, prompt: &str) -> (p: String)
        ensures
            p@ == path_join(path_join(base_path@, "prefill_cache"@), spec_prompt_hash(prompt@) + ".bin"@),
    {
        let cache_dir = Self::get_cache_dir(base_path);
        let mut file = Self::compute_prompt_hash(prompt);
        file.append(".bin");
        join_path(cache_dir.as_str(), file.as_str())
    }
}

} // verus!
