//! The speculative decoding path and the interface of a generation backend.

use vstd::prelude::*;

verus! {

/// A text generation backend that a sparse engine session provides.
pub trait BramhaBackend {
    /// Generates up to `max_tokens` tokens of `model_name` for `prompt`.
    fn generate(&mut self, model_name: &str, prompt: &str, max_tokens: usize) -> Result<String, String>;

    /// Whether the backend can serve requests.
    fn is_healthy(&self) -> bool;
}

/// Speculative decoding over a target engine. Without a draft model the
/// path only marks that it was taken.
pub struct SpeculativePipeline<E> {
    pub target_engine: E,
}

/// The text the speculative path produces while no draft model is loaded.
pub open spec fn speculative_marker() -> Seq<char> {
    "[Speculative Decode Triggered]\n"@
}

impl<E> SpeculativePipeline<E> {
    /// A pipeline over `target_engine`.
    pub fn new(target_engine: E) -> (p: Self)
        ensures
            p.target_engine == target_engine,
    {
        SpeculativePipeline { target_engine }
    }

    /// Runs the speculative path for `prompt`: without a draft model it
    /// gives the marker text and nothing else.
    pub fn generate_speculative(&mut self, _prompt: &str, _max_tokens: usize) -> (r: Result<String, String>)
        ensures
            r matches Ok(s) && s@ == speculative_marker(),
            final(self).target_engine == old(self).target_engine,
    {
        let mut generated = String::new();
        generated.append("[Speculative Decode Triggered]\n");
        Ok(generated)
    }
}

} // verus!
