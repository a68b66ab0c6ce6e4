//! Stable per-process identifiers of models for access telemetry.

use std::collections::hash_map::DefaultHasher;
use std::hash::Hasher;
use vstd::prelude::*;
use vstd::std_specs::hash::DefaultHasherAdditionalSpecFns;

verus! {

/// The identifier of a model: `DefaultHasher::new()` fed the model name as
/// `str` hashing feeds it (its UTF-8 bytes, then the byte `0xff`), finished.
pub open spec fn spec_model_id(model_name: Seq<char>) -> u64 {
    DefaultHasher::spec_finish(seq![vstd::utf8::encode_utf8(model_name), seq![0xffu8]])
}

/// The identifier under which accesses to `model_name` are recorded. Equal
/// names get equal identifiers within a process.
pub fn stable_id_for_model(model_name: &str) -> (id: u64)
    ensures
        id == spec_model_id(model_name@),
{
    let mut hasher = DefaultHasher::new();
    let bytes = model_name.as_bytes();
    hasher.write(bytes);
    let terminator: Vec<u8> = vec![0xffu8];
    hasher.write(terminator.as_slice());
    assert(terminator@ =~= seq![0xffu8]);
    assert(bytes@ == vstd::utf8::encode_utf8(model_name@));
    assert(hasher@ =~= seq![vstd::utf8::encode_utf8(model_name@), seq![0xffu8]]);
    hasher.finish()
}

} // verus!
