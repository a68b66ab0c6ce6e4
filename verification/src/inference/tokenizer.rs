//! Prompt encoding around an outside tokenizer: special tokens written in the
//! prompt are cut out and mapped to their ids directly, the text between them
//! is left to the tokenizer.

use vstd::prelude::*;
use tokenizers::Tokenizer;
use crate::strings::{chars_of, str_eq, to_string};

verus! {

#[verifier::external_type_specification]
#[verifier::external_body]
pub struct ExTokenizer(Tokenizer);

/// The token-to-id table that a tokenizer holds: its added tokens, then the
/// vocabulary of its model.
pub uninterp spec fn token_ids(t: Tokenizer) -> Map<Seq<char>, u32>;

/// `tokenizers::Tokenizer::token_to_id`: a lookup of `token` in the
/// tokenizer's token-to-id table ([`token_ids`]), the added tokens first and
/// then the model's vocabulary.
#[verifier::external_body]
fn token_id(t: &Tokenizer, token: &str) -> (r: Option<u32>)
    ensures
        match r {
            Some(id) => token_ids(*t).contains_key(token@) && token_ids(*t)[token@] == id,
            None => !token_ids(*t).contains_key(token@),
        },
{
    t.token_to_id(token)
}

/// The tokenizer may give `ids` for `text` when it encodes it without
/// special tokens (`None`: it reports an error). A model that samples (BPE
/// dropout) can give one text several encodings, so this is a relation.
pub uninterp spec fn plain_encoding_of(t: Tokenizer, text: Seq<char>, ids: Option<Seq<u32>>) -> bool;

/// `tokenizers::Tokenizer::encode` without special tokens, and the ids of
/// the resulting encoding; `None` when the tokenizer reports an error. The
/// outcome is one that [`plain_encoding_of`] allows.
#[verifier::external_body]
fn encode_plain(t: &Tokenizer, text: &str) -> (r: Option<Vec<u32>>)
    ensures
        plain_encoding_of(*t, text@, opt_ids(r)),
{
    match t.encode(text, false) {
        Ok(encoding) => Some(encoding.get_ids().to_vec()),
        Err(_) => None,
    }
}

/// What a tokenizer decodes `ids` to, skipping special tokens when `skip`
/// holds: the text, or the message of its error.
pub uninterp spec fn decoded(t: Tokenizer, ids: Seq<u32>, skip: bool) -> Result<Seq<char>, Seq<char>>;

/// `tokenizers::Tokenizer::decode`, with the error turned into its message:
/// the outcome is [`decoded`] of the arguments.
#[verifier::external_body]
fn decode_ids(t: &Tokenizer, ids: &[u32], skip_special_tokens: bool) -> (r: Result<String, String>)
    ensures
        match r {
            Ok(s) => decoded(*t, ids@, skip_special_tokens) == Ok::<Seq<char>, Seq<char>>(s@),
            Err(e) => decoded(*t, ids@, skip_special_tokens) == Err::<Seq<char>, Seq<char>>(e@),
        },
{
    t.decode(ids, skip_special_tokens).map_err(|e| e.to_string())
}

/// The tokenizer that a JSON definition describes, or the message of the
/// error in reading it.
pub uninterp spec fn tokenizer_from(def: Seq<u8>) -> Result<Tokenizer, Seq<char>>;

/// `tokenizers::Tokenizer::from_bytes`: a tokenizer read from its JSON
/// definition, with a parse error turned into its message: the outcome is
/// [`tokenizer_from`] of the bytes.
#[verifier::external_body]
fn tokenizer_from_bytes(bytes: &[u8]) -> (r: Result<Tokenizer, String>)
    ensures
        match r {
            Ok(t) => tokenizer_from(bytes@) == Ok::<Tokenizer, Seq<char>>(t),
            Err(e) => tokenizer_from(bytes@) == Err::<Tokenizer, Seq<char>>(e@),
        },
{
    Tokenizer::from_bytes(bytes).map_err(|e| e.to_string())
}

#[verifier::external_type_specification]
#[verifier::external_body]
pub struct ExJsonValue(serde_json::Value);

/// The `serde_json::Value` that a JSON text reads as, or the message of the
/// error in reading it.
pub uninterp spec fn json_read(doc: Seq<u8>) -> Result<serde_json::Value, Seq<char>>;

/// `doc` is a JSON text that `serde_json` reads into a `serde_json::Value`.
pub open spec fn json_parses(doc: Seq<u8>) -> bool {
    json_read(doc) is Ok
}

/// `serde_json::from_slice` into a `serde_json::Value`, with the error
/// turned into its message: the outcome is [`json_read`] of the bytes.
#[verifier::external_body]
fn json_parse(doc: &[u8]) -> (r: Result<serde_json::Value, String>)
    ensures
        match r {
            Ok(v) => json_read(doc@) == Ok::<serde_json::Value, Seq<char>>(v),
            Err(e) => json_read(doc@) == Err::<serde_json::Value, Seq<char>>(e@),
        },
{
    serde_json::from_slice::<serde_json::Value>(doc).map_err(|e| e.to_string())
}

/// The compact JSON text of a `serde_json::Value`.
pub uninterp spec fn json_text(v: serde_json::Value) -> Seq<u8>;

/// `serde_json::to_vec` of a `serde_json::Value`, with the error turned into
/// its message. It succeeds: `to_vec` fails only where the value's
/// `Serialize` fails or a map has keys that are not strings, and a `Value`'s
/// maps have string keys and its `Serialize` only passes on the writer's
/// errors, which a `Vec` does not raise. The bytes are [`json_text`] of the
/// value.
#[verifier::external_body]
fn json_to_vec(v: &serde_json::Value) -> (r: Result<Vec<u8>, String>)
    ensures
        r is Ok,
        r.unwrap()@ == json_text(*v),
{
    serde_json::to_vec(v).map_err(|e| e.to_string())
}

/// The entries of a tokenizer definition's `added_tokens` array, each as
/// (its `content` string if it has one, whether it has an `id`); `None`
/// when the definition has no such array.
pub uninterp spec fn json_added_tokens(v: serde_json::Value) -> Option<Seq<(Option<Seq<char>>, bool)>>;

/// The keys of a tokenizer definition's `model.vocab` object, in the map's
/// order; `None` when the definition has no such object.
pub uninterp spec fn json_vocab_keys(v: serde_json::Value) -> Option<Seq<Seq<char>>>;

/// A tokenizer definition with entry `index` of its `added_tokens` put into
/// its `model.vocab` (its `content` mapped to its `id`); unchanged where one
/// of these is missing.
pub uninterp spec fn with_vocab_token(v: serde_json::Value, index: usize) -> serde_json::Value;

/// `serde_json::Value::get`, `as_array`, `as_str` and `as_object`, read out
/// of a tokenizer definition: the entries of its `added_tokens` array, each
/// as (its `content` string if it has one, whether it has an `id`), and the
/// keys of its `model.vocab` object; `None` where the definition lacks them.
/// The result is [`json_added_tokens`] and [`json_vocab_keys`] of the value.
#[verifier::external_body]
fn tokenizer_json_parts(v: &serde_json::Value) -> (r: (Option<Vec<(Option<String>, bool)>>, Option<Vec<String>>))
    ensures
        match r.0 {
            Some(a) => json_added_tokens(*v) == Some(added_seq(a@)),
            None => json_added_tokens(*v) is None,
        },
        match r.1 {
            Some(k) => json_vocab_keys(*v) == Some(words_seq(k@)),
            None => json_vocab_keys(*v) is None,
        },
{
    let added = v.get("added_tokens").and_then(|a| a.as_array()).map(|a| {
        a.iter().map(|t| (t.get("content").and_then(|c| c.as_str()).map(|c| c.to_string()), t.get("id").is_some())).collect()
    });
    let vocab = v.get("model").and_then(|m| m.get("vocab")).and_then(|m| m.as_object()).map(|m| m.keys().cloned().collect());
    (added, vocab)
}

/// `serde_json::Map::insert` on a tokenizer definition: entry `index` of its
/// `added_tokens` goes into its `model.vocab`, the entry's `content` mapped
/// to a copy of its `id` (nothing happens where one of these is missing).
/// The definition after is [`with_vocab_token`] of the one before.
#[verifier::external_body]
fn add_token_to_vocab(v: &mut serde_json::Value, index: usize)
    ensures
        *final(v) == with_vocab_token(*old(v), index),
{
    let token = v.get("added_tokens").and_then(|a| a.get(index)).cloned();
    let vocab = v.get_mut("model").and_then(|m| m.get_mut("vocab")).and_then(|m| m.as_object_mut());
    if let (Some(t), Some(vocab)) = (token, vocab) {
        if let (Some(c), Some(id)) = (t.get("content").and_then(|c| c.as_str()), t.get("id")) {
            vocab.insert(c.to_string(), id.clone());
        }
    }
}

/// The lowercase form of a string, as `str::to_lowercase` gives it.
pub uninterp spec fn lowercase(s: Seq<char>) -> Seq<char>;

/// `str::to_lowercase`: the lowercase form of `s`, which [`lowercase`] names.
#[verifier::external_body]
pub(crate) fn to_lowercase(s: &str) -> (r: String)
    ensures
        r@ == lowercase(s@),
{
    s.to_lowercase()
}

/// A piece of a prompt: text for the tokenizer, or the id of a special token.
#[derive(Debug, Clone, PartialEq, Eq)]
pub enum PromptSegment {
    Text(String),
    Special(u32),
}

/// The special tokens that the encoder recognises in a prompt, in the order
/// in which it prefers them when two start at the same place.
pub open spec fn special_token_names() -> Seq<Seq<char>> {
    seq![
        "<|system|>"@, "<|user|>"@, "<|assistant|>"@, "</s>"@, "<s>"@,
        "<|start_header_id|>"@, "<|end_header_id|>"@, "<|eot_id|>"@, "[INST]"@, "[/INST]"@,
        "<<SYS>>"@, "<</SYS>>"@, "<|begin_of_text|>"@, "<|im_start|>"@, "<|im_end|>"@
    ]
}

/// `pat` occurs in `p` at position `pos`.
pub open spec fn occurs_at(p: Seq<char>, pos: int, pat: Seq<char>) -> bool {
    0 <= pos && pos + pat.len() <= p.len() && p.subrange(pos, pos + pat.len()) == pat
}

/// Special token `k` occurs at `pos`, at or after `from`.
pub open spec fn special_at(p: Seq<char>, from: int, specials: Seq<(Seq<char>, u32)>, pos: int, k: int) -> bool {
    from <= pos && 0 <= k < specials.len() && occurs_at(p, pos, specials[k].0)
}

/// `(pos, k)` is the earliest special-token occurrence at or after `from`,
/// the first-listed token winning a tie.
pub open spec fn is_earliest(p: Seq<char>, from: int, specials: Seq<(Seq<char>, u32)>, pos: int, k: int) -> bool {
    &&& special_at(p, from, specials, pos, k)
    &&& forall|pos2: int, k2: int| #[trigger] special_at(p, from, specials, pos2, k2) ==> pos < pos2 || (pos == pos2 && k <= k2)
}

/// Every special token is a non-empty string.
pub open spec fn specials_nonempty(specials: Seq<(Seq<char>, u32)>) -> bool {
    forall|k: int| 0 <= k < specials.len() ==> (#[trigger] specials[k]).0.len() > 0
}

/// The segments of `p` from position `from` on: the text up to the earliest
/// special token, that token's id, and the segments after it; or the rest
/// as text when no special token occurs.
pub open spec fn segments(p: Seq<char>, from: int, specials: Seq<(Seq<char>, u32)>) -> Seq<(bool, Seq<char>, u32)>
    decreases p.len() - from,
{
    if from < 0 || from >= p.len() || !specials_nonempty(specials) {
        Seq::empty()
    } else if exists|pos: int, k: int| is_earliest(p, from, specials, pos, k) {
        let (pos, k) = choose|pos: int, k: int| is_earliest(p, from, specials, pos, k);
        let text: Seq<(bool, Seq<char>, u32)> = if pos > from { seq![(true, p.subrange(from, pos), 0u32)] } else { Seq::empty() };
        text + seq![(false, Seq::<char>::empty(), specials[k].1)] + segments(p, pos + specials[k].0.len(), specials)
    } else {
        seq![(true, p.subrange(from, p.len() as int), 0u32)]
    }
}

/// A segment as (is text, text, special id).
pub open spec fn segment_view(s: PromptSegment) -> (bool, Seq<char>, u32) {
    match s {
        PromptSegment::Text(t) => (true, t@, 0u32),
        PromptSegment::Special(id) => (false, Seq::empty(), id),
    }
}

/// The first occurrence of `pat` at or after `from`.
fn find_from(p: &Vec<char>, from: usize, pat: &Vec<char>) -> (r: Option<usize>)
    requires
        pat@.len() > 0,
    ensures
        match r {
            Some(pos) => from <= pos && occurs_at(p@, pos as int, pat@)
                && forall|q: int| from <= q < pos ==> !occurs_at(p@, q, pat@),
            None => forall|q: int| from <= q ==> !occurs_at(p@, q, pat@),
        },
{
    let n = p.len();
    let m = pat.len();
    if m > n {
        return None;
    }
    let mut q = from;
    while q <= n - m
        invariant
            n == p@.len(),
            m == pat@.len(),
            0 < m <= n,
            from <= q,
            forall|x: int| from <= x < q ==> !occurs_at(p@, x, pat@),
        decreases n - m + 1 - q,
    {
        let mut j: usize = 0;
        while j < m && p[q + j] == pat[j]
            invariant
                j <= m,
                q + m <= n,
                n == p@.len(),
                m == pat@.len(),
                forall|t: int| 0 <= t < j ==> p@[q + t] == pat@[t],
            decreases m - j,
        {
            j = j + 1;
        }
        if j == m {
            assert(p@.subrange(q as int, q + m) =~= pat@);
            return Some(q);
        }
        assert(!occurs_at(p@, q as int, pat@)) by {
            if occurs_at(p@, q as int, pat@) {
                assert(p@.subrange(q as int, q + m)[j as int] == pat@[j as int]);
            }
        };
        q = q + 1;
    }
    None
}

/// Cuts `prompt` at the special tokens listed in `specials` (token, id):
/// text between tokens becomes [`PromptSegment::Text`], each token its id.
/// At each point the earliest occurrence is taken, the first-listed token
/// winning a tie.
pub fn segment_prompt(prompt: &str, specials: &Vec<(String, u32)>) -> (r: Vec<PromptSegment>)
    requires
        specials_nonempty(specials@.map_values(|e: (String, u32)| (e.0@, e.1))),
    ensures
        r@.map_values(|s: PromptSegment| segment_view(s)) == segments(prompt@, 0, specials@.map_values(|e: (String, u32)| (e.0@, e.1))),
{
    let ghost sp = specials@.map_values(|e: (String, u32)| (e.0@, e.1));
    let p = chars_of(prompt);
    let mut pats: Vec<Vec<char>> = Vec::new();
    let mut k: usize = 0;
    while k < specials.len()
        invariant
            k <= specials@.len(),
            sp == specials@.map_values(|e: (String, u32)| (e.0@, e.1)),
            pats@.len() == k,
            forall|t: int| 0 <= t < k ==> (#[trigger] pats@[t])@ == sp[t].0,
        decreases specials@.len() - k,
    {
        pats.push(chars_of(specials[k].0.as_str()));
        k = k + 1;
    }
    let n = p.len();
    let mut out: Vec<PromptSegment> = Vec::new();
    let mut current: usize = 0;
    let mut done = false;
    while !done && current < n
        invariant
            n == p@.len(),
            p@ == prompt@,
            sp == specials@.map_values(|e: (String, u32)| (e.0@, e.1)),
            specials_nonempty(sp),
            pats@.len() == sp.len(),
            forall|t: int| 0 <= t < sp.len() ==> (#[trigger] pats@[t])@ == sp[t].0,
            current <= n,
            done ==> out@.map_values(|s: PromptSegment| segment_view(s)) == segments(p@, 0, sp),
            !done ==> segments(p@, 0, sp) == out@.map_values(|s: PromptSegment| segment_view(s)) + segments(p@, current as int, sp),
        decreases n - current, (if done { 0int } else { 1int }),
    {
        let mut earliest = n;
        let mut matched: usize = 0;
        let mut found = false;
        let mut k: usize = 0;
        while k < pats.len()
            invariant
                n == p@.len(),
                current < n,
                pats@.len() == sp.len(),
                specials_nonempty(sp),
                forall|t: int| 0 <= t < sp.len() ==> (#[trigger] pats@[t])@ == sp[t].0,
                k <= sp.len(),
                found ==> matched < k && earliest < n && special_at(p@, current as int, sp, earliest as int, matched as int),
                !found ==> earliest == n,
                forall|pos2: int, k2: int| 0 <= k2 < k && #[trigger] special_at(p@, current as int, sp, pos2, k2)
                    ==> found && (earliest < pos2 || (earliest == pos2 && matched <= k2)),
            decreases sp.len() - k,
        {
            let ghost kk = k as int;
            assert(pats@[kk]@ == sp[kk].0);
            match find_from(&p, current, &pats[k]) {
                Some(pos) => {
                    if pos < earliest {
                        earliest = pos;
                        matched = k;
                        found = true;
                    }
                    assert forall|pos2: int| #[trigger] special_at(p@, current as int, sp, pos2, kk)
                        implies found && (earliest < pos2 || (earliest == pos2 && matched <= kk)) by {
                        assert(occurs_at(p@, pos2, pats@[kk]@));
                    };
                },
                None => {
                    assert forall|pos2: int| !#[trigger] special_at(p@, current as int, sp, pos2, kk) by {
                        if special_at(p@, current as int, sp, pos2, kk) {
                            assert(occurs_at(p@, pos2, pats@[kk]@));
                        }
                    };
                },
            }
            k = k + 1;
        }
        let ghost cur = current as int;
        if found {
            proof {
                assert(is_earliest(p@, cur, sp, earliest as int, matched as int));
                let (pos, kk) = choose|pos: int, kk: int| is_earliest(p@, cur, sp, pos, kk);
                assert(pos == earliest as int && kk == matched as int) by {
                    assert(special_at(p@, cur, sp, pos, kk));
                    assert(special_at(p@, cur, sp, earliest as int, matched as int));
                };
            }
            let ghost before = out@.map_values(|s: PromptSegment| segment_view(s));
            if earliest > current {
                let chunk = prompt.substring_char(current, earliest);
                out.push(PromptSegment::Text(to_string(chunk)));
            }
            out.push(PromptSegment::Special(specials[matched].1));
            proof {
                let text: Seq<(bool, Seq<char>, u32)> = if earliest > current { seq![(true, p@.subrange(cur, earliest as int), 0u32)] } else { Seq::empty() };
                assert(out@.map_values(|s: PromptSegment| segment_view(s)) =~= before + text + seq![(false, Seq::<char>::empty(), sp[matched as int].1)]);
            }
            current = earliest + pats[matched].len();
        } else {
            proof {
                assert(!exists|pos: int, kk: int| is_earliest(p@, cur, sp, pos, kk)) by {
                    if exists|pos: int, kk: int| is_earliest(p@, cur, sp, pos, kk) {
                        let (pos, kk) = choose|pos: int, kk: int| is_earliest(p@, cur, sp, pos, kk);
                        assert(special_at(p@, cur, sp, pos, kk));
                    }
                };
            }
            let ghost before = out@.map_values(|s: PromptSegment| segment_view(s));
            let chunk = prompt.substring_char(current, n);
            out.push(PromptSegment::Text(to_string(chunk)));
            assert(out@.map_values(|s: PromptSegment| segment_view(s)) =~= before + seq![(true, p@.subrange(cur, n as int), 0u32)]);
            done = true;
        }
    }
    proof {
        if !done {
            assert(out@.map_values(|s: PromptSegment| segment_view(s)) + Seq::<(bool, Seq<char>, u32)>::empty()
                =~= out@.map_values(|s: PromptSegment| segment_view(s)));
        }
    }
    out
}


/// The ids of an optional piece.
pub open spec fn opt_ids(o: Option<Vec<u32>>) -> Option<Seq<u32>> {
    match o {
        Some(v) => Some(v@),
        None => None,
    }
}

/// The ids of the first `n` segments: a special token's id, or the ids the
/// tokenizer gave a text piece (none when it failed).
pub open spec fn segment_ids(segs: Seq<(bool, Seq<char>, u32)>, pieces: Seq<Option<Seq<u32>>>, n: nat) -> Seq<u32>
    decreases n,
{
    if n == 0 {
        Seq::empty()
    } else {
        let prev = segment_ids(segs, pieces, (n - 1) as nat);
        let seg = segs[n - 1];
        if seg.0 {
            match pieces[n - 1] {
                Some(ids) => prev + ids,
                None => prev,
            }
        } else {
            prev.push(seg.2)
        }
    }
}

/// The encoding of a prompt: the beginning-of-sequence id when there is
/// one, then the ids of every segment in order.
pub open spec fn assembled_ids(bos: Option<u32>, segs: Seq<(bool, Seq<char>, u32)>, pieces: Seq<Option<Seq<u32>>>) -> Seq<u32> {
    let head: Seq<u32> = match bos {
        Some(b) => seq![b],
        None => Seq::empty(),
    };
    head + segment_ids(segs, pieces, segs.len())
}

/// Puts an encoding together from its parts: the optional
/// beginning-of-sequence id, the segments of the prompt, and for each text
/// segment what the tokenizer gave it (`pieces[i]` is read only where
/// segment `i` is text).
pub fn assemble_ids(bos: Option<u32>, segs: &Vec<PromptSegment>, pieces: &Vec<Option<Vec<u32>>>) -> (r: Vec<u32>)
    requires
        pieces@.len() == segs@.len(),
    ensures
        r@ == assembled_ids(bos, segs@.map_values(|s: PromptSegment| segment_view(s)), pieces@.map_values(|o: Option<Vec<u32>>| opt_ids(o))),
{
    let ghost sv = segs@.map_values(|s: PromptSegment| segment_view(s));
    let ghost pv = pieces@.map_values(|o: Option<Vec<u32>>| opt_ids(o));
    let mut out: Vec<u32> = Vec::new();
    match bos {
        Some(b) => { out.push(b); },
        None => {},
    }
    let ghost head = out@;
    let mut i: usize = 0;
    while i < segs.len()
        invariant
            i <= segs@.len(),
            pieces@.len() == segs@.len(),
            sv == segs@.map_values(|s: PromptSegment| segment_view(s)),
            pv == pieces@.map_values(|o: Option<Vec<u32>>| opt_ids(o)),
            head == (match bos { Some(b) => seq![b], None => Seq::<u32>::empty() }),
            out@ == head + segment_ids(sv, pv, i as nat),
        decreases segs@.len() - i,
    {
        let ghost before = out@;
        match &segs[i] {
            PromptSegment::Text(_) => {
                match &pieces[i] {
                    Some(ids) => {
                        let mut j: usize = 0;
                        while j < ids.len()
                            invariant
                                j <= ids@.len(),
                                out@ == before + ids@.take(j as int),
                            decreases ids@.len() - j,
                        {
                            out.push(ids[j]);
                            j = j + 1;
                            assert(out@ =~= before + ids@.take(j as int));
                        }
                        assert(ids@.take(ids@.len() as int) =~= ids@);
                        assert(pv[i as int] == Some(ids@));
                    },
                    None => {
                        assert(pv[i as int] is None);
                    },
                }
            },
            PromptSegment::Special(id) => {
                out.push(*id);
            },
        }
        assert(sv[i as int] == segment_view(segs@[i as int]));
        i = i + 1;
        assert(out@ =~= head + segment_ids(sv, pv, i as nat));
    }
    out
}

/// An added token as (its `content` string, if any; whether it has an `id`).
pub open spec fn added_view(e: (Option<String>, bool)) -> (Option<Seq<char>>, bool) {
    (match e.0 { Some(c) => Some(c@), None => None }, e.1)
}

/// The added tokens as (content, has id).
pub open spec fn added_seq(added: Seq<(Option<String>, bool)>) -> Seq<(Option<Seq<char>>, bool)> {
    added.map_values(|e: (Option<String>, bool)| added_view(e))
}

/// The vocabulary's words.
pub open spec fn words_seq(vocab: Seq<String>) -> Seq<Seq<char>> {
    vocab.map_values(|w: String| w@)
}

/// Added token `i` goes into the vocabulary: it has a content string and an
/// id, the vocabulary lacks the content, and no earlier added token with an
/// id has the same content.
pub open spec fn is_vocab_pick(added: Seq<(Option<Seq<char>>, bool)>, vocab: Seq<Seq<char>>, i: int) -> bool {
    &&& 0 <= i < added.len()
    &&& added[i].1
    &&& added[i].0 matches Some(c) && !vocab.contains(c)
    &&& forall|j: int| 0 <= j < i ==> !((#[trigger] added[j]).1 && added[j].0 == added[i].0)
}

/// The indices among the first `n` added tokens that go into the
/// vocabulary, in increasing order.
pub open spec fn pick_list(added: Seq<(Option<Seq<char>>, bool)>, vocab: Seq<Seq<char>>, n: nat) -> Seq<usize>
    decreases n,
{
    if n == 0 {
        Seq::empty()
    } else {
        let prev = pick_list(added, vocab, (n - 1) as nat);
        if is_vocab_pick(added, vocab, n - 1) { prev.push((n - 1) as usize) } else { prev }
    }
}

/// The indices of the added tokens to put into the vocabulary, in order:
/// each one with a content string and an id whose content neither the
/// vocabulary nor an earlier such token has.
pub fn vocab_additions(added: &Vec<(Option<String>, bool)>, vocab: &Vec<String>) -> (r: Vec<usize>)
    ensures
        forall|i: int, j: int| 0 <= i < j < r@.len() ==> r@[i] < r@[j],
        forall|k: int| 0 <= k < r@.len() ==> is_vocab_pick(added_seq(added@), words_seq(vocab@), #[trigger] r@[k] as int),
        forall|i: int| #[trigger] is_vocab_pick(added_seq(added@), words_seq(vocab@), i) ==> r@.contains(i as usize),
        r@ == pick_list(added_seq(added@), words_seq(vocab@), added@.len()),
{
    let ghost av = added_seq(added@);
    let ghost vv = words_seq(vocab@);
    let mut r: Vec<usize> = Vec::new();
    let mut i: usize = 0;
    while i < added.len()
        invariant
            i <= added@.len(),
            av == added@.map_values(|e: (Option<String>, bool)| added_view(e)),
            vv == vocab@.map_values(|w: String| w@),
            forall|a: int, b: int| 0 <= a < b < r@.len() ==> r@[a] < r@[b],
            forall|k: int| 0 <= k < r@.len() ==> r@[k] < i && is_vocab_pick(av, vv, #[trigger] r@[k] as int),
            forall|x: int| 0 <= x < i && #[trigger] is_vocab_pick(av, vv, x) ==> r@.contains(x as usize),
            r@ == pick_list(av, vv, i as nat),
        decreases added@.len() - i,
    {
        let pick = match &added[i] {
            (Some(c), true) => {
                let mut known = false;
                let mut w: usize = 0;
                while w < vocab.len()
                    invariant
                        w <= vocab@.len(),
                        vv == vocab@.map_values(|w: String| w@),
                        known == exists|q: int| 0 <= q < w && vv[q] == c@,
                    decreases vocab@.len() - w,
                {
                    if vocab[w] == *c {
                        known = true;
                    }
                    proof {
                        if vv[w as int] == c@ {
                            assert(exists|q: int| 0 <= q < w + 1 && vv[q] == c@);
                        }
                    }
                    w = w + 1;
                }
                let mut earlier = false;
                let mut j: usize = 0;
                while j < i
                    invariant
                        j <= i,
                        i < added@.len(),
                        av == added@.map_values(|e: (Option<String>, bool)| added_view(e)),
                        av[i as int].0 == Some(c@),
                        earlier == exists|q: int| 0 <= q < j && (#[trigger] av[q]).1 && av[q].0 == av[i as int].0,
                    decreases i - j,
                {
                    match &added[j] {
                        (Some(d), true) => {
                            if *d == *c {
                                earlier = true;
                            }
                        },
                        _ => {},
                    }
                    proof {
                        assert(av[j as int] == added_view(added@[j as int]));
                        if av[j as int].1 && av[j as int].0 == av[i as int].0 {
                            assert(exists|q: int| 0 <= q < j + 1 && (#[trigger] av[q]).1 && av[q].0 == av[i as int].0);
                        }
                    }
                    j = j + 1;
                }
                proof {
                    if !known {
                        assert forall|q: int| 0 <= q < vv.len() implies vv[q] != c@ by {};
                        assert(!vv.contains(c@));
                    } else {
                        assert(vv.contains(c@));
                    }
                }
                !known && !earlier
            },
            _ => false,
        };
        assert(av[i as int] == added_view(added@[i as int]));
        assert(pick == is_vocab_pick(av, vv, i as int));
        let ghost r0 = r@;
        if pick {
            r.push(i);
        }
        proof {
            assert forall|x: int| 0 <= x < i + 1 && #[trigger] is_vocab_pick(av, vv, x) implies r@.contains(x as usize) by {
                if x == i {
                    assert(r@[r@.len() - 1] == i);
                } else {
                    assert(r0.contains(x as usize));
                    let k = choose|k: int| 0 <= k < r0.len() && r0[k] == x as usize;
                    assert(r@[k] == r0[k]);
                }
            };
        }
        i = i + 1;
    }
    r
}

/// A definition with the picked added tokens put into its vocabulary, one
/// after the other.
pub open spec fn with_vocab_tokens(v: serde_json::Value, picks: Seq<usize>) -> serde_json::Value
    decreases picks.len(),
{
    if picks.len() == 0 {
        v
    } else {
        with_vocab_token(with_vocab_tokens(v, picks.drop_last()), picks.last())
    }
}

/// The added tokens of a definition that go into its vocabulary (see
/// [`is_vocab_pick`]); none when it lacks `added_tokens` or `model.vocab`.
pub open spec fn definition_picks(v: serde_json::Value) -> Seq<usize> {
    match (json_added_tokens(v), json_vocab_keys(v)) {
        (Some(a), Some(k)) => pick_list(a, k, a.len()),
        _ => Seq::empty(),
    }
}

/// The repaired definition: the parsed one with exactly its picked added
/// tokens put into its vocabulary, as JSON text.
pub open spec fn repaired_definition(v: serde_json::Value) -> Seq<u8> {
    json_text(with_vocab_tokens(v, definition_picks(v)))
}

/// The tokenizer read from a JSON definition after its repair, or the
/// error: the JSON reader's, prefixed `Failed to parse JSON: `, or the
/// tokenizer's, prefixed `Failed to parse fixed tokenizer.json: `.
pub open spec fn tokenizer_from_json(doc: Seq<u8>) -> Result<Tokenizer, Seq<char>> {
    match json_read(doc) {
        Err(e) => Err("Failed to parse JSON: "@ + e),
        Ok(v) => match tokenizer_from(repaired_definition(v)) {
            Ok(t) => Ok(t),
            Err(e) => Err("Failed to parse fixed tokenizer.json: "@ + e),
        },
    }
}

/// The beginning-of-sequence id that an encoding starts with: the id of
/// `<s>` when it is asked for, the prompt does not start with `<s>` and the
/// tokenizer has that token; else none.
pub open spec fn bos_id(t: Tokenizer, prompt: Seq<char>, add_special_tokens: bool) -> Option<u32> {
    if add_special_tokens && !has_prefix(prompt, "<s>"@) && token_ids(t).contains_key("<s>"@) {
        Some(token_ids(t)["<s>"@])
    } else {
        None
    }
}

/// The segments of a prompt over the special tokens that the tokenizer has.
pub open spec fn prompt_segments(t: Tokenizer, prompt: Seq<char>) -> Seq<(bool, Seq<char>, u32)> {
    segments(prompt, 0, specials_in(token_ids(t), special_token_names()))
}

/// One piece per segment, and each text segment's piece is an encoding that
/// the tokenizer may give its text.
pub open spec fn pieces_encoded(t: Tokenizer, segs: Seq<(bool, Seq<char>, u32)>, pieces: Seq<Option<Seq<u32>>>) -> bool {
    &&& pieces.len() == segs.len()
    &&& forall|j: int| 0 <= j < segs.len() && (#[trigger] segs[j]).0 ==> plain_encoding_of(t, segs[j].1, pieces[j])
}

/// `pre` begins `s`.
pub open spec fn has_prefix(s: Seq<char>, pre: Seq<char>) -> bool {
    pre.len() <= s.len() && s.subrange(0, pre.len() as int) == pre
}

/// The tokens among `names` that the token-to-id table `ids` has (and that
/// are not empty), with their ids, in the order of `names`.
pub open spec fn specials_in(ids: Map<Seq<char>, u32>, names: Seq<Seq<char>>) -> Seq<(Seq<char>, u32)>
    decreases names.len(),
{
    if names.len() == 0 {
        Seq::empty()
    } else {
        let prev = specials_in(ids, names.drop_last());
        let n = names.last();
        if n.len() > 0 && ids.contains_key(n) { prev.push((n, ids[n])) } else { prev }
    }
}

/// A tokenizer with the prompt conventions of the engine.
pub struct BramhaTokenizer {
    tokenizer: Tokenizer,
}

/// `s` contains `pat` somewhere.
pub open spec fn contains_seq(s: Seq<char>, pat: Seq<char>) -> bool {
    exists|pos: int| occurs_at(s, pos, pat)
}

/// Whether `s` contains `pat`.
pub fn str_contains(s: &str, pat: &str) -> (b: bool)
    ensures
        b == contains_seq(s@, pat@),
{
    let sv = chars_of(s);
    let pv = chars_of(pat);
    if pv.len() == 0 {
        assert(occurs_at(s@, 0, pat@)) by {
            assert(s@.subrange(0, 0) =~= pat@);
        };
        return true;
    }
    match find_from(&sv, 0, &pv) {
        Some(_) => true,
        None => {
            assert forall|pos: int| !occurs_at(s@, pos, pat@) by {
                if pos < 0 {} else {}
            };
            false
        },
    }
}

fn starts_with(s: &str, prefix: &str) -> (b: bool)
    ensures
        b == (prefix@.len() <= s@.len() && s@.subrange(0, prefix@.len() as int) == prefix@),
{
    let n = s.unicode_len();
    let m = prefix.unicode_len();
    if m > n {
        return false;
    }
    let head = s.substring_char(0, m);
    str_eq(head, prefix)
}

/// The prompt that the engine uses when a model has no chat template: a
/// TinyLlama-style system/user/assistant frame for TinyLlama models, a
/// ChatML frame for other Llama or Qwen models (unless the prompt already
/// carries the frame's markers), else the prompt itself.
pub open spec fn spec_fallback_prompt(model_lower: Seq<char>, prompt: Seq<char>) -> Seq<char> {
    if !contains_seq(prompt, "<|system|>"@) && !contains_seq(prompt, "<|user|>"@) && contains_seq(model_lower, "tinyllama"@) {
        "<|system|>\nYou are a helpful AI assistant.</s>\n<|user|>\n"@ + prompt + "</s>\n<|assistant|>\n"@
    } else if !contains_seq(prompt, "<|im_start|>"@) && (contains_seq(model_lower, "llama"@) || contains_seq(model_lower, "qwen"@)) {
        "<|im_start|>system\nYou are a helpful AI assistant.<|im_end|>\n<|im_start|>user\n"@ + prompt + "<|im_end|>\n<|im_start|>assistant\n"@
    } else {
        prompt
    }
}

/// The TinyLlama chat frame around a prompt.
pub open spec fn tinyllama_frame(prompt: Seq<char>) -> Seq<char> {
    "<|system|>\nYou are a helpful AI assistant.</s>\n<|user|>\n"@ + prompt + "</s>\n<|assistant|>\n"@
}

/// The ChatML frame around a prompt.
pub open spec fn chatml_frame(prompt: Seq<char>) -> Seq<char> {
    "<|im_start|>system\nYou are a helpful AI assistant.<|im_end|>\n<|im_start|>user\n"@ + prompt + "<|im_end|>\n<|im_start|>assistant\n"@
}

/// A name that contains `tinyllama` contains `llama`.
proof fn lemma_tinyllama_is_llama(s: Seq<char>)
    ensures
        contains_seq(s, "tinyllama"@) ==> contains_seq(s, "llama"@),
{
    if contains_seq(s, "tinyllama"@) {
        reveal_strlit("tinyllama");
        reveal_strlit("llama");
        let pos = choose|pos: int| occurs_at(s, pos, "tinyllama"@);
        assert(s.subrange(pos + 4, pos + 9) =~= "tinyllama"@.subrange(4, 9));
        assert("tinyllama"@.subrange(4, 9) =~= "llama"@);
        assert(occurs_at(s, pos + 4, "llama"@));
    }
}

/// Law: the fallback chat prompt. A Llama or Qwen model (by its lowercased
/// name) gets its prompt wrapped in a chat frame unless the prompt already
/// carries frame markers: the TinyLlama frame for a TinyLlama model whose
/// prompt has no `<|system|>` or `<|user|>`, else the ChatML frame when the
/// prompt has no `<|im_start|>`. Any other model gets its prompt unchanged.
/// A framed prompt is longer than the prompt.
pub proof fn lemma_fallback_prompt(model_lower: Seq<char>, prompt: Seq<char>)
    ensures
        contains_seq(model_lower, "tinyllama"@) && !contains_seq(prompt, "<|system|>"@) && !contains_seq(prompt, "<|user|>"@)
            ==> spec_fallback_prompt(model_lower, prompt) == tinyllama_frame(prompt),
        contains_seq(model_lower, "tinyllama"@) && (contains_seq(prompt, "<|system|>"@) || contains_seq(prompt, "<|user|>"@))
            && !contains_seq(prompt, "<|im_start|>"@)
            ==> spec_fallback_prompt(model_lower, prompt) == chatml_frame(prompt),
        (contains_seq(model_lower, "llama"@) || contains_seq(model_lower, "qwen"@)) && !contains_seq(model_lower, "tinyllama"@)
            && !contains_seq(prompt, "<|im_start|>"@)
            ==> spec_fallback_prompt(model_lower, prompt) == chatml_frame(prompt),
        !contains_seq(model_lower, "llama"@) && !contains_seq(model_lower, "qwen"@)
            ==> spec_fallback_prompt(model_lower, prompt) == prompt,
        (contains_seq(model_lower, "llama"@) || contains_seq(model_lower, "qwen"@))
            && !contains_seq(prompt, "<|system|>"@) && !contains_seq(prompt, "<|user|>"@) && !contains_seq(prompt, "<|im_start|>"@)
            ==> spec_fallback_prompt(model_lower, prompt).len() > prompt.len(),
        spec_fallback_prompt(model_lower, prompt) == prompt
            || spec_fallback_prompt(model_lower, prompt) == tinyllama_frame(prompt)
            || spec_fallback_prompt(model_lower, prompt) == chatml_frame(prompt),
{
    lemma_tinyllama_is_llama(model_lower);
    reveal_strlit("<|system|>\nYou are a helpful AI assistant.</s>\n<|user|>\n");
    reveal_strlit("<|im_start|>system\nYou are a helpful AI assistant.<|im_end|>\n<|im_start|>user\n");
}

impl BramhaTokenizer {
    /// A tokenizer read from the JSON text of its definition, after each
    /// added token that the vocabulary lacks has been put into it (see
    /// [`vocab_additions`]), so that special tokens have ids. Errors are the
    /// JSON parser's (prefixed `Failed to parse JSON: `), the serializer's,
    /// and the tokenizer's (prefixed `Failed to parse fixed tokenizer.json: `).
    pub fn from_json_bytes(doc: &[u8]) -> (r: Result<Self, String>)
        ensures
            match r {
                Ok(t) => tokenizer_from_json(doc@) == Ok::<Tokenizer, Seq<char>>(t.model()),
                Err(msg) => tokenizer_from_json(doc@) == Err::<Tokenizer, Seq<char>>(msg@),
            },
    {
        let mut v = match json_parse(doc) {
            Ok(v) => v,
            Err(e) => {
                let mut msg = to_string("Failed to parse JSON: ");
                msg.append(e.as_str());
                return Err(msg);
            },
        };
        let ghost v0 = v;
        let (added, vocab) = tokenizer_json_parts(&v);
        match (added, vocab) {
            (Some(a), Some(voc)) => {
                let picks = vocab_additions(&a, &voc);
                assert(picks@ == definition_picks(v0));
                let mut k: usize = 0;
                while k < picks.len()
                    invariant
                        k <= picks@.len(),
                        v == with_vocab_tokens(v0, picks@.take(k as int)),
                    decreases picks@.len() - k,
                {
                    assert(picks@.take(k + 1).drop_last() =~= picks@.take(k as int));
                    add_token_to_vocab(&mut v, picks[k]);
                    k = k + 1;
                }
                assert(picks@.take(picks@.len() as int) =~= picks@);
            },
            _ => {
                assert(definition_picks(v0) =~= Seq::<usize>::empty());
            },
        }
        assert(v == with_vocab_tokens(v0, definition_picks(v0)));
        let raw = match json_to_vec(&v) {
            Ok(raw) => raw,
            Err(e) => { return Err(e); },
        };
        match tokenizer_from_bytes(raw.as_slice()) {
            Ok(t) => Ok(BramhaTokenizer { tokenizer: t }),
            Err(e) => {
                let mut msg = to_string("Failed to parse fixed tokenizer.json: ");
                msg.append(e.as_str());
                Err(msg)
            },
        }
    }

    /// The special tokens of [`special_token_names`] that the vocabulary
    /// has, with their ids, in that order.
    fn available_specials(&self) -> (r: Vec<(String, u32)>)
        ensures
            r@.map_values(|e: (String, u32)| (e.0@, e.1)) == specials_in(token_ids(self.model()), special_token_names()),
            specials_nonempty(r@.map_values(|e: (String, u32)| (e.0@, e.1))),
            forall|k: int| 0 <= k < r@.len() ==> special_token_names().contains(#[trigger] r@[k].0@),
    {
        let names: [&str; 15] = [
            "<|system|>", "<|user|>", "<|assistant|>", "</s>", "<s>",
            "<|start_header_id|>", "<|end_header_id|>", "<|eot_id|>", "[INST]", "[/INST]",
            "<<SYS>>", "<</SYS>>", "<|begin_of_text|>", "<|im_start|>", "<|im_end|>",
        ];
        let mut r: Vec<(String, u32)> = Vec::new();
        let mut i: usize = 0;
        while i < 15
            invariant
                i <= 15,
                specials_nonempty(r@.map_values(|e: (String, u32)| (e.0@, e.1))),
                forall|k: int| 0 <= k < r@.len() ==> special_token_names().contains(#[trigger] r@[k].0@),
                forall|j: int| 0 <= j < 15 ==> (#[trigger] names@[j])@ == special_token_names()[j],
                r@.map_values(|e: (String, u32)| (e.0@, e.1))
                    == specials_in(token_ids(self.model()), special_token_names().take(i as int)),
            decreases 15 - i,
        {
            let name = names[i];
            proof {
                let t = special_token_names().take(i + 1);
                assert(t.drop_last() =~= special_token_names().take(i as int));
                assert(t.last() == name@);
            }
            assert(special_token_names().contains(name@)) by {
                assert(special_token_names()[i as int] == name@);
            };
            if name.unicode_len() > 0 {
                if let Some(id) = token_id(&self.tokenizer, name) {
                    let ghost before = r@.map_values(|e: (String, u32)| (e.0@, e.1));
                    r.push((to_string(name), id));
                    assert(r@.map_values(|e: (String, u32)| (e.0@, e.1)) =~= before.push((name@, id)));
                }
            }
            i = i + 1;
        }
        assert(special_token_names().take(15) =~= special_token_names());
        r
    }

    /// Encodes a prompt: the beginning-of-sequence id first when asked for
    /// and the prompt does not start with `<s>` (and the vocabulary has it);
    /// then, per [`segment_prompt`] over the special tokens the vocabulary
    /// has, each special token's id and the tokenizer's ids of each text
    /// piece (a piece the tokenizer fails on contributes nothing).
    pub fn encode(&self, prompt: &str, add_special_tokens: bool) -> (r: Result<Vec<u32>, String>)
        ensures
            r matches Ok(ids) && exists|pieces: Seq<Option<Seq<u32>>>|
                #![trigger assembled_ids(bos_id(self.model(), prompt@, add_special_tokens), prompt_segments(self.model(), prompt@), pieces)]
                pieces_encoded(self.model(), prompt_segments(self.model(), prompt@), pieces)
                && ids@ == assembled_ids(bos_id(self.model(), prompt@, add_special_tokens), prompt_segments(self.model(), prompt@), pieces),
    {
        let mut bos: Option<u32> = None;
        if add_special_tokens && !starts_with(prompt, "<s>") {
            bos = token_id(&self.tokenizer, "<s>");
        }
        assert(bos == bos_id(self.model(), prompt@, add_special_tokens));
        let specials = self.available_specials();
        let segs = segment_prompt(prompt, &specials);
        let ghost sv = segs@.map_values(|x: PromptSegment| segment_view(x));
        assert(sv == prompt_segments(self.model(), prompt@));
        let mut pieces: Vec<Option<Vec<u32>>> = Vec::new();
        let mut i: usize = 0;
        while i < segs.len()
            invariant
                i <= segs@.len(),
                pieces@.len() == i,
                sv == segs@.map_values(|x: PromptSegment| segment_view(x)),
                forall|j: int| 0 <= j < i && (#[trigger] sv[j]).0
                    ==> plain_encoding_of(self.model(), sv[j].1, opt_ids(pieces@[j])),
            decreases segs@.len() - i,
        {
            let ghost before = pieces@;
            match &segs[i] {
                PromptSegment::Text(t) => {
                    pieces.push(encode_plain(&self.tokenizer, t.as_str()));
                },
                PromptSegment::Special(_) => {
                    pieces.push(None);
                },
            }
            proof {
                assert(sv[i as int] == segment_view(segs@[i as int]));
                assert forall|j: int| 0 <= j < i + 1 && (#[trigger] sv[j]).0
                    implies plain_encoding_of(self.model(), sv[j].1, opt_ids(pieces@[j])) by {
                    if j < i {
                        assert(pieces@[j] == before[j]);
                    }
                };
            }
            i = i + 1;
        }
        let ids = assemble_ids(bos, &segs, &pieces);
        let ghost pv = pieces@.map_values(|o: Option<Vec<u32>>| opt_ids(o));
        proof {
            assert forall|j: int| 0 <= j < sv.len() && (#[trigger] sv[j]).0
                implies plain_encoding_of(self.model(), sv[j].1, pv[j]) by {
                assert(pv[j] == opt_ids(pieces@[j]));
            };
            assert(pieces_encoded(self.model(), sv, pv));
        }
        assert(assembled_ids(bos, sv, pv) == ids@);
        Ok(ids)
    }

    /// Decodes ids back to text, prefixing a tokenizer failure with
    /// `Tokenization decoding error: `.
    pub fn decode(&self, ids: &[u32], skip_special_tokens: bool) -> (r: Result<String, String>)
        ensures
            match r {
                Ok(text) => decoded(self.model(), ids@, skip_special_tokens) == Ok::<Seq<char>, Seq<char>>(text@),
                Err(msg) => decoded(self.model(), ids@, skip_special_tokens) matches Err(e)
                    && msg@ == "Tokenization decoding error: "@ + e,
            },
    {
        match decode_ids(&self.tokenizer, ids, skip_special_tokens) {
            Ok(s) => Ok(s),
            Err(e) => {
                let mut msg = to_string("Tokenization decoding error: ");
                msg.append(e.as_str());
                Err(msg)
            },
        }
    }

    /// The tokenizer that this one wraps.
    pub closed spec fn model(&self) -> Tokenizer {
        self.tokenizer
    }

    /// The underlying tokenizer.
    pub fn inner(&self) -> (t: &Tokenizer)
        ensures
            *t == self.model(),
    {
        &self.tokenizer
    }

    /// The chat prompt for a model without a chat template.
    pub fn fallback_chat_prompt(model_name: &str, prompt: &str) -> (r: String)
        ensures
            r@ == spec_fallback_prompt(lowercase(model_name@), prompt@),
    {
        let lower = to_lowercase(model_name);
        fallback_prompt_lowered(lower.as_str(), prompt)
    }

    /// The chat prompt of `prompt` for `model_name`, given the bytes of the
    /// model's `tokenizer_config.json` when they could be read: its
    /// `chat_template` rendered with a system message, the user's prompt, a
    /// generation prompt and the configured `bos_token` / `eos_token` (empty
    /// when absent); the fallback prompt when there is no template or it does
    /// not render.
    pub fn apply_chat_template_to(model_name: &str, config: Option<&[u8]>, prompt: &str) -> (r: String)
        ensures
            r@ == spec_chat_prompt(lowercase(model_name@), (match config { Some(c) => Some(c@), None => None }), prompt@),
    {
        let rendered = match config {
            Some(doc) => render_config_template(doc, prompt),
            None => None,
        };
        let lower = to_lowercase(model_name);
        chat_prompt_or_fallback(lower.as_str(), rendered, prompt)
    }
}

/// The system message that the engine puts before every user prompt.
pub open spec fn system_message() -> Seq<char> {
    "You are a helpful AI assistant."@
}

/// The messages of a chat with one user prompt: the system message, then the
/// prompt.
pub open spec fn chat_messages(prompt: Seq<char>) -> Seq<(Seq<char>, Seq<char>)> {
    seq![("system"@, system_message()), ("user"@, prompt)]
}

/// The chat template of a configuration document rendered for `prompt`.
pub open spec fn spec_rendered(doc: Seq<u8>, prompt: Seq<char>) -> Option<Seq<char>> {
    match json_string_field(doc, "chat_template"@) {
        Some(t) => rendered_chat(
            t,
            chat_messages(prompt),
            true,
            match json_string_field(doc, "bos_token"@) { Some(b) => b, None => Seq::empty() },
            match json_string_field(doc, "eos_token"@) { Some(e) => e, None => Seq::empty() },
        ),
        None => None,
    }
}

/// The chat prompt: the rendered template when the configuration has one
/// that renders, else the fallback prompt.
pub open spec fn spec_chat_prompt(model_lower: Seq<char>, config: Option<Seq<u8>>, prompt: Seq<char>) -> Seq<char> {
    let rendered = match config {
        Some(doc) => spec_rendered(doc, prompt),
        None => None,
    };
    match rendered {
        Some(r) => r,
        None => spec_fallback_prompt(model_lower, prompt),
    }
}

/// The string under `key` in the JSON object that `doc` holds; `None` when
/// `doc` is no JSON object or the key is missing or holds no string.
pub uninterp spec fn json_string_field(doc: Seq<u8>, key: Seq<char>) -> Option<Seq<char>>;

/// `serde_json::from_slice` into a `serde_json::Value`, then the string under
/// `key` when the value is an object (`serde_json::Map::get`): the result is
/// [`json_string_field`] of the arguments.
#[verifier::external_body]
fn json_string(doc: &[u8], key: &str) -> (r: Option<String>)
    ensures
        match r {
            Some(v) => json_string_field(doc@, key@) == Some(v@),
            None => json_string_field(doc@, key@) is None,
        },
{
    match serde_json::from_slice::<serde_json::Value>(doc) {
        Ok(serde_json::Value::Object(m)) => match m.get(key) {
            Some(serde_json::Value::String(v)) => Some(v.clone()),
            _ => None,
        },
        _ => None,
    }
}

/// What a Jinja chat template renders to, given the chat messages as
/// (role, content) pairs, whether a generation prompt is asked for, and the
/// beginning/end-of-sequence tokens; `None` when the template does not parse
/// or fails while rendering.
pub uninterp spec fn rendered_chat(template: Seq<char>, messages: Seq<(Seq<char>, Seq<char>)>, add_generation_prompt: bool, bos: Seq<char>, eos: Seq<char>) -> Option<Seq<char>>;

/// `minijinja::Environment::template_from_str` and `Template::render`, with a
/// context of `messages` (maps of `role` and `content`),
/// `add_generation_prompt`, `bos_token` and `eos_token`: the result is
/// [`rendered_chat`] of the arguments. A template that calls a function the
/// default environment lacks (such as `raise_exception`) fails to render.
#[verifier::external_body]
fn render_chat(template: &str, messages: &Vec<(String, String)>, add_generation_prompt: bool, bos: &str, eos: &str) -> (r: Option<String>)
    ensures
        match r {
            Some(v) => rendered_chat(template@, messages@.map_values(|m: (String, String)| (m.0@, m.1@)), add_generation_prompt, bos@, eos@) == Some(v@),
            None => rendered_chat(template@, messages@.map_values(|m: (String, String)| (m.0@, m.1@)), add_generation_prompt, bos@, eos@) is None,
        },
{
    let env = minijinja::Environment::new();
    let msgs: Vec<minijinja::Value> = messages.iter().map(|(role, content)| minijinja::Value::from_iter([("role", role.as_str()), ("content", content.as_str())])).collect();
    let ctx = minijinja::Value::from_iter([
        ("messages", minijinja::Value::from(msgs)),
        ("add_generation_prompt", minijinja::Value::from(add_generation_prompt)),
        ("bos_token", minijinja::Value::from(bos)),
        ("eos_token", minijinja::Value::from(eos)),
    ]);
    match env.template_from_str(template) {
        Ok(t) => t.render(ctx).ok(),
        Err(_) => None,
    }
}

/// The chat template of a configuration document rendered for `prompt`, if
/// it has one that renders.
fn render_config_template(doc: &[u8], prompt: &str) -> (r: Option<String>)
    ensures
        match r {
            Some(v) => spec_rendered(doc@, prompt@) == Some(v@),
            None => spec_rendered(doc@, prompt@) is None,
        },
{
    match json_string(doc, "chat_template") {
        Some(t) => {
            let bos = match json_string(doc, "bos_token") {
                Some(b) => b,
                None => String::new(),
            };
            let eos = match json_string(doc, "eos_token") {
                Some(e) => e,
                None => String::new(),
            };
            let mut messages: Vec<(String, String)> = Vec::new();
            messages.push((to_string("system"), to_string("You are a helpful AI assistant.")));
            messages.push((to_string("user"), to_string(prompt)));
            proof {
                reveal_strlit("system");
                reveal_strlit("user");
                reveal_strlit("You are a helpful AI assistant.");
                assert(messages@.map_values(|m: (String, String)| (m.0@, m.1@)) =~= chat_messages(prompt@));
            }
            render_chat(t.as_str(), &messages, true, bos.as_str(), eos.as_str())
        },
        None => None,
    }
}

/// The chat prompt, given what the template rendered to: that text when it
/// rendered, else the fallback prompt for the lowercased model name.
pub fn chat_prompt_or_fallback(model_lower: &str, rendered: Option<String>, prompt: &str) -> (r: String)
    ensures
        r@ == (match rendered { Some(v) => v@, None => spec_fallback_prompt(model_lower@, prompt@) }),
{
    match rendered {
        Some(v) => v,
        None => fallback_prompt_lowered(model_lower, prompt),
    }
}

/// The fallback chat prompt, given the lowercased model name.
pub fn fallback_prompt_lowered(model_lower: &str, prompt: &str) -> (r: String)
    ensures
        r@ == spec_fallback_prompt(model_lower@, prompt@),
{
    if !str_contains(prompt, "<|system|>") && !str_contains(prompt, "<|user|>")
        && str_contains(model_lower, "tinyllama") {
        let mut s = to_string("<|system|>\nYou are a helpful AI assistant.</s>\n<|user|>\n");
        s.append(prompt);
        s.append("</s>\n<|assistant|>\n");
        s
    } else if !str_contains(prompt, "<|im_start|>")
        && (str_contains(model_lower, "llama") || str_contains(model_lower, "qwen")) {
        let mut s = to_string("<|im_start|>system\nYou are a helpful AI assistant.<|im_end|>\n<|im_start|>user\n");
        s.append(prompt);
        s.append("<|im_end|>\n<|im_start|>assistant\n");
        s
    } else {
        to_string(prompt)
    }
}
} // verus!
