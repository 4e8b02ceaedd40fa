//! Tokenizer service: token counting keyed by model name, with alias
//! normalization.  A [`Tokenizer`] wraps one byte-pair encoder; building it
//! fails fast on an unsupported model name, so that counting itself never
//! fails.

use vstd::prelude::*;
use crate::text::{
    ascii_lower, ascii_lower_chars, chars_eq_str, is_ws_char, str_to_chars, trim_chars,
    trim_spec,
};

verus! {

/// Configuration error of the tokenizer service: the (normalized) model
/// name resolves to no known encoder.
#[derive(Clone, Copy, Debug, PartialEq, Eq, Structural)]
pub enum TokenizerError {
    UnsupportedModel,
}

#[verifier::external_type_specification]
#[verifier::external_body]
pub struct ExCoreBPE(tiktoken_rs::CoreBPE);

/// The number of tokens the byte-pair encoder selected by canonical model
/// key `key` produces on `text`.  It depends on the key and the text alone.
pub uninterp spec fn token_count_of(key: Seq<char>, text: Seq<char>) -> nat;

/// Whether an encoder is available for this (normalized) model name.
/// The tokenizer crate resolves names against a static table compiled
/// into it, so availability depends on the name alone.
pub uninterp spec fn has_encoder(key: Seq<char>) -> bool;

/// The canonical model key after alias folding of a trimmed, ASCII
/// case-folded model name; unknown names pass through unchanged.
pub open spec fn normalize_spec(model: Seq<char>) -> Seq<char> {
    let k = ascii_lower(trim_spec(model));
    if k == "gpt-4o"@ || k == "gpt-4"@ || k == "gpt-4-turbo"@ || k == "gpt-4o-mini"@
        || k == "qwen"@ || k == "qwen-max"@ || k == "qwen-plus"@ || k == "qwen-turbo"@
        || k == "qwen-7b"@ || k == "qwen-14b"@ || k == "qwen-72b"@ {
        "gpt-4o"@
    } else if k == "gpt-3.5"@ || k == "gpt-3.5-turbo"@ || k == "chatgpt"@ {
        "gpt-3.5-turbo"@
    } else if k == "text-embedding-3-small"@ || k == "embedding-small"@ {
        "text-embedding-3-small"@
    } else if k == "text-embedding-3-large"@ || k == "embedding-large"@ {
        "text-embedding-3-large"@
    } else if k == "text-embedding-ada-002"@ || k == "ada"@ {
        "text-embedding-ada-002"@
    } else {
        model
    }
}

/// The canonical keys that alias folding can produce, for which an encoder
/// is always available.
pub open spec fn is_canonical_key(key: Seq<char>) -> bool {
    ||| key == "gpt-4o"@
    ||| key == "gpt-3.5-turbo"@
    ||| key == "text-embedding-3-small"@
    ||| key == "text-embedding-3-large"@
    ||| key == "text-embedding-ada-002"@
}

/// Normalize a model name: trim it, fold ASCII case, and map known aliases
/// to one canonical encoder key; unknown names pass through unchanged.
/// ASCII folding selects the same alias as full Unicode lowercasing
/// would: every alias is ASCII, no alias contains a letter some non-ASCII
/// character lowercases to, and unmatched names pass through verbatim.
pub fn normalize_model_name(model: &str) -> (r: String)
    ensures
        r@ == normalize_spec(model@),
{
    let chars = str_to_chars(model);
    let trimmed = trim_chars(&chars);
    let key = ascii_lower_chars(&trimmed);
    if chars_eq_str(&key, "gpt-4o") || chars_eq_str(&key, "gpt-4")
        || chars_eq_str(&key, "gpt-4-turbo") || chars_eq_str(&key, "gpt-4o-mini")
        || chars_eq_str(&key, "qwen") || chars_eq_str(&key, "qwen-max")
        || chars_eq_str(&key, "qwen-plus") || chars_eq_str(&key, "qwen-turbo")
        || chars_eq_str(&key, "qwen-7b") || chars_eq_str(&key, "qwen-14b")
        || chars_eq_str(&key, "qwen-72b") {
        "gpt-4o".to_owned()
    } else if chars_eq_str(&key, "gpt-3.5") || chars_eq_str(&key, "gpt-3.5-turbo")
        || chars_eq_str(&key, "chatgpt") {
        "gpt-3.5-turbo".to_owned()
    } else if chars_eq_str(&key, "text-embedding-3-small")
        || chars_eq_str(&key, "embedding-small") {
        "text-embedding-3-small".to_owned()
    } else if chars_eq_str(&key, "text-embedding-3-large")
        || chars_eq_str(&key, "embedding-large") {
        "text-embedding-3-large".to_owned()
    } else if chars_eq_str(&key, "text-embedding-ada-002") || chars_eq_str(&key, "ada") {
        "text-embedding-ada-002".to_owned()
    } else {
        model.to_owned()
    }
}

/// One byte-pair encoder, bound to the canonical model key it was built
/// for.
pub struct Tokenizer {
    model_key: String,
    bpe: tiktoken_rs::CoreBPE,
}

impl Tokenizer {
    /// The canonical model key this encoder was built for.
    pub closed spec fn key(&self) -> Seq<char> {
        self.model_key@
    }

    /// Relies on `tiktoken_rs::bpe_for_model`: it resolves the name
    /// against a static model table (so success is a function of the name,
    /// here called `has_encoder`), and the table lists every canonical key
    /// that alias folding can produce.
    #[verifier::external_body]
    fn from_key(key: String) -> (r: Result<Tokenizer, TokenizerError>)
        ensures
            r matches Ok(t) ==> t.key() == key@,
            r is Ok <==> has_encoder(key@),
            is_canonical_key(key@) ==> r is Ok,
    {
        match tiktoken_rs::bpe_for_model(key.as_str()) {
            Ok(bpe) => Ok(Tokenizer { bpe: bpe.clone(), model_key: key }),
            Err(_) => Err(TokenizerError::UnsupportedModel),
        }
    }

    /// Build the encoder for a model name, normalizing aliases first.
    /// Succeeds exactly when the normalized name has an encoder, which
    /// every canonical alias target does.
    pub fn for_model(model: &str) -> (r: Result<Tokenizer, TokenizerError>)
        ensures
            r matches Ok(t) ==> t.key() == normalize_spec(model@),
            r is Ok <==> has_encoder(normalize_spec(model@)),
            is_canonical_key(normalize_spec(model@)) ==> r is Ok,
    {
        Tokenizer::from_key(normalize_model_name(model))
    }

    /// Relies on `CoreBPE::encode_with_special_tokens`: the token sequence
    /// it produces depends on the encoder's model and the text alone, and
    /// empty text encodes to no tokens.
    #[verifier::external_body]
    pub fn count(&self, text: &str) -> (r: usize)
        ensures
            r as nat == token_count_of(self.key(), text@),
            text@.len() == 0 ==> r == 0,
    {
        self.bpe.encode_with_special_tokens(text).len()
    }
}

/// Count the tokens of `text` under the encoder for `model` (after alias
/// normalization).  Fails exactly when no encoder is available for the
/// normalized name; every canonical alias target is available.  Counts
/// are a pure function of the normalized name and the text, and empty
/// text counts to zero.
pub fn count_tokens(text: &str, model: &str) -> (r: Result<usize, TokenizerError>)
    ensures
        r matches Ok(n) ==> n as nat == token_count_of(normalize_spec(model@), text@),
        text@.len() == 0 && r is Ok ==> (r matches Ok(n) && n == 0),
        r is Ok <==> has_encoder(normalize_spec(model@)),
        is_canonical_key(normalize_spec(model@)) ==> r is Ok,
{
    match Tokenizer::for_model(model) {
        Ok(t) => Ok(t.count(text)),
        Err(e) => Err(e),
    }
}


proof fn lemma_canonical_fixed(c: Seq<char>)
    requires
        is_canonical_key(c),
    ensures
        normalize_spec(c) == c,
{
    reveal_strlit("gpt-4o");
    reveal_strlit("gpt-3.5-turbo");
    reveal_strlit("text-embedding-3-small");
    reveal_strlit("text-embedding-3-large");
    reveal_strlit("text-embedding-ada-002");
    assert(!is_ws_char(c.first()) && !is_ws_char(c.last()));
    assert(trim_spec(c) == c);
    assert(ascii_lower(c) =~= c) by {
        assert forall|i: int| 0 <= i < c.len() implies ascii_lower(c)[i] == c[i] by {
            assert(!('A' <= c[i] && c[i] <= 'Z'));
        }
    }
    reveal_strlit("gpt-4");
    reveal_strlit("gpt-4-turbo");
    reveal_strlit("gpt-4o-mini");
    reveal_strlit("qwen");
    reveal_strlit("qwen-max");
    reveal_strlit("qwen-plus");
    reveal_strlit("qwen-turbo");
    reveal_strlit("qwen-7b");
    reveal_strlit("qwen-14b");
    reveal_strlit("qwen-72b");
    reveal_strlit("gpt-3.5");
    reveal_strlit("chatgpt");
    reveal_strlit("embedding-small");
    reveal_strlit("embedding-large");
    reveal_strlit("ada");
    if c == "gpt-4o"@ {
        assert(normalize_spec(c) == c);
    } else if c == "gpt-3.5-turbo"@ {
        assert(normalize_spec(c) == c);
    } else if c == "text-embedding-3-small"@ {
        assert(normalize_spec(c) == c);
    } else if c == "text-embedding-3-large"@ {
        assert(normalize_spec(c) == c);
    } else {
        assert(c == "text-embedding-ada-002"@);
        assert(normalize_spec(c) == c);
    }
}

/// Alias folding is idempotent: normalizing an already-normalized model
/// name changes nothing.  Hence a count taken under the normalized name
/// agrees with one taken under the name itself, and both are available
/// or unavailable together.
pub proof fn lemma_normalize_idempotent(m: Seq<char>)
    ensures
        normalize_spec(normalize_spec(m)) == normalize_spec(m),
{
    let r = normalize_spec(m);
    if r == m {
    } else {
        assert(is_canonical_key(r));
        lemma_canonical_fixed(r);
    }
}

} // verus!
