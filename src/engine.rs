//! The tokenization engine: the outside `tokenizers` crate and the worker pool.
use crate::table::Encoded;
use tokenizers::Tokenizer;
use vstd::prelude::*;

verus! {

/// A loaded tokenizer, opaque here; it is only read, never changed.
#[verifier::external_type_specification]
#[verifier::external_body]
pub struct ExTokenizer(Tokenizer);

/// Whether a tokenizer definition loads: it is JSON that deserializes into a
/// tokenizer.  This depends on the text alone.
pub uninterp spec fn definition_loads(definition: Seq<char>) -> bool;

/// Relies on `tokenizers::Tokenizer::from_str`, which deserializes a tokenizer
/// definition given as JSON (`serde_json::from_str`); a failure is kept as its
/// message.  Whether it succeeds is named by [`definition_loads`]; nothing more
/// is promised of the loaded tokenizer.
#[verifier::external_body]
pub(crate) fn parse_tokenizer(definition: &str) -> (r: Result<Tokenizer, String>)
    ensures
        r is Ok <==> definition_loads(definition@),
{
    <Tokenizer as std::str::FromStr>::from_str(definition).map_err(|e| e.to_string())
}

/// Relies on `tokenizers::Tokenizer::encode`, copying the ids, tokens and
/// attention mask of the encoding it returns and recording what was encoded;
/// a failure is kept as its message.  Nothing is promised of the tokens: a
/// model with dropout draws at random, and nothing here makes the three
/// sequences agree in length.
#[verifier::external_body]
pub(crate) fn encode_text(tokenizer: &Tokenizer, text: &str, add_special_tokens: bool) -> (r: Result<Encoded, String>)
    ensures
        r is Ok ==> r->Ok_0.source@ == (text@, add_special_tokens),
{
    tokenizer.encode(text, add_special_tokens).map(
        |e| Encoded {
            ids: e.get_ids().to_vec(),
            tokens: e.get_tokens().to_vec(),
            attention_mask: e.get_attention_mask().to_vec(),
            source: Ghost((text@, add_special_tokens)),
        },
    ).map_err(|e| e.to_string())
}

/// Relies on `rayon::current_num_threads`, the size of the current worker pool;
/// nothing is promised of it.
#[verifier::external_body]
pub(crate) fn worker_count() -> (n: usize) {
    rayon::current_num_threads()
}

} // verus!
