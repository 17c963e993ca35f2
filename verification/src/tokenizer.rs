//! The tokenizer capability: counting tokens with the cl100k_base byte-pair
//! encoding of the tiktoken library.

use vstd::prelude::*;

verus! {

#[verifier::external_type_specification]
#[verifier::external_body]
pub struct ExCoreBPE(tiktoken_rs::CoreBPE);

/// The number of tokens the cl100k_base byte-pair encoding assigns to a text.
/// The encoding is fixed published data, so the count is a function of the
/// text alone.
pub uninterp spec fn cl100k_token_count(text: Seq<char>) -> usize;

/// Counts tokens with the cl100k_base encoding. The one constructor loads
/// exactly that encoding, so every value of this type counts alike.
pub struct Tokenizer {
    bpe: tiktoken_rs::CoreBPE,
}

impl Tokenizer {
    /// Relies on `tiktoken_rs::cl100k_base`: it either loads the cl100k_base
    /// encoding or reports failure; nothing further is assumed of it.
    #[verifier::external_body]
    pub fn new() -> (r: Option<Tokenizer>) {
        match tiktoken_rs::cl100k_base() {
            Ok(bpe) => Some(Tokenizer { bpe }),
            Err(_) => None,
        }
    }

    /// Relies on `CoreBPE::encode_with_special_tokens`: on a cl100k_base
    /// encoder its result depends on the text alone, and the number of
    /// tokens it yields is what `cl100k_token_count` names.
    #[verifier::external_body]
    pub fn count_tokens(&self, text: &str) -> (r: usize)
        ensures
            r == cl100k_token_count(text@),
    {
        self.bpe.encode_with_special_tokens(text).len()
    }
}

} // verus!
