//! Chat-template handling for Qwen2-family models.

use vstd::prelude::*;
use crate::conversation::Conversation;
use crate::error::EngineError;

verus! {

/// Construct a "fast" Qwen2 tokenizer front end. Based on byte-level
/// Byte-Pair-Encoding.
///
/// Same with GPT2Tokenizer, this tokenizer has been trained to treat
/// spaces like parts of the tokens so a word will be encoded differently
/// whether it is at the beginning of the sentence (without space) or not.
pub struct Qwen2Tokenizer {
    /// The token that ends generation; also used for padding and for
    /// unknown input.
    pub eos_token: &'static str,
}

impl Qwen2Tokenizer {
    pub fn new() -> (r: Result<Self, EngineError>)
        ensures
            r matches Ok(t) && t.eos_token@ == "<|endoftext|>"@,
    {
        Ok(Qwen2Tokenizer { eos_token: "<|endoftext|>" })
    }

    /// Render the conversation into the prompt string the model sees.
    pub fn apply_chat_template(&self, conversation: &Conversation) -> (r: String)
        ensures
            r@ == conversation.spec_prompt(),
    {
        conversation.build_prompt()
    }
}

} // verus!
