//! Streaming detokenization: turning the growing token history of a
//! sequence into text deltas as soon as they are stable, without
//! waiting for the full decode.
//!
//! The decoding itself is the tokenizer library's; everything around
//! it — the committed window, when a delta may be released, and how the
//! indices move — is verified.

use vstd::prelude::*;
use vstd::string::StringSliceAdditionalSpecFns;
use crate::error::EngineError;

verus! {

/// Declares tokenizers::Tokenizer, the loaded vocabulary and decoding
/// pipeline; the stream carries one and calls it only through the
/// wrappers below.
#[verifier::external_type_specification]
#[verifier::external_body]
pub struct ExTokenizer(tokenizers::Tokenizer);

/// Relies on tokenizers::Tokenizer::decode: turns token ids into text.
/// Which text comes back depends on the tokenizer's vocabulary, so
/// nothing is promised of it; the error is mapped to the library's own.
#[verifier::external_body]
fn decode_ids(tokenizer: &tokenizers::Tokenizer, ids: &Vec<u32>, skip_special: bool)
    -> (r: Result<String, EngineError>)
    ensures
        r matches Err(e) ==> e == EngineError::ModelError,
{
    match tokenizer.decode(ids.as_slice(), skip_special) {
        Ok(s) => Ok(s),
        Err(_) => Err(EngineError::ModelError),
    }
}

/// Relies on tokenizers::Tokenizer::get_vocab: the id of one token
/// string, if the vocabulary has it. What comes back depends on the
/// tokenizer, so nothing is promised of it.
#[verifier::external_body]
fn vocab_lookup(tokenizer: &tokenizers::Tokenizer, token_s: &str) -> (r: Option<u32>)
{
    tokenizer.get_vocab(true).get(token_s).copied()
}

/// Relies on str::chars, which yields the text's characters in order:
/// the last character, when the text is not empty.
#[verifier::external_body]
fn last_char(s: &str) -> (r: Option<char>)
    ensures
        s@.len() == 0 ==> r is None,
        s@.len() > 0 ==> r == Some(s@.last()),
{
    s.chars().last()
}

/// The alphanumeric classification of a character, a fixed property of
/// the character alone.
pub uninterp spec fn char_alphanumeric(c: char) -> bool;

/// Relies on char::is_alphanumeric, which `char_alphanumeric` names.
#[verifier::external_body]
fn is_alphanumeric_char(c: char) -> (r: bool)
    ensures
        r == char_alphanumeric(c),
{
    c.is_alphanumeric()
}

/// The tokens of `v` from `start` to `end`, as their own vector.
fn copy_token_range(v: &Vec<u32>, start: usize, end: usize) -> (r: Vec<u32>)
    requires
        start <= end <= v@.len(),
    ensures
        r@ == v@.subrange(start as int, end as int),
{
    let mut r: Vec<u32> = Vec::new();
    let mut i: usize = start;
    while i < end
        invariant
            start <= i <= end <= v@.len(),
            r@ == v@.subrange(start as int, i as int),
        decreases end - i,
    {
        r.push(v[i]);
        proof {
            assert(r@ =~= v@.subrange(start as int, i + 1));
        }
        i = i + 1;
    }
    r
}

/// The decoded text past the already-released prefix of `prev_len`
/// bytes: the tail a stream still owes its reader. Released exactly
/// when the text has grown past the prefix and the cut falls on a
/// character boundary.
pub fn split_tail<'a>(text: &'a str, prev_len: usize) -> (r: Option<&'a str>)
    ensures
        match r {
            Some(s) => {
                &&& text.spec_bytes().len() > prev_len
                &&& vstd::utf8::is_char_boundary(text.spec_bytes(), prev_len as int)
                &&& s.spec_bytes() == text.spec_bytes().subrange(prev_len as int,
                    text.spec_bytes().len() as int)
                &&& s@.len() > 0
            },
            None => text.spec_bytes().len() <= prev_len
                || !vstd::utf8::is_char_boundary(text.spec_bytes(), prev_len as int),
        },
{
    broadcast use vstd::slice::axiom_spec_len;

    let num_bytes = text.as_bytes().len();
    if num_bytes > prev_len && text.is_char_boundary(prev_len) {
        let (_, delta) = text.split_at(prev_len);
        proof {
            // a suffix with bytes holds at least one character: an empty
            // character sequence encodes to no bytes at all
            if delta@.len() == 0 {
                assert(delta.spec_bytes() =~= Seq::<u8>::empty());
            }
        }
        Some(delta)
    } else {
        None
    }
}

/// The stable part of a freshly decoded text: its tail past `prev_len`
/// bytes, released only when the text ends in an alphanumeric
/// character, so that a partially decoded multi-token word is never
/// split across deltas.
pub fn select_delta<'a>(text: &'a str, prev_len: usize) -> (r: Option<&'a str>)
    ensures
        match r {
            Some(s) => {
                &&& text.spec_bytes().len() > prev_len
                &&& vstd::utf8::is_char_boundary(text.spec_bytes(), prev_len as int)
                &&& s.spec_bytes() == text.spec_bytes().subrange(prev_len as int,
                    text.spec_bytes().len() as int)
                &&& s@.len() > 0
                &&& text@.len() > 0
                &&& char_alphanumeric(text@.last())
            },
            None => true,
        },
        text.spec_bytes().len() <= prev_len ==> r is None,
        !vstd::utf8::is_char_boundary(text.spec_bytes(), prev_len as int) ==> r is None,
        text@.len() == 0 ==> r is None,
        text@.len() > 0 && !char_alphanumeric(text@.last()) ==> r is None,
        text.spec_bytes().len() > prev_len
            && vstd::utf8::is_char_boundary(text.spec_bytes(), prev_len as int)
            && text@.len() > 0
            && char_alphanumeric(text@.last())
            ==> r is Some,
{
    match last_char(text) {
        Some(c) => {
            if is_alphanumeric_char(c) {
                split_tail(text, prev_len)
            } else {
                None
            }
        },
        None => None,
    }
}

/// This is a wrapper around a tokenizer to ensure that tokens can be
/// returned to the user in a streaming way rather than having to wait
/// for the full decoding.
///
/// `tokens[..prev_index]` has been released to the user;
/// `tokens[prev_index..current_index]` is the committed window whose
/// text is already stable; the rest is still in flight.
pub struct TokenOutputStream {
    tokenizer: tokenizers::Tokenizer,
    tokens: Vec<u32>,
    prev_index: usize,
    current_index: usize,
}

impl TokenOutputStream {
    /// The token history so far.
    pub closed spec fn tokens_spec(self) -> Seq<u32> {
        self.tokens@
    }

    /// The tokenizer the stream decodes with.
    pub closed spec fn tokenizer_spec(self) -> tokenizers::Tokenizer {
        self.tokenizer
    }

    /// The indices always cut the history into released, committed and
    /// in-flight parts.
    pub closed spec fn wf(self) -> bool {
        self.prev_index <= self.current_index <= self.tokens@.len()
    }

    pub fn new(tokenizer: tokenizers::Tokenizer) -> (s: Self)
        ensures
            s.wf(),
            s.tokens_spec() == Seq::<u32>::empty(),
            s.tokenizer_spec() == tokenizer,
    {
        TokenOutputStream {
            tokenizer,
            tokens: Vec::new(),
            prev_index: 0,
            current_index: 0,
        }
    }

    /// Give the wrapped tokenizer back, unmodified: the round trip with
    /// the constructor. The accumulated token state is discarded.
    pub fn into_inner(self) -> (t: tokenizers::Tokenizer)
        ensures
            t == self.tokenizer_spec(),
    {
        self.tokenizer
    }

    /// Feed one sampled token and return the stable text delta, if one
    /// can be released: the decoded text must have grown past the
    /// committed window and end in an alphanumeric character (so that a
    /// partial multi-token word is never split). On a decode failure
    /// nothing changes.
    pub fn next_token(&mut self, token: u32) -> (r: Result<Option<String>, EngineError>)
        requires
            old(self).wf(),
        ensures
            final(self).wf(),
            final(self).tokenizer_spec() == old(self).tokenizer_spec(),
            match r {
                Ok(delta) => {
                    &&& final(self).tokens_spec() == old(self).tokens_spec().push(token)
                    &&& (delta matches Some(s) ==> s@.len() > 0)
                },
                Err(e) => {
                    &&& e == EngineError::ModelError
                    &&& *final(self) == *old(self)
                },
            },
    {
        let prev_text: String = if self.tokens.len() == 0 {
            String::new()
        } else {
            let window = copy_token_range(&self.tokens, self.prev_index,
                self.current_index);
            match decode_ids(&self.tokenizer, &window, true) {
                Ok(s) => s,
                Err(e) => {
                    return Err(e);
                },
            }
        };
        let mut suffix = copy_token_range(&self.tokens, self.prev_index,
            self.tokens.len());
        suffix.push(token);
        let text = match decode_ids(&self.tokenizer, &suffix, true) {
            Ok(s) => s,
            Err(e) => {
                return Err(e);
            },
        };
        self.tokens.push(token);
        let prev_len = prev_text.as_str().len();
        match select_delta(text.as_str(), prev_len) {
            Some(delta) => {
                self.prev_index = self.current_index;
                self.current_index = self.tokens.len();
                Ok(Some(delta.to_owned()))
            },
            None => Ok(None),
        }
    }

    /// Decode the text after the committed window: the tail the stream
    /// still owes the user when the sequence finishes, whether or not
    /// it ends in a stable character.
    pub fn decode_rest(&self) -> (r: Result<Option<String>, EngineError>)
        requires
            self.wf(),
        ensures
            r matches Err(e) ==> e == EngineError::ModelError,
            r matches Ok(Some(s)) ==> s@.len() > 0,
    {
        let prev_text: String = if self.tokens.len() == 0 {
            String::new()
        } else {
            let window = copy_token_range(&self.tokens, self.prev_index,
                self.current_index);
            match decode_ids(&self.tokenizer, &window, true) {
                Ok(s) => s,
                Err(e) => {
                    return Err(e);
                },
            }
        };
        let suffix = copy_token_range(&self.tokens, self.prev_index, self.tokens.len());
        let text = match decode_ids(&self.tokenizer, &suffix, true) {
            Ok(s) => s,
            Err(e) => {
                return Err(e);
            },
        };
        let prev_len = prev_text.as_str().len();
        match split_tail(text.as_str(), prev_len) {
            Some(delta) => Ok(Some(delta.to_owned())),
            None => Ok(None),
        }
    }

    /// Decode the whole history.
    pub fn decode_all(&self) -> (r: Result<String, EngineError>)
        ensures
            r matches Err(e) ==> e == EngineError::ModelError,
    {
        let all = copy_token_range(&self.tokens, 0, self.tokens.len());
        decode_ids(&self.tokenizer, &all, true)
    }

    /// The id of a token string, if the vocabulary has it.
    pub fn get_token(&self, token_s: &str) -> (r: Option<u32>)
    {
        vocab_lookup(&self.tokenizer, token_s)
    }

    pub fn tokenizer(&self) -> (t: &tokenizers::Tokenizer)
        ensures
            *t == self.tokenizer_spec(),
    {
        &self.tokenizer
    }

    /// Forget the history and start a fresh stream over the same
    /// tokenizer.
    pub fn clear(&mut self)
        ensures
            final(self).wf(),
            final(self).tokens_spec() == Seq::<u32>::empty(),
            final(self).tokenizer_spec() == old(self).tokenizer_spec(),
    {
        self.tokens = Vec::new();
        self.prev_index = 0;
        self.current_index = 0;
    }
}

} // verus!
