//! The errors of encoding and decoding.
use vstd::prelude::*;
use vstd::string::*;

use crate::bpe::Rank;
use crate::text::{decimal, push_decimal};

verus! {

/// A token that the vocabulary does not hold.
#[derive(Debug, Clone)]
pub struct DecodeKeyError {
    pub token: Rank,
}

impl DecodeKeyError {
    /// The error as a line of text.
    pub fn to_string(&self) -> (text: String)
        ensures
            text@ == "Invalid token for decoding: "@ + decimal(self.token as nat),
    {
        let mut text = String::from_str("Invalid token for decoding: ");
        push_decimal(&mut text, self.token as u64);
        text
    }
}

/// Tokens that do not decode to a text.
#[derive(Debug, Clone)]
pub struct DecodeError {
    pub message: String,
}

impl DecodeError {
    /// The error as a line of text.
    pub fn to_string(&self) -> (text: String)
        ensures
            text@ == "Could not decode tokens: "@ + self.message@,
    {
        String::from_str("Could not decode tokens: ").concat(self.message.as_str())
    }
}

/// A text that cannot be encoded.
#[derive(Debug, Clone)]
pub struct EncodeError {
    pub message: String,
}

impl EncodeError {
    /// The error as a line of text.
    pub fn to_string(&self) -> (text: String)
        ensures
            text@ == "Could not encode string: "@ + self.message@,
    {
        String::from_str("Could not encode string: ").concat(self.message.as_str())
    }
}

/// A pattern that the regular expression engine refuses.
#[derive(Debug, Clone)]
pub struct PatternError {
    pub message: String,
}

} // verus!
