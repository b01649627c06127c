//! Failures of a tokenize call.
use vstd::prelude::*;

verus! {

/// Why a tokenize call produced no table.
#[derive(Debug, Clone)]
pub enum TokenizeError {
    /// The tokenizer definition could not be loaded.
    Definition { message: String },
    /// The value at input row `row` failed to encode.
    Tokenization { row: usize, message: String },
    /// The encoding of input row `row` had token ids, token texts and
    /// attention bits of different lengths.
    Inconsistent { row: usize },
}

impl TokenizeError {
    /// The input row an error is about, if it is about one.
    pub open spec fn row(&self) -> Option<usize> {
        match self {
            TokenizeError::Definition { .. } => None,
            TokenizeError::Tokenization { row, .. } => Some(*row),
            TokenizeError::Inconsistent { row } => Some(*row),
        }
    }

    /// A one-line description of the error.
    pub fn describe(&self) -> (s: String)
        ensures
            self is Definition ==> s@ == self->Definition_message@,
            self is Tokenization ==> s@ == self->Tokenization_message@,
    {
        match self {
            TokenizeError::Definition { message } => message.clone(),
            TokenizeError::Tokenization { message, .. } => message.clone(),
            TokenizeError::Inconsistent { .. } => String::from_str("encoding columns differ in length"),
        }
    }
}

} // verus!
