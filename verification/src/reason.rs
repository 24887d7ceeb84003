//! Decoding of the host's tokenize-reason flag: a closed set of accepted
//! bit patterns, everything else a decode error that is never defaulted.

use vstd::prelude::*;
use vstd::string::StringExecFns;
use crate::digits::{i32_dec_chars, int_str};
use crate::foreign::chars_to_string;

verus! {

/// The flag bit the host sets when tokenizing a query.
pub const FTS5_TOKENIZE_QUERY: i32 = 1;

/// The flag bit the host adds for a query with a trailing wildcard.
pub const FTS5_TOKENIZE_PREFIX: i32 = 2;

/// The flag value the host passes when indexing a document.
pub const FTS5_TOKENIZE_DOCUMENT: i32 = 4;

/// The flag value the host passes for an explicit out-of-band call.
pub const FTS5_TOKENIZE_AUX: i32 = 8;

/// The flag a token carries when it shares the previous token's position.
pub const FTS5_TOKEN_COLOCATED: i32 = 1;

/// A decoded request kind: why the host asked for the text to be
/// tokenized.
#[derive(Clone, Debug, Eq, PartialEq, Structural)]
pub enum TokenizeReason {
    /// A document is being inserted into or removed from the index.
    Document,
    /// A query is being matched against the index.
    Query {
        /// Whether the query string carries a trailing wildcard.
        prefix: bool,
    },
    /// An explicit out-of-band tokenization call.
    Aux,
}

/// The error for a reason flag outside the closed set.
#[derive(Clone, Debug, Eq, PartialEq, Structural)]
pub enum IntoTokenizeReasonError {
    /// The flag value that no reason decodes from.
    UnrecognizedValue(i32),
}

/// What each flag value decodes to: exactly four bit patterns are
/// accepted, and any other value is an error carrying that value.
pub open spec fn decode_reason(value: i32) -> Result<TokenizeReason, IntoTokenizeReasonError> {
    if value == FTS5_TOKENIZE_DOCUMENT {
        Result::Ok(TokenizeReason::Document)
    } else if value == FTS5_TOKENIZE_QUERY {
        Result::Ok(TokenizeReason::Query { prefix: false })
    } else if value == FTS5_TOKENIZE_QUERY | FTS5_TOKENIZE_PREFIX {
        Result::Ok(TokenizeReason::Query { prefix: true })
    } else if value == FTS5_TOKENIZE_AUX {
        Result::Ok(TokenizeReason::Aux)
    } else {
        Result::Err(IntoTokenizeReasonError::UnrecognizedValue(value))
    }
}

impl TokenizeReason {
    /// Decodes the host's reason flag; an unrecognized bit pattern is
    /// rejected with a decode error and never treated as any reason by
    /// default.
    pub fn try_from(value: i32) -> (r: Result<TokenizeReason, IntoTokenizeReasonError>)
        ensures
            r == decode_reason(value),
    {
        proof {
            assert(FTS5_TOKENIZE_QUERY | FTS5_TOKENIZE_PREFIX == 3) by (bit_vector);
        }
        if value == FTS5_TOKENIZE_DOCUMENT {
            Ok(TokenizeReason::Document)
        } else if value == FTS5_TOKENIZE_QUERY {
            Ok(TokenizeReason::Query { prefix: false })
        } else if value == 3 {
            Ok(TokenizeReason::Query { prefix: true })
        } else if value == FTS5_TOKENIZE_AUX {
            Ok(TokenizeReason::Aux)
        } else {
            Err(IntoTokenizeReasonError::UnrecognizedValue(value))
        }
    }
}

impl IntoTokenizeReasonError {
    /// The diagnostic line for this error, naming the flag value that
    /// could not be decoded.
    pub fn message(&self) -> (r: String)
        ensures
            (match *self {
                IntoTokenizeReasonError::UnrecognizedValue(flag) => r@
                    == "Unrecognized flags passed to xTokenize: "@ + int_str(flag as int),
            }),
    {
        match self {
            IntoTokenizeReasonError::UnrecognizedValue(flag) => {
                let digits = i32_dec_chars(*flag);
                let tail = chars_to_string(&digits);
                let head: String = "Unrecognized flags passed to xTokenize: ".to_owned();
                let out = head.concat(tail.as_str());
                out
            },
        }
    }
}

} // verus!
