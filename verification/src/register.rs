//! The distinct failures of installing the tokenizer into the host, and
//! the version gate the installation applies, so a caller can tell host
//! incompatibility from internal misconfiguration.

use vstd::prelude::*;
use vstd::string::StringExecFns;
use crate::digits::{i32_dec_chars, int_str};
use crate::foreign::chars_to_string;

verus! {

/// The lowest interface version of the host's extension capability object
/// that the adapter can install into.
pub const FTS5_API_VERSION: i32 = 3;

/// The version of the tokenizer function table the adapter installs.
pub const FTS5_TOKENIZER_VERSION: i32 = 2;

/// Why registering the tokenizer with the host failed.
#[derive(Clone, Debug, Eq, PartialEq, Structural)]
pub enum RegisterTokenizerError {
    /// The host query that hands out the capability object failed.
    SelectFts5Failed,
    /// The capability object came back null.
    Fts5ApiNul,
    /// The capability object's interface version is below the minimum.
    Fts5ApiVersionTooLow,
    /// The capability object lacks the installer function.
    Fts5xCreateTokenizerV2Nul,
    /// The host's installer reported failure, with its numeric code.
    Fts5xCreateTokenizerFailed(i32),
}

/// Whether the host's interface version is high enough to install into.
pub fn fts5_api_version_ok(version: i32) -> (r: bool)
    ensures
        r == (version >= FTS5_API_VERSION),
{
    version >= FTS5_API_VERSION
}

impl RegisterTokenizerError {
    /// The diagnostic line for this error; for a host-reported install
    /// failure it names the host's numeric code.
    pub fn message(&self) -> (r: String)
        ensures
            (match *self {
                RegisterTokenizerError::SelectFts5Failed => r@ == "SELECT fts5(?1) failed."@,
                RegisterTokenizerError::Fts5ApiNul => r@ == "Could not get fts5 api."@,
                RegisterTokenizerError::Fts5ApiVersionTooLow => r@
                    == "The version of fts5 api is too low."@,
                RegisterTokenizerError::Fts5xCreateTokenizerV2Nul => r@
                    == "Fts5 api xCreateTokenizer_v2 ptr is null."@,
                RegisterTokenizerError::Fts5xCreateTokenizerFailed(rc) => r@
                    == "Fts5 xCreateTokenizer failed, the error flag when sqlite returned is "@
                    + int_str(rc as int) + "."@,
            }),
    {
        match self {
            RegisterTokenizerError::SelectFts5Failed => "SELECT fts5(?1) failed.".to_owned(),
            RegisterTokenizerError::Fts5ApiNul => "Could not get fts5 api.".to_owned(),
            RegisterTokenizerError::Fts5ApiVersionTooLow => {
                "The version of fts5 api is too low.".to_owned()
            },
            RegisterTokenizerError::Fts5xCreateTokenizerV2Nul => {
                "Fts5 api xCreateTokenizer_v2 ptr is null.".to_owned()
            },
            RegisterTokenizerError::Fts5xCreateTokenizerFailed(rc) => {
                let digits = i32_dec_chars(*rc);
                let tail = chars_to_string(&digits);
                let head: String =
                    "Fts5 xCreateTokenizer failed, the error flag when sqlite returned is "
                    .to_owned();
                let mid = head.concat(tail.as_str());
                let out = mid.concat(".");
                out
            },
        }
    }
}

} // verus!
