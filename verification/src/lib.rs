//! A pluggable tokenization layer for a full-text-search engine: raw text
//! is segmented into word spans, each span is normalized (Unicode
//! compatibility decomposition, diacritic stripping, case folding),
//! optionally filtered against a stopword set, stemmed when
//! ASCII-eligible, and emitted as a token carrying its byte range in the
//! original input. A phrase-segmentation variant delegates span discovery
//! to the jieba engine; a per-character variant walks characters and can
//! expand them into colocated phonetic readings.

pub mod chars;
pub mod digits;
pub mod foreign;
pub mod jieba;
pub mod laws;
pub mod normalize;
pub mod pipeline;
pub mod reason;
pub mod register;
pub mod simple;
pub mod token;

pub use jieba::JiebaTokenizer;
pub use reason::{IntoTokenizeReasonError, TokenizeReason};
pub use register::RegisterTokenizerError;
pub use simple::{PinyinLookup, SimpleTokenizer};
pub use token::Token;
