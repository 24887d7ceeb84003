//! The tokenizer variants and the normalization pipeline, end to end.

use fts5_tokenizer::normalize::{is_space_or_ascii_punctuation_str, make_lowercase};
use fts5_tokenizer::pipeline::process_word;
use fts5_tokenizer::simple::need_pinyin;
use fts5_tokenizer::{
    IntoTokenizeReasonError, JiebaTokenizer, PinyinLookup, RegisterTokenizerError, SimpleTokenizer,
    TokenizeReason,
};

fn no_args() -> Vec<String> {
    Vec::new()
}

#[test]
fn jieba_hello_world_tokens() {
    let t = JiebaTokenizer::new(Vec::new(), &no_args());
    let tokens = t.tokenize("Hello, World!".as_bytes());
    assert_eq!(tokens.len(), 2);
    assert_eq!(tokens[0].text, "hello");
    assert_eq!(tokens[0].start, 0);
    assert_eq!(tokens[0].end, 5);
    assert!(!tokens[0].colocated);
    assert_eq!(tokens[1].text, "world");
    assert_eq!(tokens[1].start, 7);
    assert_eq!(tokens[1].end, 12);
    assert!(!tokens[1].colocated);
}

#[test]
fn jieba_stems_likes_to_like() {
    let t = JiebaTokenizer::new(Vec::new(), &no_args());
    let tokens = t.tokenize("likes".as_bytes());
    assert_eq!(tokens.len(), 1);
    assert_eq!(tokens[0].text, "like");
    assert_eq!(tokens[0].start, 0);
    assert_eq!(tokens[0].end, 5);
}

#[test]
fn jieba_phrase_span_unchanged() {
    let t = JiebaTokenizer::new(Vec::new(), &no_args());
    let tokens = t.tokenize("国家".as_bytes());
    assert_eq!(tokens.len(), 1);
    assert_eq!(tokens[0].text, "国家");
    assert_eq!(tokens[0].start, 0);
    assert_eq!(tokens[0].end, 6);
    assert!(!tokens[0].colocated);
}

#[test]
fn jieba_ranges_cover_input_in_order() {
    let t = JiebaTokenizer::new(Vec::new(), &no_args());
    let text = "中华人民共和国国歌 likes feet";
    let tokens = t.tokenize(text.as_bytes());
    assert!(!tokens.is_empty());
    let mut last_end = 0usize;
    for tok in &tokens {
        assert!(tok.start <= tok.end);
        assert!(last_end <= tok.start);
        assert!(tok.end <= text.len());
        last_end = tok.end;
    }
}

#[test]
fn jieba_empty_input_no_tokens() {
    let t = JiebaTokenizer::new(Vec::new(), &no_args());
    let tokens = t.tokenize(b"");
    assert_eq!(tokens.len(), 0);
}

#[test]
fn jieba_stopword_filter_strict_superset() {
    let stops = vec!["like".to_string()];
    let enabled = JiebaTokenizer::new(stops.clone(), &no_args());
    let disabled = JiebaTokenizer::new(stops, &vec!["disable_stopword".to_string()]);
    let text = "I like cats".as_bytes();
    let with_filter = enabled.tokenize(text);
    let without_filter = disabled.tokenize(text);
    assert!(with_filter.len() < without_filter.len());
    // every filtered token appears, with its range, among the unfiltered ones
    let mut j = 0usize;
    for tok in &with_filter {
        while j < without_filter.len()
            && (without_filter[j].text != tok.text || without_filter[j].start != tok.start)
        {
            j += 1;
        }
        assert!(j < without_filter.len());
        j += 1;
    }
    // and "like" is exactly what filtering removed
    assert!(without_filter.iter().any(|t| t.text == "like"));
    assert!(!with_filter.iter().any(|t| t.text == "like"));
}

#[test]
fn jieba_disable_stopword_method() {
    let stops = vec!["like".to_string()];
    let mut t = JiebaTokenizer::new(stops, &no_args());
    assert!(t.tokenize("like".as_bytes()).is_empty());
    t.disable_stopword();
    let tokens = t.tokenize("like".as_bytes());
    assert_eq!(tokens.len(), 1);
    assert_eq!(tokens[0].text, "like");
}

fn guo_lookup() -> PinyinLookup {
    let mut lookup = PinyinLookup::new();
    lookup.push_entry('国', vec!["guo".to_string()]);
    lookup
}

#[test]
fn simple_phonetic_expansion_colocated() {
    let t = SimpleTokenizer::new(Vec::new(), guo_lookup(), &no_args());
    let tokens = t.tokenize("国".as_bytes());
    assert_eq!(tokens.len(), 2);
    assert_eq!(tokens[0].text, "国");
    assert_eq!(tokens[0].start, 0);
    assert_eq!(tokens[0].end, 3);
    assert!(!tokens[0].colocated);
    assert_eq!(tokens[1].text, "guo");
    assert_eq!(tokens[1].start, 0);
    assert_eq!(tokens[1].end, 3);
    assert!(tokens[1].colocated);
}

#[test]
fn simple_disable_pinyin_argument() {
    let t = SimpleTokenizer::new(
        Vec::new(),
        guo_lookup(),
        &vec!["disable_pinyin".to_string()],
    );
    let tokens = t.tokenize("国".as_bytes());
    assert_eq!(tokens.len(), 1);
    assert_eq!(tokens[0].text, "国");
    assert!(!tokens[0].colocated);
}

#[test]
fn simple_walks_characters() {
    let t = SimpleTokenizer::new(Vec::new(), PinyinLookup::new(), &no_args());
    let tokens = t.tokenize("Ab c".as_bytes());
    assert_eq!(tokens.len(), 3);
    assert_eq!(tokens[0].text, "a");
    assert_eq!((tokens[0].start, tokens[0].end), (0, 1));
    assert_eq!(tokens[1].text, "b");
    assert_eq!((tokens[1].start, tokens[1].end), (1, 2));
    assert_eq!(tokens[2].text, "c");
    assert_eq!((tokens[2].start, tokens[2].end), (3, 4));
}

#[test]
fn simple_unrecognized_argument_ignored() {
    let t = SimpleTokenizer::new(Vec::new(), guo_lookup(), &vec!["frobnicate".to_string()]);
    let tokens = t.tokenize("国".as_bytes());
    assert_eq!(tokens.len(), 2);
}

#[test]
fn need_pinyin_single_known_character_only() {
    let lookup = guo_lookup();
    assert!(need_pinyin("国", &lookup));
    assert!(!need_pinyin("国家", &lookup));
    assert!(!need_pinyin("", &lookup));
    assert!(!need_pinyin("a", &lookup));
}

#[test]
fn make_lowercase_folds_and_flags_stemming() {
    let mut buf = String::new();
    assert!(make_lowercase("Hello", &mut buf));
    assert_eq!(buf, "hello");
    assert!(!make_lowercase("国", &mut buf));
    assert_eq!(buf, "国");
    assert!(!make_lowercase("A", &mut buf));
    assert_eq!(buf, "a");
}

#[test]
fn make_lowercase_strips_combining_diacritics() {
    let mut buf = String::new();
    // a combining overline does not compose with its base, so it survives
    // canonicalization and is stripped
    assert!(make_lowercase("Cafe\u{0305}", &mut buf));
    assert_eq!(buf, "cafe");
    // a combining acute composes into a precomposed non-ASCII letter, so
    // the word is no longer stem-eligible
    assert!(!make_lowercase("Cafe\u{0301}", &mut buf));
    assert_eq!(buf, "caf\u{e9}");
}

#[test]
fn make_lowercase_decomposes_ligature() {
    let mut buf = String::new();
    assert!(make_lowercase("ﬁre", &mut buf));
    assert_eq!(buf, "fire");
}

#[test]
fn renormalizing_lowercase_ascii_is_idempotent() {
    let mut once = String::new();
    make_lowercase("Likes", &mut once);
    let mut twice = String::new();
    let need_stem = make_lowercase(once.as_str(), &mut twice);
    assert_eq!(once, twice);
    assert_eq!(once, "likes");
    assert!(need_stem);
}

#[test]
fn skippable_span_detection() {
    assert!(is_space_or_ascii_punctuation_str(" \t,.;!"));
    assert!(is_space_or_ascii_punctuation_str(""));
    assert!(!is_space_or_ascii_punctuation_str("a b"));
    assert!(!is_space_or_ascii_punctuation_str("国"));
}

#[test]
fn process_word_filters_stopwords() {
    let stops = vec!["like".to_string()];
    // filtering applies to the folded form before stemming
    assert!(process_word("Like", true, &stops).is_none());
    assert_eq!(process_word("Likes", true, &stops).unwrap(), "like");
    assert_eq!(process_word("Like", false, &stops).unwrap(), "like");
    assert!(process_word(" ", true, &stops).is_none());
    assert_eq!(process_word("国", true, &stops).unwrap(), "国");
}

#[test]
fn reason_flag_decoding() {
    assert_eq!(TokenizeReason::try_from(4), Ok(TokenizeReason::Document));
    assert_eq!(
        TokenizeReason::try_from(1),
        Ok(TokenizeReason::Query { prefix: false })
    );
    assert_eq!(
        TokenizeReason::try_from(3),
        Ok(TokenizeReason::Query { prefix: true })
    );
    assert_eq!(TokenizeReason::try_from(8), Ok(TokenizeReason::Aux));
}

#[test]
fn reason_flag_unrecognized_is_error() {
    assert_eq!(
        TokenizeReason::try_from(0),
        Err(IntoTokenizeReasonError::UnrecognizedValue(0))
    );
    assert_eq!(
        TokenizeReason::try_from(7),
        Err(IntoTokenizeReasonError::UnrecognizedValue(7))
    );
    assert_eq!(
        TokenizeReason::try_from(-1),
        Err(IntoTokenizeReasonError::UnrecognizedValue(-1))
    );
    assert_eq!(
        TokenizeReason::try_from(2),
        Err(IntoTokenizeReasonError::UnrecognizedValue(2))
    );
}

#[test]
fn reason_error_message_names_flag() {
    let err = IntoTokenizeReasonError::UnrecognizedValue(37);
    assert_eq!(err.message(), "Unrecognized flags passed to xTokenize: 37");
    let err = IntoTokenizeReasonError::UnrecognizedValue(-5);
    assert_eq!(err.message(), "Unrecognized flags passed to xTokenize: -5");
}

#[test]
fn register_error_messages() {
    assert_eq!(
        RegisterTokenizerError::SelectFts5Failed.message(),
        "SELECT fts5(?1) failed."
    );
    assert_eq!(
        RegisterTokenizerError::Fts5ApiNul.message(),
        "Could not get fts5 api."
    );
    assert_eq!(
        RegisterTokenizerError::Fts5ApiVersionTooLow.message(),
        "The version of fts5 api is too low."
    );
    assert_eq!(
        RegisterTokenizerError::Fts5xCreateTokenizerV2Nul.message(),
        "Fts5 api xCreateTokenizer_v2 ptr is null."
    );
    assert_eq!(
        RegisterTokenizerError::Fts5xCreateTokenizerFailed(101).message(),
        "Fts5 xCreateTokenizer failed, the error flag when sqlite returned is 101."
    );
}

#[test]
fn tokenizer_names() {
    assert_eq!(JiebaTokenizer::name(), "jieba");
    assert_eq!(SimpleTokenizer::name(), "simple");
}

#[test]
fn simple_multiple_readings_in_order() {
    let mut lookup = PinyinLookup::new();
    lookup.push_entry('重', vec!["zhong".to_string(), "chong".to_string()]);
    let t = SimpleTokenizer::new(Vec::new(), lookup, &no_args());
    let tokens = t.tokenize("重".as_bytes());
    assert_eq!(tokens.len(), 3);
    assert_eq!(tokens[0].text, "重");
    assert!(!tokens[0].colocated);
    assert_eq!(tokens[1].text, "zhong");
    assert!(tokens[1].colocated);
    assert_eq!(tokens[2].text, "chong");
    assert!(tokens[2].colocated);
    for tok in &tokens {
        assert_eq!((tok.start, tok.end), (0, 3));
    }
}

#[test]
fn make_lowercase_full_case_folds_non_ascii() {
    let mut buf = String::new();
    // a non-ASCII uppercase letter takes the full Unicode lowercase
    // mapping and blocks stemming
    assert!(!make_lowercase("\u{c9}b", &mut buf));
    assert_eq!(buf, "\u{e9}b");
}

#[test]
fn tokenize_total_on_invalid_utf8() {
    let t = JiebaTokenizer::new(Vec::new(), &no_args());
    let tokens = t.tokenize(&[0xff, 0x61, 0xfe]);
    for tok in &tokens {
        assert!(tok.start <= tok.end);
    }
    assert!(tokens.iter().any(|t| t.text == "a"));
}

#[test]
fn api_version_gate() {
    assert!(!fts5_tokenizer::register::fts5_api_version_ok(2));
    assert!(fts5_tokenizer::register::fts5_api_version_ok(3));
    assert!(fts5_tokenizer::register::fts5_api_version_ok(4));
}
