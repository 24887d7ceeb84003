//! The executable pipeline: from a word span to an emitted token, and from
//! a sequence of word spans to the full token stream with byte ranges.

use vstd::prelude::*;
use crate::foreign::stem_word;
use crate::normalize::{is_space_or_ascii_punctuation_str, make_lowercase};
use crate::token::{
    emitted_text, lemma_words_byte_len_app, lemma_words_tokens_app, utf8_len, token_views, Token,
    word_views, words_byte_len, words_tokens, SpecToken,
};

verus! {

/// The view of an optional emitted string.
pub open spec fn opt_string_view(o: Option<String>) -> Option<Seq<char>> {
    match o {
        Option::Some(s) => Option::Some(s@),
        Option::None => Option::None,
    }
}

/// Whether the word list holds a string with exactly these characters.
pub fn contains_string(list: &Vec<String>, w: &String) -> (r: bool)
    ensures
        r == word_views(list@).contains(w@),
{
    let n = list.len();
    let mut i: usize = 0;
    while i < n
        invariant
            i <= n,
            n == list@.len(),
            forall|j: int| 0 <= j < i ==> #[trigger] list@[j]@ != w@,
        decreases n - i,
    {
        if list[i].eq(w) {
            proof {
                assert(word_views(list@)[i as int] == w@);
            }
            return true;
        }
        i += 1;
    }
    proof {
        assert forall|j: int| 0 <= j < word_views(list@).len() implies #[trigger] word_views(
            list@,
        )[j] != w@ by {
            assert(list@[j]@ != w@);
        }
    }
    false
}

/// Runs one word span through the normalization pipeline: a skippable span
/// or a filtered stopword yields nothing, a stem-eligible word yields its
/// root, any other kept word yields its normalized form.
pub fn process_word(word: &str, filter: bool, stops: &Vec<String>) -> (r: Option<String>)
    ensures
        opt_string_view(r) == emitted_text(word@, word_views(stops@), filter),
{
    if is_space_or_ascii_punctuation_str(word) {
        return None;
    }
    let mut buf = String::new();
    let need_stem = make_lowercase(word, &mut buf);
    if filter && contains_string(stops, &buf) {
        return None;
    }
    if need_stem {
        Some(stem_word(buf.as_str()))
    } else {
        Some(buf)
    }
}

/// Turns an ordered sequence of word spans into the token stream: a running
/// byte offset advances over every span, and each span the pipeline keeps
/// becomes one non-colocated token over that span's byte range.
pub fn tokens_from_words(words: &Vec<String>, filter: bool, stops: &Vec<String>) -> (r: Vec<Token>)
    requires
        words_byte_len(word_views(words@)) <= usize::MAX,
    ensures
        token_views(r@) == words_tokens(word_views(words@), 0, word_views(stops@), filter),
{
    let ghost wv = word_views(words@);
    let ghost sv = word_views(stops@);
    let n = words.len();
    let mut out: Vec<Token> = Vec::new();
    let mut off: usize = 0;
    let mut i: usize = 0;
    while i < n
        invariant
            i <= n,
            n == words@.len(),
            wv == word_views(words@),
            sv == word_views(stops@),
            words_byte_len(wv) <= usize::MAX,
            off == words_byte_len(wv.take(i as int)),
            token_views(out@) == words_tokens(wv.take(i as int), 0, sv, filter),
        decreases n - i,
    {
        let ghost single = seq![wv[i as int]];
        proof {
            assert(wv.take(i + 1) =~= wv.take(i as int) + single);
            lemma_words_byte_len_app(wv.take(i as int), single);
            assert(single.drop_first() =~= Seq::<Seq<char>>::empty());
            assert(words_byte_len(Seq::<Seq<char>>::empty()) == 0);
            assert(words_byte_len(single) == utf8_len(single[0]) + words_byte_len(
                single.drop_first(),
            ));
            assert(wv =~= wv.take(i + 1) + wv.skip(i + 1));
            lemma_words_byte_len_app(wv.take(i + 1), wv.skip(i + 1));
            lemma_words_tokens_app(wv.take(i as int), single, 0, sv, filter);
        }
        let w = &words[i];
        let wlen = w.as_str().len();
        proof {
            assert(wlen == utf8_len(wv[i as int]));
            assert(off + wlen == words_byte_len(wv.take(i + 1)));
        }
        let next_off = off + wlen;
        match process_word(w.as_str(), filter, stops) {
            None => {
                proof {
                    assert(emitted_text(single[0], sv, filter) is None);
                    assert(words_tokens(single, off as int, sv, filter) =~= words_tokens(
                        single.drop_first(),
                        off + wlen as int,
                        sv,
                        filter,
                    ));
                    assert(words_tokens(single, off as int, sv, filter) =~= Seq::<
                        SpecToken,
                    >::empty());
                    assert(token_views(out@) =~= words_tokens(wv.take(i + 1), 0, sv, filter));
                }
            },
            Some(text) => {
                let tok = Token { text, start: off, end: next_off, colocated: false };
                proof {
                    assert(emitted_text(single[0], sv, filter) == Option::Some(tok@.text));
                    assert(words_tokens(single.drop_first(), off + wlen as int, sv, filter) =~= Seq::<
                        SpecToken,
                    >::empty());
                    assert(words_tokens(single, off as int, sv, filter) =~= seq![tok@]);
                    assert(token_views(out@.push(tok)) =~= token_views(out@) + seq![tok@]);
                }
                out.push(tok);
            },
        }
        off = next_off;
        i += 1;
    }
    proof {
        assert(wv.take(n as int) =~= wv);
    }
    out
}

} // verus!
