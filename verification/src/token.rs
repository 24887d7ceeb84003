//! Tokens and the mathematical model of the pipeline: what sequence of
//! tokens a given sequence of word spans produces, and how the emitted byte
//! ranges relate to the original input.

use vstd::prelude::*;
use vstd::utf8::{decode_utf8, encode_utf8, valid_utf8};
use crate::foreign::stem_of;
use crate::normalize::{normalized_word, skippable_word, stem_eligible};

verus! {

/// The byte length of the UTF-8 encoding of a character sequence.
pub open spec fn utf8_len(s: Seq<char>) -> nat {
    encode_utf8(s).len()
}

/// The model of an emitted token.
pub struct SpecToken {
    /// The characters of the emitted text.
    pub text: Seq<char>,
    /// Byte offset of the start of the source span.
    pub start: int,
    /// Byte offset one past the end of the source span.
    pub end: int,
    /// Whether the token shares the position of the token before it.
    pub colocated: bool,
}

/// A normalized token: its text, the byte range of the span it came from,
/// and whether it is colocated with the preceding token.
pub struct Token {
    /// The emitted text.
    pub text: String,
    /// Byte offset of the start of the source span.
    pub start: usize,
    /// Byte offset one past the end of the source span.
    pub end: usize,
    /// Whether the token shares the position of the token before it.
    pub colocated: bool,
}

impl View for Token {
    type V = SpecToken;

    open spec fn view(&self) -> SpecToken {
        SpecToken {
            text: self.text@,
            start: self.start as int,
            end: self.end as int,
            colocated: self.colocated,
        }
    }
}

/// The views of a sequence of tokens.
pub open spec fn token_views(ts: Seq<Token>) -> Seq<SpecToken> {
    ts.map_values(|t: Token| t@)
}

/// The views of a sequence of strings.
pub open spec fn word_views(v: Seq<String>) -> Seq<Seq<char>> {
    v.map_values(|s: String| s@)
}

/// A sequence of strings contains one with exactly these characters if
/// and only if its views do.
pub proof fn lemma_word_views_contains(v: Seq<String>, w: Seq<char>)
    ensures
        word_views(v).contains(w) == (exists|j: int| 0 <= j < v.len() && #[trigger] v[j]@ == w),
{
    if exists|j: int| 0 <= j < v.len() && #[trigger] v[j]@ == w {
        let j = choose|j: int| 0 <= j < v.len() && #[trigger] v[j]@ == w;
        assert(word_views(v)[j] == w);
    }
    if word_views(v).contains(w) {
        let j = choose|j: int| 0 <= j < word_views(v).len() && word_views(v)[j] == w;
        assert(v[j]@ == w);
    }
}

/// What the pipeline emits for one word span: nothing for a skippable span
/// or a filtered stopword, the stemmed root for a stem-eligible word, and
/// the normalized form otherwise.
pub open spec fn emitted_text(w: Seq<char>, stops: Seq<Seq<char>>, filter: bool) -> Option<
    Seq<char>,
> {
    if skippable_word(w) {
        Option::None
    } else {
        let folded = normalized_word(w);
        if filter && stops.contains(folded) {
            Option::None
        } else if stem_eligible(w) {
            Option::Some(stem_of(folded))
        } else {
            Option::Some(folded)
        }
    }
}

/// The concatenation of a sequence of word spans.
pub open spec fn concat_words(words: Seq<Seq<char>>) -> Seq<char>
    decreases words.len(),
{
    if words.len() == 0 {
        Seq::empty()
    } else {
        words[0] + concat_words(words.drop_first())
    }
}

/// The sum of the byte lengths of a sequence of word spans.
pub open spec fn words_byte_len(words: Seq<Seq<char>>) -> nat
    decreases words.len(),
{
    if words.len() == 0 {
        0
    } else {
        utf8_len(words[0]) + words_byte_len(words.drop_first())
    }
}

/// The tokens the pipeline emits for a sequence of word spans starting at
/// byte offset `off`: each span advances the offset by its byte length, and
/// each span the pipeline keeps contributes one non-colocated token over
/// exactly that byte range.
pub open spec fn words_tokens(
    words: Seq<Seq<char>>,
    off: int,
    stops: Seq<Seq<char>>,
    filter: bool,
) -> Seq<SpecToken>
    decreases words.len(),
{
    if words.len() == 0 {
        Seq::empty()
    } else {
        let w = words[0];
        let wlen = utf8_len(w) as int;
        let rest = words_tokens(words.drop_first(), off + wlen, stops, filter);
        match emitted_text(w, stops, filter) {
            Option::None => rest,
            Option::Some(t) => seq![
                SpecToken { text: t, start: off, end: off + wlen, colocated: false },
            ] + rest,
        }
    }
}

/// UTF-8 encoding distributes over concatenation.
pub proof fn lemma_encode_utf8_app(a: Seq<char>, b: Seq<char>)
    ensures
        encode_utf8(a + b) == encode_utf8(a) + encode_utf8(b),
    decreases a.len(),
{
    if a.len() == 0 {
        assert(a + b =~= b);
        assert(encode_utf8(a) + encode_utf8(b) =~= encode_utf8(b));
    } else {
        assert((a + b).drop_first() =~= a.drop_first() + b);
        lemma_encode_utf8_app(a.drop_first(), b);
        assert(encode_utf8(a + b) =~= encode_utf8(a) + encode_utf8(b));
    }
}

/// Concatenation of word spans distributes over sequence concatenation.
pub proof fn lemma_concat_words_app(a: Seq<Seq<char>>, b: Seq<Seq<char>>)
    ensures
        concat_words(a + b) == concat_words(a) + concat_words(b),
    decreases a.len(),
{
    if a.len() == 0 {
        assert(a + b =~= b);
        assert(concat_words(a) + concat_words(b) =~= concat_words(b));
    } else {
        assert((a + b).drop_first() =~= a.drop_first() + b);
        lemma_concat_words_app(a.drop_first(), b);
        assert(concat_words(a + b) =~= concat_words(a) + concat_words(b));
    }
}

/// Span byte lengths add over sequence concatenation.
pub proof fn lemma_words_byte_len_app(a: Seq<Seq<char>>, b: Seq<Seq<char>>)
    ensures
        words_byte_len(a + b) == words_byte_len(a) + words_byte_len(b),
    decreases a.len(),
{
    if a.len() == 0 {
        assert(a + b =~= b);
    } else {
        assert((a + b).drop_first() =~= a.drop_first() + b);
        lemma_words_byte_len_app(a.drop_first(), b);
    }
}

/// Segmentation is total and non-overlapping: the byte lengths of all the
/// spans of a segmentation, the emitted and the dropped ones alike, sum
/// exactly to the byte length of the full text they concatenate to.
pub proof fn lemma_span_lengths_total(words: Seq<Seq<char>>)
    ensures
        words_byte_len(words) == utf8_len(concat_words(words)),
    decreases words.len(),
{
    if words.len() == 0 {
    } else {
        lemma_encode_utf8_app(words[0], concat_words(words.drop_first()));
        lemma_span_lengths_total(words.drop_first());
    }
}

/// The tokens of a concatenation of two span sequences are the tokens of
/// the first followed by the tokens of the second, offset past the first.
pub proof fn lemma_words_tokens_app(
    a: Seq<Seq<char>>,
    b: Seq<Seq<char>>,
    off: int,
    stops: Seq<Seq<char>>,
    filter: bool,
)
    ensures
        words_tokens(a + b, off, stops, filter) == words_tokens(a, off, stops, filter)
            + words_tokens(b, off + words_byte_len(a), stops, filter),
    decreases a.len(),
{
    if a.len() == 0 {
        assert(a + b =~= b);
        assert(words_tokens(a, off, stops, filter) + words_tokens(
            b,
            off + words_byte_len(a),
            stops,
            filter,
        ) =~= words_tokens(b, off, stops, filter));
    } else {
        assert((a + b).drop_first() =~= a.drop_first() + b);
        lemma_words_tokens_app(a.drop_first(), b, off + utf8_len(a[0]), stops, filter);
        assert(words_tokens(a + b, off, stops, filter) =~= words_tokens(a, off, stops, filter)
            + words_tokens(b, off + words_byte_len(a), stops, filter));
    }
}

/// The token is not colocated and its byte range is well-ordered and lies
/// within `[off, off + total]`.
pub open spec fn plain_token_in_range(t: SpecToken, off: int, total: int) -> bool {
    off <= t.start <= t.end <= off + total && !t.colocated
}

/// The token is the image of span `k` of `words`: its byte range is that
/// span's position and its text is what the pipeline makes of that span.
pub open spec fn token_matches_span(
    t: SpecToken,
    words: Seq<Seq<char>>,
    off: int,
    stops: Seq<Seq<char>>,
    filter: bool,
    k: int,
) -> bool {
    &&& 0 <= k < words.len()
    &&& t.start == off + words_byte_len(words.take(k))
    &&& t.end == t.start + utf8_len(words[k])
    &&& emitted_text(words[k], stops, filter) == Option::Some(t.text)
}

/// Some span of `words` is the source of this token.
pub open spec fn some_span_matches(
    t: SpecToken,
    words: Seq<Seq<char>>,
    off: int,
    stops: Seq<Seq<char>>,
    filter: bool,
) -> bool {
    exists|k: int| token_matches_span(t, words, off, stops, filter, k)
}

/// The token's text is what the pipeline makes of the characters encoded by
/// the input bytes inside the token's own byte range.
pub open spec fn token_text_from_bytes(
    t: SpecToken,
    bytes: Seq<u8>,
    stops: Seq<Seq<char>>,
    filter: bool,
) -> bool {
    emitted_text(decode_utf8(bytes.subrange(t.start, t.end)), stops, filter) == Option::Some(
        t.text,
    )
}

/// Every token of `words_tokens` is non-colocated, lies within the byte
/// range of the segmented text, has a well-ordered range, and the tokens
/// appear in strictly advancing byte order.
pub proof fn lemma_words_tokens_wf(
    words: Seq<Seq<char>>,
    off: int,
    stops: Seq<Seq<char>>,
    filter: bool,
)
    ensures
        forall|i: int|
            0 <= i < words_tokens(words, off, stops, filter).len() ==> plain_token_in_range(
                #[trigger] words_tokens(words, off, stops, filter)[i],
                off,
                words_byte_len(words) as int,
            ),
        forall|i: int, j: int|
            0 <= i < j < words_tokens(words, off, stops, filter).len()
                ==> #[trigger] words_tokens(words, off, stops, filter)[i].end
                <= #[trigger] words_tokens(words, off, stops, filter)[j].start,
    decreases words.len(),
{
    if words.len() == 0 {
    } else {
        let w = words[0];
        let wlen = utf8_len(w) as int;
        let ts = words_tokens(words, off, stops, filter);
        let rest = words_tokens(words.drop_first(), off + wlen, stops, filter);
        let rest_total = words_byte_len(words.drop_first()) as int;
        lemma_words_tokens_wf(words.drop_first(), off + wlen, stops, filter);
        let shift: int = if emitted_text(w, stops, filter) is Some {
            1
        } else {
            0
        };
        assert forall|i: int| 0 <= i < ts.len() implies plain_token_in_range(
            #[trigger] ts[i],
            off,
            words_byte_len(words) as int,
        ) by {
            if !(shift == 1 && i == 0) {
                assert(ts[i] == rest[i - shift]);
                assert(plain_token_in_range(rest[i - shift], off + wlen, rest_total));
            }
        }
        assert forall|i: int, j: int| 0 <= i < j < ts.len() implies #[trigger] ts[i].end
            <= #[trigger] ts[j].start by {
            if shift == 1 && i == 0 {
                assert(ts[j] == rest[j - 1]);
                assert(plain_token_in_range(rest[j - 1], off + wlen, rest_total));
            } else {
                assert(ts[i] == rest[i - shift] && ts[j] == rest[j - shift]);
            }
        }
    }
}

/// Each token of `words_tokens` is the image of one particular span: its
/// byte range is that span's position, and its text is what the pipeline
/// makes of that span.
pub proof fn lemma_words_tokens_spans(
    words: Seq<Seq<char>>,
    off: int,
    stops: Seq<Seq<char>>,
    filter: bool,
)
    ensures
        forall|i: int|
            0 <= i < words_tokens(words, off, stops, filter).len() ==> some_span_matches(
                #[trigger] words_tokens(words, off, stops, filter)[i],
                words,
                off,
                stops,
                filter,
            ),
    decreases words.len(),
{
    if words.len() == 0 {
    } else {
        let w = words[0];
        let wlen = utf8_len(w) as int;
        let ts = words_tokens(words, off, stops, filter);
        let rest = words_tokens(words.drop_first(), off + wlen, stops, filter);
        lemma_words_tokens_spans(words.drop_first(), off + wlen, stops, filter);
        assert(words.take(0) =~= Seq::<Seq<char>>::empty());
        assert forall|i: int| 0 <= i < ts.len() implies some_span_matches(
            #[trigger] ts[i],
            words,
            off,
            stops,
            filter,
        ) by {
            let emitted_here = emitted_text(w, stops, filter) is Some;
            let shift: int = if emitted_here {
                1
            } else {
                0
            };
            if emitted_here && i == 0 {
                assert(token_matches_span(ts[0], words, off, stops, filter, 0));
                assert(some_span_matches(ts[0], words, off, stops, filter));
            } else {
                let t = ts[i];
                assert(t == rest[i - shift]);
                let k0 = choose|k0: int|
                    #[trigger] token_matches_span(
                        rest[i - shift],
                        words.drop_first(),
                        off + wlen,
                        stops,
                        filter,
                        k0,
                    );
                assert(words.take(k0 + 1) =~= seq![w] + words.drop_first().take(k0));
                lemma_words_byte_len_app(seq![w], words.drop_first().take(k0));
                let ghost single = seq![w];
                assert(single.drop_first() =~= Seq::<Seq<char>>::empty());
                assert(words_byte_len(Seq::<Seq<char>>::empty()) == 0);
                assert(words_byte_len(single) == utf8_len(single[0])
                    + words_byte_len(single.drop_first()));
                assert(words_byte_len(seq![w]) == wlen);
                assert(words[k0 + 1] == words.drop_first()[k0]);
                assert(token_matches_span(t, words, off, stops, filter, k0 + 1));
                assert(some_span_matches(t, words, off, stops, filter));
            }
        }
    }
}

/// When the input bytes are valid UTF-8 and the spans cover the decoded
/// text, the text of every emitted token is a function of nothing but the
/// input bytes inside that token's byte range.
pub proof fn lemma_tokens_deterministic(
    words: Seq<Seq<char>>,
    bytes: Seq<u8>,
    stops: Seq<Seq<char>>,
    filter: bool,
)
    requires
        valid_utf8(bytes),
        concat_words(words) == decode_utf8(bytes),
    ensures
        forall|i: int|
            0 <= i < words_tokens(words, 0, stops, filter).len() ==> token_text_from_bytes(
                #[trigger] words_tokens(words, 0, stops, filter)[i],
                bytes,
                stops,
                filter,
            ),
{
    broadcast use vstd::utf8::encode_utf8_decode_utf8;

    vstd::utf8::decode_utf8_encode_utf8(bytes);
    let ts = words_tokens(words, 0, stops, filter);
    lemma_words_tokens_spans(words, 0, stops, filter);
    assert forall|i: int| 0 <= i < ts.len() implies token_text_from_bytes(
        #[trigger] ts[i],
        bytes,
        stops,
        filter,
    ) by {
        let t = ts[i];
        assert(some_span_matches(ts[i], words, 0, stops, filter));
        let k = choose|k: int| #[trigger] token_matches_span(ts[i], words, 0, stops, filter, k);
        assert(token_matches_span(ts[i], words, 0, stops, filter, k));
        assert(words =~= words.take(k) + seq![words[k]] + words.skip(k + 1));
        lemma_concat_words_app(words.take(k) + seq![words[k]], words.skip(k + 1));
        lemma_concat_words_app(words.take(k), seq![words[k]]);
        let ghost single = seq![words[k]];
        assert(single.drop_first() =~= Seq::<Seq<char>>::empty());
        assert(concat_words(Seq::<Seq<char>>::empty()) == Seq::<char>::empty());
        assert(concat_words(single) == single[0] + concat_words(single.drop_first()));
        assert(concat_words(seq![words[k]]) =~= words[k]);
        let pre = concat_words(words.take(k));
        let post = concat_words(words.skip(k + 1));
        assert(decode_utf8(bytes) == pre + words[k] + post);
        lemma_encode_utf8_app(pre + words[k], post);
        lemma_encode_utf8_app(pre, words[k]);
        assert(bytes == encode_utf8(pre + words[k] + post));
        assert(pre + words[k] + post =~= (pre + words[k]) + post);
        assert(bytes == encode_utf8(pre) + encode_utf8(words[k]) + encode_utf8(post));
        lemma_span_lengths_total(words.take(k));
        assert(t.start == encode_utf8(pre).len());
        assert(bytes.subrange(t.start, t.end) =~= encode_utf8(words[k]));
        assert(decode_utf8(encode_utf8(words[k])) == words[k]);
    }
}

} // verus!
