//! Relations between whole runs of the pipeline: how the token stream with
//! stopword filtering relates to the stream without it, and how colocated
//! tokens relate to the token they stand beside.

use vstd::prelude::*;
use vstd::utf8::{decode_utf8, encode_utf8, valid_utf8};
use crate::chars::char_utf8_len;
use crate::normalize::{normalized_word, skippable_word};
use crate::simple::{char_tokens, lemma_utf8_len_single, spec_lookup, reading_tokens};
use crate::token::{
    emitted_text, lemma_encode_utf8_app, utf8_len, words_tokens, SpecToken,
};

verus! {

/// `a` is a subsequence of `b`: `b` with zero or more elements removed.
pub open spec fn is_subseq_of<T>(a: Seq<T>, b: Seq<T>) -> bool
    decreases a.len() + b.len(),
{
    if a.len() == 0 {
        true
    } else if b.len() == 0 {
        false
    } else {
        (a[0] == b[0] && is_subseq_of(a.drop_first(), b.drop_first())) || is_subseq_of(
            a,
            b.drop_first(),
        )
    }
}

/// A subsequence is no longer than the sequence it came from.
pub proof fn lemma_subseq_len<T>(a: Seq<T>, b: Seq<T>)
    requires
        is_subseq_of(a, b),
    ensures
        a.len() <= b.len(),
    decreases a.len() + b.len(),
{
    if a.len() == 0 {
    } else if b.len() == 0 {
    } else {
        if a[0] == b[0] && is_subseq_of(a.drop_first(), b.drop_first()) {
            lemma_subseq_len(a.drop_first(), b.drop_first());
        } else {
            lemma_subseq_len(a, b.drop_first());
        }
    }
}

/// Prepending the same prefix to both sides preserves the subsequence
/// relation.
pub proof fn lemma_subseq_same_prefix<T>(x: Seq<T>, a: Seq<T>, b: Seq<T>)
    requires
        is_subseq_of(a, b),
    ensures
        is_subseq_of(x + a, x + b),
    decreases x.len(),
{
    if x.len() == 0 {
        assert(x + a =~= a);
        assert(x + b =~= b);
    } else {
        lemma_subseq_same_prefix(x.drop_first(), a, b);
        assert((x + a).drop_first() =~= x.drop_first() + a);
        assert((x + b).drop_first() =~= x.drop_first() + b);
        assert((x + a)[0] == (x + b)[0]);
    }
}

/// Prepending anything to the larger side preserves the subsequence
/// relation.
pub proof fn lemma_subseq_skip_prefix<T>(x: Seq<T>, a: Seq<T>, b: Seq<T>)
    requires
        is_subseq_of(a, b),
    ensures
        is_subseq_of(a, x + b),
    decreases x.len(),
{
    if x.len() == 0 {
        assert(x + b =~= b);
    } else {
        lemma_subseq_skip_prefix(x.drop_first(), a, b);
        assert((x + b).drop_first() =~= x.drop_first() + b);
        if a.len() > 0 {
            assert(is_subseq_of(a, x + b));
        }
    }
}

/// Enabling stopword filtering removes tokens and does nothing else: the
/// token stream with filtering is a subsequence of the stream without it,
/// over the same spans and the same stopword set.
pub proof fn lemma_stopword_filter_subsequence(
    words: Seq<Seq<char>>,
    off: int,
    stops: Seq<Seq<char>>,
)
    ensures
        is_subseq_of(
            words_tokens(words, off, stops, true),
            words_tokens(words, off, stops, false),
        ),
    decreases words.len(),
{
    if words.len() == 0 {
    } else {
        let w = words[0];
        let wlen = utf8_len(w) as int;
        let rest_f = words_tokens(words.drop_first(), off + wlen, stops, true);
        let rest_d = words_tokens(words.drop_first(), off + wlen, stops, false);
        lemma_stopword_filter_subsequence(words.drop_first(), off + wlen, stops);
        match emitted_text(w, stops, false) {
            Option::None => {
            },
            Option::Some(t) => {
                let tok = SpecToken { text: t, start: off, end: off + wlen, colocated: false };
                if skippable_word(w) {
                } else if stops.contains(normalized_word(w)) {
                    lemma_subseq_skip_prefix(seq![tok], rest_f, rest_d);
                } else {
                    lemma_subseq_same_prefix(seq![tok], rest_f, rest_d);
                }
            },
        }
    }
}

/// When some span is a kept word that the stopword set holds, filtering
/// removes at least one token: the filtered stream is strictly shorter, so
/// disabling filtering yields a strict superset.
pub proof fn lemma_stopword_filter_strict(words: Seq<Seq<char>>, off: int, stops: Seq<Seq<char>>)
    requires
        exists|k: int|
            0 <= k < words.len() && !skippable_word(#[trigger] words[k]) && stops.contains(
                normalized_word(words[k]),
            ),
    ensures
        words_tokens(words, off, stops, true).len() < words_tokens(words, off, stops, false).len(),
    decreases words.len(),
{
    let k = choose|k: int|
        0 <= k < words.len() && !skippable_word(#[trigger] words[k]) && stops.contains(
            normalized_word(words[k]),
        );
    let w = words[0];
    let wlen = utf8_len(w) as int;
    let rest_f = words_tokens(words.drop_first(), off + wlen, stops, true);
    let rest_d = words_tokens(words.drop_first(), off + wlen, stops, false);
    lemma_stopword_filter_subsequence(words.drop_first(), off + wlen, stops);
    lemma_subseq_len(rest_f, rest_d);
    if !skippable_word(w) && stops.contains(normalized_word(w)) {
        // the head itself is dropped by filtering and kept without it
    } else {
        assert(0 <= k - 1 < words.drop_first().len() && !skippable_word(words.drop_first()[k - 1])
            && stops.contains(normalized_word(words.drop_first()[k - 1])));
        lemma_stopword_filter_strict(words.drop_first(), off + wlen, stops);
    }
}

/// Per-character streams behave the same way: the token stream with
/// stopword filtering is a subsequence of the stream without it.
pub proof fn lemma_stopword_filter_subsequence_chars(
    s: Seq<char>,
    off: int,
    stops: Seq<Seq<char>>,
    expand: bool,
    entries: Seq<(char, Vec<String>)>,
)
    ensures
        is_subseq_of(
            char_tokens(s, off, stops, true, expand, entries),
            char_tokens(s, off, stops, false, expand, entries),
        ),
    decreases s.len(),
{
    if s.len() == 0 {
    } else {
        let c = s[0];
        let clen = crate::chars::char_utf8_len(c) as int;
        let rest_f = char_tokens(s.drop_first(), off + clen, stops, true, expand, entries);
        let rest_d = char_tokens(s.drop_first(), off + clen, stops, false, expand, entries);
        lemma_stopword_filter_subsequence_chars(s.drop_first(), off + clen, stops, expand, entries);
        match emitted_text(seq![c], stops, false) {
            Option::None => {
            },
            Option::Some(t) => {
                let lit = SpecToken { text: t, start: off, end: off + clen, colocated: false };
                let extra = if expand {
                    match spec_lookup(entries, c) {
                        Option::Some(reads) => reading_tokens(reads, off, off + clen),
                        Option::None => Seq::<SpecToken>::empty(),
                    }
                } else {
                    Seq::<SpecToken>::empty()
                };
                if skippable_word(seq![c]) {
                } else if stops.contains(normalized_word(seq![c])) {
                    lemma_subseq_skip_prefix(seq![lit] + extra, rest_f, rest_d);
                    assert(seq![lit] + extra + rest_d =~= (seq![lit] + extra) + rest_d);
                } else {
                    lemma_subseq_same_prefix(seq![lit] + extra, rest_f, rest_d);
                    assert(seq![lit] + extra + rest_f =~= (seq![lit] + extra) + rest_f);
                    assert(seq![lit] + extra + rest_d =~= (seq![lit] + extra) + rest_d);
                }
            },
        }
    }
}


/// The token is the image of character `k` of `s`: its byte range is that
/// character's position, and its text is either what the pipeline makes of
/// the character or, for a colocated token, one of the character's
/// readings.
pub open spec fn char_token_matches(
    t: SpecToken,
    s: Seq<char>,
    off: int,
    stops: Seq<Seq<char>>,
    filter: bool,
    expand: bool,
    entries: Seq<(char, Vec<String>)>,
    k: int,
) -> bool {
    &&& 0 <= k < s.len()
    &&& t.start == off + utf8_len(s.take(k))
    &&& t.end == t.start + char_utf8_len(s[k])
    &&& if t.colocated {
        &&& expand
        &&& emitted_text(seq![s[k]], stops, filter) is Some
        &&& (spec_lookup(entries, s[k]) matches Option::Some(reads) && reads.contains(t.text))
    } else {
        emitted_text(seq![s[k]], stops, filter) == Option::Some(t.text)
    }
}

/// Some character of `s` is the source of this token.
pub open spec fn some_char_matches(
    t: SpecToken,
    s: Seq<char>,
    off: int,
    stops: Seq<Seq<char>>,
    filter: bool,
    expand: bool,
    entries: Seq<(char, Vec<String>)>,
) -> bool {
    exists|k: int| char_token_matches(t, s, off, stops, filter, expand, entries, k)
}

/// Every token of a per-character stream is the image of one particular
/// character of the input.
pub proof fn lemma_char_tokens_spans(
    s: Seq<char>,
    off: int,
    stops: Seq<Seq<char>>,
    filter: bool,
    expand: bool,
    entries: Seq<(char, Vec<String>)>,
)
    ensures
        forall|i: int|
            0 <= i < char_tokens(s, off, stops, filter, expand, entries).len()
                ==> some_char_matches(
                #[trigger] char_tokens(s, off, stops, filter, expand, entries)[i],
                s,
                off,
                stops,
                filter,
                expand,
                entries,
            ),
    decreases s.len(),
{
    if s.len() == 0 {
    } else {
        let c = s[0];
        let clen = char_utf8_len(c) as int;
        let ts = char_tokens(s, off, stops, filter, expand, entries);
        let rest = char_tokens(s.drop_first(), off + clen, stops, filter, expand, entries);
        lemma_char_tokens_spans(s.drop_first(), off + clen, stops, filter, expand, entries);
        assert(s.take(0) =~= Seq::<char>::empty());
        assert(encode_utf8(Seq::<char>::empty()) =~= Seq::<u8>::empty());
        assert forall|i: int| 0 <= i < ts.len() implies some_char_matches(
            #[trigger] ts[i],
            s,
            off,
            stops,
            filter,
            expand,
            entries,
        ) by {
            let extra = if expand {
                match spec_lookup(entries, c) {
                    Option::Some(reads) => reading_tokens(reads, off, off + clen),
                    Option::None => Seq::<SpecToken>::empty(),
                }
            } else {
                Seq::<SpecToken>::empty()
            };
            let e = extra.len() as int;
            let head: int = if emitted_text(seq![c], stops, filter) is Some {
                1 + e
            } else {
                0
            };
            if i < head {
                let lit = SpecToken {
                    text: emitted_text(seq![c], stops, filter).unwrap(),
                    start: off,
                    end: off + clen,
                    colocated: false,
                };
                assert(ts =~= seq![lit] + extra + rest);
                if i == 0 {
                    assert(char_token_matches(ts[0], s, off, stops, filter, expand, entries, 0));
                } else {
                    assert(ts[i] == extra[i - 1]);
                    let reads = spec_lookup(entries, c).unwrap();
                    assert(extra[i - 1].text == reads[i - 1]);
                    assert(reads.contains(reads[i - 1]));
                    assert(char_token_matches(ts[i], s, off, stops, filter, expand, entries, 0));
                }
                assert(some_char_matches(ts[i], s, off, stops, filter, expand, entries));
            } else {
                if emitted_text(seq![c], stops, filter) is Some {
                    let lit = SpecToken {
                        text: emitted_text(seq![c], stops, filter).unwrap(),
                        start: off,
                        end: off + clen,
                        colocated: false,
                    };
                    assert(ts =~= seq![lit] + extra + rest);
                }
                assert(ts[i] == rest[i - head]);
                let k0 = choose|k0: int|
                    #[trigger] char_token_matches(
                        rest[i - head],
                        s.drop_first(),
                        off + clen,
                        stops,
                        filter,
                        expand,
                        entries,
                        k0,
                    );
                assert(s.take(k0 + 1) =~= seq![c] + s.drop_first().take(k0));
                lemma_encode_utf8_app(seq![c], s.drop_first().take(k0));
                lemma_utf8_len_single(c);
                assert(s[k0 + 1] == s.drop_first()[k0]);
                assert(char_token_matches(ts[i], s, off, stops, filter, expand, entries, k0 + 1));
                assert(some_char_matches(ts[i], s, off, stops, filter, expand, entries));
            }
        }
    }
}

/// Every token of a per-character stream has a well-ordered byte range
/// inside the byte range of the walked text.
pub proof fn lemma_char_tokens_wf(
    s: Seq<char>,
    off: int,
    stops: Seq<Seq<char>>,
    filter: bool,
    expand: bool,
    entries: Seq<(char, Vec<String>)>,
)
    ensures
        forall|i: int|
            0 <= i < char_tokens(s, off, stops, filter, expand, entries).len() ==> {
                &&& off <= #[trigger] char_tokens(s, off, stops, filter, expand, entries)[i].start
                &&& char_tokens(s, off, stops, filter, expand, entries)[i].start < char_tokens(
                    s,
                    off,
                    stops,
                    filter,
                    expand,
                    entries,
                )[i].end
                &&& char_tokens(s, off, stops, filter, expand, entries)[i].end <= off + utf8_len(s)
            },
{
    lemma_char_tokens_spans(s, off, stops, filter, expand, entries);
    let ts = char_tokens(s, off, stops, filter, expand, entries);
    assert forall|i: int| 0 <= i < ts.len() implies {
        &&& off <= #[trigger] ts[i].start
        &&& ts[i].start < ts[i].end
        &&& ts[i].end <= off + utf8_len(s)
    } by {
        let k = choose|k: int|
            #[trigger] char_token_matches(ts[i], s, off, stops, filter, expand, entries, k);
        assert(s =~= s.take(k) + seq![s[k]] + s.skip(k + 1));
        assert(s.take(k + 1) =~= s.take(k) + seq![s[k]]);
        assert(s =~= s.take(k + 1) + s.skip(k + 1));
        lemma_encode_utf8_app(s.take(k), seq![s[k]]);
        lemma_encode_utf8_app(s.take(k + 1), s.skip(k + 1));
        lemma_utf8_len_single(s[k]);
        assert(char_utf8_len(s[k]) >= 1);
    }
}

/// The token's text is a function of nothing but the input bytes inside
/// its own byte range: the character they encode is run through the
/// pipeline, and a colocated token carries one of that character's
/// readings from the fixed table.
pub open spec fn char_token_from_bytes(
    t: SpecToken,
    bytes: Seq<u8>,
    stops: Seq<Seq<char>>,
    filter: bool,
    expand: bool,
    entries: Seq<(char, Vec<String>)>,
) -> bool {
    let w = decode_utf8(bytes.subrange(t.start, t.end));
    if t.colocated {
        &&& expand
        &&& w.len() == 1
        &&& (spec_lookup(entries, w[0]) matches Option::Some(reads) && reads.contains(t.text))
    } else {
        emitted_text(w, stops, filter) == Option::Some(t.text)
    }
}

/// When the input bytes are valid UTF-8, the text of every token of the
/// per-character stream is a function of nothing but the input bytes
/// inside that token's byte range.
pub proof fn lemma_char_tokens_deterministic(
    bytes: Seq<u8>,
    stops: Seq<Seq<char>>,
    filter: bool,
    expand: bool,
    entries: Seq<(char, Vec<String>)>,
)
    requires
        valid_utf8(bytes),
    ensures
        forall|i: int|
            0 <= i < char_tokens(decode_utf8(bytes), 0, stops, filter, expand, entries).len()
                ==> char_token_from_bytes(
                #[trigger] char_tokens(decode_utf8(bytes), 0, stops, filter, expand, entries)[i],
                bytes,
                stops,
                filter,
                expand,
                entries,
            ),
{
    broadcast use vstd::utf8::encode_utf8_decode_utf8;

    vstd::utf8::decode_utf8_encode_utf8(bytes);
    let s = decode_utf8(bytes);
    let ts = char_tokens(s, 0, stops, filter, expand, entries);
    lemma_char_tokens_spans(s, 0, stops, filter, expand, entries);
    assert forall|i: int| 0 <= i < ts.len() implies char_token_from_bytes(
        #[trigger] ts[i],
        bytes,
        stops,
        filter,
        expand,
        entries,
    ) by {
        let t = ts[i];
        assert(some_char_matches(ts[i], s, 0, stops, filter, expand, entries));
        let k = choose|k: int|
            #[trigger] char_token_matches(ts[i], s, 0, stops, filter, expand, entries, k);
        assert(s =~= s.take(k) + seq![s[k]] + s.skip(k + 1));
        assert(s.take(k + 1) =~= s.take(k) + seq![s[k]]);
        assert(s =~= s.take(k + 1) + s.skip(k + 1));
        lemma_encode_utf8_app(s.take(k), seq![s[k]]);
        lemma_encode_utf8_app(s.take(k + 1), s.skip(k + 1));
        lemma_utf8_len_single(s[k]);
        assert(bytes == encode_utf8(s));
        assert(bytes == encode_utf8(s.take(k)) + encode_utf8(seq![s[k]]) + encode_utf8(
            s.skip(k + 1),
        ));
        assert(t.start == encode_utf8(s.take(k)).len());
        assert(bytes.subrange(t.start, t.end) =~= encode_utf8(seq![s[k]]));
        assert(decode_utf8(encode_utf8(seq![s[k]])) == seq![s[k]]);
    }
}

/// The shape colocation takes in a token stream: the stream never begins
/// with a colocated token, and every colocated token carries exactly the
/// byte range of the token immediately before it.
pub open spec fn colocation_wf(ts: Seq<SpecToken>) -> bool {
    &&& (ts.len() > 0 ==> !ts[0].colocated)
    &&& forall|i: int|
        0 < i < ts.len() && (#[trigger] ts[i]).colocated ==> ts[i - 1].start == ts[i].start && ts[i
            - 1].end == ts[i].end
}

/// Every per-character token stream is colocation well-formed: readings
/// follow the literal they expand and share its byte range.
pub proof fn lemma_char_tokens_colocation(
    s: Seq<char>,
    off: int,
    stops: Seq<Seq<char>>,
    filter: bool,
    expand: bool,
    entries: Seq<(char, Vec<String>)>,
)
    ensures
        colocation_wf(char_tokens(s, off, stops, filter, expand, entries)),
    decreases s.len(),
{
    if s.len() == 0 {
    } else {
        let c = s[0];
        let clen = crate::chars::char_utf8_len(c) as int;
        let ts = char_tokens(s, off, stops, filter, expand, entries);
        let rest = char_tokens(s.drop_first(), off + clen, stops, filter, expand, entries);
        lemma_char_tokens_colocation(s.drop_first(), off + clen, stops, filter, expand, entries);
        match emitted_text(seq![c], stops, filter) {
            Option::None => {
            },
            Option::Some(t) => {
                let lit = SpecToken { text: t, start: off, end: off + clen, colocated: false };
                let extra = if expand {
                    match spec_lookup(entries, c) {
                        Option::Some(reads) => reading_tokens(reads, off, off + clen),
                        Option::None => Seq::<SpecToken>::empty(),
                    }
                } else {
                    Seq::<SpecToken>::empty()
                };
                let e = extra.len() as int;
                assert(ts =~= seq![lit] + extra + rest);
                assert forall|i: int| 0 < i < ts.len() && (#[trigger] ts[i]).colocated implies ts[i
                    - 1].start == ts[i].start && ts[i - 1].end == ts[i].end by {
                    if i <= e {
                        assert(ts[i] == extra[i - 1]);
                        assert(ts[i].start == off && ts[i].end == off + clen);
                        if i > 1 {
                            assert(ts[i - 1] == extra[i - 2]);
                        } else {
                            assert(ts[0] == lit);
                        }
                    } else {
                        assert(ts[i] == rest[i - 1 - e]);
                        if i - 1 - e == 0 {
                            assert(!rest[0].colocated);
                        } else {
                            assert(ts[i - 1] == rest[i - 2 - e]);
                        }
                    }
                }
            },
        }
    }
}

/// In a colocation well-formed stream, every colocated token shares the
/// byte range of the nearest non-colocated token before it, with only
/// colocated tokens in between: this is what makes a colocated token an
/// alternative reading of the token it follows.
pub proof fn lemma_colocated_shares_preceding_plain(ts: Seq<SpecToken>, i: int)
    requires
        colocation_wf(ts),
        0 <= i < ts.len(),
        ts[i].colocated,
    ensures
        exists|j: int|
            0 <= j < i && !(#[trigger] ts[j]).colocated && ts[j].start == ts[i].start && ts[j].end
                == ts[i].end && (forall|m: int| j < m <= i ==> (#[trigger] ts[m]).colocated),
    decreases i,
{
    if !ts[i - 1].colocated {
        let j = i - 1;
        assert(0 <= j < i && !ts[j].colocated && ts[j].start == ts[i].start && ts[j].end
            == ts[i].end && (forall|m: int| j < m <= i ==> ts[m].colocated));
    } else {
        lemma_colocated_shares_preceding_plain(ts, i - 1);
        let j = choose|j: int|
            0 <= j < i - 1 && !(#[trigger] ts[j]).colocated && ts[j].start == ts[i - 1].start
                && ts[j].end == ts[i - 1].end && (forall|m: int|
                j < m <= i - 1 ==> (#[trigger] ts[m]).colocated);
        assert(0 <= j < i && !ts[j].colocated && ts[j].start == ts[i].start && ts[j].end
            == ts[i].end && (forall|m: int| j < m <= i ==> ts[m].colocated));
    }
}

} // verus!
