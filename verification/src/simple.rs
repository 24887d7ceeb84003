//! The per-character tokenizer: the input is walked character by
//! character, each character runs through the shared normalization
//! pipeline, and an emitted character eligible for phonetic lookup is
//! followed by its romanized readings as colocated tokens over the same
//! byte range.

use vstd::prelude::*;
use vstd::utf8::valid_utf8;
use crate::chars::char_utf8_len;
use crate::foreign::{chars_to_string, lossy_decode, lossy_of};
use crate::normalize::str_chars;
use crate::pipeline::process_word;
use crate::token::{
    emitted_text, lemma_encode_utf8_app, token_views, utf8_len, word_views, SpecToken, Token,
};

verus! {

/// The phonetic lookup table: an ordered list of characters, each with its
/// romanized readings. The table is external, swappable data; the first
/// entry for a character wins.
pub struct PinyinLookup {
    /// The entries, looked up front to back.
    pub entries: Vec<(char, Vec<String>)>,
}

/// The readings the table gives for a character: those of the first entry
/// that carries it, if any.
pub open spec fn spec_lookup(entries: Seq<(char, Vec<String>)>, c: char) -> Option<Seq<Seq<char>>>
    decreases entries.len(),
{
    if entries.len() == 0 {
        Option::None
    } else if entries[0].0 == c {
        Option::Some(word_views(entries[0].1@))
    } else {
        spec_lookup(entries.drop_first(), c)
    }
}

impl PinyinLookup {
    /// A table with no entries.
    pub fn new() -> (r: Self)
        ensures
            r.entries@ == Seq::<(char, Vec<String>)>::empty(),
    {
        PinyinLookup { entries: Vec::new() }
    }

    /// Appends an entry mapping `c` to `readings`; earlier entries for the
    /// same character keep priority.
    pub fn push_entry(&mut self, c: char, readings: Vec<String>)
        ensures
            final(self).entries@ == old(self).entries@.push((c, readings)),
    {
        self.entries.push((c, readings));
    }

    /// The position of the first entry for `c`, if the table has one.
    pub fn find(&self, c: char) -> (r: Option<usize>)
        ensures
            match r {
                Option::Some(i) => i < self.entries@.len() && self.entries@[i as int].0 == c
                    && spec_lookup(self.entries@, c) == Option::Some(
                    word_views(self.entries@[i as int].1@),
                ),
                Option::None => spec_lookup(self.entries@, c) is None,
            },
    {
        let n = self.entries.len();
        let mut i: usize = 0;
        proof {
            assert(self.entries@.skip(0) =~= self.entries@);
        }
        while i < n
            invariant
                i <= n,
                n == self.entries@.len(),
                spec_lookup(self.entries@, c) == spec_lookup(self.entries@.skip(i as int), c),
                forall|j: int| 0 <= j < i ==> #[trigger] self.entries@[j].0 != c,
            decreases n - i,
        {
            proof {
                assert(self.entries@.skip(i as int).drop_first() =~= self.entries@.skip(i + 1));
                assert(self.entries@.skip(i as int)[0] == self.entries@[i as int]);
            }
            if self.entries[i].0 == c {
                return Some(i);
            }
            i += 1;
        }
        proof {
            assert(self.entries@.skip(n as int) =~= Seq::<(char, Vec<String>)>::empty());
        }
        None
    }
}

/// Whether a span is handled by the phonetic lookup: it must be a single
/// character that the table knows.
pub fn need_pinyin(word: &str, lookup: &PinyinLookup) -> (r: bool)
    ensures
        r == (word@.len() == 1 && spec_lookup(lookup.entries@, word@[0]) is Some),
{
    let chars = str_chars(word);
    if chars.len() != 1 {
        return false;
    }
    match lookup.find(chars[0]) {
        Some(_) => true,
        None => false,
    }
}

/// The colocated tokens for the readings of one character, all sharing the
/// byte range `[start, end)` of the literal token before them.
pub open spec fn reading_tokens(reads: Seq<Seq<char>>, start: int, end: int) -> Seq<SpecToken> {
    reads.map_values(|t: Seq<char>| SpecToken { text: t, start, end, colocated: true })
}

/// The tokens the per-character walk emits for the characters of `s`
/// starting at byte offset `off`: every character advances the offset by
/// its UTF-8 width; a kept character contributes its normalized literal
/// and, when expansion is on and the table knows the character, its
/// readings as colocated tokens over the same range.
pub open spec fn char_tokens(
    s: Seq<char>,
    off: int,
    stops: Seq<Seq<char>>,
    filter: bool,
    expand: bool,
    entries: Seq<(char, Vec<String>)>,
) -> Seq<SpecToken>
    decreases s.len(),
{
    if s.len() == 0 {
        Seq::empty()
    } else {
        let c = s[0];
        let clen = char_utf8_len(c) as int;
        let rest = char_tokens(s.drop_first(), off + clen, stops, filter, expand, entries);
        match emitted_text(seq![c], stops, filter) {
            Option::None => rest,
            Option::Some(t) => {
                let lit = SpecToken { text: t, start: off, end: off + clen, colocated: false };
                let extra = if expand {
                    match spec_lookup(entries, c) {
                        Option::Some(reads) => reading_tokens(reads, off, off + clen),
                        Option::None => Seq::empty(),
                    }
                } else {
                    Seq::empty()
                };
                seq![lit] + extra + rest
            },
        }
    }
}

/// The UTF-8 byte length of a single-character sequence is the character's
/// UTF-8 width.
pub proof fn lemma_utf8_len_single(c: char)
    ensures
        utf8_len(seq![c]) == char_utf8_len(c),
{
    let single = seq![c];
    assert(single.drop_first() =~= Seq::<char>::empty());
    assert(vstd::utf8::encode_utf8(Seq::<char>::empty()) =~= Seq::<u8>::empty());
    assert(vstd::utf8::encode_utf8(single) =~= vstd::utf8::encode_scalar(c as u32));
}

/// The tokens of a concatenation of two character sequences are the tokens
/// of the first followed by the tokens of the second, offset past the
/// first.
pub proof fn lemma_char_tokens_app(
    a: Seq<char>,
    b: Seq<char>,
    off: int,
    stops: Seq<Seq<char>>,
    filter: bool,
    expand: bool,
    entries: Seq<(char, Vec<String>)>,
)
    ensures
        char_tokens(a + b, off, stops, filter, expand, entries) == char_tokens(
            a,
            off,
            stops,
            filter,
            expand,
            entries,
        ) + char_tokens(b, off + utf8_len(a), stops, filter, expand, entries),
    decreases a.len(),
{
    if a.len() == 0 {
        assert(a + b =~= b);
        assert(utf8_len(a) == 0);
        assert(char_tokens(a, off, stops, filter, expand, entries) + char_tokens(
            b,
            off + utf8_len(a),
            stops,
            filter,
            expand,
            entries,
        ) =~= char_tokens(b, off, stops, filter, expand, entries));
    } else {
        assert((a + b).drop_first() =~= a.drop_first() + b);
        lemma_char_tokens_app(
            a.drop_first(),
            b,
            off + char_utf8_len(a[0]),
            stops,
            filter,
            expand,
            entries,
        );
        assert(a =~= seq![a[0]] + a.drop_first());
        lemma_encode_utf8_app(seq![a[0]], a.drop_first());
        lemma_utf8_len_single(a[0]);
        assert(utf8_len(a) == char_utf8_len(a[0]) + utf8_len(a.drop_first()));
        assert(char_tokens(a + b, off, stops, filter, expand, entries) =~= char_tokens(
            a,
            off,
            stops,
            filter,
            expand,
            entries,
        ) + char_tokens(b, off + utf8_len(a), stops, filter, expand, entries));
    }
}

/// The per-character tokenizer: one instance per host-side configuration,
/// owning its stopword set, its phonetic lookup table, and the two
/// switches its arguments control.
pub struct SimpleTokenizer {
    /// Whether phonetic expansion is applied; on unless an argument
    /// disabled it.
    pub enable_pinyin: bool,
    /// Whether stopword filtering is applied; on unless an argument
    /// disabled it.
    pub enable_stopword: bool,
    /// The stopword set this instance filters against.
    pub stopwords: Vec<String>,
    /// The phonetic lookup table.
    pub pinyin: PinyinLookup,
}

impl SimpleTokenizer {
    /// The name under which the host's schema selects this tokenizer.
    pub fn name() -> (r: &'static str)
        ensures
            r@ == "simple"@,
    {
        "simple"
    }

    /// Switches stopword filtering off.
    pub fn disable_stopword(&mut self)
        ensures
            final(self).enable_stopword == false,
            final(self).enable_pinyin == old(self).enable_pinyin,
            final(self).stopwords == old(self).stopwords,
            final(self).pinyin == old(self).pinyin,
    {
        self.enable_stopword = false;
    }

    /// Switches phonetic expansion off.
    pub fn disable_pinyin(&mut self)
        ensures
            final(self).enable_pinyin == false,
            final(self).enable_stopword == old(self).enable_stopword,
            final(self).stopwords == old(self).stopwords,
            final(self).pinyin == old(self).pinyin,
    {
        self.enable_pinyin = false;
    }

    /// Builds an instance from the given stopword set, phonetic table and
    /// the decoded declaration arguments: `disable_stopword` switches
    /// filtering off, `disable_pinyin` switches expansion off, and every
    /// unrecognized argument is ignored.
    pub fn new(stopwords: Vec<String>, pinyin: PinyinLookup, args: &Vec<String>) -> (r: Self)
        ensures
            r.stopwords == stopwords,
            r.pinyin == pinyin,
            r.enable_stopword == !word_views(args@).contains("disable_stopword"@),
            r.enable_pinyin == !word_views(args@).contains("disable_pinyin"@),
    {
        let mut t = SimpleTokenizer {
            enable_pinyin: true,
            enable_stopword: true,
            stopwords,
            pinyin,
        };
        let stop_flag: String = "disable_stopword".to_owned();
        let pinyin_flag: String = "disable_pinyin".to_owned();
        let n = args.len();
        let mut i: usize = 0;
        while i < n
            invariant
                i <= n,
                n == args@.len(),
                stop_flag@ == "disable_stopword"@,
                pinyin_flag@ == "disable_pinyin"@,
                t.enable_stopword == !(exists|j: int|
                    0 <= j < i && #[trigger] args@[j]@ == "disable_stopword"@),
                t.enable_pinyin == !(exists|j: int|
                    0 <= j < i && #[trigger] args@[j]@ == "disable_pinyin"@),
                t.stopwords == stopwords,
                t.pinyin == pinyin,
            decreases n - i,
        {
            if args[i].eq(&stop_flag) {
                t.enable_stopword = false;
            }
            if args[i].eq(&pinyin_flag) {
                t.enable_pinyin = false;
            }
            i += 1;
        }
        proof {
            crate::token::lemma_word_views_contains(args@, "disable_stopword"@);
            crate::token::lemma_word_views_contains(args@, "disable_pinyin"@);
        }
        t
    }

    /// Tokenizes `text` by walking the lossily decoded characters: each
    /// character the pipeline keeps is emitted over its own byte range,
    /// followed, when phonetic expansion applies, by its readings as
    /// colocated tokens over that same range. Every range is well-ordered
    /// and within the text, the stream never begins with a colocated token,
    /// every colocated token carries the range of the token before it, and
    /// for valid UTF-8 input each token's text is a function of nothing but
    /// the input bytes inside its own range.
    pub fn tokenize(&self, text: &[u8]) -> (r: Vec<Token>)
        ensures
            token_views(r@) == char_tokens(
                lossy_of(text@),
                0,
                word_views(self.stopwords@),
                self.enable_stopword,
                self.enable_pinyin,
                self.pinyin.entries@,
            ),
            crate::laws::colocation_wf(token_views(r@)),
            forall|i: int|
                0 <= i < token_views(r@).len() ==> 0 <= #[trigger] token_views(r@)[i].start
                    < token_views(r@)[i].end <= utf8_len(lossy_of(text@)),
            valid_utf8(text@) ==> utf8_len(lossy_of(text@)) == text@.len(),
            valid_utf8(text@) ==> forall|i: int|
                0 <= i < token_views(r@).len() ==> crate::laws::char_token_from_bytes(
                    #[trigger] token_views(r@)[i],
                    text@,
                    word_views(self.stopwords@),
                    self.enable_stopword,
                    self.enable_pinyin,
                    self.pinyin.entries@,
                ),
    {
        let ghost sv = word_views(self.stopwords@);
        let ghost filter = self.enable_stopword;
        let ghost expand = self.enable_pinyin;
        let ghost ev = self.pinyin.entries@;
        let s = lossy_decode(text);
        let chars = str_chars(s.as_str());
        let ghost cv = s@;
        let n = chars.len();
        let mut out: Vec<Token> = Vec::new();
        let mut off: usize = 0;
        let mut i: usize = 0;
        proof {
            assert(cv.take(0) =~= Seq::<char>::empty());
            assert(vstd::utf8::encode_utf8(Seq::<char>::empty()) =~= Seq::<u8>::empty());
            assert(token_views(out@) =~= char_tokens(cv.take(0), 0, sv, filter, expand, ev));
        }
        while i < n
            invariant
                i <= n,
                n == cv.len(),
                chars@ == cv,
                utf8_len(cv) <= usize::MAX,
                sv == word_views(self.stopwords@),
                filter == self.enable_stopword,
                expand == self.enable_pinyin,
                ev == self.pinyin.entries@,
                off == utf8_len(cv.take(i as int)),
                token_views(out@) == char_tokens(cv.take(i as int), 0, sv, filter, expand, ev),
            decreases n - i,
        {
            let c = chars[i];
            proof {
                assert(cv.take(i + 1) =~= cv.take(i as int) + seq![c]);
                lemma_encode_utf8_app(cv.take(i as int), seq![c]);
                lemma_utf8_len_single(c);
                assert(cv =~= cv.take(i + 1) + cv.skip(i + 1));
                lemma_encode_utf8_app(cv.take(i + 1), cv.skip(i + 1));
                lemma_char_tokens_app(cv.take(i as int), seq![c], 0, sv, filter, expand, ev);
                assert(seq![c].drop_first() =~= Seq::<char>::empty());
            }
            let clen = crate::chars::utf8_width(c);
            let next_off = off + clen;
            let mut one: Vec<char> = Vec::new();
            one.push(c);
            proof {
                assert(one@ =~= seq![c]);
            }
            let word = chars_to_string(&one);
            let ghost single_tokens = char_tokens(seq![c], off as int, sv, filter, expand, ev);
            match process_word(word.as_str(), self.enable_stopword, &self.stopwords) {
                None => {
                    proof {
                        assert(emitted_text(seq![c], sv, filter) is None);
                        assert(char_tokens(
                            Seq::<char>::empty(),
                            off + char_utf8_len(c),
                            sv,
                            filter,
                            expand,
                            ev,
                        ) =~= Seq::<SpecToken>::empty());
                        assert(single_tokens =~= Seq::<SpecToken>::empty());
                        assert(token_views(out@) =~= char_tokens(
                            cv.take(i + 1),
                            0,
                            sv,
                            filter,
                            expand,
                            ev,
                        ));
                    }
                },
                Some(text_out) => {
                    let lit = Token { text: text_out, start: off, end: next_off, colocated: false };
                    let ghost lit_spec = lit@;
                    proof {
                        assert(emitted_text(seq![c], sv, filter) == Option::Some(lit_spec.text));
                        assert(char_tokens(
                            Seq::<char>::empty(),
                            off + char_utf8_len(c),
                            sv,
                            filter,
                            expand,
                            ev,
                        ) =~= Seq::<SpecToken>::empty());
                        assert(token_views(out@.push(lit)) =~= token_views(out@) + seq![lit_spec]);
                    }
                    out.push(lit);
                    let ghost extra = if expand {
                        match spec_lookup(ev, c) {
                            Option::Some(reads) => reading_tokens(reads, off as int, next_off as int),
                            Option::None => Seq::<SpecToken>::empty(),
                        }
                    } else {
                        Seq::<SpecToken>::empty()
                    };
                    let ghost base = token_views(out@);
                    if self.enable_pinyin {
                        match self.pinyin.find(c) {
                            Some(e) => {
                                let ghost reads = word_views(self.pinyin.entries@[e as int].1@);
                                let readings = &self.pinyin.entries[e].1;
                                let m = readings.len();
                                let mut k: usize = 0;
                                while k < m
                                    invariant
                                        k <= m,
                                        m == readings@.len(),
                                        readings@ == self.pinyin.entries@[e as int].1@,
                                        reads == word_views(self.pinyin.entries@[e as int].1@),
                                        extra == reading_tokens(reads, off as int, next_off as int),
                                        token_views(out@) == base + reading_tokens(
                                            reads.take(k as int),
                                            off as int,
                                            next_off as int,
                                        ),
                                    decreases m - k,
                                {
                                    let tok = Token {
                                        text: readings[k].clone(),
                                        start: off,
                                        end: next_off,
                                        colocated: true,
                                    };
                                    proof {
                                        assert(reads.take(k + 1) =~= reads.take(k as int).push(
                                            reads[k as int],
                                        ));
                                        assert(reading_tokens(
                                            reads.take(k + 1),
                                            off as int,
                                            next_off as int,
                                        ) =~= reading_tokens(
                                            reads.take(k as int),
                                            off as int,
                                            next_off as int,
                                        ).push(tok@));
                                        assert(token_views(out@.push(tok)) =~= token_views(out@)
                                            + seq![tok@]);
                                        assert(base + reading_tokens(
                                            reads.take(k as int),
                                            off as int,
                                            next_off as int,
                                        ) + seq![tok@] =~= base + reading_tokens(
                                            reads.take(k + 1),
                                            off as int,
                                            next_off as int,
                                        ));
                                    }
                                    out.push(tok);
                                    k += 1;
                                }
                                proof {
                                    assert(reads.take(m as int) =~= reads);
                                }
                            },
                            None => {
                                proof {
                                    assert(extra =~= Seq::<SpecToken>::empty());
                                    assert(base + extra =~= base);
                                }
                            },
                        }
                    } else {
                        proof {
                            assert(base + extra =~= base);
                        }
                    }
                    proof {
                        assert(single_tokens =~= seq![lit_spec] + extra);
                        assert(token_views(out@) =~= char_tokens(
                            cv.take(i + 1),
                            0,
                            sv,
                            filter,
                            expand,
                            ev,
                        ));
                    }
                },
            }
            off = next_off;
            i += 1;
        }
        proof {
            assert(cv.take(n as int) =~= cv);
            crate::laws::lemma_char_tokens_colocation(cv, 0, sv, filter, expand, ev);
            crate::laws::lemma_char_tokens_wf(cv, 0, sv, filter, expand, ev);
            if valid_utf8(text@) {
                vstd::utf8::decode_utf8_encode_utf8(text@);
                crate::laws::lemma_char_tokens_deterministic(text@, sv, filter, expand, ev);
            }
        }
        out
    }
}

} // verus!
