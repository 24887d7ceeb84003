//! The phrase-segmentation tokenizer: span discovery is delegated to the
//! jieba word-breaking engine, and every span then runs through the shared
//! normalization pipeline, without phonetic expansion.

use vstd::prelude::*;
use vstd::utf8::valid_utf8;
use crate::foreign::{lossy_decode, lossy_of};
use crate::pipeline::tokens_from_words;
use crate::token::{
    concat_words, lemma_span_lengths_total, lemma_tokens_deterministic, lemma_words_tokens_wf,
    plain_token_in_range, token_text_from_bytes, token_views, utf8_len, word_views, words_tokens,
    Token,
};

verus! {

#[verifier::external_type_specification]
#[verifier::external_body]
pub struct ExJieba(jieba_rs::Jieba);

/// Relies on `jieba_rs::Jieba::new`: builds the segmentation engine over
/// its built-in dictionary.
#[verifier::external_body]
fn jieba_new() -> jieba_rs::Jieba {
    jieba_rs::Jieba::new()
}

/// Relies on `jieba_rs::Jieba::cut`: the returned words are consecutive
/// sub-slices of the input, in order, and together they cover it exactly,
/// so their concatenation is the input itself.
#[verifier::external_body]
fn jieba_cut(jieba: &jieba_rs::Jieba, text: &str) -> (r: Vec<String>)
    ensures
        concat_words(word_views(r@)) == text@,
{
    jieba.cut(text, true).into_iter().map(|t| t.word.to_string()).collect()
}

/// The phrase-segmentation tokenizer: one instance per host-side
/// configuration, owning its stopword set and whether that set is applied.
pub struct JiebaTokenizer {
    /// Whether stopword filtering is applied; on unless an argument
    /// disabled it.
    pub enable_stopword: bool,
    /// The stopword set this instance filters against.
    pub stopwords: Vec<String>,
    /// The segmentation engine.
    pub jieba: jieba_rs::Jieba,
}

impl Default for JiebaTokenizer {
    /// A tokenizer with stopword filtering switched on and no stopwords
    /// installed yet.
    fn default() -> (r: Self)
        ensures
            r.enable_stopword == true,
            r.stopwords@ == Seq::<String>::empty(),
    {
        JiebaTokenizer { enable_stopword: true, stopwords: Vec::new(), jieba: jieba_new() }
    }
}

impl JiebaTokenizer {
    /// The name under which the host's schema selects this tokenizer.
    pub fn name() -> (r: &'static str)
        ensures
            r@ == "jieba"@,
    {
        "jieba"
    }

    /// Switches stopword filtering off.
    pub fn disable_stopword(&mut self)
        ensures
            final(self).enable_stopword == false,
            final(self).stopwords == old(self).stopwords,
            final(self).jieba == old(self).jieba,
    {
        self.enable_stopword = false;
    }

    /// Builds an instance from the given stopword set and the decoded
    /// declaration arguments: `disable_stopword` switches filtering off and
    /// every unrecognized argument is ignored.
    pub fn new(stopwords: Vec<String>, args: &Vec<String>) -> (r: Self)
        ensures
            r.stopwords == stopwords,
            r.enable_stopword == !word_views(args@).contains("disable_stopword"@),
    {
        let mut t = JiebaTokenizer { enable_stopword: true, stopwords, jieba: jieba_new() };
        let flag: String = "disable_stopword".to_owned();
        let n = args.len();
        let mut i: usize = 0;
        while i < n
            invariant
                i <= n,
                n == args@.len(),
                flag@ == "disable_stopword"@,
                t.enable_stopword == !(exists|j: int|
                    0 <= j < i && #[trigger] args@[j]@ == "disable_stopword"@),
                t.stopwords == stopwords,
            decreases n - i,
        {
            if args[i].eq(&flag) {
                t.enable_stopword = false;
            }
            i += 1;
        }
        proof {
            crate::token::lemma_word_views_contains(args@, "disable_stopword"@);
        }
        t
    }

    /// Tokenizes `text`: the engine splits the lossily decoded text into
    /// spans that cover it exactly, and each span the pipeline keeps is
    /// emitted with the byte range it occupies. Every token's range is
    /// well-ordered, within the text, and strictly advancing, and for valid
    /// UTF-8 input each token's text is a function of nothing but the input
    /// bytes inside its own range.
    pub fn tokenize(&self, text: &[u8]) -> (r: Vec<Token>)
        ensures
            exists|words: Seq<Seq<char>>|
                #[trigger] concat_words(words) == lossy_of(text@) && token_views(r@)
                    == words_tokens(
                    words,
                    0,
                    word_views(self.stopwords@),
                    self.enable_stopword,
                ),
            forall|i: int|
                0 <= i < token_views(r@).len() ==> plain_token_in_range(
                    #[trigger] token_views(r@)[i],
                    0,
                    utf8_len(lossy_of(text@)) as int,
                ),
            forall|i: int, j: int|
                0 <= i < j < token_views(r@).len() ==> #[trigger] token_views(r@)[i].end
                    <= #[trigger] token_views(r@)[j].start,
            crate::laws::colocation_wf(token_views(r@)),
            valid_utf8(text@) ==> utf8_len(lossy_of(text@)) == text@.len(),
            valid_utf8(text@) ==> forall|i: int|
                0 <= i < token_views(r@).len() ==> token_text_from_bytes(
                    #[trigger] token_views(r@)[i],
                    text@,
                    word_views(self.stopwords@),
                    self.enable_stopword,
                ),
    {
        let ghost sv = word_views(self.stopwords@);
        let ghost filter = self.enable_stopword;
        let s = lossy_decode(text);
        let words = jieba_cut(&self.jieba, s.as_str());
        let ghost wv = word_views(words@);
        proof {
            lemma_span_lengths_total(wv);
        }
        let toks = tokens_from_words(&words, self.enable_stopword, &self.stopwords);
        proof {
            lemma_words_tokens_wf(wv, 0, sv, filter);
            assert(crate::laws::colocation_wf(token_views(toks@)));
            if valid_utf8(text@) {
                vstd::utf8::decode_utf8_encode_utf8(text@);
                lemma_tokens_deterministic(wv, text@, sv, filter);
            }
        }
        toks
    }
}

} // verus!
