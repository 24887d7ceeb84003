//! The token-normalization pipeline at the level of a single word span:
//! classification of droppable spans, Unicode canonicalization with
//! diacritic stripping, and case folding with the stem-eligibility decision.

use vstd::prelude::*;
use crate::chars::{
    ascii_lower_char, is_ascii_char, is_ascii_upper_char, is_diacritic, is_diacritic_char,
    is_skippable, is_skippable_char, to_ascii_lower,
};
use crate::foreign::{all_ascii, chars_to_string, lower_char_expand, lower_chars_of, nfkc_chars, nfkc_of};

verus! {

/// The case-folded image of one canonicalized character: diacritics vanish,
/// ASCII is lowercased byte-wise, anything else takes its full Unicode
/// lowercase mapping.
pub open spec fn fold_char(c: char) -> Seq<char> {
    if is_diacritic_char(c) {
        Seq::empty()
    } else if is_ascii_char(c) {
        seq![ascii_lower_char(c)]
    } else {
        lower_chars_of(c)
    }
}

/// The concatenation of the folded images of a character sequence.
pub open spec fn fold_chars(s: Seq<char>) -> Seq<char>
    decreases s.len(),
{
    if s.len() == 0 {
        Seq::empty()
    } else {
        fold_char(s[0]) + fold_chars(s.drop_first())
    }
}

/// What normalization makes of a word span: NFKC canonicalization, then
/// diacritic stripping and case folding in one pass.
pub open spec fn normalized_word(w: Seq<char>) -> Seq<char> {
    fold_chars(nfkc_of(w))
}

/// After canonicalization the word consists of ASCII characters and
/// diacritics alone, so its folded form is pure ASCII.
pub open spec fn ascii_foldable(w: Seq<char>) -> bool {
    forall|i: int|
        0 <= i < nfkc_of(w).len() ==> is_diacritic_char(#[trigger] nfkc_of(w)[i]) || is_ascii_char(
            nfkc_of(w)[i],
        )
}

/// A word is handed to the stemmer exactly when its folded form is pure
/// ASCII and longer than one character.
pub open spec fn stem_eligible(w: Seq<char>) -> bool {
    ascii_foldable(w) && normalized_word(w).len() > 1
}

/// A span made only of whitespace, control characters and ASCII punctuation
/// (the empty span included) is dropped without producing a token.
pub open spec fn skippable_word(w: Seq<char>) -> bool {
    forall|i: int| 0 <= i < w.len() ==> is_skippable_char(#[trigger] w[i])
}

/// A word that normalization leaves alone: ASCII with no uppercase letter.
pub open spec fn is_plain_lower(s: Seq<char>) -> bool {
    all_ascii(s) && forall|i: int| 0 <= i < s.len() ==> !is_ascii_upper_char(#[trigger] s[i])
}

/// Folding distributes over concatenation.
pub proof fn lemma_fold_chars_app(s: Seq<char>, t: Seq<char>)
    ensures
        fold_chars(s + t) == fold_chars(s) + fold_chars(t),
    decreases s.len(),
{
    if s.len() == 0 {
        assert(s + t =~= t);
        assert(fold_chars(s) + fold_chars(t) =~= fold_chars(t));
    } else {
        assert((s + t).drop_first() =~= s.drop_first() + t);
        lemma_fold_chars_app(s.drop_first(), t);
        assert(fold_chars(s + t) =~= fold_chars(s) + fold_chars(t));
    }
}

/// Folding a word that is already ASCII lowercase is the identity.
pub proof fn lemma_fold_plain_lower(s: Seq<char>)
    requires
        is_plain_lower(s),
    ensures
        fold_chars(s) == s,
    decreases s.len(),
{
    if s.len() == 0 {
        assert(fold_chars(s) =~= s);
    } else {
        assert(is_ascii_char(s[0]) && !is_ascii_upper_char(s[0]));
        assert(is_plain_lower(s.drop_first()));
        lemma_fold_plain_lower(s.drop_first());
        assert(fold_chars(s) =~= s);
    }
}

/// The characters of a string slice, as a vector.
pub fn str_chars(s: &str) -> (r: Vec<char>)
    ensures
        r@ == s@,
{
    let mut v: Vec<char> = Vec::new();
    for c in it: s.chars()
        invariant
            it.seq() == s@,
            v@ == it.seq().take(it.index() as int),
    {
        v.push(c);
    }
    proof {
        assert(v@ =~= s@);
    }
    v
}

/// Whether the span consists only of whitespace, control characters and
/// ASCII punctuation, in which case it is dropped.
pub fn is_space_or_ascii_punctuation_str(word: &str) -> (r: bool)
    ensures
        r == skippable_word(word@),
{
    let chars = str_chars(word);
    let n = chars.len();
    let mut all: bool = true;
    let mut i: usize = 0;
    while i < n
        invariant
            i <= n,
            n == chars@.len(),
            chars@ == word@,
            all == (forall|j: int| 0 <= j < i ==> is_skippable_char(#[trigger] word@[j])),
        decreases n - i,
    {
        if !is_skippable(chars[i]) {
            all = false;
        }
        i += 1;
    }
    all
}

/// Normalizes a word into `buf`: NFKC canonicalization, diacritic
/// stripping, case folding. Returns whether the result should be handed to
/// the stemmer. Re-normalizing an already-normalized ASCII lowercase word
/// gives the word back unchanged.
pub fn make_lowercase(word: &str, buf: &mut String) -> (need_stem: bool)
    ensures
        final(buf)@ == normalized_word(word@),
        need_stem == stem_eligible(word@),
        is_plain_lower(word@) ==> final(buf)@ == word@,
{
    let src = nfkc_chars(word);
    let n = src.len();
    let mut out: Vec<char> = Vec::new();
    let mut ascii_only: bool = true;
    let mut i: usize = 0;
    while i < n
        invariant
            n == src@.len(),
            src@ == nfkc_of(word@),
            i <= n,
            out@ == fold_chars(src@.take(i as int)),
            ascii_only == (forall|j: int|
                0 <= j < i ==> is_diacritic_char(#[trigger] src@[j]) || is_ascii_char(src@[j])),
        decreases n - i,
    {
        let c = src[i];
        proof {
            assert(src@.take(i + 1) =~= src@.take(i as int) + seq![src@[i as int]]);
            lemma_fold_chars_app(src@.take(i as int), seq![src@[i as int]]);
            let ghost single = seq![c];
            assert(single.drop_first() =~= Seq::<char>::empty());
            assert(fold_chars(single) == fold_char(c) + fold_chars(single.drop_first()));
            assert(fold_char(c) + Seq::<char>::empty() =~= fold_char(c));
            assert(fold_chars(single) == fold_char(c));
        }
        if is_diacritic(c) {
            // dropped during the same pass
        } else if (c as u32) <= 0x7f {
            out.push(to_ascii_lower(c));
            proof {
                assert(out@ =~= fold_chars(src@.take(i + 1)));
            }
        } else {
            ascii_only = false;
            let ex = lower_char_expand(c);
            let mut k: usize = 0;
            let ghost out_before = out@;
            while k < ex.len()
                invariant
                    k <= ex@.len(),
                    out@ == out_before + ex@.take(k as int),
                decreases ex@.len() - k,
            {
                out.push(ex[k]);
                proof {
                    assert(out_before + ex@.take(k + 1) =~= (out_before + ex@.take(k as int)).push(
                        ex@[k as int],
                    ));
                }
                k += 1;
            }
            proof {
                assert(ex@.take(ex@.len() as int) =~= ex@);
                assert(out@ =~= fold_chars(src@.take(i + 1)));
            }
        }
        i += 1;
    }
    proof {
        assert(src@.take(n as int) =~= src@);
    }
    let need_stem = ascii_only && out.len() > 1;
    *buf = chars_to_string(&out);
    proof {
        if is_plain_lower(word@) {
            assert(src@ == word@);
            lemma_fold_plain_lower(word@);
        }
    }
    need_stem
}

} // verus!
