//! How a text is cut into words: a word is a maximal run of word characters
//! (alphanumeric characters, apostrophes and hyphens); every other character
//! ends the current word, which may be empty.
use vstd::prelude::*;
use crate::vocab::normal_form;

verus! {

/// Whether `char::is_alphanumeric` holds of a character beyond ASCII
/// (Unicode Alphabetic or Numeric).
pub uninterp spec fn non_ascii_alphanumeric(c: char) -> bool;

/// An ASCII letter or digit.
pub open spec fn ascii_alphanumeric(c: char) -> bool {
    ('a' <= c && c <= 'z') || ('A' <= c && c <= 'Z') || ('0' <= c && c <= '9')
}

/// Whether `char::is_alphanumeric` holds of `c`: among ASCII characters it
/// holds of the letters and digits alone.
pub open spec fn alphanumeric(c: char) -> bool {
    if (c as u32) < 128 {
        ascii_alphanumeric(c)
    } else {
        non_ascii_alphanumeric(c)
    }
}

/// Calls `char::is_alphanumeric`. Among ASCII characters, the alphabetic
/// ones are the letters and the numeric ones the digits.
#[verifier::external_body]
pub(crate) fn is_alphanumeric(c: char) -> (r: bool)
    ensures
        (c as u32) < 128 ==> r == ascii_alphanumeric(c),
        (c as u32) >= 128 ==> r == non_ascii_alphanumeric(c),
{
    c.is_alphanumeric()
}

/// A character that belongs to a word.
pub open spec fn is_word_char(c: char) -> bool {
    alphanumeric(c) || c == '\'' || c == '-'
}

/// Decides whether `c` belongs to a word.
pub fn word_char(c: char) -> (r: bool)
    ensures
        r == is_word_char(c),
{
    c == '\'' || c == '-' || is_alphanumeric(c)
}

/// The state after reading `text` from left to right: the words ended so far
/// (each by one separator), the word being read, and the number of separators.
pub open spec fn scan(text: Seq<char>) -> (Seq<Seq<char>>, Seq<char>, nat)
    decreases text.len(),
{
    if text.len() == 0 {
        (Seq::empty(), Seq::empty(), 0)
    } else {
        let prev = scan(text.drop_last());
        let c = text.last();
        if is_word_char(c) {
            (prev.0, prev.1.push(c), prev.2)
        } else {
            (prev.0.push(prev.1), Seq::empty(), prev.2 + 1)
        }
    }
}

/// Every word of `text`, the last one included, empty words too.
pub open spec fn raw_words(text: Seq<char>) -> Seq<Seq<char>> {
    scan(text).0.push(scan(text).1)
}

/// The number of characters of `text` that end a word.
pub open spec fn separator_count(text: Seq<char>) -> nat {
    scan(text).2
}

/// The term that a word contributes to the index, if any: empty words and
/// words whose normal form is empty contribute none.
pub open spec fn term_of(word: Seq<char>) -> Option<Seq<char>> {
    if word.len() == 0 {
        None
    } else if normal_form(word).len() == 0 {
        None
    } else {
        Some(normal_form(word))
    }
}

/// The terms contributed by a sequence of words, in order.
pub open spec fn terms_of_words(words: Seq<Seq<char>>) -> Seq<Seq<char>>
    decreases words.len(),
{
    if words.len() == 0 {
        Seq::empty()
    } else {
        let rest = terms_of_words(words.drop_last());
        match term_of(words.last()) {
            Some(t) => rest.push(t),
            None => rest,
        }
    }
}

/// The terms of a text, in the order in which its words appear.
pub open spec fn terms_of(text: Seq<char>) -> Seq<Seq<char>> {
    terms_of_words(raw_words(text))
}

/// Reading one more character.
pub proof fn lemma_scan_push(text: Seq<char>, c: char)
    ensures
        scan(text.push(c)) == (if is_word_char(c) {
            (scan(text).0, scan(text).1.push(c), scan(text).2)
        } else {
            (scan(text).0.push(scan(text).1), Seq::<char>::empty(), scan(text).2 + 1)
        }),
{
    assert(text.push(c).drop_last() =~= text);
}

/// One more word adds at most its term.
pub proof fn lemma_terms_push(words: Seq<Seq<char>>, w: Seq<char>)
    ensures
        terms_of_words(words.push(w)) == (match term_of(w) {
            Some(t) => terms_of_words(words).push(t),
            None => terms_of_words(words),
        }),
{
    assert(words.push(w).drop_last() =~= words);
}

} // verus!
