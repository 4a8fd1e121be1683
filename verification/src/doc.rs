//! A document as the index holds it: the key of each term that occurs in it,
//! with the number of its occurrences, sorted by key.
use vstd::prelude::*;
use lasso::Rodeo;
use crate::text::{
    is_word_char, lemma_scan_push, lemma_terms_push, raw_words,
    scan, separator_count, term_of, terms_of, terms_of_words, word_char,
};
use crate::vocab::{get_or_intern, normal_form, rodeo_contains, rodeo_len, rodeo_strings, EnglishStemmer};
use crate::formats::{
    pdf_encrypted, pdf_loads, pdf_pages, pdf_text, rewrite_html, source_text, xml_events,
    xml_text_of, DocSource, DocumentCreateError, PdfDocument,
};

verus! {

/// How often `t` occurs in `terms`.
pub open spec fn occurrences(terms: Seq<Seq<char>>, t: Seq<char>) -> nat
    decreases terms.len(),
{
    if terms.len() == 0 {
        0
    } else {
        occurrences(terms.drop_last(), t) + if terms.last() == t {
            1nat
        } else {
            0nat
        }
    }
}

/// No string occurs twice.
pub open spec fn all_distinct(strings: Seq<Seq<char>>) -> bool {
    forall|i: int, j: int| 0 <= i < j < strings.len() ==> strings[i] != strings[j]
}

/// The strings of an interner after interning `terms` in order: each term not
/// yet held is appended.
pub open spec fn intern_all(strings: Seq<Seq<char>>, terms: Seq<Seq<char>>) -> Seq<Seq<char>>
    decreases terms.len(),
{
    if terms.len() == 0 {
        strings
    } else {
        let before = intern_all(strings, terms.drop_last());
        if before.contains(terms.last()) {
            before
        } else {
            before.push(terms.last())
        }
    }
}

/// The sum of the counts of some entries.
pub open spec fn entries_total(entries: Seq<(u32, u32)>) -> nat
    decreases entries.len(),
{
    if entries.len() == 0 {
        0
    } else {
        entries_total(entries.drop_last()) + entries.last().1 as nat
    }
}

pub proof fn lemma_total_prefix(entries: Seq<(u32, u32)>, i: int)
    requires
        0 <= i <= entries.len(),
    ensures
        entries_total(entries.take(i)) <= entries_total(entries),
    decreases entries.len() - i,
{
    if i < entries.len() {
        lemma_total_prefix(entries, i + 1);
        assert(entries.take(i + 1).drop_last() =~= entries.take(i));
    } else {
        assert(entries.take(i) =~= entries);
    }
}

pub proof fn lemma_total_update(entries: Seq<(u32, u32)>, pos: int, e: (u32, u32))
    requires
        0 <= pos < entries.len(),
    ensures
        entries_total(entries.update(pos, e)) + entries[pos].1 == entries_total(entries) + e.1,
    decreases entries.len(),
{
    if pos < entries.len() - 1 {
        lemma_total_update(entries.drop_last(), pos, e);
        assert(entries.update(pos, e).drop_last() =~= entries.drop_last().update(pos, e));
    } else {
        assert(entries.update(pos, e).drop_last() =~= entries.drop_last());
    }
}

pub proof fn lemma_total_insert(entries: Seq<(u32, u32)>, pos: int, e: (u32, u32))
    requires
        0 <= pos <= entries.len(),
    ensures
        entries_total(entries.insert(pos, e)) == entries_total(entries) + e.1,
    decreases entries.len(),
{
    if pos < entries.len() {
        lemma_total_insert(entries.drop_last(), pos, e);
        assert(entries.insert(pos, e).drop_last() =~= entries.drop_last().insert(pos, e));
    } else {
        assert(entries.insert(pos, e).drop_last() =~= entries);
    }
}

/// Keys strictly increasing.
pub open spec fn keys_sorted(entries: Seq<(u32, u32)>) -> bool {
    forall|i: int, j: int| 0 <= i < j < entries.len() ==> entries[i].0 < entries[j].0
}

/// `entries` counts `terms` under the keys that `strings` gives them
/// (the string at index `i` has key `i + 1`): every entry is a key with the
/// number of occurrences of its string, at least one, and every term has an entry.
pub open spec fn counts_terms(
    entries: Seq<(u32, u32)>,
    strings: Seq<Seq<char>>,
    terms: Seq<Seq<char>>,
) -> bool {
    &&& forall|i: int|
        #![trigger entries[i]]
        0 <= i < entries.len() ==> {
            &&& 1 <= entries[i].0 <= strings.len()
            &&& entries[i].1 == occurrences(terms, strings[entries[i].0 - 1])
            &&& entries[i].1 >= 1
        }
    &&& forall|j: int| 0 <= j < terms.len() ==> has_entry(entries, strings, #[trigger] terms[j])
}

/// Some entry has the key of `t`.
pub open spec fn has_entry(entries: Seq<(u32, u32)>, strings: Seq<Seq<char>>, t: Seq<char>) -> bool {
    exists|i: int| #![trigger entries[i]] 0 <= i < entries.len() && strings[entries[i].0 - 1] == t
}

pub proof fn lemma_occurrences_push(terms: Seq<Seq<char>>, t: Seq<char>, s: Seq<char>)
    ensures
        occurrences(terms.push(t), s) == occurrences(terms, s) + if t == s {
            1nat
        } else {
            0nat
        },
{
    assert(terms.push(t).drop_last() =~= terms);
}

pub proof fn lemma_occurrences_bound(terms: Seq<Seq<char>>, s: Seq<char>)
    ensures
        occurrences(terms, s) <= terms.len(),
        occurrences(terms, s) > 0 ==> terms.contains(s),
    decreases terms.len(),
{
    if terms.len() > 0 {
        lemma_occurrences_bound(terms.drop_last(), s);
        if occurrences(terms.drop_last(), s) > 0 {
            let j = choose|j: int| 0 <= j < terms.drop_last().len() && terms.drop_last()[j] == s;
            assert(terms[j] == s);
        }
        if terms.last() == s {
            assert(terms[terms.len() - 1] == s);
        }
    }
}

pub proof fn lemma_intern_push(strings: Seq<Seq<char>>, terms: Seq<Seq<char>>, t: Seq<char>)
    ensures
        intern_all(strings, terms.push(t)) == (if intern_all(strings, terms).contains(t) {
            intern_all(strings, terms)
        } else {
            intern_all(strings, terms).push(t)
        }),
{
    assert(terms.push(t).drop_last() =~= terms);
}

/// Where `key` stands in sorted entries, or where it would be inserted.
pub(crate) fn find_key(words: &Vec<(u32, u32)>, key: u32) -> (r: (bool, usize))
    requires
        keys_sorted(words@),
    ensures
        r.1 <= words.len(),
        r.0 ==> r.1 < words.len() && words@[r.1 as int].0 == key,
        !r.0 ==> (forall|i: int| 0 <= i < r.1 ==> words@[i].0 < key) && (forall|i: int|
            r.1 <= i < words.len() ==> words@[i].0 > key),
{
    let mut lo: usize = 0;
    let mut hi: usize = words.len();
    while lo < hi
        invariant
            lo <= hi <= words.len(),
            keys_sorted(words@),
            forall|i: int| 0 <= i < lo ==> words@[i].0 < key,
            forall|i: int| hi <= i < words.len() ==> words@[i].0 > key,
        decreases hi - lo,
    {
        let mid = lo + (hi - lo) / 2;
        let k = words[mid].0;
        if k == key {
            return (true, mid);
        } else if k < key {
            lo = mid + 1;
        } else {
            hi = mid;
        }
    }
    (false, lo)
}

/// Counts one more occurrence of `term`, interning it first.
fn record_term(
    words: &mut Vec<(u32, u32)>,
    term: &str,
    rodeo: &mut Rodeo,
    Ghost(terms): Ghost<Seq<Seq<char>>>,
) -> (ok: bool)
    requires
        keys_sorted(old(words)@),
        counts_terms(old(words)@, rodeo_strings(*old(rodeo)), terms),
        all_distinct(rodeo_strings(*old(rodeo))),
        rodeo_strings(*old(rodeo)).len() <= u32::MAX,
        forall|t: Seq<char>| #[trigger] occurrences(terms, t) <= u32::MAX,
        entries_total(old(words)@) == terms.len(),
    ensures
        ok == ((rodeo_strings(*old(rodeo)).contains(term@) || rodeo_strings(*old(rodeo)).len()
            < u32::MAX) && occurrences(terms, term@) < u32::MAX),
        all_distinct(rodeo_strings(*final(rodeo))),
        !ok ==> final(words)@ == old(words)@ && rodeo_strings(*final(rodeo)) == rodeo_strings(
            *old(rodeo),
        ),
        ok ==> keys_sorted(final(words)@),
        ok ==> entries_total(final(words)@) == terms.len() + 1,
        ok ==> counts_terms(final(words)@, rodeo_strings(*final(rodeo)), terms.push(term@)),
        ok ==> rodeo_strings(*final(rodeo)) == (if rodeo_strings(*old(rodeo)).contains(term@) {
            rodeo_strings(*old(rodeo))
        } else {
            rodeo_strings(*old(rodeo)).push(term@)
        }),
{
    let ghost s0 = rodeo_strings(*rodeo);
    let ghost w0 = words@;
    let held = rodeo_len(rodeo);
    if held >= 0xffff_ffffusize && !rodeo_contains(rodeo, term) {
        return false;
    }
    let key = get_or_intern(rodeo, term);
    let ghost s1 = rodeo_strings(*rodeo);
    let ghost t1 = terms.push(term@);
    proof {
        assert(s1[key - 1] == term@);
        assert forall|i: int, j: int| 0 <= i < j < s1.len() implies s1[i] != s1[j] by {
            if j == s0.len() && !s0.contains(term@) {
                assert(s1[i] == s0[i]);
            }
        }
        assert forall|s: Seq<char>| #[trigger] occurrences(t1, s) == occurrences(terms, s) + if term@ == s {
            1nat
        } else {
            0nat
        } by {
            lemma_occurrences_push(terms, term@, s);
        }
        // strings already held keep their index
        assert forall|k: int| 0 <= k < s0.len() implies s1[k] == s0[k] by {}
    }
    let (found, pos) = find_key(words, key);
    if found {
        let c = words[pos].1;
        proof {
            // the entry at `pos` is the one of `term`
            assert(w0[pos as int].0 == key);
            assert(s0.contains(term@)) by {
                assert(1 <= key <= s0.len());
                assert(s0[key - 1] == s1[key - 1]);
            }
            lemma_occurrences_bound(terms, term@);
            assert(s1 == s0);
            assert(c == occurrences(terms, term@));
        }
        if c == 0xffff_ffffu32 {
            return false;
        }
        words.set(pos, (key, c + 1));
        proof {
            let w1 = words@;
            lemma_total_update(w0, pos as int, (key, (c + 1) as u32));
            assert(w1 == w0.update(pos as int, (key, (c + 1) as u32)));
            assert forall|i: int| 0 <= i < w1.len() implies {
                &&& 1 <= #[trigger] w1[i].0 <= s1.len()
                &&& w1[i].1 == occurrences(t1, s1[w1[i].0 - 1])
                &&& w1[i].1 >= 1
            } by {
                assert(w0[i].0 == w1[i].0);
                assert(s1[w1[i].0 - 1] == s0[w0[i].0 - 1]);
                if i != pos {
                    assert(w1[i] == w0[i]);
                    if s0[w0[i].0 - 1] == term@ {
                        assert(w0[i].0 - 1 == key - 1);
                    }
                    assert(occurrences(t1, s1[w1[i].0 - 1]) == occurrences(terms, s0[w0[i].0 - 1]));
                } else {
                    assert(w1[i] == (key, (c + 1) as u32));
                    assert(s1[w1[i].0 - 1] == term@);
                    assert(occurrences(t1, term@) == occurrences(terms, term@) + 1);
                }
            }
            assert forall|j: int| 0 <= j < t1.len() implies has_entry(w1, s1, #[trigger] t1[j]) by {
                if j < terms.len() {
                    assert(t1[j] == terms[j]);
                    let i = choose|i: int|
                        #![trigger w0[i]]
                        0 <= i < w0.len() && s0[w0[i].0 - 1] == terms[j];
                    assert(w1[i].0 == w0[i].0);
                } else {
                    assert(w1[pos as int].0 == key);
                }
            }
        }
    } else {
        proof {
            // `term` has no entry, so it did not occur before
            lemma_occurrences_bound(terms, term@);
            if occurrences(terms, term@) > 0 {
                let j = choose|j: int| 0 <= j < terms.len() && terms[j] == term@;
                let i = choose|i: int|
                    #![trigger w0[i]]
                    0 <= i < w0.len() && s0[w0[i].0 - 1] == terms[j];
                assert(s1[w0[i].0 - 1] == s0[w0[i].0 - 1]);
                assert(w0[i].0 == key);
            }
        }
        words.insert(pos, (key, 1));
        proof {
            let w1 = words@;
            lemma_total_insert(w0, pos as int, (key, 1u32));
            assert forall|i: int, j: int| 0 <= i < j < w1.len() implies w1[i].0 < w1[j].0 by {
                if i < pos && j == pos {
                } else if i < pos && j > pos {
                    assert(w1[j] == w0[j - 1]);
                } else if i == pos {
                    assert(w1[j] == w0[j - 1]);
                } else if i > pos {
                    assert(w1[i] == w0[i - 1]);
                    assert(w1[j] == w0[j - 1]);
                }
            }
            assert forall|i: int| 0 <= i < w1.len() implies {
                &&& 1 <= #[trigger] w1[i].0 <= s1.len()
                &&& w1[i].1 == occurrences(t1, s1[w1[i].0 - 1])
                &&& w1[i].1 >= 1
            } by {
                if i != pos {
                    let oi = if i < pos { i } else { i - 1 };
                    assert(w1[i] == w0[oi]);
                    assert(s1[w1[i].0 - 1] == s0[w0[oi].0 - 1]);
                    if s0[w0[oi].0 - 1] == term@ {
                        assert(w0[oi].0 == key);
                    }
                }
            }
            assert forall|j: int| 0 <= j < t1.len() implies has_entry(w1, s1, #[trigger] t1[j]) by {
                if j < terms.len() {
                    assert(t1[j] == terms[j]);
                    let i = choose|i: int|
                        #![trigger w0[i]]
                        0 <= i < w0.len() && s0[w0[i].0 - 1] == terms[j];
                    if i < pos {
                        assert(w1[i] == w0[i]);
                    } else {
                        assert(w1[i + 1] == w0[i]);
                    }
                } else {
                    assert(w1[pos as int].0 == key);
                }
            }
        }
    }
    true
}

/// Counts one more word: empty words, and words whose normal form is empty,
/// count for nothing. `false`, with nothing changed, when the word's term
/// does not fit: the key space is exhausted, or its count is at its limit.
fn record_word(
    words: &mut Vec<(u32, u32)>,
    word: &str,
    rodeo: &mut Rodeo,
    stemmer: &EnglishStemmer,
    Ghost(done): Ghost<Seq<Seq<char>>>,
    Ghost(s0): Ghost<Seq<Seq<char>>>,
) -> (ok: bool)
    requires
        keys_sorted(old(words)@),
        rodeo_strings(*old(rodeo)) == intern_all(s0, terms_of_words(done)),
        counts_terms(old(words)@, rodeo_strings(*old(rodeo)), terms_of_words(done)),
        all_distinct(rodeo_strings(*old(rodeo))),
        within(s0, terms_of_words(done)),
        entries_total(old(words)@) == terms_of_words(done).len(),
    ensures
        ok == within(s0, terms_of_words(done.push(word@))),
        all_distinct(rodeo_strings(*final(rodeo))),
        ok ==> keys_sorted(final(words)@),
        ok ==> entries_total(final(words)@) == terms_of_words(done.push(word@)).len(),
        ok ==> rodeo_strings(*final(rodeo)) == intern_all(s0, terms_of_words(done.push(word@))),
        ok ==> counts_terms(
            final(words)@,
            rodeo_strings(*final(rodeo)),
            terms_of_words(done.push(word@)),
        ),
{
    let ghost t0 = terms_of_words(done);
    proof {
        lemma_terms_push(done, word@);
    }
    if word.is_empty() {
        return true;
    }
    let term = stemmer.normalize(word);
    if term.as_str().is_empty() {
        return true;
    }
    proof {
        lemma_intern_push(s0, t0, term@);
        lemma_occurrences_push(t0, term@, term@);
    }
    let ok = record_term(words, term.as_str(), rodeo, Ghost(t0));
    proof {
        let t1 = t0.push(term@);
        assert(t1 == terms_of_words(done.push(word@)));
        if ok {
            assert forall|x: Seq<char>| #[trigger] occurrences(t1, x) <= u32::MAX by {
                lemma_occurrences_push(t0, term@, x);
            }
        }
    }
    ok
}

/// `doc` is the index of `text`, under the keys that `strings` gives terms.
pub open spec fn describes(doc: Doc, strings: Seq<Seq<char>>, text: Seq<char>) -> bool {
    &&& doc.wf()
    &&& counts_terms(doc.entries(), strings, terms_of(text))
    &&& entries_total(doc.entries()) == terms_of(text).len()
    &&& doc.separators() == separator_count(text)
}

/// Interning `terms` into an interner holding `strings` stays within its key
/// space, and no term occurs more often than a count can hold.
pub open spec fn within(strings: Seq<Seq<char>>, terms: Seq<Seq<char>>) -> bool {
    &&& intern_all(strings, terms).len() <= u32::MAX
    &&& forall|t: Seq<char>| #[trigger] occurrences(terms, t) <= u32::MAX
}

/// A text can be indexed into an interner holding `strings`: its terms stay
/// within the key space and the counts, and its separators within the word
/// counter.
pub open spec fn indexable(strings: Seq<Seq<char>>, text: Seq<char>) -> bool {
    within(strings, terms_of(text)) && separator_count(text) <= u32::MAX
}

pub proof fn lemma_intern_concat(s: Seq<Seq<char>>, a: Seq<Seq<char>>, b: Seq<Seq<char>>)
    ensures
        intern_all(s, a + b) == intern_all(intern_all(s, a), b),
    decreases b.len(),
{
    if b.len() == 0 {
        assert(a + b =~= a);
    } else {
        lemma_intern_concat(s, a, b.drop_last());
        assert((a + b).drop_last() =~= a + b.drop_last());
        assert((a + b).last() == b.last());
    }
}

pub proof fn lemma_intern_extends(s: Seq<Seq<char>>, t: Seq<Seq<char>>)
    ensures
        intern_all(s, t).len() >= s.len(),
        forall|i: int| 0 <= i < s.len() ==> #[trigger] intern_all(s, t)[i] == s[i],
    decreases t.len(),
{
    if t.len() > 0 {
        lemma_intern_extends(s, t.drop_last());
    }
}

pub proof fn lemma_occurrences_concat(a: Seq<Seq<char>>, b: Seq<Seq<char>>, t: Seq<char>)
    ensures
        occurrences(a + b, t) == occurrences(a, t) + occurrences(b, t),
    decreases b.len(),
{
    if b.len() == 0 {
        assert(a + b =~= a);
    } else {
        lemma_occurrences_concat(a, b.drop_last(), t);
        assert((a + b).drop_last() =~= a + b.drop_last());
        assert((a + b).last() == b.last());
    }
}

/// What fits for some terms fits for the first of them.
pub proof fn lemma_within_prefix(s: Seq<Seq<char>>, a: Seq<Seq<char>>, b: Seq<Seq<char>>)
    requires
        within(s, a + b),
    ensures
        within(s, a),
{
    lemma_intern_concat(s, a, b);
    lemma_intern_extends(intern_all(s, a), b);
    assert forall|t: Seq<char>| #[trigger] occurrences(a, t) <= u32::MAX by {
        lemma_occurrences_concat(a, b, t);
    }
}

/// The words ended after reading part of a text come first among its words,
/// and its separators are no fewer.
pub proof fn lemma_scan_prefix(text: Seq<char>, m: int)
    requires
        0 <= m <= text.len(),
    ensures
        scan(text.take(m)).0.len() <= scan(text).0.len(),
        scan(text).0.take(scan(text.take(m)).0.len() as int) == scan(text.take(m)).0,
        scan(text.take(m)).2 <= scan(text).2,
    decreases text.len(),
{
    if m == text.len() {
        assert(text.take(m) =~= text);
        assert(scan(text).0.take(scan(text).0.len() as int) =~= scan(text).0);
    } else {
        let dl = text.drop_last();
        lemma_scan_prefix(dl, m);
        assert(dl.take(m) =~= text.take(m));
        let p = scan(text.take(m)).0;
        let a = scan(dl).0;
        assert(text.drop_last() == dl);
        if !is_word_char(text.last()) {
            assert(a.push(scan(dl).1).take(p.len() as int) =~= a.take(p.len() as int));
        }
    }
}

/// The terms of some words followed by others are those of the first
/// followed by those of the others.
pub proof fn lemma_terms_concat(a: Seq<Seq<char>>, b: Seq<Seq<char>>)
    ensures
        terms_of_words(a + b) == terms_of_words(a) + terms_of_words(b),
    decreases b.len(),
{
    if b.len() == 0 {
        assert(a + b =~= a);
        assert(terms_of_words(a) + terms_of_words(b) =~= terms_of_words(a));
    } else {
        lemma_terms_concat(a, b.drop_last());
        assert((a + b).drop_last() =~= a + b.drop_last());
        assert((a + b).last() == b.last());
        let x = terms_of_words(a);
        let y = terms_of_words(b.drop_last());
        match term_of(b.last()) {
            Some(t) => {
                assert((x + y).push(t) =~= x + y.push(t));
            },
            None => {},
        }
    }
}

/// When the words ended after reading part of a text do not fit, the whole
/// text cannot be indexed.
pub proof fn lemma_prefix_not_within(s: Seq<Seq<char>>, text: Seq<char>, m: int)
    requires
        0 <= m <= text.len(),
        !within(s, terms_of_words(scan(text.take(m)).0)),
    ensures
        !within(s, terms_of(text)),
{
    lemma_scan_prefix(text, m);
    let p = scan(text.take(m)).0;
    let all = raw_words(text);
    assert(all =~= p + all.skip(p.len() as int));
    lemma_terms_concat(p, all.skip(p.len() as int));
    if within(s, terms_of(text)) {
        lemma_within_prefix(s, terms_of_words(p), terms_of_words(all.skip(p.len() as int)));
    }
}

/// A document: the keys of its terms with their counts, sorted by key, and the
/// number of word-ending characters of its text.
pub struct Doc {
    words: Vec<(u32, u32)>,
    doc_word_count: u32,
}

impl Doc {
    /// The (key, count) entries, sorted by key.
    pub closed spec fn entries(&self) -> Seq<(u32, u32)> {
        self.words@
    }

    /// The number of characters of the text that ended a word.
    pub closed spec fn separators(&self) -> u32 {
        self.doc_word_count
    }

    pub open spec fn wf(&self) -> bool {
        &&& keys_sorted(self.entries())
        &&& forall|i: int| 0 <= i < self.entries().len() ==> #[trigger] self.entries()[i].1 >= 1
    }

    /// Indexes a text: cuts it into words, interns the normal form of each
    /// non-empty word in `rodeo`, and counts the occurrences of each key.
    pub fn from_text(text: &str, rodeo: &mut Rodeo) -> (doc: Doc)
        requires
            all_distinct(rodeo_strings(*old(rodeo))),
            indexable(rodeo_strings(*old(rodeo)), text@),
        ensures
            doc.wf(),
            rodeo_strings(*final(rodeo)) == intern_all(rodeo_strings(*old(rodeo)), terms_of(text@)),
            all_distinct(rodeo_strings(*final(rodeo))),
            counts_terms(doc.entries(), rodeo_strings(*final(rodeo)), terms_of(text@)),
            doc.separators() == separator_count(text@),
            entries_total(doc.entries()) == terms_of(text@).len(),
    {
        match Doc::index_text(text, rodeo) {
            Some(doc) => doc,
            None => {
                proof {
                    assert(false);
                }
                Doc { words: Vec::new(), doc_word_count: 0 }
            },
        }
    }

    /// Indexes a text when it can be indexed (see `indexable`); `None`, with
    /// the interner holding some of its terms, when it cannot.
    fn index_text(text: &str, rodeo: &mut Rodeo) -> (r: Option<Doc>)
        requires
            all_distinct(rodeo_strings(*old(rodeo))),
        ensures
            all_distinct(rodeo_strings(*final(rodeo))),
            r is Some <==> indexable(rodeo_strings(*old(rodeo)), text@),
            r matches Some(doc) ==> describes(doc, rodeo_strings(*final(rodeo)), text@)
                && rodeo_strings(*final(rodeo)) == intern_all(rodeo_strings(*old(rodeo)), terms_of(text@)),
    {
        broadcast use vstd::string::group_string_axioms;

        let stemmer = EnglishStemmer::new();
        let mut words: Vec<(u32, u32)> = Vec::new();
        let mut current = String::new();
        let mut doc_word_count: u32 = 0;
        let ghost s0 = rodeo_strings(*rodeo);
        let held = rodeo_len(rodeo);
        proof {
            assert(held <= u32::MAX);
            assert(text@.take(0) =~= Seq::<char>::empty());
            assert(intern_all(s0, Seq::<Seq<char>>::empty()) == s0);
        }
        for c in it: text.chars()
            invariant
                it.seq() == text@,
                s0 == rodeo_strings(*old(rodeo)),
                current@ == scan(text@.take(it.index())).1,
                doc_word_count == scan(text@.take(it.index())).2,
                keys_sorted(words@),
                rodeo_strings(*rodeo) == intern_all(s0, terms_of_words(scan(text@.take(it.index())).0)),
                counts_terms(words@, rodeo_strings(*rodeo), terms_of_words(scan(text@.take(it.index())).0)),
                all_distinct(rodeo_strings(*rodeo)),
                within(s0, terms_of_words(scan(text@.take(it.index())).0)),
                entries_total(words@) == terms_of_words(scan(text@.take(it.index())).0).len(),
        {
            let ghost k = it.index();
            proof {
                assert(text@.take(k + 1) =~= text@.take(k).push(c));
                lemma_scan_push(text@.take(k), c);
                assert(k + 1 <= text@.len());
            }
            if word_char(c) {
                current.push(c);
            } else {
                let ok = record_word(&mut words, current.as_str(), rodeo, &stemmer,
                    Ghost(scan(text@.take(k)).0), Ghost(s0));
                if !ok {
                    proof {
                        assert(scan(text@.take(k + 1)).0 == scan(text@.take(k)).0.push(scan(text@.take(k)).1));
                        lemma_prefix_not_within(s0, text@, k + 1);
                    }
                    return None;
                }
                if doc_word_count == 0xffff_ffffu32 {
                    proof {
                        lemma_scan_prefix(text@, k + 1);
                    }
                    return None;
                }
                current = String::new();
                doc_word_count = doc_word_count + 1;
            }
        }
        proof {
            assert(text@.take(text@.len() as int) =~= text@);
        }
        let ok = record_word(&mut words, current.as_str(), rodeo, &stemmer, Ghost(scan(text@).0), Ghost(s0));
        if !ok {
            return None;
        }
        Some(Doc { words, doc_word_count })
    }

    /// Indexes the contents of a file. `None` when `lopdf` cannot read a PDF,
    /// or the text cannot be indexed (see `indexable`).
    pub fn from_source(src: &DocSource, rodeo: &mut Rodeo) -> (r: Option<Result<Doc, DocumentCreateError>>)
        requires
            all_distinct(rodeo_strings(*old(rodeo))),
        ensures
            all_distinct(rodeo_strings(*final(rodeo))),
            r is None <==> (*src matches DocSource::Pdf(b) && !pdf_loads(b@)) || (source_text(*src) matches Some(t)
                && !indexable(rodeo_strings(*old(rodeo)), t)),
            r matches Some(Ok(doc)) ==> (source_text(*src) matches Some(t) && describes(doc, rodeo_strings(*final(rodeo)), t)
                && rodeo_strings(*final(rodeo)) == intern_all(rodeo_strings(*old(rodeo)), terms_of(t))),
            (source_text(*src) matches Some(t) && indexable(rodeo_strings(*old(rodeo)), t)) ==> r matches Some(Ok(_)),
            r matches Some(Err(e)) ==> (*src matches DocSource::Pdf(b) && pdf_loads(b@) && (if pdf_encrypted(b@) {
                e is EncryptedPDF
            } else {
                e is FailedToExtractPDFText && pdf_text(b@, pdf_pages(b@)) is None
            })),
            r matches Some(Err(_)) ==> rodeo_strings(*final(rodeo)) == rodeo_strings(*old(rodeo)),
            (*src matches DocSource::Pdf(b) && !pdf_loads(b@)) ==> rodeo_strings(*final(rodeo))
                == rodeo_strings(*old(rodeo)),
    {
        match src {
            DocSource::Xml(bytes) => {
                let events = xml_events(bytes.as_slice());
                let text = xml_text_of(&events);
                match Doc::index_text(text.as_str(), rodeo) {
                    Some(doc) => Some(Ok(doc)),
                    None => None,
                }
            },
            DocSource::Html(html) => {
                let text = rewrite_html(html.as_str());
                match Doc::index_text(text.as_str(), rodeo) {
                    Some(doc) => Some(Ok(doc)),
                    None => None,
                }
            },
            DocSource::Pdf(bytes) => {
                let pdf = match PdfDocument::load(bytes.as_slice()) {
                    Some(pdf) => pdf,
                    None => return None,
                };
                if pdf.is_encrypted() {
                    return Some(Err(DocumentCreateError::EncryptedPDF));
                }
                let pages = pdf.page_numbers();
                match pdf.extract_text(pages.as_slice()) {
                    Ok(text) => match Doc::index_text(text.as_str(), rodeo) {
                        Some(doc) => Some(Ok(doc)),
                        None => None,
                    },
                    Err(e) => Some(Err(DocumentCreateError::FailedToExtractPDFText(e))),
                }
            },
        }
    }

    /// Every document is well formed: its keys are sorted and its counts positive.
    #[verifier::type_invariant]
    pub(crate) open spec fn well_formed(self) -> bool {
        self.wf()
    }

    /// The count of the term with key `spur`, if it occurs.
    pub fn get(&self, spur: &u32) -> (r: Option<&u32>)
        ensures
            r is Some <==> exists|i: int| 0 <= i < self.entries().len() && self.entries()[i].0 == *spur,
            r matches Some(c) ==> exists|i: int|
                0 <= i < self.entries().len() && self.entries()[i] == (*spur, *c),
    {
        proof {
            use_type_invariant(self);
        }
        let (found, pos) = find_key(&self.words, *spur);
        if found {
            Some(&self.words[pos].1)
        } else {
            None
        }
    }

    /// The keys of the terms that occur, in increasing order.
    pub fn spurs(&self) -> (r: Vec<u32>)
        ensures
            r@ == self.entries().map_values(|e: (u32, u32)| e.0),
    {
        let mut r: Vec<u32> = Vec::new();
        let mut i: usize = 0;
        while i < self.words.len()
            invariant
                i <= self.words.len(),
                r@ == self.entries().take(i as int).map_values(|e: (u32, u32)| e.0),
            decreases self.words.len() - i,
        {
            r.push(self.words[i].0);
            proof {
                assert(self.entries().take(i + 1) =~= self.entries().take(i as int).push(self.entries()[i as int]));
            }
            i = i + 1;
        }
        proof {
            assert(self.entries().take(i as int) =~= self.entries());
        }
        r
    }

    /// The largest count, or 1 for a document without terms.
    pub fn max_count(&self) -> (m: u32)
        ensures
            self.entries().len() == 0 ==> m == 1,
            self.entries().len() > 0 ==> (exists|i: int| 0 <= i < self.entries().len() && self.entries()[i].1 == m)
                && (forall|i: int| 0 <= i < self.entries().len() ==> self.entries()[i].1 <= m),
    {
        if self.words.len() == 0 {
            return 1;
        }
        let mut m = self.words[0].1;
        let mut i: usize = 1;
        assert(self.entries()[0].1 == m);
        while i < self.words.len()
            invariant
                1 <= i <= self.words.len(),
                exists|j: int| 0 <= j < i && self.entries()[j].1 == m,
                forall|j: int| 0 <= j < i ==> self.entries()[j].1 <= m,
            decreases self.words.len() - i,
        {
            if self.words[i].1 > m {
                m = self.words[i].1;
            }
            i = i + 1;
        }
        m
    }

    /// The number of characters of the text that ended a word.
    pub fn word_count(&self) -> (n: u32)
        ensures
            n == self.separators(),
    {
        self.doc_word_count
    }

    /// The sum of all counts, the number of terms of the text, or `None`
    /// when it does not fit in a `u32`.
    pub fn total_count(&self) -> (n: Option<u32>)
        ensures
            match n {
                Some(v) => v == entries_total(self.entries()),
                None => entries_total(self.entries()) > u32::MAX,
            },
    {
        let mut n: u32 = 0;
        let mut i: usize = 0;
        while i < self.words.len()
            invariant
                i <= self.words.len(),
                n == entries_total(self.entries().take(i as int)),
            decreases self.words.len() - i,
        {
            proof {
                assert(self.entries().take(i + 1).drop_last() =~= self.entries().take(i as int));
                lemma_total_prefix(self.entries(), i + 1);
            }
            let c = self.words[i].1;
            if n > 0xffff_ffffu32 - c {
                return None;
            }
            n = n + c;
            i = i + 1;
        }
        proof {
            assert(self.entries().take(i as int) =~= self.entries());
        }
        Some(n)
    }
}

impl Default for Doc {
    /// A document without terms.
    fn default() -> (d: Doc)
        ensures
            d.entries() == Seq::<(u32, u32)>::empty(),
            d.separators() == 0,
            d.wf(),
    {
        Doc { words: Vec::new(), doc_word_count: 0 }
    }
}

} // verus!

