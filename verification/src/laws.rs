//! Properties of the index that hold across its operations.
use vstd::prelude::*;
use crate::client::{encode_byte, hex_digit, url_encoded};
use crate::corpus::{batch_paths, batch_terms, batch_vocabulary, file_text, found_terms, has_key};
use crate::doc::{
    all_distinct, describes, has_entry, intern_all, lemma_occurrences_bound, lemma_terms_concat,
    occurrences, Doc,
};
use crate::formats::{xml_text, DocSource, DocumentCreateError};
use crate::server::{parsed_usize, results_shown};
use crate::text::{
    is_word_char, lemma_scan_push, lemma_terms_push, raw_words, scan, term_of, terms_of, terms_of_words,
};
use crate::vocab::normal_form;

verus! {

/// A document holds a key exactly when its text has the term of that key:
/// a query term can only match the documents whose text contains it.
pub proof fn law_key_iff_term(doc: Doc, strings: Seq<Seq<char>>, text: Seq<char>, key: u32)
    requires
        describes(doc, strings, text),
        all_distinct(strings),
    ensures
        has_key(doc, key) <==> (1 <= key <= strings.len() && terms_of(text).contains(strings[key - 1])),
{
    let terms = terms_of(text);
    let e = doc.entries();
    if has_key(doc, key) {
        let i = choose|i: int| 0 <= i < e.len() && e[i].0 == key;
        assert(1 <= e[i].0 <= strings.len());
        assert(occurrences(terms, strings[key - 1]) >= 1);
        lemma_occurrences_bound(terms, strings[key - 1]);
    }
    if 1 <= key <= strings.len() && terms.contains(strings[key - 1]) {
        let j = choose|j: int| 0 <= j < terms.len() && terms[j] == strings[key - 1];
        assert(has_entry(e, strings, terms[j]));
        let i = choose|i: int| #![trigger e[i]] 0 <= i < e.len() && strings[e[i].0 - 1] == terms[j];
        assert(1 <= e[i].0 <= strings.len());
        assert(e[i].0 == key);
    }
}

/// The count a document holds for a key is the number of times its text has
/// the term of that key.
pub proof fn law_count_is_occurrences(doc: Doc, strings: Seq<Seq<char>>, text: Seq<char>, i: int)
    requires
        describes(doc, strings, text),
        0 <= i < doc.entries().len(),
    ensures
        doc.entries()[i].1 == occurrences(terms_of(text), strings[doc.entries()[i].0 - 1]),
{
    let e = doc.entries();
    assert(e[i].1 == occurrences(terms_of(text), strings[e[i].0 - 1]));
}

/// Documents indexed with one vocabulary give a term they share one key.
pub proof fn law_shared_term_shared_key(
    d1: Doc,
    t1: Seq<char>,
    d2: Doc,
    t2: Seq<char>,
    strings: Seq<Seq<char>>,
    term: Seq<char>,
)
    requires
        describes(d1, strings, t1),
        describes(d2, strings, t2),
        all_distinct(strings),
        terms_of(t1).contains(term),
        terms_of(t2).contains(term),
    ensures
        exists|k: u32| 1 <= k <= strings.len() && strings[k - 1] == term && has_key(d1, k) && has_key(d2, k),
{
    let j = choose|j: int| 0 <= j < terms_of(t1).len() && terms_of(t1)[j] == term;
    assert(has_entry(d1.entries(), strings, terms_of(t1)[j]));
    let i = choose|i: int|
        #![trigger d1.entries()[i]]
        0 <= i < d1.entries().len() && strings[d1.entries()[i].0 - 1] == term;
    let k = d1.entries()[i].0;
    assert(1 <= k <= strings.len());
    assert(has_key(d1, k));
    law_key_iff_term(d2, strings, t2, k);
}

/// Interning keeps what was held and adds exactly the new terms, each once.
pub proof fn law_intern_contents(strings: Seq<Seq<char>>, terms: Seq<Seq<char>>, x: Seq<char>)
    requires
        all_distinct(strings),
    ensures
        all_distinct(intern_all(strings, terms)),
        intern_all(strings, terms).contains(x) <==> (strings.contains(x) || terms.contains(x)),
    decreases terms.len(),
{
    if terms.len() > 0 {
        law_intern_contents(strings, terms.drop_last(), x);
        law_intern_contents(strings, terms.drop_last(), terms.last());
        let before = intern_all(strings, terms.drop_last());
        assert(intern_all(strings, terms) == if before.contains(terms.last()) {
            before
        } else {
            before.push(terms.last())
        });
        if terms.drop_last().contains(x) {
            let j = choose|j: int| 0 <= j < terms.drop_last().len() && terms.drop_last()[j] == x;
            assert(terms[j] == x);
        }
        if terms.contains(x) && x != terms.last() {
            let j = choose|j: int| 0 <= j < terms.len() && terms[j] == x;
            assert(terms.drop_last()[j] == x);
        }
        if x == terms.last() {
            assert(terms[terms.len() - 1] == x);
            assert(terms.contains(x));
        }
        assert(terms.contains(x) <==> (terms.drop_last().contains(x) || x == terms.last()));

        if !before.contains(terms.last()) {
            let after = before.push(terms.last());
            assert forall|a: int, b: int| 0 <= a < b < after.len() implies after[a] != after[b] by {
                if b == before.len() {
                    assert(before.contains(before[a]));
                }
            }
            if after.contains(x) {
                let q = choose|q: int| 0 <= q < after.len() && after[q] == x;
                if q < before.len() {
                    assert(before[q] == x);
                }
            }
            if before.contains(x) {
                let q = choose|q: int| 0 <= q < before.len() && before[q] == x;
                assert(after[q] == x);
            }
            assert(after[before.len() as int] == terms.last());
            assert(after.contains(terms.last()));
        }
    }
}

/// The vocabulary of a batch holds exactly the terms of its texts.
pub proof fn law_vocabulary_is_batch_terms(
    files: Seq<(String, Result<DocSource, DocumentCreateError>)>,
    x: Seq<char>,
)
    ensures
        all_distinct(batch_vocabulary(files)),
        batch_vocabulary(files).contains(x) <==> batch_terms(files).contains(x),
{
    law_intern_contents(Seq::empty(), batch_terms(files), x);
}

pub proof fn lemma_batch_paths_grow(
    paths: Seq<Seq<char>>,
    files: Seq<(String, Result<DocSource, DocumentCreateError>)>,
    m: int,
)
    requires
        0 <= m <= files.len(),
    ensures
        batch_paths(paths, files.take(m)).len() <= batch_paths(paths, files).len(),
        forall|q: int| 0 <= q < batch_paths(paths, files.take(m)).len() ==> #[trigger] batch_paths(paths, files)[q]
            == batch_paths(paths, files.take(m))[q],
    decreases files.len() - m,
{
    if m == files.len() {
        assert(files.take(m) =~= files);
    } else {
        lemma_batch_paths_grow(paths, files, m + 1);
        assert(files.take(m + 1).drop_last() =~= files.take(m));
    }
}

/// Every file of a batch that has a text ends up indexed under its path.
pub proof fn law_every_text_indexed(
    paths: Seq<Seq<char>>,
    files: Seq<(String, Result<DocSource, DocumentCreateError>)>,
    i: int,
)
    requires
        0 <= i < files.len(),
        file_text(files[i]) is Some,
    ensures
        batch_paths(paths, files).contains(files[i].0@),
{
    let pre = files.take(i + 1);
    assert(pre.drop_last() =~= files.take(i));
    assert(pre.last() == files[i]);
    let bp = batch_paths(paths, pre);
    assert(bp.contains(files[i].0@)) by {
        let before = batch_paths(paths, files.take(i));
        if before.contains(files[i].0@) {
            let q = choose|q: int| 0 <= q < before.len() && before[q] == files[i].0@;
            assert(bp[q] == files[i].0@);
        } else {
            assert(bp[bp.len() - 1] == files[i].0@);
        }
    }
    lemma_batch_paths_grow(paths, files, i + 1);
    let q = choose|q: int| 0 <= q < bp.len() && bp[q] == files[i].0@;
    assert(batch_paths(paths, files)[q] == files[i].0@);
}

/// A batch whose paths are all held already adds no path.
pub proof fn lemma_batch_paths_held(
    paths: Seq<Seq<char>>,
    files: Seq<(String, Result<DocSource, DocumentCreateError>)>,
)
    requires
        forall|i: int| 0 <= i < files.len() && file_text(#[trigger] files[i]) is Some ==> paths.contains(files[i].0@),
    ensures
        batch_paths(paths, files) == paths,
    decreases files.len(),
{
    if files.len() > 0 {
        assert forall|i: int| 0 <= i < files.drop_last().len() && file_text(#[trigger] files.drop_last()[i]) is Some implies paths.contains(files.drop_last()[i].0@) by {
            assert(files.drop_last()[i] == files[i]);
        }
        lemma_batch_paths_held(paths, files.drop_last());
        if file_text(files.last()) is Some {
            assert(files[files.len() - 1] == files.last());
        }
    }
}

/// Indexing the same batch again adds no path: a document indexed twice
/// under one path is held once.
pub proof fn law_reindexing_keeps_paths(
    paths: Seq<Seq<char>>,
    files: Seq<(String, Result<DocSource, DocumentCreateError>)>,
)
    ensures
        batch_paths(batch_paths(paths, files), files) == batch_paths(paths, files),
{
    assert forall|i: int| 0 <= i < files.len() && file_text(#[trigger] files[i]) is Some implies batch_paths(paths, files).contains(files[i].0@) by {
        law_every_text_indexed(paths, files, i);
    }
    lemma_batch_paths_held(batch_paths(paths, files), files);
}

/// A URL-encoded string holds no character that separates or ends the parts
/// of a query: no space, `&`, `=`, `?` or `#`, and nothing beyond ASCII.
pub proof fn law_url_encoding_is_safe(bytes: Seq<u8>)
    ensures
        forall|j: int| 0 <= j < url_encoded(bytes).len() ==> {
            let c = #[trigger] url_encoded(bytes)[j];
            c != ' ' && c != '&' && c != '=' && c != '?' && c != '#' && (c as u32) < 128
        },
    decreases bytes.len(),
{
    if bytes.len() > 0 {
        law_url_encoding_is_safe(bytes.drop_last());
        let before = url_encoded(bytes.drop_last());
        let b = bytes.last();
        let e = encode_byte(b);
        assert(url_encoded(bytes) == before + e);
        assert forall|j: int| 0 <= j < e.len() implies {
            let c = #[trigger] e[j];
            c != ' ' && c != '&' && c != '=' && c != '?' && c != '#' && (c as u32) < 128
        } by {
            assert(b / 16 < 16 && b % 16 < 16);
        }
        assert forall|j: int| 0 <= j < url_encoded(bytes).len() implies {
            let c = #[trigger] url_encoded(bytes)[j];
            c != ' ' && c != '&' && c != '=' && c != '?' && c != '#' && (c as u32) < 128
        } by {
            if j < before.len() {
                assert(url_encoded(bytes)[j] == before[j]);
            } else {
                assert(url_encoded(bytes)[j] == e[j - before.len()]);
            }
        }
    }
}

/// The normal form of each word, in order.
pub open spec fn normal_forms(words: Seq<Seq<char>>) -> Seq<Seq<char>> {
    words.map_values(|w: Seq<char>| normal_form(w))
}

/// Whether a term is held by the vocabulary.
pub open spec fn held_by(vocabulary: Seq<Seq<char>>) -> spec_fn(Seq<char>) -> bool {
    |t: Seq<char>| vocabulary.contains(t)
}

/// A query word is looked up by its normal form, whatever its length or
/// characters: the terms a query finds are the normal forms of its words, in
/// order, that the vocabulary holds.
pub proof fn law_query_terms_are_held_normal_forms(vocabulary: Seq<Seq<char>>, words: Seq<Seq<char>>)
    ensures
        found_terms(vocabulary, words) == normal_forms(words).filter(held_by(vocabulary)),
    decreases words.len(),
{
    if words.len() > 0 {
        law_query_terms_are_held_normal_forms(vocabulary, words.drop_last());
        let m = normal_forms(words);
        assert(m.drop_last() =~= normal_forms(words.drop_last()));
        assert(m.last() == normal_form(words.last()));
        let pred = held_by(vocabulary);
        reveal(Seq::filter);
        assert(pred(m.last()) == vocabulary.contains(m.last()));
        assert(m.filter(pred) == (if pred(m.last()) {
            m.drop_last().filter(pred).push(m.last())
        } else {
            m.drop_last().filter(pred)
        }));
    }
}

pub proof fn lemma_terms_hold_word(words: Seq<Seq<char>>, j: int)
    requires
        0 <= j < words.len(),
        words[j].len() > 0,
        normal_form(words[j]).len() > 0,
    ensures
        terms_of_words(words).contains(normal_form(words[j])),
    decreases words.len(),
{
    let rest = terms_of_words(words.drop_last());
    if j == words.len() - 1 {
        assert(term_of(words.last()) == Some(normal_form(words[j])));
        assert(terms_of_words(words) == rest.push(normal_form(words[j])));
        assert(terms_of_words(words)[rest.len() as int] == normal_form(words[j]));
    } else {
        assert(words.drop_last()[j] == words[j]);
        lemma_terms_hold_word(words.drop_last(), j);
        let q = choose|q: int| 0 <= q < rest.len() && rest[q] == normal_form(words[j]);
        match term_of(words.last()) {
            Some(t) => {
                assert(terms_of_words(words)[q] == rest[q]);
            },
            None => {},
        }
    }
}

/// Every non-empty word of a text whose normal form is not empty gives that
/// normal form as one of the text's terms: words of digits and short words
/// are indexed like any other.
pub proof fn law_every_word_is_indexed(text: Seq<char>, j: int)
    requires
        0 <= j < raw_words(text).len(),
        raw_words(text)[j].len() > 0,
        normal_form(raw_words(text)[j]).len() > 0,
    ensures
        terms_of(text).contains(normal_form(raw_words(text)[j])),
{
    lemma_terms_hold_word(raw_words(text), j);
}

/// A query reply holds as many results as `n_result` asks for, at most all
/// of them.
pub proof fn law_results_as_asked(p: Seq<char>, v: nat, available: nat)
    requires
        parsed_usize(p) == Some(v),
    ensures
        results_shown(Some(p), available) == if v <= available {
            v
        } else {
            available
        },
{
}

/// A query reply without `n_result` holds 255 results, or all of them when
/// there are fewer; one whose `n_result` is not a number holds none.
pub proof fn law_results_by_default(p: Seq<char>, available: nat)
    ensures
        results_shown(None, available) == if 255 <= available {
            255
        } else {
            available
        },
        parsed_usize(p) is None ==> results_shown(Some(p), available) == 0,
{
}

/// Reading a text that is empty or ends a word, then another text: the words
/// of the first are followed by those of the second.
pub proof fn lemma_scan_concat(p: Seq<char>, q: Seq<char>)
    requires
        p.len() == 0 || !is_word_char(p.last()),
    ensures
        scan(p + q) == (scan(p).0 + scan(q).0, scan(q).1, scan(p).2 + scan(q).2),
    decreases q.len(),
{
    if q.len() == 0 {
        assert(p + q =~= p);
        assert(scan(p).0 + scan(q).0 =~= scan(p).0);
        if p.len() > 0 {
            assert(p.drop_last().push(p.last()) =~= p);
            lemma_scan_push(p.drop_last(), p.last());
        }
    } else {
        let q0 = q.drop_last();
        let c = q.last();
        lemma_scan_concat(p, q0);
        assert(q0.push(c) =~= q);
        assert((p + q0).push(c) =~= p + q);
        lemma_scan_push(p + q0, c);
        lemma_scan_push(q0, c);
        if !is_word_char(c) {
            assert((scan(p).0 + scan(q0).0).push(scan(q0).1) =~= scan(p).0 + scan(q0).0.push(scan(q0).1));
        }
    }
}

/// The terms of a text that is empty or ends a word, followed by another
/// text, are the terms of the first followed by those of the second.
pub proof fn lemma_terms_of_concat(p: Seq<char>, q: Seq<char>)
    requires
        p.len() == 0 || !is_word_char(p.last()),
    ensures
        terms_of(p + q) == terms_of(p) + terms_of(q),
{
    lemma_scan_concat(p, q);
    lemma_scan_concat(p, Seq::<char>::empty());
    assert(p + Seq::<char>::empty() =~= p);
    assert(raw_words(p + q) =~= scan(p).0 + raw_words(q));
    lemma_terms_concat(scan(p).0, raw_words(q));
    lemma_terms_push(scan(p).0, Seq::<char>::empty());
    assert(raw_words(p) == scan(p).0.push(Seq::<char>::empty()));
}

/// A space after a text ends its last word and adds no term.
pub proof fn lemma_terms_space(c: Seq<char>)
    ensures
        terms_of(c.push(' ')) == terms_of(c),
{
    lemma_scan_push(c, ' ');
    assert(!is_word_char(' '));
    lemma_terms_push(raw_words(c), Seq::<char>::empty());
    assert(raw_words(c.push(' ')) == raw_words(c).push(Seq::<char>::empty()));
}

/// The terms of the pieces of character data of XML events, in order.
pub open spec fn xml_terms(events: Seq<Option<Seq<char>>>) -> Seq<Seq<char>>
    decreases events.len(),
{
    if events.len() == 0 {
        Seq::empty()
    } else {
        xml_terms(events.drop_last()) + match events.last() {
            Some(c) => terms_of(c),
            None => Seq::empty(),
        }
    }
}

pub proof fn lemma_xml_text_ends_word(events: Seq<Option<Seq<char>>>)
    ensures
        xml_text(events).len() == 0 || !is_word_char(xml_text(events).last()),
    decreases events.len(),
{
    reveal_strlit(" ");
    if events.len() > 0 {
        lemma_xml_text_ends_word(events.drop_last());
    }
}

/// The text of an XML document keeps its pieces of character data apart: its
/// terms are those of each piece, in order, and no word runs from one piece
/// into the next.
pub proof fn law_xml_pieces_kept_apart(events: Seq<Option<Seq<char>>>)
    ensures
        terms_of(xml_text(events)) == xml_terms(events),
    decreases events.len(),
{
    reveal_strlit(" ");
    if events.len() == 0 {
        assert(terms_of(Seq::<char>::empty()) =~= Seq::<Seq<char>>::empty()) by {
            assert(raw_words(Seq::<char>::empty()) =~= seq![Seq::<char>::empty()]);
            lemma_terms_push(Seq::<Seq<char>>::empty(), Seq::<char>::empty());
        }
    } else {
        let before = xml_text(events.drop_last());
        law_xml_pieces_kept_apart(events.drop_last());
        lemma_xml_text_ends_word(events.drop_last());
        match events.last() {
            Some(c) => {
                assert(" "@ =~= seq![' ']);
                assert(xml_text(events) =~= before + c.push(' '));
                lemma_terms_of_concat(before, c.push(' '));
                lemma_terms_space(c);
            },
            None => {
                assert(xml_terms(events) =~= xml_terms(events.drop_last()));
            },
        }
    }
}

/// The value of a hexadecimal digit, in either case.
pub open spec fn hex_value(c: char) -> Option<int> {
    if '0' <= c && c <= '9' {
        Some(c as int - 48)
    } else if 'A' <= c && c <= 'F' {
        Some(c as int - 55)
    } else if 'a' <= c && c <= 'f' {
        Some(c as int - 87)
    } else {
        None
    }
}

/// The bytes that `application/x-www-form-urlencoded` decoding gives for an
/// ASCII text: `+` is a space, `%` followed by two hexadecimal digits is the
/// byte they write, and any other character is its own code.
pub open spec fn form_decoded(s: Seq<char>) -> Seq<u8>
    decreases s.len(),
{
    if s.len() == 0 {
        Seq::empty()
    } else if s[0] == '+' {
        seq![32u8] + form_decoded(s.drop_first())
    } else if s[0] == '%' && s.len() >= 3 && hex_value(s[1]) is Some && hex_value(s[2]) is Some {
        seq![(hex_value(s[1])->0 * 16 + hex_value(s[2])->0) as u8] + form_decoded(s.skip(3))
    } else {
        seq![s[0] as u8] + form_decoded(s.drop_first())
    }
}

pub proof fn lemma_url_encoded_front(b: u8, rest: Seq<u8>)
    ensures
        url_encoded(seq![b] + rest) == encode_byte(b) + url_encoded(rest),
    decreases rest.len(),
{
    if rest.len() == 0 {
        let one = seq![b];
        assert(one + rest =~= one);
        assert(one.drop_last() =~= Seq::<u8>::empty());
        assert(one.last() == b);
        assert(url_encoded(Seq::<u8>::empty()) == Seq::<char>::empty());
        assert(url_encoded(one) == url_encoded(one.drop_last()) + encode_byte(one.last()));
        assert(encode_byte(b) + url_encoded(rest) =~= encode_byte(b));
        assert(Seq::<char>::empty() + encode_byte(b) =~= encode_byte(b));
    } else {
        let r0 = rest.drop_last();
        lemma_url_encoded_front(b, r0);
        let whole = seq![b] + rest;
        assert(whole.drop_last() =~= seq![b] + r0);
        assert(whole.last() == rest.last());
        assert(url_encoded(whole) == url_encoded(whole.drop_last()) + encode_byte(whole.last()));
        assert(url_encoded(rest) == url_encoded(r0) + encode_byte(rest.last()));
        assert(encode_byte(b) + url_encoded(r0) + encode_byte(rest.last()) =~= encode_byte(b) + (
        url_encoded(r0) + encode_byte(rest.last())));
    }
}

pub proof fn lemma_hex_round_trip(n: u8)
    requires
        n < 16,
    ensures
        hex_value(hex_digit(n)) == Some(n as int),
{
}

pub proof fn lemma_decode_byte(b: u8, t: Seq<char>)
    ensures
        form_decoded(encode_byte(b) + t) == seq![b] + form_decoded(t),
{
    let e = encode_byte(b);
    let s = e + t;
    if e.len() == 1 {
        assert(s.drop_first() =~= t);
        assert(s[0] == e[0]);
    } else {
        assert(s.skip(3) =~= t);
        lemma_hex_round_trip(b / 16);
        lemma_hex_round_trip(b % 16);
        assert(s[0] == '%' && s[1] == hex_digit(b / 16) && s[2] == hex_digit(b % 16));
        assert((b / 16) * 16 + b % 16 == b);
    }
}

/// What the client encodes, form decoding gives back: every byte of a query
/// or a path reaches the server as it was, `+` included.
pub proof fn law_url_encoding_round_trip(bytes: Seq<u8>)
    ensures
        form_decoded(url_encoded(bytes)) == bytes,
    decreases bytes.len(),
{
    if bytes.len() == 0 {
        assert(url_encoded(bytes) =~= Seq::<char>::empty());
    } else {
        let b = bytes[0];
        let rest = bytes.drop_first();
        assert(bytes =~= seq![b] + rest);
        lemma_url_encoded_front(b, rest);
        lemma_decode_byte(b, url_encoded(rest));
        law_url_encoding_round_trip(rest);
    }
}

} // verus!
