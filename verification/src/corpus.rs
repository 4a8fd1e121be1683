//! The documents of an index, keyed by path, with the vocabulary that gives
//! their terms keys. This is what both ranking schemes share; the scores
//! themselves are computed in floating point elsewhere.
use vstd::prelude::*;
use lasso::{Rodeo, RodeoReader};
use crate::doc::{
    find_key, has_entry, occurrences, all_distinct, counts_terms, describes, indexable, intern_all, keys_sorted, lemma_intern_concat,
    lemma_intern_extends, Doc,
};
use crate::formats::{pdf_encrypted, pdf_loads, source_text, DocSource, DocumentCreateError};
use crate::rank::{is_ranking, rank};
use crate::strs::str_equal;
use crate::text::{separator_count, terms_of};
use crate::vocab::{
    into_reader, new_rodeo, reader_get, reader_len, reader_strings, rodeo_strings, normal_form,
    EnglishStemmer,
};

verus! {

/// The text that a file contributes, if any.
pub open spec fn file_text(f: (String, Result<DocSource, DocumentCreateError>)) -> Option<Seq<char>> {
    match f.1 {
        Ok(src) => source_text(src),
        Err(_) => None,
    }
}

/// A PDF that `lopdf` cannot read.
pub open spec fn unreadable_pdf(f: (String, Result<DocSource, DocumentCreateError>)) -> bool {
    f.1 matches Ok(DocSource::Pdf(b)) && !pdf_loads(b@)
}

/// The terms of all texts of a batch of files, in order.
pub open spec fn batch_terms(files: Seq<(String, Result<DocSource, DocumentCreateError>)>) -> Seq<Seq<char>>
    decreases files.len(),
{
    if files.len() == 0 {
        Seq::empty()
    } else {
        let before = batch_terms(files.drop_last());
        match file_text(files.last()) {
            Some(t) => before + terms_of(t),
            None => before,
        }
    }
}

/// The vocabulary of a batch: its terms in order of first occurrence.
pub open spec fn batch_vocabulary(files: Seq<(String, Result<DocSource, DocumentCreateError>)>) -> Seq<Seq<char>> {
    intern_all(Seq::empty(), batch_terms(files))
}

/// The summed word counts of the texts of a batch.
pub open spec fn batch_length(files: Seq<(String, Result<DocSource, DocumentCreateError>)>) -> nat
    decreases files.len(),
{
    if files.len() == 0 {
        0
    } else {
        batch_length(files.drop_last()) + match file_text(files.last()) {
            Some(t) => separator_count(t),
            None => 0,
        }
    }
}

/// Indexing a batch goes through: every PDF can be read, every text can be
/// indexed (see `indexable`), and the summed length stays within `usize`.
pub open spec fn goes_through(files: Seq<(String, Result<DocSource, DocumentCreateError>)>, sum0: nat) -> bool
    decreases files.len(),
{
    if files.len() == 0 {
        true
    } else {
        &&& goes_through(files.drop_last(), sum0)
        &&& !unreadable_pdf(files.last())
        &&& match file_text(files.last()) {
            Some(t) => indexable(batch_vocabulary(files.drop_last()), t) && sum0 + batch_length(
                files.drop_last(),
            ) + separator_count(t) <= usize::MAX,
            None => true,
        }
    }
}

/// The files of a batch that give no text, in order.
pub open spec fn failed_files(files: Seq<(String, Result<DocSource, DocumentCreateError>)>) -> Seq<(String, Result<DocSource, DocumentCreateError>)>
    decreases files.len(),
{
    if files.len() == 0 {
        Seq::empty()
    } else {
        let before = failed_files(files.drop_last());
        if file_text(files.last()) is None {
            before.push(files.last())
        } else {
            before
        }
    }
}

/// `e` is the error reported for a file that gives no text.
pub open spec fn reports(f: (String, Result<DocSource, DocumentCreateError>), e: DocumentCreateError) -> bool {
    match f.1 {
        Err(e0) => e == e0,
        Ok(DocSource::Pdf(b)) => if pdf_encrypted(b@) {
            e is EncryptedPDF
        } else {
            e is FailedToExtractPDFText
        },
        Ok(_) => false,
    }
}

/// The text last given under `path` by a batch, if any.
pub open spec fn latest_text(files: Seq<(String, Result<DocSource, DocumentCreateError>)>, path: Seq<char>) -> Option<Seq<char>>
    decreases files.len(),
{
    if files.len() == 0 {
        None
    } else if files.last().0@ == path && file_text(files.last()) is Some {
        file_text(files.last())
    } else {
        latest_text(files.drop_last(), path)
    }
}

/// The paths after a batch: those held before, then each new path of a file
/// with a text, once, in order.
pub open spec fn batch_paths(paths: Seq<Seq<char>>, files: Seq<(String, Result<DocSource, DocumentCreateError>)>) -> Seq<Seq<char>>
    decreases files.len(),
{
    if files.len() == 0 {
        paths
    } else {
        let before = batch_paths(paths, files.drop_last());
        if file_text(files.last()) is Some && !before.contains(files.last().0@) {
            before.push(files.last().0@)
        } else {
            before
        }
    }
}

pub proof fn lemma_counts_extend(
    entries: Seq<(u32, u32)>,
    s: Seq<Seq<char>>,
    s2: Seq<Seq<char>>,
    terms: Seq<Seq<char>>,
)
    requires
        counts_terms(entries, s, terms),
        s2.len() >= s.len(),
        forall|i: int| 0 <= i < s.len() ==> #[trigger] s2[i] == s[i],
    ensures
        counts_terms(entries, s2, terms),
{
    assert forall|i: int| #![trigger entries[i]] 0 <= i < entries.len() implies {
        &&& 1 <= entries[i].0 <= s2.len()
        &&& entries[i].1 == occurrences(terms, s2[entries[i].0 - 1])
        &&& entries[i].1 >= 1
    } by {
        assert(1 <= entries[i].0 <= s.len());
        assert(s2[entries[i].0 - 1] == s[entries[i].0 - 1]);
    }
    assert forall|j: int| 0 <= j < terms.len() implies has_entry(entries, s2, #[trigger] terms[j]) by {
        let i = choose|i: int|
            #![trigger entries[i]]
            0 <= i < entries.len() && s[entries[i].0 - 1] == terms[j];
        assert(1 <= entries[i].0 <= s.len());
        assert(s2[entries[i].0 - 1] == s[entries[i].0 - 1]);
    }
}

pub proof fn lemma_goes_through_prefix(
    files: Seq<(String, Result<DocSource, DocumentCreateError>)>,
    sum0: nat,
    m: int,
)
    requires
        0 <= m <= files.len(),
        goes_through(files, sum0),
    ensures
        goes_through(files.take(m), sum0),
    decreases files.len(),
{
    if m == files.len() {
        assert(files.take(m) =~= files);
    } else {
        lemma_goes_through_prefix(files.drop_last(), sum0, m);
        assert(files.drop_last().take(m) =~= files.take(m));
    }
}

/// What one more file does to each of the batch functions.
pub proof fn lemma_batch_step(
    files: Seq<(String, Result<DocSource, DocumentCreateError>)>,
    k: int,
    sum0: nat,
    paths: Seq<Seq<char>>,
)
    requires
        0 <= k < files.len(),
    ensures
        ({
            let pre = files.take(k);
            let post = files.take(k + 1);
            let f = files[k];
            &&& batch_terms(post) == match file_text(f) {
                Some(t) => batch_terms(pre) + terms_of(t),
                None => batch_terms(pre),
            }
            &&& batch_length(post) == batch_length(pre) + match file_text(f) {
                Some(t) => separator_count(t),
                None => 0,
            }
            &&& goes_through(post, sum0) == (goes_through(pre, sum0) && !unreadable_pdf(f) && match file_text(f) {
                Some(t) => indexable(batch_vocabulary(pre), t) && sum0 + batch_length(pre) + separator_count(t) <= usize::MAX,
                None => true,
            })
            &&& failed_files(post) == (if file_text(f) is None {
                failed_files(pre).push(f)
            } else {
                failed_files(pre)
            })
            &&& batch_paths(paths, post) == (if file_text(f) is Some && !batch_paths(paths, pre).contains(f.0@) {
                batch_paths(paths, pre).push(f.0@)
            } else {
                batch_paths(paths, pre)
            })
            &&& forall|p: Seq<char>| #[trigger] latest_text(post, p) == (if f.0@ == p && file_text(f) is Some {
                file_text(f)
            } else {
                latest_text(pre, p)
            })
        }),
{
    let pre = files.take(k);
    let post = files.take(k + 1);
    assert(post.drop_last() =~= pre);
    assert(post.last() == files[k]);
}

/// The normal forms of the query words that the vocabulary holds, in order.
pub open spec fn found_terms(vocabulary: Seq<Seq<char>>, words: Seq<Seq<char>>) -> Seq<Seq<char>>
    decreases words.len(),
{
    if words.len() == 0 {
        Seq::empty()
    } else {
        let before = found_terms(vocabulary, words.drop_last());
        if vocabulary.contains(normal_form(words.last())) {
            before.push(normal_form(words.last()))
        } else {
            before
        }
    }
}

/// Document `doc` has an entry for `key`.
pub open spec fn has_key(doc: Doc, key: u32) -> bool {
    exists|i: int| 0 <= i < doc.entries().len() && doc.entries()[i].0 == key
}

/// How many of `docs` have an entry for `key`.
pub open spec fn docs_containing(docs: Seq<Doc>, key: u32) -> nat
    decreases docs.len(),
{
    if docs.len() == 0 {
        0
    } else {
        docs_containing(docs.drop_last(), key) + if has_key(docs.last(), key) {
            1nat
        } else {
            0nat
        }
    }
}

/// Some entry of `table` has key `k`.
pub open spec fn lists_key(table: Seq<(u32, u32)>, k: u32) -> bool {
    exists|j: int| 0 <= j < table.len() && table[j].0 == k
}

pub proof fn lemma_docs_containing_bound(docs: Seq<Doc>, key: u32)
    ensures
        docs_containing(docs, key) <= docs.len(),
    decreases docs.len(),
{
    if docs.len() > 0 {
        lemma_docs_containing_bound(docs.drop_last(), key);
    }
}

/// The documents of an index by path, and the vocabulary of their terms,
/// without the guarantee that they are well formed.
pub(crate) struct Index {
    docs: Vec<(String, Doc)>,
    rodeo: RodeoReader,
    stemmer: EnglishStemmer,
    doc_len_sum: usize,
}

impl Index {
    /// The paths of the documents, in order.
    pub(crate) closed spec fn paths(&self) -> Seq<Seq<char>> {
        self.docs@.map_values(|e: (String, Doc)| e.0@)
    }

    /// The document at index `i`.
    pub(crate) closed spec fn doc_at(&self, i: int) -> Doc {
        self.docs@[i].1
    }

    /// The vocabulary: the string at index `i` is the term with key `i + 1`.
    pub(crate) closed spec fn vocabulary(&self) -> Seq<Seq<char>> {
        reader_strings(self.rodeo)
    }

    /// The summed word counts of the documents indexed so far.
    pub(crate) closed spec fn length_sum(&self) -> nat {
        self.doc_len_sum as nat
    }

    /// Every document indexed under a path of `files` describes the last text
    /// given under that path; every other one is that of `before`.
    pub(crate) open spec fn docs_follow(
        &self,
        files: Seq<(String, Result<DocSource, DocumentCreateError>)>,
        strings: Seq<Seq<char>>,
        before: Index,
    ) -> bool {
        forall|d: int| 0 <= d < self.paths().len() ==> (#[trigger] self.doc_at(d)).wf() && match latest_text(files, self.paths()[d]) {
            Some(t) => describes(self.doc_at(d), strings, t),
            None => d < before.paths().len() && self.doc_at(d) == before.doc_at(d),
        }
    }

    pub(crate) open spec fn wf(&self) -> bool {
        &&& all_distinct(self.paths())
        &&& all_distinct(self.vocabulary())
        &&& forall|i: int| 0 <= i < self.paths().len() ==> #[trigger] self.doc_at(i).wf()
    }

    /// An index without documents.
    pub(crate) fn new() -> (c: Index)
        ensures
            c.wf(),
            c.paths() == Seq::<Seq<char>>::empty(),
            c.vocabulary() == Seq::<Seq<char>>::empty(),
            c.length_sum() == 0,
    {
        let c = Index {
            docs: Vec::new(),
            rodeo: into_reader(new_rodeo()),
            stemmer: EnglishStemmer::new(),
            doc_len_sum: 0,
        };
        proof {
            assert(c.paths() =~= Seq::<Seq<char>>::empty());
        }
        c
    }

    /// The state of an index part-way through a batch: `pre` has been indexed
    /// into `strings`, starting from `before`.
    spec fn batch_state(
        &self,
        before: Index,
        pre: Seq<(String, Result<DocSource, DocumentCreateError>)>,
        strings: Seq<Seq<char>>,
        errs: Seq<DocumentCreateError>,
    ) -> bool {
        &&& strings == batch_vocabulary(pre)
        &&& all_distinct(strings)
        &&& goes_through(pre, before.length_sum())
        &&& self.length_sum() == before.length_sum() + batch_length(pre)
        &&& self.paths() == batch_paths(before.paths(), pre)
        &&& all_distinct(self.paths())
        &&& self.docs_follow(pre, strings, before)
        &&& errs.len() == failed_files(pre).len()
        &&& forall|j: int| 0 <= j < errs.len() ==> reports(#[trigger] failed_files(pre)[j], errs[j])
        &&& self.rodeo == before.rodeo
    }

    /// A file without a text leaves what every document follows unchanged.
    proof fn lemma_follow_unchanged(
        &self,
        files: Seq<(String, Result<DocSource, DocumentCreateError>)>,
        k: int,
        strings: Seq<Seq<char>>,
        before: Index,
    )
        requires
            0 <= k < files.len(),
            self.docs_follow(files.take(k), strings, before),
            file_text(files[k]) is None,
        ensures
            self.docs_follow(files.take(k + 1), strings, before),
    {
        let pre = files.take(k);
        let post = files.take(k + 1);
        assert(post.drop_last() =~= pre);
        assert(post.last() == files[k]);
        assert forall|d: int| 0 <= d < self.paths().len() implies latest_text(post, self.paths()[d])
            == latest_text(pre, self.paths()[d]) by {}
    }

    /// Indexes file `k` of a batch; `false` when the batch cannot go through.
    #[verifier::spinoff_prover]
    #[verifier::rlimit(50)]
    fn index_file(
        &mut self,
        rodeo: &mut Rodeo,
        errs: &mut Vec<DocumentCreateError>,
        f: (String, Result<DocSource, DocumentCreateError>),
        Ghost(files): Ghost<Seq<(String, Result<DocSource, DocumentCreateError>)>>,
        Ghost(k): Ghost<int>,
        Ghost(before): Ghost<Index>,
    ) -> (ok: bool)
        requires
            0 <= k < files.len(),
            f == files[k],
            before.wf(),
            old(self).batch_state(before, files.take(k), rodeo_strings(*old(rodeo)), old(errs)@),
        ensures
            ok ==> final(self).batch_state(before, files.take(k + 1), rodeo_strings(*final(rodeo)), final(errs)@),
            !ok ==> !goes_through(files.take(k + 1), before.length_sum()),
            !ok ==> *final(self) == *old(self),
    {
        let ghost pre = files.take(k);
        let ghost post = files.take(k + 1);
        let ghost rod0 = rodeo_strings(*rodeo);
        let ghost self0 = *self;
        let ghost sum0 = before.length_sum();
        proof {
            lemma_batch_step(files, k, sum0, before.paths());
        }
        let (path, res) = f;
        match res {
            Err(e) => {
                errs.push(e);
                proof {
                    assert(failed_files(post) == failed_files(pre).push(f));
                    self.lemma_follow_unchanged(files, k, rodeo_strings(*rodeo), before);
                    assert forall|j: int| 0 <= j < errs@.len() implies reports(#[trigger] failed_files(post)[j], errs@[j]) by {
                        if j < errs@.len() - 1 {
                            assert(failed_files(post)[j] == failed_files(pre)[j]);
                        }
                    }
                    assert(rodeo_strings(*rodeo) == batch_vocabulary(post));
                    assert(goes_through(post, before.length_sum()));
                    assert(self.length_sum() == before.length_sum() + batch_length(post));
                    assert(self.paths() == batch_paths(before.paths(), post));
                    assert(errs@.len() == failed_files(post).len());
                    assert(all_distinct(rodeo_strings(*rodeo)));
                    assert(all_distinct(self.paths()));
                    assert(self.rodeo == before.rodeo);
                    assert(self.batch_state(before, post, rodeo_strings(*rodeo), errs@));
                }
                true
            },
            Ok(src) => {
                let made = Doc::from_source(&src, rodeo);
                proof {
                    assert(file_text(f) == source_text(src));
                }
                match made {
                    None => false,
                    Some(Err(e)) => {
                        errs.push(e);
                        proof {
                            assert(file_text(f) is None);
                            assert(failed_files(post) == failed_files(pre).push(f));
                            self.lemma_follow_unchanged(files, k, rodeo_strings(*rodeo), before);
                            assert forall|j: int| 0 <= j < errs@.len() implies reports(#[trigger] failed_files(post)[j], errs@[j]) by {
                                if j < errs@.len() - 1 {
                                    assert(failed_files(post)[j] == failed_files(pre)[j]);
                                }
                            }
                            assert(rodeo_strings(*rodeo) == batch_vocabulary(post));
                            assert(goes_through(post, before.length_sum()));
                            assert(self.batch_state(before, post, rodeo_strings(*rodeo), errs@));
                        }
                        true
                    },
                    Some(Ok(doc)) => {
                        let ghost t = file_text(f)->0;
                        let ghost rod1 = rodeo_strings(*rodeo);
                        let n = doc.word_count();
                        if self.doc_len_sum > usize::MAX - n as usize {
                            return false;
                        }
                        self.doc_len_sum = self.doc_len_sum + n as usize;
                        proof {
                            lemma_intern_concat(Seq::empty(), batch_terms(pre), terms_of(t));
                            lemma_intern_extends(rod0, terms_of(t));
                            assert(rod1 == batch_vocabulary(post));
                        }
                        match self.find_path(path.as_str()) {
                            Some(i) => {
                                self.docs.set(i, (path, doc));
                                proof {
                                    assert(self.paths() =~= self0.paths());
                                    assert(batch_paths(before.paths(), post) == batch_paths(before.paths(), pre));
                                    assert forall|d: int| 0 <= d < self.paths().len() implies (#[trigger] self.doc_at(d)).wf() && match latest_text(post, self.paths()[d]) {
                                        Some(t2) => describes(self.doc_at(d), rod1, t2),
                                        None => d < before.paths().len() && self.doc_at(d) == before.doc_at(d),
                                    } by {
                                        if d == i {
                                            assert(latest_text(post, self.paths()[d]) == Some(t));
                                        } else {
                                            assert(self.doc_at(d) == self0.doc_at(d));
                                            assert(self.paths()[d] != self.paths()[i as int]);
                                            assert(latest_text(post, self.paths()[d]) == latest_text(pre, self.paths()[d]));
                                            assert(self0.doc_at(d).wf());
                                            if let Some(t2) = latest_text(pre, self.paths()[d]) {
                                                lemma_counts_extend(self.doc_at(d).entries(), rod0, rod1, terms_of(t2));
                                            }
                                        }
                                    }
                                }
                            },
                            None => {
                                self.docs.push((path, doc));
                                proof {
                                    let np = self0.paths().len();
                                    assert(self.paths() =~= self0.paths().push(f.0@));
                                    assert(batch_paths(before.paths(), post) == batch_paths(before.paths(), pre).push(f.0@));
                                    assert forall|a: int, b: int| 0 <= a < b < self.paths().len() implies self.paths()[a] != self.paths()[b] by {
                                        if b == np {
                                            assert(self0.paths().contains(self0.paths()[a]));
                                        }
                                    }
                                    assert forall|d: int| 0 <= d < self.paths().len() implies (#[trigger] self.doc_at(d)).wf() && match latest_text(post, self.paths()[d]) {
                                        Some(t2) => describes(self.doc_at(d), rod1, t2),
                                        None => d < before.paths().len() && self.doc_at(d) == before.doc_at(d),
                                    } by {
                                        if d == np {
                                            assert(latest_text(post, self.paths()[d]) == Some(t));
                                        } else {
                                            assert(self.doc_at(d) == self0.doc_at(d));
                                            assert(self.paths()[d] == self0.paths()[d]);
                                            assert(self.paths()[d] != f.0@);
                                            assert(latest_text(post, self.paths()[d]) == latest_text(pre, self.paths()[d]));
                                            assert(self0.doc_at(d).wf());
                                            if let Some(t2) = latest_text(pre, self.paths()[d]) {
                                                lemma_counts_extend(self.doc_at(d).entries(), rod0, rod1, terms_of(t2));
                                            }
                                        }
                                    }
                                }
                            },
                        }
                        true
                    },
                }
            },
        }
    }

    /// Indexes a batch of files, each given by its path and its contents (or
    /// the error met reading it), with a fresh vocabulary that then replaces
    /// the one held. A file with a text is indexed under its path, replacing a
    /// document held there; the errors of the files without a text are handed
    /// back in order; the index stays well formed. `None` when a PDF cannot
    /// be read, a text cannot be indexed, or the summed length would overflow.
    pub(crate) fn add_documents(&mut self, files: Vec<(String, Result<DocSource, DocumentCreateError>)>) -> (r: Option<Vec<DocumentCreateError>>)
        requires
            old(self).wf(),
        ensures
            final(self).wf(),
            r is Some <==> goes_through(files@, old(self).length_sum()),
            r matches Some(errs) ==> {
                &&& final(self).wf()
                &&& final(self).vocabulary() == batch_vocabulary(files@)
                &&& final(self).paths() == batch_paths(old(self).paths(), files@)
                &&& final(self).length_sum() == old(self).length_sum() + batch_length(files@)
                &&& forall|d: int| 0 <= d < final(self).paths().len() ==> match latest_text(files@, #[trigger] final(self).paths()[d]) {
                    Some(t) => describes(final(self).doc_at(d), final(self).vocabulary(), t),
                    None => final(self).doc_at(d) == old(self).doc_at(d),
                }
                &&& errs@.len() == failed_files(files@).len()
                &&& forall|j: int| 0 <= j < errs@.len() ==> reports(#[trigger] failed_files(files@)[j], errs@[j])
            },
    {
        broadcast use vstd::std_specs::vec::axiom_spec_into_iter;

        let ghost files0 = files@;
        let ghost before = *self;
        let mut rodeo: Rodeo = new_rodeo();
        let mut errs: Vec<DocumentCreateError> = Vec::new();
        proof {
            assert(files0.take(0) =~= Seq::<(String, Result<DocSource, DocumentCreateError>)>::empty());
            assert(self.paths() == batch_paths(before.paths(), files0.take(0)));
        }
        for f in it: files
            invariant
                it.seq() == files0,
                before.wf(),
                before == *old(self),
                self.batch_state(before, files0.take(it.index()), rodeo_strings(rodeo), errs@),
        {
            let ghost rs = rodeo_strings(rodeo);
            let ghost es = errs@;
            if !self.index_file(&mut rodeo, &mut errs, f, Ghost(files0), Ghost(it.index()), Ghost(before)) {
                proof {
                    if goes_through(files0, before.length_sum()) {
                        lemma_goes_through_prefix(files0, before.length_sum(), it.index() + 1);
                    }
                    assert(self.vocabulary() == before.vocabulary());
                    assert forall|i: int| 0 <= i < self.paths().len() implies #[trigger] self.doc_at(i).wf() by {
                        assert(self.batch_state(before, files0.take(it.index()), rs, es));
                        assert(self.docs_follow(files0.take(it.index()), rs, before));
                    }
                }
                return None;
            }
        }
        proof {
            assert(files0.take(files0.len() as int) =~= files0);
        }
        let ghost loop_self = *self;
        self.rodeo = into_reader(rodeo);
        proof {
            assert(self.vocabulary() == rodeo_strings(rodeo));
            assert(self.paths() == loop_self.paths());
            assert(loop_self.batch_state(before, files0, rodeo_strings(rodeo), errs@));
            assert(loop_self.docs_follow(files0, rodeo_strings(rodeo), before));
            assert(self.length_sum() == loop_self.length_sum());
            assert forall|d: int| 0 <= d < self.paths().len() implies self.doc_at(d).wf() && match latest_text(files0, #[trigger] self.paths()[d]) {
                Some(t) => describes(self.doc_at(d), self.vocabulary(), t),
                None => self.doc_at(d) == before.doc_at(d),
            } by {
                assert(self.doc_at(d) == loop_self.doc_at(d));
                assert(loop_self.doc_at(d).wf());
            }
            assert forall|d: int| 0 <= d < self.paths().len() implies #[trigger] self.doc_at(d).wf() by {
                assert(self.doc_at(d) == loop_self.doc_at(d));
                assert(loop_self.doc_at(d).wf());
            }
            assert(self.wf());
        }
        Some(errs)
    }

    /// Where `path` is indexed, if it is.
    fn find_path(&self, path: &str) -> (r: Option<usize>)
        ensures
            r is Some <==> self.paths().contains(path@),
            r matches Some(i) ==> i < self.paths().len() && self.paths()[i as int] == path@,
    {
        let mut i: usize = 0;
        while i < self.docs.len()
            invariant
                i <= self.docs.len(),
                forall|j: int| 0 <= j < i ==> self.paths()[j] != path@,
            decreases self.docs.len() - i,
        {
            if str_equal(self.docs[i].0.as_str(), path) {
                proof {
                    assert(self.paths()[i as int] == path@);
                }
                return Some(i);
            }
            i = i + 1;
        }
        None
    }
}


/// The documents of an index by path, and the vocabulary of their terms.
pub struct Corpus {
    index: Index,
}

impl Corpus {
    /// Paths and terms are held once each, and every document is well formed.
    #[verifier::type_invariant]
    spec fn well_formed(self) -> bool {
        self.index.wf()
    }

    /// The paths of the documents, in order.
    pub closed spec fn paths(&self) -> Seq<Seq<char>> {
        self.index.paths()
    }

    /// The document at index `i`.
    pub closed spec fn doc_at(&self, i: int) -> Doc {
        self.index.doc_at(i)
    }

    /// The vocabulary: the string at index `i` is the term with key `i + 1`.
    pub closed spec fn vocabulary(&self) -> Seq<Seq<char>> {
        self.index.vocabulary()
    }

    /// The summed word counts of the documents indexed so far.
    pub closed spec fn length_sum(&self) -> nat {
        self.index.length_sum()
    }

    /// No path and no term is held twice, and every document is well formed.
    pub open spec fn wf(&self) -> bool {
        &&& all_distinct(self.paths())
        &&& all_distinct(self.vocabulary())
        &&& forall|i: int| 0 <= i < self.paths().len() ==> #[trigger] self.doc_at(i).wf()
    }

    /// An index without documents.
    pub fn new() -> (c: Corpus)
        ensures
            c.wf(),
            c.paths() == Seq::<Seq<char>>::empty(),
            c.vocabulary() == Seq::<Seq<char>>::empty(),
            c.length_sum() == 0,
    {
        Corpus { index: Index::new() }
    }

    /// Indexes a batch of files, each given by its path and its contents (or
    /// the error met reading it), with a fresh vocabulary that then replaces
    /// the one held. A file with a text is indexed under its path, replacing a
    /// document held there; the errors of the files without a text are handed
    /// back in order. `None` when a PDF cannot be read, a text cannot be
    /// indexed (see `indexable`), or the summed length would overflow.
    pub fn add_documents(&mut self, files: Vec<(String, Result<DocSource, DocumentCreateError>)>) -> (r: Option<Vec<DocumentCreateError>>)
        ensures
            final(self).wf(),
            r is Some <==> goes_through(files@, old(self).length_sum()),
            r matches Some(errs) ==> {
                &&& final(self).vocabulary() == batch_vocabulary(files@)
                &&& final(self).paths() == batch_paths(old(self).paths(), files@)
                &&& final(self).length_sum() == old(self).length_sum() + batch_length(files@)
                &&& forall|d: int| 0 <= d < final(self).paths().len() ==> match latest_text(files@, #[trigger] final(self).paths()[d]) {
                    Some(t) => describes(final(self).doc_at(d), final(self).vocabulary(), t),
                    None => final(self).doc_at(d) == old(self).doc_at(d),
                }
                &&& errs@.len() == failed_files(files@).len()
                &&& forall|j: int| 0 <= j < errs@.len() ==> reports(#[trigger] failed_files(files@)[j], errs@[j])
            },
    {
        proof {
            use_type_invariant(&*self);
        }
        let mut work = Index::new();
        std::mem::swap(&mut work, &mut self.index);
        let r = work.add_documents(files);
        self.index = work;
        r
    }

    /// How many documents are indexed.
    pub fn doc_count(&self) -> (n: usize)
        ensures
            n == self.paths().len(),
    {
        self.index.docs.len()
    }

    /// The summed word counts of the documents indexed so far.
    pub fn doc_len_sum(&self) -> (n: usize)
        ensures
            n == self.length_sum(),
    {
        self.index.doc_len_sum
    }

    /// How many terms the vocabulary holds.
    pub fn vocabulary_len(&self) -> (n: usize)
        ensures
            n == self.vocabulary().len(),
    {
        reader_len(&self.index.rodeo)
    }

    /// The path of document `i`.
    pub fn path(&self, i: usize) -> (p: &str)
        requires
            i < self.paths().len(),
        ensures
            p@ == self.paths()[i as int],
    {
        self.index.docs[i].0.as_str()
    }

    /// Document `i`.
    pub fn doc(&self, i: usize) -> (d: &Doc)
        requires
            i < self.paths().len(),
        ensures
            *d == self.doc_at(i as int),
    {
        &self.index.docs[i].1
    }

    /// The documents, in order.
    pub closed spec fn documents(&self) -> Seq<Doc> {
        self.index.docs@.map_values(|e: (String, Doc)| e.1)
    }

    /// The keys of the query words that the vocabulary holds, each word taken
    /// in its normal form, in the order of the words.
    pub fn query_keys(&self, words: &[&str]) -> (keys: Vec<u32>)
        ensures
            keys@.len() == found_terms(self.vocabulary(), words@.map_values(|w: &str| w@)).len(),
            forall|i: int| 0 <= i < keys@.len() ==> 1 <= #[trigger] keys@[i] <= self.vocabulary().len()
                && self.vocabulary()[keys@[i] - 1] == found_terms(self.vocabulary(), words@.map_values(|w: &str| w@))[i],
    {
        let ghost ws = words@.map_values(|w: &str| w@);
        let mut keys: Vec<u32> = Vec::new();
        let mut i: usize = 0;
        while i < words.len()
            invariant
                i <= words.len(),
                ws == words@.map_values(|w: &str| w@),
                keys@.len() == found_terms(self.vocabulary(), ws.take(i as int)).len(),
                forall|j: int| 0 <= j < keys@.len() ==> 1 <= #[trigger] keys@[j] <= self.vocabulary().len()
                    && self.vocabulary()[keys@[j] - 1] == found_terms(self.vocabulary(), ws.take(i as int))[j],
            decreases words.len() - i,
        {
            proof {
                assert(ws.take(i + 1).drop_last() =~= ws.take(i as int));
                assert(ws.take(i + 1).last() == words@[i as int]@);
            }
            let term = self.index.stemmer.normalize(words[i]);
            match reader_get(&self.index.rodeo, term.as_str()) {
                Some(k) => {
                    keys.push(k);
                },
                None => {},
            }
            i = i + 1;
        }
        proof {
            assert(ws.take(words.len() as int) =~= ws);
        }
        keys
    }

    /// How many documents have an entry for `key` with a count other than zero.
    pub fn document_frequency(&self, key: u32) -> (n: usize)
        ensures
            n == docs_containing(self.documents(), key),
            n <= self.paths().len(),
    {
        let mut n: usize = 0;
        let mut d: usize = 0;
        while d < self.index.docs.len()
            invariant
                d <= self.index.docs.len(),
                n == docs_containing(self.documents().take(d as int), key),
                n <= d,
            decreases self.index.docs.len() - d,
        {
            proof {
                assert(self.documents().take(d + 1).drop_last() =~= self.documents().take(d as int));
                assert(self.documents()[d as int] == self.doc_at(d as int));
            }
            let doc = &self.index.docs[d].1;
            proof {
                use_type_invariant(doc);
            }
            assert(*doc == self.documents()[d as int]);
            match doc.get(&key) {
                Some(c) => {
                    proof {
                        let i = choose|i: int| 0 <= i < doc.entries().len() && doc.entries()[i] == (key, *c);
                        assert(doc.entries()[i].1 >= 1);
                        assert(has_key(*doc, key));
                    }
                    if *c != 0 {
                        n = n + 1;
                    }
                },
                None => {},
            }
            d = d + 1;
        }
        proof {
            assert(self.documents().take(d as int) =~= self.documents());
        }
        n
    }

    /// Every key that some document has, with the number of documents that
    /// have it, sorted by key.
    pub fn document_frequencies(&self) -> (df: Vec<(u32, u32)>)
        requires
            self.paths().len() <= u32::MAX,
        ensures
            keys_sorted(df@),
            forall|j: int| 0 <= j < df@.len() ==> (#[trigger] df@[j]).1 == docs_containing(self.documents(), df@[j].0)
                && df@[j].1 >= 1,
            forall|k: u32| docs_containing(self.documents(), k) > 0 ==> lists_key(df@, k),
    {
        let mut df: Vec<(u32, u32)> = Vec::new();
        let mut d: usize = 0;
        while d < self.index.docs.len()
            invariant
                d <= self.index.docs.len(),
                self.index.docs.len() <= u32::MAX,
                keys_sorted(df@),
                forall|j: int| 0 <= j < df@.len() ==> (#[trigger] df@[j]).1 == docs_containing(self.documents().take(d as int), df@[j].0)
                    && df@[j].1 >= 1,
                forall|k: u32| docs_containing(self.documents().take(d as int), k) > 0 ==> lists_key(df@, k),
            decreases self.index.docs.len() - d,
        {
            let ghost pre = self.documents().take(d as int);
            let ghost post = self.documents().take(d + 1);
            let doc = &self.index.docs[d].1;
            proof {
                assert(post.drop_last() =~= pre);
                assert(*doc == self.documents()[d as int]);
                assert(post.last() == *doc);
                use_type_invariant(doc);
                lemma_docs_containing_bound(pre, 0);
            }
            let ks = doc.spurs();
            let mut m: usize = 0;
            while m < ks.len()
                invariant
                    m <= ks.len(),
                    d < self.index.docs.len() <= u32::MAX,
                    ks@ == doc.entries().map_values(|e: (u32, u32)| e.0),
                    keys_sorted(doc.entries()),
                    pre.len() == d,
                    keys_sorted(df@),
                    forall|j: int| 0 <= j < df@.len() ==> (#[trigger] df@[j]).1 == docs_containing(pre, df@[j].0)
                        + (if ks@.take(m as int).contains(df@[j].0) { 1nat } else { 0nat }) && df@[j].1 >= 1,
                    forall|k: u32| docs_containing(pre, k) > 0 || ks@.take(m as int).contains(k) ==> lists_key(df@, k),
                decreases ks.len() - m,
            {
                let x = ks[m];
                let ghost df0 = df@;
                proof {
                    assert(ks@.take(m + 1) =~= ks@.take(m as int).push(x));
                    assert(!ks@.take(m as int).contains(x)) by {
                        if ks@.take(m as int).contains(x) {
                            let q = choose|q: int| 0 <= q < m && ks@.take(m as int)[q] == x;
                            assert(doc.entries()[q].0 < doc.entries()[m as int].0);
                        }
                    }
                    lemma_docs_containing_bound(pre, x);
                }
                let (found, pos) = find_key(&df, x);
                if found {
                    let c = df[pos].1;
                    df.set(pos, (x, c + 1));
                    proof {
                        let df1 = df@;
                        assert forall|j: int| 0 <= j < df1.len() implies (#[trigger] df1[j]).1 == docs_containing(pre, df1[j].0)
                            + (if ks@.take(m + 1).contains(df1[j].0) { 1nat } else { 0nat }) && df1[j].1 >= 1 by {
                            assert(df1[j].0 == df0[j].0);
                            if j != pos {
                                assert(df1[j] == df0[j]);
                                assert(df0[j].0 != x);
                                assert(ks@.take(m + 1).contains(df1[j].0) == ks@.take(m as int).contains(df1[j].0));
                            } else {
                                assert(ks@.take(m + 1)[m as int] == x);
                                assert(ks@.take(m + 1).contains(x));
                            }
                        }
                        assert forall|k: u32| docs_containing(pre, k) > 0 || ks@.take(m + 1).contains(k) implies lists_key(df1, k) by {
                            if k == x {
                                assert(df1[pos as int].0 == k);
                            } else {
                                assert(ks@.take(m as int).contains(k) || docs_containing(pre, k) > 0);
                                assert(lists_key(df0, k));
                                let j = choose|j: int| 0 <= j < df0.len() && df0[j].0 == k;
                                assert(df1[j].0 == k);
                            }
                        }
                    }
                } else {
                    proof {
                        if docs_containing(pre, x) > 0 {
                            assert(lists_key(df0, x));
                            let j = choose|j: int| 0 <= j < df0.len() && df0[j].0 == x;
                            assert(false);
                        }
                    }
                    df.insert(pos, (x, 1));
                    proof {
                        let df1 = df@;
                        assert forall|a: int, b: int| 0 <= a < b < df1.len() implies df1[a].0 < df1[b].0 by {
                            if a < pos && b == pos {
                            } else if a < pos && b > pos {
                                assert(df1[b] == df0[b - 1]);
                            } else if a == pos {
                                assert(df1[b] == df0[b - 1]);
                            } else if a > pos {
                                assert(df1[a] == df0[a - 1]);
                                assert(df1[b] == df0[b - 1]);
                            }
                        }
                        assert forall|j: int| 0 <= j < df1.len() implies (#[trigger] df1[j]).1 == docs_containing(pre, df1[j].0)
                            + (if ks@.take(m + 1).contains(df1[j].0) { 1nat } else { 0nat }) && df1[j].1 >= 1 by {
                            if j != pos {
                                let oj = if j < pos { j } else { j - 1 };
                                assert(df1[j] == df0[oj]);
                                assert(df0[oj].0 != x);
                                assert(ks@.take(m + 1).contains(df1[j].0) == ks@.take(m as int).contains(df1[j].0));
                            } else {
                                assert(ks@.take(m + 1)[m as int] == x);
                                assert(ks@.take(m + 1).contains(x));
                            }
                        }
                        assert forall|k: u32| docs_containing(pre, k) > 0 || ks@.take(m + 1).contains(k) implies lists_key(df1, k) by {
                            if k == x {
                                assert(df1[pos as int].0 == k);
                            } else {
                                assert(ks@.take(m as int).contains(k) || docs_containing(pre, k) > 0);
                                assert(lists_key(df0, k));
                                let j = choose|j: int| 0 <= j < df0.len() && df0[j].0 == k;
                                if j < pos {
                                    assert(df1[j] == df0[j]);
                                } else {
                                    assert(df1[j + 1] == df0[j]);
                                }
                            }
                        }
                    }
                }
                m = m + 1;
            }
            proof {
                assert(ks@.take(ks.len() as int) =~= ks@);
                assert forall|k: u32| #![auto] has_key(*doc, k) == ks@.contains(k) by {
                    if has_key(*doc, k) {
                        let i = choose|i: int| 0 <= i < doc.entries().len() && doc.entries()[i].0 == k;
                        assert(ks@[i] == k);
                    }
                    if ks@.contains(k) {
                        let i = choose|i: int| 0 <= i < ks@.len() && ks@[i] == k;
                        assert(doc.entries()[i].0 == k);
                    }
                }
                assert forall|k: u32| #![auto] docs_containing(post, k) == docs_containing(pre, k) + if ks@.contains(k) { 1nat } else { 0nat } by {}
            }
            d = d + 1;
        }
        proof {
            assert(self.documents().take(d as int) =~= self.documents());
        }
        df
    }

    /// The paths of the documents that have a score key, best first (see `rank`).
    pub fn ranked_paths(&self, keys: &Vec<Option<u64>>) -> (r: Vec<&str>)
        requires
            keys@.len() == self.paths().len(),
        ensures
            exists|order: Seq<usize>| {
                &&& is_ranking(keys@, order)
                &&& r@.len() == order.len()
                &&& forall|i: int| 0 <= i < order.len() ==> (#[trigger] r@[i])@ == self.paths()[order[i] as int]
            },
    {
        let order = rank(keys);
        let mut r: Vec<&str> = Vec::new();
        let mut i: usize = 0;
        while i < order.len()
            invariant
                i <= order.len(),
                is_ranking(keys@, order@),
                keys@.len() == self.paths().len(),
                r@.len() == i,
                forall|j: int| 0 <= j < i ==> (#[trigger] r@[j])@ == self.paths()[order@[j] as int],
            decreases order.len() - i,
        {
            let d = order[i];
            assert(d < keys@.len());
            r.push(self.index.docs[d].0.as_str());
            i = i + 1;
        }
        r
    }
}

} // verus!
