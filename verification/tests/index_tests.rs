use henny::corpus::Corpus;
use henny::doc::Doc;
use henny::formats::{DocFormat, DocSource, DocumentCreateError};
use henny::rank::rank;
use henny::text::word_char;
use lasso::Rodeo;
use lopdf::content::{Content, Operation};
use lopdf::{Dictionary, Document, Object, Stream};

fn new_rodeo() -> Rodeo {
    Rodeo::default()
}

fn counts(doc: &Doc) -> Vec<(u32, u32)> {
    doc.spurs().into_iter().map(|k| (k, *doc.get(&k).unwrap())).collect()
}

#[test]
fn from_text_counts_each_term() {
    let mut rodeo = new_rodeo();
    let doc = Doc::from_text("hello hello world", &mut rodeo);
    // "hello" is interned first, so it has key 1
    assert_eq!(counts(&doc), vec![(1, 2), (2, 1)]);
    assert_eq!(doc.word_count(), 2);
    assert_eq!(doc.total_count(), Some(3));
    assert_eq!(doc.max_count(), 2);
    assert_eq!(rodeo.len(), 2);
}

#[test]
fn from_text_stems_then_lowercases() {
    let mut rodeo = new_rodeo();
    let doc = Doc::from_text("running runs", &mut rodeo);
    assert_eq!(counts(&doc), vec![(1, 2)]);
    assert_eq!(rodeo.get("run").map(|k| k.into_inner().get()), Some(1));
    // the stem of a capitalised word is lower-cased after stemming
    let doc = Doc::from_text("Cats", &mut rodeo);
    assert_eq!(counts(&doc), vec![(2, 1)]);
    assert!(rodeo.get("cat").is_some());
}

#[test]
fn from_text_words_keep_apostrophes_and_hyphens() {
    let mut rodeo = new_rodeo();
    let doc = Doc::from_text("well-known,don't", &mut rodeo);
    assert_eq!(doc.spurs().len(), 2);
    assert_eq!(doc.word_count(), 1);
    assert!(rodeo.get("well-known").is_some());
}

#[test]
fn from_text_counts_separators_not_words() {
    let mut rodeo = new_rodeo();
    // two separators, the comma and the space; the empty word between
    // them contributes no term
    let doc = Doc::from_text("cat, dog", &mut rodeo);
    assert_eq!(doc.word_count(), 2);
    assert_eq!(doc.total_count(), Some(2));
}

#[test]
fn from_text_empty() {
    let mut rodeo = new_rodeo();
    let doc = Doc::from_text("", &mut rodeo);
    assert!(doc.spurs().is_empty());
    assert_eq!(doc.word_count(), 0);
    assert_eq!(doc.max_count(), 1);
    assert_eq!(doc.total_count(), Some(0));
}

#[test]
fn default_doc_is_empty() {
    let doc = Doc::default();
    assert!(doc.spurs().is_empty());
    assert_eq!(doc.get(&1), None);
    assert_eq!(doc.max_count(), 1);
}

#[test]
fn shared_interner_gives_shared_keys() {
    let mut rodeo = new_rodeo();
    let a = Doc::from_text("apple banana", &mut rodeo);
    let b = Doc::from_text("banana cherry banana", &mut rodeo);
    assert_eq!(counts(&a), vec![(1, 1), (2, 1)]);
    assert_eq!(counts(&b), vec![(2, 2), (3, 1)]);
}

#[test]
fn query_words_are_stemmed_like_documents() {
    let mut c = Corpus::new();
    c.add_documents(vec![("a.html".to_string(), html("Runs"))]).unwrap();
    let keys = c.query_keys(&["running", "RUN", "walk"]);
    assert_eq!(keys, vec![1, 1]);
}

#[test]
fn extension_decides_format() {
    assert!(matches!(DocFormat::from_extension(Some("xml")), Ok(DocFormat::Xml)));
    assert!(matches!(DocFormat::from_extension(Some("xhtml")), Ok(DocFormat::Xml)));
    assert!(matches!(DocFormat::from_extension(Some("pdf")), Ok(DocFormat::Pdf)));
    assert!(matches!(DocFormat::from_extension(Some("html")), Ok(DocFormat::Html)));
    match DocFormat::from_extension(Some("txt")) {
        Err(DocumentCreateError::UnsupportedFileExtension(Some(e))) => assert_eq!(e, "txt"),
        _ => panic!("txt is not indexed"),
    }
    assert!(matches!(
        DocFormat::from_extension(None),
        Err(DocumentCreateError::UnsupportedFileExtension(None))
    ));
}

#[test]
fn xml_source_indexes_character_data() {
    let mut rodeo = new_rodeo();
    let src = DocSource::Xml(b"<a>alpha <b>beta</b></a>".to_vec());
    let doc = Doc::from_source(&src, &mut rodeo).unwrap().ok().unwrap();
    assert_eq!(doc.spurs().len(), 2);
    assert!(rodeo.get("alpha").is_some());
    assert!(rodeo.get("beta").is_some());
}

#[test]
fn html_source_indexes_page_text() {
    let mut rodeo = new_rodeo();
    let src = DocSource::Html("<html><body><p>Gamma delta</p></body></html>".to_string());
    let doc = Doc::from_source(&src, &mut rodeo).unwrap().ok().unwrap();
    assert!(rodeo.get("gamma").is_some());
    assert!(rodeo.get("delta").is_some());
    assert_eq!(doc.spurs().len(), 2);
}

#[test]
fn unreadable_pdf_gives_none() {
    let mut rodeo = new_rodeo();
    let src = DocSource::Pdf(b"this is not a pdf".to_vec());
    assert!(Doc::from_source(&src, &mut rodeo).is_none());
    assert_eq!(rodeo.len(), 0);
}

fn html(text: &str) -> Result<DocSource, DocumentCreateError> {
    Ok(DocSource::Html(format!("<p>{text}</p>")))
}

#[test]
fn corpus_indexes_and_reports_errors() {
    let mut c = Corpus::new();
    let files = vec![
        ("a.html".to_string(), html("apple banana")),
        ("b.txt".to_string(), Err(DocumentCreateError::UnsupportedFileExtension(Some("txt".to_string())))),
        ("c.html".to_string(), html("banana")),
        ("d.html".to_string(), Err(DocumentCreateError::EncryptedPDF)),
    ];
    let errs = c.add_documents(files).unwrap();
    assert_eq!(errs.len(), 2);
    assert!(matches!(errs[0], DocumentCreateError::UnsupportedFileExtension(Some(ref e)) if e == "txt"));
    assert!(matches!(errs[1], DocumentCreateError::EncryptedPDF));
    assert_eq!(c.doc_count(), 2);
    assert_eq!(c.path(0), "a.html");
    assert_eq!(c.path(1), "c.html");
    assert_eq!(c.vocabulary_len(), 2);
    let keys = c.query_keys(&["Bananas", "kiwi", "apple"]);
    assert_eq!(keys.len(), 2);
    assert_eq!(c.document_frequency(keys[0]), 2);
    assert_eq!(c.document_frequency(keys[1]), 1);
    let df = c.document_frequencies();
    assert_eq!(df, vec![(1, 1), (2, 2)]);
}

#[test]
fn corpus_reindexing_replaces_documents() {
    let mut c = Corpus::new();
    c.add_documents(vec![("a.html".to_string(), html("one two"))]).unwrap();
    assert_eq!(c.doc_count(), 1);
    let first = c.doc_len_sum();
    c.add_documents(vec![("a.html".to_string(), html("three four"))]).unwrap();
    assert_eq!(c.doc_count(), 1);
    assert!(c.doc_len_sum() >= first);
    assert_eq!(c.doc(0).total_count(), Some(2));
}

#[test]
fn corpus_gives_up_on_unreadable_pdf() {
    let mut c = Corpus::new();
    let r = c.add_documents(vec![("x.pdf".to_string(), Ok(DocSource::Pdf(vec![1, 2, 3])))]);
    assert!(r.is_none());
}

#[test]
fn corpus_new_is_empty() {
    let c = Corpus::new();
    assert_eq!(c.doc_count(), 0);
    assert_eq!(c.doc_len_sum(), 0);
    assert_eq!(c.vocabulary_len(), 0);
    assert!(c.query_keys(&["anything"]).is_empty());
}

#[test]
fn rank_orders_by_key_and_keeps_ties() {
    let keys = vec![Some(5), None, Some(9), Some(5), Some(1)];
    assert_eq!(rank(&keys), vec![2, 0, 3, 4]);
    assert!(rank(&vec![None, None]).is_empty());
    assert!(rank(&vec![]).is_empty());
}

#[test]
fn ranked_paths_follow_rank() {
    let mut c = Corpus::new();
    c.add_documents(vec![
        ("a.html".to_string(), html("x")),
        ("b.html".to_string(), html("y")),
        ("c.html".to_string(), html("z")),
    ])
    .unwrap();
    let paths = c.ranked_paths(&vec![Some(1), Some(3), None]);
    assert_eq!(paths, vec!["b.html", "a.html"]);
}

fn pdf_with_text(text: &str) -> Vec<u8> {
    let mut doc = Document::with_version("1.5");
    let pages_id = doc.new_object_id();
    let mut font = Dictionary::new();
    font.set("Type", "Font");
    font.set("Subtype", "Type1");
    font.set("BaseFont", "Courier");
    let font_id = doc.add_object(font);
    let mut fonts = Dictionary::new();
    fonts.set("F1", font_id);
    let mut resources = Dictionary::new();
    resources.set("Font", fonts);
    let resources_id = doc.add_object(resources);
    let content = Content {
        operations: vec![
            Operation::new("BT", vec![]),
            Operation::new("Tf", vec!["F1".into(), 24.into()]),
            Operation::new("Td", vec![100.into(), 600.into()]),
            Operation::new("Tj", vec![Object::string_literal(text)]),
            Operation::new("ET", vec![]),
        ],
    };
    let content_id = doc.add_object(Stream::new(Dictionary::new(), content.encode().unwrap()));
    let mut page = Dictionary::new();
    page.set("Type", "Page");
    page.set("Parent", pages_id);
    page.set("Contents", content_id);
    let page_id = doc.add_object(page);
    let mut pages = Dictionary::new();
    pages.set("Type", "Pages");
    pages.set("Kids", vec![Object::from(page_id)]);
    pages.set("Count", 1);
    pages.set("Resources", resources_id);
    pages.set("MediaBox", vec![Object::from(0), Object::from(0), Object::from(595), Object::from(842)]);
    doc.objects.insert(pages_id, Object::Dictionary(pages));
    let mut catalog = Dictionary::new();
    catalog.set("Type", "Catalog");
    catalog.set("Pages", pages_id);
    let catalog_id = doc.add_object(catalog);
    doc.trailer.set("Root", catalog_id);
    let mut out = Vec::new();
    doc.save_to(&mut out).unwrap();
    out
}

#[test]
fn pdf_source_indexes_page_text() {
    let mut rodeo = new_rodeo();
    let src = DocSource::Pdf(pdf_with_text("Epsilon zeta epsilon"));
    let doc = Doc::from_source(&src, &mut rodeo).unwrap().ok().unwrap();
    assert!(rodeo.get("epsilon").is_some());
    assert!(rodeo.get("zeta").is_some());
    assert_eq!(doc.spurs().len(), 2);
    assert_eq!(doc.total_count(), Some(3));
    assert_eq!(doc.max_count(), 2);
}

#[test]
fn corpus_indexes_pdf() {
    let mut c = Corpus::new();
    let errs = c
        .add_documents(vec![("p.pdf".to_string(), Ok(DocSource::Pdf(pdf_with_text("theta"))))])
        .unwrap();
    assert!(errs.is_empty());
    assert_eq!(c.doc_count(), 1);
    assert_eq!(c.query_keys(&["Theta"]), vec![1]);
}

#[test]
fn ascii_word_characters() {
    for b in 0u8..128 {
        let c = b as char;
        assert_eq!(word_char(c), c.is_ascii_alphanumeric() || c == '\'' || c == '-');
    }
    assert!(word_char('é'));
    assert!(!word_char('\u{3000}'));
}

#[test]
fn document_error_messages() {
    assert_eq!(
        DocumentCreateError::UnsupportedFileExtension(None).message(),
        "Can't index binary file"
    );
    assert_eq!(
        DocumentCreateError::UnsupportedFileExtension(Some("txt".to_string())).message(),
        "Can't index file with extension: txt"
    );
    assert_eq!(
        DocumentCreateError::EncryptedPDF.message(),
        "Couldn't extract text from an encrypted pdf file"
    );
    let io = DocumentCreateError::IOError(std::io::Error::new(std::io::ErrorKind::Other, "gone"));
    assert_eq!(io.message(), "An IO error occurred: gone");
    let pdf = DocumentCreateError::FailedToExtractPDFText(lopdf::Error::DictKey("Pages".to_string()));
    assert!(pdf.message().starts_with("Failed to extract text from pdf: "));
}

#[test]
fn total_count_sums_counts() {
    let mut rodeo = new_rodeo();
    let doc = Doc::from_text("a b a c a", &mut rodeo);
    assert_eq!(doc.total_count(), Some(5));
}
