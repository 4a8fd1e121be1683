//! The file formats that can be indexed, and how the text of each is had:
//! the character data of an XML document, the Markdown rendering of an HTML
//! page, the text of the pages of a PDF.
use vstd::prelude::*;
use crate::server::is_prefix;
use crate::strs::{push_all, str_equal};

verus! {

#[verifier::external_type_specification]
#[verifier::external_body]
pub struct ExPdfDocument(lopdf::Document);

#[verifier::external_type_specification]
#[verifier::external_body]
pub struct ExPdfError(lopdf::Error);

#[verifier::external_type_specification]
#[verifier::external_body]
pub struct ExIoError(std::io::Error);

/// Why a file could not be indexed.
#[derive(Debug)]
pub enum DocumentCreateError {
    UnsupportedFileExtension(Option<String>),
    FailedToExtractPDFText(lopdf::Error),
    IOError(std::io::Error),
    EncryptedPDF,
}

/// Calls `lopdf::Error`'s `to_string`: the error as its `Display` writes it.
#[verifier::external_body]
pub(crate) fn pdf_error_text(e: &lopdf::Error) -> (s: String) {
    e.to_string()
}

/// Calls `std::io::Error`'s `to_string`: the error as its `Display` writes it.
#[verifier::external_body]
pub(crate) fn io_error_text(e: &std::io::Error) -> (s: String) {
    e.to_string()
}

impl DocumentCreateError {
    /// The message that reports the error; an outside error's own text
    /// follows its prefix.
    pub fn message(&self) -> (m: String)
        ensures
            match self {
                DocumentCreateError::UnsupportedFileExtension(None) => m@ == "Can't index binary file"@,
                DocumentCreateError::UnsupportedFileExtension(Some(e)) => m@
                    == "Can't index file with extension: "@ + e@,
                DocumentCreateError::FailedToExtractPDFText(_) => is_prefix(
                    "Failed to extract text from pdf: "@,
                    m@,
                ),
                DocumentCreateError::IOError(_) => is_prefix("An IO error occurred: "@, m@),
                DocumentCreateError::EncryptedPDF => m@
                    == "Couldn't extract text from an encrypted pdf file"@,
            },
    {
        let mut m = String::new();
        match self {
            DocumentCreateError::UnsupportedFileExtension(None) => {
                push_all(&mut m, "Can't index binary file");
            },
            DocumentCreateError::UnsupportedFileExtension(Some(e)) => {
                push_all(&mut m, "Can't index file with extension: ");
                push_all(&mut m, e.as_str());
            },
            DocumentCreateError::FailedToExtractPDFText(err) => {
                push_all(&mut m, "Failed to extract text from pdf: ");
                let ghost p = m@;
                let t = pdf_error_text(err);
                push_all(&mut m, t.as_str());
                proof {
                    assert(m@.take(p.len() as int) =~= p);
                }
            },
            DocumentCreateError::IOError(err) => {
                push_all(&mut m, "An IO error occurred: ");
                let ghost p = m@;
                let t = io_error_text(err);
                push_all(&mut m, t.as_str());
                proof {
                    assert(m@.take(p.len() as int) =~= p);
                }
            },
            DocumentCreateError::EncryptedPDF => {
                push_all(&mut m, "Couldn't extract text from an encrypted pdf file");
            },
        }
        proof {
            assert(Seq::<char>::empty() + "Can't index binary file"@ =~= "Can't index binary file"@);
            assert(Seq::<char>::empty() + "Couldn't extract text from an encrypted pdf file"@
                =~= "Couldn't extract text from an encrypted pdf file"@);
        }
        m
    }
}

/// The formats that are indexed.
#[derive(PartialEq, Eq, Structural, Clone, Copy, Debug)]
pub enum DocFormat {
    Xml,
    Pdf,
    Html,
}

/// The format that a file extension names: `xml` and `xhtml` are XML, `pdf`
/// is PDF, `html` is HTML; any other extension, or none, is refused.
pub open spec fn format_of(ext: Option<Seq<char>>) -> Option<DocFormat> {
    match ext {
        Some(e) => if e == "xml"@ || e == "xhtml"@ {
            Some(DocFormat::Xml)
        } else if e == "pdf"@ {
            Some(DocFormat::Pdf)
        } else if e == "html"@ {
            Some(DocFormat::Html)
        } else {
            None
        },
        None => None,
    }
}

impl DocFormat {
    /// The format of a file with extension `ext`.
    pub fn from_extension(ext: Option<&str>) -> (r: Result<DocFormat, DocumentCreateError>)
        ensures
            match ext {
                Some(e) => match format_of(Some(e@)) {
                    Some(f) => r == Ok::<DocFormat, DocumentCreateError>(f),
                    None => r matches Err(DocumentCreateError::UnsupportedFileExtension(Some(s))) && s@
                        == e@,
                },
                None => r matches Err(DocumentCreateError::UnsupportedFileExtension(None)),
            },
    {
        proof {
            reveal_strlit("xml");
            reveal_strlit("xhtml");
            reveal_strlit("pdf");
            reveal_strlit("html");
        }
        match ext {
            Some(e) => {
                if str_equal(e, "xml") || str_equal(e, "xhtml") {
                    Ok(DocFormat::Xml)
                } else if str_equal(e, "pdf") {
                    Ok(DocFormat::Pdf)
                } else if str_equal(e, "html") {
                    Ok(DocFormat::Html)
                } else {
                    Err(DocumentCreateError::UnsupportedFileExtension(Some(e.to_string())))
                }
            },
            None => Err(DocumentCreateError::UnsupportedFileExtension(None)),
        }
    }
}

/// The events that `xml-rs` reads from a document, in order: the text of
/// each character-data event, `None` for every other event and for an error.
pub uninterp spec fn xml_character_data(bytes: Seq<u8>) -> Seq<Option<Seq<char>>>;

/// The text of an event, as a sequence of characters.
pub open spec fn event_view(e: Option<String>) -> Option<Seq<char>> {
    match e {
        Some(s) => Some(s@),
        None => None,
    }
}

/// Reads an XML document with `xml::EventReader` and hands out each event,
/// keeping only the text of character data.
#[verifier::external_body]
pub(crate) fn xml_events(bytes: &[u8]) -> (events: Vec<Option<String>>)
    ensures
        events@.map_values(|e: Option<String>| event_view(e)) == xml_character_data(bytes@),
{
    xml::EventReader::new(bytes).into_iter().map(|e| match e {
        Ok(xml::reader::XmlEvent::Characters(c)) => Some(c),
        _ => None,
    }).collect()
}

/// The text of an XML document: each piece of character data followed by a space.
pub open spec fn xml_text(events: Seq<Option<Seq<char>>>) -> Seq<char>
    decreases events.len(),
{
    if events.len() == 0 {
        Seq::empty()
    } else {
        let before = xml_text(events.drop_last());
        match events.last() {
            Some(c) => before + c + " "@,
            None => before,
        }
    }
}

/// Joins the character data of XML events.
pub fn xml_text_of(events: &Vec<Option<String>>) -> (text: String)
    ensures
        text@ == xml_text(events@.map_values(|e: Option<String>| event_view(e))),
{
    let ghost view = events@.map_values(|e: Option<String>| event_view(e));
    let mut text = String::new();
    let mut i: usize = 0;
    while i < events.len()
        invariant
            i <= events.len(),
            view == events@.map_values(|e: Option<String>| event_view(e)),
            text@ == xml_text(view.take(i as int)),
        decreases events.len() - i,
    {
        proof {
            assert(view.take(i + 1).drop_last() =~= view.take(i as int));
            reveal_strlit(" ");
        }
        match &events[i] {
            Some(c) => {
                push_all(&mut text, c.as_str());
                text.push(' ');
                proof {
                    assert(" "@ =~= seq![' ']);
                }
            },
            None => {},
        }
        i = i + 1;
    }
    proof {
        assert(view.take(i as int) =~= view);
    }
    text
}

/// What `html2md::rewrite_html` makes of an HTML page (not in CommonMark mode).
pub uninterp spec fn markdown_of_html(html: Seq<char>) -> Seq<char>;

/// Calls `html2md::rewrite_html` with CommonMark off.
#[verifier::external_body]
pub(crate) fn rewrite_html(html: &str) -> (md: String)
    ensures
        md@ == markdown_of_html(html@),
{
    html2md::rewrite_html(html, false)
}

/// Whether `lopdf::Document::load_mem` reads a document from these bytes.
pub uninterp spec fn pdf_loads(bytes: Seq<u8>) -> bool;

/// Whether the document that `lopdf` reads from these bytes is encrypted.
pub uninterp spec fn pdf_encrypted(bytes: Seq<u8>) -> bool;

/// The page numbers of the document read from these bytes, as `get_pages` gives them.
pub uninterp spec fn pdf_pages(bytes: Seq<u8>) -> Seq<u32>;

/// The text of the given pages of the document read from these bytes, or
/// `None` when `extract_text` fails.
pub uninterp spec fn pdf_text(bytes: Seq<u8>, pages: Seq<u32>) -> Option<Seq<char>>;

/// A PDF document read by `lopdf`, with the bytes it was read from.
pub struct PdfDocument {
    doc: lopdf::Document,
    bytes: Ghost<Seq<u8>>,
}

impl PdfDocument {
    /// The bytes that the document was read from.
    pub closed spec fn source(&self) -> Seq<u8> {
        self.bytes@
    }

    /// Calls `lopdf::Document::load_mem`; `None` when it fails.
    #[verifier::external_body]
    pub(crate) fn load(bytes: &[u8]) -> (r: Option<PdfDocument>)
        ensures
            r is Some <==> pdf_loads(bytes@),
            r matches Some(d) ==> d.source() == bytes@,
    {
        match lopdf::Document::load_mem(bytes) {
            Ok(doc) => Some(PdfDocument { doc, bytes: Ghost(bytes@) }),
            Err(_) => None,
        }
    }

    /// Calls `lopdf::Document::is_encrypted`.
    #[verifier::external_body]
    pub(crate) fn is_encrypted(&self) -> (r: bool)
        ensures
            r == pdf_encrypted(self.source()),
    {
        self.doc.is_encrypted()
    }

    /// Calls `lopdf::Document::get_pages` and hands out the page numbers, in order.
    #[verifier::external_body]
    pub(crate) fn page_numbers(&self) -> (r: Vec<u32>)
        ensures
            r@ == pdf_pages(self.source()),
    {
        self.doc.get_pages().into_keys().collect()
    }

    /// Calls `lopdf::Document::extract_text` on the given pages.
    #[verifier::external_body]
    pub(crate) fn extract_text(&self, pages: &[u32]) -> (r: Result<String, lopdf::Error>)
        ensures
            r is Ok <==> pdf_text(self.source(), pages@) is Some,
            r matches Ok(t) ==> pdf_text(self.source(), pages@) == Some(t@),
    {
        self.doc.extract_text(pages)
    }
}

/// The contents of a file to index, read according to its format.
pub enum DocSource {
    Xml(Vec<u8>),
    Pdf(Vec<u8>),
    Html(String),
}

/// The text of a PDF: that of all its pages, when it is read, not encrypted,
/// and its text can be extracted.
pub open spec fn pdf_source_text(bytes: Seq<u8>) -> Option<Seq<char>> {
    if pdf_loads(bytes) && !pdf_encrypted(bytes) {
        pdf_text(bytes, pdf_pages(bytes))
    } else {
        None
    }
}

/// The text that a file contributes to the index, if it has one.
pub open spec fn source_text(src: DocSource) -> Option<Seq<char>> {
    match src {
        DocSource::Xml(b) => Some(xml_text(xml_character_data(b@))),
        DocSource::Pdf(b) => pdf_source_text(b@),
        DocSource::Html(h) => Some(markdown_of_html(h@)),
    }
}

} // verus!
