//! A local document search engine: documents are cut into words, each word is
//! stemmed and lower-cased into a term, terms get integer keys from an
//! interner, and each document keeps the count of each of its keys. Queries
//! are looked up under the same keys and documents are ranked by a score.
use vstd::prelude::*;

pub mod client;
pub mod corpus;
pub mod doc;
pub mod formats;
pub mod laws;
pub mod rank;
pub mod server;
pub mod strs;
pub mod text;
pub mod vocab;

use crate::formats::DocumentCreateError;

verus! {

#[verifier::external_type_specification]
#[verifier::external_body]
pub struct ExPath(std::path::Path);

/// A ranking scheme over a folder of documents.
pub trait SearchEngine {
    /// The paths of the documents that match the query words, best first.
    fn query(&mut self, query: &[&str]) -> Vec<&str>;

    /// Indexes every file under a folder; the errors met, if any.
    fn add_dir(&mut self, dir_path: &std::path::Path) -> Option<Vec<DocumentCreateError>>;
}

} // verus!
