//! Term normalisation (stemming and lower-casing) and the string interner
//! that maps each normalised term to a small integer key.
use vstd::prelude::*;
use lasso::{Rodeo, RodeoReader, Spur};
use rust_stemmers::Stemmer;

verus! {

#[verifier::external_type_specification]
#[verifier::external_body]
#[verifier::reject_recursive_types(K)]
#[verifier::reject_recursive_types(S)]
pub struct ExRodeo<K, S>(Rodeo<K, S>);

#[verifier::external_type_specification]
#[verifier::external_body]
#[verifier::reject_recursive_types(K)]
#[verifier::reject_recursive_types(S)]
pub struct ExRodeoReader<K, S>(RodeoReader<K, S>);

#[verifier::external_type_specification]
#[verifier::external_body]
pub struct ExSpur(Spur);

#[verifier::external_type_specification]
#[verifier::external_body]
pub struct ExStemmer(Stemmer);

/// The strings held by an interner, in the order in which they were first
/// interned: the string at index `i` has the key `i + 1`.
pub uninterp spec fn rodeo_strings(r: Rodeo) -> Seq<Seq<char>>;

/// The strings held by a read-only interner, in key order (index `i` has key `i + 1`).
pub uninterp spec fn reader_strings(r: RodeoReader) -> Seq<Seq<char>>;

/// What the English Snowball stemmer makes of a word.
pub uninterp spec fn english_stem(word: Seq<char>) -> Seq<char>;

/// The Unicode lower-case mapping of a string, as `str::to_lowercase` computes it.
pub uninterp spec fn lowercased(s: Seq<char>) -> Seq<char>;

/// The form under which a word is indexed and looked up.
pub open spec fn normal_form(word: Seq<char>) -> Seq<char> {
    lowercased(english_stem(word))
}

/// Calls `Rodeo::default`: the new interner holds no string.
#[verifier::external_body]
pub(crate) fn new_rodeo() -> (r: Rodeo)
    ensures
        rodeo_strings(r) == Seq::<Seq<char>>::empty(),
{
    Rodeo::default()
}

/// Calls `Rodeo::get_or_intern`. A string already held gives back its key and
/// leaves the interner as it was; a new string is appended and gets the key
/// one past the previous count. Keys are `Spur`s, handed out as their `u32`.
/// The call panics when a new key would not fit, so `requires` leaves that out.
#[verifier::external_body]
pub(crate) fn get_or_intern(r: &mut Rodeo, s: &str) -> (key: u32)
    requires
        rodeo_strings(*old(r)).contains(s@) || rodeo_strings(*old(r)).len() < u32::MAX,
    ensures
        rodeo_strings(*old(r)).contains(s@) ==> {
            &&& rodeo_strings(*final(r)) == rodeo_strings(*old(r))
            &&& 1 <= key <= rodeo_strings(*old(r)).len()
            &&& rodeo_strings(*old(r))[key - 1] == s@
        },
        !rodeo_strings(*old(r)).contains(s@) ==> {
            &&& rodeo_strings(*final(r)) == rodeo_strings(*old(r)).push(s@)
            &&& key == rodeo_strings(*old(r)).len() + 1
        },
{
    r.get_or_intern(s).into_inner().get()
}

/// Calls `Rodeo::contains`: whether the interner holds the string.
#[verifier::external_body]
pub(crate) fn rodeo_contains(r: &Rodeo, s: &str) -> (b: bool)
    ensures
        b == rodeo_strings(*r).contains(s@),
{
    r.contains(s)
}

/// Calls `Rodeo::len`: how many strings the interner holds, which is never
/// more than there are `Spur` keys.
#[verifier::external_body]
pub(crate) fn rodeo_len(r: &Rodeo) -> (n: usize)
    ensures
        n == rodeo_strings(*r).len(),
        n <= u32::MAX,
{
    r.len()
}

/// Calls `Rodeo::into_reader`: the read-only interner holds the same strings
/// under the same keys.
#[verifier::external_body]
pub(crate) fn into_reader(r: Rodeo) -> (reader: RodeoReader)
    ensures
        reader_strings(reader) == rodeo_strings(r),
{
    r.into_reader()
}

/// Calls `RodeoReader::get`: the key of a held string, `None` for any other.
#[verifier::external_body]
pub(crate) fn reader_get(r: &RodeoReader, s: &str) -> (key: Option<u32>)
    ensures
        key is Some <==> reader_strings(*r).contains(s@),
        key matches Some(k) ==> 1 <= k <= reader_strings(*r).len() && reader_strings(*r)[k - 1]
            == s@,
{
    r.get(s).map(|k| k.into_inner().get())
}

/// Calls `RodeoReader::len`: how many strings the interner holds.
#[verifier::external_body]
pub(crate) fn reader_len(r: &RodeoReader) -> (n: usize)
    ensures
        n == reader_strings(*r).len(),
{
    r.len()
}

/// Calls `str::to_lowercase`.
#[verifier::external_body]
pub(crate) fn to_lowercase(s: &str) -> (res: String)
    ensures
        res@ == lowercased(s@),
{
    s.to_lowercase()
}

/// The English stemmer of `rust_stemmers`. It can only be made for English,
/// so what it computes is `english_stem`.
pub struct EnglishStemmer {
    stemmer: Stemmer,
}

impl EnglishStemmer {
    /// Calls `Stemmer::create` with `Algorithm::English`.
    #[verifier::external_body]
    pub(crate) fn new() -> (s: EnglishStemmer) {
        EnglishStemmer { stemmer: Stemmer::create(rust_stemmers::Algorithm::English) }
    }

    /// Calls `Stemmer::stem` on a stemmer made for English.
    #[verifier::external_body]
    pub(crate) fn stem(&self, word: &str) -> (res: String)
        ensures
            res@ == english_stem(word@),
    {
        self.stemmer.stem(word).into_owned()
    }

    /// The form under which `word` is indexed: its stem, lower-cased.
    pub fn normalize(&self, word: &str) -> (res: String)
        ensures
            res@ == normal_form(word@),
    {
        let stemmed = self.stem(word);
        to_lowercase(stemmed.as_str())
    }
}

/// Calls `String::push`: appends one character.
pub assume_specification[ String::push ](s: &mut String, ch: char)
    ensures
        final(s)@ == old(s)@.push(ch),
;

} // verus!
