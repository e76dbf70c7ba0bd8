//! A data entry: a file that travels with a glossary (css, images, ...).

use vstd::prelude::*;

use crate::strs::str_eq;

verus! {

/// The extension of a path, as `Path::extension` finds it.
pub uninterp spec fn path_extension(path: Seq<char>) -> Option<Seq<char>>;

/// Calls `std::path::Path::extension`; the result is named.
#[verifier::external_body]
pub(crate) fn extension_of(path: &str) -> (r: Option<String>)
    ensures
        match r {
            Some(e) => path_extension(path@) == Some(e@),
            None => path_extension(path@) is None,
        },
{
    std::path::Path::new(path).extension().map(|e| e.to_string_lossy().into_owned())
}

/// A file name and its bytes.
#[derive(Debug, PartialEq)]
pub struct DataEntry {
    fname: String,
    bytes: Vec<u8>,
}

impl DataEntry {
    /// The spec form of [`DataEntry::fname`].
    pub closed spec fn spec_fname(&self) -> Seq<char> {
        self.fname@
    }

    /// The spec form of [`DataEntry::bytes`].
    pub closed spec fn spec_bytes(&self) -> Seq<u8> {
        self.bytes@
    }

    /// A data entry named `fname` holding `bytes`.
    pub fn new(fname: String, bytes: Vec<u8>) -> (r: Self)
        ensures
            r.spec_fname() == fname@,
            r.spec_bytes() == bytes@,
    {
        Self { fname, bytes }
    }

    /// The file name.
    pub fn fname(&self) -> (r: &str)
        ensures
            r@ == self.spec_fname(),
    {
        self.fname.as_str()
    }

    /// The bytes.
    pub fn bytes(&self) -> (r: &[u8])
        ensures
            r@ == self.spec_bytes(),
    {
        self.bytes.as_slice()
    }

    /// The extension of the file name, if it has one.
    pub fn extension(&self) -> (r: Option<String>)
        ensures
            match r {
                Some(e) => path_extension(self.spec_fname()) == Some(e@),
                None => path_extension(self.spec_fname()) is None,
            },
    {
        extension_of(self.fname.as_str())
    }

    /// Whether the file is a stylesheet: its extension is `css`.
    pub fn is_css(&self) -> (r: bool)
        ensures
            r == (path_extension(self.spec_fname()) == Some("css"@)),
    {
        match self.extension() {
            Some(e) => str_eq(e.as_str(), "css"),
            None => false,
        }
    }

    /// The extension of the file name, or the empty string.
    pub fn extension_or_empty(&self) -> (r: String)
        ensures
            r@ == match path_extension(self.spec_fname()) {
                Some(e) => e,
                None => Seq::empty(),
            },
    {
        match self.extension() {
            Some(e) => e,
            None => String::new(),
        }
    }
}

} // verus!
