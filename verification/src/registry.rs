//! The formats a glossary can be read from and written to, and how a path's
//! extension names them.

use vstd::prelude::*;

use crate::glossary::data_entry::{extension_of, path_extension};
use crate::strs::str_eq;

verus! {

/// A format a glossary can be read from.
#[derive(Debug, Clone, Copy, PartialEq, Eq, Structural)]
pub enum ReaderFormat {
    Text,
    Mdict,
    Stardict,
    Json,
    Yomitan,
}

/// A format a glossary can be written to.
#[derive(Debug, Clone, Copy, PartialEq, Eq, Structural)]
pub enum WriterFormat {
    Text,
    Mdict,
    Stardict,
    Json,
    Yomitan,
    Html,
}

/// The reader format a file extension names.
pub open spec fn reader_for_extension(ext: Seq<char>) -> Option<ReaderFormat> {
    if ext == "txt"@ {
        Some(ReaderFormat::Text)
    } else if ext == "mdx"@ {
        Some(ReaderFormat::Mdict)
    } else if ext == "ifo"@ {
        Some(ReaderFormat::Stardict)
    } else if ext == "json"@ {
        Some(ReaderFormat::Json)
    } else if ext == "zip"@ {
        Some(ReaderFormat::Yomitan)
    } else {
        None
    }
}

/// The writer format a file extension names.
pub open spec fn writer_for_extension(ext: Seq<char>) -> Option<WriterFormat> {
    if ext == "txt"@ {
        Some(WriterFormat::Text)
    } else if ext == "mdx"@ {
        Some(WriterFormat::Mdict)
    } else if ext == "ifo"@ {
        Some(WriterFormat::Stardict)
    } else if ext == "json"@ {
        Some(WriterFormat::Json)
    } else if ext == "zip"@ {
        Some(WriterFormat::Yomitan)
    } else if ext == "hdir"@ {
        Some(WriterFormat::Html)
    } else {
        None
    }
}

/// Whether a reader and a writer are of the same format.
pub open spec fn same_format(r: ReaderFormat, w: WriterFormat) -> bool {
    match (r, w) {
        (ReaderFormat::Text, WriterFormat::Text) => true,
        (ReaderFormat::Mdict, WriterFormat::Mdict) => true,
        (ReaderFormat::Stardict, WriterFormat::Stardict) => true,
        (ReaderFormat::Json, WriterFormat::Json) => true,
        (ReaderFormat::Yomitan, WriterFormat::Yomitan) => true,
        _ => false,
    }
}

impl ReaderFormat {
    /// The format the extension of `path` names.
    pub fn try_from_path(path: &str) -> (r: Option<Self>)
        ensures
            r == match path_extension(path@) {
                Some(e) => reader_for_extension(e),
                None => None,
            },
    {
        let ext = match extension_of(path) {
            Some(e) => e,
            None => {
                return None;
            },
        };
        let e = ext.as_str();
        if str_eq(e, "txt") {
            Some(Self::Text)
        } else if str_eq(e, "mdx") {
            Some(Self::Mdict)
        } else if str_eq(e, "ifo") {
            Some(Self::Stardict)
        } else if str_eq(e, "json") {
            Some(Self::Json)
        } else if str_eq(e, "zip") {
            Some(Self::Yomitan)
        } else {
            None
        }
    }

    /// Whether this reader and the writer `other` are of the same format.
    pub fn eq(&self, other: &WriterFormat) -> (r: bool)
        ensures
            r == same_format(*self, *other),
    {
        match (self, other) {
            (Self::Text, WriterFormat::Text) => true,
            (Self::Mdict, WriterFormat::Mdict) => true,
            (Self::Stardict, WriterFormat::Stardict) => true,
            (Self::Json, WriterFormat::Json) => true,
            (Self::Yomitan, WriterFormat::Yomitan) => true,
            _ => false,
        }
    }
}

impl WriterFormat {
    /// The format the extension of `path` names.
    pub fn try_from_path(path: &str) -> (r: Option<Self>)
        ensures
            r == match path_extension(path@) {
                Some(e) => writer_for_extension(e),
                None => None,
            },
    {
        let ext = match extension_of(path) {
            Some(e) => e,
            None => {
                return None;
            },
        };
        let e = ext.as_str();
        if str_eq(e, "txt") {
            Some(Self::Text)
        } else if str_eq(e, "mdx") {
            Some(Self::Mdict)
        } else if str_eq(e, "ifo") {
            Some(Self::Stardict)
        } else if str_eq(e, "json") {
            Some(Self::Json)
        } else if str_eq(e, "zip") {
            Some(Self::Yomitan)
        } else if str_eq(e, "hdir") {
            Some(Self::Html)
        } else {
            None
        }
    }
}

} // verus!
