//! The Mdict format (.mdx and its companion .mdd).
//!
//! See <https://mdict4j.readthedocs.io/zh-cn/latest/reference/fileformat.html>

pub mod key_terms;
pub mod mdd;
pub mod mdd_roundtrip;
pub mod reader;
pub mod readback;
pub mod records;
pub mod roundtrip;
pub mod writer;

use vstd::prelude::*;

pub use crate::glossary::StyleSheet;

use crate::strs::{
    chars_of, eq_ignore_ascii_case, eq_ignore_ascii_case_spec, lossy_utf16le, lossy_utf8,
    parse_unsigned, parse_unsigned_spec, str_eq, utf16le_lossy, utf8_lossy,
};

verus! {

/// The Mdict format, with the compression its writer uses.
pub struct MdictFormat {
    pub compression: CompressionKind,
}

impl MdictFormat {
    pub fn new(compression: CompressionKind) -> (r: Self)
        ensures
            r.compression == compression,
    {
        Self { compression }
    }
}

impl Default for MdictFormat {
    fn default() -> (r: Self)
        ensures
            r.compression == CompressionKind::Zip,
    {
        Self { compression: CompressionKind::Zip }
    }
}

/// What went wrong reading or writing an Mdict file.
#[derive(Debug, Clone, PartialEq, Eq)]
pub enum MdictError {
    /// The header's adler32 does not match its text.
    HeaderChecksumMismatch,
    /// The header has no `GeneratedByEngineVersion`.
    MissingVersion,
    /// The header names a version other than 2.0.
    UnsupportedVersion(String),
    /// The header has no `Encoding`.
    MissingEncoding,
    /// The header names an encoding other than UTF-8.
    UnsupportedEncoding(String),
    /// The data ends before a field or block it announces.
    UnexpectedEof,
    /// A compressed block is shorter than its 8-byte prefix.
    BlockTooSmall,
    /// A zlib block does not inflate.
    DecompressionFailed,
    /// A block's compression type is neither 0 nor 2.
    UnsupportedCompression(u32),
    /// The `Encrypted` attribute is not a number.
    InvalidEncryptionLevel(String),
    /// The `Encrypted` attribute names a level other than 0 or 2.
    UnsupportedEncryption(u8),
    /// The record block has no record for some key.
    MissingRecord,
    /// A file the writer made does not fit the format's size fields.
    TooLarge,
    /// The path given to the reader is not that of an `.mdx` file.
    NotAnMdx(String),
}

/// The text encodings of key strings.
#[derive(Debug, Clone, Copy, PartialEq, Eq)]
pub enum Encoding {
    Utf8,
    Utf16,
}

/// What [`Encoding::decode`] gives.
pub open spec fn decode_spec(enc: Encoding, data: Seq<u8>) -> Seq<char> {
    match enc {
        Encoding::Utf8 => lossy_utf8(data),
        Encoding::Utf16 => lossy_utf16le(data),
    }
}

impl Encoding {
    /// The bytes of one code unit.
    pub fn char_size(&self) -> (r: usize)
        ensures
            r == match self {
                Encoding::Utf8 => 1usize,
                Encoding::Utf16 => 2usize,
            },
    {
        match self {
            Encoding::Utf8 => 1,
            Encoding::Utf16 => 2,
        }
    }

    /// Decodes `data`, replacing what is not valid.
    pub fn decode(&self, data: &[u8]) -> (r: String)
        ensures
            r@ == decode_spec(*self, data@),
    {
        match self {
            Encoding::Utf8 => utf8_lossy(data),
            Encoding::Utf16 => utf16le_lossy(data),
        }
    }

    /// The encoding a header names: `UTF-8`, or `UTF-16` / `UTF-16LE`.
    pub fn from_name(s: &str) -> (r: Option<Self>)
        ensures
            r == if s@ == "UTF-8"@ {
                Some(Encoding::Utf8)
            } else if s@ == "UTF-16"@ || s@ == "UTF-16LE"@ {
                Some(Encoding::Utf16)
            } else {
                None
            },
    {
        if str_eq(s, "UTF-8") {
            Some(Encoding::Utf8)
        } else if str_eq(s, "UTF-16") || str_eq(s, "UTF-16LE") {
            Some(Encoding::Utf16)
        } else {
            None
        }
    }
}

/// A block without compression starts with these four bytes.
pub const COMPRESSION_HEADER_0: u32 = 0x0000_0000u32;

/// A zlib-compressed block starts with these four bytes.
pub const COMPRESSION_HEADER_2: u32 = 0x0200_0000u32;

/// How the writer compresses blocks.
#[derive(Debug, Clone, Copy, PartialEq, Eq)]
pub enum CompressionKind {
    /// Blocks are stored as they are.
    Stored,
    Lzo,
    Zip,
}

impl Default for CompressionKind {
    fn default() -> (r: Self)
        ensures
            r == CompressionKind::Zip,
    {
        CompressionKind::Zip
    }
}

/// How the key index of a file is encrypted.
#[derive(Debug, Clone, Copy, PartialEq, Eq)]
pub enum EncryptionKind {
    Zero,
    Two,
}

impl EncryptionKind {
    /// Whether the key block info is encrypted.
    pub fn encrypts_index(self) -> (r: bool)
        ensures
            r == (self == EncryptionKind::Two),
    {
        match self {
            EncryptionKind::Two => true,
            EncryptionKind::Zero => false,
        }
    }

    /// The encryption an `Encrypted` attribute names: `No` is 0, `Yes` is 1
    /// (both in any ASCII case), any other value is a decimal `u8`; 0 and 2
    /// are supported.
    pub fn from_attr(s: &str) -> (r: Result<Self, MdictError>)
        ensures
            match encryption_from_attr_spec(s@) {
                Err(MdictError::InvalidEncryptionLevel(_)) => r matches Err(MdictError::InvalidEncryptionLevel(v))
                    && v@ == s@,
                want => r == want,
            },
    {
        let level: u8 = if eq_ignore_ascii_case(s, "no") {
            0
        } else if eq_ignore_ascii_case(s, "yes") {
            1
        } else {
            let cs = chars_of(s);
            match parse_unsigned(&cs, 255) {
                Some(v) => v as u8,
                None => {
                    return Err(MdictError::InvalidEncryptionLevel(s.to_string()));
                },
            }
        };
        match level {
            0 => Ok(EncryptionKind::Zero),
            2 => Ok(EncryptionKind::Two),
            other => Err(MdictError::UnsupportedEncryption(other)),
        }
    }
}

/// The encryption level an attribute names, if it names one.
pub open spec fn encryption_level_spec(s: Seq<char>) -> Option<int> {
    if eq_ignore_ascii_case_spec(s, "no"@) {
        Some(0)
    } else if eq_ignore_ascii_case_spec(s, "yes"@) {
        Some(1)
    } else {
        parse_unsigned_spec(s, 255)
    }
}

/// What [`EncryptionKind::from_attr`] gives, up to the text an invalid level carries.
pub open spec fn encryption_from_attr_spec(s: Seq<char>) -> Result<EncryptionKind, MdictError> {
    match encryption_level_spec(s) {
        Some(l) => if l == 0 {
            Ok(EncryptionKind::Zero)
        } else if l == 2 {
            Ok(EncryptionKind::Two)
        } else {
            Err(MdictError::UnsupportedEncryption(l as u8))
        },
        None => Err(MdictError::InvalidEncryptionLevel(arbitrary())),
    }
}

/// The attributes of an .mdx header, in the order they are written.
pub const ATTR_ORDER: [&'static str; 16] = [
    "GeneratedByEngineVersion",
    "RequiredEngineVersion",
    "Encrypted",
    "Encoding",
    "Format",
    "Stripkey",
    "CreationDate",
    "Compact",
    "Compat",
    "KeyCaseSensitive",
    "Description",
    "Title",
    "DataSourceFormat",
    "StyleSheet",
    "Left2Right",
    "RegisterBy",
];

/// The value written for an attribute that the glossary does not hold.
pub open spec fn default_attr_spec(key: Seq<char>) -> Seq<char> {
    if key == "GeneratedByEngineVersion"@ || key == "RequiredEngineVersion"@ {
        "2.0"@
    } else if key == "Encrypted"@ || key == "KeyCaseSensitive"@ {
        "No"@
    } else if key == "Encoding"@ {
        "UTF-8"@
    } else if key == "Format"@ {
        "Html"@
    } else if key == "Stripkey"@ || key == "Compact"@ || key == "Compat"@ || key == "Left2Right"@ {
        "Yes"@
    } else if key == "DataSourceFormat"@ {
        "106"@
    } else {
        ""@
    }
}

/// The value written for an attribute that the glossary does not hold.
pub fn default_attr(key: &str) -> (r: &'static str)
    ensures
        r@ == default_attr_spec(key@),
{
    if str_eq(key, "GeneratedByEngineVersion") || str_eq(key, "RequiredEngineVersion") {
        "2.0"
    } else if str_eq(key, "Encrypted") || str_eq(key, "KeyCaseSensitive") {
        "No"
    } else if str_eq(key, "Encoding") {
        "UTF-8"
    } else if str_eq(key, "Format") {
        "Html"
    } else if str_eq(key, "Stripkey") || str_eq(key, "Compact") || str_eq(key, "Compat") || str_eq(
        key,
        "Left2Right",
    ) {
        "Yes"
    } else if str_eq(key, "DataSourceFormat") {
        "106"
    } else {
        ""
    }
}

} // verus!
