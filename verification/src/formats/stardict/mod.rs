//! The Stardict format: an `.ifo` description, an `.idx` index, the `.dict`
//! definitions and an optional `.syn` of synonyms.

pub mod reader;
pub mod sts;
pub mod writer;

use vstd::prelude::*;

verus! {

/// The Stardict format.
pub struct StardictFormat;

/// What went wrong reading or writing a Stardict dictionary.
#[derive(Debug, Clone, PartialEq, Eq)]
pub enum StardictError {
    /// The path given is not that of an `.ifo` file.
    NotAnIfo(String),
    /// `idxoffsetbits` is neither 32 nor 64.
    InvalidIdxOffsetBits(String),
    /// A compressed file does not inflate.
    DecompressionFailed,
    /// The dictionary does not fit the format's 32-bit fields.
    TooLarge,
}

} // verus!
