//! Format-specific information a glossary carries between a reader and a writer.

use vstd::prelude::*;

use crate::formats::yomitan::TagBankEntry;

verus! {

/// Mdict inline styles: for each style number, the text put before and after
/// the styled run. Numbers are distinct, in the order first met.
pub type StyleSheet = Vec<(u32, (String, String))>;

/// Metadata of a glossary.
#[derive(Debug)]
pub struct GlossaryMetadata {
    /// Yomitan definition tags.
    pub tag_bank: Option<Vec<TagBankEntry>>,
    /// Mdict inline styles.
    pub stylesheet: Option<StyleSheet>,
}

impl Default for GlossaryMetadata {
    fn default() -> (r: Self)
        ensures
            r.tag_bank is None,
            r.stylesheet is None,
    {
        GlossaryMetadata { tag_bank: None, stylesheet: None }
    }
}

} // verus!
