//! The glossary: the format-independent model that every reader produces and
//! every writer consumes.

pub mod alt;
pub mod conversion;
pub mod data_entry;
pub mod definition;
pub mod entry;
pub mod glossary_info;
pub mod metadata;

pub use alt::AltEntry;
pub use conversion::HtmlConverter;
pub use data_entry::DataEntry;
pub use definition::Definition;
pub use entry::{Entry, TERM_SEPARATOR};
pub use glossary_info::GlossaryInfo;
pub use metadata::{GlossaryMetadata, StyleSheet};

use vstd::prelude::*;

verus! {

/// The intermediary data passed between readers and writers.
#[derive(Debug)]
pub struct Glossary {
    pub entries: Vec<Entry>,
    pub data_entries: Vec<DataEntry>,
    pub info: GlossaryInfo,
    pub metadata: GlossaryMetadata,
}

impl Default for Glossary {
    fn default() -> (r: Self)
        ensures
            r.entries@.len() == 0,
            r.data_entries@.len() == 0,
            r.info.wf(),
            r.info@ == seq![("name"@, "name"@)],
            r.metadata.tag_bank is None,
            r.metadata.stylesheet is None,
    {
        Glossary {
            entries: Vec::new(),
            data_entries: Vec::new(),
            info: GlossaryInfo::new(),
            metadata: GlossaryMetadata { tag_bank: None, stylesheet: None },
        }
    }
}

impl Glossary {
    /// The stylesheets among the data entries, in order.
    pub fn css_files(&self) -> (r: Vec<&DataEntry>)
        ensures
            r@ == self.data_entries@.filter(|d: DataEntry| is_css_spec(d)).map_values(
                |d: DataEntry| &d,
            ),
    {
        let mut out: Vec<&DataEntry> = Vec::new();
        let n = self.data_entries.len();
        for i in 0..n
            invariant
                n == self.data_entries@.len(),
                out@ == self.data_entries@.subrange(0, i as int).filter(
                    |d: DataEntry| is_css_spec(d),
                ).map_values(|d: DataEntry| &d),
        {
            let d = &self.data_entries[i];
            proof {
                reveal_with_fuel(Seq::filter, 1);
                assert(self.data_entries@.subrange(0, i + 1).drop_last() =~= self.data_entries@.subrange(
                    0,
                    i as int,
                ));
            }
            if d.is_css() {
                out.push(d);
            }
            assert(out@ =~= self.data_entries@.subrange(0, i + 1).filter(
                |d: DataEntry| is_css_spec(d),
            ).map_values(|d: DataEntry| &d));
        }
        assert(self.data_entries@.subrange(0, n as int) =~= self.data_entries@);
        out
    }
}

/// Whether a data entry is a stylesheet.
pub open spec fn is_css_spec(d: DataEntry) -> bool {
    data_entry::path_extension(d.spec_fname()) == Some("css"@)
}

} // verus!
