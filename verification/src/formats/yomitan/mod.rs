//! The Yomitan format: zip archives of json banks.

pub mod model;
pub mod reader;
pub mod renderer;
pub mod writer;

pub use model::{TagBankEntry, TermBankEntry, DetailedDefinition, Text, TextTag, Image, ImageTag, StructuredContent, StructuredContentTag, Node, LineBreakNode, LineBreakNodeTag, GroupNode, GroupNodeTag, TableNode, TableNodeTag, ImageNode, ImageNodeTag, ImageRendering, ImageAppearance, VerticalAlign, SizeUnits, GenericNode, NTag, NodeData, BacklinkNode, BacklinkTag, NodeStyle, FontStyle, FontWeight, TermMetaBankEntry, FreqKind, PitchKind, IpaKind, FrequencyData, FrequencyTerm, PitchData, PitchAccentInfo, NumberOrString, NumberOrList, IpaData, IpaTranscription, YomitanDefinition, group_tag_name, table_tag_name, ntag_name};

use vstd::prelude::*;

verus! {

/// The Yomitan format.
pub struct YomitanFormat;

} // verus!
