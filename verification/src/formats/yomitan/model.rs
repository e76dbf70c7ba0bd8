//! The Yomitan data model: term banks, term meta banks and tag banks.
//!
//! The same shapes as the Yomitan dictionary schema. Where the schema holds a
//! floating-point number (an image's size, a frequency) the model holds the
//! number's IEEE-754 bits, which it carries through unread.

use vstd::prelude::*;

verus! {

/// A tag of a tag bank.
#[derive(Debug, Clone, PartialEq)]
pub struct TagBankEntry {
    pub short_tag: String,
    pub category: String,
    pub sort_order: i32,
    pub long_tag: String,
    pub popularity_score: i32,
}

/// An entry of a term bank.
#[derive(Debug, PartialEq)]
pub struct TermBankEntry {
    pub term: String,
    pub reading: String,
    pub definition_tags: String,
    pub rules: String,
    pub frequency: i64,
    pub definitions: Vec<DetailedDefinition>,
    pub sequence: i64,
    pub term_tags: String,
}

impl TermBankEntry {
    /// An entry for `term` with the single plain definition `definition`.
    pub fn raw(term: String, definition: String) -> (r: Self)
        ensures
            r.term == term,
            r.definitions@ == seq![DetailedDefinition::String(definition)],
            r.reading@.len() == 0,
            r.definition_tags@.len() == 0,
            r.rules@.len() == 0,
            r.frequency == 0,
            r.sequence == 0,
            r.term_tags@.len() == 0,
    {
        let mut definitions = Vec::new();
        definitions.push(DetailedDefinition::String(definition));
        Self {
            term,
            reading: String::new(),
            definition_tags: String::new(),
            rules: String::new(),
            frequency: 0,
            definitions,
            sequence: 0,
            term_tags: String::new(),
        }
    }

    /// An entry for the alternative form `alt`, whose single definition says
    /// it is an inflection of `term` (with no rules).
    pub fn raw_inflection(term: String, alt: String) -> (r: Self)
        ensures
            r.term == alt,
            r.definitions@.len() == 1,
            r.definitions@[0] matches DetailedDefinition::Inflection(t, rules) && t == term && rules@.len()
                == 0,
            r.reading@.len() == 0,
            r.definition_tags@.len() == 0,
            r.rules@.len() == 0,
            r.frequency == 0,
            r.sequence == 0,
            r.term_tags@.len() == 0,
    {
        let mut definitions = Vec::new();
        definitions.push(DetailedDefinition::Inflection(term, Vec::new()));
        Self {
            term: alt,
            reading: String::new(),
            definition_tags: String::new(),
            rules: String::new(),
            frequency: 0,
            definitions,
            sequence: 0,
            term_tags: String::new(),
        }
    }

    /// The term this entry is an inflection of: that of its first definition,
    /// where it has at least one and every one is an inflection; otherwise `None`.
    pub fn inflection_source(&self) -> (r: Option<&str>)
        ensures
            match r {
                Some(s) => inflection_source_spec(self.definitions@) == Some(s@),
                None => inflection_source_spec(self.definitions@) is None,
            },
    {
        let n = self.definitions.len();
        if n == 0 {
            return None;
        }
        let first = match &self.definitions[0] {
            DetailedDefinition::Inflection(term, _) => term.as_str(),
            _ => {
                return None;
            },
        };
        for i in 1..n
            invariant
                n == self.definitions@.len(),
                forall|j: int| 0 <= j < i ==> (#[trigger] self.definitions@[j]) is Inflection,
        {
            match &self.definitions[i] {
                DetailedDefinition::Inflection(_, _) => {},
                _ => {
                    return None;
                },
            }
        }
        Some(first)
    }
}

/// What [`TermBankEntry::inflection_source`] gives.
pub open spec fn inflection_source_spec(defs: Seq<DetailedDefinition>) -> Option<Seq<char>> {
    if defs.len() > 0 && (forall|j: int| 0 <= j < defs.len() ==> (#[trigger] defs[j]) is Inflection) {
        match defs[0] {
            DetailedDefinition::Inflection(t, _) => Some(t@),
            _ => None,
        }
    } else {
        None
    }
}

/// One definition of a term bank entry.
#[derive(Debug, PartialEq)]
pub enum DetailedDefinition {
    String(String),
    Text(Text),
    StructuredContent(StructuredContent),
    Image(Image),
    Inflection(String, Vec<String>),
}

#[derive(Debug, Clone, PartialEq, Eq)]
pub struct Text {
    pub kind: TextTag,
    pub text: String,
}

#[derive(Debug, Clone, Copy, PartialEq, Eq)]
pub enum TextTag {
    Text,
}

#[derive(Debug, Clone, PartialEq, Eq)]
pub struct Image {
    pub kind: ImageTag,
    pub path: String,
}

#[derive(Debug, Clone, Copy, PartialEq, Eq)]
pub enum ImageTag {
    Image,
}

#[derive(Debug, PartialEq)]
pub struct StructuredContent {
    pub kind: StructuredContentTag,
    pub content: Node,
}

#[derive(Debug, Clone, Copy, PartialEq, Eq)]
pub enum StructuredContentTag {
    StructuredContent,
}

impl StructuredContent {
    pub fn new(content: Node) -> (r: Self)
        ensures
            r.kind == StructuredContentTag::StructuredContent,
            r.content == content,
    {
        Self { kind: StructuredContentTag::StructuredContent, content }
    }
}

/// A structured content node.
#[derive(Debug, PartialEq)]
pub enum Node {
    Text(String),
    Array(Vec<Node>),
    LineBreak(Box<LineBreakNode>),
    Group(Box<GroupNode>),
    Table(Box<TableNode>),
    Generic(Box<GenericNode>),
    Image(Box<ImageNode>),
    Backlink(Box<BacklinkNode>),
}

#[derive(Debug, PartialEq)]
pub struct LineBreakNode {
    pub tag: LineBreakNodeTag,
    pub content: Option<Node>,
}

#[derive(Debug, Clone, Copy, PartialEq, Eq)]
pub enum LineBreakNodeTag {
    Br,
}

#[derive(Debug, PartialEq)]
pub struct GroupNode {
    pub tag: GroupNodeTag,
    pub content: Option<Node>,
    pub data: Option<NodeData>,
    pub lang: Option<String>,
}

#[derive(Debug, Clone, Copy, PartialEq, Eq)]
pub enum GroupNodeTag {
    Ruby,
    Rt,
    Rp,
    Table,
    Thead,
    Tbody,
    Tfoot,
    Tr,
}

/// The html name of a group tag.
pub open spec fn group_tag_name(tag: GroupNodeTag) -> Seq<char> {
    match tag {
        GroupNodeTag::Ruby => "ruby"@,
        GroupNodeTag::Rt => "rt"@,
        GroupNodeTag::Rp => "rp"@,
        GroupNodeTag::Table => "table"@,
        GroupNodeTag::Thead => "thead"@,
        GroupNodeTag::Tbody => "tbody"@,
        GroupNodeTag::Tfoot => "tfoot"@,
        GroupNodeTag::Tr => "tr"@,
    }
}

impl GroupNodeTag {
    pub fn as_str(&self) -> (r: &'static str)
        ensures
            r@ == group_tag_name(*self),
    {
        match self {
            Self::Ruby => "ruby",
            Self::Rt => "rt",
            Self::Rp => "rp",
            Self::Table => "table",
            Self::Thead => "thead",
            Self::Tbody => "tbody",
            Self::Tfoot => "tfoot",
            Self::Tr => "tr",
        }
    }
}

#[derive(Debug, PartialEq)]
pub struct TableNode {
    pub tag: TableNodeTag,
    pub content: Option<Node>,
    pub data: Option<NodeData>,
    pub lang: Option<String>,
    pub col_span: Option<u32>,
    pub row_span: Option<u32>,
}

#[derive(Debug, Clone, Copy, PartialEq, Eq)]
pub enum TableNodeTag {
    Td,
    Th,
}

/// The html name of a table cell tag.
pub open spec fn table_tag_name(tag: TableNodeTag) -> Seq<char> {
    match tag {
        TableNodeTag::Td => "td"@,
        TableNodeTag::Th => "th"@,
    }
}

impl TableNodeTag {
    pub fn as_str(&self) -> (r: &'static str)
        ensures
            r@ == table_tag_name(*self),
    {
        match self {
            Self::Td => "td",
            Self::Th => "th",
        }
    }
}

/// An image node. `width` and `height` hold the bits of the schema's numbers.
#[derive(Debug, Clone, PartialEq)]
pub struct ImageNode {
    pub tag: ImageNodeTag,
    pub path: String,
    pub data: Option<NodeData>,
    pub width: Option<u64>,
    pub height: Option<u64>,
    pub title: Option<String>,
    pub alt: Option<String>,
    pub description: Option<String>,
    pub pixelated: Option<bool>,
    pub image_rendering: Option<ImageRendering>,
    pub appearance: Option<ImageAppearance>,
    pub background: Option<bool>,
    pub collapsed: Option<bool>,
    pub collapsible: Option<bool>,
    pub vertical_align: Option<VerticalAlign>,
    pub border: Option<String>,
    pub border_radius: Option<String>,
    pub size_units: Option<SizeUnits>,
}

#[derive(Debug, Clone, Copy, PartialEq, Eq)]
pub enum ImageNodeTag {
    Img,
}

#[derive(Debug, Clone, Copy, PartialEq, Eq)]
pub enum ImageRendering {
    Auto,
    Pixelated,
    CrispEdges,
}

#[derive(Debug, Clone, Copy, PartialEq, Eq)]
pub enum ImageAppearance {
    Auto,
    Monochrome,
}

#[derive(Debug, Clone, Copy, PartialEq, Eq)]
pub enum VerticalAlign {
    Baseline,
    Sub,
    Super,
    TextTop,
    TextBottom,
    Middle,
    Top,
    Bottom,
}

#[derive(Debug, Clone, Copy, PartialEq, Eq)]
pub enum SizeUnits {
    Px,
    Em,
}

#[derive(Debug, PartialEq)]
pub struct GenericNode {
    pub tag: NTag,
    pub content: Option<Node>,
    pub title: Option<String>,
    pub data: Option<NodeData>,
    pub style: Option<NodeStyle>,
    pub lang: Option<String>,
}

#[derive(Debug, Clone, Copy, PartialEq, Eq)]
pub enum NTag {
    Span,
    Div,
    Ol,
    Ul,
    Li,
    Details,
    Summary,
}

/// The html name of a generic tag.
pub open spec fn ntag_name(tag: NTag) -> Seq<char> {
    match tag {
        NTag::Span => "span"@,
        NTag::Div => "div"@,
        NTag::Ol => "ol"@,
        NTag::Ul => "ul"@,
        NTag::Li => "li"@,
        NTag::Details => "details"@,
        NTag::Summary => "summary"@,
    }
}

impl NTag {
    pub fn as_str(&self) -> (r: &'static str)
        ensures
            r@ == ntag_name(*self),
    {
        match self {
            Self::Span => "span",
            Self::Div => "div",
            Self::Ol => "ol",
            Self::Ul => "ul",
            Self::Li => "li",
            Self::Details => "details",
            Self::Summary => "summary",
        }
    }
}

/// The `data` attributes of a node, in order; well formed where no key
/// appears twice.
#[derive(Debug, Clone, PartialEq, Eq)]
pub struct NodeData(pub Vec<(String, String)>);

impl NodeData {
    /// No key appears twice (as in the map the format defines).
    pub open spec fn wf(&self) -> bool {
        forall|i: int, j: int| 0 <= i < j < self.0@.len() ==> (#[trigger] self.0@[i]).0@ != (#[trigger] self.0@[j]).0@
    }

    /// Data holding the single attribute `key`.
    pub fn single(key: String, value: String) -> (r: Self)
        ensures
            r.wf(),
            r.0@.len() == 1,
            r.0@[0] == (key, value),
    {
        let mut pairs: Vec<(String, String)> = Vec::new();
        pairs.push((key, value));
        NodeData(pairs)
    }
}

#[derive(Debug, PartialEq)]
pub struct BacklinkNode {
    pub tag: BacklinkTag,
    pub href: String,
    pub content: Option<Node>,
    pub lang: Option<String>,
}

#[derive(Debug, Clone, Copy, PartialEq, Eq)]
pub enum BacklinkTag {
    A,
}

impl BacklinkNode {
    pub fn new(href: String, content: String) -> (r: Self)
        ensures
            r.tag == BacklinkTag::A,
            r.href == href,
            r.content == Some(Node::Text(content)),
            r.lang is None,
    {
        Self { tag: BacklinkTag::A, href, content: Some(Node::Text(content)), lang: None }
    }
}

/// The inline style of a node.
#[derive(Debug, Clone, PartialEq, Eq)]
pub struct NodeStyle {
    pub font_style: Option<FontStyle>,
    pub font_weight: Option<FontWeight>,
    pub font_size: Option<String>,
    pub color: Option<String>,
    pub background_color: Option<String>,
    pub vertical_align: Option<VerticalAlign>,
    pub white_space: Option<String>,
    pub list_style_type: Option<String>,
    pub border_style: Option<String>,
    pub border_width: Option<String>,
    pub border_color: Option<String>,
    pub margin: Option<String>,
}

impl Default for NodeStyle {
    fn default() -> (r: Self)
        ensures
            r.font_style is None,
            r.font_weight is None,
            r.font_size is None,
            r.color is None,
            r.background_color is None,
            r.vertical_align is None,
            r.white_space is None,
            r.list_style_type is None,
            r.border_style is None,
            r.border_width is None,
            r.border_color is None,
            r.margin is None,
    {
        NodeStyle {
            font_style: None,
            font_weight: None,
            font_size: None,
            color: None,
            background_color: None,
            vertical_align: None,
            white_space: None,
            list_style_type: None,
            border_style: None,
            border_width: None,
            border_color: None,
            margin: None,
        }
    }
}

#[derive(Debug, Clone, Copy, PartialEq, Eq)]
pub enum FontStyle {
    Normal,
    Italic,
}

#[derive(Debug, Clone, Copy, PartialEq, Eq)]
pub enum FontWeight {
    Normal,
    Bold,
}

/// An entry of a term meta bank.
#[derive(Debug, Clone, PartialEq)]
pub enum TermMetaBankEntry {
    Frequency(String, FreqKind, FrequencyData),
    Pitch(String, PitchKind, PitchData),
    Ipa(String, IpaKind, IpaData),
}

impl TermMetaBankEntry {
    pub fn term(&self) -> (r: &String)
        ensures
            r == match self {
                TermMetaBankEntry::Frequency(t, _, _) => t,
                TermMetaBankEntry::Pitch(t, _, _) => t,
                TermMetaBankEntry::Ipa(t, _, _) => t,
            },
    {
        match self {
            Self::Frequency(t, _, _) => t,
            Self::Pitch(t, _, _) => t,
            Self::Ipa(t, _, _) => t,
        }
    }
}

#[derive(Debug, Clone, Copy, PartialEq, Eq)]
pub enum FreqKind {
    Freq,
}

#[derive(Debug, Clone, Copy, PartialEq, Eq)]
pub enum PitchKind {
    Pitch,
}

#[derive(Debug, Clone, Copy, PartialEq, Eq)]
pub enum IpaKind {
    Ipa,
}

#[derive(Debug, Clone, PartialEq)]
pub enum FrequencyData {
    Plain(FrequencyTerm),
    WithReading { reading: String, frequency: FrequencyTerm },
}

/// A frequency: a term, or a number (its bits), possibly with how to display it.
#[derive(Debug, Clone, PartialEq)]
pub enum FrequencyTerm {
    Term(String),
    Frequency(u64),
    WithDisplay { value: u64, display_value: Option<String> },
}

#[derive(Debug, Clone, PartialEq)]
pub struct PitchData {
    pub reading: String,
    pub pitches: Vec<PitchAccentInfo>,
}

#[derive(Debug, Clone, PartialEq)]
pub struct PitchAccentInfo {
    pub position: NumberOrString,
    pub nasal: Option<NumberOrList>,
    pub devoice: Option<NumberOrList>,
    pub tags: Option<Vec<String>>,
}

#[derive(Debug, Clone, PartialEq)]
pub enum NumberOrString {
    Number(u32),
    String(String),
}

#[derive(Debug, Clone, PartialEq)]
pub enum NumberOrList {
    Single(u32),
    List(Vec<u32>),
}

#[derive(Debug, Clone, PartialEq)]
pub struct IpaData {
    pub reading: String,
    pub transcriptions: Vec<IpaTranscription>,
}

#[derive(Debug, Clone, PartialEq)]
pub struct IpaTranscription {
    pub ipa: String,
    pub tags: Option<Vec<String>>,
}

/// A Yomitan definition: a term bank entry or a term meta bank entry.
#[derive(Debug, PartialEq)]
pub enum YomitanDefinition {
    TermBankEntry(TermBankEntry),
    TermMetaBankEntry(TermMetaBankEntry),
}

} // verus!
