//! Conversion between definition kinds: to html, with the glossary's
//! stylesheets linked in front.

use vstd::prelude::*;
use vstd::string::StringExecFns;

use crate::formats::yomitan::renderer::opt_str;
use crate::formats::yomitan::{
    DetailedDefinition, FontStyle, FontWeight, GenericNode, LineBreakNode, LineBreakNodeTag, NTag, Node,
    NodeData, NodeStyle, StructuredContent, StructuredContentTag, TagBankEntry, VerticalAlign,
};
use crate::strs::{
    chars_of, find_char, find_from, lemma_find_from, slice_to_vec, split_char, split_spec, str_eq,
    string_of, trim_chars, trim_spec,
};
use crate::glossary::definition::{bank_or_empty, definition_to_html, renderable, Definition};
use crate::glossary::entry::Entry;
use crate::glossary::{is_css_spec, DataEntry, Glossary};

verus! {

/// Renders definitions to html, linking the glossary's stylesheets in front
/// and resolving Yomitan tags in its tag bank.
pub struct HtmlConverter<'a> {
    pub css_files: Vec<String>,
    pub tag_bank: Option<&'a [TagBankEntry]>,
}

/// The `<link>` elements of the stylesheets, one after another.
pub open spec fn links_html(files: Seq<String>) -> Seq<char>
    decreases files.len(),
{
    if files.len() == 0 {
        Seq::empty()
    } else {
        links_html(files.drop_last()) + "<link rel='stylesheet' href='"@ + files.last()@
            + "' type='text/css'>"@
    }
}

/// The file names of the stylesheets among the data entries, in order.
pub open spec fn css_names(data: Seq<DataEntry>) -> Seq<Seq<char>> {
    data.filter(|d: DataEntry| is_css_spec(d)).map_values(|d: DataEntry| d.spec_fname())
}

impl<'a> HtmlConverter<'a> {
    /// The converter of a glossary: its stylesheets, its tag bank.
    pub fn new(glossary: &'a Glossary) -> (r: Self)
        ensures
            r.css_files@.map_values(|s: String| s@) == css_names(glossary.data_entries@),
            r.tag_bank is Some <==> glossary.metadata.tag_bank is Some,
            bank_or_empty(r.tag_bank) == match glossary.metadata.tag_bank {
                Some(b) => b@,
                None => Seq::empty(),
            },
    {
        let css = glossary.css_files();
        let mut names: Vec<String> = Vec::new();
        let n = css.len();
        for i in 0..n
            invariant
                n == css@.len(),
                names@.len() == i,
                forall|j: int| 0 <= j < i ==> #[trigger] names@[j]@ == css@[j].spec_fname(),
        {
            names.push(css[i].fname().to_string());
        }
        proof {
            let want = css_names(glossary.data_entries@);
            let filtered = glossary.data_entries@.filter(|d: DataEntry| is_css_spec(d));
            assert(css@ == filtered.map_values(|d: DataEntry| &d));
            assert(names@.map_values(|s: String| s@) =~= want) by {
                assert forall|j: int| 0 <= j < want.len() implies names@.map_values(|s: String| s@)[j]
                    == want[j] by {
                    assert(css@[j] == filtered[j]);
                }
            }
        }
        let tag_bank: Option<&'a [TagBankEntry]> = match &glossary.metadata.tag_bank {
            Some(b) => Some(b.as_slice()),
            None => None,
        };
        HtmlConverter { css_files: names, tag_bank }
    }

    /// The `<link>` elements of the stylesheets.
    pub fn leading_links(&self) -> (r: String)
        ensures
            r@ == links_html(self.css_files@),
    {
        let mut out = String::new();
        let n = self.css_files.len();
        for i in 0..n
            invariant
                n == self.css_files@.len(),
                out@ == links_html(self.css_files@.take(i as int)),
        {
            out.append("<link rel='stylesheet' href='");
            out.append(self.css_files[i].as_str());
            out.append("' type='text/css'>");
            assert(self.css_files@.take(i + 1).drop_last() =~= self.css_files@.take(i as int));
            assert(out@ =~= links_html(self.css_files@.take(i + 1)));
        }
        assert(self.css_files@.take(n as int) =~= self.css_files@);
        out
    }

    /// The html of a definition, behind the stylesheet links.
    pub fn convert(&self, def: &Definition) -> (r: String)
        requires
            renderable(*def),
        ensures
            r@ == links_html(self.css_files@) + definition_to_html(*def, bank_or_empty(self.tag_bank)),
    {
        let mut out = self.leading_links();
        let html = def.to_html(self.tag_bank);
        out.append(html.as_str());
        out
    }
}

/// The html put in front of every definition: the stylesheet links.
pub open spec fn glossary_links(g: Glossary) -> Seq<char> {
    links_html_of_names(css_names(g.data_entries@))
}

/// The `<link>` elements of stylesheet names, one after another.
pub open spec fn links_html_of_names(names: Seq<Seq<char>>) -> Seq<char>
    decreases names.len(),
{
    if names.len() == 0 {
        Seq::empty()
    } else {
        links_html_of_names(names.drop_last()) + "<link rel='stylesheet' href='"@ + names.last()
            + "' type='text/css'>"@
    }
}

/// The tags Yomitan definitions are rendered with.
pub open spec fn glossary_bank(g: Glossary) -> Seq<TagBankEntry> {
    match g.metadata.tag_bank {
        Some(b) => b@,
        None => Seq::empty(),
    }
}

/// Whether every entry has an html form.
pub open spec fn all_renderable(entries: Seq<Entry>) -> bool {
    forall|i: int| 0 <= i < entries.len() ==> renderable(*(#[trigger] entries[i]).spec_definition())
}

/// The links of stylesheet names, as [`links_html`] writes them for their files.
pub proof fn lemma_links_of_names(files: Seq<String>)
    ensures
        links_html(files) == links_html_of_names(files.map_values(|s: String| s@)),
    decreases files.len(),
{
    if files.len() > 0 {
        lemma_links_of_names(files.drop_last());
        assert(files.drop_last().map_values(|s: String| s@) =~= files.map_values(|s: String| s@).drop_last());
    }
}

} // verus!

verus! {

/// A node of a parsed html fragment.
#[derive(Debug)]
pub enum HtmlNode {
    Text(String),
    Element(HtmlElement),
    /// A comment, doctype or processing instruction.
    Other,
}

/// An element of a parsed html fragment: its name, attributes and children.
#[derive(Debug)]
pub struct HtmlElement {
    pub name: String,
    pub attrs: Vec<(String, String)>,
    pub children: Vec<HtmlNode>,
}

/// The root element (`<html>`) of an html fragment as html5ever parses it.
pub uninterp spec fn parsed_fragment(html: Seq<char>) -> HtmlElement;

#[verifier::external_type_specification]
#[verifier::external_body]
pub struct ExElementRef<'a>(scraper::ElementRef<'a>);

/// The tree of an element of scraper's document.
#[verifier::external_body]
fn convert_element(el: scraper::ElementRef) -> HtmlElement {
    let value = el.value();
    HtmlElement {
        name: value.name().to_string(),
        attrs: value.attrs().map(|(k, v)| (k.to_string(), v.to_string())).collect(),
        children: el.children().map(|child| match child.value() {
            scraper::Node::Text(t) => HtmlNode::Text(t.to_string()),
            scraper::Node::Element(_) => HtmlNode::Element(convert_element(scraper::ElementRef::wrap(child).unwrap())),
            _ => HtmlNode::Other,
        }).collect(),
    }
}

/// Calls `scraper::Html::parse_fragment` and takes its root element; the
/// tree is named.
#[verifier::external_body]
pub(crate) fn parse_fragment(html: &str) -> (r: HtmlElement)
    ensures
        r == parsed_fragment(html@),
{
    let fragment = scraper::Html::parse_fragment(html);
    convert_element(fragment.root_element())
}

} // verus!

verus! {

/// A style as values.
pub struct StyleView {
    pub font_style: Option<FontStyle>,
    pub font_weight: Option<FontWeight>,
    pub font_size: Option<Seq<char>>,
    pub color: Option<Seq<char>>,
    pub background_color: Option<Seq<char>>,
    pub vertical_align: Option<VerticalAlign>,
    pub white_space: Option<Seq<char>>,
    pub list_style_type: Option<Seq<char>>,
    pub border_style: Option<Seq<char>>,
    pub border_width: Option<Seq<char>>,
    pub border_color: Option<Seq<char>>,
    pub margin: Option<Seq<char>>,
}

/// The style without any property.
pub open spec fn empty_style() -> StyleView {
    StyleView {
        font_style: None,
        font_weight: None,
        font_size: None,
        color: None,
        background_color: None,
        vertical_align: None,
        white_space: None,
        list_style_type: None,
        border_style: None,
        border_width: None,
        border_color: None,
        margin: None,
    }
}

/// The values of a style.
pub open spec fn style_view(s: NodeStyle) -> StyleView {
    StyleView {
        font_style: s.font_style,
        font_weight: s.font_weight,
        font_size: opt_str(s.font_size),
        color: opt_str(s.color),
        background_color: opt_str(s.background_color),
        vertical_align: s.vertical_align,
        white_space: opt_str(s.white_space),
        list_style_type: opt_str(s.list_style_type),
        border_style: opt_str(s.border_style),
        border_width: opt_str(s.border_width),
        border_color: opt_str(s.border_color),
        margin: opt_str(s.margin),
    }
}

/// A structured content node as values (the kinds html converts to; the
/// others are `Other`).
pub enum NodeView {
    Text(Seq<char>),
    Array(Seq<NodeView>),
    LineBreak(Option<Box<NodeView>>),
    Generic {
        tag: NTag,
        content: Option<Box<NodeView>>,
        title: Option<Seq<char>>,
        data: Option<Seq<(Seq<char>, Seq<char>)>>,
        style: Option<StyleView>,
        lang: Option<Seq<char>>,
    },
    Other,
}

/// The values of a node.
pub open spec fn node_view(n: Node) -> NodeView
    decreases n,
{
    match n {
        Node::Text(t) => NodeView::Text(t@),
        Node::Array(v) => NodeView::Array(nodes_view(v@)),
        Node::LineBreak(b) => NodeView::LineBreak(
            match b.content {
                Some(c) => Some(Box::new(node_view(c))),
                None => None,
            },
        ),
        Node::Generic(g) => NodeView::Generic {
            tag: g.tag,
            content: match g.content {
                Some(c) => Some(Box::new(node_view(c))),
                None => None,
            },
            title: opt_str(g.title),
            data: match g.data {
                Some(NodeData(pairs)) => Some(pairs@.map_values(|p: (String, String)| (p.0@, p.1@))),
                None => None,
            },
            style: match g.style {
                Some(s) => Some(style_view(s)),
                None => None,
            },
            lang: opt_str(g.lang),
        },
        _ => NodeView::Other,
    }
}

/// The values of nodes.
pub open spec fn nodes_view(v: Seq<Node>) -> Seq<NodeView>
    decreases v,
{
    if v.len() == 0 {
        Seq::empty()
    } else {
        nodes_view(v.drop_last()).push(node_view(v.last()))
    }
}

/// A list of nodes has as many values.
pub proof fn lemma_nodes_view_len(v: Seq<Node>)
    ensures
        nodes_view(v).len() == v.len(),
    decreases v.len(),
{
    if v.len() > 0 {
        lemma_nodes_view_len(v.drop_last());
    }
}

/// The value of the first attribute named `name`.
pub open spec fn attr_of(attrs: Seq<(String, String)>, name: Seq<char>) -> Option<Seq<char>>
    decreases attrs.len(),
{
    if attrs.len() == 0 {
        None
    } else if attrs[0].0@ == name {
        Some(attrs[0].1@)
    } else {
        attr_of(attrs.skip(1), name)
    }
}

/// The font weight a css value names.
pub open spec fn font_weight_from(v: Seq<char>) -> Option<FontWeight> {
    if v == "normal"@ {
        Some(FontWeight::Normal)
    } else if v == "bold"@ {
        Some(FontWeight::Bold)
    } else {
        None
    }
}

/// `s` without any number of trailing `!important`.
pub open spec fn strip_important(s: Seq<char>) -> Seq<char>
    decreases s.len(),
{
    if s.len() >= 10 && s.skip(s.len() - 10) == "!important"@ {
        strip_important(s.take(s.len() - 10))
    } else {
        s
    }
}

/// The font style a css value names (`!important` aside).
pub open spec fn font_style_from(v: Seq<char>) -> Option<FontStyle> {
    let w = strip_important(v);
    if w == "normal"@ {
        Some(FontStyle::Normal)
    } else if w == "italic"@ {
        Some(FontStyle::Italic)
    } else {
        None
    }
}

/// The vertical alignment a css value names.
pub open spec fn vertical_align_from(v: Seq<char>) -> Option<VerticalAlign> {
    if v == "baseline"@ {
        Some(VerticalAlign::Baseline)
    } else if v == "sub"@ {
        Some(VerticalAlign::Sub)
    } else if v == "super"@ {
        Some(VerticalAlign::Super)
    } else if v == "text-top"@ {
        Some(VerticalAlign::TextTop)
    } else if v == "text-bottom"@ {
        Some(VerticalAlign::TextBottom)
    } else if v == "middle"@ {
        Some(VerticalAlign::Middle)
    } else if v == "top"@ {
        Some(VerticalAlign::Top)
    } else if v == "bottom"@ {
        Some(VerticalAlign::Bottom)
    } else {
        None
    }
}

/// A style after one `key: value` declaration: the properties the schema
/// has are set (a weight, style or alignment only where the value names
/// one); the others are ignored.
pub open spec fn apply_decl(st: StyleView, part: Seq<char>) -> StyleView {
    match find_from(part, 0, ':') {
        None => st,
        Some(k) => {
            let key = trim_spec(part.take(k));
            let v = trim_spec(part.skip(k + 1));
            if key == "color"@ {
                StyleView { color: Some(v), ..st }
            } else if key == "font-size"@ {
                StyleView { font_size: Some(v), ..st }
            } else if key == "font-weight"@ {
                match font_weight_from(v) {
                    Some(w) => StyleView { font_weight: Some(w), ..st },
                    None => st,
                }
            } else if key == "font-style"@ {
                match font_style_from(v) {
                    Some(f) => StyleView { font_style: Some(f), ..st },
                    None => st,
                }
            } else if key == "background"@ || key == "background-color"@ {
                StyleView { background_color: Some(v), ..st }
            } else if key == "white-space"@ {
                StyleView { white_space: Some(v), ..st }
            } else if key == "vertical-align"@ {
                match vertical_align_from(v) {
                    Some(a) => StyleView { vertical_align: Some(a), ..st },
                    None => st,
                }
            } else {
                st
            }
        },
    }
}

/// A style after the declarations, in order.
pub open spec fn apply_decls(st: StyleView, parts: Seq<Seq<char>>) -> StyleView
    decreases parts.len(),
{
    if parts.len() == 0 {
        st
    } else {
        apply_decl(apply_decls(st, parts.drop_last()), parts.last())
    }
}

/// The inline style of an element: its legacy `color` attribute, then the
/// declarations of its `style` attribute; none where it has no property.
pub open spec fn styles_of(attrs: Seq<(String, String)>) -> Option<StyleView> {
    let base = match attr_of(attrs, "color"@) {
        Some(c) => StyleView { color: Some(c), ..empty_style() },
        None => empty_style(),
    };
    let st = match attr_of(attrs, "style"@) {
        Some(s) => apply_decls(base, split_spec(s, ';')),
        None => base,
    };
    if st == empty_style() {
        None
    } else {
        Some(st)
    }
}

} // verus!

verus! {

impl FontWeight {
    /// The font weight a css value names.
    pub fn try_from(value: &str) -> (r: Result<Self, &'static str>)
        ensures
            match r {
                Ok(w) => font_weight_from(value@) == Some(w),
                Err(_) => font_weight_from(value@) is None,
            },
    {
        if str_eq(value, "normal") {
            Ok(FontWeight::Normal)
        } else if str_eq(value, "bold") {
            Ok(FontWeight::Bold)
        } else {
            Err("unsupported font-weight value")
        }
    }
}

impl FontStyle {
    /// The font style a css value names, any trailing `!important` aside.
    pub fn try_from(value: &str) -> (r: Result<Self, &'static str>)
        ensures
            match r {
                Ok(f) => font_style_from(value@) == Some(f),
                Err(_) => font_style_from(value@) is None,
            },
    {
        proof {
            reveal_strlit("!important");
        }
        let mut cs = chars_of(value);
        let imp = chars_of("!important");
        assert(imp@.len() == 10);
        while cs.len() >= 10 && ends_with_chars(&cs, &imp)
            invariant
                imp@ == "!important"@,
                imp@.len() == 10,
                strip_important(cs@) == strip_important(value@),
            decreases cs@.len(),
        {
            let k = cs.len() - 10;
            let shorter = slice_to_vec(&cs, 0, k);
            assert(shorter@ =~= cs@.take(cs@.len() - 10));
            cs = shorter;
        }
        let w = string_of(&cs);
        assert(strip_important(cs@) == cs@);
        if str_eq(w.as_str(), "normal") {
            Ok(FontStyle::Normal)
        } else if str_eq(w.as_str(), "italic") {
            Ok(FontStyle::Italic)
        } else {
            Err("unsupported font-style value")
        }
    }
}

fn ends_with_chars(s: &[char], suffix: &[char]) -> (r: bool)
    requires
        suffix@.len() <= s@.len(),
    ensures
        r == (s@.skip(s@.len() - suffix@.len()) == suffix@),
{
    let off = s.len() - suffix.len();
    let n = suffix.len();
    assert(off + n == s@.len());
    for i in 0..n
        invariant
            n == suffix@.len(),
            off + n == s@.len(),
            s@.len() <= usize::MAX,
            forall|j: int| 0 <= j < i ==> s@[off + j] == suffix@[j],
    {
        if s[off + i] != suffix[i] {
            assert(s@.skip(off as int)[i as int] != suffix@[i as int]);
            return false;
        }
    }
    assert(s@.skip(off as int) =~= suffix@);
    true
}

impl VerticalAlign {
    /// The vertical alignment a css value names.
    pub fn try_from(value: &str) -> (r: Result<Self, &'static str>)
        ensures
            match r {
                Ok(a) => vertical_align_from(value@) == Some(a),
                Err(_) => vertical_align_from(value@) is None,
            },
    {
        if str_eq(value, "baseline") {
            Ok(VerticalAlign::Baseline)
        } else if str_eq(value, "sub") {
            Ok(VerticalAlign::Sub)
        } else if str_eq(value, "super") {
            Ok(VerticalAlign::Super)
        } else if str_eq(value, "text-top") {
            Ok(VerticalAlign::TextTop)
        } else if str_eq(value, "text-bottom") {
            Ok(VerticalAlign::TextBottom)
        } else if str_eq(value, "middle") {
            Ok(VerticalAlign::Middle)
        } else if str_eq(value, "top") {
            Ok(VerticalAlign::Top)
        } else if str_eq(value, "bottom") {
            Ok(VerticalAlign::Bottom)
        } else {
            Err("unsupported vertical-align value")
        }
    }
}

/// The value of the first attribute named `name`.
pub fn find_attr<'a>(attrs: &'a Vec<(String, String)>, name: &str) -> (r: Option<&'a str>)
    ensures
        match r {
            Some(v) => attr_of(attrs@, name@) == Some(v@),
            None => attr_of(attrs@, name@) is None,
        },
{
    let n = attrs.len();
    let mut i: usize = 0;
    assert(attrs@.skip(0) =~= attrs@);
    while i < n
        invariant
            n == attrs@.len(),
            i <= n,
            attr_of(attrs@, name@) == attr_of(attrs@.skip(i as int), name@),
        decreases n - i,
    {
        let ghost rest = attrs@.skip(i as int);
        assert(rest[0] == attrs@[i as int]);
        assert(rest.skip(1) =~= attrs@.skip(i + 1));
        if str_eq(attrs[i].0.as_str(), name) {
            return Some(attrs[i].1.as_str());
        }
        i = i + 1;
    }
    None
}

fn apply_decl_exec(st: &mut NodeStyle, part: &[char])
    ensures
        style_view(*final(st)) == apply_decl(style_view(*old(st)), part@),
{
    proof {
        lemma_find_from(part@, 0, ':');
    }
    let k = match find_char(part, 0, ':') {
        Some(k) => k,
        None => {
            return;
        },
    };
    let plen = part.len();
    assert(k < part@.len());
    let key_raw = slice_to_vec(part, 0, k);
    let v_raw = slice_to_vec(part, k + 1, plen);
    assert(key_raw@ =~= part@.take(k as int));
    assert(v_raw@ =~= part@.skip(k + 1));
    let key_t = trim_chars(&key_raw);
    let v_t = trim_chars(&v_raw);
    let key = string_of(&key_t);
    let v = string_of(&v_t);
    let ks = key.as_str();
    if str_eq(ks, "color") {
        st.color = Some(v);
    } else if str_eq(ks, "font-size") {
        st.font_size = Some(v);
    } else if str_eq(ks, "font-weight") {
        match FontWeight::try_from(v.as_str()) {
            Ok(w) => {
                st.font_weight = Some(w);
            },
            Err(_) => {},
        }
    } else if str_eq(ks, "font-style") {
        match FontStyle::try_from(v.as_str()) {
            Ok(f) => {
                st.font_style = Some(f);
            },
            Err(_) => {},
        }
    } else if str_eq(ks, "background") || str_eq(ks, "background-color") {
        st.background_color = Some(v);
    } else if str_eq(ks, "white-space") {
        st.white_space = Some(v);
    } else if str_eq(ks, "vertical-align") {
        match VerticalAlign::try_from(v.as_str()) {
            Ok(a) => {
                st.vertical_align = Some(a);
            },
            Err(_) => {},
        }
    }
}

/// The inline style of an element, where it has any property.
pub fn extract_styles(el: &HtmlElement) -> (r: Option<NodeStyle>)
    ensures
        match r {
            Some(s) => styles_of(el.attrs@) == Some(style_view(s)),
            None => styles_of(el.attrs@) is None,
        },
{
    let mut st = NodeStyle::default();
    assert(style_view(st) == empty_style());
    match find_attr(&el.attrs, "color") {
        Some(c) => {
            st.color = Some(c.to_string());
        },
        None => {},
    }
    match find_attr(&el.attrs, "style") {
        Some(s) => {
            let cs = chars_of(s);
            let parts = split_char(&cs, ';');
            let ghost ps = split_spec(s@, ';');
            let ghost base = style_view(st);
            let n = parts.len();
            for i in 0..n
                invariant
                    n == parts@.len(),
                    n == ps.len(),
                    forall|j: int| 0 <= j < n ==> #[trigger] parts@[j]@ == ps[j],
                    style_view(st) == apply_decls(base, ps.take(i as int)),
            {
                apply_decl_exec(&mut st, parts[i].as_slice());
                assert(ps.take(i + 1).drop_last() =~= ps.take(i as int));
            }
            assert(ps.take(n as int) =~= ps);
        },
        None => {},
    }
    if st.font_style.is_none() && st.font_weight.is_none() && st.font_size.is_none() && st.color.is_none()
        && st.background_color.is_none() && st.vertical_align.is_none() && st.white_space.is_none()
        && st.list_style_type.is_none() && st.border_style.is_none() && st.border_width.is_none()
        && st.border_color.is_none() && st.margin.is_none() {
        assert(style_view(st) == empty_style());
        None
    } else {
        assert(style_view(st) != empty_style());
        Some(st)
    }
}

} // verus!

verus! {

/// The nodes of an element's children: text as text, elements converted,
/// the rest dropped.
pub open spec fn children_views(s: Seq<HtmlNode>) -> Seq<NodeView>
    decreases s,
{
    if s.len() == 0 {
        Seq::empty()
    } else {
        let rest = children_views(s.drop_last());
        match s.last() {
            HtmlNode::Text(t) => rest.push(NodeView::Text(t@)),
            HtmlNode::Element(e) => rest.push(element_node(e)),
            HtmlNode::Other => rest,
        }
    }
}

/// A generic node without title or language.
pub open spec fn generic(
    tag: NTag,
    content: NodeView,
    title: Option<Seq<char>>,
    style: Option<StyleView>,
    data: Option<Seq<(Seq<char>, Seq<char>)>>,
) -> NodeView {
    NodeView::Generic { tag, content: Some(Box::new(content)), title, data, style, lang: None }
}

/// A style made bold.
pub open spec fn bold(st: Option<StyleView>) -> Option<StyleView> {
    let base = match st {
        Some(s) => s,
        None => empty_style(),
    };
    Some(StyleView { font_weight: Some(FontWeight::Bold), ..base })
}

/// A style made italic.
pub open spec fn italic(st: Option<StyleView>) -> Option<StyleView> {
    let base = match st {
        Some(s) => s,
        None => empty_style(),
    };
    Some(StyleView { font_style: Some(FontStyle::Italic), ..base })
}

/// The structured content an html element converts to: its children as
/// content (one node, or an array of several), wrapped in the Yomitan node
/// closest to the element, its css class kept as data.
pub open spec fn element_node(el: HtmlElement) -> NodeView
    decreases el,
{
    let children = children_views(el.children@);
    let content = if children.len() == 1 {
        children[0]
    } else {
        NodeView::Array(children)
    };
    let title = attr_of(el.attrs@, "title"@);
    let data = match attr_of(el.attrs@, "class"@) {
        Some(c) => if c.len() > 0 {
            Some(seq![("class"@, c)])
        } else {
            None
        },
        None => None,
    };
    let style = styles_of(el.attrs@);
    let name = el.name@;
    if name == "span"@ && attr_of(el.attrs@, "data-root"@) is Some {
        content
    } else if name == "span"@ || name == "font"@ {
        generic(NTag::Span, content, None, style, data)
    } else if name == "div"@ || name == "p"@ || name == "section"@ {
        generic(NTag::Div, content, None, style, data)
    } else if name == "ol"@ {
        generic(NTag::Ol, content, None, style, data)
    } else if name == "ul"@ || name == "dl"@ {
        generic(NTag::Ul, content, None, style, data)
    } else if name == "li"@ || name == "dd"@ {
        generic(NTag::Li, content, None, style, data)
    } else if name == "details"@ {
        generic(NTag::Details, content, None, style, data)
    } else if name == "summary"@ {
        generic(NTag::Summary, content, None, style, data)
    } else if name == "br"@ {
        NodeView::LineBreak(None)
    } else if name == "b"@ || name == "strong"@ || name == "h1"@ || name == "h2"@ || name == "h3"@
        || name == "h4"@ || name == "h5"@ || name == "h6"@ {
        generic(NTag::Div, content, title, bold(style), data)
    } else if name == "i"@ || name == "em"@ {
        generic(NTag::Span, content, title, italic(style), None)
    } else {
        content
    }
}

/// The values of an optional style.
pub open spec fn opt_style_view(style: Option<NodeStyle>) -> Option<StyleView> {
    match style {
        Some(s) => Some(style_view(s)),
        None => None,
    }
}

/// The pairs of an optional node data.
pub open spec fn opt_data_view(data: Option<NodeData>) -> Option<Seq<(Seq<char>, Seq<char>)>> {
    match data {
        Some(NodeData(pairs)) => Some(pairs@.map_values(|p: (String, String)| (p.0@, p.1@))),
        None => None,
    }
}

fn generic_node(
    tag: NTag,
    content: Node,
    title: Option<String>,
    style: Option<NodeStyle>,
    data: Option<NodeData>,
) -> (r: Node)
    ensures
        node_view(r) == (NodeView::Generic {
            tag,
            content: Some(Box::new(node_view(content))),
            title: opt_str(title),
            data: opt_data_view(data),
            style: opt_style_view(style),
            lang: None,
        }),
{
    Node::Generic(Box::new(GenericNode { tag, content: Some(content), title, data, style, lang: None }))
}

fn bold_style(style: Option<NodeStyle>) -> (r: NodeStyle)
    ensures
        Some(style_view(r)) == bold(opt_style_view(style)),
{
    let mut s = match style {
        Some(s) => s,
        None => NodeStyle::default(),
    };
    s.font_weight = Some(FontWeight::Bold);
    s
}

fn italic_style(style: Option<NodeStyle>) -> (r: NodeStyle)
    ensures
        Some(style_view(r)) == italic(opt_style_view(style)),
{
    let mut s = match style {
        Some(s) => s,
        None => NodeStyle::default(),
    };
    s.font_style = Some(FontStyle::Italic);
    s
}

/// Converts an html element to structured content.
pub fn element_to_node(el: &HtmlElement) -> (r: Node)
    ensures
        node_view(r) == element_node(*el),
    decreases el,
{
    let mut children: Vec<Node> = Vec::new();
    let n = el.children.len();
    for i in 0..n
        invariant
            n == el.children@.len(),
            nodes_view(children@) == children_views(el.children@.take(i as int)),
    {
        proof {
            assert(el.children@.take(i + 1).drop_last() =~= el.children@.take(i as int));
            assert(el.children@.take(i + 1).last() == el.children@[i as int]);
            assert(decreases_to!(el => el.children));
            assert(decreases_to!(el.children => el.children@));
            assert(decreases_to!(el.children@ => el.children@[i as int]));
        }
        let ghost prev = children@;
        match &el.children[i] {
            HtmlNode::Text(t) => {
                let x = Node::Text(t.clone());
                assert(node_view(x) == NodeView::Text(t@));
                children.push(x);
                assert(children@ == prev.push(x));
                assert(children@.drop_last() =~= prev);
                assert(nodes_view(children@) == nodes_view(prev).push(node_view(x)));
            },
            HtmlNode::Element(e) => {
                let node = element_to_node(e);
                children.push(node);
                assert(children@ == prev.push(node));
                assert(children@.drop_last() =~= prev);
                assert(nodes_view(children@) == nodes_view(prev).push(node_view(node)));
            },
            HtmlNode::Other => {},
        }
    }
    assert(el.children@.take(n as int) =~= el.children@);
    let ghost cv = children_views(el.children@);
    let ghost all_children = children@;
    assert(nodes_view(all_children) == cv);
    proof {
        lemma_nodes_view_len(all_children);
    }
    let content = if children.len() == 1 {
        let c = children.pop().unwrap();
        proof {
            assert(all_children.drop_last() =~= Seq::<Node>::empty());
            assert(all_children.last() == c);
            assert(nodes_view(all_children) == nodes_view(all_children.drop_last()).push(node_view(c)));
            assert(nodes_view(Seq::<Node>::empty()) == Seq::<NodeView>::empty());
            assert(cv[0] == node_view(c));
        }
        c
    } else {
        Node::Array(children)
    };
    let title: Option<String> = match find_attr(&el.attrs, "title") {
        Some(t) => Some(t.to_string()),
        None => None,
    };
    let data: Option<NodeData> = match find_attr(&el.attrs, "class") {
        Some(c) => if !c.is_empty() {
            let d = NodeData::single("class".to_string(), c.to_string());
            assert(d.0@.map_values(|p: (String, String)| (p.0@, p.1@)) =~= seq![("class"@, c@)]);
            Some(d)
        } else {
            None
        },
        None => None,
    };
    let style = extract_styles(el);
    proof {
        let spec_content = if cv.len() == 1 {
            cv[0]
        } else {
            NodeView::Array(cv)
        };
        assert(node_view(content) == spec_content);
        assert(opt_str(title) == attr_of(el.attrs@, "title"@));
        assert(opt_data_view(data) == match attr_of(el.attrs@, "class"@) {
            Some(c) => if c.len() > 0 {
                Some(seq![("class"@, c)])
            } else {
                None
            },
            None => None,
        });
        assert(opt_style_view(style) == styles_of(el.attrs@));
    }
    let name = el.name.as_str();
    if str_eq(name, "span") && find_attr(&el.attrs, "data-root").is_some() {
        content
    } else if str_eq(name, "span") || str_eq(name, "font") {
        generic_node(NTag::Span, content, None, style, data)
    } else if str_eq(name, "div") || str_eq(name, "p") || str_eq(name, "section") {
        generic_node(NTag::Div, content, None, style, data)
    } else if str_eq(name, "ol") {
        generic_node(NTag::Ol, content, None, style, data)
    } else if str_eq(name, "ul") || str_eq(name, "dl") {
        generic_node(NTag::Ul, content, None, style, data)
    } else if str_eq(name, "li") || str_eq(name, "dd") {
        generic_node(NTag::Li, content, None, style, data)
    } else if str_eq(name, "details") {
        generic_node(NTag::Details, content, None, style, data)
    } else if str_eq(name, "summary") {
        generic_node(NTag::Summary, content, None, style, data)
    } else if str_eq(name, "br") {
        Node::LineBreak(Box::new(LineBreakNode { tag: LineBreakNodeTag::Br, content: None }))
    } else if str_eq(name, "b") || str_eq(name, "strong") || str_eq(name, "h1") || str_eq(name, "h2")
        || str_eq(name, "h3") || str_eq(name, "h4") || str_eq(name, "h5") || str_eq(name, "h6") {
        let s = bold_style(style);
        generic_node(NTag::Div, content, title, Some(s), data)
    } else if str_eq(name, "i") || str_eq(name, "em") {
        let s = italic_style(style);
        generic_node(NTag::Span, content, title, Some(s), None)
    } else {
        content
    }
}

/// The structured content of an html fragment.
pub fn html_to_structured_content(html: &str) -> (r: DetailedDefinition)
    ensures
        r matches DetailedDefinition::StructuredContent(sc) && sc.kind == StructuredContentTag::StructuredContent
            && node_view(sc.content) == element_node(parsed_fragment(html@)),
{
    let root = parse_fragment(html);
    DetailedDefinition::StructuredContent(StructuredContent::new(element_to_node(&root)))
}

/// The text of html without its tags: each tag's end leaves a space (not two
/// in a row), and the whole is trimmed.
pub open spec fn strip_html_spec(s: Seq<char>) -> Seq<char> {
    trim_spec(strip_from(s, false, Seq::empty()))
}

/// The text of `s` with tags dropped, after `out`, inside a tag or not.
pub open spec fn strip_from(s: Seq<char>, in_tag: bool, out: Seq<char>) -> Seq<char>
    decreases s.len(),
{
    if s.len() == 0 {
        out
    } else {
        let c = s[0];
        if c == '<' {
            strip_from(s.skip(1), true, out)
        } else if c == '>' {
            strip_from(
                s.skip(1),
                false,
                if out.len() > 0 && out.last() == ' ' {
                    out
                } else {
                    out.push(' ')
                },
            )
        } else if !in_tag {
            strip_from(s.skip(1), in_tag, out.push(c))
        } else {
            strip_from(s.skip(1), in_tag, out)
        }
    }
}

/// The text of html without its tags.
pub fn strip_html(s: &str) -> (r: String)
    ensures
        r@ == strip_html_spec(s@),
{
    let cs = chars_of(s);
    let mut out: Vec<char> = Vec::new();
    let mut in_tag = false;
    let n = cs.len();
    assert(cs@.skip(0) =~= cs@);
    for i in 0..n
        invariant
            n == cs@.len(),
            strip_from(cs@, false, Seq::empty()) == strip_from(cs@.skip(i as int), in_tag, out@),
    {
        let c = cs[i];
        assert(cs@.skip(i as int)[0] == c);
        assert(cs@.skip(i as int).skip(1) =~= cs@.skip(i + 1));
        if c == '<' {
            in_tag = true;
        } else if c == '>' {
            in_tag = false;
            if !(out.len() > 0 && out[out.len() - 1] == ' ') {
                out.push(' ');
            }
        } else if !in_tag {
            out.push(c);
        }
    }
    assert(cs@.skip(n as int) =~= Seq::<char>::empty());
    let t = trim_chars(&out);
    string_of(&t)
}

} // verus!
