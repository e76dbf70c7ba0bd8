//! Rendering Yomitan definitions into html, the way Yomitan's display shows
//! structured content.

use vstd::prelude::*;
use vstd::string::StringExecFns;

use crate::strs::{chars_of, decimal_spec, push_decimal, split_char, split_spec, string_of};
use crate::formats::yomitan::model::{
    group_tag_name, ntag_name, table_tag_name, FontStyle, FontWeight, GenericNode, GroupNode, GroupNodeTag,
    DetailedDefinition, IpaData, IpaTranscription, Node, NodeData, NodeStyle, TableNode, TagBankEntry,
    TermBankEntry, TermMetaBankEntry,
};

verus! {

/// The ` data-sc-key="value"` attributes of a node's data.
pub open spec fn data_pairs_html(pairs: Seq<(String, String)>) -> Seq<char>
    decreases pairs.len(),
{
    if pairs.len() == 0 {
        Seq::empty()
    } else {
        data_pairs_html(pairs.drop_last()) + " data-sc-"@ + pairs.last().0@ + "=\""@ + pairs.last().1@
            + "\""@
    }
}

/// The attributes of an optional node data.
pub open spec fn data_html(d: Option<NodeData>) -> Seq<char> {
    match d {
        Some(NodeData(pairs)) => data_pairs_html(pairs@),
        None => Seq::empty(),
    }
}

/// Appends the attributes of a node's data.
pub fn render_data(d: &Option<NodeData>, out: &mut String)
    ensures
        final(out)@ == old(out)@ + data_html(*d),
{
    if let Some(NodeData(pairs)) = d {
        let ghost start = out@;
        let n = pairs.len();
        for i in 0..n
            invariant
                n == pairs@.len(),
                out@ == start + data_pairs_html(pairs@.subrange(0, i as int)),
        {
            out.append(" data-sc-");
            out.append(pairs[i].0.as_str());
            out.append("=\"");
            out.append(pairs[i].1.as_str());
            out.append("\"");
            assert(pairs@.subrange(0, i + 1).drop_last() =~= pairs@.subrange(0, i as int));
        }
        assert(pairs@.subrange(0, n as int) =~= pairs@);
    }
}

/// The css name of a font style.
pub open spec fn font_style_name(f: FontStyle) -> Seq<char> {
    match f {
        FontStyle::Normal => "normal"@,
        FontStyle::Italic => "italic"@,
    }
}

/// The css name of a font weight.
pub open spec fn font_weight_name(f: FontWeight) -> Seq<char> {
    match f {
        FontWeight::Normal => "normal"@,
        FontWeight::Bold => "bold"@,
    }
}

impl FontStyle {
    /// The css name, as `Display` writes it.
    pub fn as_str(&self) -> (r: &'static str)
        ensures
            r@ == font_style_name(*self),
    {
        match self {
            FontStyle::Normal => "normal",
            FontStyle::Italic => "italic",
        }
    }
}

impl FontWeight {
    /// The css name, as `Display` writes it.
    pub fn as_str(&self) -> (r: &'static str)
        ensures
            r@ == font_weight_name(*self),
    {
        match self {
            FontWeight::Normal => "normal",
            FontWeight::Bold => "bold",
        }
    }
}

/// `name:value;` where the value is present.
pub open spec fn decl(name: Seq<char>, v: Option<Seq<char>>) -> Seq<char> {
    match v {
        Some(v) => name + ":"@ + v + ";"@,
        None => Seq::empty(),
    }
}

/// The view of an optional string.
pub open spec fn opt_str(v: Option<String>) -> Option<Seq<char>> {
    match v {
        Some(s) => Some(s@),
        None => None,
    }
}

/// The declarations of a style, each ending in `;`: color, background color,
/// font weight, font style, list style type, border style, width and color,
/// margin, in that order.
pub open spec fn style_html(s: NodeStyle) -> Seq<char> {
    decl("color"@, opt_str(s.color)) + decl("background-color"@, opt_str(s.background_color))
        + style_tail_html(s) + decl("list-style-type"@, opt_str(s.list_style_type)) + decl(
        "border-style"@,
        opt_str(s.border_style),
    ) + decl("border-width"@, opt_str(s.border_width)) + decl(
        "border-color"@,
        opt_str(s.border_color),
    ) + decl("margin"@, opt_str(s.margin))
}

fn push_decl(out: &mut String, name: &str, v: &Option<String>)
    ensures
        final(out)@ == old(out)@ + decl(name@, opt_str(*v)),
{
    if let Some(v) = v {
        out.append(name);
        out.append(":");
        out.append(v.as_str());
        out.append(";");
    }
}

/// The declarations of a style from the font weight on: the middle of
/// [`style_html`].
pub open spec fn style_tail_html(s: NodeStyle) -> Seq<char> {
    decl(
        "font-weight"@,
        match s.font_weight {
            Some(w) => Some(font_weight_name(w)),
            None => None,
        },
    ) + decl(
        "font-style"@,
        match s.font_style {
            Some(f) => Some(font_style_name(f)),
            None => None,
        },
    )
}

fn push_fonts(out: &mut String, s: &NodeStyle)
    ensures
        final(out)@ == old(out)@ + style_tail_html(*s),
{
    let ghost start = out@;
    if let Some(w) = &s.font_weight {
        out.append("font-weight");
        out.append(":");
        out.append(w.as_str());
        out.append(";");
    }
    assert(out@ =~= start + decl(
        "font-weight"@,
        match s.font_weight {
            Some(w) => Some(font_weight_name(w)),
            None => None,
        },
    ));
    if let Some(f) = &s.font_style {
        out.append("font-style");
        out.append(":");
        out.append(f.as_str());
        out.append(";");
    }
    assert(out@ =~= start + style_tail_html(*s));
}

/// Appends the declarations of a style.
pub fn render_style(s: &NodeStyle, out: &mut String)
    ensures
        final(out)@ == old(out)@ + style_html(*s),
{
    let ghost start = out@;
    push_decl(out, "color", &s.color);
    push_decl(out, "background-color", &s.background_color);
    push_fonts(out, s);
    push_decl(out, "list-style-type", &s.list_style_type);
    push_decl(out, "border-style", &s.border_style);
    push_decl(out, "border-width", &s.border_width);
    push_decl(out, "border-color", &s.border_color);
    push_decl(out, "margin", &s.margin);
    assert(out@ =~= start + style_html(*s));
}

/// An open tag's start, `<tag class="gloss-sc-tag"`.
pub open spec fn open_tag(tag: Seq<char>) -> Seq<char> {
    "<"@ + tag + " class=\"gloss-sc-"@ + tag + "\""@
}

/// A closing tag.
pub open spec fn close_tag(tag: Seq<char>) -> Seq<char> {
    "</"@ + tag + ">"@
}

/// The ` title="…"` attribute, where there is a title.
pub open spec fn title_html(t: Option<String>) -> Seq<char> {
    match t {
        Some(t) => " title=\""@ + t@ + "\""@,
        None => Seq::empty(),
    }
}

/// The ` style='…'` attribute, where the style renders to anything.
pub open spec fn style_attr_html(s: Option<NodeStyle>) -> Seq<char> {
    match s {
        Some(s) => if style_html(s).len() > 0 {
            " style='"@ + style_html(s) + "'"@
        } else {
            Seq::empty()
        },
        None => Seq::empty(),
    }
}

/// A numeric attribute, where the number is present.
pub open spec fn num_attr_html(name: Seq<char>, v: Option<u32>) -> Seq<char> {
    match v {
        Some(n) => " "@ + name + "=\""@ + decimal_spec(n as nat) + "\""@,
        None => Seq::empty(),
    }
}

/// The html of a structured content node.
pub open spec fn node_html(n: Node) -> Seq<char>
    decreases n,
{
    match n {
        Node::Text(t) => t@,
        Node::Array(v) => nodes_html(v@),
        Node::LineBreak(b) => "<br>"@ + match b.content {
            Some(c) => node_html(c),
            None => Seq::empty(),
        },
        Node::Group(g) => {
            let tag = group_tag_name(g.tag);
            let inner = open_tag(tag) + data_html(g.data) + ">"@ + match g.content {
                Some(c) => node_html(c),
                None => Seq::empty(),
            } + close_tag(tag);
            if g.tag == GroupNodeTag::Table {
                "<div class=\"gloss-sc-table-container\">"@ + inner + "</div>"@
            } else {
                inner
            }
        },
        Node::Generic(g) => {
            let tag = ntag_name(g.tag);
            open_tag(tag) + data_html(g.data) + title_html(g.title) + style_attr_html(g.style) + ">"@
                + match g.content {
                Some(c) => node_html(c),
                None => Seq::empty(),
            } + close_tag(tag)
        },
        Node::Table(t) => {
            let tag = table_tag_name(t.tag);
            open_tag(tag) + data_html(t.data) + num_attr_html("colspan"@, t.col_span) + num_attr_html(
                "rowspan"@,
                t.row_span,
            ) + ">"@ + match t.content {
                Some(c) => node_html(c),
                None => Seq::empty(),
            } + close_tag(tag)
        },
        Node::Image(_) => Seq::empty(),
        Node::Backlink(b) => "<a class=gloss-link href=\""@ + b.href@ + "\">"@ + match b.content {
            Some(c) => node_html(c),
            None => Seq::empty(),
        } + "</a>"@,
    }
}

/// The html of a list of nodes, one after another.
pub open spec fn nodes_html(v: Seq<Node>) -> Seq<char>
    decreases v,
{
    if v.len() == 0 {
        Seq::empty()
    } else {
        nodes_html(v.drop_last()) + node_html(v.last())
    }
}

fn render_opt_node(n: &Option<Node>, out: &mut String)
    ensures
        final(out)@ == old(out)@ + match *n {
            Some(c) => node_html(c),
            None => Seq::empty(),
        },
    decreases n, 1nat,
{
    if let Some(c) = n {
        render_node(c, out);
    }
}

fn push_open_tag(out: &mut String, tag: &str)
    ensures
        final(out)@ == old(out)@ + open_tag(tag@),
{
    out.append("<");
    out.append(tag);
    out.append(" class=\"gloss-sc-");
    out.append(tag);
    out.append("\"");
}

fn push_close_tag(out: &mut String, tag: &str)
    ensures
        final(out)@ == old(out)@ + close_tag(tag@),
{
    out.append("</");
    out.append(tag);
    out.append(">");
}

fn push_num_attr(out: &mut String, name: &str, v: Option<u32>)
    ensures
        final(out)@ == old(out)@ + num_attr_html(name@, v),
{
    if let Some(n) = v {
        out.append(" ");
        out.append(name);
        out.append("=\"");
        push_decimal(out, n as u64);
        out.append("\"");
    }
}

fn push_title(out: &mut String, t: &Option<String>)
    ensures
        final(out)@ == old(out)@ + title_html(*t),
{
    if let Some(t) = t {
        out.append(" title=\"");
        out.append(t.as_str());
        out.append("\"");
    }
}

fn push_style_attr(out: &mut String, s: &Option<NodeStyle>)
    ensures
        final(out)@ == old(out)@ + style_attr_html(*s),
{
    if let Some(s) = s {
        let mut rendered = String::new();
        render_style(s, &mut rendered);
        if !rendered.as_str().is_empty() {
            out.append(" style='");
            out.append(rendered.as_str());
            out.append("'");
        }
    }
}

fn render_group(g: &GroupNode, out: &mut String)
    ensures
        final(out)@ == old(out)@ + node_html(Node::Group(Box::new(*g))),
    decreases g, 1nat,
{
    let ghost start = out@;
    let tag = g.tag.as_str();
    let table = match g.tag {
        GroupNodeTag::Table => true,
        _ => false,
    };
    if table {
        out.append("<div class=\"gloss-sc-table-container\">");
    }
    push_open_tag(out, tag);
    render_data(&g.data, out);
    out.append(">");
    render_opt_node(&g.content, out);
    push_close_tag(out, tag);
    if table {
        out.append("</div>");
    }
    assert(out@ =~= start + node_html(Node::Group(Box::new(*g))));
}

fn render_generic(g: &GenericNode, out: &mut String)
    ensures
        final(out)@ == old(out)@ + node_html(Node::Generic(Box::new(*g))),
    decreases g, 1nat,
{
    let ghost start = out@;
    let tag = g.tag.as_str();
    push_open_tag(out, tag);
    render_data(&g.data, out);
    push_title(out, &g.title);
    push_style_attr(out, &g.style);
    out.append(">");
    render_opt_node(&g.content, out);
    push_close_tag(out, tag);
    assert(out@ =~= start + node_html(Node::Generic(Box::new(*g))));
}

fn render_table(t: &TableNode, out: &mut String)
    ensures
        final(out)@ == old(out)@ + node_html(Node::Table(Box::new(*t))),
    decreases t, 1nat,
{
    let ghost start = out@;
    let tag = t.tag.as_str();
    push_open_tag(out, tag);
    render_data(&t.data, out);
    push_num_attr(out, "colspan", t.col_span);
    push_num_attr(out, "rowspan", t.row_span);
    out.append(">");
    render_opt_node(&t.content, out);
    push_close_tag(out, tag);
    assert(out@ =~= start + node_html(Node::Table(Box::new(*t))));
}

fn render_nodes(v: &Vec<Node>, out: &mut String)
    ensures
        final(out)@ == old(out)@ + nodes_html(v@),
    decreases v, 1nat,
{
    let ghost start = out@;
    let len = v.len();
    for i in 0..len
        invariant
            len == v@.len(),
            out@ == start + nodes_html(v@.subrange(0, i as int)),
    {
        proof {
            assert(decreases_to!(v => v@));
            assert(decreases_to!(v@ => v@[i as int]));
        }
        render_node(&v[i], out);
        assert(v@.subrange(0, i + 1).drop_last() =~= v@.subrange(0, i as int));
    }
    assert(v@.subrange(0, len as int) =~= v@);
}

/// Appends the html of a structured content node.
pub fn render_node(n: &Node, out: &mut String)
    ensures
        final(out)@ == old(out)@ + node_html(*n),
    decreases n, 0nat,
{
    match n {
        Node::Text(t) => {
            out.append(t.as_str());
        },
        Node::Array(v) => {
            render_nodes(v, out);
        },
        Node::LineBreak(b) => {
            out.append("<br>");
            render_opt_node(&b.content, out);
        },
        Node::Group(g) => {
            render_group(g, out);
        },
        Node::Generic(g) => {
            render_generic(g, out);
        },
        Node::Table(t) => {
            render_table(t, out);
        },
        Node::Image(_) => {},
        Node::Backlink(b) => {
            let ghost start = out@;
            out.append("<a class=gloss-link href=\"");
            out.append(b.href.as_str());
            out.append("\">");
            render_opt_node(&b.content, out);
            out.append("</a>");
            assert(out@ =~= start + node_html(*n));
        },
    }
}

/// `strs` joined by `, `.
pub open spec fn comma_join(strs: Seq<String>) -> Seq<char>
    decreases strs.len(),
{
    if strs.len() == 0 {
        Seq::empty()
    } else if strs.len() == 1 {
        strs[0]@
    } else {
        comma_join(strs.drop_last()) + ", "@ + strs.last()@
    }
}

/// Appends `strs` joined by `, `.
pub fn push_comma_joined(out: &mut String, strs: &Vec<String>)
    ensures
        final(out)@ == old(out)@ + comma_join(strs@),
{
    let ghost start = out@;
    let n = strs.len();
    for i in 0..n
        invariant
            n == strs@.len(),
            out@ == start + comma_join(strs@.subrange(0, i as int)),
    {
        if i > 0 {
            out.append(", ");
        }
        out.append(strs[i].as_str());
        proof {
            let sub = strs@.subrange(0, i + 1);
            assert(sub.drop_last() =~= strs@.subrange(0, i as int));
            if i == 0 {
                assert(strs@.subrange(0, 0) =~= Seq::<String>::empty());
            }
        }
        assert(out@ =~= start + comma_join(strs@.subrange(0, i + 1)));
    }
    assert(strs@.subrange(0, n as int) =~= strs@);
}

/// The html of one definition of a term bank entry.
pub open spec fn definition_html(d: DetailedDefinition) -> Seq<char> {
    match d {
        DetailedDefinition::String(s) => s@,
        DetailedDefinition::Text(t) => t.text@,
        DetailedDefinition::StructuredContent(sc) => "<span class=\"gloss-content structured-content\">"@
            + node_html(sc.content) + "</span>"@,
        DetailedDefinition::Image(_) => Seq::empty(),
        DetailedDefinition::Inflection(term, rules) => "<b>"@ + term@ + "</b>: "@ + comma_join(rules@),
    }
}

/// Appends the html of one definition of a term bank entry.
pub fn render_definition(d: &DetailedDefinition, out: &mut String)
    ensures
        final(out)@ == old(out)@ + definition_html(*d),
{
    let ghost start = out@;
    match d {
        DetailedDefinition::String(s) => {
            out.append(s.as_str());
        },
        DetailedDefinition::Text(t) => {
            out.append(t.text.as_str());
        },
        DetailedDefinition::StructuredContent(sc) => {
            out.append("<span class=\"gloss-content structured-content\">");
            render_node(&sc.content, out);
            out.append("</span>");
        },
        DetailedDefinition::Image(_) => {},
        DetailedDefinition::Inflection(term, rules) => {
            out.append("<b>");
            out.append(term.as_str());
            out.append("</b>: ");
            push_comma_joined(out, rules);
        },
    }
    assert(out@ =~= start + definition_html(*d));
}

/// The headword: the term with its reading above it.
pub open spec fn headword_html(term: Seq<char>, reading: Seq<char>) -> Seq<char> {
    "<div class=\"headword\"><span class=\"headword-term\"><ruby>"@ + term + "<rt>"@ + reading
        + "</rt></ruby></span></div>"@
}

/// Appends the headword of an entry.
pub fn render_headword(out: &mut String, term: &str, reading: &str)
    ensures
        final(out)@ == old(out)@ + headword_html(term@, reading@),
{
    let ghost start = out@;
    out.append("<div class=\"headword\"><span class=\"headword-term\"><ruby>");
    out.append(term);
    out.append("<rt>");
    out.append(reading);
    out.append("</rt></ruby></span></div>");
    assert(out@ =~= start + headword_html(term@, reading@));
}

/// The index of the first tag of the bank whose short name is `tag`.
pub open spec fn tag_lookup(bank: Seq<TagBankEntry>, tag: Seq<char>) -> Option<int>
    decreases bank.len(),
{
    if bank.len() == 0 {
        None
    } else if bank[0].short_tag@ == tag {
        Some(0)
    } else {
        match tag_lookup(bank.skip(1), tag) {
            Some(i) => Some(i + 1),
            None => None,
        }
    }
}

/// What a tag is ordered by: its bank entry's sort order, or `i32::MAX` for a
/// tag the bank does not hold.
pub open spec fn tag_key(bank: Seq<TagBankEntry>, tag: Seq<char>) -> int {
    match tag_lookup(bank, tag) {
        Some(i) => bank[i].sort_order as int,
        None => i32::MAX as int,
    }
}

/// Where a tag of key `k` goes in a list sorted by key, after those of equal key.
pub open spec fn insert_pos(sorted: Seq<Seq<char>>, bank: Seq<TagBankEntry>, k: int) -> int
    decreases sorted.len(),
{
    if sorted.len() == 0 || tag_key(bank, sorted[0]) > k {
        0
    } else {
        1 + insert_pos(sorted.skip(1), bank, k)
    }
}

/// The tags in a stable sort by key: each one goes after those before it of
/// an equal or lower key.
pub open spec fn sort_tags(tags: Seq<Seq<char>>, bank: Seq<TagBankEntry>) -> Seq<Seq<char>>
    decreases tags.len(),
{
    if tags.len() == 0 {
        Seq::empty()
    } else {
        let sorted = sort_tags(tags.drop_last(), bank);
        let p = insert_pos(sorted, bank, tag_key(bank, tags.last()));
        sorted.take(p) + seq![tags.last()] + sorted.skip(p)
    }
}

/// The tags of `tags` whose key is `k`, in their order.
pub open spec fn tags_keyed(tags: Seq<Seq<char>>, bank: Seq<TagBankEntry>, k: int) -> Seq<Seq<char>> {
    tags.filter(|t: Seq<char>| tag_key(bank, t) == k)
}

/// A list is in order of key.
pub open spec fn keys_ascend(tags: Seq<Seq<char>>, bank: Seq<TagBankEntry>) -> bool {
    forall|i: int, j: int|
        0 <= i < j < tags.len() ==> tag_key(bank, #[trigger] tags[i]) <= tag_key(bank, #[trigger] tags[j])
}

proof fn lemma_insert_pos_splits(sorted: Seq<Seq<char>>, bank: Seq<TagBankEntry>, k: int)
    requires
        keys_ascend(sorted, bank),
    ensures
        0 <= insert_pos(sorted, bank, k) <= sorted.len(),
        forall|i: int| 0 <= i < insert_pos(sorted, bank, k) ==> tag_key(bank, #[trigger] sorted[i]) <= k,
        forall|i: int|
            insert_pos(sorted, bank, k) <= i < sorted.len() ==> tag_key(bank, #[trigger] sorted[i]) > k,
    decreases sorted.len(),
{
    if sorted.len() == 0 {
    } else if tag_key(bank, sorted[0]) > k {
        assert forall|i: int| 0 <= i < sorted.len() implies tag_key(bank, #[trigger] sorted[i]) > k by {
            if i > 0 {
                assert(tag_key(bank, sorted[0]) <= tag_key(bank, sorted[i]));
            }
        }
    } else {
        let rest = sorted.skip(1);
        assert forall|i: int, j: int| 0 <= i < j < rest.len() implies tag_key(bank, #[trigger] rest[i])
            <= tag_key(bank, #[trigger] rest[j]) by {
            assert(rest[i] == sorted[i + 1] && rest[j] == sorted[j + 1]);
        }
        lemma_insert_pos_splits(rest, bank, k);
        assert forall|i: int| 1 <= i < sorted.len() implies #[trigger] sorted[i] == rest[i - 1] by {}
    }
}

/// The tags of a definition are rendered in a stable sort by key: the result
/// is in order of key, and the tags of any one key come out in the order
/// they were written, none lost or added.
pub proof fn lemma_sort_tags_stable(tags: Seq<Seq<char>>, bank: Seq<TagBankEntry>)
    ensures
        sort_tags(tags, bank).len() == tags.len(),
        keys_ascend(sort_tags(tags, bank), bank),
        forall|k: int| #[trigger] tags_keyed(sort_tags(tags, bank), bank, k) == tags_keyed(tags, bank, k),
    decreases tags.len(),
{
    if tags.len() == 0 {
        assert forall|k: int| #[trigger] tags_keyed(sort_tags(tags, bank), bank, k) == tags_keyed(tags, bank, k) by {
            assert(sort_tags(tags, bank) =~= tags);
        }
    } else {
        let init = tags.drop_last();
        let x = tags.last();
        let kx = tag_key(bank, x);
        let sorted = sort_tags(init, bank);
        lemma_sort_tags_stable(init, bank);
        lemma_insert_pos_splits(sorted, bank, kx);
        let p = insert_pos(sorted, bank, kx);
        let lo = sorted.take(p);
        let hi = sorted.skip(p);
        let r = sort_tags(tags, bank);
        assert(r == lo + seq![x] + hi);
        assert(sorted =~= lo + hi);
        assert forall|i: int, j: int| 0 <= i < j < r.len() implies tag_key(bank, #[trigger] r[i])
            <= tag_key(bank, #[trigger] r[j]) by {
            if j < p {
                assert(r[i] == sorted[i] && r[j] == sorted[j]);
            } else if j == p {
                assert(r[i] == sorted[i] && r[j] == x);
            } else if i < p {
                assert(r[i] == sorted[i] && r[j] == sorted[j - 1]);
            } else if i == p {
                assert(r[i] == x && r[j] == sorted[j - 1]);
            } else {
                assert(r[i] == sorted[i - 1] && r[j] == sorted[j - 1]);
            }
        }
        assert forall|k: int| #[trigger] tags_keyed(r, bank, k) == tags_keyed(tags, bank, k) by {
            let f = |t: Seq<char>| tag_key(bank, t) == k;
            assert(tags_keyed(r, bank, k) == r.filter(f));
            assert(tags_keyed(tags, bank, k) == tags.filter(f));
            assert(tags_keyed(sorted, bank, k) == sorted.filter(f));
            assert(tags_keyed(init, bank, k) == init.filter(f));
            Seq::filter_distributes_over_add(lo + seq![x], hi, f);
            Seq::filter_distributes_over_add(lo, seq![x], f);
            Seq::filter_distributes_over_add(lo, hi, f);
            reveal(Seq::filter);
            assert(tags.filter(f) == if f(x) { init.filter(f).push(x) } else { init.filter(f) });
            assert(seq![x].drop_last() =~= Seq::<Seq<char>>::empty());
            assert(Seq::<Seq<char>>::empty().filter(f) =~= Seq::<Seq<char>>::empty());
            if k == kx {
                assert forall|i: int| 0 <= i < hi.len() implies !f(#[trigger] hi[i]) by {
                    assert(hi[i] == sorted[p + i]);
                }
                hi.lemma_all_neg_filter_empty(f);
                assert(seq![x].filter(f) =~= seq![x]);
                assert(r.filter(f) =~= init.filter(f).push(x));
            } else {
                assert(seq![x].filter(f) =~= Seq::<Seq<char>>::empty());
                assert(r.filter(f) =~= sorted.filter(f));
            }
        }
    }
}

/// The html of one tag.
pub open spec fn tag_html(bank: Seq<TagBankEntry>, tag: Seq<char>) -> Seq<char> {
    "<span class=\"tag\""@ + match tag_lookup(bank, tag) {
        Some(i) => (if bank[i].category@.len() > 0 {
            " data-category=\""@ + bank[i].category@ + "\""@
        } else {
            Seq::empty()
        }) + " title=\""@ + bank[i].long_tag@ + "\""@,
        None => Seq::empty(),
    } + "><span class=\"tag-label\"><span class=\"tag-label-content\">"@ + tag
        + "</span></span></span>"@
}

/// The html of a list of tags, one after another.
pub open spec fn tags_html(bank: Seq<TagBankEntry>, tags: Seq<Seq<char>>) -> Seq<char>
    decreases tags.len(),
{
    if tags.len() == 0 {
        Seq::empty()
    } else {
        tags_html(bank, tags.drop_last()) + tag_html(bank, tags.last())
    }
}

/// The tag list of a definition: its space-separated tags, sorted by the
/// bank's sort order (tags it does not know last), or nothing for no tags.
pub open spec fn definition_tags_html(s: Seq<char>, bank: Seq<TagBankEntry>) -> Seq<char> {
    if s.len() == 0 {
        Seq::empty()
    } else {
        "<div class=\"definition-tag-list\">"@ + tags_html(bank, sort_tags(split_spec(s, ' '), bank))
            + "</div>"@
    }
}

fn find_tag(bank: &[TagBankEntry], tag: &[char]) -> (r: Option<usize>)
    ensures
        match r {
            Some(i) => tag_lookup(bank@, tag@) == Some(i as int) && i < bank@.len(),
            None => tag_lookup(bank@, tag@) is None,
        },
{
    let n = bank.len();
    let ghost t = tag@;
    let mut i: usize = 0;
    assert(bank@.skip(0) =~= bank@);
    while i < n
        invariant
            n == bank@.len(),
            t == tag@,
            i <= n,
            tag_lookup(bank@, t) == match tag_lookup(bank@.skip(i as int), t) {
                Some(j) => Some(j + i),
                None => None,
            },
        decreases n - i,
    {
        let short = chars_of(bank[i].short_tag.as_str());
        let ghost rest = bank@.skip(i as int);
        assert(rest[0] == bank@[i as int]);
        assert(rest.skip(1) =~= bank@.skip(i + 1));
        assert(rest.len() > 0);
        assert(short@ == rest[0].short_tag@);
        if chars_eq(&short, tag) {
            assert(rest[0].short_tag@ == t);
            assert(tag_lookup(rest, t) == Some(0int));
            return Some(i);
        }
        assert(rest[0].short_tag@ != t);
        assert(tag_lookup(rest, t) == match tag_lookup(rest.skip(1), t) {
            Some(j) => Some(j + 1),
            None => None,
        });
        i = i + 1;
    }
    assert(bank@.skip(n as int).len() == 0);
    None
}

fn chars_eq(a: &[char], b: &[char]) -> (r: bool)
    ensures
        r == (a@ == b@),
{
    if a.len() != b.len() {
        return false;
    }
    let n = a.len();
    for i in 0..n
        invariant
            n == a@.len(),
            n == b@.len(),
            forall|j: int| 0 <= j < i ==> a@[j] == b@[j],
    {
        if a[i] != b[i] {
            return false;
        }
    }
    assert(a@ =~= b@);
    true
}

fn key_of(bank: &[TagBankEntry], found: Option<usize>) -> (k: i32)
    requires
        found matches Some(i) ==> i < bank@.len(),
    ensures
        k as int == match found {
            Some(i) => bank@[i as int].sort_order as int,
            None => i32::MAX as int,
        },
{
    match found {
        Some(i) => bank[i].sort_order,
        None => i32::MAX,
    }
}

fn push_tag(out: &mut String, bank: &[TagBankEntry], tag: &[char], found: Option<usize>)
    requires
        match found {
            Some(i) => tag_lookup(bank@, tag@) == Some(i as int) && i < bank@.len(),
            None => tag_lookup(bank@, tag@) is None,
        },
    ensures
        final(out)@ == old(out)@ + tag_html(bank@, tag@),
{
    let ghost start = out@;
    out.append("<span class=\"tag\"");
    if let Some(i) = found {
        let t = &bank[i];
        if !t.category.as_str().is_empty() {
            out.append(" data-category=\"");
            out.append(t.category.as_str());
            out.append("\"");
        }
        out.append(" title=\"");
        out.append(t.long_tag.as_str());
        out.append("\"");
    }
    out.append("><span class=\"tag-label\"><span class=\"tag-label-content\">");
    let ts = string_of(tag);
    out.append(ts.as_str());
    out.append("</span></span></span>");
    assert(out@ =~= start + tag_html(bank@, tag@));
}

/// The tags (and where each is found in the bank) of a list sorted as
/// [`sort_tags`] sorts.
spec fn tag_items_ok(items: Seq<(Vec<char>, Option<usize>)>, bank: Seq<TagBankEntry>) -> bool {
    forall|j: int|
        0 <= j < items.len() ==> match (#[trigger] items[j]).1 {
            Some(i) => tag_lookup(bank, items[j].0@) == Some(i as int) && i < bank.len(),
            None => tag_lookup(bank, items[j].0@) is None,
        }
}

spec fn item_tags(items: Seq<(Vec<char>, Option<usize>)>) -> Seq<Seq<char>> {
    items.map_values(|x: (Vec<char>, Option<usize>)| x.0@)
}

/// Appends the tag list of a definition.
pub fn render_definition_tags(out: &mut String, s: &str, tag_bank: &[TagBankEntry])
    ensures
        final(out)@ == old(out)@ + definition_tags_html(s@, tag_bank@),
{
    if s.is_empty() {
        return;
    }
    let ghost start = out@;
    let ghost bank = tag_bank@;
    let cs = chars_of(s);
    let pieces = split_char(&cs, ' ');
    let ghost tags = split_spec(s@, ' ');
    assert(tags.len() == pieces@.len());
    let mut sorted: Vec<(Vec<char>, Option<usize>)> = Vec::new();
    let n = pieces.len();
    for i in 0..n
        invariant
            n == pieces@.len(),
            tags == split_spec(s@, ' '),
            n == tags.len(),
            bank == tag_bank@,
            forall|j: int| 0 <= j < n ==> #[trigger] pieces@[j]@ == tags[j],
            tag_items_ok(sorted@, bank),
            item_tags(sorted@) == sort_tags(tags.take(i as int), bank),
    {
        let tag = pieces[i].clone();
        let found = find_tag(tag_bank, &tag);
        let k = key_of(tag_bank, found);
        let ghost before = sorted@;
        let ghost bt = item_tags(before);
        proof {
            assert(tags.take(i + 1).drop_last() =~= tags.take(i as int));
            assert(tags.take(i + 1).last() == tag@);
        }
        let mut p: usize = 0;
        assert(bt.skip(0) =~= bt);
        while p < sorted.len() && key_of(tag_bank, sorted[p].1) <= k
            invariant
                p <= sorted@.len(),
                sorted@ == before,
                bt == item_tags(before),
                tag_items_ok(sorted@, bank),
                bank == tag_bank@,
                k as int == tag_key(bank, tag@),
                insert_pos(bt, bank, k as int) == p + insert_pos(bt.skip(p as int), bank, k as int),
            decreases sorted@.len() - p,
        {
            proof {
                let rest = bt.skip(p as int);
                assert(rest[0] == bt[p as int]);
                assert(rest.skip(1) =~= bt.skip(p + 1));
                assert(tag_items_ok(sorted@, bank));
                let it = sorted@[p as int];
            }
            p = p + 1;
        }
        proof {
            let rest = bt.skip(p as int);
            if p < sorted@.len() {
                assert(rest[0] == bt[p as int]);
                let it = sorted@[p as int];
            }
            assert(insert_pos(rest, bank, k as int) == 0);
        }
        sorted.insert(p, (tag, found));
        proof {
            assert(item_tags(sorted@) =~= bt.take(p as int) + seq![tags.take(i + 1).last()] + bt.skip(
                p as int,
            ));
            assert forall|j: int| 0 <= j < sorted@.len() implies match (#[trigger] sorted@[j]).1 {
                Some(x) => tag_lookup(bank, sorted@[j].0@) == Some(x as int) && x < bank.len(),
                None => tag_lookup(bank, sorted@[j].0@) is None,
            } by {
                if j < p {
                    assert(sorted@[j] == before[j]);
                } else if j > p {
                    assert(sorted@[j] == before[j - 1]);
                }
            }
        }
    }
    assert(tags.take(n as int) =~= tags);
    out.append("<div class=\"definition-tag-list\">");
    let ghost mid = out@;
    let m = sorted.len();
    for j in 0..m
        invariant
            m == sorted@.len(),
            bank == tag_bank@,
            tag_items_ok(sorted@, bank),
            out@ == mid + tags_html(bank, item_tags(sorted@).take(j as int)),
    {
        let ghost prev = out@;
        assert(tag_items_ok(sorted@, bank) ==> match sorted@[j as int].1 {
            Some(x) => tag_lookup(bank, sorted@[j as int].0@) == Some(x as int) && x < bank.len(),
            None => tag_lookup(bank, sorted@[j as int].0@) is None,
        });
        push_tag(out, tag_bank, sorted[j].0.as_slice(), sorted[j].1);
        proof {
            let it = item_tags(sorted@);
            assert(it.take(j + 1).drop_last() =~= it.take(j as int));
            assert(it.take(j + 1).last() == sorted@[j as int].0@);
        }
    }
    assert(item_tags(sorted@).take(m as int) =~= item_tags(sorted@));
    out.append("</div>");
    assert(out@ =~= start + definition_tags_html(s@, tag_bank@));
}

/// The definitions as list items, one after another.
pub open spec fn list_items_html(defs: Seq<DetailedDefinition>) -> Seq<char>
    decreases defs.len(),
{
    if defs.len() == 0 {
        Seq::empty()
    } else {
        list_items_html(defs.drop_last()) + "<li>"@ + definition_html(defs.last()) + "</li>"@
    }
}

/// The html of a term bank entry: its headword, its definition tags, then its
/// one definition, or its definitions as an ordered list.
pub open spec fn term_entry_html(e: TermBankEntry, bank: Seq<TagBankEntry>) -> Seq<char> {
    "<div class=\"entry\">"@ + headword_html(e.term@, e.reading@)
        + "<div class=\"entry-body\"><div class=\"definition-item-content\">"@ + definition_tags_html(
        e.definition_tags@,
        bank,
    ) + (if e.definitions@.len() == 1 {
        definition_html(e.definitions@[0])
    } else {
        "<ol>"@ + list_items_html(e.definitions@) + "</ol>"@
    }) + "</div></div></div>"@
}

impl TermBankEntry {
    /// The html of this entry, its tags resolved in `tag_bank`.
    pub fn to_html(&self, tag_bank: &[TagBankEntry]) -> (r: String)
        ensures
            r@ == term_entry_html(*self, tag_bank@),
    {
        let mut out = String::new();
        self.write_html(tag_bank, &mut out);
        out
    }

    /// Appends the html of this entry, its tags resolved in `tag_bank`.
    pub fn write_html(&self, tag_bank: &[TagBankEntry], out: &mut String)
        ensures
            final(out)@ == old(out)@ + term_entry_html(*self, tag_bank@),
    {
        let ghost start = out@;
        out.append("<div class=\"entry\">");
        render_headword(out, self.term.as_str(), self.reading.as_str());
        out.append("<div class=\"entry-body\"><div class=\"definition-item-content\">");
        render_definition_tags(out, self.definition_tags.as_str(), tag_bank);
        let ghost mid = out@;
        let n = self.definitions.len();
        if n == 1 {
            render_definition(&self.definitions[0], out);
        } else {
            out.append("<ol>");
            let ghost list_start = out@;
            for i in 0..n
                invariant
                    n == self.definitions@.len(),
                    out@ == list_start + list_items_html(self.definitions@.take(i as int)),
            {
                out.append("<li>");
                render_definition(&self.definitions[i], out);
                out.append("</li>");
                assert(self.definitions@.take(i + 1).drop_last() =~= self.definitions@.take(i as int));
                assert(out@ =~= list_start + list_items_html(self.definitions@.take(i + 1)));
            }
            assert(self.definitions@.take(n as int) =~= self.definitions@);
            out.append("</ol>");
        }
        out.append("</div></div></div>");
        assert(out@ =~= start + term_entry_html(*self, tag_bank@));
    }
}

/// The tags of an ipa transcription.
pub open spec fn ipa_tags_html(tags: Option<Vec<String>>) -> Seq<char> {
    match tags {
        Some(t) => " <span class=\"tags\">"@ + comma_join(t@) + "</span>"@,
        None => Seq::empty(),
    }
}

/// The html of one ipa transcription.
pub open spec fn transcription_html(t: IpaTranscription) -> Seq<char> {
    "<div class=\"ipa-item\"><span class=\"ipa\">/"@ + t.ipa@ + "/</span>"@ + ipa_tags_html(t.tags)
        + "</div>"@
}

/// The html of ipa transcriptions, one after another.
pub open spec fn transcriptions_html(ts: Seq<IpaTranscription>) -> Seq<char>
    decreases ts.len(),
{
    if ts.len() == 0 {
        Seq::empty()
    } else {
        transcriptions_html(ts.drop_last()) + transcription_html(ts.last())
    }
}

/// The html of ipa data: the reading, then each transcription.
pub open spec fn ipa_html(d: IpaData) -> Seq<char> {
    "<div class=\"ipa-block\"><div class=\"reading\">"@ + d.reading@ + "</div>"@ + transcriptions_html(
        d.transcriptions@,
    ) + "</div>"@
}

/// The html of a term meta bank entry that holds ipa.
pub open spec fn term_meta_html(e: TermMetaBankEntry) -> Seq<char> {
    match e {
        TermMetaBankEntry::Ipa(term, _, data) => "<div class=\"entry\">"@ + term@ + ipa_html(data)
            + "</div>"@,
        _ => Seq::empty(),
    }
}

fn render_transcription(t: &IpaTranscription, out: &mut String)
    ensures
        final(out)@ == old(out)@ + transcription_html(*t),
{
    let ghost start = out@;
    out.append("<div class=\"ipa-item\"><span class=\"ipa\">/");
    out.append(t.ipa.as_str());
    out.append("/</span>");
    if let Some(tags) = &t.tags {
        out.append(" <span class=\"tags\">");
        push_comma_joined(out, tags);
        out.append("</span>");
    }
    out.append("</div>");
    assert(out@ =~= start + transcription_html(*t));
}

/// Appends the html of ipa data.
pub fn render_ipa(d: &IpaData, out: &mut String)
    ensures
        final(out)@ == old(out)@ + ipa_html(*d),
{
    let ghost start = out@;
    out.append("<div class=\"ipa-block\"><div class=\"reading\">");
    out.append(d.reading.as_str());
    out.append("</div>");
    let ghost mid = out@;
    let n = d.transcriptions.len();
    for i in 0..n
        invariant
            n == d.transcriptions@.len(),
            out@ == mid + transcriptions_html(d.transcriptions@.take(i as int)),
    {
        render_transcription(&d.transcriptions[i], out);
        assert(d.transcriptions@.take(i + 1).drop_last() =~= d.transcriptions@.take(i as int));
    }
    assert(d.transcriptions@.take(n as int) =~= d.transcriptions@);
    out.append("</div>");
    assert(out@ =~= start + ipa_html(*d));
}

impl TermMetaBankEntry {
    /// The html of this entry. Only ipa entries render; frequencies and
    /// pitches have no html.
    pub fn to_html(&self) -> (r: String)
        requires
            self is Ipa,
        ensures
            r@ == term_meta_html(*self),
    {
        let mut out = String::new();
        if let TermMetaBankEntry::Ipa(term, _, data) = self {
            out.append("<div class=\"entry\">");
            out.append(term.as_str());
            render_ipa(data, &mut out);
            out.append("</div>");
        }
        assert(out@ =~= term_meta_html(*self));
        out
    }
}

} // verus!
