//! A directory of html pages a browser can read: the entries split into
//! pages of about 100KB, a search index and an info page.

use vstd::prelude::*;
use vstd::string::StringExecFns;

use crate::formats::stardict::reader::entries_view;
use crate::glossary::conversion::{all_renderable, css_names, glossary_bank, glossary_links, lemma_links_of_names, links_html, HtmlConverter};
use crate::glossary::data_entry::{extension_of, path_extension};
use crate::glossary::definition::{bank_or_empty, definition_to_html, renderable};
use crate::glossary::entry::{join_spec, terms_list, utf8_of, EntryView, TERM_SEPARATOR};
use crate::glossary::glossary_info::{info_get, pairs_view};
use crate::glossary::{Glossary};
use crate::strs::{char_is_alphanumeric, chars_of, decimal_spec, is_unicode_alphanumeric, is_unicode_lowercase_of, push_decimal, replace_all, replace_spec, str_eq, string_of, to_lowercase};

verus! {

/// The html directory format.
pub struct HtmlFormat;

/// The title and description shown on the pages.
pub struct HtmlInfo {
    pub title: String,
    pub description: String,
}

impl HtmlInfo {
    /// The info of a title and a description.
    pub fn new(title: String, description: String) -> (r: Self)
        ensures
            r.title == title,
            r.description == description,
    {
        Self { title, description }
    }
}

/// A page holds entries until it would grow past this many bytes.
pub const MAX_FILE_SIZE: usize = 102400;

/// The anchor of a headword: lowercased, each character that is not
/// alphanumeric made `-`.
pub open spec fn anchor_spec(term: Seq<char>) -> Seq<char> {
    is_unicode_lowercase_of(term).map_values(|c: char| if is_unicode_alphanumeric(c) { c } else { '-' })
}

/// The anchor of a headword.
pub fn make_anchor(term: &str) -> (r: String)
    ensures
        r@ == anchor_spec(term@),
{
    let lower = to_lowercase(term);
    let cs = chars_of(lower.as_str());
    let mut out: Vec<char> = Vec::new();
    let n = cs.len();
    for i in 0..n
        invariant
            n == cs@.len(),
            cs@ == is_unicode_lowercase_of(term@),
            out@ == cs@.take(i as int).map_values(|c: char| if is_unicode_alphanumeric(c) { c } else { '-' }),
    {
        let c = cs[i];
        if char_is_alphanumeric(c) {
            out.push(c);
        } else {
            out.push('-');
        }
        assert(out@ =~= cs@.take(i + 1).map_values(|c: char| if is_unicode_alphanumeric(c) { c } else { '-' }));
    }
    assert(cs@.take(n as int) =~= cs@);
    string_of(&out)
}

/// The text `format!("{:?}", s)` gives a string: quoted, with Rust's escapes.
pub uninterp spec fn rust_debug_str(s: Seq<char>) -> Seq<char>;

/// Calls `<str as Debug>::fmt` through `format!`; the result is named.
#[verifier::external_body]
fn debug_str(s: &str) -> (r: String)
    ensures
        r@ == rust_debug_str(s@),
{
    format!("{s:?}")
}

/// `n` in decimal, padded with zeros to five digits.
pub open spec fn pad5(n: nat) -> Seq<char> {
    let d = decimal_spec(n);
    if d.len() < 5 {
        Seq::new((5 - d.len()) as nat, |i: int| '0') + d
    } else {
        d
    }
}

fn push_pad5(out: &mut String, n: u64)
    ensures
        final(out)@ == old(out)@ + pad5(n as nat),
{
    let mut d = String::new();
    push_decimal(&mut d, n);
    let len = d.as_str().unicode_len();
    let ghost start = out@;
    if len < 5 {
        let pad = 5 - len;
        for i in 0..pad
            invariant
                out@ == start + Seq::new(i as nat, |q: int| '0'),
        {
            out.append("0");
            proof {
                reveal_strlit("0");
            }
            assert(out@ =~= start + Seq::new((i + 1) as nat, |q: int| '0'));
        }
    }
    out.append(d.as_str());
    assert(out@ =~= start + pad5(n as nat));
}

/// The page of each entry, from `sizes` on: a page takes entries until the
/// next would take it past [`MAX_FILE_SIZE`] bytes (a first page takes its
/// first entry whatever its size).
pub open spec fn pages_from(sizes: Seq<int>, page: int, current: int, first: bool) -> Seq<int>
    decreases sizes.len(),
{
    if sizes.len() == 0 {
        Seq::empty()
    } else {
        let next = current + sizes[0] > MAX_FILE_SIZE && !first;
        let p = if next {
            page + 1
        } else {
            page
        };
        let c = if next {
            0
        } else {
            current
        };
        seq![p] + pages_from(sizes.skip(1), p, c + sizes[0], false)
    }
}

/// The block of an entry: its anchor, its headwords joined by ` | `, its html.
pub open spec fn entry_block(e: EntryView, html: Seq<char>) -> Seq<char> {
    "<div class=\"entry\" id=\""@ + anchor_spec(e.term) + "\"><div class=\"terms\">"@ + replace_spec(
        join_spec(terms_list(e), TERM_SEPARATOR),
        "|"@,
        " | "@,
    ) + "</div><div class=\"defi\">"@ + html + "</div></div>\n"@
}

/// The search index item of an entry on page `page`.
pub open spec fn search_item(term: Seq<char>, page: int) -> Seq<char> {
    "{ term: "@ + rust_debug_str(term) + ", page: \""@ + pad5(page as nat) + ".html\", anchor: "@
        + rust_debug_str(anchor_spec(term)) + " }"@
}

/// The block opens with a `div` whose `id` attribute is `a`.
pub open spec fn block_id_is(block: Seq<char>, a: Seq<char>) -> bool {
    let open = "<div class=\"entry\" id=\""@ + a + "\""@;
    open.len() <= block.len() && block.subrange(0, open.len() as int) == open
}

/// The search item ends by naming the anchor `a`, written as a Rust string.
pub open spec fn item_anchor_is(item: Seq<char>, a: Seq<char>) -> bool {
    let tail = ", anchor: "@ + rust_debug_str(a) + " }"@;
    tail.len() <= item.len() && item.subrange(item.len() - tail.len(), item.len() as int) == tail
}

/// The html blocks of a glossary's entries.
pub open spec fn entry_blocks(g: Glossary) -> Seq<Seq<char>> {
    let es = entries_view(g.entries@);
    Seq::new(
        es.len(),
        |i: int|
            entry_block(
                es[i],
                glossary_links(g) + definition_to_html(*g.entries@[i].spec_definition(), glossary_bank(g)),
            ),
    )
}

/// The pages of the entries of a glossary.
pub open spec fn entry_pages(g: Glossary) -> Seq<int> {
    pages_from(entry_blocks(g).map_values(|b: Seq<char>| utf8_of(b).len() as int), 0, 0, true)
}

/// The concatenation of the blocks on page `p`.
pub open spec fn page_blocks(blocks: Seq<Seq<char>>, pages: Seq<int>, p: int) -> Seq<char>
    decreases blocks.len(),
{
    if blocks.len() == 0 || pages.len() != blocks.len() {
        Seq::empty()
    } else if pages.last() == p {
        page_blocks(blocks.drop_last(), pages.drop_last(), p) + blocks.last()
    } else {
        page_blocks(blocks.drop_last(), pages.drop_last(), p)
    }
}

/// The search index: an item per entry, joined by `,`.
pub open spec fn search_js_spec(g: Glossary) -> Seq<char> {
    let es = entries_view(g.entries@);
    let pages = entry_pages(g);
    "const SEARCH_INDEX = ["@ + join_commas(
        Seq::new(es.len(), |i: int| search_item(es[i].term, pages[i])),
    ) + "];"@
}

/// Every entry's block carries as its `id` the anchor of its headword (what
/// [`make_anchor`] gives), and the search index item of that entry names the
/// same anchor, so a search result leads to the entry.
pub proof fn lemma_block_id_is_search_anchor(g: Glossary, i: int)
    requires
        0 <= i < g.entries@.len(),
    ensures
        block_id_is(entry_blocks(g)[i], anchor_spec(entries_view(g.entries@)[i].term)),
        item_anchor_is(
            search_item(entries_view(g.entries@)[i].term, entry_pages(g)[i]),
            anchor_spec(entries_view(g.entries@)[i].term),
        ),
{
    let es = entries_view(g.entries@);
    let t = es[i].term;
    let a = anchor_spec(t);
    let block = entry_blocks(g)[i];
    let open = "<div class=\"entry\" id=\""@ + a + "\""@;
    reveal_strlit("\"><div class=\"terms\">");
    reveal_strlit("\"");
    assert(block.subrange(0, open.len() as int) =~= open);
    let item = search_item(t, entry_pages(g)[i]);
    let tail = ", anchor: "@ + rust_debug_str(a) + " }"@;
    reveal_strlit(".html\", anchor: ");
    reveal_strlit(", anchor: ");
    let head = "{ term: "@ + rust_debug_str(t) + ", page: \""@ + pad5(entry_pages(g)[i] as nat) + ".html\""@;
    reveal_strlit(".html\"");
    assert(".html\", anchor: "@ =~= ".html\""@ + ", anchor: "@);
    assert(item =~= head + tail);
    assert(item.subrange(item.len() - tail.len(), item.len() as int) =~= tail);
}

/// `items` joined by `,`.
pub open spec fn join_commas(items: Seq<Seq<char>>) -> Seq<char>
    decreases items.len(),
{
    if items.len() == 0 {
        Seq::empty()
    } else if items.len() == 1 {
        items[0]
    } else {
        join_commas(items.drop_last()) + ","@ + items.last()
    }
}

/// A piece of the page template.
pub const PAGE_0: &'static str = "<!DOCTYPE html>\n<html lang=\"en\">\n<head>\n    <meta charset=\"UTF-8\">\n    <meta name=\"viewport\" content=\"width=device-width, initial-scale=1.0\">\n    <title>";

/// A piece of the page template.
pub const PAGE_1: &'static str = " — Page ";

/// A piece of the page template.
pub const PAGE_2: &'static str = " of ";

/// A piece of the page template.
pub const PAGE_3: &'static str = "</title>\n    <!-- User CSS is loaded first so that our default styles below take priority -->\n    ";

/// A piece of the page template.
pub const PAGE_4: &'static str = "\n    <style>\n        /* Don't let user css overwrite the scrollbar... */\n        html, body, #root, .entries {\n            overflow: visible !important;\n            overflow-y: auto !important;\n            max-height: none !important;\n        }\n\n        body { margin: 0; background: #ddd; }\n        body:has(#theme-toggle:checked) { background: #222; }\n        #theme-toggle:checked ~ label ~ body, #theme-toggle:checked ~ body { background: #222; }\n        #root { font-family: sans-serif; max-width: 1200px; margin: 0 auto; padding: 0 1rem; background: #f5f5f5; color: #222; min-height: 100vh; }\n        #theme-toggle:checked ~ #root { background: #373737; color: #eee; }\n        #root a { color: #0066cc; }\n        #theme-toggle:checked ~ #root a { color: #aaaaff; }\n        #root nav { text-align: center; font-size: 2.5em; padding: 0.5rem 0; }\n        #root .entry { border-bottom: 1px solid #ccc; padding: 0.6rem 0; }\n        #theme-toggle:checked ~ #root .entry { border-bottom: 1px solid #555; }\n        #root .terms { font-size: 1.1em; font-weight: bold; color: #2a6e2a; margin-bottom: 0.3rem; }\n        #theme-toggle:checked ~ #root .terms { color: #c7ffb9; }\n        #root .defi { color: #222; }\n        #theme-toggle:checked ~ #root .defi { color: #eee; }\n        #theme-label { position: fixed; top: 1rem; right: 1rem; cursor: pointer; font-size: 1.5em; }\n\n        /* Search bar */\n        #search { position: sticky; top: 0; background: inherit; padding: 0.5rem 0; z-index: 100; }\n        #search-input { width: 100%; box-sizing: border-box; padding: 0.7rem; font-size: 1rem; }\n        #search-results { background: inherit; max-height: 300px; overflow-y: auto; }\n        #search-results a { display: block; padding: 0.4rem; text-decoration: none; }\n        #search-results a:hover { background: rgba(127,127,127,0.15); }\n    </style>\n</head>\n<body>\n    <input type=\"checkbox\" id=\"theme-toggle\" hidden>\n    <label for=\"theme-toggle\" id=\"theme-label\" title=\"Toggle light/dark mode\">🌙</label>\n    <div id=\"root\">\n        <div id=\"search\">\n            <input id=\"search-input\" placeholder=\"Search...\">\n            <div id=\"search-results\"></div>\n        </div>\n        ";

/// A piece of the page template.
pub const PAGE_5: &'static str = "\n        <div class=\"entries\">\n";

/// A piece of the page template.
pub const PAGE_6: &'static str = "        </div>\n        ";

/// A piece of the page template.
pub const PAGE_7: &'static str = "\n    </div>\n    <script src=\"./search.js\"></script>\n    <script>\n        const input = document.getElementById(\"search-input\");\n        const results = document.getElementById(\"search-results\");\n\n        input.addEventListener(\"input\", () => {\n            const q = input.value.toLowerCase().trim();\n\n            if (!q) {\n                results.innerHTML = \"\";\n                return;\n            }\n\n            const matches = SEARCH_INDEX\n                .filter(e => e.term.toLowerCase().includes(q))\n                .slice(0, 30);\n\n            results.innerHTML = matches.map(e =>\n                `<a href=\"./${e.page}#${e.anchor}\">${e.term}</a>`\n            ).join(\"\");\n        });\n    </script>\n</body>\n</html>";

/// A piece of the info page template.
pub const INFO_0: &'static str = "<!DOCTYPE html>\n<html lang=\"en\">\n<head>\n    <meta charset=\"UTF-8\">\n    <title>Info: ";

/// A piece of the info page template.
pub const INFO_1: &'static str = "</title>\n    <style>\n        body { font-family: sans-serif; max-width: 900px; margin: 2rem auto; padding: 0 1rem; background: #373737; color: #eee; }\n        table, th, td { border: 1px solid #888; border-collapse: collapse; padding: 5px; }\n        a { color: #aaaaff; }\n    </style>\n</head>\n<body>\n    <p><a href=\"./00000.html\">&#9664; Back</a></p>\n    <h1>Info: ";

/// A piece of the info page template.
pub const INFO_2: &'static str = "</h1>\n    <p>";

/// A piece of the info page template.
pub const INFO_3: &'static str = "</p>\n    <table>\n        <tr><th>Key</th><th>Value</th></tr>\n        ";

/// A piece of the info page template.
pub const INFO_4: &'static str = "\n    </table>\n</body>\n</html>";

/// A page of entries: `title`, page `page` of `total`, the stylesheet links,
/// the navigation above and below the entries.
pub open spec fn page_html(
    title: Seq<char>,
    page: nat,
    total: nat,
    css: Seq<char>,
    nav: Seq<char>,
    entries: Seq<char>,
) -> Seq<char> {
    PAGE_0@ + title + PAGE_1@ + decimal_spec(page) + PAGE_2@ + decimal_spec(total) + PAGE_3@ + css
        + PAGE_4@ + nav + PAGE_5@ + entries + PAGE_6@ + nav + PAGE_7@
}

/// The navigation of page `i` (from 0) of `total`: links to the previous
/// and next pages where there are ones, and to the info page.
pub open spec fn nav_html(i: nat, total: nat) -> Seq<char> {
    "<nav style=\"text-align: center; font-size: 2.5em;\">"@ + (if i > 0 {
        "<a href=\"./"@ + pad5((i - 1) as nat) + ".html\">&#9664;</a>"@
    } else {
        Seq::empty()
    }) + "&nbsp;&nbsp;&nbsp;"@ + (if i + 1 < total {
        "<a href=\"./"@ + pad5(i + 1) + ".html\">&#9654;</a>"@
    } else {
        Seq::empty()
    }) + "&nbsp;&nbsp;&nbsp;<a href=\"./info.html\">ℹ️</a></nav>"@
}

/// The links to the stylesheets, beside the pages.
pub open spec fn css_links_html(names: Seq<Seq<char>>) -> Seq<char>
    decreases names.len(),
{
    if names.len() == 0 {
        Seq::empty()
    } else {
        css_links_html(names.drop_last()) + "<link rel=\"stylesheet\" href=\"./"@ + names.last()
            + "\" />"@
    }
}

/// The rows of the info table.
pub open spec fn info_rows_html(pairs: Seq<(Seq<char>, Seq<char>)>) -> Seq<char>
    decreases pairs.len(),
{
    if pairs.len() == 0 {
        Seq::empty()
    } else {
        info_rows_html(pairs.drop_last()) + "<tr><td>"@ + pairs.last().0 + "</td><td>"@ + pairs.last().1
            + "</td></tr>\n"@
    }
}

/// The info page.
pub open spec fn info_html_spec(title: Seq<char>, description: Seq<char>, rows: Seq<char>) -> Seq<char> {
    INFO_0@ + title + INFO_1@ + title + INFO_2@ + description + INFO_3@ + rows + INFO_4@
}

/// The title of the pages: the info's, or `Glossary`.
pub open spec fn html_title(info: Seq<(Seq<char>, Seq<char>)>) -> Seq<char> {
    match info_get(info, "title"@) {
        Some(t) => t,
        None => "Glossary"@,
    }
}

/// The description on the info page: the info's, or nothing.
pub open spec fn html_description(info: Seq<(Seq<char>, Seq<char>)>) -> Seq<char> {
    match info_get(info, "description"@) {
        Some(d) => d,
        None => Seq::empty(),
    }
}

/// The files of an html directory: the pages `00000.html`, ..., in order, the
/// search index `search.js` and `info.html`.
pub struct HtmlDir {
    pub pages: Vec<String>,
    pub search_js: String,
    pub info_html: String,
}

fn entry_block_of(converter: &HtmlConverter, entry: &crate::glossary::Entry) -> (r: String)
    requires
        renderable(*entry.spec_definition()),
    ensures
        r@ == entry_block(
            entry@,
            links_html(converter.css_files@) + definition_to_html(*entry.spec_definition(), bank_or_empty(converter.tag_bank)),
        ),
{
    proof {
        reveal_strlit("|");
    }
    let anchor = make_anchor(entry.term());
    let terms = replace_all(entry.s_terms().as_str(), "|", " | ");
    let html = converter.convert(entry.definition());
    let mut out = String::new();
    out.append("<div class=\"entry\" id=\"");
    out.append(anchor.as_str());
    out.append("\"><div class=\"terms\">");
    out.append(terms.as_str());
    out.append("</div><div class=\"defi\">");
    out.append(html.as_str());
    out.append("</div></div>\n");
    out
}

fn search_item_of(term: &str, page: usize) -> (r: String)
    ensures
        r@ == search_item(term@, page as int),
{
    let anchor = make_anchor(term);
    let dt = debug_str(term);
    let da = debug_str(anchor.as_str());
    let mut out = String::new();
    out.append("{ term: ");
    out.append(dt.as_str());
    out.append(", page: \"");
    push_pad5(&mut out, page as u64);
    out.append(".html\", anchor: ");
    out.append(da.as_str());
    out.append(" }");
    out
}

fn nav_of(i: usize, total: usize) -> (r: String)
    requires
        i < total,
    ensures
        r@ == nav_html(i as nat, total as nat),
{
    let mut out = String::new();
    out.append("<nav style=\"text-align: center; font-size: 2.5em;\">");
    if i > 0 {
        out.append("<a href=\"./");
        push_pad5(&mut out, (i - 1) as u64);
        out.append(".html\">&#9664;</a>");
    }
    out.append("&nbsp;&nbsp;&nbsp;");
    if i + 1 < total {
        out.append("<a href=\"./");
        push_pad5(&mut out, (i + 1) as u64);
        out.append(".html\">&#9654;</a>");
    }
    out.append("&nbsp;&nbsp;&nbsp;<a href=\"./info.html\">ℹ️</a></nav>");
    out
}

proof fn lemma_pages_from_len(sizes: Seq<int>, page: int, current: int, first: bool)
    ensures
        pages_from(sizes, page, current, first).len() == sizes.len(),
    decreases sizes.len(),
{
    if sizes.len() > 0 {
        let next = current + sizes[0] > MAX_FILE_SIZE && !first;
        let p = if next { page + 1 } else { page };
        let c = if next { 0 } else { current };
        lemma_pages_from_len(sizes.skip(1), p, c + sizes[0], false);
    }
}

/// The sum of some sizes.
pub open spec fn size_sum(s: Seq<int>) -> int
    decreases s.len(),
{
    if s.len() == 0 {
        0
    } else {
        s[0] + size_sum(s.skip(1))
    }
}

proof fn lemma_pages_from_shape(sizes: Seq<int>, page: int, current: int, first: bool)
    requires
        forall|k: int| 0 <= k < sizes.len() ==> sizes[k] >= 0,
        current >= 0,
    ensures
        ({
            let ps = pages_from(sizes, page, current, first);
            &&& ps.len() == sizes.len()
            &&& sizes.len() > 0 && first ==> ps[0] == page
            &&& forall|j: int| 0 <= j < ps.len() ==> ps[j] >= page
            &&& forall|j: int| 0 <= j < ps.len() ==> ps[j] <= page + j + 1
            &&& forall|j: int| #![trigger ps[j]]
                0 < j < ps.len() ==> ps[j] == ps[j - 1] || ps[j] == ps[j - 1] + 1
            &&& forall|j: int| #![trigger ps[j]]
                0 <= j < ps.len() && ps[j] == page && !(first && j == 0)
                    ==> current + size_sum(sizes.subrange(0, j + 1)) <= MAX_FILE_SIZE
            &&& forall|i: int, j: int| #![trigger ps[i], ps[j]]
                0 <= i < j < ps.len() && ps[i] == ps[j]
                    ==> size_sum(sizes.subrange(i, j + 1)) <= MAX_FILE_SIZE
        }),
    decreases sizes.len(),
{
    lemma_pages_from_len(sizes, page, current, first);
    if sizes.len() > 0 {
        let next = current + sizes[0] > MAX_FILE_SIZE && !first;
        let p = if next { page + 1 } else { page };
        let c = if next { 0 } else { current };
        let rest = sizes.skip(1);
        lemma_pages_from_shape(rest, p, c + sizes[0], false);
        let ps = pages_from(sizes, page, current, first);
        let qs = pages_from(rest, p, c + sizes[0], false);
        assert(ps =~= seq![p] + qs);
        assert forall|j: int| 0 < j < sizes.len() implies #[trigger] size_sum(sizes.subrange(0, j + 1))
            == sizes[0] + size_sum(rest.subrange(0, j)) by {
            assert(sizes.subrange(0, j + 1).skip(1) =~= rest.subrange(0, j));
        }
        assert forall|i: int, j: int| 0 < i <= j < sizes.len() implies #[trigger] sizes.subrange(i, j + 1)
            =~= rest.subrange(i - 1, j) by {}
        assert forall|j: int| #![trigger ps[j]]
            0 <= j < ps.len() && ps[j] == page && !(first && j == 0) implies current + size_sum(
                sizes.subrange(0, j + 1),
            ) <= MAX_FILE_SIZE by {
            if j == 0 {
                assert(p == page);
                assert(sizes.subrange(0, 1).skip(1) =~= Seq::<int>::empty());
                assert(size_sum(Seq::<int>::empty()) == 0);
                assert(size_sum(sizes.subrange(0, 1)) == sizes[0]);
            } else {
                assert(qs[j - 1] == ps[j]);
                assert(qs[j - 1] >= p);
                assert(p == page);
                assert(c + sizes[0] + size_sum(rest.subrange(0, j)) <= MAX_FILE_SIZE);
                assert(size_sum(sizes.subrange(0, j + 1)) == sizes[0] + size_sum(rest.subrange(0, j)));
            }
        }
        assert forall|i: int, j: int| #![trigger ps[i], ps[j]]
            0 <= i < j < ps.len() && ps[i] == ps[j] implies size_sum(sizes.subrange(i, j + 1))
                <= MAX_FILE_SIZE by {
            assert(qs[j - 1] == ps[j]);
            if i > 0 {
                assert(qs[i - 1] == ps[i]);
            } else {
                assert(size_sum(sizes.subrange(0, j + 1)) == sizes[0] + size_sum(rest.subrange(0, j)));
            }
        }
        assert forall|j: int| #![trigger ps[j]]
            0 < j < ps.len() implies ps[j] == ps[j - 1] || ps[j] == ps[j - 1] + 1 by {
            assert(qs[j - 1] == ps[j]);
            if j > 1 {
                assert(qs[j - 2] == ps[j - 1]);
            }
        }
        assert forall|j: int| 0 <= j < ps.len() implies ps[j] <= page + j + 1 by {
            if j > 0 {
                assert(qs[j - 1] == ps[j]);
            }
        }
    }
}

/// The pages of a run of entries are numbered from 0 and go up by at most
/// one from an entry to the next; two or more entries on one page take
/// together at most [`MAX_FILE_SIZE`] bytes, so only a page holding a single
/// entry can be larger.
pub proof fn lemma_pages_fit(sizes: Seq<int>)
    requires
        forall|k: int| 0 <= k < sizes.len() ==> sizes[k] >= 0,
    ensures
        ({
            let ps = pages_from(sizes, 0, 0, true);
            &&& ps.len() == sizes.len()
            &&& sizes.len() > 0 ==> ps[0] == 0
            &&& forall|j: int| #![trigger ps[j]]
                0 < j < ps.len() ==> ps[j] == ps[j - 1] || ps[j] == ps[j - 1] + 1
            &&& forall|i: int, j: int| #![trigger ps[i], ps[j]]
                0 <= i < j < ps.len() && ps[i] == ps[j]
                    ==> size_sum(sizes.subrange(i, j + 1)) <= MAX_FILE_SIZE
        }),
{
    lemma_pages_from_shape(sizes, 0, 0, true);
}

proof fn lemma_page_blocks_absent(blocks: Seq<Seq<char>>, pages: Seq<int>, p: int)
    requires
        forall|j: int| 0 <= j < pages.len() ==> #[trigger] pages[j] < p,
    ensures
        page_blocks(blocks, pages, p) == Seq::<char>::empty(),
    decreases blocks.len(),
{
    if blocks.len() > 0 && pages.len() == blocks.len() {
        lemma_page_blocks_absent(blocks.drop_last(), pages.drop_last(), p);
    }
}

/// The page of every entry of a glossary, and each page's blocks.
fn paginate(glossary: &Glossary, converter: &HtmlConverter) -> (r: (Vec<usize>, Vec<String>))
    requires
        all_renderable(glossary.entries@),
        links_html(converter.css_files@) == glossary_links(*glossary),
        bank_or_empty(converter.tag_bank) == glossary_bank(*glossary),
    ensures
        r.0@.len() == glossary.entries@.len(),
        forall|i: int| 0 <= i < r.0@.len() ==> (#[trigger] r.0@[i]) as int == entry_pages(*glossary)[i],
        r.1@.len() >= 1,
        glossary.entries@.len() > 0 ==> r.1@.len() == r.0@.last() + 1,
        glossary.entries@.len() == 0 ==> r.1@.len() == 1,
        forall|p: int| 0 <= p < r.1@.len() ==> (#[trigger] r.1@[p])@ == page_blocks(
            entry_blocks(*glossary),
            entry_pages(*glossary),
            p,
        ),
{
    let ghost blocks = entry_blocks(*glossary);
    let ghost sizes = blocks.map_values(|b: Seq<char>| utf8_of(b).len() as int);
    let ghost all = entry_pages(*glossary);
    let n = glossary.entries.len();
    let mut assigned: Vec<usize> = Vec::new();
    let mut pages: Vec<String> = Vec::new();
    pages.push(String::new());
    let mut page: usize = 0;
    let mut current: usize = 0;
    assert(sizes.skip(0) =~= sizes);
    proof {
        lemma_pages_from_len(sizes, 0, 0, true);
    }
    for i in 0..n
        invariant
            n == glossary.entries@.len(),
            blocks == entry_blocks(*glossary),
            sizes == blocks.map_values(|b: Seq<char>| utf8_of(b).len() as int),
            all == entry_pages(*glossary),
            all == pages_from(sizes, 0, 0, true),
            all_renderable(glossary.entries@),
            links_html(converter.css_files@) == glossary_links(*glossary),
            bank_or_empty(converter.tag_bank) == glossary_bank(*glossary),
            assigned@.len() == i,
            forall|j: int| 0 <= j < i ==> (#[trigger] assigned@[j]) as int == all[j],
            forall|j: int| 0 <= j < i ==> (#[trigger] assigned@[j]) <= page,
            i > 0 ==> assigned@[i - 1] == page,
            i == 0 ==> page == 0 && current == 0,
            page <= i,
            all.len() == n,
            blocks.len() == n,
            pages@.len() == page + 1,
            all.skip(i as int) == pages_from(sizes.skip(i as int), page as int, current as int, i == 0),
            forall|p: int| 0 <= p < pages@.len() ==> (#[trigger] pages@[p])@ == page_blocks(
                blocks.take(i as int),
                all.take(i as int),
                p,
            ),
    {
        let entry = &glossary.entries[i];
        assert(renderable(*glossary.entries@[i as int].spec_definition()));
        let block = entry_block_of(converter, entry);
        assert(block@ == blocks[i as int]);
        let size = block.as_str().as_bytes().len();
        assert(size as int == sizes[i as int]);
        let ghost rest = sizes.skip(i as int);
        assert(rest[0] == sizes[i as int]);
        assert(rest.skip(1) =~= sizes.skip(i + 1));
        let next = (current > MAX_FILE_SIZE || size > MAX_FILE_SIZE - current) && i > 0;
        if next {
            page = page + 1;
            current = 0;
            pages.push(String::new());
        }
        proof {
            if next {
                assert forall|j: int| 0 <= j < all.take(i as int).len() implies #[trigger] all.take(i as int)[j] < page by {
                    assert(assigned@[j] <= page - 1);
                }
                lemma_page_blocks_absent(blocks.take(i as int), all.take(i as int), page as int);
            }
        }
        assert(pages@[page as int]@ == page_blocks(blocks.take(i as int), all.take(i as int), page as int));
        let ghost before = pages@;
        proof {
            assert(all.skip(i as int)[0] == page as int);
            assert(all[i as int] == page as int);
            assert(all.skip(i as int).skip(1) =~= all.skip(i + 1));
        }
        pages[page].append(block.as_str());
        current = current + size;
        assigned.push(page);
        proof {
            assert forall|p: int| 0 <= p < pages@.len() implies (#[trigger] pages@[p])@ == page_blocks(
                blocks.take(i + 1),
                all.take(i + 1),
                p,
            ) by {
                assert(blocks.take(i + 1).drop_last() =~= blocks.take(i as int));
                assert(all.take(i + 1).drop_last() =~= all.take(i as int));
                assert(blocks.take(i + 1).last() == blocks[i as int]);
                assert(all.take(i + 1).last() == all[i as int]);
                if p != page {
                    assert(pages@[p] == before[p]);
                }
            }
        }
    }
    assert(blocks.take(n as int) =~= blocks);
    assert(all.take(n as int) =~= all);
    (assigned, pages)
}

/// The files of the html directory of a glossary at `path`, which must end
/// in `.hdir`.
pub fn write_html_dir(glossary: &Glossary, path: &str) -> (r: Result<HtmlDir, crate::formats::text::FormatError>)
    requires
        glossary.info.wf(),
        all_renderable(glossary.entries@),
    ensures
        match r {
            Ok(d) => {
                let pages = entry_pages(*glossary);
                let total = if glossary.entries@.len() == 0 {
                    1
                } else {
                    pages.last() + 1
                };
                let title = html_title(glossary.info@);
                let css = css_links_html(css_names(glossary.data_entries@));
                &&& path_extension(path@) == Some("hdir"@)
                &&& d.pages@.len() == total
                &&& forall|i: int|
                    0 <= i < total ==> (#[trigger] d.pages@[i])@ == page_html(
                        title,
                        (i + 1) as nat,
                        total as nat,
                        css,
                        nav_html(i as nat, total as nat),
                        page_blocks(entry_blocks(*glossary), pages, i),
                    )
                &&& d.search_js@ == search_js_spec(*glossary)
                &&& d.info_html@ == info_html_spec(
                    title,
                    html_description(glossary.info@),
                    info_rows_html(glossary.info@),
                )
            },
            Err(e) => e matches crate::formats::text::FormatError::WrongExtension(p) && p@ == path@
                && path_extension(path@) != Some("hdir"@),
        },
{
    let is_hdir = match extension_of(path) {
        Some(e) => str_eq(e.as_str(), "hdir"),
        None => false,
    };
    if !is_hdir {
        return Err(crate::formats::text::FormatError::WrongExtension(path.to_string()));
    }
    let title: String = match glossary.info.get("title") {
        Some(t) => t.to_string(),
        None => "Glossary".to_string(),
    };
    let description: String = match glossary.info.get("description") {
        Some(d) => d.to_string(),
        None => String::new(),
    };
    let info = HtmlInfo::new(title, description);
    let converter = HtmlConverter::new(glossary);
    proof {
        lemma_links_of_names(converter.css_files@);
    }
    let mut css = String::new();
    let nc = converter.css_files.len();
    let ghost names = converter.css_files@.map_values(|s: String| s@);
    for i in 0..nc
        invariant
            nc == converter.css_files@.len(),
            names == converter.css_files@.map_values(|s: String| s@),
            css@ == css_links_html(names.take(i as int)),
    {
        css.append("<link rel=\"stylesheet\" href=\"./");
        css.append(converter.css_files[i].as_str());
        css.append("\" />");
        assert(names.take(i + 1).drop_last() =~= names.take(i as int));
        assert(css@ =~= css_links_html(names.take(i + 1)));
    }
    assert(names.take(nc as int) =~= names);
    let (assigned, blocks) = paginate(glossary, &converter);
    let n = glossary.entries.len();
    let mut search = String::new();
    search.append("const SEARCH_INDEX = [");
    let ghost es = entries_view(glossary.entries@);
    let ghost items = Seq::new(es.len(), |i: int| search_item(es[i].term, entry_pages(*glossary)[i]));
    let ghost start = search@;
    for i in 0..n
        invariant
            n == glossary.entries@.len(),
            es == entries_view(glossary.entries@),
            items == Seq::new(es.len(), |i: int| search_item(es[i].term, entry_pages(*glossary)[i])),
            assigned@.len() == n,
            forall|j: int| 0 <= j < n ==> (#[trigger] assigned@[j]) as int == entry_pages(*glossary)[j],
            search@ == start + join_commas(items.take(i as int)),
    {
        if i > 0 {
            search.append(",");
        }
        let item = search_item_of(glossary.entries[i].term(), assigned[i]);
        search.append(item.as_str());
        proof {
            assert(items.take(i + 1).drop_last() =~= items.take(i as int));
            assert(items[i as int] == item@);
            if i == 0 {
                assert(items.take(1) =~= seq![item@]);
            }
        }
        assert(search@ =~= start + join_commas(items.take(i + 1)));
    }
    search.append("];");
    assert(items.take(n as int) =~= items);
    let total = blocks.len();
    let mut pages: Vec<String> = Vec::new();
    for i in 0..total
        invariant
            total == blocks@.len(),
            pages@.len() == i,
            forall|j: int| 0 <= j < i ==> (#[trigger] pages@[j])@ == page_html(
                info.title@,
                (j + 1) as nat,
                total as nat,
                css@,
                nav_html(j as nat, total as nat),
                blocks@[j]@,
            ),
    {
        let nav = nav_of(i, total);
        let mut page = String::new();
        page.append(PAGE_0);
        page.append(info.title.as_str());
        page.append(PAGE_1);
        push_decimal(&mut page, (i + 1) as u64);
        page.append(PAGE_2);
        push_decimal(&mut page, total as u64);
        page.append(PAGE_3);
        page.append(css.as_str());
        page.append(PAGE_4);
        page.append(nav.as_str());
        page.append(PAGE_5);
        page.append(blocks[i].as_str());
        page.append(PAGE_6);
        page.append(nav.as_str());
        page.append(PAGE_7);
        pages.push(page);
    }
    let mut rows = String::new();
    let pairs = glossary.info.pairs();
    let np = pairs.len();
    for i in 0..np
        invariant
            np == pairs@.len(),
            pairs_view(pairs@) == glossary.info@,
            rows@ == info_rows_html(glossary.info@.take(i as int)),
    {
        rows.append("<tr><td>");
        rows.append(pairs[i].0.as_str());
        rows.append("</td><td>");
        rows.append(pairs[i].1.as_str());
        rows.append("</td></tr>\n");
        assert(glossary.info@.take(i + 1).drop_last() =~= glossary.info@.take(i as int));
        assert(rows@ =~= info_rows_html(glossary.info@.take(i + 1)));
    }
    assert(glossary.info@.take(np as int) =~= glossary.info@);
    let mut info_html = String::new();
    info_html.append(INFO_0);
    info_html.append(info.title.as_str());
    info_html.append(INFO_1);
    info_html.append(info.title.as_str());
    info_html.append(INFO_2);
    info_html.append(info.description.as_str());
    info_html.append(INFO_3);
    info_html.append(rows.as_str());
    info_html.append(INFO_4);
    proof {
        let sizes = entry_blocks(*glossary).map_values(|b: Seq<char>| utf8_of(b).len() as int);
        lemma_pages_from_len(sizes, 0, 0, true);
        let pg = entry_pages(*glossary);
        if n > 0 {
            assert(assigned@.last() as int == pg[n - 1]);
            assert(pg.last() == pg[n - 1]);
        }
        assert(names == css_names(glossary.data_entries@));
        assert(info.title@ == html_title(glossary.info@));
        assert(info.description@ == html_description(glossary.info@));
        assert forall|i: int| 0 <= i < total implies (#[trigger] pages@[i])@ == page_html(
            html_title(glossary.info@),
            (i + 1) as nat,
            total as nat,
            css_links_html(css_names(glossary.data_entries@)),
            nav_html(i as nat, total as nat),
            page_blocks(entry_blocks(*glossary), pg, i),
        ) by {
            assert(blocks@[i]@ == page_blocks(entry_blocks(*glossary), pg, i));
        }
    }
    Ok(HtmlDir { pages, search_js: search, info_html })
}

} // verus!
