//! Paths and html entities.

use vstd::prelude::*;

use crate::strs::{replace_all, replace_spec};

verus! {

/// The parent of a path, as `Path::parent` finds it.
pub uninterp spec fn path_parent(path: Seq<char>) -> Option<Seq<char>>;

/// Calls `std::path::Path::parent`; the result is named.
#[verifier::external_body]
fn std_parent(path: &str) -> (r: Option<String>)
    ensures
        match r {
            Some(p) => path_parent(path@) == Some(p@),
            None => path_parent(path@) is None,
        },
{
    std::path::Path::new(path).parent().map(|p| p.to_string_lossy().into_owned())
}

/// The file name of a path without its extension, as `Path::file_stem` finds it.
pub uninterp spec fn path_stem(path: Seq<char>) -> Option<Seq<char>>;

/// Calls `std::path::Path::file_stem`; the result is named.
#[verifier::external_body]
pub(crate) fn file_stem(path: &str) -> (r: Option<String>)
    ensures
        match r {
            Some(s) => path_stem(path@) == Some(s@),
            None => path_stem(path@) is None,
        },
{
    std::path::Path::new(path).file_stem().map(|s| s.to_string_lossy().into_owned())
}

/// The directory a dictionary's companion files are looked for in.
pub open spec fn parent_dir_spec(path: Seq<char>) -> Seq<char> {
    match path_parent(path) {
        Some(p) => if p.len() > 0 {
            p
        } else {
            "."@
        },
        None => "."@,
    }
}

/// Like `Path::parent`, but never empty: a bare file name has the current
/// directory `.` as its parent.
pub fn parent_dir(path: &str) -> (r: String)
    ensures
        r@ == parent_dir_spec(path@),
{
    match std_parent(path) {
        Some(p) => if !p.as_str().is_empty() {
            p
        } else {
            ".".to_string()
        },
        None => ".".to_string(),
    }
}

/// `s` with `&`, `"`, `<` and `>` written as html entities.
pub open spec fn escape_html_spec(s: Seq<char>) -> Seq<char> {
    replace_spec(
        replace_spec(replace_spec(replace_spec(s, "&"@, "&amp;"@), "\""@, "&quot;"@), "<"@, "&lt;"@),
        ">"@,
        "&gt;"@,
    )
}

/// `s` with the entities `&lt;`, `&gt;`, `&quot;` and `&amp;` written as the
/// characters they stand for, in that order.
pub open spec fn unescape_html_spec(s: Seq<char>) -> Seq<char> {
    replace_spec(
        replace_spec(replace_spec(replace_spec(s, "&lt;"@, "<"@), "&gt;"@, ">"@), "&quot;"@, "\""@),
        "&amp;"@,
        "&"@,
    )
}

/// Writes the entities `&lt;`, `&gt;`, `&quot;` and `&amp;` as characters.
pub fn unescape_html(s: &str) -> (r: String)
    ensures
        r@ == unescape_html_spec(s@),
{
    proof {
        reveal_strlit("&lt;");
        reveal_strlit("&gt;");
        reveal_strlit("&quot;");
        reveal_strlit("&amp;");
    }
    let a = replace_all(s, "&lt;", "<");
    let b = replace_all(a.as_str(), "&gt;", ">");
    let c = replace_all(b.as_str(), "&quot;", "\"");
    replace_all(c.as_str(), "&amp;", "&")
}

/// Writes `&`, `"`, `<` and `>` as html entities.
pub fn escape_html(s: &str) -> (r: String)
    ensures
        r@ == escape_html_spec(s@),
{
    proof {
        reveal_strlit("&");
        reveal_strlit("\"");
        reveal_strlit("<");
        reveal_strlit(">");
    }
    let a = replace_all(s, "&", "&amp;");
    let b = replace_all(a.as_str(), "\"", "&quot;");
    let c = replace_all(b.as_str(), "<", "&lt;");
    replace_all(c.as_str(), ">", "&gt;")
}

} // verus!
