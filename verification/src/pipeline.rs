//! What happens to a glossary between reading and writing: the name and the
//! stripped pattern given on the command line after reading, and the entry
//! transforms that a change of format calls for before writing.

use vstd::prelude::*;

use crate::formats::mdict::reader::stylesheet_view;
use crate::glossary::definition::{Definition, DefinitionView};
use crate::glossary::entry::EntryView;
use crate::glossary::glossary_info::{key_index, store};
use crate::glossary::{Glossary, StyleSheet};
use crate::registry::{ReaderFormat, WriterFormat, same_format};
use crate::transform::entry_transform::{
    transformed, EntryTransform, EntryTransformer, PreventDuplicateTerms, ResolveMdictStyles, TrimWhiteSpace,
};

verus! {

/// Whether `regex::Regex::new` accepts the pattern.
pub uninterp spec fn regex_valid(pattern: Seq<char>) -> bool;

/// What `regex::Regex::replace_all` with an empty replacement leaves of `s`.
pub uninterp spec fn regex_stripped(pattern: Seq<char>, s: Seq<char>) -> Seq<char>;

/// Calls `regex::Regex::new`; whether it succeeds is named.
#[verifier::external_body]
fn pattern_compiles(pattern: &str) -> (r: bool)
    ensures
        r == regex_valid(pattern@),
{
    regex::Regex::new(pattern).is_ok()
}

/// Calls `regex::Regex::replace_all` with the empty string as replacement;
/// the result is named.
#[verifier::external_body]
fn strip_matches(pattern: &str, s: &str) -> (r: String)
    requires
        regex_valid(pattern@),
    ensures
        r@ == regex_stripped(pattern@, s@),
{
    regex::Regex::new(pattern).unwrap().replace_all(s, "").into_owned()
}

/// Why the steps after reading failed.
#[derive(Debug, PartialEq, Eq, Structural)]
pub enum PostReadError {
    /// The strip pattern is not a valid regex.
    InvalidPattern,
    /// A Yomitan definition has no text to strip the pattern from.
    YomitanDefinition,
}

/// A definition with the pattern stripped from its text.
pub open spec fn stripped_definition(pattern: Seq<char>, d: Definition, r: Definition) -> bool {
    match d {
        Definition::Text(s) => r matches Definition::Text(t) && t@ == regex_stripped(pattern, s@),
        Definition::Html(s) => r matches Definition::Html(t) && t@ == regex_stripped(pattern, s@),
        Definition::Yomitan(_) => false,
    }
}

/// Whether some entry of the glossary has a Yomitan definition.
pub open spec fn has_yomitan_definition(g: Glossary) -> bool {
    exists|k: int| 0 <= k < g.entries@.len() && (#[trigger] g.entries@[k]).spec_definition() is Yomitan
}

/// After reading: the glossary takes `name` where one is given, then the
/// pattern, where one is given, is stripped from every text or html
/// definition. An invalid pattern, or a Yomitan definition, is an error.
pub fn post_read(glossary: &mut Glossary, name: Option<String>, strip_pattern: Option<&str>) -> (r: Result<
    (),
    PostReadError,
>)
    requires
        old(glossary).info.wf(),
    ensures
        final(glossary).info.wf(),
        final(glossary).info@ == match name {
            Some(n) => if key_index(old(glossary).info@, "name"@) is Some {
                store(old(glossary).info@, "name"@, n@)
            } else {
                old(glossary).info@
            },
            None => old(glossary).info@,
        },
        final(glossary).data_entries == old(glossary).data_entries,
        final(glossary).entries@.len() == old(glossary).entries@.len(),
        match strip_pattern {
            None => r is Ok && final(glossary).entries == old(glossary).entries,
            Some(p) => if !regex_valid(p@) {
                r == Err::<(), PostReadError>(PostReadError::InvalidPattern) && final(glossary).entries == old(glossary).entries
            } else if has_yomitan_definition(*old(glossary)) {
                r == Err::<(), PostReadError>(PostReadError::YomitanDefinition)
            } else {
                &&& r is Ok
                &&& forall|k: int|
                    0 <= k < old(glossary).entries@.len() ==> {
                        &&& (#[trigger] final(glossary).entries@[k])@.term == old(glossary).entries@[k]@.term
                        &&& final(glossary).entries@[k]@.alts == old(glossary).entries@[k]@.alts
                        &&& stripped_definition(
                            p@,
                            *old(glossary).entries@[k].spec_definition(),
                            *final(glossary).entries@[k].spec_definition(),
                        )
                    }
            },
        },
{
    let ghost gname = name;
    if let Some(n) = name {
        glossary.info.update("name", n);
    }
    let p = match strip_pattern {
        Some(p) => p,
        None => return Ok(()),
    };
    if !pattern_compiles(p) {
        return Err(PostReadError::InvalidPattern);
    }
    let n = glossary.entries.len();
    let ghost before = glossary.entries@;
    let ghost info_after = glossary.info;
    for k in 0..n
        invariant
            n == glossary.entries@.len(),
            n == before.len(),
            regex_valid(p@),
            before == old(glossary).entries@,
            forall|q: int| k <= q < n ==> glossary.entries@[q] == before[q],
            forall|q: int|
                0 <= q < k ==> {
                    &&& (#[trigger] glossary.entries@[q])@.term == before[q]@.term
                    &&& glossary.entries@[q]@.alts == before[q]@.alts
                    &&& stripped_definition(
                        p@,
                        *before[q].spec_definition(),
                        *glossary.entries@[q].spec_definition(),
                    )
                },
            forall|q: int| 0 <= q < k ==> !((#[trigger] before[q]).spec_definition() is Yomitan),
            glossary.info == info_after,
            gname == name,
            strip_pattern == Some(p),
            info_after.wf(),
            info_after@ == match gname {
                Some(n) => if key_index(old(glossary).info@, "name"@) is Some {
                    store(old(glossary).info@, "name"@, n@)
                } else {
                    old(glossary).info@
                },
                None => old(glossary).info@,
            },
            glossary.data_entries == old(glossary).data_entries,
    {
        let ghost cur = glossary.entries@;
        let d = glossary.entries[k].definition_mut();
        match d {
            Definition::Text(s) => {
                *s = strip_matches(p, s.as_str());
            },
            Definition::Html(s) => {
                *s = strip_matches(p, s.as_str());
            },
            Definition::Yomitan(_) => {
                assert(before[k as int].spec_definition() is Yomitan);
                assert(has_yomitan_definition(*old(glossary)));
                return Err(PostReadError::YomitanDefinition);
            },
        }
        assert forall|q: int| 0 <= q < n && q != k implies glossary.entries@[q] == cur[q] by {}
    }
    Ok(())
}

/// A copy of a stylesheet.
pub fn copy_stylesheet(s: &StyleSheet) -> (r: StyleSheet)
    ensures
        stylesheet_view(r@) == stylesheet_view(s@),
{
    let mut out: StyleSheet = Vec::new();
    let n = s.len();
    for i in 0..n
        invariant
            n == s@.len(),
            stylesheet_view(out@) == stylesheet_view(s@.take(i as int)),
    {
        let ghost old_out = out@;
        let id = s[i].0;
        let before = s[i].1.0.clone();
        let after = s[i].1.1.clone();
        out.push((id, (before, after)));
        proof {
            assert(s@.take(i + 1) =~= s@.take(i as int).push(s@[i as int]));
            assert(out@ =~= old_out.push((id, (before, after))));
            assert(stylesheet_view(out@) =~= stylesheet_view(old_out).push((id, (before@, after@))));
            assert(stylesheet_view(s@.take(i + 1)) =~= stylesheet_view(s@.take(i as int)).push(
                (s@[i as int].0, (s@[i as int].1.0@, s@[i as int].1.1@)),
            ));
        }
    }
    proof {
        assert(s@.take(n as int) =~= s@);
    }
    out
}

/// The view of a stylesheet, where there is one.
pub open spec fn sheet_view(s: Option<StyleSheet>) -> Option<Seq<(u32, (Seq<char>, Seq<char>))>> {
    match s {
        Some(x) => Some(stylesheet_view(x@)),
        None => None,
    }
}

/// Whether `ts` are the transforms to apply before writing a glossary read
/// as `rf` (with the stylesheet `sheet`) as `wf`: the headword trimming;
/// then, for a glossary read from Mdict that has a stylesheet, the
/// resolution of its styles; then, for json, the renaming of duplicate
/// headwords, having seen none yet.
pub open spec fn planned(
    rf: ReaderFormat,
    wf: WriterFormat,
    sheet: Option<Seq<(u32, (Seq<char>, Seq<char>))>>,
    ts: Seq<EntryTransform>,
) -> bool {
    let styles = rf == ReaderFormat::Mdict && sheet is Some;
    let n_styles: int = if styles { 1 } else { 0 };
    let n_dups: int = if wf == WriterFormat::Json { 1 } else { 0 };
    &&& ts.len() == 1 + n_styles + n_dups
    &&& ts[0] is TrimWhiteSpace
    &&& styles ==> (ts[1] matches EntryTransform::ResolveMdictStyles(x) && Some(stylesheet_view(x.style_sheet@)) == sheet)
    &&& wf == WriterFormat::Json ==> (ts.last() matches EntryTransform::PreventDuplicateTerms(x) && x@ == Set::<
        Seq<char>,
    >::empty())
}

/// The transforms to apply before writing. None when a format is unknown or
/// the formats are the same (a glossary written back to its own format
/// stays as it was read). Otherwise the headword trimming; then the
/// resolution of Mdict styles, for a glossary read from Mdict that has a
/// stylesheet; then, for json, the renaming of duplicate headwords.
pub fn pre_write_transformer(
    rformat: Option<ReaderFormat>,
    wformat: Option<WriterFormat>,
    stylesheet: Option<&StyleSheet>,
) -> (r: Option<EntryTransformer>)
    ensures
        match (rformat, wformat) {
            (Some(rf), Some(wf)) => if same_format(rf, wf) {
                r is None
            } else {
                r matches Some(t) && planned(
                    rf,
                    wf,
                    match stylesheet {
                        Some(x) => Some(stylesheet_view(x@)),
                        None => None,
                    },
                    t.transforms@,
                )
            },
            _ => r is None,
        },
{
    let (rf, wf) = match (rformat, wformat) {
        (Some(rf), Some(wf)) => (rf, wf),
        _ => return None,
    };
    if rf.eq(&wf) {
        return None;
    }
    let mut t = EntryTransformer::default();
    if let ReaderFormat::Mdict = rf {
        if let Some(sheet) = stylesheet {
            t = t.add(EntryTransform::ResolveMdictStyles(ResolveMdictStyles::new(copy_stylesheet(sheet))));
        }
    }
    if let WriterFormat::Json = wf {
        t = t.add(EntryTransform::PreventDuplicateTerms(PreventDuplicateTerms::new()));
    }
    Some(t)
}

/// Whether the transforms before writing resolve Mdict styles: the glossary
/// comes from Mdict, has a stylesheet and goes to another format.
pub open spec fn resolving(
    rformat: Option<ReaderFormat>,
    wformat: Option<WriterFormat>,
    sheet: Option<Seq<(u32, (Seq<char>, Seq<char>))>>,
) -> bool {
    &&& rformat == Some(ReaderFormat::Mdict)
    &&& wformat is Some
    &&& !same_format(ReaderFormat::Mdict, wformat.unwrap())
    &&& sheet is Some
}

/// The entry the style resolver is handed: a Yomitan definition stands as its
/// text (`text`) where styles are resolved.
pub open spec fn prepared(e: EntryView, text: Seq<char>, resolve: bool) -> EntryView {
    if resolve && e.definition is Yomitan {
        EntryView { term: e.term, definition: DefinitionView::Text(text), alts: e.alts }
    } else {
        e
    }
}

/// Before writing: applies [`pre_write_transformer`]'s transforms to every
/// entry in turn. Where Mdict styles are resolved, a Yomitan definition is
/// first replaced by its text, `texts[k]` for entry `k` (the json of its
/// structured content, which the caller serializes).
pub fn pre_write(
    glossary: &mut Glossary,
    rformat: Option<ReaderFormat>,
    wformat: Option<WriterFormat>,
    texts: &[String],
)
    requires
        resolving(rformat, wformat, sheet_view(old(glossary).metadata.stylesheet)) ==> texts@.len()
            == old(glossary).entries@.len(),
    ensures
        final(glossary).entries@.len() == old(glossary).entries@.len(),
        final(glossary).data_entries == old(glossary).data_entries,
        final(glossary).info == old(glossary).info,
        final(glossary).metadata == old(glossary).metadata,
        (rformat is None || wformat is None || same_format(rformat.unwrap(), wformat.unwrap()))
            ==> *final(glossary) == *old(glossary),
        (rformat is Some && wformat is Some && !same_format(rformat.unwrap(), wformat.unwrap())) ==> exists|
            states: Seq<Seq<EntryTransform>>,
        |
            #![trigger states.len()]
            {
                let n = old(glossary).entries@.len();
                let resolve = resolving(rformat, wformat, sheet_view(old(glossary).metadata.stylesheet));
                &&& states.len() == n + 1
                &&& planned(rformat.unwrap(), wformat.unwrap(), sheet_view(old(glossary).metadata.stylesheet), states[0])
                &&& forall|k: int|
                    0 <= k < n ==> #[trigger] transformed(
                        states[k],
                        prepared(old(glossary).entries@[k]@, texts@[k]@, resolve),
                        states[k + 1],
                        final(glossary).entries@[k]@,
                    )
            },
{
    let resolve = match (rformat, wformat) {
        (Some(ReaderFormat::Mdict), Some(wf)) => !ReaderFormat::Mdict.eq(&wf) && glossary.metadata.stylesheet.is_some(),
        _ => false,
    };
    let ghost g0 = *glossary;
    let n = glossary.entries.len();
    if resolve {
        for k in 0..n
            invariant
                n == glossary.entries@.len(),
                n == g0.entries@.len(),
                texts@.len() == n,
                glossary.data_entries == g0.data_entries,
                glossary.info == g0.info,
                glossary.metadata == g0.metadata,
                forall|j: int| 0 <= j < k ==> !((#[trigger] glossary.entries@[j]).spec_definition() is Yomitan),
                forall|j: int| 0 <= j < n ==> (#[trigger] glossary.entries@[j])@ == if j < k {
                    prepared(g0.entries@[j]@, texts@[j]@, true)
                } else {
                    g0.entries@[j]@
                },
                forall|j: int| k <= j < n ==> #[trigger] glossary.entries@[j] == g0.entries@[j],
        {
            let is_yomitan = match glossary.entries[k].definition() {
                Definition::Yomitan(_) => true,
                _ => false,
            };
            if is_yomitan {
                let e = &mut glossary.entries[k];
                let d = e.definition_mut();
                *d = Definition::Text(texts[k].clone());
            }
        }
    }
    let ghost g1 = *glossary;
    assert(resolve == resolving(rformat, wformat, sheet_view(g0.metadata.stylesheet)));
    assert forall|k: int| 0 <= k < n implies g1.entries@[k]@ == #[trigger] prepared(
        g0.entries@[k]@,
        texts@[k]@,
        resolve,
    ) by {
        if !resolve {
            assert(g1.entries@[k] == g0.entries@[k]);
        }
    }
    let plan = pre_write_transformer(rformat, wformat, glossary.metadata.stylesheet.as_ref());
    match plan {
        Some(mut t) => {
            assert forall|i: int|
                0 <= i < t.transforms@.len() && (#[trigger] t.transforms@[i]) is ResolveMdictStyles implies
                forall|k: int| 0 <= k < glossary.entries@.len() ==> !((#[trigger] glossary.entries@[k]).spec_definition() is Yomitan) by {
                assert(resolve);
            }
            t.transform_glossary(glossary);
        },
        None => {
            assert(g1 == g0) by {
                assert(g1.entries@ =~= g0.entries@) by {
                    assert forall|k: int| 0 <= k < n implies g1.entries@[k] == g0.entries@[k] by {
                        assert(!resolve);
                    }
                }
            }
        },
    }
}

} // verus!
