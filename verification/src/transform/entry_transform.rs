//! Transformations of entries: trimming headwords, keeping headwords unique,
//! and resolving Mdict's inline styles.

use vstd::prelude::*;
use vstd::hash_set::StringHashSet;
use vstd::string::StringExecFns;

use crate::formats::mdict::reader::stylesheet_view;
use crate::glossary::definition::{Definition, DefinitionView};
use crate::formats::stardict::reader::slice_to_bytes;
use crate::glossary::entry::{bytes_of, join_spec, terms_list, utf8_of, Entry, EntryView, TERM_SEPARATOR};
use crate::glossary::{Glossary, StyleSheet};
use crate::strs::{
    chars_of, decimal_spec, lemma_decimal_injective, lossy_utf8, parse_unsigned, parse_unsigned_spec, push_decimal, replace_all,
    replace_spec, trim, trim_spec, utf8_lossy,
};

verus! {

/// Trims the headword and takes out its carriage returns.
pub struct TrimWhiteSpace;

impl TrimWhiteSpace {
    /// Trims the entry's headword and removes every `\r` from it.
    pub fn apply(&self, entry: &mut Entry)
        ensures
            final(entry)@.term == replace_spec(trim_spec(old(entry)@.term), "\r"@, ""@),
            final(entry)@.definition == old(entry)@.definition,
            final(entry)@.alts == old(entry)@.alts,
            final(entry).spec_definition() == old(entry).spec_definition(),
            final(entry).spec_alts() == old(entry).spec_alts(),
    {
        proof {
            reveal_strlit("\r");
        }
        let t = trim(entry.term());
        let cleaned = replace_all(t.as_str(), "\r", "");
        let term = entry.term_mut();
        *term = cleaned;
    }
}

/// `term (n)`.
pub open spec fn numbered(term: Seq<char>, n: nat) -> Seq<char> {
    term + " ("@ + decimal_spec(n) + ")"@
}

/// Makes headwords unique across the entries it sees: a headword (with its
/// alts) already seen becomes `headword (n)` for the first `n` from 2 on that
/// was not seen either.
pub struct PreventDuplicateTerms {
    seen: StringHashSet,
}

impl View for PreventDuplicateTerms {
    type V = Set<Seq<char>>;

    closed spec fn view(&self) -> Set<Seq<char>> {
        self.seen@
    }
}

impl PreventDuplicateTerms {
    /// A transform that has seen nothing.
    pub fn new() -> (r: Self)
        ensures
            r@ == Set::<Seq<char>>::empty(),
    {
        Self { seen: StringHashSet::new() }
    }

    /// Renames the entry where its headwords were seen, and records the name.
    pub fn apply(&mut self, entry: &mut Entry)
        ensures
            ({
                let t = join_spec(terms_list(old(entry)@), TERM_SEPARATOR);
                if !old(self)@.contains(t) {
                    &&& final(self)@ == old(self)@.insert(t)
                    &&& final(entry)@ == old(entry)@
                } else {
                    (final(entry)@ == old(entry)@ && final(self)@ == old(self)@ && forall|k: nat|
                        2 <= k < u64::MAX ==> old(self)@.contains(#[trigger] numbered(t, k)))
                        || exists|n: nat|
                        #![trigger numbered(t, n)]
                        {
                            &&& n >= 2
                            &&& final(entry)@.term == numbered(t, n)
                            &&& !old(self)@.contains(numbered(t, n))
                            &&& final(self)@ == old(self)@.insert(numbered(t, n))
                            &&& forall|k: nat| 2 <= k < n ==> old(self)@.contains(#[trigger] numbered(t, k))
                        }
                }
            }),
            final(entry)@.definition == old(entry)@.definition,
            final(entry)@.alts == old(entry)@.alts,
            final(entry).spec_definition() == old(entry).spec_definition(),
            final(entry).spec_alts() == old(entry).spec_alts(),
    {
        let term = entry.s_terms();
        if !self.seen.contains(term.as_str()) {
            self.seen.insert(term);
            return;
        }
        let ghost start = self.seen@;
        let mut n: u64 = 2;
        let mut candidate = numbered_string(term.as_str(), n);
        while self.seen.contains(candidate.as_str())
            invariant
                self.seen@ == start,
                start == old(self)@,
                start.contains(term@),
                *entry == *old(entry),
                term@ == join_spec(terms_list(old(entry)@), TERM_SEPARATOR),
                2 <= n,
                candidate@ == numbered(term@, n as nat),
                forall|k: nat| 2 <= k < n ==> start.contains(#[trigger] numbered(term@, k)),
            decreases u64::MAX - n,
        {
            if n == u64::MAX {
                proof {
                    let t = join_spec(terms_list(old(entry)@), TERM_SEPARATOR);
                    assert(old(self)@.contains(t));
                    assert(self@ == old(self)@);
                    assert(entry@ == old(entry)@);
                    assert(forall|k: nat| 2 <= k < u64::MAX ==> old(self)@.contains(#[trigger] numbered(t, k)));
                }
                return;
            }
            n = n + 1;
            candidate = numbered_string(term.as_str(), n);
        }
        self.seen.insert(candidate.clone());
        let t = entry.term_mut();
        *t = candidate;
    }
}

fn numbered_string(term: &str, n: u64) -> (r: String)
    ensures
        r@ == numbered(term@, n as nat),
{
    let mut s = String::new();
    s.append(term);
    s.append(" (");
    push_decimal(&mut s, n);
    s.append(")");
    s
}

/// The style markers `` `N` `` of a definition, as the regex `` `(\d+)` ``
/// finds them: the byte range of each match in the text's utf-8 and the
/// digits it captured.
pub uninterp spec fn style_marker_matches(s: Seq<char>) -> Seq<(int, int, Seq<char>)>;

/// The matches as numbers and characters.
pub open spec fn marker_views(v: Seq<(usize, usize, String)>) -> Seq<(int, int, Seq<char>)> {
    v.map_values(|m: (usize, usize, String)| (m.0 as int, m.1 as int, m.2@))
}

/// Whether byte ranges come one after the other inside `len` bytes.
pub open spec fn ranges_in_order(ms: Seq<(int, int, Seq<char>)>, len: int) -> bool {
    &&& forall|i: int| 0 <= i < ms.len() ==> 0 <= #[trigger] ms[i].0 <= ms[i].1 <= len
    &&& forall|i: int| 0 < i < ms.len() ==> ms[i - 1].1 <= #[trigger] ms[i].0
}

/// Calls `regex::Regex::captures_iter` with `` `(\d+)` ``; the matches are
/// named, and (as the regex documentation gives) they come in order, without
/// overlapping, inside the text.
#[verifier::external_body]
fn find_style_markers(s: &str) -> (r: Vec<(usize, usize, String)>)
    ensures
        marker_views(r@) == style_marker_matches(s@),
        ranges_in_order(marker_views(r@), utf8_of(s@).len() as int),
{
    let re = regex::Regex::new(r"`(\d+)`").unwrap();
    re.captures_iter(s).map(|c| (c.get(0).unwrap().start(), c.get(0).unwrap().end(), c[1].to_string())).collect()
}

/// Where the text before match `i` starts: after the previous match.
pub open spec fn piece_start(ms: Seq<(int, int, Seq<char>)>, i: int) -> int {
    if i == 0 {
        0
    } else {
        ms[i - 1].1
    }
}

/// The text before each style marker of `s` and the marker's digits.
pub open spec fn marker_pieces(s: Seq<char>) -> Seq<(Seq<char>, Seq<char>)> {
    let ms = style_marker_matches(s);
    Seq::new(
        ms.len(),
        |i: int| (lossy_utf8(utf8_of(s).subrange(piece_start(ms, i), ms[i].0)), ms[i].2),
    )
}

/// The text after the last style marker of `s`.
pub open spec fn marker_rest(s: Seq<char>) -> Seq<char> {
    let ms = style_marker_matches(s);
    lossy_utf8(utf8_of(s).subrange(piece_start(ms, ms.len() as int), utf8_of(s).len() as int))
}

/// The style a stylesheet gives a number: the first with that number.
pub open spec fn style_of(sheet: Seq<(u32, (Seq<char>, Seq<char>))>, id: int) -> Option<(Seq<char>, Seq<char>)>
    decreases sheet.len(),
{
    if sheet.len() == 0 {
        None
    } else if sheet[0].0 == id {
        Some(sheet[0].1)
    } else {
        style_of(sheet.skip(1), id)
    }
}

/// The text and the pending suffix after the marked pieces: each piece's
/// text, then for a known style the pending suffix and the style's prefix
/// (its suffix pending), for an unknown one the pending suffix alone.
pub open spec fn resolve_pieces(
    sheet: Seq<(u32, (Seq<char>, Seq<char>))>,
    pieces: Seq<(Seq<char>, Seq<char>)>,
) -> (Seq<char>, Seq<char>)
    decreases pieces.len(),
{
    if pieces.len() == 0 {
        (Seq::empty(), Seq::empty())
    } else {
        let (out, pending) = resolve_pieces(sheet, pieces.drop_last());
        let (text, digits) = pieces.last();
        let id = match parse_unsigned_spec(digits, u32::MAX as int) {
            Some(v) => v,
            None => 0,
        };
        match style_of(sheet, id) {
            Some((prefix, suffix)) => (out + text + pending + prefix, suffix),
            None => (out + text + pending, Seq::empty()),
        }
    }
}

/// A definition with its style markers resolved: the text as it is where it
/// holds no marker (as goldendict-ng's stylesheet substitution leaves it).
pub open spec fn resolve_styles_spec(sheet: Seq<(u32, (Seq<char>, Seq<char>))>, s: Seq<char>) -> Seq<char> {
    let pieces = marker_pieces(s);
    let rest = marker_rest(s);
    if pieces.len() == 0 {
        s
    } else {
        let (out, pending) = resolve_pieces(sheet, pieces);
        out + rest + pending
    }
}

/// Resolves Mdict's inline styles, `` `N` ``, with the dictionary's stylesheet.
pub struct ResolveMdictStyles {
    pub style_sheet: StyleSheet,
}

impl ResolveMdictStyles {
    /// A transform resolving the styles of `style_sheet`.
    pub fn new(style_sheet: StyleSheet) -> (r: Self)
        ensures
            r.style_sheet == style_sheet,
    {
        Self { style_sheet }
    }

    fn find_style(&self, id: u64) -> (r: Option<usize>)
        ensures
            match r {
                Some(i) => i < self.style_sheet@.len() && style_of(stylesheet_view(self.style_sheet@), id as int)
                    == Some((self.style_sheet@[i as int].1.0@, self.style_sheet@[i as int].1.1@)),
                None => style_of(stylesheet_view(self.style_sheet@), id as int) is None,
            },
    {
        let ghost sv = stylesheet_view(self.style_sheet@);
        let n = self.style_sheet.len();
        let mut i: usize = 0;
        assert(sv.skip(0) =~= sv);
        while i < n
            invariant
                n == self.style_sheet@.len(),
                sv == stylesheet_view(self.style_sheet@),
                i <= n,
                style_of(sv, id as int) == style_of(sv.skip(i as int), id as int),
            decreases n - i,
        {
            let ghost rest = sv.skip(i as int);
            assert(rest[0] == sv[i as int]);
            assert(rest.skip(1) =~= sv.skip(i + 1));
            if self.style_sheet[i].0 as u64 == id {
                return Some(i);
            }
            i = i + 1;
        }
        None
    }

    /// The text with its style markers resolved.
    pub fn repl(&self, s: &str) -> (r: String)
        ensures
            r@ == resolve_styles_spec(stylesheet_view(self.style_sheet@), s@),
    {
        let ghost sheet = stylesheet_view(self.style_sheet@);
        let bytes = bytes_of(s);
        let ms = find_style_markers(s);
        let ghost mv = style_marker_matches(s@);
        let mut pieces: Vec<(String, String)> = Vec::new();
        let mut last: usize = 0;
        let m = ms.len();
        for i in 0..m
            invariant
                m == ms@.len(),
                bytes@ == utf8_of(s@),
                marker_views(ms@) == mv,
                mv == style_marker_matches(s@),
                ranges_in_order(mv, bytes@.len() as int),
                last as int == piece_start(mv, i as int),
                pieces@.map_values(|p: (String, String)| (p.0@, p.1@)) == marker_pieces(s@).take(i as int),
        {
            assert(mv[i as int] == (ms@[i as int].0 as int, ms@[i as int].1 as int, ms@[i as int].2@));
            assert(0 <= mv[i as int].0 <= mv[i as int].1 <= bytes@.len());
            if i > 0 {
                assert(mv[i - 1].1 <= mv[i as int].0);
            }
            let start = ms[i].0;
            let end = ms[i].1;
            let piece = slice_to_bytes(bytes.as_slice(), last, start);
            let text = utf8_lossy(piece.as_slice());
            let ghost prev = pieces@;
            pieces.push((text, ms[i].2.clone()));
            proof {
                assert(pieces@.map_values(|p: (String, String)| (p.0@, p.1@)) =~= prev.map_values(
                    |p: (String, String)| (p.0@, p.1@),
                ).push((text@, ms@[i as int].2@)));
                assert(marker_pieces(s@).take(i + 1) =~= marker_pieces(s@).take(i as int).push(
                    marker_pieces(s@)[i as int],
                ));
            }
            last = end;
        }
        assert(marker_pieces(s@).take(m as int) =~= marker_pieces(s@));
        if m > 0 {
            assert(0 <= mv[m - 1].0 <= mv[m - 1].1 <= bytes@.len());
        }
        let tail = slice_to_bytes(bytes.as_slice(), last, bytes.len());
        let rest = utf8_lossy(tail.as_slice());
        assert(rest@ == marker_rest(s@));
        let ghost pv = pieces@.map_values(|p: (String, String)| (p.0@, p.1@));
        let mut out = String::new();
        let mut pending = String::new();
        let n = pieces.len();
        for i in 0..n
            invariant
                n == pieces@.len(),
                sheet == stylesheet_view(self.style_sheet@),
                pv == pieces@.map_values(|p: (String, String)| (p.0@, p.1@)),
                (out@, pending@) == resolve_pieces(sheet, pv.take(i as int)),
        {
            proof {
                assert(pv.take(i + 1).drop_last() =~= pv.take(i as int));
                assert(pv.take(i + 1).last() == pv[i as int]);
            }
            let (text, digits) = (&pieces[i].0, &pieces[i].1);
            out.append(text.as_str());
            let ds = chars_of(digits.as_str());
            let id: u64 = match parse_unsigned(&ds, 0xFFFF_FFFF) {
                Some(v) => v,
                None => 0,
            };
            match self.find_style(id) {
                Some(k) => {
                    out.append(pending.as_str());
                    out.append(self.style_sheet[k].1.0.as_str());
                    pending = self.style_sheet[k].1.1.clone();
                },
                None => {
                    out.append(pending.as_str());
                    pending = String::new();
                },
            }
        }
        assert(pv.take(n as int) =~= pv);
        if n > 0 {
            out.append(rest.as_str());
            out.append(pending.as_str());
            out
        } else {
            s.to_string()
        }
    }

    /// Replaces a text or html definition by the html of its text with the
    /// styles resolved.
    pub fn apply(&self, entry: &mut Entry)
        requires
            !(old(entry).spec_definition() is Yomitan),
        ensures
            final(entry)@.definition == DefinitionView::Html(
                resolve_styles_spec(
                    stylesheet_view(self.style_sheet@),
                    match old(entry)@.definition {
                        DefinitionView::Text(s) => s,
                        DefinitionView::Html(s) => s,
                        _ => Seq::empty(),
                    },
                ),
            ),
            final(entry)@.term == old(entry)@.term,
            final(entry)@.alts == old(entry)@.alts,
            final(entry).spec_definition() is Html,
    {
        let text = match entry.definition() {
            Definition::Text(s) => self.repl(s.as_str()),
            Definition::Html(s) => self.repl(s.as_str()),
            Definition::Yomitan(_) => String::new(),
        };
        let d = entry.definition_mut();
        *d = Definition::Html(text);
    }
}

/// Whether `e2` is `e` with its headword trimmed and its carriage returns
/// taken out.
pub open spec fn trims(e: EntryView, e2: EntryView) -> bool {
    &&& e2.term == replace_spec(trim_spec(e.term), "\r"@, ""@)
    &&& e2.definition == e.definition
    &&& e2.alts == e.alts
}

/// Whether `e2` and the seen headwords `seen2` are what renaming duplicates
/// makes of `e` having seen `seen`: a new headword line is recorded as it is;
/// one seen becomes `headword (n)` for the least `n` from 2 not seen (or,
/// where every such `n` up to `u64::MAX` was seen, stays).
pub open spec fn dedups(seen: Set<Seq<char>>, e: EntryView, seen2: Set<Seq<char>>, e2: EntryView) -> bool {
    let t = join_spec(terms_list(e), TERM_SEPARATOR);
    &&& e2.definition == e.definition
    &&& e2.alts == e.alts
    &&& if !seen.contains(t) {
        seen2 == seen.insert(t) && e2 == e
    } else {
        (e2 == e && seen2 == seen && forall|k: nat| 2 <= k < u64::MAX ==> seen.contains(#[trigger] numbered(t, k)))
            || exists|n: nat|
            #![trigger numbered(t, n)]
            {
                &&& n >= 2
                &&& e2.term == numbered(t, n)
                &&& !seen.contains(numbered(t, n))
                &&& seen2 == seen.insert(numbered(t, n))
                &&& forall|k: nat| 2 <= k < n ==> seen.contains(#[trigger] numbered(t, k))
            }
    }
}

/// Whether `e2` is `e` with the styles of its text resolved, as html.
pub open spec fn resolves(sheet: Seq<(u32, (Seq<char>, Seq<char>))>, e: EntryView, e2: EntryView) -> bool {
    &&& e2.definition == DefinitionView::Html(
        resolve_styles_spec(
            sheet,
            match e.definition {
                DefinitionView::Text(s) => s,
                DefinitionView::Html(s) => s,
                _ => Seq::empty(),
            },
        ),
    )
    &&& e2.term == e.term
    &&& e2.alts == e.alts
}

/// Whether applying transform `t` to `e` gives `e2` and leaves the transform
/// as `t2`.
pub open spec fn applied(t: EntryTransform, e: EntryView, t2: EntryTransform, e2: EntryView) -> bool {
    match (t, t2) {
        (EntryTransform::TrimWhiteSpace(_), EntryTransform::TrimWhiteSpace(_)) => trims(e, e2),
        (EntryTransform::PreventDuplicateTerms(p), EntryTransform::PreventDuplicateTerms(p2)) => dedups(p@, e, p2@, e2),
        (EntryTransform::ResolveMdictStyles(r), EntryTransform::ResolveMdictStyles(r2)) => r2 == r && resolves(
            stylesheet_view(r.style_sheet@),
            e,
            e2,
        ),
        _ => false,
    }
}

/// Whether applying the transforms `ts` in turn to `e` gives `e2` and
/// leaves them as `ts2`.
pub open spec fn transformed(ts: Seq<EntryTransform>, e: EntryView, ts2: Seq<EntryTransform>, e2: EntryView) -> bool {
    &&& ts2.len() == ts.len()
    &&& exists|chain: Seq<EntryView>|
        #![trigger chain.len()]
        {
            &&& chain.len() == ts.len() + 1
            &&& chain[0] == e
            &&& chain[ts.len() as int] == e2
            &&& forall|i: int| 0 <= i < ts.len() ==> #[trigger] applied(ts[i], chain[i], ts2[i], chain[i + 1])
        }
}

/// One transform of an [`EntryTransformer`].
pub enum EntryTransform {
    TrimWhiteSpace(TrimWhiteSpace),
    PreventDuplicateTerms(PreventDuplicateTerms),
    ResolveMdictStyles(ResolveMdictStyles),
}

impl EntryTransform {
    /// Whether this transform accepts the entry: the style resolver takes
    /// text and html definitions only.
    pub open spec fn accepts(&self, e: Entry) -> bool {
        match self {
            EntryTransform::ResolveMdictStyles(_) => !(e.spec_definition() is Yomitan),
            _ => true,
        }
    }

    /// Whether two transforms are of the same kind.
    pub open spec fn same_kind(&self, other: EntryTransform) -> bool {
        match (self, other) {
            (EntryTransform::TrimWhiteSpace(_), EntryTransform::TrimWhiteSpace(_)) => true,
            (EntryTransform::PreventDuplicateTerms(_), EntryTransform::PreventDuplicateTerms(_)) => true,
            (EntryTransform::ResolveMdictStyles(_), EntryTransform::ResolveMdictStyles(_)) => true,
            _ => false,
        }
    }

    /// Applies the transform.
    pub fn apply(&mut self, entry: &mut Entry)
        requires
            old(self).accepts(*old(entry)),
        ensures
            !(old(entry).spec_definition() is Yomitan) ==> !(final(entry).spec_definition() is Yomitan),
            final(self).same_kind(*old(self)),
            final(entry)@.alts == old(entry)@.alts,
            applied(*old(self), old(entry)@, *final(self), final(entry)@),
    {
        match self {
            EntryTransform::TrimWhiteSpace(t) => t.apply(entry),
            EntryTransform::PreventDuplicateTerms(t) => t.apply(entry),
            EntryTransform::ResolveMdictStyles(t) => t.apply(entry),
        }
    }
}

/// Transforms applied to entries in order.
pub struct EntryTransformer {
    pub transforms: Vec<EntryTransform>,
}

impl EntryTransformer {
    /// No transforms.
    pub fn new() -> (r: Self)
        ensures
            r.transforms@.len() == 0,
    {
        Self { transforms: Vec::new() }
    }

    /// The same transforms and `t` last.
    pub fn add(self, t: EntryTransform) -> (r: Self)
        ensures
            r.transforms@ == self.transforms@.push(t),
    {
        let mut transforms = self.transforms;
        transforms.push(t);
        Self { transforms }
    }

    /// The headword trimming alone.
    pub fn default() -> (r: Self)
        ensures
            r.transforms@.len() == 1,
            r.transforms@[0] is TrimWhiteSpace,
    {
        Self::new().add(EntryTransform::TrimWhiteSpace(TrimWhiteSpace))
    }

    /// Applies each transform in turn (the style resolver only to a text or
    /// html definition).
    pub fn transform(&mut self, entry: &mut Entry)
        requires
            forall|i: int|
                0 <= i < old(self).transforms@.len() ==> (#[trigger] old(self).transforms@[i]) is ResolveMdictStyles
                    ==> !(old(entry).spec_definition() is Yomitan),
        ensures
            final(self).transforms@.len() == old(self).transforms@.len(),
            forall|i: int| 0 <= i < old(self).transforms@.len() ==> (#[trigger] final(self).transforms@[i]).same_kind(old(self).transforms@[i]),
            final(entry)@.alts == old(entry)@.alts,
            !(old(entry).spec_definition() is Yomitan) ==> !(final(entry).spec_definition() is Yomitan),
            transformed(old(self).transforms@, old(entry)@, final(self).transforms@, final(entry)@),
    {
        let n = self.transforms.len();
        let ghost kinds = self.transforms@;
        let ghost mut chain: Seq<EntryView> = seq![entry@];
        for i in 0..n
            invariant
                n == self.transforms@.len(),
                n == kinds.len(),
                kinds == old(self).transforms@,
                forall|j: int| 0 <= j < n ==> (#[trigger] self.transforms@[j]).same_kind(kinds[j]),
                forall|j: int| 0 <= j < n ==> (#[trigger] kinds[j]) is ResolveMdictStyles ==> !(old(entry).spec_definition() is Yomitan),
                entry@.alts == old(entry)@.alts,
                !(old(entry).spec_definition() is Yomitan) ==> !(entry.spec_definition() is Yomitan),
                chain.len() == i + 1,
                chain[0] == old(entry)@,
                chain[i as int] == entry@,
                forall|j: int| i <= j < n ==> self.transforms@[j] == kinds[j],
                forall|j: int| 0 <= j < i ==> #[trigger] applied(kinds[j], chain[j], self.transforms@[j], chain[j + 1]),
        {
            assert(self.transforms@[i as int].same_kind(kinds[i as int]));
            let ghost before = self.transforms@;
            let ghost e_before = entry@;
            self.transforms[i].apply(entry);
            proof {
                let old_chain = chain;
                chain = chain.push(entry@);
                assert forall|j: int| 0 <= j < i + 1 implies #[trigger] applied(kinds[j], chain[j], self.transforms@[j], chain[j + 1]) by {
                    if j < i {
                        assert(self.transforms@[j] == before[j]);
                        assert(chain[j] == old_chain[j]);
                        assert(chain[j + 1] == old_chain[j + 1]);
                    } else {
                        assert(chain[j] == e_before);
                        assert(kinds[j] == before[j]);
                    }
                }
                assert forall|j: int| i + 1 <= j < n implies self.transforms@[j] == kinds[j] by {
                    assert(self.transforms@[j] == before[j]);
                }
            }
            assert forall|j: int| 0 <= j < n implies (#[trigger] self.transforms@[j]).same_kind(kinds[j]) by {
                if j != i {
                    assert(self.transforms@[j] == before[j]);
                }
            }
        }
        assert(chain.len() == n + 1);
    }

    /// Applies the transforms to every entry of the glossary.
    pub fn transform_glossary(&mut self, glossary: &mut Glossary)
        requires
            forall|i: int|
                0 <= i < old(self).transforms@.len() ==> (#[trigger] old(self).transforms@[i]) is ResolveMdictStyles
                    ==> forall|k: int| 0 <= k < old(glossary).entries@.len() ==> !((#[trigger] old(glossary).entries@[k]).spec_definition() is Yomitan),
        ensures
            final(glossary).entries@.len() == old(glossary).entries@.len(),
            final(glossary).data_entries == old(glossary).data_entries,
            final(glossary).info == old(glossary).info,
            final(glossary).metadata == old(glossary).metadata,
            exists|states: Seq<Seq<EntryTransform>>|
                #![trigger states.len()]
                {
                    &&& states.len() == old(glossary).entries@.len() + 1
                    &&& states[0] == old(self).transforms@
                    &&& states[old(glossary).entries@.len() as int] == final(self).transforms@
                    &&& forall|k: int|
                        0 <= k < old(glossary).entries@.len() ==> #[trigger] transformed(
                            states[k],
                            old(glossary).entries@[k]@,
                            states[k + 1],
                            final(glossary).entries@[k]@,
                        )
                },
    {
        let n = glossary.entries.len();
        let ghost kinds = self.transforms@;
        let ghost mut states: Seq<Seq<EntryTransform>> = seq![self.transforms@];
        let ghost has_resolver = exists|i: int| 0 <= i < kinds.len() && (#[trigger] kinds[i]) is ResolveMdictStyles;
        for k in 0..n
            invariant
                n == glossary.entries@.len(),
                kinds.len() == self.transforms@.len(),
                forall|j: int| 0 <= j < kinds.len() ==> (#[trigger] self.transforms@[j]).same_kind(kinds[j]),
                kinds == old(self).transforms@,
                forall|i: int|
                    0 <= i < kinds.len() ==> (#[trigger] kinds[i]) is ResolveMdictStyles
                        ==> forall|q: int| k <= q < n ==> !((#[trigger] glossary.entries@[q]).spec_definition() is Yomitan),
                glossary.data_entries == old(glossary).data_entries,
                glossary.info == old(glossary).info,
                glossary.metadata == old(glossary).metadata,
                states.len() == k + 1,
                states[0] == old(self).transforms@,
                states[k as int] == self.transforms@,
                forall|q: int| k <= q < n ==> glossary.entries@[q] == old(glossary).entries@[q],
                forall|q: int|
                    0 <= q < k ==> #[trigger] transformed(
                        states[q],
                        old(glossary).entries@[q]@,
                        states[q + 1],
                        glossary.entries@[q]@,
                    ),
        {
            let ghost before = glossary.entries@;
            let ghost ts_before = self.transforms@;
            assert forall|i: int|
                0 <= i < self.transforms@.len() && (#[trigger] self.transforms@[i]) is ResolveMdictStyles implies !(
                glossary.entries@[k as int].spec_definition() is Yomitan) by {
                assert(self.transforms@[i].same_kind(kinds[i]));
            }
            self.transform(&mut glossary.entries[k]);
            proof {
                let old_states = states;
                states = states.push(self.transforms@);
                assert forall|q: int|
                    0 <= q < k + 1 implies #[trigger] transformed(
                    states[q],
                    old(glossary).entries@[q]@,
                    states[q + 1],
                    glossary.entries@[q]@,
                ) by {
                    if q < k {
                        assert(states[q] == old_states[q]);
                        assert(states[q + 1] == old_states[q + 1]);
                        assert(glossary.entries@[q] == before[q]);
                    } else {
                        assert(states[q] == ts_before);
                        assert(before[q] == old(glossary).entries@[q]);
                    }
                }
                assert forall|q: int| k + 1 <= q < n implies glossary.entries@[q] == old(glossary).entries@[q] by {
                    assert(glossary.entries@[q] == before[q]);
                }
            }
            assert forall|i: int|
                0 <= i < kinds.len() && (#[trigger] kinds[i]) is ResolveMdictStyles implies forall|q: int|
                k + 1 <= q < n ==> !((#[trigger] glossary.entries@[q]).spec_definition() is Yomitan) by {
                assert forall|q: int| k + 1 <= q < n implies glossary.entries@[q] == before[q] by {}
            }
            assert forall|j: int| 0 <= j < kinds.len() implies (#[trigger] self.transforms@[j]).same_kind(kinds[j]) by {
                assert(self.transforms@[j].same_kind(old(self).transforms@[j]) || true);
            }
        }
    }

    /// A description, as `Display` writes it.
    pub fn describe(&self) -> (r: String)
        ensures
            r@ == "EntryTransformer: "@ + decimal_spec(self.transforms@.len()) + " transforms"@,
    {
        let mut s = String::new();
        s.append("EntryTransformer: ");
        push_decimal(&mut s, self.transforms.len() as u64);
        s.append(" transforms");
        s
    }
}


proof fn lemma_numbered_injective(t: Seq<char>, a: nat, b: nat)
    requires
        numbered(t, a) == numbered(t, b),
    ensures
        a == b,
{
    reveal_strlit(" (");
    reveal_strlit(")");
    let p = t + " ("@;
    let x = numbered(t, a);
    let y = numbered(t, b);
    assert(x.len() == p.len() + decimal_spec(a).len() + 1);
    assert(y.len() == p.len() + decimal_spec(b).len() + 1);
    assert(x.subrange(p.len() as int, x.len() - 1) =~= decimal_spec(a));
    assert(y.subrange(p.len() as int, y.len() - 1) =~= decimal_spec(b));
    lemma_decimal_injective(a, b);
}

/// Fewer than `u64::MAX - 2` headwords seen leave a number to rename with.
proof fn lemma_numbers_left(seen: Set<Seq<char>>, t: Seq<char>)
    requires
        seen.finite(),
        seen.len() < u64::MAX - 2,
    ensures
        exists|k: nat| 2 <= k < u64::MAX && !seen.contains(#[trigger] numbered(t, k)),
{
    if forall|k: nat| 2 <= k < u64::MAX ==> seen.contains(#[trigger] numbered(t, k)) {
        let r = vstd::set_lib::set_int_range(2, u64::MAX as int);
        vstd::set_lib::lemma_int_range(2, u64::MAX as int);
        let f = |k: int| numbered(t, k as nat);
        let img = r.map(f);
        assert(vstd::relations::injective_on(f, r)) by {
            assert forall|x1: int, x2: int| r.contains(x1) && r.contains(x2) && #[trigger] f(x1) == #[trigger] f(
                x2,
            ) implies x1 == x2 by {
                lemma_numbered_injective(t, x1 as nat, x2 as nat);
            }
        }
        vstd::set_lib::lemma_map_size(r, img, f);
        assert(img.subset_of(seen)) by {
            assert forall|y: Seq<char>| img.contains(y) implies seen.contains(y) by {
                let x = choose|x: int| r.contains(x) && f(x) == y;
                assert(seen.contains(numbered(t, x as nat)));
            }
        }
        vstd::set_lib::lemma_len_subset(img, seen);
        assert(false);
    }
}

/// One renaming of an entry without alts: its headword afterwards is one not
/// seen before, and is then recorded.
proof fn lemma_dedup_step(seen: Set<Seq<char>>, e: EntryView, seen2: Set<Seq<char>>, e2: EntryView)
    requires
        seen.finite(),
        seen.len() < u64::MAX - 2,
        e.alts.len() == 0,
        dedups(seen, e, seen2, e2),
    ensures
        !seen.contains(e2.term),
        seen2 == seen.insert(e2.term),
        e2.alts.len() == 0,
{
    assert(terms_list(e) =~= seq![e.term]);
    assert(join_spec(terms_list(e), TERM_SEPARATOR) == e.term);
    if seen.contains(e.term) {
        lemma_numbers_left(seen, e.term);
        let k = choose|k: nat| 2 <= k < u64::MAX && !seen.contains(#[trigger] numbered(e.term, k));
        assert(seen.contains(numbered(e.term, k)) ==> false);
    }
}

/// Whether entry `i`, without alts, is renamed as [`dedups`] says, the
/// transform having seen `seen[i]` before and `seen[i + 1]` after.
pub open spec fn renamed_at(seen: Seq<Set<Seq<char>>>, before: Seq<EntryView>, after: Seq<EntryView>, i: int) -> bool {
    before[i].alts.len() == 0 && dedups(seen[i], before[i], seen[i + 1], after[i])
}

proof fn lemma_dedup_prefix(seen: Seq<Set<Seq<char>>>, before: Seq<EntryView>, after: Seq<EntryView>, k: int)
    requires
        before.len() == after.len(),
        seen.len() == before.len() + 1,
        seen[0].finite(),
        seen[0].len() + before.len() < u64::MAX - 2,
        forall|i: int| 0 <= i < before.len() ==> #[trigger] renamed_at(seen, before, after, i),
        0 <= k <= before.len(),
    ensures
        seen[k].finite(),
        seen[k].len() <= seen[0].len() + k,
        forall|i: int| 0 <= i <= k ==> (#[trigger] seen[i]).subset_of(seen[k]),
        forall|i: int| 0 <= i < k ==> !seen[i].contains((#[trigger] after[i]).term) && seen[i + 1].contains(after[i].term),
    decreases k,
{
    if k > 0 {
        lemma_dedup_prefix(seen, before, after, k - 1);
        assert(renamed_at(seen, before, after, k - 1));
        lemma_dedup_step(seen[k - 1], before[k - 1], seen[k], after[k - 1]);
        assert forall|i: int| 0 <= i <= k implies (#[trigger] seen[i]).subset_of(seen[k]) by {
            if i < k {
                assert(seen[i].subset_of(seen[k - 1]));
            }
        }
    }
}

/// Renaming duplicates gives entries without alts headwords that are all
/// distinct and none of them among those seen before, where fewer than
/// `u64::MAX - 2` headwords are seen in all: `seen[i]` is what the transform
/// has seen before entry `i`, which `before[i]` turns into `after[i]`.
pub proof fn lemma_dedups_unique(seen: Seq<Set<Seq<char>>>, before: Seq<EntryView>, after: Seq<EntryView>)
    requires
        before.len() == after.len(),
        seen.len() == before.len() + 1,
        seen[0].finite(),
        seen[0].len() + before.len() < u64::MAX - 2,
        forall|i: int| 0 <= i < before.len() ==> #[trigger] renamed_at(seen, before, after, i),
    ensures
        forall|i: int, j: int| 0 <= i < j < after.len() ==> (#[trigger] after[i]).term != (#[trigger] after[j]).term,
        forall|i: int| 0 <= i < after.len() ==> !seen[0].contains((#[trigger] after[i]).term),
{
    let n = before.len() as int;
    assert forall|i: int, j: int| 0 <= i < j < after.len() implies (#[trigger] after[i]).term != (
    #[trigger] after[j]).term by {
        lemma_dedup_prefix(seen, before, after, j);
        lemma_dedup_prefix(seen, before, after, j + 1);
        assert(seen[i + 1].subset_of(seen[j]));
        assert(seen[i + 1].contains(after[i].term));
        assert(!seen[j].contains(after[j].term));
    }
    assert forall|i: int| 0 <= i < after.len() implies !seen[0].contains((#[trigger] after[i]).term) by {
        lemma_dedup_prefix(seen, before, after, i);
        lemma_dedup_prefix(seen, before, after, i + 1);
        assert(seen[0].subset_of(seen[i]));
    }
}

} // verus!
