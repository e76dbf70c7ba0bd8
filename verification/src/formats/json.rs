//! A json object format, after the text format: `"##key": value` for the
//! info, `"headwords": definition` for the entries.

use vstd::prelude::*;
use vstd::hash_map::StringHashMap;
use vstd::string::StringExecFns;

use crate::formats::stardict::reader::{entries_view, term_alts};
use crate::formats::text::{keyed_entry, lemma_headword_key, with_final_newline, FormatError};
use crate::glossary::alt::AltView;
use crate::glossary::data_entry::{extension_of, path_extension};
use crate::glossary::definition::{Definition, DefinitionView};
use crate::glossary::entry::{join_spec, terms_list, EntryView, TERM_SEPARATOR};
use crate::glossary::glossary_info::{key_index, pairs_view, store, store_all};
use crate::glossary::{Entry, Glossary, GlossaryInfo, GlossaryMetadata};
use crate::strs::{char_is_whitespace, chars_of, has_prefix, is_unicode_whitespace, lemma_trim_start_index_unique, lines, lines_spec, slice_to_vec, split_spec, str_eq, strip_prefix, string_of, trim_start_index};
use crate::glossary::entry::utf8_of;

verus! {

/// The json format.
pub struct JsonFormat;

/// The members of a json object, in order (a key given twice keeping its
/// first place and its last value), each value as its string where it is a
/// string and as its json text otherwise; none where `text` is not a json object.
pub uninterp spec fn json_object_pairs(text: Seq<char>) -> Option<Seq<(Seq<char>, Seq<char>)>>;

/// Calls `serde_json::from_str` into an `IndexMap<String, Value>`; the result is named.
#[verifier::external_body]
fn parse_json_object(text: &str) -> (r: Option<Vec<(String, String)>>)
    ensures
        match r {
            Some(v) => json_object_pairs(text@) == Some(v@.map_values(|p: (String, String)| (p.0@, p.1@))),
            None => json_object_pairs(text@) is None,
        },
{
    let doc: indexmap::IndexMap<String, serde_json::Value> = serde_json::from_str(text).ok()?;
    Some(doc.into_iter().map(|(k, v)| match v {
        serde_json::Value::String(s) => (k, s),
        other => (k, other.to_string()),
    }).collect())
}

/// What a member of a glossary object holds.
pub enum JsonMember {
    Skip,
    Info(Seq<char>, Seq<char>),
    Entry(Seq<char>, Seq<char>, Seq<Seq<char>>),
}

/// What a member holds: nothing when its key or value is empty; an info pair
/// for a key starting `##`; else an entry with an html definition, its key
/// split at `|` into the headword and its alts (nothing where the headword
/// is empty).
pub open spec fn json_member(k: Seq<char>, v: Seq<char>) -> JsonMember {
    if k.len() == 0 || v.len() == 0 {
        JsonMember::Skip
    } else if has_prefix(k, "##"@) {
        JsonMember::Info(k.skip(2), v)
    } else {
        let parts = split_spec(k, TERM_SEPARATOR);
        if parts.len() == 0 || parts[0].len() == 0 {
            JsonMember::Skip
        } else {
            JsonMember::Entry(parts[0], v, parts.skip(1))
        }
    }
}

/// The info pairs of the members, in order.
pub open spec fn json_infos(m: Seq<(Seq<char>, Seq<char>)>) -> Seq<(Seq<char>, Seq<char>)>
    decreases m.len(),
{
    if m.len() == 0 {
        Seq::empty()
    } else {
        match json_member(m.last().0, m.last().1) {
            JsonMember::Info(k, v) => json_infos(m.drop_last()).push((k, v)),
            _ => json_infos(m.drop_last()),
        }
    }
}

/// The entries of the members, in order.
pub open spec fn json_entries(m: Seq<(Seq<char>, Seq<char>)>) -> Seq<EntryView>
    decreases m.len(),
{
    if m.len() == 0 {
        Seq::empty()
    } else {
        match json_member(m.last().0, m.last().1) {
            JsonMember::Entry(k, v, alts) => json_entries(m.drop_last()).push(
                EntryView { term: k, definition: DefinitionView::Html(v), alts: term_alts(alts) },
            ),
            _ => json_entries(m.drop_last()),
        }
    }
}

/// Reads a json glossary: `content` is the text of the file at `path`,
/// which must end in `.json`.
pub fn read_json(path: &str, content: &str) -> (r: Result<Glossary, FormatError>)
    ensures
        match r {
            Ok(g) => {
                &&& path_extension(path@) == Some("json"@)
                &&& json_object_pairs(content@) is Some
                &&& g.info.wf()
                &&& g.info@ == store_all(seq![("name"@, "name"@)], json_infos(json_object_pairs(content@)->0))
                &&& entries_view(g.entries@) == json_entries(json_object_pairs(content@)->0)
                &&& g.data_entries@.len() == 0
                &&& g.metadata.tag_bank is None
                &&& g.metadata.stylesheet is None
            },
            Err(FormatError::WrongExtension(p)) => p@ == path@ && path_extension(path@) != Some("json"@),
            Err(FormatError::Malformed) => path_extension(path@) == Some("json"@) && json_object_pairs(content@) is None,
        },
{
    let is_json = match extension_of(path) {
        Some(e) => str_eq(e.as_str(), "json"),
        None => false,
    };
    if !is_json {
        return Err(FormatError::WrongExtension(path.to_string()));
    }
    match parse_json_object(content) {
        Some(m) => Ok(glossary_from_members(m)),
        None => Err(FormatError::Malformed),
    }
}

/// The glossary a json object with these members holds: `##` keys give its
/// info, the other members its entries, with html definitions.
pub fn glossary_from_members(members: Vec<(String, String)>) -> (g: Glossary)
    ensures
        g.info.wf(),
        g.info@ == store_all(
            seq![("name"@, "name"@)],
            json_infos(members@.map_values(|p: (String, String)| (p.0@, p.1@))),
        ),
        entries_view(g.entries@) == json_entries(members@.map_values(|p: (String, String)| (p.0@, p.1@))),
        g.data_entries@.len() == 0,
        g.metadata.tag_bank is None,
        g.metadata.stylesheet is None,
{
    let ghost mv = members@.map_values(|p: (String, String)| (p.0@, p.1@));
    let mut info = GlossaryInfo::new();
    let mut entries: Vec<Entry> = Vec::new();
    let n = members.len();
    proof {
        reveal_strlit("##");
    }
    for i in 0..n
        invariant
            n == members@.len(),
            mv == members@.map_values(|p: (String, String)| (p.0@, p.1@)),
            info.wf(),
            info@ == store_all(seq![("name"@, "name"@)], json_infos(mv.take(i as int))),
            entries_view(entries@) == json_entries(mv.take(i as int)),
    {
        proof {
            reveal_strlit("##");
            assert(mv.take(i + 1).drop_last() =~= mv.take(i as int));
            assert(mv.take(i + 1).last() == mv[i as int]);
        }
        let k = &members[i].0;
        let v = &members[i].1;
        let ghost prev_infos = json_infos(mv.take(i as int));
        if k.as_str().unicode_len() == 0 || v.as_str().unicode_len() == 0 {
        } else {
            match strip_prefix(k.as_str(), "##") {
                Some(rest) => {
                    let _ = info.insert(rest.as_str(), v.clone());
                    assert(mv[i as int] == (k@, v@));
                    assert(k@.len() > 0 && v@.len() > 0);
                    assert(has_prefix(k@, "##"@));
                    assert(rest@ == k@.skip(2));
                    assert(json_member(k@, v@) == JsonMember::Info(k@.skip(2), v@));
                    assert(json_infos(mv.take(i + 1)) == prev_infos.push((rest@, v@)));
                    assert(prev_infos.push((rest@, v@)).drop_last() =~= prev_infos);
                },
                None => {
                    let key = chars_of(k.as_str());
                    match keyed_entry(key.as_slice(), Definition::Html(v.clone())) {
                        Some(e) => {
                            let ghost prev = entries_view(entries@);
                            entries.push(e);
                            assert(entries_view(entries@) =~= prev.push(e@));
                        },
                        None => {},
                    }
                },
            }
        }
    }
    assert(mv.take(n as int) =~= mv);
    Glossary { entries, data_entries: Vec::new(), info, metadata: GlossaryMetadata::default() }
}

/// The pairs after storing each of `raw` in order, a key already present
/// keeping its place and taking the new value.
pub open spec fn store_seq(start: Seq<(Seq<char>, Seq<char>)>, raw: Seq<(Seq<char>, Seq<char>)>) -> Seq<
    (Seq<char>, Seq<char>),
>
    decreases raw.len(),
{
    if raw.len() == 0 {
        start
    } else {
        store(store_seq(start, raw.drop_last()), raw.last().0, raw.last().1)
    }
}

/// The members of the json object of a glossary: `##key` for each info
/// pair, then each entry's headwords joined by `|` with its definition's text.
pub open spec fn json_members(g: Glossary, texts: Seq<Seq<char>>) -> Seq<(Seq<char>, Seq<char>)> {
    let es = entries_view(g.entries@);
    g.info@.map_values(|p: (Seq<char>, Seq<char>)| ("##"@ + p.0, p.1)) + Seq::new(
        es.len(),
        |i: int| (join_spec(terms_list(es[i]), TERM_SEPARATOR), texts[i]),
    )
}

/// The json text `serde_json::to_string_pretty` gives an object of string
/// members, in order.
pub uninterp spec fn json_pretty_object(pairs: Seq<(Seq<char>, Seq<char>)>) -> Seq<char>;

/// Calls `serde_json::to_string_pretty` on the object of string members
/// `pairs`; the result is named.
#[verifier::external_body]
fn pretty_json_object(pairs: &[(String, String)]) -> (r: String)
    ensures
        r@ == json_pretty_object(pairs_view(pairs@)),
{
    let doc: indexmap::IndexMap<&str, serde_json::Value> = pairs
        .iter()
        .map(|(k, v)| (k.as_str(), serde_json::Value::String(v.clone())))
        .collect();
    serde_json::to_string_pretty(&doc).unwrap_or_default()
}

/// A json line with its leading whitespace replaced by one tab per two
/// bytes of it.
pub open spec fn tab_line(line: Seq<char>) -> Seq<char> {
    let k = trim_start_index(line);
    let depth = utf8_of(line.take(k)).len() / 2;
    Seq::new(depth, |i: int| '\t') + line.skip(k)
}

/// `json` with each line's indentation given as tabs, the lines joined by `\n`.
pub open spec fn indent_with_tabs_spec(json: Seq<char>) -> Seq<char> {
    join_spec(lines_spec(json).map_values(|l: Seq<char>| tab_line(l)), '\n')
}

/// Writes each line's two-space indentation as tabs.
pub fn indent_with_tabs(json: &str) -> (r: String)
    ensures
        r@ == indent_with_tabs_spec(json@),
{
    let ls = lines(json);
    let ghost lsv = lines_spec(json@);
    let ghost tabbed = lsv.map_values(|l: Seq<char>| tab_line(l));
    let mut out: Vec<char> = Vec::new();
    let n = ls.len();
    for i in 0..n
        invariant
            n == ls@.len(),
            n == lsv.len(),
            forall|j: int| 0 <= j < n ==> #[trigger] ls@[j]@ == lsv[j],
            tabbed == lsv.map_values(|l: Seq<char>| tab_line(l)),
            out@ == join_spec(tabbed.take(i as int), '\n'),
    {
        let line = &ls[i];
        let mut k: usize = 0;
        while k < line.len() && char_is_whitespace(line[k])
            invariant
                k <= line@.len(),
                forall|j: int| 0 <= j < k ==> is_unicode_whitespace(#[trigger] line@[j]),
            decreases line@.len() - k,
        {
            k = k + 1;
        }
        proof {
            lemma_trim_start_index_unique(line@, k as int);
        }
        let prefix = slice_to_vec(line.as_slice(), 0, k);
        let prefix_s = string_of(&prefix);
        let depth = prefix_s.as_str().as_bytes().len() / 2;
        let ghost start = out@;
        if i > 0 {
            out.push('\n');
        }
        let ghost mid = out@;
        for d in 0..depth
            invariant
                out@ == mid + Seq::new(d as nat, |q: int| '\t'),
        {
            out.push('\t');
            assert(out@ =~= mid + Seq::new((d + 1) as nat, |q: int| '\t'));
        }
        let ghost mid2 = out@;
        let m = line.len();
        for q in k..m
            invariant
                m == line@.len(),
                k <= m,
                out@ == mid2 + line@.subrange(k as int, q as int),
        {
            out.push(line[q]);
            assert(out@ =~= mid2 + line@.subrange(k as int, q + 1));
        }
        proof {
            assert(prefix@ =~= line@.take(k as int));
            assert(line@.subrange(k as int, m as int) =~= line@.skip(k as int));
            assert(out@ == mid + tab_line(lsv[i as int]));
            assert(tabbed.take(i + 1).drop_last() =~= tabbed.take(i as int));
            assert(tabbed[i as int] == tab_line(lsv[i as int]));
            if i == 0 {
                assert(tabbed.take(0) =~= Seq::<Seq<char>>::empty());
                assert(out@ =~= join_spec(tabbed.take(1), '\n'));
            }
        }
    }
    assert(tabbed.take(n as int) =~= tabbed);
    string_of(&out)
}

/// Stores `v` under `k` in `doc`, whose keys `index` locates.
fn doc_store(
    doc: &mut Vec<(String, String)>,
    index: &mut StringHashMap<usize>,
    k: String,
    v: String,
)
    requires
        index_ok(pairs_view(old(doc)@), old(index)@),
    ensures
        index_ok(pairs_view(final(doc)@), final(index)@),
        pairs_view(final(doc)@) == store(pairs_view(old(doc)@), k@, v@),
{
    let ghost before = pairs_view(doc@);
    match index.get(k.as_str()) {
        Some(i) => {
            let i = *i;
            proof {
                lemma_lookup_at_index(before, i as int);
            }
            doc.set(i, (k, v));
            assert(pairs_view(doc@) =~= store(before, pairs_view(doc@)[i as int].0, pairs_view(doc@)[i as int].1));
        },
        None => {
            proof {
                assert forall|j: int| 0 <= j < before.len() implies before[j].0 != k@ by {
                    assert(index@.contains_key(before[j].0));
                }
            }
            let n = doc.len();
            let ks = k.clone();
            doc.push((k, v));
            index.insert(ks, n);
            assert(pairs_view(doc@) =~= before.push((ks@, pairs_view(doc@)[n as int].1)));
            assert forall|kk: Seq<char>| #[trigger] index@.contains_key(kk) implies index@[kk] < pairs_view(doc@).len()
                && pairs_view(doc@)[index@[kk] as int].0 == kk by {
                if kk != ks@ {
                    assert(old(index)@.contains_key(kk));
                }
            }
        },
    }
}

/// Whether `index` maps each key of `pairs` to its place, and `pairs` has
/// distinct keys.
pub open spec fn index_ok(pairs: Seq<(Seq<char>, Seq<char>)>, index: Map<Seq<char>, usize>) -> bool {
    &&& forall|i: int, j: int| 0 <= i < pairs.len() && 0 <= j < pairs.len() && i != j ==> pairs[i].0 != pairs[j].0
    &&& forall|j: int| 0 <= j < pairs.len() ==> index.contains_key(#[trigger] pairs[j].0)
    &&& forall|kk: Seq<char>| #[trigger] index.contains_key(kk) ==> index[kk] < pairs.len() && pairs[index[kk] as int].0 == kk
}

proof fn lemma_lookup_at_index(pairs: Seq<(Seq<char>, Seq<char>)>, i: int)
    requires
        forall|a: int, b: int| 0 <= a < pairs.len() && 0 <= b < pairs.len() && a != b ==> pairs[a].0 != pairs[b].0,
        0 <= i < pairs.len(),
    ensures
        key_index(pairs, pairs[i].0) == Some(i),
{
    let k = choose|k: int| 0 <= k < pairs.len() && pairs[k].0 == pairs[i].0;
    assert(k == i);
}

/// Writes a json glossary; `texts` holds the text of each entry's definition.
pub fn write_json(glossary: &Glossary, texts: &[String]) -> (r: String)
    requires
        texts@.len() == glossary.entries@.len(),
    ensures
        r@ == with_final_newline(
            indent_with_tabs_spec(
                json_pretty_object(
                    store_seq(Seq::empty(), json_members(*glossary, texts@.map_values(|t: String| t@))),
                ),
            ),
        ),
{
    let ghost members = json_members(*glossary, texts@.map_values(|t: String| t@));
    let mut doc: Vec<(String, String)> = Vec::new();
    let mut index: StringHashMap<usize> = StringHashMap::new();
    let pairs = glossary.info.pairs();
    let np = pairs.len();
    let ne = glossary.entries.len();
    proof {
        reveal_strlit("##");
    }
    for i in 0..np
        invariant
            np == pairs@.len(),
            pairs_view(pairs@) == glossary.info@,
            members == json_members(*glossary, texts@.map_values(|t: String| t@)),
            index_ok(pairs_view(doc@), index@),
            pairs_view(doc@) == store_seq(Seq::empty(), members.take(i as int)),
    {
        let mut k = String::new();
        k.append("##");
        k.append(pairs[i].0.as_str());
        let v = pairs[i].1.clone();
        assert((k@, v@) == members[i as int]);
        doc_store(&mut doc, &mut index, k, v);
        assert(members.take(i + 1).drop_last() =~= members.take(i as int));
    }
    for j in 0..ne
        invariant
            np == glossary.info@.len(),
            ne == glossary.entries@.len(),
            texts@.len() == ne,
            members == json_members(*glossary, texts@.map_values(|t: String| t@)),
            index_ok(pairs_view(doc@), index@),
            pairs_view(doc@) == store_seq(Seq::empty(), members.take(np + j)),
    {
        let k = glossary.entries[j].s_terms();
        let v = texts[j].clone();
        assert((k@, v@) == members[np + j]);
        doc_store(&mut doc, &mut index, k, v);
        assert(members.take(np + j + 1).drop_last() =~= members.take(np + j));
    }
    assert(members.take(np + ne) =~= members);
    let pretty = pretty_json_object(doc.as_slice());
    let tabbed = indent_with_tabs(pretty.as_str());
    let mut out = chars_of(tabbed.as_str());
    if out.len() == 0 || out[out.len() - 1] != '\n' {
        out.push('\n');
    }
    string_of(&out)
}

proof fn lemma_store_seq_distinct(raw: Seq<(Seq<char>, Seq<char>)>)
    requires
        forall|a: int, b: int| 0 <= a < b < raw.len() ==> (#[trigger] raw[a]).0 != (#[trigger] raw[b]).0,
    ensures
        store_seq(Seq::empty(), raw) == raw,
    decreases raw.len(),
{
    if raw.len() > 0 {
        let rest = raw.drop_last();
        assert forall|a: int, b: int| 0 <= a < b < rest.len() implies (#[trigger] rest[a]).0 != (#[trigger] rest[b]).0 by {
            assert(rest[a] == raw[a] && rest[b] == raw[b]);
        }
        lemma_store_seq_distinct(rest);
        let k = raw.last().0;
        assert(!(exists|i: int| 0 <= i < rest.len() && rest[i].0 == k)) by {
            if exists|i: int| 0 <= i < rest.len() && rest[i].0 == k {
                let i = choose|i: int| 0 <= i < rest.len() && rest[i].0 == k;
                assert(raw[i].0 != raw[raw.len() - 1].0);
            }
        }
        assert(key_index(rest, k) is None);
        assert(rest.push(raw.last()) =~= raw);
    }
}

proof fn lemma_json_entries_add(a: Seq<(Seq<char>, Seq<char>)>, b: Seq<(Seq<char>, Seq<char>)>)
    ensures
        json_entries(a + b) == json_entries(a) + json_entries(b),
    decreases b.len(),
{
    if b.len() == 0 {
        assert(a + b =~= a);
        assert(json_entries(a) + json_entries(b) =~= json_entries(a));
    } else {
        lemma_json_entries_add(a, b.drop_last());
        assert((a + b).drop_last() =~= a + b.drop_last());
        assert((a + b).last() == b.last());
        assert(json_entries(a + b) =~= json_entries(a) + json_entries(b));
    }
}

proof fn lemma_json_info_members(pairs: Seq<(Seq<char>, Seq<char>)>)
    ensures
        json_entries(pairs.map_values(|p: (Seq<char>, Seq<char>)| ("##"@ + p.0, p.1))).len() == 0,
    decreases pairs.len(),
{
    reveal_strlit("##");
    let f = |p: (Seq<char>, Seq<char>)| ("##"@ + p.0, p.1);
    let m = pairs.map_values(f);
    if pairs.len() > 0 {
        lemma_json_info_members(pairs.drop_last());
        assert(m.drop_last() =~= pairs.drop_last().map_values(f));
        let k = m.last().0;
        assert(k == "##"@ + pairs.last().0);
        assert(k.subrange(0, 2) =~= "##"@);
        assert(!(json_member(m.last().0, m.last().1) is Entry));
    } else {
        assert(m =~= Seq::<(Seq<char>, Seq<char>)>::empty());
    }
}

/// Whether a json glossary written from `g` with the definition texts
/// `texts` reads back as it was: every headword non-empty, not starting `##`;
/// no headword holding a `|`; no alt carrying a definition; every text
/// non-empty; no two entries with the same headwords.
pub open spec fn json_safe(g: Glossary, texts: Seq<Seq<char>>) -> bool {
    let es = entries_view(g.entries@);
    &&& texts.len() == es.len()
    &&& forall|i: int|
        0 <= i < es.len() ==> {
            &&& (#[trigger] es[i]).term.len() > 0
            &&& !has_prefix(es[i].term, "##"@)
            &&& !es[i].term.contains(TERM_SEPARATOR)
            &&& texts[i].len() > 0
            &&& forall|j: int|
                0 <= j < es[i].alts.len() ==> !(#[trigger] es[i].alts[j]).term.contains(TERM_SEPARATOR)
                    && es[i].alts[j].definition is None
        }
    &&& forall|a: int, b: int|
        0 <= a < b < es.len() ==> join_spec(terms_list(#[trigger] es[a]), TERM_SEPARATOR) != join_spec(
            terms_list(#[trigger] es[b]),
            TERM_SEPARATOR,
        )
}

/// Reading back a json glossary gives the entries it was written from, each
/// with its text as an html definition, where [`json_safe`] holds and where
/// serde_json parses the written object back into the members it printed.
pub proof fn lemma_json_roundtrip(g: Glossary, texts: Seq<Seq<char>>)
    requires
        g.info.wf(),
        json_safe(g, texts),
        json_object_pairs(
            with_final_newline(indent_with_tabs_spec(json_pretty_object(store_seq(Seq::empty(), json_members(g, texts))))),
        ) == Some(store_seq(Seq::empty(), json_members(g, texts))),
    ensures
        json_entries(
            json_object_pairs(
                with_final_newline(indent_with_tabs_spec(json_pretty_object(store_seq(Seq::empty(), json_members(g, texts))))),
            )->0,
        ) == Seq::new(
            g.entries@.len(),
            |i: int| EntryView {
                term: g.entries@[i]@.term,
                definition: DefinitionView::Html(texts[i]),
                alts: g.entries@[i]@.alts,
            },
        ),
{
    reveal_strlit("##");
    let es = entries_view(g.entries@);
    let n = es.len() as int;
    let info = g.info@;
    let f = |p: (Seq<char>, Seq<char>)| ("##"@ + p.0, p.1);
    let im = info.map_values(f);
    let em = Seq::new(es.len(), |i: int| (join_spec(terms_list(es[i]), TERM_SEPARATOR), texts[i]));
    let raw = json_members(g, texts);
    assert(raw =~= im + em);
    assert forall|i: int| 0 <= i < n implies {
        &&& split_spec((#[trigger] em[i]).0, TERM_SEPARATOR) == terms_list(es[i])
        &&& em[i].0.len() > 0
        &&& !has_prefix(em[i].0, "##"@)
    } by {
        lemma_headword_key(es[i]);
    }
    assert forall|a: int, b: int| 0 <= a < b < raw.len() implies (#[trigger] raw[a]).0 != (#[trigger] raw[b]).0 by {
        if b < im.len() {
            assert(raw[a].0 == "##"@ + info[a].0);
            assert(raw[b].0 == "##"@ + info[b].0);
            if raw[a].0 == raw[b].0 {
                assert(info[a].0 =~= raw[a].0.skip(2));
                assert(info[b].0 =~= raw[b].0.skip(2));
            }
        } else if a >= im.len() {
            assert(raw[a] == em[a - im.len()]);
            assert(raw[b] == em[b - im.len()]);
        } else {
            assert(raw[a].0 == "##"@ + info[a].0);
            assert(raw[b] == em[b - im.len()]);
            assert(raw[a].0.subrange(0, 2) =~= "##"@);
            assert(!has_prefix(em[b - im.len()].0, "##"@));
        }
    }
    lemma_store_seq_distinct(raw);
    lemma_json_entries_add(im, em);
    lemma_json_info_members(info);
    let want = Seq::new(
        g.entries@.len(),
        |i: int| EntryView { term: g.entries@[i]@.term, definition: DefinitionView::Html(texts[i]), alts: g.entries@[i]@.alts },
    );
    lemma_json_entry_members(es, texts, em);
    assert(json_entries(raw) =~= want);
}

proof fn lemma_json_entry_members(es: Seq<EntryView>, texts: Seq<Seq<char>>, em: Seq<(Seq<char>, Seq<char>)>)
    requires
        texts.len() == es.len(),
        em == Seq::new(es.len(), |i: int| (join_spec(terms_list(es[i]), TERM_SEPARATOR), texts[i])),
        forall|i: int|
            0 <= i < es.len() ==> {
                &&& (#[trigger] es[i]).term.len() > 0
                &&& !has_prefix(es[i].term, "##"@)
                &&& !es[i].term.contains(TERM_SEPARATOR)
                &&& texts[i].len() > 0
                &&& forall|j: int|
                    0 <= j < es[i].alts.len() ==> !(#[trigger] es[i].alts[j]).term.contains(TERM_SEPARATOR)
                        && es[i].alts[j].definition is None
            },
    ensures
        json_entries(em) == Seq::new(
            es.len(),
            |i: int| EntryView { term: es[i].term, definition: DefinitionView::Html(texts[i]), alts: es[i].alts },
        ),
    decreases es.len(),
{
    let want = Seq::new(
        es.len(),
        |i: int| EntryView { term: es[i].term, definition: DefinitionView::Html(texts[i]), alts: es[i].alts },
    );
    if es.len() > 0 {
        let m = es.len() - 1;
        let em0 = Seq::new(
            es.drop_last().len(),
            |i: int| (join_spec(terms_list(es.drop_last()[i]), TERM_SEPARATOR), texts.drop_last()[i]),
        );
        assert(em0 =~= em.drop_last());
        lemma_json_entry_members(es.drop_last(), texts.drop_last(), em0);
        let e = es[m];
        lemma_headword_key(e);
        let terms = terms_list(e);
        assert(terms[0] == e.term);
        assert(em.last() == (join_spec(terms, TERM_SEPARATOR), texts[m]));
        assert(json_member(em.last().0, em.last().1) == JsonMember::Entry(e.term, texts[m], terms.skip(1)));
        assert(terms.skip(1) =~= e.alts.map_values(|a: AltView| a.term));
        assert(term_alts(terms.skip(1)) =~= e.alts);
        let want0 = Seq::new(
            es.drop_last().len(),
            |i: int| EntryView {
                term: es.drop_last()[i].term,
                definition: DefinitionView::Html(texts.drop_last()[i]),
                alts: es.drop_last()[i].alts,
            },
        );
        assert(want =~= want0.push(want[m]));
    } else {
        assert(want =~= Seq::<EntryView>::empty());
        assert(em =~= Seq::<(Seq<char>, Seq<char>)>::empty());
    }
}

} // verus!
