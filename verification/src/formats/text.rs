//! A tab-separated text format.
//!
//! Each line is either an info line, `##key<TAB>value`, or an entry,
//! `headword|alt|...<TAB>definition`.

use vstd::prelude::*;
use vstd::string::StringExecFns;

use crate::glossary::alt::AltView;
use crate::glossary::data_entry::{extension_of, path_extension};
use crate::glossary::definition::{Definition, DefinitionView};
use crate::glossary::entry::{join_spec, lemma_join_chars, lemma_join_front, lemma_split_join, terms_list, EntryView, TERM_SEPARATOR};
use crate::glossary::glossary_info::{normalize_key_spec, pairs_view, store, store_all};
use crate::glossary::{AltEntry, Entry, Glossary, GlossaryInfo, GlossaryMetadata};
use crate::formats::stardict::reader::{entries_view, term_alts};
use crate::strs::{
    chars_of, find_char, find_from, has_prefix, lemma_find_from, lemma_split_nonempty, lines,
    lines_spec, replace_all, replace_spec, slice_to_vec, split_char, split_spec, str_eq, string_of,
    lemma_find_unique, lemma_replace_absent, lemma_replace_removes, strip_cr,
};

verus! {

/// The text format.
pub struct TextFormat;

/// What went wrong reading a text or json glossary.
#[derive(Debug, Clone, PartialEq, Eq)]
pub enum FormatError {
    /// The path does not have the extension the format expects.
    WrongExtension(String),
    /// The file is not what the format expects.
    Malformed,
}

/// What a line of a text glossary holds.
pub enum TextLine {
    Skip,
    Info(Seq<char>, Seq<char>),
    Entry(Seq<char>, Seq<char>, Seq<Seq<char>>),
}

/// What a line holds: nothing when it is empty, has no tab or an empty
/// headword; an info pair for a key starting `##`; else an entry, its key
/// split at `|` into the headword and its alts.
pub open spec fn text_line(line: Seq<char>) -> TextLine {
    if line.len() == 0 {
        TextLine::Skip
    } else {
        match find_from(line, 0, '\t') {
            Some(k) => {
                let key = line.take(k);
                let value = line.skip(k + 1);
                if has_prefix(key, "##"@) {
                    TextLine::Info(key.skip(2), value)
                } else {
                    let parts = split_spec(key, TERM_SEPARATOR);
                    if parts.len() == 0 || parts[0].len() == 0 {
                        TextLine::Skip
                    } else {
                        TextLine::Entry(parts[0], value, parts.skip(1))
                    }
                }
            },
            None => TextLine::Skip,
        }
    }
}

/// The info pairs of the lines, in order.
pub open spec fn text_infos(lines: Seq<Seq<char>>) -> Seq<(Seq<char>, Seq<char>)>
    decreases lines.len(),
{
    if lines.len() == 0 {
        Seq::empty()
    } else {
        match text_line(lines.last()) {
            TextLine::Info(k, v) => text_infos(lines.drop_last()).push((k, v)),
            _ => text_infos(lines.drop_last()),
        }
    }
}

/// The entries of the lines, in order.
pub open spec fn text_entries(lines: Seq<Seq<char>>) -> Seq<EntryView>
    decreases lines.len(),
{
    if lines.len() == 0 {
        Seq::empty()
    } else {
        match text_line(lines.last()) {
            TextLine::Entry(term, value, alts) => text_entries(lines.drop_last()).push(
                EntryView { term: term, definition: DefinitionView::Text(value), alts: term_alts(alts) },
            ),
            _ => text_entries(lines.drop_last()),
        }
    }
}

/// The entry for the key `key`, split at `|` into its headword and alts,
/// with the definition `d`; none where the headword is empty.
pub fn keyed_entry(key: &[char], d: Definition) -> (r: Option<Entry>)
    ensures
        ({
            let ps = split_spec(key@, TERM_SEPARATOR);
            match r {
                Some(e) => ps.len() > 0 && ps[0].len() > 0 && e@ == EntryView {
                    term: ps[0],
                    definition: d@,
                    alts: term_alts(ps.skip(1)),
                },
                None => ps.len() == 0 || ps[0].len() == 0,
            }
        }),
{
    proof {
        lemma_split_nonempty(key@, TERM_SEPARATOR);
    }
    let parts = split_char(key, TERM_SEPARATOR);
    let ghost ps = split_spec(key@, TERM_SEPARATOR);
    if parts[0].len() == 0 {
        return None;
    }
    let term = string_of(parts[0].as_slice());
    let mut alts: Vec<AltEntry> = Vec::new();
    let m = parts.len();
    for j in 1..m
        invariant
            m == parts@.len(),
            m == ps.len(),
            m >= 1,
            forall|q: int| 0 <= q < m ==> #[trigger] parts@[q]@ == ps[q],
            alts_view_of(alts@) == term_alts(ps.skip(1).take(j - 1)),
    {
        let a = AltEntry::only_term(string_of(parts[j].as_slice()));
        assert(a@ == AltView { term: ps[j as int], definition: None });
        let ghost prev = alts@;
        alts.push(a);
        assert(alts_view_of(alts@) =~= alts_view_of(prev).push(a@));
        assert(ps.skip(1).take(j as int) =~= ps.skip(1).take(j - 1).push(ps[j as int]));
        assert(alts_view_of(alts@) =~= term_alts(ps.skip(1).take(j as int)));
    }
    assert(ps.skip(1).take(m - 1) =~= ps.skip(1));
    Some(Entry::new(term, d).with_alts(alts))
}

fn read_line(line: &[char], info: &mut GlossaryInfo, entries: &mut Vec<Entry>)
    requires
        old(info).wf(),
    ensures
        final(info).wf(),
        match text_line(line@) {
            TextLine::Info(k, v) => {
                &&& final(info)@ == store(old(info)@, normalize_key_spec(k), v)
                &&& final(entries)@ == old(entries)@
            },
            TextLine::Entry(term, value, alts) => {
                &&& final(info)@ == old(info)@
                &&& entries_view(final(entries)@) == entries_view(old(entries)@).push(
                    EntryView { term: term, definition: DefinitionView::Text(value), alts: term_alts(alts) },
                )
            },
            TextLine::Skip => final(info)@ == old(info)@ && final(entries)@ == old(entries)@,
        },
{
    if line.len() == 0 {
        return;
    }
    proof {
        lemma_find_from(line@, 0, '\t');
    }
    let k = match find_char(line, 0, '\t') {
        Some(k) => k,
        None => {
            return;
        },
    };
    let key = slice_to_vec(line, 0, k);
    let value = slice_to_vec(line, k + 1, line.len());
    assert(key@ =~= line@.take(k as int));
    assert(value@ =~= line@.skip(k + 1));
    let value_s = string_of(&value);
    if key.len() >= 2 && key[0] == '#' && key[1] == '#' {
        proof {
            reveal_strlit("##");
            assert(key@.subrange(0, 2) =~= "##"@);
        }
        let ik = slice_to_vec(key.as_slice(), 2, key.len());
        assert(ik@ =~= key@.skip(2));
        let iks = string_of(&ik);
        let ghost before = info@;
        let _ = info.insert(iks.as_str(), value_s);
    } else {
        proof {
            reveal_strlit("##");
            if key@.len() >= 2 {
                assert(key@.subrange(0, 2) != "##"@) by {
                    if key@[0] != '#' {
                        assert(key@.subrange(0, 2)[0] != "##"@[0]);
                    } else {
                        assert(key@.subrange(0, 2)[1] != "##"@[1]);
                    }
                }
            }
        }
        let entry = match keyed_entry(key.as_slice(), Definition::Text(value_s)) {
            Some(e) => e,
            None => {
                return;
            },
        };
        let ghost prev = entries_view(entries@);
        entries.push(entry);
        assert(entries_view(entries@) =~= prev.push(entry@));
    }
}

/// Reads a text glossary: `content` is the text of the file at `path`,
/// which must end in `.txt`.
pub fn read_text(path: &str, content: &str) -> (r: Result<Glossary, FormatError>)
    ensures
        match r {
            Ok(g) => {
                &&& path_extension(path@) == Some("txt"@)
                &&& g.info.wf()
                &&& g.info@ == store_all(seq![("name"@, "name"@)], text_infos(lines_spec(content@)))
                &&& entries_view(g.entries@) == text_entries(lines_spec(content@))
                &&& g.data_entries@.len() == 0
                &&& g.metadata.tag_bank is None
                &&& g.metadata.stylesheet is None
            },
            Err(e) => e matches FormatError::WrongExtension(p) && p@ == path@,
        },
        r is Err ==> path_extension(path@) != Some("txt"@),
{
    let is_txt = match extension_of(path) {
        Some(e) => str_eq(e.as_str(), "txt"),
        None => false,
    };
    if !is_txt {
        return Err(FormatError::WrongExtension(path.to_string()));
    }
    let ls = lines(content);
    let ghost lsv = lines_spec(content@);
    let mut info = GlossaryInfo::new();
    let mut entries: Vec<Entry> = Vec::new();
    let n = ls.len();
    for i in 0..n
        invariant
            n == ls@.len(),
            n == lsv.len(),
            forall|j: int| 0 <= j < n ==> #[trigger] ls@[j]@ == lsv[j],
            info.wf(),
            info@ == store_all(seq![("name"@, "name"@)], text_infos(lsv.take(i as int))),
            entries_view(entries@) == text_entries(lsv.take(i as int)),
    {
        proof {
            assert(lsv.take(i + 1).drop_last() =~= lsv.take(i as int));
            assert(lsv.take(i + 1).last() == ls@[i as int]@);
        }
        read_line(ls[i].as_slice(), &mut info, &mut entries);
        proof {
            let prev = text_infos(lsv.take(i as int));
            match text_line(lsv[i as int]) {
                TextLine::Info(k, v) => {
                    assert(text_infos(lsv.take(i + 1)) == prev.push((k, v)));
                    assert(prev.push((k, v)).drop_last() =~= prev);
                },
                _ => {
                    assert(text_infos(lsv.take(i + 1)) == prev);
                },
            }
        }
    }
    assert(lsv.take(n as int) =~= lsv);
    Ok(Glossary { entries, data_entries: Vec::new(), info, metadata: GlossaryMetadata::default() })
}

/// The views of alts.
pub open spec fn alts_view_of(v: Seq<AltEntry>) -> Seq<AltView> {
    v.map_values(|a: AltEntry| a@)
}

/// `s` with its line breaks (`\r\n`, `\n`, `\r`) written as `\n`.
pub open spec fn escape_newlines_spec(s: Seq<char>) -> Seq<char> {
    replace_spec(replace_spec(replace_spec(s, "\r\n"@, "\\n"@), "\n"@, "\\n"@), "\r"@, "\\n"@)
}

/// Writes the line breaks of `s` as `\n`.
pub fn escape_newlines(s: &str) -> (r: String)
    ensures
        r@ == escape_newlines_spec(s@),
{
    proof {
        reveal_strlit("\r\n");
        reveal_strlit("\n");
        reveal_strlit("\r");
    }
    let a = replace_all(s, "\r\n", "\\n");
    let b = replace_all(a.as_str(), "\n", "\\n");
    replace_all(b.as_str(), "\r", "\\n")
}

/// The rows of a text glossary: its info pairs, then its entries, each
/// entry's headwords joined by `|` before its definition's text.
pub open spec fn text_rows(
    info: Seq<(Seq<char>, Seq<char>)>,
    entries: Seq<EntryView>,
    texts: Seq<Seq<char>>,
) -> Seq<Seq<char>> {
    info.map_values(|p: (Seq<char>, Seq<char>)| "##"@ + p.0 + "\t"@ + escape_newlines_spec(p.1)) + Seq::new(
        entries.len(),
        |i: int| join_spec(terms_list(entries[i]), TERM_SEPARATOR) + "\t"@ + escape_newlines_spec(texts[i]),
    )
}

/// `s` ending in a line break: as it is if it does.
pub open spec fn with_final_newline(s: Seq<char>) -> Seq<char> {
    if s.len() > 0 && s.last() == '\n' {
        s
    } else {
        s.push('\n')
    }
}

/// The file of a text glossary whose entries' definitions read `texts`.
pub open spec fn text_file(g: Glossary, texts: Seq<Seq<char>>) -> Seq<char> {
    with_final_newline(join_spec(text_rows(g.info@, entries_view(g.entries@), texts), '\n'))
}

fn push_row(out: &mut Vec<char>, first: bool, row: &str)
    ensures
        final(out)@ == if first {
            old(out)@ + row@
        } else {
            old(out)@.push('\n') + row@
        },
{
    if !first {
        out.push('\n');
    }
    let cs = chars_of(row);
    let n = cs.len();
    let ghost start = out@;
    for i in 0..n
        invariant
            n == cs@.len(),
            out@ == start + cs@.take(i as int),
    {
        out.push(cs[i]);
        assert(out@ =~= start + cs@.take(i + 1));
    }
    assert(cs@.take(n as int) =~= cs@);
}

/// Writes a text glossary; `texts` holds the text of each entry's definition.
pub fn write_text(glossary: &Glossary, texts: &[String]) -> (r: String)
    requires
        texts@.len() == glossary.entries@.len(),
    ensures
        r@ == text_file(*glossary, texts@.map_values(|t: String| t@)),
{
    let ghost tv = texts@.map_values(|t: String| t@);
    let ghost rows = text_rows(glossary.info@, entries_view(glossary.entries@), tv);
    let mut out: Vec<char> = Vec::new();
    let pairs = glossary.info.pairs();
    let np = pairs.len();
    let ne = glossary.entries.len();
    proof {
        reveal_strlit("##");
        reveal_strlit("\t");
    }
    for i in 0..np
        invariant
            np == pairs@.len(),
            pairs_view(pairs@) == glossary.info@,
            rows == text_rows(glossary.info@, entries_view(glossary.entries@), tv),
            out@ == join_spec(rows.take(i as int), '\n'),
    {
        let mut row = String::new();
        row.append("##");
        row.append(pairs[i].0.as_str());
        row.append("\t");
        let esc = escape_newlines(pairs[i].1.as_str());
        row.append(esc.as_str());
        assert(row@ == rows[i as int]);
        push_row(&mut out, i == 0, row.as_str());
        proof {
            assert(rows.take(i + 1).drop_last() =~= rows.take(i as int));
            if i == 0 {
                assert(rows.take(0) =~= Seq::<Seq<char>>::empty());
            }
        }
    }
    for j in 0..ne
        invariant
            np == glossary.info@.len(),
            ne == glossary.entries@.len(),
            texts@.len() == ne,
            tv == texts@.map_values(|t: String| t@),
            rows == text_rows(glossary.info@, entries_view(glossary.entries@), tv),
            out@ == join_spec(rows.take(np + j), '\n'),
    {
        let mut row = glossary.entries[j].s_terms();
        row.append("\t");
        let esc = escape_newlines(texts[j].as_str());
        row.append(esc.as_str());
        assert(row@ == rows[np + j]);
        push_row(&mut out, np == 0 && j == 0, row.as_str());
        proof {
            assert(rows.take(np + j + 1).drop_last() =~= rows.take(np + j));
            if np + j == 0 {
                assert(rows.take(0) =~= Seq::<Seq<char>>::empty());
            }
        }
    }
    assert(rows.take(np + ne) =~= rows);
    if out.len() == 0 || out[out.len() - 1] != '\n' {
        out.push('\n');
    }
    string_of(&out)
}


/// Whether a headword can stand in a text glossary's key: no line break, tab
/// or `|`.
pub open spec fn plain_key_part(s: Seq<char>) -> bool {
    &&& !s.contains('\n')
    &&& !s.contains('\r')
    &&& !s.contains('\t')
    &&& !s.contains(TERM_SEPARATOR)
}

/// Whether a text glossary written from `g` reads back as it was: every
/// headword non-empty, not starting `##`, holding no line break, tab or `|`;
/// no alt carrying a definition; no info key holding a line break or tab.
pub open spec fn text_safe(g: Glossary) -> bool {
    let es = entries_view(g.entries@);
    &&& forall|i: int|
        0 <= i < es.len() ==> {
            &&& (#[trigger] es[i]).term.len() > 0
            &&& !has_prefix(es[i].term, "##"@)
            &&& plain_key_part(es[i].term)
            &&& forall|j: int|
                0 <= j < es[i].alts.len() ==> plain_key_part(#[trigger] es[i].alts[j].term) && es[i].alts[j].definition is None
        }
    &&& forall|i: int|
        0 <= i < g.info@.len() ==> !(#[trigger] g.info@[i]).0.contains('\n') && !g.info@[i].0.contains('\r')
            && !g.info@[i].0.contains('\t')
}

proof fn lemma_escaped_has_no_breaks(s: Seq<char>)
    ensures
        !escape_newlines_spec(s).contains('\n'),
        !escape_newlines_spec(s).contains('\r'),
{
    reveal_strlit("\r\n");
    reveal_strlit("\n");
    reveal_strlit("\r");
    reveal_strlit("\\n");
    let rep = "\\n"@;
    assert(!rep.contains('\n')) by {
        if rep.contains('\n') {
            let j = choose|j: int| 0 <= j < rep.len() && rep[j] == '\n';
        }
    }
    assert(!rep.contains('\r')) by {
        if rep.contains('\r') {
            let j = choose|j: int| 0 <= j < rep.len() && rep[j] == '\r';
        }
    }
    let r1 = replace_spec(s, "\r\n"@, rep);
    assert("\n"@ =~= seq!['\n']);
    assert("\r"@ =~= seq!['\r']);
    lemma_replace_removes(r1, '\n', rep);
    let r2 = replace_spec(r1, "\n"@, rep);
    lemma_replace_removes(r2, '\r', rep);
    lemma_replace_absent(r2, "\r"@, rep, '\n');
}

proof fn lemma_concat_no_char(a: Seq<char>, b: Seq<char>, ch: char)
    requires
        !a.contains(ch),
        !b.contains(ch),
    ensures
        !(a + b).contains(ch),
{
    if (a + b).contains(ch) {
        let j = choose|j: int| 0 <= j < (a + b).len() && (a + b)[j] == ch;
        if j < a.len() {
            assert(a[j] == ch);
        } else {
            assert(b[j - a.len()] == ch);
        }
    }
}

proof fn lemma_text_entries_add(a: Seq<Seq<char>>, b: Seq<Seq<char>>)
    ensures
        text_entries(a + b) == text_entries(a) + text_entries(b),
        text_infos(a + b) == text_infos(a) + text_infos(b),
    decreases b.len(),
{
    if b.len() == 0 {
        assert(a + b =~= a);
        assert(text_entries(a) + text_entries(b) =~= text_entries(a));
        assert(text_infos(a) + text_infos(b) =~= text_infos(a));
    } else {
        lemma_text_entries_add(a, b.drop_last());
        assert((a + b).drop_last() =~= a + b.drop_last());
        assert((a + b).last() == b.last());
        assert(text_entries(a + b) =~= text_entries(a) + text_entries(b));
        assert(text_infos(a + b) =~= text_infos(a) + text_infos(b));
    }
}

/// The line of an info pair reads as that pair.
proof fn lemma_info_line(k: Seq<char>, v: Seq<char>)
    requires
        !k.contains('\t'),
    ensures
        text_line("##"@ + k + "\t"@ + escape_newlines_spec(v)) == TextLine::Info(k, escape_newlines_spec(v)),
{
    reveal_strlit("##");
    reveal_strlit("\t");
    let e = escape_newlines_spec(v);
    let line = "##"@ + k + "\t"@ + e;
    let t = 2 + k.len() as int;
    assert(line[t] == '\t');
    assert forall|j: int| 0 <= j < t implies line[j] != '\t' by {
        if j >= 2 {
            assert(line[j] == k[j - 2]);
            if k[j - 2] == '\t' {
                assert(k.contains('\t'));
            }
        }
    }
    lemma_find_unique(line, 0, '\t', t);
    assert(line.take(t) =~= "##"@ + k);
    assert(line.take(t).subrange(0, 2) =~= "##"@);
    assert(line.take(t).skip(2) =~= k);
    assert(line.skip(t + 1) =~= e);
}

/// The line of an entry reads as that entry.
proof fn lemma_entry_line(e: EntryView, text: Seq<char>)
    requires
        e.term.len() > 0,
        !has_prefix(e.term, "##"@),
        plain_key_part(e.term),
        forall|j: int| 0 <= j < e.alts.len() ==> plain_key_part(#[trigger] e.alts[j].term) && e.alts[j].definition is None,
    ensures
        text_entries(seq![join_spec(terms_list(e), TERM_SEPARATOR) + "\t"@ + escape_newlines_spec(text)]) == seq![
            EntryView { term: e.term, definition: DefinitionView::Text(escape_newlines_spec(text)), alts: e.alts },
        ],
        text_infos(seq![join_spec(terms_list(e), TERM_SEPARATOR) + "\t"@ + escape_newlines_spec(text)]).len() == 0,
{
    reveal_strlit("##");
    reveal_strlit("\t");
    let terms = terms_list(e);
    let key = join_spec(terms, TERM_SEPARATOR);
    let esc = escape_newlines_spec(text);
    let line = key + "\t"@ + esc;
    assert(terms[0] == e.term);
    assert forall|i: int| 0 <= i < terms.len() implies plain_key_part(#[trigger] terms[i]) by {
        if i > 0 {
            assert(terms[i] == e.alts[i - 1].term);
        }
    }
    lemma_join_chars(terms, TERM_SEPARATOR, '\t');
    lemma_split_join(terms, TERM_SEPARATOR);
    let t = key.len() as int;
    assert(line[t] == '\t');
    assert forall|j: int| 0 <= j < t implies line[j] != '\t' by {
        assert(line[j] == key[j]);
        if key[j] == '\t' {
            assert(key.contains('\t'));
        }
    }
    lemma_find_unique(line, 0, '\t', t);
    assert(line.take(t) =~= key);
    assert(line.skip(t + 1) =~= esc);
    if terms.len() >= 2 {
        lemma_join_front(terms, TERM_SEPARATOR);
    }
    assert(!has_prefix(key, "##"@)) by {
        if has_prefix(key, "##"@) {
            if e.term.len() >= 2 {
                assert(key.subrange(0, 2) =~= e.term.subrange(0, 2));
            } else if terms.len() >= 2 {
                assert(key[1] == TERM_SEPARATOR);
                assert(key.subrange(0, 2)[1] == "##"@[1]);
            } else {
                assert(key == e.term);
            }
        }
    }
    assert(line.len() > 0);
    assert(text_line(line) == TextLine::Entry(e.term, esc, terms.skip(1)));
    assert(terms.skip(1) =~= e.alts.map_values(|a: AltView| a.term));
    assert(term_alts(terms.skip(1)) =~= e.alts);
    let one = seq![line];
    assert(one.drop_last() =~= Seq::<Seq<char>>::empty());
    assert(one.last() == line);
    assert(text_entries(one.drop_last()) == Seq::<EntryView>::empty());
    assert(text_infos(one.drop_last()) == Seq::<(Seq<char>, Seq<char>)>::empty());
    assert(text_entries(one) =~= seq![
        EntryView { term: e.term, definition: DefinitionView::Text(esc), alts: e.alts },
    ]);
    assert(text_infos(one) =~= Seq::<(Seq<char>, Seq<char>)>::empty());
}

proof fn lemma_info_lines(pairs: Seq<(Seq<char>, Seq<char>)>)
    requires
        forall|i: int| 0 <= i < pairs.len() ==> !(#[trigger] pairs[i]).0.contains('\t'),
    ensures
        ({
            let rows = pairs.map_values(|p: (Seq<char>, Seq<char>)| "##"@ + p.0 + "\t"@ + escape_newlines_spec(p.1));
            &&& text_entries(rows).len() == 0
            &&& text_infos(rows) == pairs.map_values(|p: (Seq<char>, Seq<char>)| (p.0, escape_newlines_spec(p.1)))
        }),
    decreases pairs.len(),
{
    let f = |p: (Seq<char>, Seq<char>)| "##"@ + p.0 + "\t"@ + escape_newlines_spec(p.1);
    let g = |p: (Seq<char>, Seq<char>)| (p.0, escape_newlines_spec(p.1));
    if pairs.len() > 0 {
        lemma_info_lines(pairs.drop_last());
        let rows = pairs.map_values(f);
        assert(rows.drop_last() =~= pairs.drop_last().map_values(f));
        lemma_info_line(pairs.last().0, pairs.last().1);
        assert(rows.last() == f(pairs.last()));
        assert(pairs.map_values(g) =~= pairs.drop_last().map_values(g).push(g(pairs.last())));
    } else {
        assert(pairs.map_values(f) =~= Seq::<Seq<char>>::empty());
        assert(pairs.map_values(g) =~= Seq::<(Seq<char>, Seq<char>)>::empty());
    }
}

proof fn lemma_entry_lines(es: Seq<EntryView>, texts: Seq<Seq<char>>)
    requires
        texts.len() == es.len(),
        forall|i: int|
            0 <= i < es.len() ==> {
                &&& (#[trigger] es[i]).term.len() > 0
                &&& !has_prefix(es[i].term, "##"@)
                &&& plain_key_part(es[i].term)
                &&& forall|j: int|
                    0 <= j < es[i].alts.len() ==> plain_key_part(#[trigger] es[i].alts[j].term) && es[i].alts[j].definition is None
            },
    ensures
        ({
            let rows = Seq::new(
                es.len(),
                |i: int| join_spec(terms_list(es[i]), TERM_SEPARATOR) + "\t"@ + escape_newlines_spec(texts[i]),
            );
            &&& text_infos(rows).len() == 0
            &&& text_entries(rows) == Seq::new(
                es.len(),
                |i: int| EntryView { term: es[i].term, definition: DefinitionView::Text(escape_newlines_spec(texts[i])), alts: es[i].alts },
            )
        }),
    decreases es.len(),
{
    let n = es.len();
    let rows = Seq::new(n, |i: int| join_spec(terms_list(es[i]), TERM_SEPARATOR) + "\t"@ + escape_newlines_spec(texts[i]));
    let want = Seq::new(
        n,
        |i: int| EntryView { term: es[i].term, definition: DefinitionView::Text(escape_newlines_spec(texts[i])), alts: es[i].alts },
    );
    if n > 0 {
        let m = (n - 1) as int;
        lemma_entry_lines(es.drop_last(), texts.drop_last());
        let rows0 = Seq::new(
            es.drop_last().len(),
            |i: int| join_spec(terms_list(es.drop_last()[i]), TERM_SEPARATOR) + "\t"@ + escape_newlines_spec(texts.drop_last()[i]),
        );
        assert(rows0 =~= rows.drop_last());
        lemma_entry_line(es[m], texts[m]);
        assert(rows =~= rows0 + seq![rows[m]]);
        lemma_text_entries_add(rows0, seq![rows[m]]);
        let want0 = Seq::new(
            es.drop_last().len(),
            |i: int| EntryView {
                term: es.drop_last()[i].term,
                definition: DefinitionView::Text(escape_newlines_spec(texts.drop_last()[i])),
                alts: es.drop_last()[i].alts,
            },
        );
        assert(want =~= want0 + seq![want[m]]);
    } else {
        assert(rows =~= Seq::<Seq<char>>::empty());
        assert(want =~= Seq::<EntryView>::empty());
    }
}

/// The lines of a text glossary's file are its rows, where no row holds a
/// line break.
proof fn lemma_lines_of_rows(rows: Seq<Seq<char>>)
    requires
        rows.len() > 0,
        forall|i: int| 0 <= i < rows.len() ==> !(#[trigger] rows[i]).contains('\n') && !rows[i].contains('\r') && rows[i].len() > 0,
    ensures
        lines_spec(with_final_newline(join_spec(rows, '\n'))) == rows,
{
    let j = join_spec(rows, '\n');
    let p = rows.push(Seq::<char>::empty());
    assert(p.drop_last() =~= rows);
    assert(p.last() =~= Seq::<char>::empty());
    assert(join_spec(p, '\n') =~= j.push('\n'));
    // the join ends with the last row, which is not a line break
    if rows.len() >= 2 {
        assert(j == join_spec(rows.drop_last(), '\n').push('\n') + rows.last());
    }
    assert(j.len() > 0 && j.last() == rows.last().last());
    assert(!rows.last().contains('\n'));
    assert(rows.last().last() != '\n') by {
        assert(rows.last()[rows.last().len() - 1] == rows.last().last());
    }
    assert(with_final_newline(j) == j.push('\n'));
    assert forall|i: int| 0 <= i < p.len() implies !(#[trigger] p[i]).contains('\n') by {
        if i < rows.len() {
            assert(p[i] == rows[i]);
        }
    }
    lemma_split_join(p, '\n');
    assert forall|i: int| 0 <= i < rows.len() implies strip_cr(#[trigger] rows[i]) == rows[i] by {
        assert(rows[i][rows[i].len() - 1] == rows[i].last());
    }
    assert(rows.map_values(|r: Seq<char>| strip_cr(r)) =~= rows);
}

/// Reading back a text glossary gives the entries it was written from, each
/// with its definition's text (line breaks written `\n`), and the info pairs
/// (values likewise), where [`text_safe`] holds.
pub proof fn lemma_text_roundtrip(g: Glossary, texts: Seq<Seq<char>>)
    requires
        texts.len() == g.entries@.len(),
        text_safe(g),
    ensures
        text_entries(lines_spec(text_file(g, texts))) == Seq::new(
            g.entries@.len(),
            |i: int| EntryView {
                term: g.entries@[i]@.term,
                definition: DefinitionView::Text(escape_newlines_spec(texts[i])),
                alts: g.entries@[i]@.alts,
            },
        ),
        text_infos(lines_spec(text_file(g, texts))) == g.info@.map_values(
            |p: (Seq<char>, Seq<char>)| (p.0, escape_newlines_spec(p.1)),
        ),
{
    reveal_strlit("##");
    reveal_strlit("\t");
    let es = entries_view(g.entries@);
    let info_rows = g.info@.map_values(|p: (Seq<char>, Seq<char>)| "##"@ + p.0 + "\t"@ + escape_newlines_spec(p.1));
    let entry_rows = Seq::new(
        es.len(),
        |i: int| join_spec(terms_list(es[i]), TERM_SEPARATOR) + "\t"@ + escape_newlines_spec(texts[i]),
    );
    let rows = text_rows(g.info@, es, texts);
    assert(rows =~= info_rows + entry_rows);
    lemma_info_lines(g.info@);
    lemma_entry_lines(es, texts);
    lemma_text_entries_add(info_rows, entry_rows);
    let want = Seq::new(
        g.entries@.len(),
        |i: int| EntryView {
            term: g.entries@[i]@.term,
            definition: DefinitionView::Text(escape_newlines_spec(texts[i])),
            alts: g.entries@[i]@.alts,
        },
    );
    assert(text_entries(rows) =~= want);
    if rows.len() == 0 {
        assert(text_file(g, texts) == seq!['\n']);
        let nl = seq!['\n'];
        assert(split_spec(nl, '\n') =~= seq![Seq::<char>::empty(), Seq::<char>::empty()]) by {
            lemma_find_unique(nl, 0, '\n', 0);
            assert(nl.skip(1) =~= Seq::<char>::empty());
            assert(nl.subrange(0, 0) =~= Seq::<char>::empty());
            assert(find_from(Seq::<char>::empty(), 0, '\n') is None);
            assert(split_spec(Seq::<char>::empty(), '\n') == seq![Seq::<char>::empty()]);
        }
        let ls = lines_spec(nl);
        assert(strip_cr(Seq::<char>::empty()) == Seq::<char>::empty());
        assert(ls =~= seq![Seq::<char>::empty()]);
        assert(ls.drop_last() =~= Seq::<Seq<char>>::empty());
        assert(text_line(ls.last()) == TextLine::Skip);
        assert(text_entries(ls.drop_last()) == Seq::<EntryView>::empty());
        assert(text_infos(ls.drop_last()) == Seq::<(Seq<char>, Seq<char>)>::empty());
        assert(text_entries(ls) =~= Seq::<EntryView>::empty());
        assert(text_infos(ls) =~= Seq::<(Seq<char>, Seq<char>)>::empty());
        assert(g.info@.map_values(|p: (Seq<char>, Seq<char>)| (p.0, escape_newlines_spec(p.1))) =~= Seq::<(Seq<char>, Seq<char>)>::empty());
    } else {
        assert forall|i: int| 0 <= i < rows.len() implies !(#[trigger] rows[i]).contains('\n') && !rows[i].contains('\r') && rows[i].len() > 0 by {
            if i < info_rows.len() {
                let p = g.info@[i];
                assert(rows[i] == "##"@ + p.0 + "\t"@ + escape_newlines_spec(p.1));
                lemma_escaped_has_no_breaks(p.1);
                assert(!"##"@.contains('\n')) by { if "##"@.contains('\n') { let j = choose|j: int| 0 <= j < 2 && "##"@[j] == '\n'; } }
                assert(!"##"@.contains('\r')) by { if "##"@.contains('\r') { let j = choose|j: int| 0 <= j < 2 && "##"@[j] == '\r'; } }
                assert(!"\t"@.contains('\n')) by { if "\t"@.contains('\n') { let j = choose|j: int| 0 <= j < 1 && "\t"@[j] == '\n'; } }
                assert(!"\t"@.contains('\r')) by { if "\t"@.contains('\r') { let j = choose|j: int| 0 <= j < 1 && "\t"@[j] == '\r'; } }
                lemma_concat_no_char("##"@, p.0, '\n');
                lemma_concat_no_char("##"@ + p.0, "\t"@, '\n');
                lemma_concat_no_char("##"@ + p.0 + "\t"@, escape_newlines_spec(p.1), '\n');
                lemma_concat_no_char("##"@, p.0, '\r');
                lemma_concat_no_char("##"@ + p.0, "\t"@, '\r');
                lemma_concat_no_char("##"@ + p.0 + "\t"@, escape_newlines_spec(p.1), '\r');
            } else {
                let k = i - info_rows.len();
                let e = es[k];
                let terms = terms_list(e);
                assert(rows[i] == join_spec(terms, TERM_SEPARATOR) + "\t"@ + escape_newlines_spec(texts[k]));
                assert forall|q: int| 0 <= q < terms.len() implies plain_key_part(#[trigger] terms[q]) by {
                    if q > 0 {
                        assert(terms[q] == e.alts[q - 1].term);
                    }
                }
                lemma_join_chars(terms, TERM_SEPARATOR, '\n');
                lemma_join_chars(terms, TERM_SEPARATOR, '\r');
                lemma_escaped_has_no_breaks(texts[k]);
                assert(!"\t"@.contains('\n')) by { if "\t"@.contains('\n') { let j = choose|j: int| 0 <= j < 1 && "\t"@[j] == '\n'; } }
                assert(!"\t"@.contains('\r')) by { if "\t"@.contains('\r') { let j = choose|j: int| 0 <= j < 1 && "\t"@[j] == '\r'; } }
                let key = join_spec(terms, TERM_SEPARATOR);
                lemma_concat_no_char(key, "\t"@, '\n');
                lemma_concat_no_char(key + "\t"@, escape_newlines_spec(texts[k]), '\n');
                lemma_concat_no_char(key, "\t"@, '\r');
                lemma_concat_no_char(key + "\t"@, escape_newlines_spec(texts[k]), '\r');
            }
        }
        lemma_lines_of_rows(rows);
    }
}


/// The key of an entry, its headwords joined by `|`, splits back into them,
/// is not empty and does not start `##`, where the headword is not empty,
/// does not start `##` and no headword holds a `|`.
pub proof fn lemma_headword_key(e: EntryView)
    requires
        e.term.len() > 0,
        !has_prefix(e.term, "##"@),
        !e.term.contains(TERM_SEPARATOR),
        forall|j: int| 0 <= j < e.alts.len() ==> !(#[trigger] e.alts[j]).term.contains(TERM_SEPARATOR),
    ensures
        split_spec(join_spec(terms_list(e), TERM_SEPARATOR), TERM_SEPARATOR) == terms_list(e),
        join_spec(terms_list(e), TERM_SEPARATOR).len() > 0,
        !has_prefix(join_spec(terms_list(e), TERM_SEPARATOR), "##"@),
{
    reveal_strlit("##");
    let terms = terms_list(e);
    let key = join_spec(terms, TERM_SEPARATOR);
    assert(terms[0] == e.term);
    assert forall|i: int| 0 <= i < terms.len() implies !(#[trigger] terms[i]).contains(TERM_SEPARATOR) by {
        if i > 0 {
            assert(terms[i] == e.alts[i - 1].term);
        }
    }
    lemma_split_join(terms, TERM_SEPARATOR);
    if terms.len() >= 2 {
        lemma_join_front(terms, TERM_SEPARATOR);
        assert(key.len() > 0);
    } else {
        assert(key == e.term);
    }
    assert(!has_prefix(key, "##"@)) by {
        if has_prefix(key, "##"@) {
            if e.term.len() >= 2 {
                assert(key.subrange(0, 2) =~= e.term.subrange(0, 2));
            } else if terms.len() >= 2 {
                assert(key[1] == TERM_SEPARATOR);
                assert(key.subrange(0, 2)[1] == "##"@[1]);
            } else {
                assert(key == e.term);
            }
        }
    }
}

} // verus!
