//! Reading a Stardict dictionary from the bytes of its files.

use vstd::prelude::*;

use crate::bytes::{be32, be64, read_u32_be, read_u64_be};
use crate::compression::{gzip_decompress, gzip_inflate};
use crate::formats::mdict::reader::{find_nul, lemma_nul_from, nul_from};
use crate::formats::stardict::sts::{sts_from_info, SameTypeSequence};
use crate::formats::stardict::StardictError;
use crate::glossary::alt::AltView;
use crate::glossary::definition::DefinitionView;
use crate::glossary::entry::{alts_view, EntryView};
use crate::glossary::glossary_info::{info_get, normalize_key_spec, store, store_all};
use crate::glossary::data_entry::{extension_of, path_extension};
use crate::glossary::{AltEntry, DataEntry, Entry, Glossary, GlossaryInfo, GlossaryMetadata};
use crate::strs::{find_char, find_from, lemma_find_from, lines, lines_spec, lossy_utf8, slice_to_vec, str_eq, string_of, trim_chars, trim_spec, utf8_lossy};

verus! {

/// An index item: a headword's bytes, and where its definition lies in the
/// `.dict` (offset, size).
pub type IdxItem = (Vec<u8>, u64, u32);

/// The view of index items.
pub open spec fn idx_view(v: Seq<IdxItem>) -> Seq<(Seq<u8>, u64, u32)> {
    v.map_values(|x: IdxItem| (x.0@, x.1, x.2))
}

/// The items of an `.idx` from `pos` on: a NUL-terminated headword, its
/// offset (u32, or u64 in a large file) and size (u32), big-endian; reading
/// stops at a headword without NUL or an item cut short.
pub open spec fn idx_items_from(b: Seq<u8>, pos: int, large: bool) -> Seq<(Seq<u8>, u64, u32)>
    decreases b.len() - pos,
{
    if pos < 0 || pos >= b.len() {
        Seq::empty()
    } else {
        match nul_from(b, pos) {
            Some(k) => {
                let p = k + 1;
                let step: int = if large {
                    8
                } else {
                    4
                };
                if p + step + 4 > b.len() || k < pos {
                    Seq::empty()
                } else {
                    let offset = if large {
                        be64(b.subrange(p, p + 8))
                    } else {
                        be32(b.subrange(p, p + 4))
                    };
                    let size = be32(b.subrange(p + step, p + step + 4));
                    seq![(b.subrange(pos, k), offset as u64, size as u32)] + idx_items_from(
                        b,
                        p + step + 4,
                        large,
                    )
                }
            },
            None => Seq::empty(),
        }
    }
}

/// The items of an `.idx` file.
pub fn parse_idx(b: &[u8], large: bool) -> (r: Vec<IdxItem>)
    ensures
        idx_view(r@) == idx_items_from(b@, 0, large),
{
    let mut out: Vec<IdxItem> = Vec::new();
    let mut pos: usize = 0;
    while pos < b.len()
        invariant
            pos <= b@.len(),
            idx_view(out@) + idx_items_from(b@, pos as int, large) == idx_items_from(b@, 0, large),
        decreases b@.len() - pos,
    {
        proof {
            lemma_nul_from(b@, pos as int);
        }
        let k = match find_nul(b, pos) {
            Some(k) => k,
            None => {
                assert(idx_view(out@) =~= idx_items_from(b@, 0, large));
                return out;
            },
        };
        let p = k + 1;
        let step: usize = if large {
            8
        } else {
            4
        };
        if p > b.len() || b.len() - p < step + 4 {
            assert(idx_view(out@) =~= idx_items_from(b@, 0, large));
            return out;
        }
        let term = slice_to_bytes(b, pos, k);
        let mut q = p;
        let offset: u64 = if large {
            match read_u64_be(b, &mut q) {
                Some(v) => v,
                None => {
                    return out;
                },
            }
        } else {
            match read_u32_be(b, &mut q) {
                Some(v) => v as u64,
                None => {
                    return out;
                },
            }
        };
        let size: u32 = match read_u32_be(b, &mut q) {
            Some(v) => v,
            None => {
                return out;
            },
        };
        let ghost prev = idx_view(out@);
        out.push((term, offset, size));
        proof {
            assert(idx_view(out@) =~= prev.push((b@.subrange(pos as int, k as int), offset, size)));
        }
        pos = q;
        assert(idx_view(out@) + idx_items_from(b@, pos as int, large) =~= idx_items_from(b@, 0, large));
    }
    assert(idx_view(out@) =~= idx_items_from(b@, 0, large));
    out
}

/// A copy of `b[from..to]`.
pub fn slice_to_bytes(b: &[u8], from: usize, to: usize) -> (r: Vec<u8>)
    requires
        from <= to <= b@.len(),
    ensures
        r@ == b@.subrange(from as int, to as int),
{
    let mut r: Vec<u8> = Vec::new();
    for i in from..to
        invariant
            to <= b@.len(),
            r@ == b@.subrange(from as int, i as int),
    {
        r.push(b[i]);
        assert(r@ =~= b@.subrange(from as int, i + 1));
    }
    r
}

/// The records of a `.syn` from `pos` on: a NUL-terminated alternative
/// headword and the index of its entry (big-endian u32); reading stops at a
/// headword without NUL or a record cut short.
pub open spec fn syn_records_from(b: Seq<u8>, pos: int) -> Seq<(Seq<u8>, int)>
    decreases b.len() - pos,
{
    if pos < 0 || pos >= b.len() {
        Seq::empty()
    } else {
        match nul_from(b, pos) {
            Some(k) => {
                let p = k + 1;
                if p + 4 > b.len() || k < pos {
                    Seq::empty()
                } else {
                    seq![(b.subrange(pos, k), be32(b.subrange(p, p + 4)))] + syn_records_from(b, p + 4)
                }
            },
            None => Seq::empty(),
        }
    }
}

/// The alternative headwords the records give entry `e`, in order.
pub open spec fn syn_alts(records: Seq<(Seq<u8>, int)>, e: int) -> Seq<Seq<char>>
    decreases records.len(),
{
    if records.len() == 0 {
        Seq::empty()
    } else if records.last().1 == e {
        syn_alts(records.drop_last(), e).push(lossy_utf8(records.last().0))
    } else {
        syn_alts(records.drop_last(), e)
    }
}

/// The view of lists of strings.
pub open spec fn lists_view(v: Seq<Vec<String>>) -> Seq<Seq<Seq<char>>> {
    v.map_values(|l: Vec<String>| l@.map_values(|s: String| s@))
}

fn parse_syn_records(b: &[u8]) -> (r: Vec<(Vec<u8>, u32)>)
    ensures
        r@.map_values(|x: (Vec<u8>, u32)| (x.0@, x.1 as int)) == syn_records_from(b@, 0),
{
    let mut out: Vec<(Vec<u8>, u32)> = Vec::new();
    let mut pos: usize = 0;
    while pos < b.len()
        invariant
            pos <= b@.len(),
            out@.map_values(|x: (Vec<u8>, u32)| (x.0@, x.1 as int)) + syn_records_from(b@, pos as int)
                == syn_records_from(b@, 0),
        decreases b@.len() - pos,
    {
        proof {
            lemma_nul_from(b@, pos as int);
        }
        let k = match find_nul(b, pos) {
            Some(k) => k,
            None => {
                assert(out@.map_values(|x: (Vec<u8>, u32)| (x.0@, x.1 as int)) =~= syn_records_from(b@, 0));
                return out;
            },
        };
        let p = k + 1;
        if p > b.len() || b.len() - p < 4 {
            assert(out@.map_values(|x: (Vec<u8>, u32)| (x.0@, x.1 as int)) =~= syn_records_from(b@, 0));
            return out;
        }
        let alt = slice_to_bytes(b, pos, k);
        let mut q = p;
        let index: u32 = match read_u32_be(b, &mut q) {
            Some(v) => v,
            None => {
                return out;
            },
        };
        let ghost prev = out@.map_values(|x: (Vec<u8>, u32)| (x.0@, x.1 as int));
        out.push((alt, index));
        assert(out@.map_values(|x: (Vec<u8>, u32)| (x.0@, x.1 as int)) =~= prev.push(
            (b@.subrange(pos as int, k as int), index as int),
        ));
        pos = q;
        assert(out@.map_values(|x: (Vec<u8>, u32)| (x.0@, x.1 as int)) + syn_records_from(b@, pos as int)
            =~= syn_records_from(b@, 0));
    }
    assert(out@.map_values(|x: (Vec<u8>, u32)| (x.0@, x.1 as int)) =~= syn_records_from(b@, 0));
    out
}

/// The alternative headwords of each of `entry_count` entries, from a `.syn`
/// (records pointing past the entries are dropped).
pub fn parse_syn(b: &[u8], entry_count: usize) -> (r: Vec<Vec<String>>)
    ensures
        r@.len() == entry_count,
        forall|e: int|
            0 <= e < entry_count ==> (#[trigger] lists_view(r@)[e]) == syn_alts(syn_records_from(b@, 0), e),
{
    let records = parse_syn_records(b);
    let ghost rs = records@.map_values(|x: (Vec<u8>, u32)| (x.0@, x.1 as int));
    let mut lists: Vec<Vec<String>> = Vec::new();
    for e in 0..entry_count
        invariant
            lists@.len() == e,
            forall|j: int| 0 <= j < e ==> (#[trigger] lists@[j])@.len() == 0,
    {
        lists.push(Vec::new());
    }
    let n = records.len();
    for i in 0..n
        invariant
            n == records@.len(),
            rs == records@.map_values(|x: (Vec<u8>, u32)| (x.0@, x.1 as int)),
            lists@.len() == entry_count,
            forall|e: int|
                0 <= e < entry_count ==> (#[trigger] lists_view(lists@)[e]) == syn_alts(rs.take(i as int), e),
    {
        let idx = records[i].1 as usize;
        let ghost before = lists@;
        proof {
            assert(rs.take(i + 1).drop_last() =~= rs.take(i as int));
            assert(rs.take(i + 1).last() == rs[i as int]);
        }
        if idx < entry_count {
            let s = utf8_lossy(records[i].0.as_slice());
            assert(rs[i as int].1 == idx as int);
            assert(s@ == lossy_utf8(rs[i as int].0));
            lists[idx].push(s);
            assert forall|e: int| 0 <= e < entry_count implies (#[trigger] lists_view(lists@)[e]) == syn_alts(rs.take(i + 1), e) by {
                assert(lists_view(before)[e] == syn_alts(rs.take(i as int), e));
                if e == idx as int {
                    assert(lists@[e]@ == before[e]@.push(s));
                    assert(syn_alts(rs.take(i + 1), e) == syn_alts(rs.take(i as int), e).push(lossy_utf8(rs[i as int].0)));
                    assert(lists_view(lists@)[e] =~= lists_view(before)[e].push(s@));
                } else {
                    assert(lists@[e] == before[e]);
                }
            }
        } else {
            assert forall|e: int| 0 <= e < entry_count implies (#[trigger] lists_view(lists@)[e]) == syn_alts(rs.take(i + 1), e) by {
                assert(lists@[e] == before[e]);
            }
        }
    }
    assert(rs.take(n as int) =~= rs);
    lists
}

/// The definition a Stardict dictionary of sequence `sts` holds: html for
/// `h`, text otherwise.
pub open spec fn sts_definition(sts: SameTypeSequence, s: Seq<char>) -> DefinitionView {
    match sts {
        SameTypeSequence::Html => DefinitionView::Html(s),
        _ => DefinitionView::Text(s),
    }
}

/// Alts made of headwords alone.
pub open spec fn term_alts(terms: Seq<Seq<char>>) -> Seq<AltView> {
    terms.map_values(|t: Seq<char>| AltView { term: t, definition: None })
}

/// The entries of a dictionary: one per index item that has a headword and
/// whose definition lies inside the `.dict`, with the alternative headwords
/// of its index position.
pub open spec fn stardict_entries(
    sts: SameTypeSequence,
    items: Seq<(Seq<u8>, u64, u32)>,
    alts: Seq<Seq<Seq<char>>>,
    dict: Seq<u8>,
) -> Seq<EntryView>
    decreases items.len(),
{
    if items.len() == 0 {
        Seq::empty()
    } else {
        let i = items.len() - 1;
        let rest = stardict_entries(sts, items.drop_last(), alts, dict);
        let (t, off, size) = items.last();
        if t.len() == 0 || off + size > dict.len() {
            rest
        } else {
            rest.push(
                EntryView {
                    term: lossy_utf8(t),
                    definition: sts_definition(sts, lossy_utf8(dict.subrange(off as int, off + size))),
                    alts: term_alts(alts[i]),
                },
            )
        }
    }
}

/// The kind of every definition read follows the `.ifo`: an entry holds
/// html exactly where `sametypesequence` is `h`, and plain text otherwise
/// (`m` among them), with the text of its `.dict` slice either way.
pub proof fn lemma_definition_kind_follows_ifo(
    info: Seq<(Seq<char>, Seq<char>)>,
    items: Seq<(Seq<u8>, u64, u32)>,
    alts: Seq<Seq<Seq<char>>>,
    dict: Seq<u8>,
)
    ensures
        forall|i: int|
            0 <= i < stardict_entries(sts_from_info(info), items, alts, dict).len() ==> {
                let d = (#[trigger] stardict_entries(sts_from_info(info), items, alts, dict)[i]).definition;
                &&& (d is Html <==> info_get(info, "sametypesequence"@) == Some("h"@))
                &&& (!(d is Html) ==> d is Text)
            },
    decreases items.len(),
{
    let sts = sts_from_info(info);
    let r = stardict_entries(sts, items, alts, dict);
    if items.len() > 0 {
        lemma_definition_kind_follows_ifo(info, items.drop_last(), alts, dict);
        let rest = stardict_entries(sts, items.drop_last(), alts, dict);
        assert forall|i: int| 0 <= i < r.len() implies {
            let d = (#[trigger] r[i]).definition;
            &&& (d is Html <==> info_get(info, "sametypesequence"@) == Some("h"@))
            &&& (!(d is Html) ==> d is Text)
        } by {
            if i < rest.len() {
                assert(r[i] == rest[i]);
            }
        }
    }
}

/// The views of entries.
pub open spec fn entries_view(v: Seq<Entry>) -> Seq<EntryView> {
    v.map_values(|e: Entry| e@)
}

/// The entries of a dictionary from its index, its synonyms (the alts of
/// each index position) and its `.dict` bytes.
pub fn read_entries(sts: SameTypeSequence, idx: &[IdxItem], syn: &[Vec<String>], dict: &[u8]) -> (r: Vec<Entry>)
    requires
        syn@.len() == idx@.len(),
    ensures
        entries_view(r@) == stardict_entries(sts, idx_view(idx@), lists_view(syn@), dict@),
{
    let ghost items = idx_view(idx@);
    let ghost alts = lists_view(syn@);
    let mut out: Vec<Entry> = Vec::new();
    let n = idx.len();
    for i in 0..n
        invariant
            n == idx@.len(),
            n == syn@.len(),
            items == idx_view(idx@),
            alts == lists_view(syn@),
            entries_view(out@) == stardict_entries(sts, items.take(i as int), alts, dict@),
    {
        proof {
            assert(items.take(i + 1).drop_last() =~= items.take(i as int));
            assert(items.take(i + 1).last() == items[i as int]);
        }
        let (t, off, size) = (&idx[i].0, idx[i].1, idx[i].2);
        let fits = (off <= dict.len() as u64) && (size as u64) <= (dict.len() as u64) - off;
        if t.len() == 0 || !fits {
            assert(entries_view(out@) =~= stardict_entries(sts, items.take(i + 1), alts, dict@));
        } else {
            let start = off as usize;
            let end = start + size as usize;
            let bytes = slice_to_bytes(dict, start, end);
            let text = utf8_lossy(bytes.as_slice());
            let term = utf8_lossy(t.as_slice());
            let def = sts.as_definition(text);
            let list = &syn[i];
            let mut alt_entries: Vec<AltEntry> = Vec::new();
            let m = list.len();
            for j in 0..m
                invariant
                    m == list@.len(),
                    alts_view(alt_entries@) == term_alts(list@.map_values(|s: String| s@).take(j as int)),
            {
                let a = AltEntry::only_term(list[j].clone());
                assert(a@ == AltView { term: list@[j as int]@, definition: None });
                let ghost prev = alt_entries@;
                alt_entries.push(a);
                assert(alts_view(alt_entries@) =~= alts_view(prev).push(a@));
                assert(alts_view(alt_entries@) =~= term_alts(list@.map_values(|s: String| s@).take(j + 1)));
            }
            assert(list@.map_values(|s: String| s@).take(m as int) =~= list@.map_values(|s: String| s@));
            let entry = Entry::new(term, def).with_alts(alt_entries);
            let ghost prev = entries_view(out@);
            out.push(entry);
            assert(entries_view(out@) =~= prev.push(entry@));
            assert(entries_view(out@) =~= stardict_entries(sts, items.take(i + 1), alts, dict@));
        }
    }
    assert(items.take(n as int) =~= items);
    out
}

/// The pair a line of an `.ifo` holds: `key=value` once trimmed, where the
/// value is not empty; the first line and blank lines hold none.
pub open spec fn ifo_pair(line: Seq<char>) -> Option<(Seq<char>, Seq<char>)> {
    let t = trim_spec(line);
    if t.len() == 0 || t == "StarDict's dict ifo file"@ {
        None
    } else {
        match find_from(t, 0, '=') {
            Some(k) => if t.skip(k + 1).len() == 0 {
                None
            } else {
                Some((t.take(k), t.skip(k + 1)))
            },
            None => None,
        }
    }
}

/// The pairs the lines hold, in order.
pub open spec fn ifo_pairs(lines: Seq<Seq<char>>) -> Seq<(Seq<char>, Seq<char>)>
    decreases lines.len(),
{
    if lines.len() == 0 {
        Seq::empty()
    } else {
        match ifo_pair(lines.last()) {
            Some(p) => ifo_pairs(lines.drop_last()).push(p),
            None => ifo_pairs(lines.drop_last()),
        }
    }
}

/// The info of an `.ifo`: its pairs, then a source language of English and a
/// target language of French.
pub open spec fn ifo_info(text: Seq<char>) -> Seq<(Seq<char>, Seq<char>)> {
    store_all(
        seq![("name"@, "name"@)],
        ifo_pairs(lines_spec(text)) + seq![("sourceLang"@, "English"@), ("targetLang"@, "French"@)],
    )
}

fn ifo_line_pair(line: &[char]) -> (r: Option<(String, String)>)
    ensures
        match r {
            Some((k, v)) => ifo_pair(line@) == Some((k@, v@)),
            None => ifo_pair(line@) is None,
        },
{
    let t = trim_chars(line);
    let ts = string_of(&t);
    if t.len() == 0 || str_eq(ts.as_str(), "StarDict's dict ifo file") {
        return None;
    }
    proof {
        lemma_find_from(t@, 0, '=');
    }
    match find_char(&t, 0, '=') {
        Some(k) => {
            if k + 1 >= t.len() {
                assert(t@.skip(k + 1).len() == 0);
                return None;
            }
            let key = slice_to_vec(&t, 0, k);
            let value = slice_to_vec(&t, k + 1, t.len());
            assert(key@ =~= t@.take(k as int));
            assert(value@ =~= t@.skip(k + 1));
            Some((string_of(&key), string_of(&value)))
        },
        None => None,
    }
}

/// The info of an `.ifo` file's text.
pub fn read_ifo_file(text: &str) -> (r: GlossaryInfo)
    ensures
        r.wf(),
        r@ == ifo_info(text@),
{
    let ls = lines(text);
    let ghost lsv = lines_spec(text@);
    let mut info = GlossaryInfo::new();
    let ghost start = info@;
    let n = ls.len();
    for i in 0..n
        invariant
            n == ls@.len(),
            n == lsv.len(),
            forall|j: int| 0 <= j < n ==> #[trigger] ls@[j]@ == lsv[j],
            start == seq![("name"@, "name"@)],
            info.wf(),
            info@ == store_all(start, ifo_pairs(lsv.take(i as int))),
    {
        proof {
            assert(lsv.take(i + 1).drop_last() =~= lsv.take(i as int));
            assert(lsv.take(i + 1).last() == ls@[i as int]@);
        }
        match ifo_line_pair(ls[i].as_slice()) {
            Some((k, v)) => {
                let _ = info.insert(k.as_str(), v);
                assert(ifo_pairs(lsv.take(i + 1)) == ifo_pairs(lsv.take(i as int)).push((k@, v@)));
                assert(ifo_pairs(lsv.take(i + 1)).drop_last() =~= ifo_pairs(lsv.take(i as int)));
            },
            None => {},
        }
    }
    assert(lsv.take(n as int) =~= lsv);
    let ghost pairs = ifo_pairs(lsv);
    let _ = info.insert("sourceLang", "English".to_string());
    let _ = info.insert("targetLang", "French".to_string());
    proof {
        let all = pairs + seq![("sourceLang"@, "English"@), ("targetLang"@, "French"@)];
        assert(all.drop_last() =~= pairs.push(("sourceLang"@, "English"@)));
        assert(all.drop_last().drop_last() =~= pairs);
        assert(store_all(start, all.drop_last()) == store(
            store_all(start, pairs),
            normalize_key_spec("sourceLang"@),
            "English"@,
        ));
        assert(store_all(start, all) == store(
            store_all(start, all.drop_last()),
            normalize_key_spec("targetLang"@),
            "French"@,
        ));
    }
    info
}

/// Whether the index uses 64-bit offsets, as `idxoffsetbits` says (32 where
/// it says nothing).
pub open spec fn idx_large_spec(info: Seq<(Seq<char>, Seq<char>)>) -> Result<bool, StardictError> {
    match info_get(info, "idxoffsetbits"@) {
        None => Ok(false),
        Some(v) => if v == "32"@ {
            Ok(false)
        } else if v == "64"@ {
            Ok(true)
        } else {
            Err(StardictError::InvalidIdxOffsetBits(arbitrary()))
        },
    }
}

/// Whether the index uses 64-bit offsets.
pub fn idx_is_large(info: &GlossaryInfo) -> (r: Result<bool, StardictError>)
    requires
        info.wf(),
    ensures
        r is Ok ==> r == idx_large_spec(info@),
        r is Err ==> idx_large_spec(info@) is Err,
        r matches Err(e) ==> (e matches StardictError::InvalidIdxOffsetBits(v) && info_get(
            info@,
            "idxoffsetbits"@,
        ) == Some(v@)),
{
    match info.get("idxoffsetbits") {
        None => Ok(false),
        Some(v) => if str_eq(v, "32") {
            Ok(false)
        } else if str_eq(v, "64") {
            Ok(true)
        } else {
            Err(StardictError::InvalidIdxOffsetBits(v.to_string()))
        },
    }
}

/// Whether a file is gzip-compressed, by its extension (`.dz` or `.gz`).
pub open spec fn is_compressed_name(name: Seq<char>) -> bool {
    path_extension(name) == Some("dz"@) || path_extension(name) == Some("gz"@)
}

/// The bytes of a file named `name` once inflated, where it is compressed.
pub open spec fn plain_bytes(name: Seq<char>, bytes: Seq<u8>) -> Option<Seq<u8>> {
    if is_compressed_name(name) {
        gzip_inflate(bytes)
    } else {
        Some(bytes)
    }
}

/// The bytes of a file, inflated where its name says it is compressed.
pub fn read_possibly_compressed(name: &str, bytes: Vec<u8>) -> (r: Result<Vec<u8>, StardictError>)
    ensures
        match r {
            Ok(b) => plain_bytes(name@, bytes@) == Some(b@),
            Err(e) => e == StardictError::DecompressionFailed && plain_bytes(name@, bytes@) is None,
        },
{
    let compressed = match extension_of(name) {
        Some(e) => str_eq(e.as_str(), "dz") || str_eq(e.as_str(), "gz"),
        None => false,
    };
    if compressed {
        match gzip_decompress(bytes.as_slice()) {
            Some(v) => Ok(v),
            None => Err(StardictError::DecompressionFailed),
        }
    } else {
        Ok(bytes)
    }
}

/// A file of the dictionary: its name and its bytes as read.
pub struct NamedFile {
    pub name: String,
    pub bytes: Vec<u8>,
}

/// The glossary a Stardict dictionary holds: its `.ifo` text, `.idx`,
/// `.dict` and optional `.syn` (each possibly compressed), and an optional
/// stylesheet.
pub open spec fn stardict_glossary_ok(
    g: Glossary,
    ifo: Seq<char>,
    idx: Seq<u8>,
    large: bool,
    dict: Seq<u8>,
    syn: Option<Seq<u8>>,
) -> bool {
    let info = ifo_info(ifo);
    let items = idx_items_from(idx, 0, large);
    let alts = Seq::new(
        items.len(),
        |i: int|
            match syn {
                Some(b) => syn_alts(syn_records_from(b, 0), i),
                None => Seq::empty(),
            },
    );
    &&& g.info.wf()
    &&& g.info@ == info
    &&& entries_view(g.entries@) == stardict_entries(sts_from_info(info), items, alts, dict)
    &&& g.metadata.tag_bank is None
    &&& g.metadata.stylesheet is None
}

/// Reads a Stardict dictionary from its files' contents; `ifo_path` must
/// name an `.ifo`.
pub fn read_stardict(
    ifo_path: &str,
    ifo_text: &str,
    idx: NamedFile,
    dict: NamedFile,
    syn: Option<NamedFile>,
    css: Option<NamedFile>,
) -> (r: Result<Glossary, StardictError>)
    ensures
        match r {
            Ok(g) => {
                &&& path_extension(ifo_path@) == Some("ifo"@)
                &&& idx_large_spec(ifo_info(ifo_text@)) is Ok
                &&& plain_bytes(idx.name@, idx.bytes@) is Some
                &&& plain_bytes(dict.name@, dict.bytes@) is Some
                &&& syn matches Some(f) ==> plain_bytes(f.name@, f.bytes@) is Some
                &&& stardict_glossary_ok(
                    g,
                    ifo_text@,
                    plain_bytes(idx.name@, idx.bytes@)->0,
                    idx_large_spec(ifo_info(ifo_text@))->Ok_0,
                    plain_bytes(dict.name@, dict.bytes@)->0,
                    match syn {
                        Some(f) => plain_bytes(f.name@, f.bytes@),
                        None => None,
                    },
                )
                &&& g.data_entries@.len() == if css is Some { 1int } else { 0int }
                &&& css matches Some(f) ==> g.data_entries@[0].spec_fname() == f.name@
                    && g.data_entries@[0].spec_bytes() == f.bytes@
            },
            Err(StardictError::NotAnIfo(p)) => p@ == ifo_path@ && path_extension(ifo_path@) != Some(
                "ifo"@,
            ),
            Err(StardictError::InvalidIdxOffsetBits(_)) => path_extension(ifo_path@) == Some("ifo"@)
                && idx_large_spec(ifo_info(ifo_text@)) is Err,
            Err(StardictError::DecompressionFailed) => plain_bytes(idx.name@, idx.bytes@) is None
                || plain_bytes(dict.name@, dict.bytes@) is None || (syn matches Some(f) && plain_bytes(
                f.name@,
                f.bytes@,
            ) is None),
            Err(StardictError::TooLarge) => false,
        },
{
    let is_ifo = match extension_of(ifo_path) {
        Some(e) => str_eq(e.as_str(), "ifo"),
        None => false,
    };
    if !is_ifo {
        return Err(StardictError::NotAnIfo(ifo_path.to_string()));
    }
    let info = read_ifo_file(ifo_text);
    let sts = SameTypeSequence::from_info(&info);
    let large = match idx_is_large(&info) {
        Ok(l) => l,
        Err(e) => {
            return Err(e);
        },
    };
    let ghost idx_name = idx.name@;
    let ghost idx_raw = idx.bytes@;
    let idx_plain = match read_possibly_compressed(idx.name.as_str(), idx.bytes) {
        Ok(b) => b,
        Err(e) => {
            return Err(e);
        },
    };
    let items = parse_idx(idx_plain.as_slice(), large);
    let ghost dict_name = dict.name@;
    let ghost dict_raw = dict.bytes@;
    let dict_plain = match read_possibly_compressed(dict.name.as_str(), dict.bytes) {
        Ok(b) => b,
        Err(e) => {
            return Err(e);
        },
    };
    let n = items.len();
    let ghost syn_plain: Option<Seq<u8>> = match &syn {
        Some(f) => plain_bytes(f.name@, f.bytes@),
        None => None,
    };
    let ghost items_v = idx_items_from(idx_plain@, 0, large);
    let ghost alts = Seq::new(
        items_v.len(),
        |i: int|
            match syn_plain {
                Some(b) => syn_alts(syn_records_from(b, 0), i),
                None => Seq::empty(),
            },
    );
    assert(items@.len() == items_v.len()) by {
        assert(idx_view(items@).len() == items@.len());
    }
    let lists: Vec<Vec<String>> = match syn {
        Some(f) => {
            let plain = match read_possibly_compressed(f.name.as_str(), f.bytes) {
                Ok(b) => b,
                Err(e) => {
                    return Err(e);
                },
            };
            let l = parse_syn(plain.as_slice(), n);
            assert(lists_view(l@) =~= alts);
            l
        },
        None => {
            let mut l: Vec<Vec<String>> = Vec::new();
            for i in 0..n
                invariant
                    l@.len() == i,
                    forall|j: int| 0 <= j < i ==> (#[trigger] l@[j])@.len() == 0,
            {
                l.push(Vec::new());
            }
            assert forall|j: int| 0 <= j < n implies (#[trigger] lists_view(l@)[j]) == alts[j] by {
                assert(lists_view(l@)[j] =~= Seq::<Seq<char>>::empty());
            }
            assert(lists_view(l@) =~= alts);
            l
        },
    };
    let entries = read_entries(sts, items.as_slice(), lists.as_slice(), dict_plain.as_slice());
    let mut data_entries: Vec<DataEntry> = Vec::new();
    match css {
        Some(f) => {
            data_entries.push(DataEntry::new(f.name, f.bytes));
        },
        None => {},
    }
    Ok(Glossary { entries, data_entries, info, metadata: GlossaryMetadata::default() })
}

} // verus!
