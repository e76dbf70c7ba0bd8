//! Reading a Yomitan archive: which files hold what, its index, and the
//! entries its banks hold.

use vstd::prelude::*;
use vstd::hash_map::StringHashMap;

use crate::formats::yomitan::model::{
    inflection_source_spec, TagBankEntry, TermBankEntry, TermMetaBankEntry, YomitanDefinition,
};
use crate::glossary::alt::AltView;
use crate::glossary::definition::{Definition, DefinitionView};
use crate::glossary::entry::{alts_view, lemma_alts_view, EntryView};
use crate::glossary::glossary_info::{pairs_view, store_all};
use crate::glossary::{AltEntry, DataEntry, Entry, Glossary, GlossaryInfo, GlossaryMetadata};
use crate::strs::{chars_of, parse_unsigned, parse_unsigned_spec, str_eq};
use crate::formats::stardict::reader::entries_view;
use crate::formats::yomitan::writer::{parse_i64, parse_i64_spec};

verus! {

/// What went wrong reading a Yomitan archive.
#[derive(Debug, Clone, PartialEq, Eq)]
pub enum YomitanError {
    /// A bank's number does not fit in a u32.
    BadBankNumber(String),
    /// The archive has no `index.json`.
    MissingIndex,
    /// The index is not a json object.
    MalformedIndex,
    /// The index's `format` is not 3.
    UnsupportedFormat,
}

/// The digits a bank file name holds, `prefix_N.json`, as the regex
/// `^prefix_(\d+)\.json$` captures them.
pub uninterp spec fn bank_digits(prefix: Seq<char>, name: Seq<char>) -> Option<Seq<char>>;

/// Calls `regex::Regex::captures` with `^prefix_(\d+)\.json$`; the capture is named.
#[verifier::external_body]
fn capture_bank_digits(prefix: &str, name: &str) -> (r: Option<String>)
    requires
        prefix@ == "term_bank"@ || prefix@ == "term_meta_bank"@ || prefix@ == "tag_bank"@,
    ensures
        match r {
            Some(d) => bank_digits(prefix@, name@) == Some(d@),
            None => bank_digits(prefix@, name@) is None,
        },
        r matches Some(d) ==> d@.len() > 0 && name@ == prefix@ + "_"@ + d@ + ".json"@,
{
    let re = regex::Regex::new(&format!(r"^{prefix}_(\d+)\.json$")).unwrap();
    re.captures(name).map(|c| c[1].to_string())
}

/// What a file of an archive is.
pub enum FileKind {
    TermBank(int),
    TermMetaBank(int),
    TagBank(int),
    Index,
    Styles,
    Unknown,
    /// A bank whose number does not fit in a u32.
    BadNumber,
}

/// The kind of a file by its name: the banks by their numbered names, the
/// index, the stylesheet (`style.css` or `styles.css`).
pub open spec fn file_kind(name: Seq<char>) -> FileKind {
    let num = |d: Seq<char>| parse_unsigned_spec(d, u32::MAX as int);
    match bank_digits("term_bank"@, name) {
        Some(d) => match num(d) {
            Some(n) => FileKind::TermBank(n),
            None => FileKind::BadNumber,
        },
        None => match bank_digits("term_meta_bank"@, name) {
            Some(d) => match num(d) {
                Some(n) => FileKind::TermMetaBank(n),
                None => FileKind::BadNumber,
            },
            None => match bank_digits("tag_bank"@, name) {
                Some(d) => match num(d) {
                    Some(n) => FileKind::TagBank(n),
                    None => FileKind::BadNumber,
                },
                None => if name == "index.json"@ {
                    FileKind::Index
                } else if name == "style.css"@ || name == "styles.css"@ {
                    FileKind::Styles
                } else {
                    FileKind::Unknown
                },
            },
        },
    }
}

/// Where a bank of number `k` goes among banks sorted by number, after those
/// of an equal number.
pub open spec fn bank_pos(sorted: Seq<(int, int)>, k: int) -> int
    decreases sorted.len(),
{
    if sorted.len() == 0 || sorted[0].0 > k {
        0
    } else {
        1 + bank_pos(sorted.skip(1), k)
    }
}

/// Banks (number, file index) in a stable sort by number.
pub open spec fn sort_banks(banks: Seq<(int, int)>) -> Seq<(int, int)>
    decreases banks.len(),
{
    if banks.len() == 0 {
        Seq::empty()
    } else {
        let sorted = sort_banks(banks.drop_last());
        let p = bank_pos(sorted, banks.last().0);
        sorted.take(p) + seq![banks.last()] + sorted.skip(p)
    }
}

/// The banks of one kind among the first files: (number, file index), in
/// the files' order.
pub open spec fn banks_of(names: Seq<Seq<char>>, kind: int) -> Seq<(int, int)>
    decreases names.len(),
{
    if names.len() == 0 {
        Seq::empty()
    } else {
        let rest = banks_of(names.drop_last(), kind);
        let i = names.len() - 1;
        match file_kind(names.last()) {
            FileKind::TermBank(n) => if kind == 0 { rest.push((n, i)) } else { rest },
            FileKind::TermMetaBank(n) => if kind == 1 { rest.push((n, i)) } else { rest },
            FileKind::TagBank(n) => if kind == 2 { rest.push((n, i)) } else { rest },
            _ => rest,
        }
    }
}

/// The last file of the given kind (index or styles) among the files.
pub open spec fn last_of(names: Seq<Seq<char>>, styles: bool) -> Option<int>
    decreases names.len(),
{
    if names.len() == 0 {
        None
    } else {
        let k = file_kind(names.last());
        if (styles && k is Styles) || (!styles && k is Index) {
            Some(names.len() - 1)
        } else {
            last_of(names.drop_last(), styles)
        }
    }
}

/// Whether some file is a bank with a number too large.
pub open spec fn has_bad_number(names: Seq<Seq<char>>) -> bool {
    exists|i: int| 0 <= i < names.len() && (#[trigger] file_kind(names[i])) is BadNumber
}

/// The files of an archive: the term banks, term meta banks and tag banks
/// (file indices, sorted by number), the index and the stylesheet.
pub struct ZipContents {
    pub term_banks: Vec<usize>,
    pub term_meta_banks: Vec<usize>,
    pub tag_banks: Vec<usize>,
    pub index_json: usize,
    pub styles_css: Option<usize>,
}

/// The file indices of banks.
pub open spec fn bank_files(banks: Seq<(int, int)>) -> Seq<int> {
    banks.map_values(|b: (int, int)| b.1)
}

fn kind_of(name: &str) -> (r: (u8, u32))
    ensures
        match file_kind(name@) {
            FileKind::TermBank(n) => r.0 == 0 && r.1 as int == n,
            FileKind::TermMetaBank(n) => r.0 == 1 && r.1 as int == n,
            FileKind::TagBank(n) => r.0 == 2 && r.1 as int == n,
            FileKind::Index => r.0 == 3,
            FileKind::Styles => r.0 == 4,
            FileKind::Unknown => r.0 == 5,
            FileKind::BadNumber => r.0 == 6,
        },
{
    proof {
        reveal_strlit("term_bank");
        reveal_strlit("term_meta_bank");
        reveal_strlit("tag_bank");
    }
    match capture_bank_digits("term_bank", name) {
        Some(d) => {
            let ds = chars_of(d.as_str());
            return match parse_unsigned(&ds, 0xFFFF_FFFF) {
                Some(n) => (0u8, n as u32),
                None => (6u8, 0u32),
            };
        },
        None => {},
    }
    match capture_bank_digits("term_meta_bank", name) {
        Some(d) => {
            let ds = chars_of(d.as_str());
            return match parse_unsigned(&ds, 0xFFFF_FFFF) {
                Some(n) => (1u8, n as u32),
                None => (6u8, 0u32),
            };
        },
        None => {},
    }
    match capture_bank_digits("tag_bank", name) {
        Some(d) => {
            let ds = chars_of(d.as_str());
            return match parse_unsigned(&ds, 0xFFFF_FFFF) {
                Some(n) => (2u8, n as u32),
                None => (6u8, 0u32),
            };
        },
        None => {},
    }
    if str_eq(name, "index.json") {
        (3u8, 0u32)
    } else if str_eq(name, "style.css") || str_eq(name, "styles.css") {
        (4u8, 0u32)
    } else {
        (5u8, 0u32)
    }
}

/// The view of a bank list.
pub open spec fn banks_view(v: Seq<(u32, usize)>) -> Seq<(int, int)> {
    v.map_values(|b: (u32, usize)| (b.0 as int, b.1 as int))
}

fn sort_bank_list(v: &Vec<(u32, usize)>) -> (r: Vec<usize>)
    ensures
        r@.map_values(|i: usize| i as int) == bank_files(sort_banks(banks_view(v@))),
{
    let ghost bv = banks_view(v@);
    let mut sorted: Vec<(u32, usize)> = Vec::new();
    let n = v.len();
    for i in 0..n
        invariant
            n == v@.len(),
            bv == banks_view(v@),
            banks_view(sorted@) == sort_banks(bv.take(i as int)),
    {
        let (k, f) = v[i];
        let ghost before = banks_view(sorted@);
        proof {
            assert(bv.take(i + 1).drop_last() =~= bv.take(i as int));
            assert(bv.take(i + 1).last() == (k as int, f as int));
        }
        let mut p: usize = 0;
        assert(before.skip(0) =~= before);
        while p < sorted.len() && sorted[p].0 <= k
            invariant
                p <= sorted@.len(),
                before == banks_view(sorted@),
                bank_pos(before, k as int) == p + bank_pos(before.skip(p as int), k as int),
            decreases sorted@.len() - p,
        {
            let ghost rest = before.skip(p as int);
            assert(rest[0] == before[p as int]);
            assert(rest.skip(1) =~= before.skip(p + 1));
            p = p + 1;
        }
        proof {
            if p < sorted@.len() {
                assert(before.skip(p as int)[0] == before[p as int]);
            }
        }
        sorted.insert(p, (k, f));
        assert(banks_view(sorted@) =~= before.take(p as int) + seq![(k as int, f as int)] + before.skip(p as int));
    }
    assert(bv.take(n as int) =~= bv);
    let mut out: Vec<usize> = Vec::new();
    let m = sorted.len();
    for j in 0..m
        invariant
            m == sorted@.len(),
            out@.map_values(|i: usize| i as int) == bank_files(banks_view(sorted@)).take(j as int),
    {
        let ghost prev = out@;
        out.push(sorted[j].1);
        assert(bank_files(banks_view(sorted@))[j as int] == sorted@[j as int].1 as int);
        assert(out@ == prev.push(sorted@[j as int].1));
        assert(out@.map_values(|i: usize| i as int) =~= prev.map_values(|i: usize| i as int).push(sorted@[j as int].1 as int));
        assert(bank_files(banks_view(sorted@)).take(j + 1) =~= bank_files(banks_view(sorted@)).take(j as int).push(bank_files(banks_view(sorted@))[j as int]));
        assert(out@.map_values(|i: usize| i as int) =~= bank_files(banks_view(sorted@)).take(j + 1));
    }
    assert(bank_files(banks_view(sorted@)).take(m as int) =~= bank_files(banks_view(sorted@)));
    out
}

/// Sorts out the files of an archive by their names: its banks, sorted by
/// number, its index and its stylesheet (the last of each).
pub fn collect_zip_contents(names: &[String]) -> (r: Result<ZipContents, YomitanError>)
    ensures
        ({
            let ns = names@.map_values(|s: String| s@);
            match r {
                Ok(z) => {
                    &&& !has_bad_number(ns)
                    &&& last_of(ns, false) == Some(z.index_json as int)
                    &&& match z.styles_css {
                        Some(i) => last_of(ns, true) == Some(i as int),
                        None => last_of(ns, true) is None,
                    }
                    &&& z.term_banks@.map_values(|i: usize| i as int) == bank_files(sort_banks(banks_of(ns, 0)))
                    &&& z.term_meta_banks@.map_values(|i: usize| i as int) == bank_files(sort_banks(banks_of(ns, 1)))
                    &&& z.tag_banks@.map_values(|i: usize| i as int) == bank_files(sort_banks(banks_of(ns, 2)))
                },
                Err(YomitanError::BadBankNumber(n)) => exists|i: int|
                    0 <= i < ns.len() && (#[trigger] file_kind(ns[i])) is BadNumber && n@ == ns[i] && forall|j: int|
                        0 <= j < i ==> !(#[trigger] file_kind(ns[j]) is BadNumber),
                Err(YomitanError::MissingIndex) => !has_bad_number(ns) && last_of(ns, false) is None,
                Err(_) => false,
            }
        }),
{
    let ghost ns = names@.map_values(|s: String| s@);
    let mut terms: Vec<(u32, usize)> = Vec::new();
    let mut metas: Vec<(u32, usize)> = Vec::new();
    let mut tags: Vec<(u32, usize)> = Vec::new();
    let mut index: Option<usize> = None;
    let mut styles: Option<usize> = None;
    let n = names.len();
    for i in 0..n
        invariant
            n == names@.len(),
            ns == names@.map_values(|s: String| s@),
            forall|j: int| 0 <= j < i ==> !(#[trigger] file_kind(ns[j]) is BadNumber),
            banks_view(terms@) == banks_of(ns.take(i as int), 0),
            banks_view(metas@) == banks_of(ns.take(i as int), 1),
            banks_view(tags@) == banks_of(ns.take(i as int), 2),
            match index {
                Some(x) => last_of(ns.take(i as int), false) == Some(x as int),
                None => last_of(ns.take(i as int), false) is None,
            },
            match styles {
                Some(x) => last_of(ns.take(i as int), true) == Some(x as int),
                None => last_of(ns.take(i as int), true) is None,
            },
    {
        proof {
            assert(ns.take(i + 1).drop_last() =~= ns.take(i as int));
            assert(ns.take(i + 1).last() == ns[i as int]);
            assert(ns[i as int] == names@[i as int]@);
        }
        let (kind, num) = kind_of(names[i].as_str());
        if kind == 0 {
            terms.push((num, i));
        } else if kind == 1 {
            metas.push((num, i));
        } else if kind == 2 {
            tags.push((num, i));
        } else if kind == 3 {
            index = Some(i);
        } else if kind == 4 {
            styles = Some(i);
        } else if kind == 6 {
            return Err(YomitanError::BadBankNumber(names[i].clone()));
        }
        assert(banks_view(terms@) =~= banks_of(ns.take(i + 1), 0));
        assert(banks_view(metas@) =~= banks_of(ns.take(i + 1), 1));
        assert(banks_view(tags@) =~= banks_of(ns.take(i + 1), 2));
    }
    assert(ns.take(n as int) =~= ns);
    let index_json = match index {
        Some(x) => x,
        None => {
            return Err(YomitanError::MissingIndex);
        },
    };
    Ok(ZipContents {
        term_banks: sort_bank_list(&terms),
        term_meta_banks: sort_bank_list(&metas),
        tag_banks: sort_bank_list(&tags),
        index_json,
        styles_css: styles,
    })
}

/// A value of an `index.json` member: a string, a number (its json text) or
/// anything else (its json text).
pub enum IndexValue {
    Text(String),
    Number(String),
    Other(String),
}

/// An index value as characters.
pub enum IndexValueView {
    Text(Seq<char>),
    Number(Seq<char>),
    Other(Seq<char>),
}

impl View for IndexValue {
    type V = IndexValueView;

    open spec fn view(&self) -> IndexValueView {
        match self {
            IndexValue::Text(s) => IndexValueView::Text(s@),
            IndexValue::Number(s) => IndexValueView::Number(s@),
            IndexValue::Other(s) => IndexValueView::Other(s@),
        }
    }
}

/// The members of an `index.json`, in order; none where it is not a json
/// object.
pub uninterp spec fn index_json_members(json: Seq<u8>) -> Option<Seq<(Seq<char>, IndexValueView)>>;

/// The views of index members.
pub open spec fn members_of(v: Seq<(String, IndexValue)>) -> Seq<(Seq<char>, IndexValueView)> {
    v.map_values(|m: (String, IndexValue)| (m.0@, m.1@))
}

/// Calls `serde_json::from_slice` into an `IndexMap<String, Value>`; the
/// members are named.
#[verifier::external_body]
fn parse_index_json(json: &[u8]) -> (r: Option<Vec<(String, IndexValue)>>)
    ensures
        match r {
            Some(m) => index_json_members(json@) == Some(members_of(m@)),
            None => index_json_members(json@) is None,
        },
{
    let index: indexmap::IndexMap<String, serde_json::Value> = serde_json::from_slice(json).ok()?;
    Some(index.into_iter().map(|(k, v)| match v {
        serde_json::Value::String(s) => (k, IndexValue::Text(s)),
        serde_json::Value::Number(n) => (k, IndexValue::Number(n.to_string())),
        other => (k, IndexValue::Other(other.to_string())),
    }).collect())
}

/// The text an info pair takes from a member: a string as it is, anything
/// else as its json text.
pub open spec fn member_text(v: IndexValueView) -> Seq<char> {
    match v {
        IndexValueView::Text(s) => s,
        IndexValueView::Number(s) => s,
        IndexValueView::Other(s) => s,
    }
}

/// The info pairs of the members.
pub open spec fn index_pairs(m: Seq<(Seq<char>, IndexValueView)>) -> Seq<(Seq<char>, Seq<char>)> {
    m.map_values(|p: (Seq<char>, IndexValueView)| (p.0, member_text(p.1)))
}

/// The value of the last member named `key`.
pub open spec fn member_value(m: Seq<(Seq<char>, IndexValueView)>, key: Seq<char>) -> Option<IndexValueView>
    decreases m.len(),
{
    if m.len() == 0 {
        None
    } else if m.last().0 == key {
        Some(m.last().1)
    } else {
        member_value(m.drop_last(), key)
    }
}

/// Whether the index is of format 3: its `format`, or else its older name
/// `version`, is the integer 3.
pub open spec fn format_is_3(m: Seq<(Seq<char>, IndexValueView)>) -> bool {
    let v = match member_value(m, "format"@) {
        Some(v) => Some(v),
        None => member_value(m, "version"@),
    };
    v matches Some(IndexValueView::Number(s)) && parse_i64_spec(s) == Some(3int)
}

fn find_member<'a>(m: &'a Vec<(String, IndexValue)>, key: &str) -> (r: Option<&'a IndexValue>)
    ensures
        match r {
            Some(v) => member_value(members_of(m@), key@) == Some(v@),
            None => member_value(members_of(m@), key@) is None,
        },
{
    let n = m.len();
    let mut i = n;
    assert(members_of(m@).take(n as int) =~= members_of(m@));
    while i > 0
        invariant
            i <= n,
            n == m@.len(),
            member_value(members_of(m@), key@) == member_value(members_of(m@).take(i as int), key@),
        decreases i,
    {
        let ghost mv = members_of(m@).take(i as int);
        assert(mv.drop_last() =~= members_of(m@).take(i - 1));
        assert(mv.last() == (m@[i - 1].0@, m@[i - 1].1@));
        if str_eq(m[i - 1].0.as_str(), key) {
            return Some(&m[i - 1].1);
        }
        i = i - 1;
    }
    None
}

/// The info of a dictionary's `index.json`: its members, inserted in order;
/// only format 3 is read.
pub fn parse_index_file(json: &[u8]) -> (r: Result<GlossaryInfo, YomitanError>)
    ensures
        match r {
            Ok(info) => info.wf() && (index_json_members(json@) matches Some(m) && format_is_3(m)
                && info@ == store_all(seq![("name"@, "name"@)], index_pairs(m))),
            Err(YomitanError::MalformedIndex) => index_json_members(json@) is None,
            Err(YomitanError::UnsupportedFormat) => index_json_members(json@) matches Some(m) && !format_is_3(m),
            Err(_) => false,
        },
{
    match parse_index_json(json) {
        Some(m) => index_info(m),
        None => Err(YomitanError::MalformedIndex),
    }
}

/// The info of an index with these members, inserted in order; only format 3
/// is read.
pub fn index_info(members: Vec<(String, IndexValue)>) -> (r: Result<GlossaryInfo, YomitanError>)
    ensures
        match r {
            Ok(info) => info.wf() && format_is_3(members_of(members@))
                && info@ == store_all(seq![("name"@, "name"@)], index_pairs(members_of(members@))),
            Err(YomitanError::UnsupportedFormat) => !format_is_3(members_of(members@)),
            Err(_) => false,
        },
{
    let fmt = match find_member(&members, "format") {
        Some(v) => Some(v),
        None => find_member(&members, "version"),
    };
    let ok = match fmt {
        Some(IndexValue::Number(s)) => match parse_i64(s.as_str()) {
            Some(v) => v == 3,
            None => false,
        },
        _ => false,
    };
    if !ok {
        return Err(YomitanError::UnsupportedFormat);
    }
    let mut pairs: Vec<(String, String)> = Vec::new();
    let n = members.len();
    for i in 0..n
        invariant
            n == members@.len(),
            pairs_view(pairs@) == index_pairs(members_of(members@.take(i as int))),
    {
        let k = members[i].0.clone();
        let v = match &members[i].1 {
            IndexValue::Text(s) => s.clone(),
            IndexValue::Number(s) => s.clone(),
            IndexValue::Other(s) => s.clone(),
        };
        let ghost prev = pairs@;
        pairs.push((k, v));
        proof {
            assert(members@.take(i + 1) =~= members@.take(i as int).push(members@[i as int]));
            assert(pairs_view(pairs@) =~= pairs_view(prev).push((k@, v@)));
            assert(index_pairs(members_of(members@.take(i + 1))) =~= index_pairs(members_of(members@.take(i as int))).push((k@, v@)));
        }
    }
    proof {
        assert(members@.take(n as int) =~= members@);
    }
    Ok(GlossaryInfo::from_pairs(pairs))
}

/// The first lemma whose headword is `t`.
pub open spec fn first_lemma(lemmas: Seq<TermBankEntry>, t: Seq<char>) -> Option<int>
    decreases lemmas.len(),
{
    if lemmas.len() == 0 {
        None
    } else {
        match first_lemma(lemmas.drop_last(), t) {
            Some(i) => Some(i),
            None => if lemmas.last().term@ == t {
                Some(lemmas.len() - 1)
            } else {
                None
            },
        }
    }
}

proof fn lemma_first_lemma_bound(lemmas: Seq<TermBankEntry>, t: Seq<char>)
    ensures
        first_lemma(lemmas, t) matches Some(i) ==> 0 <= i < lemmas.len() && lemmas[i].term@ == t,
    decreases lemmas.len(),
{
    if lemmas.len() > 0 {
        lemma_first_lemma_bound(lemmas.drop_last(), t);
    }
}

/// Whether a term bank entry is an inflection of another term.
pub open spec fn is_inflection(e: TermBankEntry) -> bool {
    inflection_source_spec(e.definitions@) is Some
}

/// The entries that are not inflections, in order.
pub open spec fn lemmas_of(flat: Seq<TermBankEntry>) -> Seq<TermBankEntry> {
    flat.filter(|e: TermBankEntry| !is_inflection(e))
}

/// An inflection as an alt of its lemma.
pub open spec fn inflection_alt(x: TermBankEntry) -> AltView {
    AltView {
        term: x.term@,
        definition: Some(DefinitionView::Yomitan(YomitanDefinition::TermBankEntry(x))),
    }
}

/// The inflections, in order.
pub open spec fn inflections_of(flat: Seq<TermBankEntry>) -> Seq<TermBankEntry> {
    flat.filter(|e: TermBankEntry| is_inflection(e))
}

/// The lemma an inflection belongs to: the first with its source's headword.
pub open spec fn lemma_of(lemmas: Seq<TermBankEntry>, x: TermBankEntry) -> Option<int> {
    first_lemma(lemmas, inflection_source_spec(x.definitions@)->0)
}

/// The alts of lemma `j`: the inflections (in order) it is the lemma of.
pub open spec fn lemma_alts(infls: Seq<TermBankEntry>, lemmas: Seq<TermBankEntry>, j: int) -> Seq<AltView>
    decreases infls.len(),
{
    if infls.len() == 0 {
        Seq::empty()
    } else {
        let rest = lemma_alts(infls.drop_last(), lemmas, j);
        if lemma_of(lemmas, infls.last()) == Some(j) {
            rest.push(inflection_alt(infls.last()))
        } else {
            rest
        }
    }
}

/// The inflections no lemma has, in order.
pub open spec fn orphans_of(infls: Seq<TermBankEntry>, lemmas: Seq<TermBankEntry>) -> Seq<TermBankEntry>
    decreases infls.len(),
{
    if infls.len() == 0 {
        Seq::empty()
    } else {
        let rest = orphans_of(infls.drop_last(), lemmas);
        if lemma_of(lemmas, infls.last()) is None {
            rest.push(infls.last())
        } else {
            rest
        }
    }
}

/// An entry of a term bank entry under its own headword.
pub open spec fn term_entry_view(e: TermBankEntry, alts: Seq<AltView>) -> EntryView {
    EntryView {
        term: e.term@,
        definition: DefinitionView::Yomitan(YomitanDefinition::TermBankEntry(e)),
        alts: alts,
    }
}

/// The entries of a dictionary's banks: each entry that is not an
/// inflection, its inflections as alts; then the inflections whose source
/// is no entry's headword; then the term meta bank entries.
pub open spec fn yomitan_entries(flat: Seq<TermBankEntry>, metas: Seq<TermMetaBankEntry>) -> Seq<EntryView> {
    let lemmas = lemmas_of(flat);
    let infls = inflections_of(flat);
    let orphans = orphans_of(infls, lemmas);
    Seq::new(lemmas.len(), |j: int| term_entry_view(lemmas[j], lemma_alts(infls, lemmas, j))) + Seq::new(
        orphans.len(),
        |j: int| term_entry_view(orphans[j], Seq::empty()),
    ) + Seq::new(
        metas.len(),
        |j: int|
            EntryView {
                term: meta_term(metas[j]),
                definition: DefinitionView::Yomitan(YomitanDefinition::TermMetaBankEntry(metas[j])),
                alts: Seq::empty(),
            },
    )
}

/// The headword of a term meta bank entry.
pub open spec fn meta_term(m: TermMetaBankEntry) -> Seq<char> {
    match m {
        TermMetaBankEntry::Frequency(t, _, _) => t@,
        TermMetaBankEntry::Pitch(t, _, _) => t@,
        TermMetaBankEntry::Ipa(t, _, _) => t@,
    }
}

/// The concatenation of lists.
pub open spec fn flatten<T>(banks: Seq<Seq<T>>) -> Seq<T>
    decreases banks.len(),
{
    if banks.len() == 0 {
        Seq::empty()
    } else {
        flatten(banks.drop_last()) + banks.last()
    }
}

/// The items of the banks, one bank after another.
pub fn flatten_banks<T>(banks: Vec<Vec<T>>) -> (r: Vec<T>)
    ensures
        r@ == flatten(banks@.map_values(|b: Vec<T>| b@)),
{
    let ghost bv = banks@.map_values(|b: Vec<T>| b@);
    let mut out: Vec<T> = Vec::new();
    for bank in iter: banks
        invariant
            iter.seq() == banks@,
            bv == banks@.map_values(|b: Vec<T>| b@),
            out@ == flatten(bv.take(iter.index() as int)),
    {
        let ghost before = out@;
        let ghost k = iter.index();
        for x in it: bank
            invariant
                it.seq() == bank@,
                out@ == before + it.seq().take(it.index() as int),
        {
            out.push(x);
            assert(out@ =~= before + it.seq().take(it.index() + 1));
        }
        proof {
            assert(bank@.take(bank@.len() as int) =~= bank@);
            assert(bv.take(k + 1).drop_last() =~= bv.take(k as int));
            assert(bv.take(k + 1).last() == bank@);
        }
    }
    assert(bv.take(bv.len() as int) =~= bv);
    out
}

/// The entries of a dictionary's term bank entries (all banks, in order)
/// and term meta bank entries.
pub fn build_entries(flat: Vec<TermBankEntry>, metas: Vec<TermMetaBankEntry>) -> (r: Vec<Entry>)
    ensures
        entries_view(r@) == yomitan_entries(flat@, metas@),
{
    let ghost fv = flat@;
    let ghost lemmas_spec = lemmas_of(fv);
    let ghost infls_spec = inflections_of(fv);
    let mut lemmas: Vec<TermBankEntry> = Vec::new();
    let mut infls: Vec<(TermBankEntry, String)> = Vec::new();
    for x in iter: flat
        invariant
            iter.seq() == fv,
            lemmas@ == fv.take(iter.index() as int).filter(|e: TermBankEntry| !is_inflection(e)),
            infls@.map_values(|p: (TermBankEntry, String)| p.0) == fv.take(iter.index() as int).filter(
                |e: TermBankEntry| is_inflection(e),
            ),
            forall|q: int| 0 <= q < infls@.len() ==> inflection_source_spec((#[trigger] infls@[q]).0.definitions@) == Some(infls@[q].1@),
    {
        let ghost k = iter.index();
        proof {
            reveal_with_fuel(Seq::filter, 1);
            assert(fv.take(k + 1).drop_last() =~= fv.take(k as int));
            assert(fv.take(k + 1).last() == x);
        }
        let src: Option<String> = match x.inflection_source() {
            Some(s) => Some(s.to_string()),
            None => None,
        };
        match src {
            Some(s) => {
                let ghost prev = infls@;
                infls.push((x, s));
                assert(infls@.map_values(|p: (TermBankEntry, String)| p.0) =~= prev.map_values(|p: (TermBankEntry, String)| p.0).push(x));
            },
            None => {
                lemmas.push(x);
            },
        }
    }
    proof {
        assert(fv.take(fv.len() as int) =~= fv);
    }
    assert(lemmas@ == lemmas_spec);
    let mut index: StringHashMap<usize> = StringHashMap::new();
    let mut entries: Vec<Entry> = Vec::new();
    let ghost lv = lemmas@;
    for x in iter: lemmas
        invariant
            iter.seq() == lv,
            lv == lemmas_spec,
            entries@.len() == iter.index(),
            forall|j: int| 0 <= j < iter.index() ==> (#[trigger] entries@[j])@ == term_entry_view(lv[j], Seq::empty()),
            forall|j: int| 0 <= j < iter.index() ==> (#[trigger] entries@[j]).spec_alts().len() == 0,
            forall|t: Seq<char>| #[trigger] index@.contains_key(t) <==> first_lemma(lv.take(iter.index() as int), t) is Some,
            forall|t: Seq<char>| #[trigger] index@.contains_key(t) ==> first_lemma(lv.take(iter.index() as int), t) == Some(index@[t] as int),
    {
        let ghost k = iter.index();
        let t = x.term.clone();
        let j = entries.len();
        if !index.contains_key(t.as_str()) {
            index.insert(t.clone(), j);
        }
        let e = Entry::new(t, Definition::Yomitan(YomitanDefinition::TermBankEntry(x)));
        entries.push(e);
        proof {
            let before = lv.take(k as int);
            let after = lv.take(k + 1);
            assert(after.drop_last() =~= before);
            assert(after.last() == x);
            assert forall|tt: Seq<char>| #[trigger] index@.contains_key(tt) <==> first_lemma(after, tt) is Some by {}
            assert forall|tt: Seq<char>| #[trigger] index@.contains_key(tt) implies first_lemma(after, tt) == Some(index@[tt] as int) by {}
            assert(e@.alts =~= Seq::<AltView>::empty());
            assert(e@ == term_entry_view(x, Seq::empty()));
        }
    }
    proof {
        assert(lv.take(lv.len() as int) =~= lv);
    }
    let ghost before_alts = entries@;
    let mut orphans: Vec<Entry> = Vec::new();
    let ghost iv = infls@;
    let ghost ivx = iv.map_values(|p: (TermBankEntry, String)| p.0);
    for p in iter: infls
        invariant
            iter.seq() == iv,
            ivx == iv.map_values(|p: (TermBankEntry, String)| p.0),
            ivx == infls_spec,
            lv == lemmas_spec,
            entries@.len() == lv.len(),
            forall|q: int| 0 <= q < iv.len() ==> inflection_source_spec((#[trigger] iv[q]).0.definitions@) == Some(iv[q].1@),
            forall|t: Seq<char>| #[trigger] index@.contains_key(t) <==> first_lemma(lv, t) is Some,
            forall|t: Seq<char>| #[trigger] index@.contains_key(t) ==> first_lemma(lv, t) == Some(index@[t] as int),
            forall|j: int| 0 <= j < lv.len() ==> (#[trigger] entries@[j])@ == term_entry_view(
                lv[j],
                lemma_alts(ivx.take(iter.index() as int), lv, j),
            ),
            entries_view(orphans@) == orphans_of(ivx.take(iter.index() as int), lv).map_values(
                |o: TermBankEntry| term_entry_view(o, Seq::empty()),
            ),
    {
        let ghost k = iter.index();
        let (x, src) = p;
        proof {
            assert(ivx.take(k + 1).drop_last() =~= ivx.take(k as int));
            assert(ivx.take(k + 1).last() == x);
            assert(iv[k as int] == (x, src));
        }
        let t = x.term.clone();
        match index.get(src.as_str()) {
            Some(j) => {
                let j = *j;
                proof {
                    lemma_first_lemma_bound(lv, src@);
                }
                let ghost before = entries@;
                let alt = AltEntry::new(t, Definition::Yomitan(YomitanDefinition::TermBankEntry(x)));
                proof {
                    lemma_alts_view(before[j as int]);
                }
                entries[j].alts_mut().push(alt);
                proof {
                    lemma_alts_view(entries@[j as int]);
                    assert(entries@[j as int].spec_alts() == before[j as int].spec_alts().push(alt));
                    assert(alts_view(before[j as int].spec_alts().push(alt)) =~= alts_view(before[j as int].spec_alts()).push(alt@));
                }
                proof {
                    assert(lemma_of(lv, x) == Some(j as int));
                    assert forall|jj: int| 0 <= jj < lv.len() implies (#[trigger] entries@[jj])@ == term_entry_view(
                        lv[jj],
                        lemma_alts(ivx.take(k + 1), lv, jj),
                    ) by {
                        if jj == j {
                            assert(alt@ == inflection_alt(x));
                            assert(entries@[jj]@.alts =~= before[jj]@.alts.push(alt@));
                        } else {
                            assert(entries@[jj] == before[jj]);
                        }
                    }
                    assert(orphans_of(ivx.take(k + 1), lv) == orphans_of(ivx.take(k as int), lv));
                }
            },
            None => {
                let e = Entry::new(t, Definition::Yomitan(YomitanDefinition::TermBankEntry(x)));
                let ghost prev = entries_view(orphans@);
                orphans.push(e);
                proof {
                    assert(e@.alts =~= Seq::<AltView>::empty());
                    assert(lemma_of(lv, x) is None);
                    assert(entries_view(orphans@) =~= prev.push(e@));
                    assert(orphans_of(ivx.take(k + 1), lv) == orphans_of(ivx.take(k as int), lv).push(x));
                    assert(orphans_of(ivx.take(k + 1), lv).map_values(|o: TermBankEntry| term_entry_view(o, Seq::empty()))
                        =~= orphans_of(ivx.take(k as int), lv).map_values(|o: TermBankEntry| term_entry_view(o, Seq::empty())).push(term_entry_view(x, Seq::empty())));
                    assert forall|jj: int| 0 <= jj < lv.len() implies (#[trigger] entries@[jj])@ == term_entry_view(
                        lv[jj],
                        lemma_alts(ivx.take(k + 1), lv, jj),
                    ) by {}
                }
            },
        }
    }
    proof {
        assert(ivx.take(ivx.len() as int) =~= ivx);
    }
    let ghost mid = entries_view(entries@);
    let ghost ov = entries_view(orphans@);
    for o in iter: orphans
        invariant
            entries_view(entries@) == mid + entries_view(iter.seq().take(iter.index() as int)),
    {
        let ghost prev = entries@;
        let ghost k = iter.index();
        let ghost sq = iter.seq();
        entries.push(o);
        proof {
            assert(sq.take(k + 1) =~= sq.take(k as int).push(o));
            assert(entries_view(sq.take(k + 1)) =~= entries_view(sq.take(k as int)).push(o@));
            assert(entries_view(entries@) =~= entries_view(prev).push(o@));
        }
        assert(entries_view(entries@) =~= mid + entries_view(iter.seq().take(iter.index() + 1)));
    }
    let ghost mid2 = entries_view(entries@);
    assert(mid2 =~= mid + ov);
    let ghost mv = metas@;
    for m in iter: metas
        invariant
            iter.seq() == mv,
            entries_view(entries@) == mid2 + Seq::new(
                iter.index() as nat,
                |j: int|
                    EntryView {
                        term: meta_term(mv[j]),
                        definition: DefinitionView::Yomitan(YomitanDefinition::TermMetaBankEntry(mv[j])),
                        alts: Seq::empty(),
                    },
            ),
    {
        let ghost k = iter.index();
        let t = m.term().clone();
        assert(t@ == meta_term(m));
        assert(m == mv[k as int]);
        let e = Entry::new(t, Definition::Yomitan(YomitanDefinition::TermMetaBankEntry(m)));
        assert(e@.alts =~= Seq::<AltView>::empty());
        let ghost prev = entries@;
        entries.push(e);
        assert(entries_view(entries@) =~= entries_view(prev).push(e@));
        assert(entries_view(entries@) =~= mid2 + Seq::new(
            (k + 1) as nat,
            |j: int|
                EntryView {
                    term: meta_term(mv[j]),
                    definition: DefinitionView::Yomitan(YomitanDefinition::TermMetaBankEntry(mv[j])),
                    alts: Seq::empty(),
                },
        ));
    }
    proof {
        let lemmas = lemmas_of(fv);
        let infls = inflections_of(fv);
        let orph = orphans_of(infls, lemmas);
        assert(mid =~= Seq::new(lemmas.len(), |j: int| term_entry_view(lemmas[j], lemma_alts(infls, lemmas, j))));
        assert(ov == orph.map_values(|o: TermBankEntry| term_entry_view(o, Seq::empty())));
        assert(orph.map_values(|o: TermBankEntry| term_entry_view(o, Seq::empty())) =~= Seq::new(
            orph.len(),
            |j: int| term_entry_view(orph[j], Seq::empty()),
        ));
    }
    assert(entries_view(entries@) =~= yomitan_entries(fv, mv));
    entries
}

/// The glossary of a Yomitan dictionary from its `index.json`, its banks
/// (parsed, each kind in order) and its stylesheet.
pub fn read_yomitan(
    index_json: &[u8],
    term_banks: Vec<Vec<TermBankEntry>>,
    term_meta_banks: Vec<Vec<TermMetaBankEntry>>,
    tag_banks: Vec<Vec<TagBankEntry>>,
    styles_css: Option<(String, Vec<u8>)>,
) -> (r: Result<Glossary, YomitanError>)
    ensures
        match r {
            Ok(g) => {
                &&& g.info.wf()
                &&& (index_json_members(index_json@) matches Some(m) && format_is_3(m) && g.info@ == store_all(
                    seq![("name"@, "name"@)],
                    index_pairs(m),
                ))
                &&& entries_view(g.entries@) == yomitan_entries(
                    flatten(term_banks@.map_values(|b: Vec<TermBankEntry>| b@)),
                    flatten(term_meta_banks@.map_values(|b: Vec<TermMetaBankEntry>| b@)),
                )
                &&& g.metadata.tag_bank matches Some(tags) && tags@ == flatten(
                    tag_banks@.map_values(|b: Vec<TagBankEntry>| b@),
                )
                &&& g.metadata.stylesheet is None
                &&& g.data_entries@.len() == if styles_css is Some { 1int } else { 0int }
                &&& styles_css matches Some((n, b)) ==> g.data_entries@[0].spec_fname() == n@
                    && g.data_entries@[0].spec_bytes() == b@
            },
            Err(YomitanError::MalformedIndex) => index_json_members(index_json@) is None,
            Err(YomitanError::UnsupportedFormat) => index_json_members(index_json@) matches Some(m) && !format_is_3(m),
            Err(_) => false,
        },
{
    let info = match parse_index_file(index_json) {
        Ok(i) => i,
        Err(e) => {
            return Err(e);
        },
    };
    let flat = flatten_banks(term_banks);
    let metas = flatten_banks(term_meta_banks);
    let entries = build_entries(flat, metas);
    let tags = flatten_banks(tag_banks);
    let mut data_entries: Vec<DataEntry> = Vec::new();
    match styles_css {
        Some((name, bytes)) => {
            data_entries.push(DataEntry::new(name, bytes));
        },
        None => {},
    }
    Ok(Glossary {
        entries,
        data_entries,
        info,
        metadata: GlossaryMetadata { tag_bank: Some(tags), stylesheet: None },
    })
}

} // verus!
