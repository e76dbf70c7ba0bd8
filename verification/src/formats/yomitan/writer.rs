//! Writing a Yomitan archive: its index, its banks in chunks, its
//! stylesheet and its other files. Serializing the banks and zipping them
//! is left to the caller.

use vstd::prelude::*;
use vstd::string::StringExecFns;

use crate::formats::yomitan::model::{TermBankEntry, TermMetaBankEntry, YomitanDefinition};
use crate::glossary::definition::{Definition, DefinitionView, yomitan_form};
use crate::glossary::alt::lemma_alt_definition_view;
use crate::glossary::entry::{lemma_alts_view, EntryView};
use crate::glossary::alt::AltView;
use crate::formats::stardict::reader::{entries_view, stardict_entries};
use crate::formats::stardict::sts::SameTypeSequence;
use crate::formats::text::text_entries;
use crate::formats::json::json_entries;
use crate::formats::mdict::reader::mdx_entries_spec;
use crate::formats::yomitan::reader::{first_lemma, is_inflection, orphans_of, flatten, inflection_alt, inflections_of, lemma_alts, lemma_of, lemmas_of, yomitan_entries};
use crate::glossary::AltEntry;
use crate::formats::yomitan::model::{inflection_source_spec, DetailedDefinition};
use crate::glossary::glossary_info::{pairs_view};
use crate::glossary::{DataEntry, Entry, GlossaryInfo, is_css_spec};
use crate::registry::ReaderFormat;
use crate::strs::{all_digits, chars_of, digits_value, parse_unsigned, parse_unsigned_spec, push_decimal, slice_to_vec, str_eq, utf8_lossy, decimal_spec, lossy_utf8};
use crate::transform::css_transform::{rewrite_css_classes, rewrite_spec};
use crate::glossary::entry::{bytes_of, utf8_of};

verus! {

/// A json value of the index.
#[derive(Debug, Clone, PartialEq, Eq)]
pub enum JsonScalar {
    Int(i64),
    Bool(bool),
    Str(String),
}

/// A json value of the index, as a value.
pub enum ScalarView {
    Int(int),
    Bool(bool),
    Str(Seq<char>),
}

/// The value of a json value.
pub open spec fn scalar_view(v: JsonScalar) -> ScalarView {
    match v {
        JsonScalar::Int(i) => ScalarView::Int(i as int),
        JsonScalar::Bool(b) => ScalarView::Bool(b),
        JsonScalar::Str(s) => ScalarView::Str(s@),
    }
}

/// The values of index members.
pub open spec fn members_view(v: Seq<(String, JsonScalar)>) -> Seq<(Seq<char>, ScalarView)> {
    v.map_values(|m: (String, JsonScalar)| (m.0@, scalar_view(m.1)))
}

/// What `str::parse::<i64>` gives.
pub open spec fn parse_i64_spec(s: Seq<char>) -> Option<int> {
    if s.len() > 0 && s[0] == '-' {
        let d = s.skip(1);
        if d.len() > 0 && all_digits(d) && digits_value(d) <= 9223372036854775808 {
            Some(-digits_value(d))
        } else {
            None
        }
    } else {
        parse_unsigned_spec(s, i64::MAX as int)
    }
}

/// Parses a decimal `i64` as `str::parse` does.
pub fn parse_i64(s: &str) -> (r: Option<i64>)
    ensures
        match r {
            Some(v) => parse_i64_spec(s@) == Some(v as int),
            None => parse_i64_spec(s@) is None,
        },
{
    let cs = chars_of(s);
    if cs.len() > 0 && cs[0] == '-' {
        let rest = slice_to_vec(&cs, 1, cs.len());
        assert(rest@ =~= s@.skip(1));
        if rest.len() == 0 || rest[0] == '+' {
            proof {
                if rest@.len() > 0 {
                    assert(!crate::strs::is_digit(rest@[0]));
                }
            }
            return None;
        }
        match parse_unsigned(&rest, 9223372036854775808) {
            Some(v) => {
                proof {
                    assert(crate::strs::digits_part(rest@) == rest@);
                }
                if v == 9223372036854775808 {
                    Some(i64::MIN)
                } else {
                    Some(-(v as i64))
                }
            },
            None => {
                proof {
                    assert(crate::strs::digits_part(rest@) == rest@);
                }
                None
            },
        }
    } else {
        match parse_unsigned(&cs, 9223372036854775807) {
            Some(v) => Some(v as i64),
            None => None,
        }
    }
}

/// The bool `str::parse::<bool>` gives.
pub open spec fn parse_bool_spec(s: Seq<char>) -> Option<bool> {
    if s == "true"@ {
        Some(true)
    } else if s == "false"@ {
        Some(false)
    } else {
        None
    }
}

/// An info pair as the index holds it: `name` becomes `title`; `version` and
/// `format` must be integers, `sequenced` and `isUpdatable` bools, or the
/// pair is dropped; the rest are strings.
pub open spec fn index_member(k: Seq<char>, v: Seq<char>) -> Option<(Seq<char>, ScalarView)> {
    let key = if k == "name"@ {
        "title"@
    } else {
        k
    };
    if k == "version"@ || k == "format"@ {
        match parse_i64_spec(v) {
            Some(i) => Some((key, ScalarView::Int(i))),
            None => None,
        }
    } else if k == "sequenced"@ || k == "isUpdatable"@ {
        match parse_bool_spec(v) {
            Some(b) => Some((key, ScalarView::Bool(b))),
            None => None,
        }
    } else {
        Some((key, ScalarView::Str(v)))
    }
}

/// The members after storing `(key, value)`: in place where the key is
/// present, at the end otherwise.
pub open spec fn member_store(m: Seq<(Seq<char>, ScalarView)>, key: Seq<char>, value: ScalarView) -> Seq<
    (Seq<char>, ScalarView),
> {
    if exists|i: int| 0 <= i < m.len() && m[i].0 == key {
        let i = choose|i: int| 0 <= i < m.len() && m[i].0 == key;
        m.update(i, (key, value))
    } else {
        m.push((key, value))
    }
}

/// Whether some member has the key.
pub open spec fn has_member(m: Seq<(Seq<char>, ScalarView)>, key: Seq<char>) -> bool {
    exists|i: int| 0 <= i < m.len() && m[i].0 == key
}

/// The members of the info's pairs, in order.
pub open spec fn index_members_from(pairs: Seq<(Seq<char>, Seq<char>)>) -> Seq<(Seq<char>, ScalarView)>
    decreases pairs.len(),
{
    if pairs.len() == 0 {
        Seq::empty()
    } else {
        let rest = index_members_from(pairs.drop_last());
        match index_member(pairs.last().0, pairs.last().1) {
            Some((k, v)) => member_store(rest, k, v),
            None => rest,
        }
    }
}

/// The members of a dictionary's index: its info's, then a revision of `1`
/// and, where neither a version nor a format is given, a version of 3.
pub open spec fn index_members(info: Seq<(Seq<char>, Seq<char>)>) -> Seq<(Seq<char>, ScalarView)> {
    let m = index_members_from(info);
    let m2 = if has_member(m, "revision"@) {
        m
    } else {
        m.push(("revision"@, ScalarView::Str("1"@)))
    };
    if !has_member(m2, "version"@) && !has_member(m2, "format"@) {
        m2.push(("version"@, ScalarView::Int(3)))
    } else {
        m2
    }
}

/// The json text `serde_json::to_string_pretty` gives an object of the members.
pub uninterp spec fn json_pretty_index(members: Seq<(Seq<char>, ScalarView)>) -> Seq<char>;

/// Calls `serde_json::to_string_pretty` on the object of the members; the
/// result is named.
#[verifier::external_body]
fn pretty_index(members: &[(String, JsonScalar)]) -> (r: String)
    ensures
        r@ == json_pretty_index(members_view(members@)),
{
    let doc: indexmap::IndexMap<&str, serde_json::Value> = members.iter().map(|(k, v)| {
        let value = match v {
            JsonScalar::Int(i) => serde_json::Value::from(*i),
            JsonScalar::Bool(b) => serde_json::Value::from(*b),
            JsonScalar::Str(s) => serde_json::Value::from(s.as_str()),
        };
        (k.as_str(), value)
    }).collect();
    serde_json::to_string_pretty(&doc).unwrap_or_default()
}

fn find_member(m: &Vec<(String, JsonScalar)>, key: &str) -> (r: Option<usize>)
    ensures
        match r {
            Some(i) => i < m@.len() && m@[i as int].0@ == key@ && forall|j: int| 0 <= j < i ==> m@[j].0@ != key@,
            None => !has_member(members_view(m@), key@),
        },
{
    let n = m.len();
    for i in 0..n
        invariant
            n == m@.len(),
            forall|j: int| 0 <= j < i ==> m@[j].0@ != key@,
    {
        if str_eq(m[i].0.as_str(), key) {
            return Some(i);
        }
    }
    proof {
        assert forall|j: int| 0 <= j < n implies members_view(m@)[j].0 != key@ by {
            assert(members_view(m@)[j].0 == m@[j].0@);
        }
    }
    None
}

/// Whether the keys of the members are distinct.
pub open spec fn distinct_members(m: Seq<(Seq<char>, ScalarView)>) -> bool {
    forall|i: int, j: int| 0 <= i < m.len() && 0 <= j < m.len() && i != j ==> m[i].0 != m[j].0
}

fn store_member(m: &mut Vec<(String, JsonScalar)>, key: String, value: JsonScalar)
    requires
        distinct_members(members_view(old(m)@)),
    ensures
        distinct_members(members_view(final(m)@)),
        members_view(final(m)@) == member_store(members_view(old(m)@), key@, scalar_view(value)),
{
    let ghost before = members_view(m@);
    match find_member(m, key.as_str()) {
        Some(i) => {
            proof {
                let k = choose|k: int| 0 <= k < before.len() && before[k].0 == key@;
                assert(before[i as int].0 == key@);
                assert(k == i as int);
            }
            m.set(i, (key, value));
            assert(members_view(m@) =~= before.update(i as int, (members_view(m@)[i as int].0, scalar_view(value))));
        },
        None => {
            m.push((key, value));
            assert(members_view(m@) =~= before.push((members_view(m@).last().0, scalar_view(value))));
        },
    }
}

/// The `index.json` of a dictionary.
pub fn write_index(info: &GlossaryInfo) -> (r: String)
    ensures
        r@ == json_pretty_index(index_members(info@)),
{
    let pairs = info.pairs();
    let mut m: Vec<(String, JsonScalar)> = Vec::new();
    let n = pairs.len();
    for i in 0..n
        invariant
            n == pairs@.len(),
            pairs_view(pairs@) == info@,
            distinct_members(members_view(m@)),
            members_view(m@) == index_members_from(info@.take(i as int)),
    {
        proof {
            assert(info@.take(i + 1).drop_last() =~= info@.take(i as int));
            assert(info@.take(i + 1).last() == (pairs@[i as int].0@, pairs@[i as int].1@));
        }
        let k = pairs[i].0.as_str();
        let v = pairs[i].1.as_str();
        let key: String = if str_eq(k, "name") {
            "title".to_string()
        } else {
            k.to_string()
        };
        if str_eq(k, "version") || str_eq(k, "format") {
            match parse_i64(v) {
                Some(x) => store_member(&mut m, key, JsonScalar::Int(x)),
                None => {},
            }
        } else if str_eq(k, "sequenced") || str_eq(k, "isUpdatable") {
            if str_eq(v, "true") {
                store_member(&mut m, key, JsonScalar::Bool(true));
            } else if str_eq(v, "false") {
                store_member(&mut m, key, JsonScalar::Bool(false));
            }
        } else {
            store_member(&mut m, key, JsonScalar::Str(v.to_string()));
        }
    }
    assert(info@.take(n as int) =~= info@);
    let ghost m1 = members_view(m@);
    if find_member(&m, "revision").is_none() {
        m.push(("revision".to_string(), JsonScalar::Str("1".to_string())));
        assert(members_view(m@) =~= m1.push(("revision"@, ScalarView::Str("1"@))));
    } else {
        proof {
            let i = choose|i: int| 0 <= i < m@.len() && m@[i].0@ == "revision"@;
            assert(members_view(m@)[i].0 == "revision"@);
        }
    }
    let ghost m2 = members_view(m@);
    let has_version = find_member(&m, "version").is_some();
    let has_format = find_member(&m, "format").is_some();
    proof {
        if has_version {
            let i = choose|i: int| 0 <= i < m@.len() && m@[i].0@ == "version"@;
            assert(members_view(m@)[i].0 == "version"@);
        }
        if has_format {
            let i = choose|i: int| 0 <= i < m@.len() && m@[i].0@ == "format"@;
            assert(members_view(m@)[i].0 == "format"@);
        }
    }
    if !has_version && !has_format {
        m.push(("version".to_string(), JsonScalar::Int(3)));
        assert(members_view(m@) =~= m2.push(("version"@, ScalarView::Int(3))));
    }
    pretty_index(m.as_slice())
}

/// How many entries a bank holds.
pub const CHUNK_SIZE: usize = 1000;

/// The name of bank `i` (from 1) of a kind: `prefix_i.json`.
pub open spec fn bank_name(prefix: Seq<char>, i: nat) -> Seq<char> {
    prefix + "_"@ + decimal_spec(i) + ".json"@
}

/// Whether `chunks` cut `items` into banks of [`CHUNK_SIZE`] (the last one
/// shorter), named `prefix_1.json`, `prefix_2.json`, ...
pub open spec fn chunked<T>(chunks: Seq<(String, Vec<T>)>, items: Seq<T>, prefix: Seq<char>) -> bool {
    &&& chunks.len() == (items.len() + CHUNK_SIZE - 1) / CHUNK_SIZE as int
    &&& forall|i: int| 0 <= i < chunks.len() ==> (#[trigger] chunks[i]).0@ == bank_name(prefix, (i + 1) as nat)
    &&& forall|i: int|
        0 <= i < chunks.len() ==> (#[trigger] chunks[i]).1@ == items.subrange(
            i * CHUNK_SIZE,
            if (i + 1) * CHUNK_SIZE <= items.len() {
                (i + 1) * CHUNK_SIZE
            } else {
                items.len() as int
            },
        )
}

fn bank_name_of(prefix: &str, i: usize) -> (r: String)
    ensures
        r@ == bank_name(prefix@, i as nat),
{
    let mut s = String::new();
    s.append(prefix);
    s.append("_");
    push_decimal(&mut s, i as u64);
    s.append(".json");
    s
}

/// Cuts the items into named banks of [`CHUNK_SIZE`].
pub fn chunk_banks<T>(items: Vec<T>, prefix: &str) -> (r: Vec<(String, Vec<T>)>)
    ensures
        chunked(r@, items@, prefix@),
{
    let ghost iv = items@;
    let n = items.len();
    let mut out: Vec<(String, Vec<T>)> = Vec::new();
    let mut current: Vec<T> = Vec::new();
    for x in iter: items
        invariant
            iter.seq() == iv,
            n == iv.len(),
            current@.len() < CHUNK_SIZE,
            out@.len() * CHUNK_SIZE + current@.len() == iter.index(),
            current@ == iv.subrange(out@.len() * CHUNK_SIZE, iter.index() as int),
            forall|i: int| 0 <= i < out@.len() ==> (#[trigger] out@[i]).0@ == bank_name(prefix@, (i + 1) as nat),
            forall|i: int| 0 <= i < out@.len() ==> (#[trigger] out@[i]).1@ == iv.subrange(i * CHUNK_SIZE, (i + 1) * CHUNK_SIZE),
    {
        let ghost k = iter.index();
        current.push(x);
        assert(current@ =~= iv.subrange(out@.len() * CHUNK_SIZE, k + 1));
        if current.len() == CHUNK_SIZE {
            let ghost before = out@;
            let chunk = current;
            current = Vec::new();
            let name = bank_name_of(prefix, out.len() + 1);
            out.push((name, chunk));
            proof {
                assert forall|i: int| 0 <= i < out@.len() implies (#[trigger] out@[i]).1@ == iv.subrange(i * CHUNK_SIZE, (i + 1) * CHUNK_SIZE) by {
                    if i < before.len() {
                        assert(out@[i] == before[i]);
                    }
                }
                assert(current@ =~= iv.subrange(out@.len() * CHUNK_SIZE, k + 1));
            }
        }
    }
    if current.len() > 0 {
        let ghost before = out@;
        let name = bank_name_of(prefix, out.len() + 1);
        out.push((name, current));
        proof {
            assert forall|i: int| 0 <= i < out@.len() implies (#[trigger] out@[i]).1@ == iv.subrange(
                i * CHUNK_SIZE,
                if (i + 1) * CHUNK_SIZE <= iv.len() {
                    (i + 1) * CHUNK_SIZE
                } else {
                    iv.len() as int
                },
            ) by {
                if i < before.len() {
                    assert(out@[i] == before[i]);
                    assert((i + 1) * CHUNK_SIZE <= before.len() * CHUNK_SIZE) by (nonlinear_arith)
                        requires i + 1 <= before.len();
                }
            }
        }
    } else {
        proof {
            assert forall|i: int| 0 <= i < out@.len() implies (#[trigger] out@[i]).1@ == iv.subrange(
                i * CHUNK_SIZE,
                if (i + 1) * CHUNK_SIZE <= iv.len() {
                    (i + 1) * CHUNK_SIZE
                } else {
                    iv.len() as int
                },
            ) by {
                assert((i + 1) * CHUNK_SIZE <= out@.len() * CHUNK_SIZE) by (nonlinear_arith)
                    requires i + 1 <= out@.len();
            }
        }
    }
    out
}

/// Why a glossary's definitions cannot all go into Yomitan banks.
#[derive(Debug, PartialEq, Eq, Structural)]
pub enum SplitError {
    /// An alt carries a term meta bank entry.
    MetaEntryInAlts,
    /// An alt carries a definition that is not a Yomitan one.
    UnexpectedRichAlt,
}

/// The error that an alt's definition raises, if any: a term bank entry or
/// none at all is fine.
pub open spec fn alt_error(a: AltEntry) -> Option<SplitError> {
    match a@.definition {
        Some(DefinitionView::Yomitan(YomitanDefinition::TermBankEntry(_))) => None,
        Some(DefinitionView::Yomitan(YomitanDefinition::TermMetaBankEntry(_))) => Some(SplitError::MetaEntryInAlts),
        Some(_) => Some(SplitError::UnexpectedRichAlt),
        None => None,
    }
}

/// Each alt paired with the headword of its entry.
pub open spec fn tagged(term: Seq<char>, alts: Seq<AltEntry>) -> Seq<(Seq<char>, AltEntry)> {
    alts.map_values(|a: AltEntry| (term, a))
}

/// The alts of all entries, in order, each with its entry's headword.
pub open spec fn flat_alts(entries: Seq<Entry>) -> Seq<(Seq<char>, AltEntry)>
    decreases entries.len(),
{
    if entries.len() == 0 {
        Seq::empty()
    } else {
        flat_alts(entries.drop_last()) + tagged(entries.last()@.term, entries.last().spec_alts())
    }
}

/// The error of the first alt that raises one.
pub open spec fn alts_error(s: Seq<(Seq<char>, AltEntry)>) -> Option<SplitError>
    decreases s.len(),
{
    if s.len() == 0 {
        None
    } else if alts_error(s.drop_last()) is Some {
        alts_error(s.drop_last())
    } else {
        alt_error(s.last().1)
    }
}

/// Whether `e` says that `alt` is an inflection of `term`, with no rules and
/// nothing else.
pub open spec fn is_raw_inflection(e: TermBankEntry, term: Seq<char>, alt: Seq<char>) -> bool {
    &&& e.term@ == alt
    &&& e.definitions@.len() == 1
    &&& (e.definitions@[0] matches DetailedDefinition::Inflection(t, rules) && t@ == term
        && rules@.len() == 0)
    &&& e.reading@.len() == 0
    &&& e.definition_tags@.len() == 0
    &&& e.rules@.len() == 0
    &&& e.frequency == 0
    &&& e.sequence == 0
    &&& e.term_tags@.len() == 0
}

/// Whether `e` is the term bank entry for alt `a` of headword `term`: the
/// entry the alt carries, or else an inflection of the headword.
pub open spec fn alt_bank_entry(term: Seq<char>, a: AltEntry, e: TermBankEntry) -> bool {
    match a.spec_definition() {
        Some(d) => *d == Definition::Yomitan(YomitanDefinition::TermBankEntry(e)),
        None => is_raw_inflection(e, term, a@.term),
    }
}

/// Whether `tbs` are the term bank entries of the tagged alts `s`, one each.
pub open spec fn alt_banks(s: Seq<(Seq<char>, AltEntry)>, tbs: Seq<TermBankEntry>) -> bool {
    &&& tbs.len() == s.len()
    &&& forall|i: int| 0 <= i < s.len() ==> alt_bank_entry(s[i].0, s[i].1, #[trigger] tbs[i])
}

/// Whether `forms` are the Yomitan forms of the entries' definitions.
pub open spec fn forms_of(entries: Seq<Entry>, forms: Seq<YomitanDefinition>) -> bool {
    &&& forms.len() == entries.len()
    &&& forall|i: int|
        0 <= i < entries.len() ==> yomitan_form(
            *entries[i].spec_definition(),
            entries[i]@.term,
            #[trigger] forms[i],
        )
}

/// The term bank entries among `forms`, in order.
pub open spec fn term_entries_of(forms: Seq<YomitanDefinition>) -> Seq<TermBankEntry>
    decreases forms.len(),
{
    if forms.len() == 0 {
        Seq::empty()
    } else {
        match forms.last() {
            YomitanDefinition::TermBankEntry(e) => term_entries_of(forms.drop_last()).push(e),
            YomitanDefinition::TermMetaBankEntry(_) => term_entries_of(forms.drop_last()),
        }
    }
}

/// The term meta bank entries among `forms`, in order.
pub open spec fn meta_entries_of(forms: Seq<YomitanDefinition>) -> Seq<TermMetaBankEntry>
    decreases forms.len(),
{
    if forms.len() == 0 {
        Seq::empty()
    } else {
        match forms.last() {
            YomitanDefinition::TermBankEntry(_) => meta_entries_of(forms.drop_last()),
            YomitanDefinition::TermMetaBankEntry(m) => meta_entries_of(forms.drop_last()).push(m),
        }
    }
}

proof fn lemma_flat_alts_add(a: Seq<Entry>, b: Seq<Entry>)
    ensures
        flat_alts(a + b) == flat_alts(a) + flat_alts(b),
    decreases b.len(),
{
    if b.len() == 0 {
        assert(a + b =~= a);
        assert(flat_alts(a) + flat_alts(b) =~= flat_alts(a));
    } else {
        lemma_flat_alts_add(a, b.drop_last());
        assert((a + b).drop_last() =~= a + b.drop_last());
        assert((a + b).last() == b.last());
        assert(flat_alts(a + b) =~= flat_alts(a) + flat_alts(b));
    }
}

proof fn lemma_alts_error_extends(a: Seq<(Seq<char>, AltEntry)>, b: Seq<(Seq<char>, AltEntry)>)
    requires
        alts_error(a) is Some,
    ensures
        alts_error(a + b) == alts_error(a),
    decreases b.len(),
{
    if b.len() == 0 {
        assert(a + b =~= a);
    } else {
        lemma_alts_error_extends(a, b.drop_last());
        assert((a + b).drop_last() =~= a + b.drop_last());
    }
}

/// The tagged alts of the entries split at `k`: those before, those of entry
/// `k`, those after.
proof fn lemma_flat_alts_at(entries: Seq<Entry>, k: int)
    requires
        0 <= k < entries.len(),
    ensures
        flat_alts(entries) == flat_alts(entries.take(k)) + tagged(entries[k]@.term, entries[k].spec_alts())
            + flat_alts(entries.skip(k + 1)),
{
    let one = seq![entries[k]];
    assert(entries =~= entries.take(k) + one + entries.skip(k + 1));
    lemma_flat_alts_add(entries.take(k) + one, entries.skip(k + 1));
    lemma_flat_alts_add(entries.take(k), one);
    assert(one.drop_last() =~= Seq::<Entry>::empty());
    assert(one.last() == entries[k]);
    assert(flat_alts(one.drop_last()) == Seq::<(Seq<char>, AltEntry)>::empty());
    assert(flat_alts(one) =~= tagged(entries[k]@.term, entries[k].spec_alts()));
}

/// The first alt that raises an error decides the error of all.
proof fn lemma_first_error(iv: Seq<Entry>, k: int, av: Seq<AltEntry>, j: int, t: Seq<char>)
    requires
        0 <= k < iv.len(),
        av == iv[k].spec_alts(),
        t == iv[k]@.term,
        0 <= j < av.len(),
        alts_error(flat_alts(iv.take(k)) + tagged(t, av.take(j))) is None,
        alt_error(av[j]) is Some,
    ensures
        alts_error(flat_alts(iv)) == alt_error(av[j]),
{
    let before = flat_alts(iv.take(k));
    let cur = before + tagged(t, av.take(j + 1));
    assert(tagged(t, av.take(j + 1)) =~= tagged(t, av.take(j)).push((t, av[j])));
    assert(cur.drop_last() =~= before + tagged(t, av.take(j)));
    assert(alts_error(cur) == alt_error(av[j]));
    lemma_flat_alts_at(iv, k);
    assert(tagged(t, av) =~= tagged(t, av.take(j + 1)) + tagged(t, av.skip(j + 1)));
    lemma_alts_error_extends(cur, tagged(t, av.skip(j + 1)) + flat_alts(iv.skip(k + 1)));
    assert(flat_alts(iv) =~= cur + (tagged(t, av.skip(j + 1)) + flat_alts(iv.skip(k + 1))));
}

/// One more alt whose entry is right keeps the alts' entries right.
proof fn lemma_alt_banks_push(
    done: Seq<(Seq<char>, AltEntry)>,
    tbs: Seq<TermBankEntry>,
    x: (Seq<char>, AltEntry),
    e: TermBankEntry,
)
    requires
        alt_banks(done, tbs),
        alt_bank_entry(x.0, x.1, e),
    ensures
        alt_banks(done.push(x), tbs.push(e)),
{
    assert forall|i: int| 0 <= i < done.len() + 1 implies alt_bank_entry(
        done.push(x)[i].0,
        done.push(x)[i].1,
        #[trigger] tbs.push(e)[i],
    ) by {
        if i < done.len() {
            assert(tbs.push(e)[i] == tbs[i]);
        }
    }
}

/// Splits the entries' definitions into term bank and term meta bank
/// entries, each definition in its Yomitan form; then adds a term bank entry
/// for every alt: the one it carries, or else an inflection of its headword.
/// Fails at the first alt that carries anything else.
pub fn split_definitions(entries: Vec<Entry>) -> (r: Result<
    (Vec<TermBankEntry>, Vec<TermMetaBankEntry>),
    SplitError,
>)
    ensures
        match r {
            Ok((tb, tm)) => {
                &&& alts_error(flat_alts(entries@)) is None
                &&& exists|forms: Seq<YomitanDefinition>|
                    #![trigger forms_of(entries@, forms)]
                    {
                        &&& forms_of(entries@, forms)
                        &&& tm@ == meta_entries_of(forms)
                        &&& tb@.len() == term_entries_of(forms).len() + flat_alts(entries@).len()
                        &&& tb@.take(term_entries_of(forms).len() as int) == term_entries_of(forms)
                        &&& alt_banks(flat_alts(entries@), tb@.skip(term_entries_of(forms).len() as int))
                    }
            },
            Err(e) => alts_error(flat_alts(entries@)) == Some(e),
        },
{
    let ghost iv = entries@;
    let mut tb: Vec<TermBankEntry> = Vec::new();
    let mut tm: Vec<TermMetaBankEntry> = Vec::new();
    let mut stash: Vec<(String, Vec<AltEntry>)> = Vec::new();
    let ghost mut forms: Seq<YomitanDefinition> = Seq::empty();
    for e in iter: entries
        invariant
            iter.seq() == iv,
            forms.len() == iter.index(),
            forms_of(iv.take(iter.index() as int), forms),
            tb@ == term_entries_of(forms),
            tm@ == meta_entries_of(forms),
            stash@.len() == iter.index(),
            forall|j: int|
                0 <= j < stash@.len() ==> (#[trigger] stash@[j]).0@ == iv[j]@.term && stash@[j].1@
                    == iv[j].spec_alts(),
    {
        let ghost k = iter.index() as int;
        let (t, d, alts) = e.into_parts();
        let y = d.to_yomitan(t.as_str());
        let ghost gy = y;
        match y {
            YomitanDefinition::TermBankEntry(x) => tb.push(x),
            YomitanDefinition::TermMetaBankEntry(x) => tm.push(x),
        }
        stash.push((t, alts));
        proof {
            let old_forms = forms;
            forms = forms.push(gy);
            assert(forms.drop_last() =~= old_forms);
            assert forall|i: int| 0 <= i < k + 1 implies yomitan_form(
                *iv.take(k + 1)[i].spec_definition(),
                iv.take(k + 1)[i]@.term,
                #[trigger] forms[i],
            ) by {
                if i < k {
                    assert(iv.take(k)[i] == iv.take(k + 1)[i]);
                }
            }
        }
    }
    proof {
        assert(iv.take(iv.len() as int) =~= iv);
    }
    let ghost base = tb@.len();
    let ghost stash_v = stash@;
    let ghost mut done: Seq<(Seq<char>, AltEntry)> = Seq::empty();
    let n = stash.len();
    for pair in it: stash
        invariant
            it.seq() == stash_v,
            iv == entries@,
            n == iv.len(),
            stash_v.len() == iv.len(),
            forall|j: int|
                0 <= j < stash_v.len() ==> (#[trigger] stash_v[j]).0@ == iv[j]@.term && stash_v[j].1@
                    == iv[j].spec_alts(),
            done == flat_alts(iv.take(it.index() as int)),
            alts_error(done) is None,
            tb@.len() == base + done.len(),
            tb@.take(base as int) == term_entries_of(forms),
            alt_banks(done, tb@.skip(base as int)),
            forms_of(iv, forms),
            tm@ == meta_entries_of(forms),
            base == term_entries_of(forms).len(),
    {
        let ghost k = it.index() as int;
        let (t, alts) = pair;
        let ghost av = alts@;
        let ghost before = done;
        for a in it2: alts
            invariant
                it2.seq() == av,
                iv == entries@,
                av == iv[k].spec_alts(),
                t@ == iv[k]@.term,
                done == before + tagged(t@, av.take(it2.index() as int)),
                alts_error(done) is None,
                tb@.len() == base + done.len(),
                tb@.take(base as int) == term_entries_of(forms),
                alt_banks(done, tb@.skip(base as int)),
                before == flat_alts(iv.take(k)),
                0 <= k < iv.len(),
                alts_error(before) is None,
        {
            let ghost j = it2.index() as int;
            let ghost ga = a;
            let ghost tb_before = tb@;
            proof {
                lemma_alt_definition_view(ga);
            }
            let (at, ad) = a.into_parts();
            match ad {
                Some(Definition::Yomitan(YomitanDefinition::TermBankEntry(x))) => {
                    tb.push(x);
                },
                Some(Definition::Yomitan(YomitanDefinition::TermMetaBankEntry(_))) => {
                    proof {
                        lemma_first_error(iv, k, av, j, t@);
                    }
                    return Err(SplitError::MetaEntryInAlts);
                },
                Some(_) => {
                    proof {
                        lemma_first_error(iv, k, av, j, t@);
                    }
                    return Err(SplitError::UnexpectedRichAlt);
                },
                None => {
                    tb.push(TermBankEntry::raw_inflection(t.clone(), at));
                },
            }
            proof {
                let old_done = done;
                done = before + tagged(t@, av.take(j + 1));
                assert(tagged(t@, av.take(j + 1)) =~= tagged(t@, av.take(j)).push((t@, ga)));
                assert(done =~= old_done.push((t@, ga)));
                assert(done.drop_last() =~= old_done);
                assert(tb@.take(base as int) =~= tb_before.take(base as int));
                assert(tb@.skip(base as int) =~= tb_before.skip(base as int).push(tb@.last()));
                lemma_alt_banks_push(old_done, tb_before.skip(base as int), (t@, ga), tb@.last());
            }
        }
        proof {
            assert(av.take(av.len() as int) =~= av);
            assert(iv.take(k + 1).drop_last() =~= iv.take(k));
            assert(iv.take(k + 1).last() == iv[k]);
            done = flat_alts(iv.take(k + 1));
        }
    }
    proof {
        assert(iv.take(iv.len() as int) =~= iv);
    }
    Ok((tb, tm))
}

/// The bytes of the stylesheets among `data`, one after the other.
pub open spec fn css_bytes_of(data: Seq<DataEntry>) -> Seq<u8>
    decreases data.len(),
{
    if data.len() == 0 {
        Seq::empty()
    } else if is_css_spec(data.last()) {
        css_bytes_of(data.drop_last()) + data.last().spec_bytes()
    } else {
        css_bytes_of(data.drop_last())
    }
}

/// Whether the classes of a stylesheet read with `rformat` must be rewritten
/// for Yomitan: unless it came from Yomitan, or from no known reader.
pub open spec fn rewrites_css(rformat: Option<ReaderFormat>) -> bool {
    match rformat {
        Some(ReaderFormat::Yomitan) | None => false,
        _ => true,
    }
}

/// The archive's single stylesheet, `styles.css`: the glossary's stylesheets
/// one after the other, their classes rewritten unless they came from
/// Yomitan (or from no known reader). `None` when there is nothing.
pub fn styles_css(data_entries: &[DataEntry], rformat: Option<ReaderFormat>) -> (r: Option<Vec<u8>>)
    ensures
        r is None <==> css_bytes_of(data_entries@).len() == 0,
        r matches Some(b) ==> b@ == if rewrites_css(rformat) {
            utf8_of(rewrite_spec(lossy_utf8(css_bytes_of(data_entries@)), 0))
        } else {
            css_bytes_of(data_entries@)
        },
{
    let mut css: Vec<u8> = Vec::new();
    let n = data_entries.len();
    for i in 0..n
        invariant
            n == data_entries@.len(),
            css@ == css_bytes_of(data_entries@.take(i as int)),
    {
        proof {
            assert(data_entries@.take(i + 1).drop_last() =~= data_entries@.take(i as int));
            assert(data_entries@.take(i + 1).last() == data_entries@[i as int]);
        }
        if data_entries[i].is_css() {
            let b = data_entries[i].bytes();
            let m = b.len();
            let ghost start = css@;
            for j in 0..m
                invariant
                    m == b@.len(),
                    css@ == start + b@.take(j as int),
            {
                css.push(b[j]);
                proof {
                    assert(b@.take(j + 1) =~= b@.take(j as int).push(b@[j as int]));
                }
            }
            proof {
                assert(b@.take(m as int) =~= b@);
            }
        }
    }
    proof {
        assert(data_entries@.take(n as int) =~= data_entries@);
    }
    if css.len() == 0 {
        return None;
    }
    let rewrite = match rformat {
        Some(ReaderFormat::Yomitan) | None => false,
        _ => true,
    };
    if rewrite {
        let text = utf8_lossy(css.as_slice());
        let rewritten = rewrite_css_classes(text.as_str());
        Some(bytes_of(rewritten.as_str()))
    } else {
        Some(css)
    }
}

/// The data entries that go into the archive as they are: all but the
/// stylesheets.
pub fn other_files(data_entries: &[DataEntry]) -> (r: Vec<&DataEntry>)
    ensures
        r@ == data_entries@.filter(|d: DataEntry| !is_css_spec(d)).map_values(|d: DataEntry| &d),
{
    let mut out: Vec<&DataEntry> = Vec::new();
    let n = data_entries.len();
    for i in 0..n
        invariant
            n == data_entries@.len(),
            out@ == data_entries@.subrange(0, i as int).filter(|d: DataEntry| !is_css_spec(d)).map_values(
                |d: DataEntry| &d,
            ),
    {
        let d = &data_entries[i];
        proof {
            reveal_with_fuel(Seq::filter, 1);
            assert(data_entries@.subrange(0, i + 1).drop_last() =~= data_entries@.subrange(0, i as int));
        }
        if !d.is_css() {
            out.push(d);
        }
        assert(out@ =~= data_entries@.subrange(0, i + 1).filter(|d: DataEntry| !is_css_spec(d)).map_values(
            |d: DataEntry| &d,
        ));
    }
    assert(data_entries@.subrange(0, n as int) =~= data_entries@);
    out
}

/// Whether an alt is one that splitting takes: it carries a term bank entry,
/// or nothing.
pub open spec fn splittable_alt(a: AltView) -> bool {
    a.definition is None || a.definition matches Some(
        DefinitionView::Yomitan(YomitanDefinition::TermBankEntry(_)),
    )
}

/// Whether every alt of every entry is one that splitting takes.
pub open spec fn all_splittable(ev: Seq<EntryView>) -> bool {
    forall|i: int, j: int| 0 <= i < ev.len() && 0 <= j < ev[i].alts.len() ==> splittable_alt(#[trigger] ev[i].alts[j])
}

proof fn lemma_alts_error_none(a: Seq<(Seq<char>, AltEntry)>, b: Seq<(Seq<char>, AltEntry)>)
    requires
        alts_error(a) is None,
        forall|i: int| 0 <= i < b.len() ==> alt_error(#[trigger] b[i].1) is None,
    ensures
        alts_error(a + b) is None,
    decreases b.len(),
{
    if b.len() == 0 {
        assert(a + b =~= a);
    } else {
        lemma_alts_error_none(a, b.drop_last());
        assert((a + b).drop_last() =~= a + b.drop_last());
        assert((a + b).last() == b.last());
        assert(alt_error(b[b.len() - 1].1) is None);
    }
}

/// A glossary whose alts carry a term bank entry or nothing splits into
/// Yomitan banks: [`split_definitions`] does not fail on it.
pub proof fn lemma_splits(es: Seq<Entry>)
    requires
        all_splittable(entries_view(es)),
    ensures
        alts_error(flat_alts(es)) is None,
    decreases es.len(),
{
    if es.len() > 0 {
        let rest = es.drop_last();
        assert(all_splittable(entries_view(rest))) by {
            assert forall|i: int, j: int|
                0 <= i < entries_view(rest).len() && 0 <= j < entries_view(rest)[i].alts.len() implies splittable_alt(
                #[trigger] entries_view(rest)[i].alts[j],
            ) by {
                assert(entries_view(rest)[i] == entries_view(es)[i]);
            }
        }
        lemma_splits(rest);
        let e = es.last();
        lemma_alts_view(e);
        let t = tagged(e@.term, e.spec_alts());
        assert forall|k: int| 0 <= k < t.len() implies alt_error(#[trigger] t[k].1) is None by {
            assert(t[k].1 == e.spec_alts()[k]);
            assert(entries_view(es)[es.len() - 1] == e@);
            assert(e@.alts[k] == e.spec_alts()[k]@);
            assert(splittable_alt(entries_view(es)[es.len() - 1].alts[k]));
        }
        lemma_alts_error_none(flat_alts(rest), t);
    }
}

proof fn lemma_lemma_alts_splittable(infls: Seq<TermBankEntry>, lemmas: Seq<TermBankEntry>, j: int)
    ensures
        forall|k: int| 0 <= k < lemma_alts(infls, lemmas, j).len() ==> splittable_alt(
            #[trigger] lemma_alts(infls, lemmas, j)[k],
        ),
    decreases infls.len(),
{
    if infls.len() > 0 {
        lemma_lemma_alts_splittable(infls.drop_last(), lemmas, j);
        let rest = lemma_alts(infls.drop_last(), lemmas, j);
        if lemma_of(lemmas, infls.last()) == Some(j) {
            assert forall|k: int| 0 <= k < rest.len() + 1 implies splittable_alt(
                #[trigger] rest.push(inflection_alt(infls.last()))[k],
            ) by {
                if k < rest.len() {
                    assert(rest.push(inflection_alt(infls.last()))[k] == rest[k]);
                }
            }
        }
    }
}

/// A glossary as the Yomitan reader gives it splits back into banks: its
/// alts are the inflections it read, term bank entries each.
pub proof fn lemma_yomitan_glossary_splits(es: Seq<Entry>, flat: Seq<TermBankEntry>, metas: Seq<TermMetaBankEntry>)
    requires
        entries_view(es) == yomitan_entries(flat, metas),
    ensures
        alts_error(flat_alts(es)) is None,
{
    let lemmas = lemmas_of(flat);
    let infls = inflections_of(flat);
    let ev = yomitan_entries(flat, metas);
    assert forall|i: int, j: int| 0 <= i < ev.len() && 0 <= j < ev[i].alts.len() implies splittable_alt(
        #[trigger] ev[i].alts[j],
    ) by {
        if i < lemmas.len() {
            lemma_lemma_alts_splittable(infls, lemmas, i);
            assert(ev[i].alts == lemma_alts(infls, lemmas, i));
        }
    }
    lemma_splits(es);
}

/// A glossary as the text reader gives it splits into Yomitan banks: its
/// alts are headwords alone.
pub proof fn lemma_text_glossary_splits(es: Seq<Entry>, lines: Seq<Seq<char>>)
    requires
        entries_view(es) == text_entries(lines),
    ensures
        alts_error(flat_alts(es)) is None,
{
    lemma_text_alts_plain(lines);
    lemma_splits(es);
}

proof fn lemma_text_alts_plain(lines: Seq<Seq<char>>)
    ensures
        all_splittable(text_entries(lines)),
    decreases lines.len(),
{
    if lines.len() > 0 {
        lemma_text_alts_plain(lines.drop_last());
        let ev = text_entries(lines);
        let before = text_entries(lines.drop_last());
        assert forall|i: int, j: int| 0 <= i < ev.len() && 0 <= j < ev[i].alts.len() implies splittable_alt(
            #[trigger] ev[i].alts[j],
        ) by {
            if i < before.len() {
                assert(ev[i] == before[i]);
            }
        }
    }
}

/// A glossary as the json reader gives it splits into Yomitan banks.
pub proof fn lemma_json_glossary_splits(es: Seq<Entry>, members: Seq<(Seq<char>, Seq<char>)>)
    requires
        entries_view(es) == json_entries(members),
    ensures
        alts_error(flat_alts(es)) is None,
{
    lemma_json_alts_plain(members);
    lemma_splits(es);
}

proof fn lemma_json_alts_plain(m: Seq<(Seq<char>, Seq<char>)>)
    ensures
        all_splittable(json_entries(m)),
    decreases m.len(),
{
    if m.len() > 0 {
        lemma_json_alts_plain(m.drop_last());
        let ev = json_entries(m);
        let before = json_entries(m.drop_last());
        assert forall|i: int, j: int| 0 <= i < ev.len() && 0 <= j < ev[i].alts.len() implies splittable_alt(
            #[trigger] ev[i].alts[j],
        ) by {
            if i < before.len() {
                assert(ev[i] == before[i]);
            }
        }
    }
}

/// A glossary as the Stardict reader gives it splits into Yomitan banks.
pub proof fn lemma_stardict_glossary_splits(
    es: Seq<Entry>,
    sts: SameTypeSequence,
    items: Seq<(Seq<u8>, u64, u32)>,
    alts: Seq<Seq<Seq<char>>>,
    dict: Seq<u8>,
)
    requires
        entries_view(es) == stardict_entries(sts, items, alts, dict),
    ensures
        alts_error(flat_alts(es)) is None,
{
    lemma_stardict_alts_plain(sts, items, alts, dict);
    lemma_splits(es);
}

proof fn lemma_stardict_alts_plain(
    sts: SameTypeSequence,
    items: Seq<(Seq<u8>, u64, u32)>,
    alts: Seq<Seq<Seq<char>>>,
    dict: Seq<u8>,
)
    ensures
        all_splittable(stardict_entries(sts, items, alts, dict)),
    decreases items.len(),
{
    if items.len() > 0 {
        lemma_stardict_alts_plain(sts, items.drop_last(), alts, dict);
        let ev = stardict_entries(sts, items, alts, dict);
        let before = stardict_entries(sts, items.drop_last(), alts, dict);
        assert forall|i: int, j: int| 0 <= i < ev.len() && 0 <= j < ev[i].alts.len() implies splittable_alt(
            #[trigger] ev[i].alts[j],
        ) by {
            if i < before.len() {
                assert(ev[i] == before[i]);
            }
        }
    }
}

/// A glossary as the Mdict reader gives it splits into Yomitan banks.
pub proof fn lemma_mdict_glossary_splits(es: Seq<Entry>, keys: Seq<Seq<char>>, values: Seq<Seq<char>>)
    requires
        entries_view(es) == mdx_entries_spec(keys, values, keys.len() as int),
    ensures
        alts_error(flat_alts(es)) is None,
{
    lemma_mdict_alts_plain(keys, values, keys.len() as int);
    lemma_splits(es);
}

proof fn lemma_mdict_alts_plain(keys: Seq<Seq<char>>, values: Seq<Seq<char>>, n: int)
    ensures
        all_splittable(mdx_entries_spec(keys, values, n)),
    decreases n,
{
    if n > 0 {
        lemma_mdict_alts_plain(keys, values, n - 1);
        let ev = mdx_entries_spec(keys, values, n);
        let before = mdx_entries_spec(keys, values, n - 1);
        assert forall|i: int, j: int| 0 <= i < ev.len() && 0 <= j < ev[i].alts.len() implies splittable_alt(
            #[trigger] ev[i].alts[j],
        ) by {
            if i < before.len() {
                assert(ev[i] == before[i]);
            }
        }
    }
}

proof fn lemma_chunks_prefix<T>(chunks: Seq<(String, Vec<T>)>, items: Seq<T>, prefix: Seq<char>, k: int)
    requires
        chunked(chunks, items, prefix),
        0 <= k <= chunks.len(),
    ensures
        flatten(chunks.map_values(|c: (String, Vec<T>)| c.1@).take(k)) == items.take(
            if k * 1000 <= items.len() {
                k * 1000
            } else {
                items.len() as int
            },
        ),
    decreases k,
{
    let banks = chunks.map_values(|c: (String, Vec<T>)| c.1@);
    if k == 0 {
        assert(banks.take(0) =~= Seq::<Seq<T>>::empty());
        assert(items.take(0) =~= Seq::<T>::empty());
    } else {
        lemma_chunks_prefix(chunks, items, prefix, k - 1);
        assert(banks.take(k).drop_last() =~= banks.take(k - 1));
        assert(banks.take(k).last() == chunks[k - 1].1@);
        let len = items.len() as int;
        assert((k - 1) * 1000 < len) by (nonlinear_arith)
            requires
                1 <= k <= (len + 1000 - 1) / 1000,
                0 <= len,
        ;
        assert(k * 1000 == (k - 1) * 1000 + 1000) by (nonlinear_arith);
        let lo = (k - 1) * 1000;
        let hi = if k * 1000 <= len { k * 1000 } else { len };
        assert(items.take(lo) + items.subrange(lo, hi) =~= items.take(hi));
    }
}

/// The banks [`chunk_banks`] cuts, one after another, are the items again:
/// reading them back in order gives what was written.
pub proof fn lemma_banks_flatten<T>(chunks: Seq<(String, Vec<T>)>, items: Seq<T>, prefix: Seq<char>)
    requires
        chunked(chunks, items, prefix),
    ensures
        flatten(chunks.map_values(|c: (String, Vec<T>)| c.1@)) == items,
{
    let banks = chunks.map_values(|c: (String, Vec<T>)| c.1@);
    let k = chunks.len() as int;
    lemma_chunks_prefix(chunks, items, prefix, k);
    assert(banks.take(k) =~= banks);
    let len = items.len() as int;
    assert(len <= k * 1000) by (nonlinear_arith)
        requires
            k == (len + 1000 - 1) / 1000,
            0 <= len,
    ;
    assert(items.take(len) =~= items);
}

proof fn lemma_filter_all<A>(s: Seq<A>, p: spec_fn(A) -> bool)
    requires
        forall|i: int| 0 <= i < s.len() ==> p(#[trigger] s[i]),
    ensures
        s.filter(p) == s,
    decreases s.len(),
{
    reveal_with_fuel(Seq::filter, 1);
    if s.len() > 0 {
        lemma_filter_all(s.drop_last(), p);
        assert(p(s[s.len() - 1]));
        assert(s.drop_last().push(s.last()) =~= s);
    } else {
        assert(s.filter(p) =~= s);
    }
}

proof fn lemma_filter_none<A>(s: Seq<A>, p: spec_fn(A) -> bool)
    requires
        forall|i: int| 0 <= i < s.len() ==> !p(#[trigger] s[i]),
    ensures
        s.filter(p) == Seq::<A>::empty(),
    decreases s.len(),
{
    reveal_with_fuel(Seq::filter, 1);
    if s.len() > 0 {
        lemma_filter_none(s.drop_last(), p);
        assert(!p(s[s.len() - 1]));
    } else {
        assert(s.filter(p) =~= Seq::<A>::empty());
    }
}

proof fn lemma_all_term_forms(forms: Seq<YomitanDefinition>)
    requires
        forall|i: int| 0 <= i < forms.len() ==> (#[trigger] forms[i]) is TermBankEntry,
    ensures
        term_entries_of(forms).len() == forms.len(),
        forall|i: int| 0 <= i < forms.len() ==> term_entries_of(forms)[i] == forms[i]->TermBankEntry_0,
        meta_entries_of(forms) == Seq::<TermMetaBankEntry>::empty(),
    decreases forms.len(),
{
    if forms.len() > 0 {
        lemma_all_term_forms(forms.drop_last());
        assert(forms[forms.len() - 1] is TermBankEntry);
        assert forall|i: int| 0 <= i < forms.len() implies term_entries_of(forms)[i] == forms[i]->TermBankEntry_0 by {
            if i < forms.len() - 1 {
                assert(forms.drop_last()[i] == forms[i]);
            }
        }
    }
}

proof fn lemma_first_lemma_none(lemmas: Seq<TermBankEntry>, t: Seq<char>)
    requires
        forall|i: int| 0 <= i < lemmas.len() ==> (#[trigger] lemmas[i]).term@ != t,
    ensures
        first_lemma(lemmas, t) is None,
    decreases lemmas.len(),
{
    if lemmas.len() > 0 {
        lemma_first_lemma_none(lemmas.drop_last(), t);
        assert(lemmas[lemmas.len() - 1].term@ != t);
    }
}

proof fn lemma_first_lemma_at(lemmas: Seq<TermBankEntry>, t: Seq<char>, k: int)
    requires
        0 <= k < lemmas.len(),
        lemmas[k].term@ == t,
        forall|i: int| 0 <= i < k ==> (#[trigger] lemmas[i]).term@ != t,
    ensures
        first_lemma(lemmas, t) == Some(k),
    decreases lemmas.len(),
{
    if k == lemmas.len() - 1 {
        lemma_first_lemma_none(lemmas.drop_last(), t);
    } else {
        lemma_first_lemma_at(lemmas.drop_last(), t, k);
    }
}

proof fn lemma_alts_split_add(a: Seq<TermBankEntry>, b: Seq<TermBankEntry>, lemmas: Seq<TermBankEntry>, j: int)
    ensures
        lemma_alts(a + b, lemmas, j) == lemma_alts(a, lemmas, j) + lemma_alts(b, lemmas, j),
        orphans_of(a + b, lemmas) == orphans_of(a, lemmas) + orphans_of(b, lemmas),
    decreases b.len(),
{
    if b.len() == 0 {
        assert(a + b =~= a);
        assert(lemma_alts(a, lemmas, j) + lemma_alts(b, lemmas, j) =~= lemma_alts(a, lemmas, j));
        assert(orphans_of(a, lemmas) + orphans_of(b, lemmas) =~= orphans_of(a, lemmas));
    } else {
        lemma_alts_split_add(a, b.drop_last(), lemmas, j);
        assert((a + b).drop_last() =~= a + b.drop_last());
        assert((a + b).last() == b.last());
        assert(lemma_alts(a + b, lemmas, j) =~= lemma_alts(a, lemmas, j) + lemma_alts(b, lemmas, j));
        assert(orphans_of(a + b, lemmas) =~= orphans_of(a, lemmas) + orphans_of(b, lemmas));
    }
}

proof fn lemma_block_alts(b: Seq<TermBankEntry>, lemmas: Seq<TermBankEntry>, k: int, j: int)
    requires
        forall|q: int| 0 <= q < b.len() ==> lemma_of(lemmas, #[trigger] b[q]) == Some(k),
    ensures
        lemma_alts(b, lemmas, j) == if j == k {
            b.map_values(|x: TermBankEntry| inflection_alt(x))
        } else {
            Seq::<AltView>::empty()
        },
        orphans_of(b, lemmas) == Seq::<TermBankEntry>::empty(),
    decreases b.len(),
{
    if b.len() > 0 {
        lemma_block_alts(b.drop_last(), lemmas, k, j);
        assert(lemma_of(lemmas, b[b.len() - 1]) == Some(k));
        if j == k {
            assert(lemma_alts(b, lemmas, j) =~= b.map_values(|x: TermBankEntry| inflection_alt(x)));
        }
    } else {
        assert(b.map_values(|x: TermBankEntry| inflection_alt(x)) =~= Seq::<AltView>::empty());
    }
}

/// Whether `v` are the alts that reading back gives entry `e`: its alts'
/// headwords, each as an inflection of the entry's headword.
pub open spec fn alts_read_back(v: Seq<AltView>, e: EntryView) -> bool {
    &&& v.len() == e.alts.len()
    &&& forall|q: int|
        0 <= q < v.len() ==> (#[trigger] v[q]).term == e.alts[q].term && (v[q].definition matches Some(
            DefinitionView::Yomitan(YomitanDefinition::TermBankEntry(x)),
        ) && is_raw_inflection(x, e.term, e.alts[q].term))
}

proof fn lemma_read_back_prefix(es: Seq<Entry>, lemmas: Seq<TermBankEntry>, infls: Seq<TermBankEntry>, k: int)
    requires
        lemmas.len() == es.len(),
        forall|i: int| 0 <= i < es.len() ==> (#[trigger] lemmas[i]).term@ == es[i]@.term,
        forall|i: int, j: int| 0 <= i < j < es.len() ==> (#[trigger] es[i])@.term != (#[trigger] es[j])@.term,
        infls.len() == flat_alts(es).len(),
        forall|m: int|
            0 <= m < infls.len() ==> is_raw_inflection(
                #[trigger] infls[m],
                flat_alts(es)[m].0,
                flat_alts(es)[m].1@.term,
            ),
        0 <= k <= es.len(),
    ensures
        ({
            let part = infls.take(flat_alts(es.take(k)).len() as int);
            &&& orphans_of(part, lemmas) == Seq::<TermBankEntry>::empty()
            &&& forall|j: int|
                0 <= j < es.len() ==> if j < k {
                    alts_read_back(#[trigger] lemma_alts(part, lemmas, j), es[j]@)
                } else {
                    lemma_alts(part, lemmas, j).len() == 0
                }
        }),
    decreases k,
{
    let fa = flat_alts(es);
    if k == 0 {
        assert(es.take(0) =~= Seq::<Entry>::empty());
        let part = infls.take(0);
        assert(part =~= Seq::<TermBankEntry>::empty());
    } else {
        lemma_read_back_prefix(es, lemmas, infls, k - 1);
        let e = es[k - 1];
        let fk = flat_alts(es.take(k - 1));
        let fk1 = flat_alts(es.take(k));
        assert(es.take(k).drop_last() =~= es.take(k - 1));
        assert(es.take(k).last() == e);
        let blk = tagged(e@.term, e.spec_alts());
        assert(fk1 == fk + blk);
        lemma_flat_alts_add(es.take(k), es.skip(k));
        assert(es.take(k) + es.skip(k) =~= es);
        assert(fa == fk1 + flat_alts(es.skip(k)));
        let lo = fk.len() as int;
        let hi = fk1.len() as int;
        let part0 = infls.take(lo);
        let b = infls.subrange(lo, hi);
        assert(infls.take(hi) =~= part0 + b);
        lemma_alts_view(e);
        assert forall|q: int| 0 <= q < b.len() implies lemma_of(lemmas, #[trigger] b[q]) == Some(k - 1) && is_raw_inflection(
            b[q],
            e@.term,
            e@.alts[q].term,
        ) by {
            assert(b[q] == infls[lo + q]);
            assert(fa[lo + q] == fk1[lo + q]);
            assert(fk1[lo + q] == blk[q]);
            assert(blk[q] == (e@.term, e.spec_alts()[q]));
            assert(e@.alts[q] == e.spec_alts()[q]@);
            assert(is_raw_inflection(b[q], e@.term, e@.alts[q].term));
            assert(inflection_source_spec(b[q].definitions@) == Some(e@.term)) by {
                assert(b[q].definitions@[0] is Inflection);
            }
            assert forall|i: int| 0 <= i < k - 1 implies (#[trigger] lemmas[i]).term@ != e@.term by {
                assert(es[i]@.term != es[k - 1]@.term);
            }
            lemma_first_lemma_at(lemmas, e@.term, k - 1);
        }
        assert forall|j: int|
            0 <= j < es.len() implies if j < k {
            alts_read_back(#[trigger] lemma_alts(infls.take(hi), lemmas, j), es[j]@)
        } else {
            lemma_alts(infls.take(hi), lemmas, j).len() == 0
        } by {
            lemma_alts_split_add(part0, b, lemmas, j);
            lemma_block_alts(b, lemmas, k - 1, j);
            if j == k - 1 {
                let v = lemma_alts(infls.take(hi), lemmas, j);
                assert(lemma_alts(part0, lemmas, j).len() == 0);
                assert(v =~= b.map_values(|x: TermBankEntry| inflection_alt(x)));
                assert(b.len() == e@.alts.len());
                assert forall|q: int| 0 <= q < v.len() implies (#[trigger] v[q]).term == e@.alts[q].term && (
                v[q].definition matches Some(DefinitionView::Yomitan(YomitanDefinition::TermBankEntry(x)))
                    && is_raw_inflection(x, e@.term, e@.alts[q].term)) by {
                    assert(v[q] == inflection_alt(b[q]));
                }
            } else if j < k - 1 {
                assert(lemma_alts(infls.take(hi), lemmas, j) =~= lemma_alts(part0, lemmas, j));
            }
        }
        lemma_alts_split_add(part0, b, lemmas, 0);
        lemma_block_alts(b, lemmas, k - 1, 0);
        assert(orphans_of(infls.take(hi), lemmas) =~= Seq::<TermBankEntry>::empty());
    }
}

proof fn lemma_flat_alts_member(es: Seq<Entry>, m: int)
    requires
        0 <= m < flat_alts(es).len(),
    ensures
        exists|k: int, q: int|
            0 <= k < es.len() && 0 <= q < es[k].spec_alts().len() && flat_alts(es)[m] == (
                es[k]@.term,
                es[k].spec_alts()[q],
            ),
    decreases es.len(),
{
    let rest = flat_alts(es.drop_last());
    let e = es.last();
    let t = tagged(e@.term, e.spec_alts());
    if m < rest.len() {
        lemma_flat_alts_member(es.drop_last(), m);
        let (k, q) = choose|k: int, q: int|
            0 <= k < es.drop_last().len() && 0 <= q < es.drop_last()[k].spec_alts().len() && rest[m] == (
                es.drop_last()[k]@.term,
                es.drop_last()[k].spec_alts()[q],
            );
        assert(es.drop_last()[k] == es[k]);
        assert(flat_alts(es)[m] == rest[m]);
    } else {
        let q = m - rest.len();
        assert(flat_alts(es)[m] == t[q]);
        assert(es[es.len() - 1] == e);
    }
}

/// Reading back the banks that splitting writes gives the entries again:
/// the same headwords in the same order, each definition in its Yomitan
/// form, each alt's headword as an inflection of the entry's headword. This
/// holds for entries of text or html definitions with distinct headwords
/// whose alts carry no definition.
pub proof fn lemma_yomitan_roundtrip(
    es: Seq<Entry>,
    forms: Seq<YomitanDefinition>,
    tb: Seq<TermBankEntry>,
    tm: Seq<TermMetaBankEntry>,
)
    requires
        forms_of(es, forms),
        tm == meta_entries_of(forms),
        tb.len() == term_entries_of(forms).len() + flat_alts(es).len(),
        tb.take(term_entries_of(forms).len() as int) == term_entries_of(forms),
        alt_banks(flat_alts(es), tb.skip(term_entries_of(forms).len() as int)),
        forall|i: int|
            0 <= i < es.len() ==> ((#[trigger] es[i]).spec_definition() is Text || es[i].spec_definition() is Html),
        forall|i: int, q: int| 0 <= i < es.len() && 0 <= q < es[i]@.alts.len() ==> (#[trigger] es[i]@.alts[q]).definition is None,
        forall|i: int, j: int| 0 <= i < j < es.len() ==> (#[trigger] es[i])@.term != (#[trigger] es[j])@.term,
    ensures
        ({
            let ev = yomitan_entries(tb, tm);
            &&& ev.len() == es.len()
            &&& forall|j: int|
                0 <= j < es.len() ==> {
                    &&& (#[trigger] ev[j]).term == es[j]@.term
                    &&& ev[j].definition matches DefinitionView::Yomitan(YomitanDefinition::TermBankEntry(x))
                        && yomitan_form(*es[j].spec_definition(), es[j]@.term, YomitanDefinition::TermBankEntry(x))
                    &&& alts_read_back(ev[j].alts, es[j]@)
                }
        }),
{
    let n = es.len() as int;
    assert forall|i: int| 0 <= i < forms.len() implies (#[trigger] forms[i]) is TermBankEntry by {
        assert(yomitan_form(*es[i].spec_definition(), es[i]@.term, forms[i]));
    }
    lemma_all_term_forms(forms);
    let lemmas = term_entries_of(forms);
    let fa = flat_alts(es);
    let infls = tb.skip(n);
    assert(tb =~= lemmas + infls);
    assert forall|i: int| 0 <= i < n implies (#[trigger] lemmas[i]).term@ == es[i]@.term && !is_inflection(lemmas[i]) by {
        assert(yomitan_form(*es[i].spec_definition(), es[i]@.term, forms[i]));
        assert(lemmas[i] == forms[i]->TermBankEntry_0);
        assert(lemmas[i].definitions@.len() == 1);
        assert(!(lemmas[i].definitions@[0] is Inflection));
    }
    assert forall|m: int| 0 <= m < infls.len() implies is_raw_inflection(#[trigger] infls[m], fa[m].0, fa[m].1@.term)
        && is_inflection(infls[m]) by {
        assert(alt_bank_entry(fa[m].0, fa[m].1, infls[m]));
        lemma_alt_definition_view(fa[m].1);
        assert(fa[m].1@.definition is None) by {
            lemma_flat_alts_member(es, m);
            let (k, q) = choose|k: int, q: int|
                0 <= k < es.len() && 0 <= q < es[k].spec_alts().len() && flat_alts(es)[m] == (
                    es[k]@.term,
                    es[k].spec_alts()[q],
                );
            lemma_alts_view(es[k]);
            assert(es[k]@.alts[q] == es[k].spec_alts()[q]@);
        }
        assert(infls[m].definitions@[0] is Inflection);
    }
    let not_infl = |e: TermBankEntry| !is_inflection(e);
    let infl = |e: TermBankEntry| is_inflection(e);
    Seq::filter_distributes_over_add(lemmas, infls, not_infl);
    Seq::filter_distributes_over_add(lemmas, infls, infl);
    lemma_filter_all(lemmas, not_infl);
    lemma_filter_none(infls, not_infl);
    lemma_filter_none(lemmas, infl);
    lemma_filter_all(infls, infl);
    assert(lemmas_of(tb) =~= lemmas);
    assert(inflections_of(tb) =~= infls);
    lemma_read_back_prefix(es, lemmas, infls, n);
    assert(es.take(n) =~= es);
    assert(infls.take(fa.len() as int) =~= infls);
}

} // verus!
