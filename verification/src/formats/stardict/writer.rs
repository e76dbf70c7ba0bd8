//! Writing a Stardict dictionary: the bytes of its `.ifo`, `.idx`, `.dict`
//! and `.syn`.

use vstd::prelude::*;
use vstd::string::StringExecFns;

use crate::bytes::{be32_bytes, lemma_be32_roundtrip, push_bytes, push_u32_be};
use crate::formats::mdict::reader::{nul_from};
use crate::formats::stardict::reader::{idx_items_from, slice_to_bytes, stardict_entries, term_alts};
use crate::glossary::definition::DefinitionView;
use crate::glossary::entry::EntryView;
use crate::strs::lossy_utf8;
use crate::formats::stardict::sts::{sts_from_info, sts_letter, SameTypeSequence};
use crate::formats::stardict::StardictError;
use crate::glossary::conversion::{all_renderable, glossary_bank, glossary_links, lemma_links_of_names, links_html, HtmlConverter};
use crate::glossary::data_entry::{extension_of, path_extension};
use crate::glossary::definition::{bank_or_empty, definition_to_html, renderable};
use crate::glossary::entry::{bytes_of, utf8_of, Entry};
use crate::glossary::glossary_info::{info_get};
use crate::glossary::Glossary;
use crate::strs::{chars_of, is_unicode_lowercase_of, to_lowercase};
use crate::sorting::{identity, in_range, key_views, sorted_by, sorted_order};
use crate::strs::{decimal_spec, push_decimal, replace_all, replace_spec, str_eq};

verus! {

/// The bytes an index item takes: the headword, a NUL, the offset and the
/// size (big-endian u32 each).
pub open spec fn idx_item_bytes(item: (Seq<u8>, u64, u32)) -> Seq<u8> {
    item.0 + seq![0u8] + be32_bytes(item.1 as int) + be32_bytes(item.2 as int)
}

/// The bytes of an `.idx` holding `items`.
pub open spec fn idx_bytes(items: Seq<(Seq<u8>, u64, u32)>) -> Seq<u8>
    decreases items.len(),
{
    if items.len() == 0 {
        Seq::empty()
    } else {
        idx_item_bytes(items[0]) + idx_bytes(items.skip(1))
    }
}

/// The `.dict` block of an entry: the utf-8 of its html.
pub open spec fn dict_block(g: Glossary, e: Entry) -> Seq<u8> {
    utf8_of(glossary_links(g) + definition_to_html(*e.spec_definition(), glossary_bank(g)))
}

/// The lowercase headwords, by which the entries are written.
pub open spec fn lower_keys(g: Glossary) -> Seq<Seq<char>> {
    g.entries@.map_values(|e: Entry| is_unicode_lowercase_of(e@.term))
}

/// Whether `ord` is the order in which the entries are written: all of them,
/// stably sorted by lowercase headword.
pub open spec fn write_order(g: Glossary, ord: Seq<usize>) -> bool {
    &&& ord.to_multiset() == identity(g.entries@.len()).to_multiset()
    &&& ord.len() == g.entries@.len()
    &&& in_range(lower_keys(g), ord)
    &&& sorted_by(lower_keys(g), ord)
}

/// The `.dict` of the first `k` entries in the order `ord`.
pub open spec fn dict_bytes(g: Glossary, ord: Seq<usize>, k: int) -> Seq<u8>
    decreases k,
{
    if k <= 0 {
        Seq::empty()
    } else {
        dict_bytes(g, ord, k - 1) + dict_block(g, g.entries@[ord[k - 1] as int])
    }
}

/// The index items of the first `k` entries in the order `ord`: each
/// headword with where its block starts in the `.dict`, and its size.
pub open spec fn writer_items(g: Glossary, ord: Seq<usize>, k: int) -> Seq<(Seq<u8>, u64, u32)>
    decreases k,
{
    if k <= 0 {
        Seq::empty()
    } else {
        writer_items(g, ord, k - 1).push(
            (
                utf8_of(g.entries@[ord[k - 1] as int]@.term),
                dict_bytes(g, ord, k - 1).len() as u64,
                dict_block(g, g.entries@[ord[k - 1] as int]).len() as u32,
            ),
        )
    }
}

/// `idx_bytes` of a longer list is that of the shorter one and the item.
pub proof fn lemma_idx_bytes_push(items: Seq<(Seq<u8>, u64, u32)>, x: (Seq<u8>, u64, u32))
    ensures
        idx_bytes(items.push(x)) == idx_bytes(items) + idx_item_bytes(x),
    decreases items.len(),
{
    if items.len() == 0 {
        assert(items.push(x).skip(1) =~= Seq::<(Seq<u8>, u64, u32)>::empty());
        assert(idx_bytes(items.push(x).skip(1)) =~= Seq::<u8>::empty());
        assert(items.push(x)[0] == x);
        assert(idx_bytes(items.push(x)) =~= idx_item_bytes(x));
    } else {
        lemma_idx_bytes_push(items.skip(1), x);
        assert(items.push(x).skip(1) =~= items.skip(1).push(x));
        assert(items.push(x)[0] == items[0]);
        assert(idx_bytes(items.push(x)) =~= idx_item_bytes(items[0]) + (idx_bytes(items.skip(1))
            + idx_item_bytes(x)));
    }
}

/// A synonym: an alternative headword's bytes and its entry's index.
pub type SynItem = (Vec<u8>, usize);

/// The synonyms of the first `k` entries in the order `ord`: each alt's
/// headword with the position its entry is written at.
pub open spec fn syn_list(g: Glossary, ord: Seq<usize>, k: int) -> Seq<(Seq<u8>, int)>
    decreases k,
{
    if k <= 0 {
        Seq::empty()
    } else {
        syn_list(g, ord, k - 1) + g.entries@[ord[k - 1] as int]@.alts.map_values(
            |a: crate::glossary::alt::AltView| (utf8_of(a.term), k - 1),
        )
    }
}

/// The bytes as characters of the same code, so that characters order as the
/// bytes do.
pub open spec fn byte_chars(b: Seq<u8>) -> Seq<char> {
    b.map_values(|x: u8| x as char)
}

/// The bytes a synonym takes: the headword, a NUL, the entry index
/// (big-endian u32).
pub open spec fn syn_item_bytes(item: (Seq<u8>, int)) -> Seq<u8> {
    item.0 + seq![0u8] + be32_bytes(item.1)
}

/// The bytes of a `.syn` holding `items`, in order.
pub open spec fn syn_bytes(items: Seq<(Seq<u8>, int)>) -> Seq<u8>
    decreases items.len(),
{
    if items.len() == 0 {
        Seq::empty()
    } else {
        syn_bytes(items.drop_last()) + syn_item_bytes(items.last())
    }
}

/// Whether `p` orders the synonyms: a permutation of their indices, stably
/// sorted by headword bytes.
pub open spec fn syn_order(items: Seq<(Seq<u8>, int)>, p: Seq<usize>) -> bool {
    let keys = items.map_values(|x: (Seq<u8>, int)| byte_chars(x.0));
    &&& p.to_multiset() == identity(items.len()).to_multiset()
    &&& sorted_by(keys, p)
    &&& in_range(keys, p)
}

/// The lines of the `.ifo` a writer makes.
pub open spec fn ifo_text(
    name: Seq<char>,
    description: Option<Seq<char>>,
    word_count: int,
    idx_size: int,
    sts: SameTypeSequence,
    syn_count: int,
) -> Seq<char> {
    "StarDict's dict ifo file\n"@ + "version=3.0.0\n"@ + "bookname="@ + replace_spec(name, "\n"@, " "@)
        + "\n"@ + "wordcount="@ + decimal_spec(word_count as nat) + "\n"@ + "idxfilesize="@
        + decimal_spec(idx_size as nat) + "\n"@ + "sametypesequence="@ + sts_letter(sts) + "\n"@ + (
    if syn_count > 0 {
        "synwordcount="@ + decimal_spec(syn_count as nat) + "\n"@
    } else {
        Seq::empty()
    }) + "description="@ + match description {
        Some(d) => if d.len() > 0 {
            replace_spec(d, "\n"@, " "@)
        } else {
            Seq::empty()
        },
        None => Seq::empty(),
    } + "\n"@
}

/// The files of a Stardict dictionary.
pub struct StardictFiles {
    pub ifo: String,
    pub idx: Vec<u8>,
    pub dict: Vec<u8>,
    pub syn: Option<Vec<u8>>,
}

fn decimal(n: u64) -> (r: String)
    ensures
        r@ == decimal_spec(n as nat),
{
    let mut s = String::new();
    push_decimal(&mut s, n);
    s
}

/// The `.ifo` a writer makes.
pub fn write_ifo(
    glossary: &Glossary,
    sts: SameTypeSequence,
    word_count: usize,
    idx_size: usize,
    syn_count: usize,
) -> (r: String)
    requires
        glossary.info.wf(),
    ensures
        r@ == ifo_text(
            glossary.info@[0].1,
            info_get(glossary.info@, "description"@),
            word_count as int,
            idx_size as int,
            sts,
            syn_count as int,
        ),
{
    proof {
        reveal_strlit("\n");
    }
    let mut out = String::new();
    out.append("StarDict's dict ifo file\n");
    out.append("version=3.0.0\n");
    let name = replace_all(glossary.info.name(), "\n", " ");
    out.append("bookname=");
    out.append(name.as_str());
    out.append("\n");
    let wc = decimal(word_count as u64);
    out.append("wordcount=");
    out.append(wc.as_str());
    out.append("\n");
    let isz = decimal(idx_size as u64);
    out.append("idxfilesize=");
    out.append(isz.as_str());
    out.append("\n");
    out.append("sametypesequence=");
    out.append(sts.to_format_string());
    out.append("\n");
    let ghost mid = out@;
    if syn_count > 0 {
        let sc = decimal(syn_count as u64);
        out.append("synwordcount=");
        out.append(sc.as_str());
        out.append("\n");
    }
    let desc = match glossary.info.get("description") {
        Some(d) => if !d.is_empty() {
            replace_all(d, "\n", " ")
        } else {
            String::new()
        },
        None => String::new(),
    };
    out.append("description=");
    out.append(desc.as_str());
    out.append("\n");
    assert(out@ =~= ifo_text(
        glossary.info@[0].1,
        info_get(glossary.info@, "description"@),
        word_count as int,
        idx_size as int,
        sts,
        syn_count as int,
    ));
    out
}

proof fn lemma_dict_grows(g: Glossary, ord: Seq<usize>, k: int, n: int)
    requires
        0 <= k <= n,
    ensures
        dict_bytes(g, ord, k).len() <= dict_bytes(g, ord, n).len(),
    decreases n - k,
{
    if k < n {
        lemma_dict_grows(g, ord, k, n - 1);
    }
}

/// The order in which the entries are written: stably sorted by lowercase
/// headword.
pub fn stardict_order(glossary: &Glossary) -> (r: Vec<usize>)
    ensures
        write_order(*glossary, r@),
{
    let n = glossary.entries.len();
    let mut keys: Vec<Vec<char>> = Vec::new();
    for i in 0..n
        invariant
            n == glossary.entries@.len(),
            keys@.len() == i,
            forall|q: int| 0 <= q < i ==> #[trigger] keys@[q]@ == is_unicode_lowercase_of(glossary.entries@[q]@.term),
    {
        let lower = to_lowercase(glossary.entries[i].term());
        keys.push(chars_of(lower.as_str()));
    }
    assert(key_views(keys@) =~= lower_keys(*glossary));
    let r = sorted_order(&keys);
    proof {
        vstd::seq_lib::to_multiset_len(r@);
        vstd::seq_lib::to_multiset_len(identity(n as nat));
    }
    r
}

/// The synonyms in the order `p`.
pub open spec fn ordered_syn(items: Seq<(Seq<u8>, int)>, p: Seq<usize>) -> Seq<(Seq<u8>, int)> {
    p.map_values(|i: usize| items[i as int])
}

/// The dictionary's `.dict`, `.idx` and `.syn` (where it has alts) for the
/// sequence `sts`, with its `.ifo`; `TooLarge` where the `.dict` or the
/// entry count outgrows the format's 32-bit fields.
pub fn write_compact(sts: SameTypeSequence, glossary: &Glossary) -> (r: Result<StardictFiles, StardictError>)
    requires
        glossary.info.wf(),
        all_renderable(glossary.entries@),
    ensures
        exists|ord: Seq<usize>| #![trigger write_order(*glossary, ord)] write_order(*glossary, ord) && written(*glossary, ord, sts, r),
{
    let order = stardict_order(glossary);
    write_in_order(sts, glossary, &order)
}

/// Whether `r` is what the writer gives for the entries in the order `ord`.
pub open spec fn written(g: Glossary, ord: Seq<usize>, sts: SameTypeSequence, r: Result<StardictFiles, StardictError>) -> bool {
    let n = g.entries@.len() as int;
    let syns = syn_list(g, ord, n);
    &&& match r {
        Ok(f) => {
            &&& f.dict@ == dict_bytes(g, ord, n)
            &&& f.idx@ == idx_bytes(writer_items(g, ord, n))
            &&& f.syn is None <==> syns.len() == 0
            &&& f.syn matches Some(b) ==> exists|p: Seq<usize>|
                syn_order(syns, p) && b@ == syn_bytes(ordered_syn(syns, p))
            &&& f.ifo@ == ifo_text(
                g.info@[0].1,
                info_get(g.info@, "description"@),
                n,
                f.idx@.len() as int,
                sts,
                syns.len() as int,
            )
        },
        Err(e) => e == StardictError::TooLarge && (dict_bytes(g, ord, n).len() > u32::MAX || n > u32::MAX),
    }
    &&& (dict_bytes(g, ord, n).len() <= u32::MAX && n <= u32::MAX) ==> r is Ok
}

/// The files for the entries in the order `order`.
fn write_in_order(sts: SameTypeSequence, glossary: &Glossary, order: &Vec<usize>) -> (r: Result<StardictFiles, StardictError>)
    requires
        glossary.info.wf(),
        all_renderable(glossary.entries@),
        write_order(*glossary, order@),
    ensures
        written(*glossary, order@, sts, r),
        ({
            let n = glossary.entries@.len() as int;
            let syns = syn_list(*glossary, order@, n);
            match r {
                Ok(f) => {
                    &&& f.dict@ == dict_bytes(*glossary, order@, n)
                    &&& f.idx@ == idx_bytes(writer_items(*glossary, order@, n))
                    &&& f.syn is None <==> syns.len() == 0
                    &&& f.syn matches Some(b) ==> exists|p: Seq<usize>|
                        syn_order(syns, p) && b@ == syn_bytes(ordered_syn(syns, p))
                    &&& f.ifo@ == ifo_text(
                        glossary.info@[0].1,
                        info_get(glossary.info@, "description"@),
                        n,
                        f.idx@.len() as int,
                        sts,
                        syns.len() as int,
                    )
                },
                Err(e) => e == StardictError::TooLarge && (dict_bytes(*glossary, order@, n).len() > u32::MAX
                    || n > u32::MAX),
            }
        }),
        r is Err ==> r == Err::<StardictFiles, StardictError>(StardictError::TooLarge),
        (dict_bytes(*glossary, order@, glossary.entries@.len() as int).len() <= u32::MAX
            && glossary.entries@.len() <= u32::MAX) ==> r is Ok,
{
    let n = glossary.entries.len();
    if n > 0xFFFF_FFFF {
        proof {
            lemma_dict_grows(*glossary, order@, 0, n as int);
        }
        return Err(StardictError::TooLarge);
    }
    let converter = HtmlConverter::new(glossary);
    let ghost links = links_html(converter.css_files@);
    let ghost bank = bank_or_empty(converter.tag_bank);
    proof {
        lemma_links_of_names(converter.css_files@);
        assert(links == glossary_links(*glossary));
        assert(bank == glossary_bank(*glossary));
    }
    let mut dict: Vec<u8> = Vec::new();
    let mut idx: Vec<u8> = Vec::new();
    let mut syns: Vec<SynItem> = Vec::new();
    let mut mark: u32 = 0;
    for i in 0..n
        invariant
            n == glossary.entries@.len(),
            n <= u32::MAX,
            links == glossary_links(*glossary),
            links == links_html(converter.css_files@),
            bank == glossary_bank(*glossary),
            bank == bank_or_empty(converter.tag_bank),
            all_renderable(glossary.entries@),
            dict@ == dict_bytes(*glossary, order@, i as int),
            order@.len() == n,
            forall|q: int| 0 <= q < n ==> #[trigger] order@[q] < n,
            mark as int == dict@.len(),
            idx@ == idx_bytes(writer_items(*glossary, order@, i as int)),
            syns@.map_values(|x: SynItem| (x.0@, x.1 as int)) == syn_list(*glossary, order@, i as int),
            forall|q: int| 0 <= q < syns@.len() ==> (#[trigger] syns@[q]).1 < i,
    {
        let oi = order[i];
        let entry = &glossary.entries[oi];
        assert(renderable(*glossary.entries@[oi as int].spec_definition()));
        let html = converter.convert(entry.definition());
        let block = bytes_of(html.as_str());
        assert(block@ == dict_block(*glossary, glossary.entries@[oi as int]));
        if block.len() > 0xFFFF_FFFF || mark as usize > 0xFFFF_FFFF - block.len() {
            proof {
                assert(dict_bytes(*glossary, order@, i + 1).len() > u32::MAX);
                lemma_dict_grows(*glossary, order@, i + 1, n as int);
            }
            return Err(StardictError::TooLarge);
        }
        push_bytes(&mut dict, block.as_slice());
        let ghost old_items = writer_items(*glossary, order@, i as int);
        let term = entry.b_term();
        push_bytes(&mut idx, term);
        idx.push(0u8);
        push_u32_be(&mut idx, mark);
        push_u32_be(&mut idx, block.len() as u32);
        proof {
            let x = (utf8_of(glossary.entries@[oi as int]@.term), mark as u64, block@.len() as u32);
            lemma_idx_bytes_push(old_items, x);
            assert(writer_items(*glossary, order@, i + 1) == old_items.push(x));
            assert(idx@ =~= idx_bytes(old_items) + idx_item_bytes(x));
        }
        mark = mark + block.len() as u32;
        let alts = entry.b_alts();
        let m = alts.len();
        let ghost before = syns@.map_values(|x: SynItem| (x.0@, x.1 as int));
        let ghost want = glossary.entries@[oi as int]@.alts.map_values(
            |a: crate::glossary::alt::AltView| (utf8_of(a.term), i as int),
        );
        for j in 0..m
            invariant
                i < n,
                n == glossary.entries@.len(),
                forall|q: int| 0 <= q < syns@.len() ==> (#[trigger] syns@[q]).1 <= i,
                m == alts@.len(),
                oi < n,
                m == glossary.entries@[oi as int]@.alts.len(),
                forall|k: int| 0 <= k < m ==> #[trigger] alts@[k]@ == utf8_of(glossary.entries@[oi as int]@.alts[k].term),
                want == glossary.entries@[oi as int]@.alts.map_values(
                    |a: crate::glossary::alt::AltView| (utf8_of(a.term), i as int),
                ),
                syns@.map_values(|x: SynItem| (x.0@, x.1 as int)) == before + want.take(j as int),
        {
            let copy = slice_to_bytes(alts[j].as_slice(), 0, alts[j].len());
            assert(copy@ =~= alts@[j as int]@);
            assert(want[j as int] == (copy@, i as int));
            let ghost prev = syns@;
            syns.push((copy, i));
            assert(syns@.map_values(|x: SynItem| (x.0@, x.1 as int)) =~= prev.map_values(
                |x: SynItem| (x.0@, x.1 as int),
            ).push((copy@, i as int)));
            assert(want.take(j + 1) =~= want.take(j as int).push(want[j as int]));
            assert(syns@.map_values(|x: SynItem| (x.0@, x.1 as int)) =~= before + want.take(j + 1));
        }
        assert(want.take(m as int) =~= want);
    }
    let ghost items = syns@.map_values(|x: SynItem| (x.0@, x.1 as int));
    assert(items == syn_list(*glossary, order@, n as int));
    let syn = if syns.len() == 0 {
        None
    } else {
        let k = syns.len();
        let mut keys: Vec<Vec<char>> = Vec::new();
        for j in 0..k
            invariant
                k == syns@.len(),
                keys@.len() == j,
                forall|q: int| 0 <= q < j ==> #[trigger] keys@[q]@ == byte_chars(syns@[q].0@),
        {
            keys.push(chars_of_bytes(syns[j].0.as_slice()));
        }
        assert(key_views(keys@) =~= items.map_values(|x: (Seq<u8>, int)| byte_chars(x.0)));
        let p = sorted_order(&keys);
        let mut out: Vec<u8> = Vec::new();
        let len = p.len();
        for j in 0..len
            invariant
                len == p@.len(),
                k == syns@.len(),
                keys@.len() == k,
                in_range(key_views(keys@), p@),
                items == syns@.map_values(|x: SynItem| (x.0@, x.1 as int)),
                n <= u32::MAX,
                forall|q: int| 0 <= q < k ==> (#[trigger] syns@[q]).1 < n,
                out@ == syn_bytes(ordered_syn(items, p@.take(j as int))),
        {
            let q = p[j];
            assert(q < k);
            push_bytes(&mut out, syns[q].0.as_slice());
            out.push(0u8);
            push_u32_be(&mut out, syns[q].1 as u32);
            proof {
                let o = ordered_syn(items, p@.take(j + 1));
                assert(o.drop_last() =~= ordered_syn(items, p@.take(j as int)));
                assert(o.last() == items[q as int]);
            }
            assert(out@ =~= syn_bytes(ordered_syn(items, p@.take(j + 1))));
        }
        assert(p@.take(len as int) =~= p@);
        assert(syn_order(items, p@));
        Some(out)
    };
    let ifo = write_ifo(glossary, sts, n, idx.len(), syns.len());
    Ok(StardictFiles { ifo, idx, dict, syn })
}

/// The characters of the same codes as the bytes.
pub fn chars_of_bytes(b: &[u8]) -> (r: Vec<char>)
    ensures
        r@ == byte_chars(b@),
{
    let mut out: Vec<char> = Vec::new();
    let n = b.len();
    for i in 0..n
        invariant
            n == b@.len(),
            out@ == byte_chars(b@.take(i as int)),
    {
        out.push(b[i] as char);
        assert(out@ =~= byte_chars(b@.take(i + 1)));
    }
    assert(b@.take(n as int) =~= b@);
    out
}

/// A Stardict dictionary for the `.ifo` at `ifo_path`: its sequence is the
/// one the info names, or html.
pub fn write_stardict(glossary: &Glossary, ifo_path: &str) -> (r: Result<StardictFiles, StardictError>)
    requires
        glossary.info.wf(),
        all_renderable(glossary.entries@),
    ensures
        r matches Err(StardictError::NotAnIfo(p)) ==> p@ == ifo_path@ && path_extension(ifo_path@) != Some("ifo"@),
        path_extension(ifo_path@) != Some("ifo"@) ==> r is Err,
        path_extension(ifo_path@) == Some("ifo"@) ==> exists|ord: Seq<usize>|
            #![trigger write_order(*glossary, ord)]
            write_order(*glossary, ord) && written(*glossary, ord, chosen_sts(glossary.info@), r),
{
    let is_ifo = match extension_of(ifo_path) {
        Some(e) => str_eq(e.as_str(), "ifo"),
        None => false,
    };
    if !is_ifo {
        return Err(StardictError::NotAnIfo(ifo_path.to_string()));
    }
    let mut sts = SameTypeSequence::from_info(&glossary.info);
    if sts == SameTypeSequence::Empty {
        sts = SameTypeSequence::Html;
    }
    write_compact(sts, glossary)
}

/// The sequence a writer uses: the info's, or html where it names none.
pub open spec fn chosen_sts(info: Seq<(Seq<char>, Seq<char>)>) -> SameTypeSequence {
    match sts_from_info(info) {
        SameTypeSequence::Empty => SameTypeSequence::Html,
        other => other,
    }
}

proof fn lemma_nul_at(b: Seq<u8>, pos: int, k: int)
    requires
        0 <= pos <= k < b.len(),
        b[k] == 0,
        forall|j: int| pos <= j < k ==> b[j] != 0,
    ensures
        nul_from(b, pos) == Some(k),
    decreases k - pos,
{
    if pos < k {
        lemma_nul_at(b, pos + 1, k);
    }
}

proof fn lemma_idx_read_from(b: Seq<u8>, pos: int, items: Seq<(Seq<u8>, u64, u32)>)
    requires
        0 <= pos <= b.len(),
        b.skip(pos) == idx_bytes(items),
        forall|i: int| 0 <= i < items.len() ==> !(#[trigger] items[i]).0.contains(0u8),
        forall|i: int| 0 <= i < items.len() ==> (#[trigger] items[i]).1 <= u32::MAX,
    ensures
        idx_items_from(b, pos, false) == items,
    decreases items.len(),
{
    if items.len() == 0 {
        assert(b.skip(pos).len() == 0);
    } else {
        let x = items[0];
        let t = x.0;
        let l = t.len() as int;
        let rest = idx_bytes(items.skip(1));
        assert(b.skip(pos) == idx_item_bytes(x) + rest);
        lemma_be32_roundtrip(x.1 as int);
        lemma_be32_roundtrip(x.2 as int);
        let ib = idx_item_bytes(x);
        assert(ib.len() == l + 9);
        assert forall|j: int| pos <= j < pos + l implies b[j] != 0 by {
            assert(b[j] == b.skip(pos)[j - pos]);
            assert(b.skip(pos)[j - pos] == t[j - pos]);
            if b[j] == 0 {
                assert(t.contains(0u8));
            }
        }
        assert(b[pos + l] == b.skip(pos)[l]);
        lemma_nul_at(b, pos, pos + l);
        let p = pos + l + 1;
        assert(b.subrange(pos, pos + l) =~= t) by {
            assert forall|j: int| 0 <= j < l implies b.subrange(pos, pos + l)[j] == t[j] by {
                assert(b[pos + j] == b.skip(pos)[j]);
            }
        }
        assert(b.subrange(p, p + 4) =~= be32_bytes(x.1 as int)) by {
            assert forall|j: int| 0 <= j < 4 implies b.subrange(p, p + 4)[j] == be32_bytes(x.1 as int)[j] by {
                assert(b[p + j] == b.skip(pos)[l + 1 + j]);
            }
        }
        assert(b.subrange(p + 4, p + 8) =~= be32_bytes(x.2 as int)) by {
            assert forall|j: int| 0 <= j < 4 implies b.subrange(p + 4, p + 8)[j] == be32_bytes(x.2 as int)[j] by {
                assert(b[p + 4 + j] == b.skip(pos)[l + 5 + j]);
            }
        }
        assert(b.skip(p + 8) =~= rest) by {
            assert(b.skip(pos).skip(l + 9) =~= rest);
        }
        assert forall|i: int| 0 <= i < items.skip(1).len() implies !(#[trigger] items.skip(1)[i]).0.contains(0u8) by {
            assert(items.skip(1)[i] == items[i + 1]);
        }
        assert forall|i: int| 0 <= i < items.skip(1).len() implies (#[trigger] items.skip(1)[i]).1 <= u32::MAX by {
            assert(items.skip(1)[i] == items[i + 1]);
        }
        lemma_idx_read_from(b, p + 8, items.skip(1));
        assert(idx_items_from(b, pos, false) =~= seq![x] + items.skip(1));
        assert(items =~= seq![x] + items.skip(1));
    }
}

/// What the reader reads back of an index the writer writes: the same items,
/// where no headword holds a NUL byte and every offset fits in 32 bits.
pub proof fn lemma_idx_roundtrip(items: Seq<(Seq<u8>, u64, u32)>)
    requires
        forall|i: int| 0 <= i < items.len() ==> !(#[trigger] items[i]).0.contains(0u8),
        forall|i: int| 0 <= i < items.len() ==> (#[trigger] items[i]).1 <= u32::MAX,
    ensures
        idx_items_from(idx_bytes(items), 0, false) == items,
{
    let b = idx_bytes(items);
    assert(b.skip(0) =~= b);
    lemma_idx_read_from(b, 0, items);
}

proof fn lemma_dict_prefix(g: Glossary, ord: Seq<usize>, k: int, n: int)
    requires
        0 <= k <= n,
    ensures
        dict_bytes(g, ord, k).len() <= dict_bytes(g, ord, n).len(),
        dict_bytes(g, ord, n).subrange(0, dict_bytes(g, ord, k).len() as int) == dict_bytes(g, ord, k),
    decreases n - k,
{
    if k < n {
        lemma_dict_prefix(g, ord, k, n - 1);
        let a = dict_bytes(g, ord, n - 1);
        let b = dict_bytes(g, ord, n);
        assert(b.subrange(0, a.len() as int) =~= a);
        assert(b.subrange(0, dict_bytes(g, ord, k).len() as int) =~= a.subrange(0, dict_bytes(g, ord, k).len() as int));
    } else {
        assert(dict_bytes(g, ord, n).subrange(0, dict_bytes(g, ord, n).len() as int) =~= dict_bytes(g, ord, n));
    }
}

/// The utf-8 of a text decodes back to it.
pub proof fn lemma_utf8_back(s: Seq<char>)
    ensures
        lossy_utf8(utf8_of(s)) == s,
        s.len() > 0 ==> utf8_of(s).len() > 0,
{
    vstd::utf8::encode_utf8_valid_utf8(s);
    vstd::utf8::encode_utf8_decode_utf8(s);
    if s.len() > 0 && utf8_of(s).len() == 0 {
        assert(utf8_of(s) =~= Seq::<u8>::empty());
        assert(vstd::utf8::decode_utf8(Seq::<u8>::empty()) =~= Seq::<char>::empty());
    }
}

/// What the reader makes of the first `k` index items the writer writes:
/// the entries in the order written, each with its html.
proof fn lemma_entries_back(g: Glossary, ord: Seq<usize>, alts: Seq<Seq<Seq<char>>>, k: int)
    requires
        write_order(g, ord),
        0 <= k <= g.entries@.len(),
        dict_bytes(g, ord, g.entries@.len() as int).len() <= u32::MAX,
        forall|i: int| 0 <= i < g.entries@.len() ==> (#[trigger] g.entries@[i])@.term.len() > 0,
    ensures
        stardict_entries(
            SameTypeSequence::Html,
            writer_items(g, ord, k),
            alts,
            dict_bytes(g, ord, g.entries@.len() as int),
        ) == Seq::new(
            k as nat,
            |i: int| EntryView {
                term: g.entries@[ord[i] as int]@.term,
                definition: DefinitionView::Html(
                    glossary_links(g) + definition_to_html(*g.entries@[ord[i] as int].spec_definition(), glossary_bank(g)),
                ),
                alts: term_alts(alts[i]),
            },
        ),
    decreases k,
{
    let n = g.entries@.len() as int;
    let d = dict_bytes(g, ord, n);
    let want = Seq::new(
        k as nat,
        |i: int| EntryView {
            term: g.entries@[ord[i] as int]@.term,
            definition: DefinitionView::Html(
                glossary_links(g) + definition_to_html(*g.entries@[ord[i] as int].spec_definition(), glossary_bank(g)),
            ),
            alts: term_alts(alts[i]),
        },
    );
    lemma_items_len(g, ord, k);
    if k == 0 {
        assert(want =~= Seq::<EntryView>::empty());
    } else {
        lemma_entries_back(g, ord, alts, k - 1);
        lemma_items_len(g, ord, k - 1);
        let items = writer_items(g, ord, k);
        assert(items.drop_last() =~= writer_items(g, ord, k - 1));
        let e = g.entries@[ord[k - 1] as int];
        let html = glossary_links(g) + definition_to_html(*e.spec_definition(), glossary_bank(g));
        let before = dict_bytes(g, ord, k - 1);
        let block = dict_block(g, e);
        lemma_dict_prefix(g, ord, k, n);
        lemma_dict_prefix(g, ord, k - 1, n);
        assert(dict_bytes(g, ord, k) == before + block);
        let (t, off, size) = items.last();
        assert(off as int == before.len());
        assert(size as int == block.len());
        assert(d.subrange(off as int, off + size) =~= block) by {
            assert(d.subrange(0, dict_bytes(g, ord, k).len() as int) == before + block);
            assert forall|j: int| 0 <= j < block.len() implies d.subrange(off as int, off + size)[j] == block[j] by {
                assert(d.subrange(off as int, off + size)[j] == d[before.len() + j]);
                assert(d[before.len() + j] == d.subrange(0, dict_bytes(g, ord, k).len() as int)[before.len() + j]);
            }
        }
        lemma_utf8_back(e@.term);
        lemma_utf8_back(html);
        assert(ord[k - 1] < g.entries@.len());
        assert(e@.term.len() > 0);
        assert(want.drop_last() =~= Seq::new(
            (k - 1) as nat,
            |i: int| EntryView {
                term: g.entries@[ord[i] as int]@.term,
                definition: DefinitionView::Html(
                    glossary_links(g) + definition_to_html(*g.entries@[ord[i] as int].spec_definition(), glossary_bank(g)),
                ),
                alts: term_alts(alts[i]),
            },
        ));
        assert(want =~= want.drop_last().push(want.last()));
    }
}

proof fn lemma_items_len(g: Glossary, ord: Seq<usize>, k: int)
    requires
        0 <= k,
    ensures
        writer_items(g, ord, k).len() == k,
    decreases k,
{
    if k > 0 {
        lemma_items_len(g, ord, k - 1);
    }
}

proof fn lemma_items_fit(g: Glossary, ord: Seq<usize>, k: int)
    requires
        write_order(g, ord),
        0 <= k <= g.entries@.len(),
        dict_bytes(g, ord, g.entries@.len() as int).len() <= u32::MAX,
        forall|i: int| 0 <= i < g.entries@.len() ==> !utf8_of((#[trigger] g.entries@[i])@.term).contains(0u8),
    ensures
        forall|i: int| 0 <= i < k ==> !(#[trigger] writer_items(g, ord, k)[i]).0.contains(0u8),
        forall|i: int| 0 <= i < k ==> (#[trigger] writer_items(g, ord, k)[i]).1 <= u32::MAX,
    decreases k,
{
    lemma_items_len(g, ord, k);
    if k > 0 {
        lemma_items_fit(g, ord, k - 1);
        lemma_items_len(g, ord, k - 1);
        lemma_dict_prefix(g, ord, k - 1, g.entries@.len() as int);
        let items = writer_items(g, ord, k);
        assert(items.drop_last() =~= writer_items(g, ord, k - 1));
        assert(ord[k - 1] < g.entries@.len());
        assert forall|i: int| 0 <= i < k implies !(#[trigger] items[i]).0.contains(0u8) && items[i].1 <= u32::MAX by {
            if i < k - 1 {
                assert(items[i] == writer_items(g, ord, k - 1)[i]);
            } else {
                assert(!utf8_of(g.entries@[ord[k - 1] as int]@.term).contains(0u8));
            }
        }
    }
}

/// What the reader reads back of the index and the `.dict` a writer writes
/// (with html definitions): the index items as written, and then the
/// entries in the order written, each with its headword and its html. This
/// holds where no headword is empty or holds a NUL, and the `.dict` fits the
/// format's 32-bit offsets (when the writer does not refuse it).
pub proof fn lemma_stardict_roundtrip(g: Glossary, ord: Seq<usize>, alts: Seq<Seq<Seq<char>>>)
    requires
        write_order(g, ord),
        dict_bytes(g, ord, g.entries@.len() as int).len() <= u32::MAX,
        forall|i: int|
            0 <= i < g.entries@.len() ==> (#[trigger] g.entries@[i])@.term.len() > 0 && !utf8_of(
                g.entries@[i]@.term,
            ).contains(0u8),
    ensures
        ({
            let n = g.entries@.len() as int;
            let items = writer_items(g, ord, n);
            &&& idx_items_from(idx_bytes(items), 0, false) == items
            &&& stardict_entries(SameTypeSequence::Html, items, alts, dict_bytes(g, ord, n)) == Seq::new(
                n as nat,
                |i: int| EntryView {
                    term: g.entries@[ord[i] as int]@.term,
                    definition: DefinitionView::Html(
                        glossary_links(g) + definition_to_html(*g.entries@[ord[i] as int].spec_definition(), glossary_bank(g)),
                    ),
                    alts: term_alts(alts[i]),
                },
            )
        }),
{
    let n = g.entries@.len() as int;
    lemma_entries_back(g, ord, alts, n);
    let items = writer_items(g, ord, n);
    lemma_items_len(g, ord, n);
    lemma_items_fit(g, ord, n);
    lemma_idx_roundtrip(items);
}

} // verus!
