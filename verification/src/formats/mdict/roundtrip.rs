//! What reading an .mdx gives back of what writing it made.

use vstd::prelude::*;

use crate::bytes::{be32_bytes, le32, le32_bytes, lemma_be32_roundtrip, units_le_bytes, utf16_units};
use crate::encryption::{adler32_spec, adler32_sums};
use crate::formats::mdict::readback::{
    lemma_key_section_roundtrip, lemma_record_section_roundtrip, no_nul,
};
use crate::formats::mdict::reader::{
    decode_keys_spec, header_attrs_spec, header_error_spec, header_raw_spec, key_section_spec, mdx_header_matches,
    mdx_parts, record_section_spec, split_records, take_spec,
};
use crate::formats::mdict::records::{lemma_split_records_of, record_text};
use crate::formats::mdict::writer::{
    framed_header, header_xml, key_block_spec, key_bytes, key_section_bytes, mdx_spec, mdx_undone, ordered_refs,
    record_offsets, record_section_bytes, records_of, ref_term, KeyRef,
};
use crate::formats::mdict::{encryption_from_attr_spec, CompressionKind, EncryptionKind, MdictError};
use crate::formats::stardict::writer::lemma_utf8_back;
use crate::formats::yomitan::TagBankEntry;
use crate::glossary::conversion::{glossary_bank, glossary_links};
use crate::glossary::definition::definition_to_html;
use crate::glossary::entry::{utf8_of, Entry};
use crate::glossary::glossary_info::{info_get, store_all};
use crate::glossary::Glossary;
use crate::strs::{lossy_utf16le, lossy_utf8};

verus! {

/// Decoding the little-endian bytes of a 32-bit value gives the value back.
pub proof fn lemma_le32_roundtrip(v: int)
    requires
        0 <= v < 4294967296,
    ensures
        le32_bytes(v).len() == 4,
        le32(le32_bytes(v)) == v,
{
    let b = le32_bytes(v);
    assert(b[0] == v % 256);
    assert(b[1] == (v / 256) % 256);
    assert(b[2] == (v / 65536) % 256);
    assert(b[3] == v / 16777216);
    assert(v == (v / 16777216) * 16777216 + ((v / 65536) % 256) * 65536 + ((v / 256) % 256) * 256
        + v % 256) by (nonlinear_arith)
        requires
            0 <= v < 4294967296,
    ;
}

/// The Adler-32 sums stay below their modulus.
proof fn lemma_adler32_sums_bound(data: Seq<u8>)
    ensures
        0 <= adler32_sums(data).0 < 65521,
        0 <= adler32_sums(data).1 < 65521,
    decreases data.len(),
{
    if data.len() > 0 {
        lemma_adler32_sums_bound(data.drop_last());
    }
}

/// An Adler-32 checksum fits in 32 bits.
pub proof fn lemma_adler32_bound(data: Seq<u8>)
    ensures
        0 <= adler32_spec(data) < 4294967296,
{
    lemma_adler32_sums_bound(data);
    let (a, b) = adler32_sums(data);
    assert(0 <= b * 65536 + a < 4294967296) by (nonlinear_arith)
        requires
            0 <= a < 65521,
            0 <= b < 65521,
    ;
}

/// Reading the header the writer frames gives back its UTF-16 bytes, and the
/// position right after it.
pub proof fn lemma_header_frame_roundtrip(xml: Seq<char>, rest: Seq<u8>)
    requires
        units_le_bytes(utf16_units(xml)).len() < 4294967296,
    ensures
        header_raw_spec(framed_header(xml) + rest, 0) == Ok::<(Seq<u8>, int), crate::formats::mdict::MdictError>(
            (units_le_bytes(utf16_units(xml)), framed_header(xml).len() as int),
        ),
{
    let raw = units_le_bytes(utf16_units(xml));
    let n = raw.len() as int;
    let len_b = be32_bytes(n);
    let sum_b = le32_bytes(adler32_spec(raw));
    lemma_be32_roundtrip(n);
    lemma_adler32_bound(raw);
    lemma_le32_roundtrip(adler32_spec(raw));
    let data = framed_header(xml) + rest;
    assert(data =~= len_b + raw + sum_b + rest);
    assert(data.subrange(0, 4) =~= len_b);
    assert(data.subrange(4, 4 + n) =~= raw);
    assert(data.subrange(4 + n, 8 + n) =~= sum_b);
    assert(take_spec(data, 4, n) == Some((raw, 4 + n)));
}

/// The utf-8 of two texts one after the other is that of the two joined.
pub proof fn lemma_utf8_concat(a: Seq<char>, b: Seq<char>)
    ensures
        utf8_of(a) + utf8_of(b) == utf8_of(a + b),
    decreases a.len(),
{
    if a.len() == 0 {
        assert(a + b =~= b);
        assert(utf8_of(a) =~= Seq::<u8>::empty());
        assert(Seq::<u8>::empty() + utf8_of(b) =~= utf8_of(b));
    } else {
        lemma_utf8_concat(a.drop_first(), b);
        assert((a + b).drop_first() =~= a.drop_first() + b);
        assert((a + b)[0] == a[0]);
        assert(utf8_of(a) + utf8_of(b) =~= vstd::utf8::encode_scalar(a[0] as u32) + (utf8_of(a.drop_first())
            + utf8_of(b)));
    }
}

/// The attributes the reader finds in the header the writer makes for `info`.
pub open spec fn written_attrs(info: Seq<(Seq<char>, Seq<char>)>) -> Seq<(Seq<char>, Seq<char>)> {
    header_attrs_spec(mdx_header_matches(header_xml(info)))
}

/// The encryption level the reader takes from a header's attributes.
pub open spec fn attrs_encryption(attrs: Seq<(Seq<char>, Seq<char>)>) -> Result<EncryptionKind, MdictError> {
    encryption_from_attr_spec(
        match info_get(store_all(seq![("name"@, "name"@)], attrs), "encrypted"@) {
            Some(v) => v,
            None => "no"@,
        },
    )
}

/// Whether the reader takes the header the writer makes for `info` as one of
/// version 2.0 in UTF-8 whose index is not encrypted.
pub open spec fn header_accepted(info: Seq<(Seq<char>, Seq<char>)>) -> bool {
    let attrs = written_attrs(info);
    &&& header_error_spec(attrs) is None
    &&& attrs_encryption(attrs) matches Ok(e) && e != EncryptionKind::Two
}

/// The text of a key's record: a link to its entry's headword for an alt,
/// the entry's html otherwise.
pub open spec fn record_chars(entries: Seq<Entry>, links: Seq<char>, bank: Seq<TagBankEntry>, r: KeyRef) -> Seq<
    char,
> {
    match r.alt {
        Some(_) => "@@@LINK="@ + entries[r.entry as int]@.term,
        None => links + definition_to_html(*entries[r.entry as int].spec_definition(), bank),
    }
}

/// What [`mdx_parts`] gives, step by step.
proof fn lemma_mdx_parts_of(
    data: Seq<u8>,
    raw: Seq<u8>,
    p1: int,
    enc: EncryptionKind,
    raw_keys: Seq<Seq<u8>>,
    p2: int,
    records: Seq<u8>,
    vals: Seq<Seq<u8>>,
)
    requires
        header_raw_spec(data, 0) == Ok::<(Seq<u8>, int), MdictError>((raw, p1)),
        header_error_spec(header_attrs_spec(mdx_header_matches(lossy_utf16le(raw)))) is None,
        attrs_encryption(header_attrs_spec(mdx_header_matches(lossy_utf16le(raw)))) == Ok::<
            EncryptionKind,
            MdictError,
        >(enc),
        key_section_spec(data, p1, enc, false) == Some((raw_keys, p2)),
        record_section_spec(data, p2) matches Some((r, _)) && r == records,
        split_records(records, 0, raw_keys.len()) == Some(vals),
    ensures
        mdx_parts(data) matches Some((a, _, ks, vs)) && a == header_attrs_spec(mdx_header_matches(
            lossy_utf16le(raw),
        )) && ks == decode_keys_spec(raw_keys, "UTF-8"@) && vs == vals.map_values(
            |v: Seq<u8>| lossy_utf8(v),
        ),
{
}

/// Reading back an .mdx the writer makes: where its header is read as it was
/// meant (see [`header_accepted`]), the reader finds the header's attributes,
/// then every key in the order written, each with its headword and its record
/// (a link to the entry's headword for an alt, the entry's html otherwise).
/// With zlib, the blocks deflated must inflate back ([`mdx_undone`], which
/// `write_mdx` ensures). Keys whose first or last headword takes 65536 bytes
/// or more, and headwords or records holding a zero byte, are left out.
#[verifier::rlimit(60)]
pub proof fn lemma_mdx_roundtrip(g: Glossary, p: Seq<usize>, kind: CompressionKind)
    requires
        kind != CompressionKind::Lzo,
        mdx_undone(g, p, kind),
        ({
            let es = g.entries@;
            let keys = ordered_refs(es, p);
            let links = glossary_links(g);
            let bank = glossary_bank(g);
            &&& keys.len() > 0 ==> utf8_of(ref_term(es, keys[0])).len() < 65536 && utf8_of(
                ref_term(es, keys.last()),
            ).len() < 65536
            &&& forall|i: int| 0 <= i < keys.len() ==> no_nul(#[trigger] utf8_of(ref_term(es, keys[i])))
            &&& forall|i: int| 0 <= i < keys.len() ==> no_nul(#[trigger] record_text(es, links, bank, keys[i]))
            &&& key_block_spec(key_bytes(es, keys), record_offsets(es, links, bank, keys)).len()
                < 18446744073709551616
        }),
        mdx_spec(g, p, kind).len() < 18446744073709551616,
        units_le_bytes(utf16_units(header_xml(g.info@))).len() < 4294967296,
        lossy_utf16le(units_le_bytes(utf16_units(header_xml(g.info@)))) == header_xml(g.info@),
        header_accepted(g.info@),
    ensures
        ({
            let es = g.entries@;
            let keys = ordered_refs(es, p);
            let links = glossary_links(g);
            let bank = glossary_bank(g);
            mdx_parts(mdx_spec(g, p, kind)) matches Some((a, _, ks, vs)) && a == written_attrs(g.info@) && ks
                == keys.map_values(|r: KeyRef| ref_term(es, r)) && vs == keys.map_values(
                |r: KeyRef| record_chars(es, links, bank, r),
            )
        }),
{
    let es = g.entries@;
    let keys = ordered_refs(es, p);
    let links = glossary_links(g);
    let bank = glossary_bank(g);
    let xml = header_xml(g.info@);
    let h = framed_header(xml);
    let kb = key_bytes(es, keys);
    let offs = record_offsets(es, links, bank, keys);
    let ks = key_section_bytes(kb, offs, kind);
    let recs = records_of(es, links, bank, keys);
    let rs = record_section_bytes(recs, keys.len() as int, kind);
    let data = mdx_spec(g, p, kind);
    assert(data == h + ks + rs);
    let raw = units_le_bytes(utf16_units(xml));
    assert(data =~= h + (ks + rs));
    lemma_header_frame_roundtrip(xml, ks + rs);
    let attrs = written_attrs(g.info@);
    let enc = attrs_encryption(attrs)->Ok_0;
    assert forall|i: int| 0 <= i < kb.len() implies no_nul(#[trigger] kb[i]) by {
        assert(kb[i] == utf8_of(ref_term(es, keys[i])));
    }
    lemma_key_section_roundtrip(kb, offs, kind, enc, h, rs);
    assert(data =~= (h + ks) + rs + Seq::<u8>::empty());
    lemma_record_section_roundtrip(recs, keys.len() as int, kind, h + ks, Seq::<u8>::empty());
    lemma_split_records_of(es, links, bank, keys, 0);
    assert(keys.take(0) =~= Seq::<KeyRef>::empty());
    assert(keys.skip(0) =~= keys);
    let vals = keys.map_values(|r: KeyRef| record_text(es, links, bank, r));
    lemma_mdx_parts_of(data, raw, h.len() as int, enc, kb, (h.len() + ks.len()) as int, recs, vals);
    proof_decode(es, links, bank, keys);
}

/// The keys and records decode to the headwords and record texts.
proof fn proof_decode(es: Seq<Entry>, links: Seq<char>, bank: Seq<TagBankEntry>, keys: Seq<KeyRef>)
    ensures
        decode_keys_spec(key_bytes(es, keys), "UTF-8"@) == keys.map_values(|r: KeyRef| ref_term(es, r)),
        keys.map_values(|r: KeyRef| record_text(es, links, bank, r)).map_values(|v: Seq<u8>| lossy_utf8(v))
            == keys.map_values(|r: KeyRef| record_chars(es, links, bank, r)),
{
    reveal_strlit("UTF-8");
    reveal_strlit("UTF-16LE");
    assert("UTF-8"@ != "UTF-16LE"@) by {
        assert("UTF-8"@.len() != "UTF-16LE"@.len());
    }
    assert forall|i: int| 0 <= i < keys.len() implies #[trigger] decode_keys_spec(key_bytes(es, keys), "UTF-8"@)[i]
        == ref_term(es, keys[i]) by {
        lemma_utf8_back(ref_term(es, keys[i]));
    }
    assert(decode_keys_spec(key_bytes(es, keys), "UTF-8"@) =~= keys.map_values(|r: KeyRef| ref_term(es, r)));
    assert forall|i: int| 0 <= i < keys.len() implies #[trigger] lossy_utf8(record_text(es, links, bank, keys[i]))
        == record_chars(es, links, bank, keys[i]) by {
        let r = keys[i];
        match r.alt {
            Some(_) => {
                lemma_utf8_concat("@@@LINK="@, es[r.entry as int]@.term);
                lemma_utf8_back("@@@LINK="@ + es[r.entry as int]@.term);
            },
            None => {
                lemma_utf8_back(links + definition_to_html(*es[r.entry as int].spec_definition(), bank));
            },
        }
    }
    assert(keys.map_values(|r: KeyRef| record_text(es, links, bank, r)).map_values(|v: Seq<u8>| lossy_utf8(v))
        =~= keys.map_values(|r: KeyRef| record_chars(es, links, bank, r)));
}

} // verus!
