//! Writing an .mdx file (and the .mdd beside it).

use vstd::prelude::*;

use crate::bytes::{encode_utf16, push_units_le, units_le_bytes, utf16_units, be16_bytes, be32_bytes, be64_bytes, lemma_be32_roundtrip, le32_bytes, push_bytes, push_u16_be, push_u32_be, push_u32_le, push_u64_be};
use crate::compression::{deflate_undone, zlib_compress, zlib_deflate};
use crate::encryption::{adler32, adler32_spec};
use crate::formats::mdict::reader::{decompress_spec};
use crate::formats::mdict::{default_attr, default_attr_spec, CompressionKind, MdictError, ATTR_ORDER, COMPRESSION_HEADER_0, COMPRESSION_HEADER_2};
use crate::glossary::glossary_info::{info_get, GlossaryInfo};

use crate::glossary::conversion::{all_renderable, glossary_bank, glossary_links, lemma_links_of_names, links_html, HtmlConverter};
use crate::glossary::definition::{bank_or_empty, definition_to_html, renderable};
use crate::glossary::entry::{alts_view, bytes_of, utf8_of, Entry};
use crate::glossary::{DataEntry, Glossary};
use crate::formats::yomitan::TagBankEntry;
use crate::sorting::{identity, in_range, key_views, sorted_by, sorted_order};
use crate::strs::{char_is_alphanumeric, chars_of, is_unicode_alphanumeric, is_unicode_lowercase_of, push_str, replace_all, replace_spec, slice_to_vec, str_eq, string_of, to_lowercase};
use crate::utils::{escape_html, escape_html_spec, file_stem, path_stem};

verus! {

/// A block as [`compress_block`] writes it: the compression type, the adler32
/// of the data, then the data, stored or zlib-deflated.
pub open spec fn compress_spec(data: Seq<u8>, kind: CompressionKind) -> Seq<u8> {
    match kind {
        CompressionKind::Zip => be32_bytes(0x0200_0000) + be32_bytes(adler32_spec(data)) + zlib_deflate(
            data,
        ),
        _ => be32_bytes(0) + be32_bytes(adler32_spec(data)) + data,
    }
}

/// Compresses a block (LZO is not supported).
pub fn compress_block(data: &[u8], kind: CompressionKind) -> (r: Vec<u8>)
    requires
        kind != CompressionKind::Lzo,
    ensures
        r@ == compress_spec(data@, kind),
        decompress_spec(r@) == Ok::<Seq<u8>, MdictError>(data@),
        kind == CompressionKind::Zip ==> deflate_undone(data@),
{
    let sum = adler32(data);
    let mut out: Vec<u8> = Vec::new();
    proof {
        lemma_be32_roundtrip(0);
        lemma_be32_roundtrip(0x0200_0000);
    }
    match kind {
        CompressionKind::Zip => {
            let z = zlib_compress(data);
            push_u32_be(&mut out, COMPRESSION_HEADER_2);
            push_u32_be(&mut out, sum);
            push_bytes(&mut out, z.as_slice());
            proof {
                assert(out@.subrange(0, 4) =~= be32_bytes(0x0200_0000));
                assert(out@.skip(8) =~= z@);
            }
        },
        _ => {
            push_u32_be(&mut out, COMPRESSION_HEADER_0);
            push_u32_be(&mut out, sum);
            push_bytes(&mut out, data);
            proof {
                assert(out@.subrange(0, 4) =~= be32_bytes(0));
                assert(out@.skip(8) =~= data@);
            }
        },
    }
    out
}

/// The uncompressed key block: for each key, its record's offset (big-endian
/// u64), its utf-8 bytes and a zero byte.
pub open spec fn key_block_spec(keys: Seq<Seq<u8>>, offsets: Seq<u64>) -> Seq<u8>
    decreases keys.len(),
{
    if keys.len() == 0 {
        Seq::empty()
    } else {
        key_block_spec(keys.drop_last(), offsets) + be64_bytes(offsets[keys.len() - 1] as int)
            + keys.last() + seq![0u8]
    }
}

/// The key block info of a single block: the key count, the first and last
/// keys (u16 length, bytes, zero byte), then the block's compressed and plain sizes.
#[verifier::opaque]
pub open spec fn key_info_spec(keys: Seq<Seq<u8>>, compressed_len: int, plain_len: int) -> Seq<u8> {
    let first = if keys.len() > 0 {
        keys[0]
    } else {
        Seq::empty()
    };
    let last = if keys.len() > 0 {
        keys.last()
    } else {
        Seq::empty()
    };
    be64_bytes(keys.len() as int) + be16_bytes((first.len() % 65536) as int) + first + seq![0u8] + be16_bytes(
        (last.len() % 65536) as int,
    ) + last + seq![0u8] + be64_bytes(compressed_len) + be64_bytes(plain_len)
}

/// The key section: five u64 fields and their adler32, the compressed key
/// block info, then the single compressed key block.
pub open spec fn key_section_bytes(keys: Seq<Seq<u8>>, offsets: Seq<u64>, kind: CompressionKind) -> Seq<
    u8,
> {
    let block = key_block_spec(keys, offsets);
    let compressed = compress_spec(block, kind);
    let info = key_info_spec(keys, compressed.len() as int, block.len() as int);
    let info_compressed = compress_spec(info, kind);
    let head = be64_bytes(1) + be64_bytes(keys.len() as int) + be64_bytes(info.len() as int)
        + be64_bytes(info_compressed.len() as int) + be64_bytes(compressed.len() as int);
    head + be32_bytes(adler32_spec(head)) + info_compressed + compressed
}

/// Whether, with zlib, inflating gives back the two blocks of a key section
/// (the key block and its info) that were deflated.
pub open spec fn key_section_undone(keys: Seq<Seq<u8>>, offsets: Seq<u64>, kind: CompressionKind) -> bool {
    let block = key_block_spec(keys, offsets);
    let info = key_info_spec(keys, compress_spec(block, kind).len() as int, block.len() as int);
    kind == CompressionKind::Zip ==> deflate_undone(block) && deflate_undone(info)
}

/// The byte sequences of a list of byte vectors.
pub open spec fn bytes_views(v: Seq<Vec<u8>>) -> Seq<Seq<u8>> {
    v.map_values(|b: Vec<u8>| b@)
}

/// Writes the key section of the given keys (utf-8 bytes) and record offsets.
pub fn write_key_section(keys: &[Vec<u8>], offsets: &[u64], kind: CompressionKind) -> (r: Vec<u8>)
    requires
        kind != CompressionKind::Lzo,
        keys@.len() == offsets@.len(),
    ensures
        r@ == key_section_bytes(bytes_views(keys@), offsets@, kind),
        key_section_undone(bytes_views(keys@), offsets@, kind),
{
    let ghost ks = bytes_views(keys@);
    let n = keys.len();
    let mut block: Vec<u8> = Vec::new();
    for i in 0..n
        invariant
            n == keys@.len(),
            n == offsets@.len(),
            ks == bytes_views(keys@),
            block@ == key_block_spec(ks.subrange(0, i as int), offsets@),
    {
        push_u64_be(&mut block, offsets[i]);
        push_bytes(&mut block, keys[i].as_slice());
        block.push(0u8);
        proof {
            let sub = ks.subrange(0, i + 1);
            assert(sub.drop_last() =~= ks.subrange(0, i as int));
            assert(sub.last() == keys@[i as int]@);
        }
    }
    assert(ks.subrange(0, n as int) =~= ks);
    let compressed = compress_block(block.as_slice(), kind);
    let mut info: Vec<u8> = Vec::new();
    push_u64_be(&mut info, n as u64);
    let empty: Vec<u8> = Vec::new();
    let first: &Vec<u8> = if n > 0 {
        &keys[0]
    } else {
        &empty
    };
    let last: &Vec<u8> = if n > 0 {
        &keys[n - 1]
    } else {
        &empty
    };
    push_u16_be(&mut info, (first.len() % 65536) as u16);
    push_bytes(&mut info, first.as_slice());
    info.push(0u8);
    push_u16_be(&mut info, (last.len() % 65536) as u16);
    push_bytes(&mut info, last.as_slice());
    info.push(0u8);
    push_u64_be(&mut info, compressed.len() as u64);
    push_u64_be(&mut info, block.len() as u64);
    proof {
        if n > 0 {
            assert(ks[0] == first@);
            assert(ks.last() == last@);
        } else {
            assert(first@ =~= Seq::<u8>::empty());
        }
        reveal(key_info_spec);
        assert(info@ =~= key_info_spec(ks, compressed@.len() as int, block@.len() as int));
    }
    let info_compressed = compress_block(info.as_slice(), kind);
    let mut head: Vec<u8> = Vec::new();
    push_u64_be(&mut head, 1u64);
    push_u64_be(&mut head, n as u64);
    push_u64_be(&mut head, info.len() as u64);
    push_u64_be(&mut head, info_compressed.len() as u64);
    push_u64_be(&mut head, compressed.len() as u64);
    let sum = adler32(head.as_slice());
    let mut out = head;
    push_u32_be(&mut out, sum);
    push_bytes(&mut out, info_compressed.as_slice());
    push_bytes(&mut out, compressed.as_slice());
    out
}

/// Record blocks are cut to this size before compressing.
pub const RECORD_BLOCK_SIZE: usize = 4194304;

/// The blocks `records` is cut into: `RECORD_BLOCK_SIZE` bytes each, the last
/// one shorter.
pub open spec fn record_chunks(records: Seq<u8>) -> Seq<Seq<u8>>
    decreases records.len(),
{
    if records.len() == 0 {
        Seq::empty()
    } else if records.len() <= RECORD_BLOCK_SIZE {
        seq![records]
    } else {
        seq![records.subrange(0, RECORD_BLOCK_SIZE as int)] + record_chunks(
            records.skip(RECORD_BLOCK_SIZE as int),
        )
    }
}

/// The concatenation of byte sequences.
pub open spec fn concat_bytes(parts: Seq<Seq<u8>>) -> Seq<u8>
    decreases parts.len(),
{
    if parts.len() == 0 {
        Seq::empty()
    } else {
        concat_bytes(parts.drop_last()) + parts.last()
    }
}

/// The descriptors of the record blocks: compressed then plain size of each.
pub open spec fn record_descs_bytes(plain: Seq<Seq<u8>>, compressed: Seq<Seq<u8>>) -> Seq<u8>
    decreases plain.len(),
{
    if plain.len() == 0 || compressed.len() != plain.len() {
        Seq::empty()
    } else {
        record_descs_bytes(plain.drop_last(), compressed.drop_last()) + be64_bytes(
            compressed.last().len() as int,
        ) + be64_bytes(plain.last().len() as int)
    }
}

/// Whether, with zlib, inflating gives back each record block that was deflated.
pub open spec fn record_section_undone(records: Seq<u8>, kind: CompressionKind) -> bool {
    kind == CompressionKind::Zip ==> forall|i: int|
        0 <= i < record_chunks(records).len() ==> deflate_undone(#[trigger] record_chunks(records)[i])
}

/// The record section: the block count, the record count, the descriptors'
/// size and the blocks' total size (u64 each), the descriptors, the blocks.
pub open spec fn record_section_bytes(records: Seq<u8>, count: int, kind: CompressionKind) -> Seq<u8> {
    let plain = record_chunks(records);
    let compressed = plain.map_values(|b: Seq<u8>| compress_spec(b, kind));
    be64_bytes(plain.len() as int) + be64_bytes(count) + be64_bytes((plain.len() * 16) as int) + be64_bytes(
        concat_bytes(compressed).len() as int,
    ) + record_descs_bytes(plain, compressed) + concat_bytes(compressed)
}

proof fn lemma_record_chunks_step(records: Seq<u8>)
    requires
        records.len() > RECORD_BLOCK_SIZE,
    ensures
        record_chunks(records) == seq![records.subrange(0, RECORD_BLOCK_SIZE as int)] + record_chunks(
            records.skip(RECORD_BLOCK_SIZE as int),
        ),
{
}

/// Writes the record section of `records` (the records of `count` keys).
pub fn write_record_section(records: &[u8], count: usize, kind: CompressionKind) -> (r: Vec<u8>)
    requires
        kind != CompressionKind::Lzo,
    ensures
        r@ == record_section_bytes(records@, count as int, kind),
        record_section_undone(records@, kind),
{
    let ghost plain_all = record_chunks(records@);
    let mut plain: Vec<Vec<u8>> = Vec::new();
    let mut compressed: Vec<Vec<u8>> = Vec::new();
    let mut start: usize = 0;
    assert(records@.skip(0) =~= records@);
    while start < records.len()
        invariant
            kind != CompressionKind::Lzo,
            start <= records@.len(),
            plain@.len() == compressed@.len(),
            start == plain@.len() * RECORD_BLOCK_SIZE || start == records@.len(),
            plain@.len() == 0 || (plain@.len() - 1) * RECORD_BLOCK_SIZE < start,
            plain_all == bytes_views(plain@) + record_chunks(records@.skip(start as int)),
            forall|i: int| 0 <= i < compressed@.len() ==> #[trigger] compressed@[i]@ == compress_spec(
                plain@[i]@,
                kind,
            ),
            kind == CompressionKind::Zip ==> forall|i: int| 0 <= i < plain@.len() ==> deflate_undone(
                #[trigger] plain@[i]@,
            ),
        decreases records@.len() - start,
    {
        let ghost rest = records@.skip(start as int);
        let end = if records.len() - start > RECORD_BLOCK_SIZE {
            start + RECORD_BLOCK_SIZE
        } else {
            records.len()
        };
        let mut chunk: Vec<u8> = Vec::new();
        for i in start..end
            invariant
                start <= end <= records@.len(),
                chunk@ == records@.subrange(start as int, i as int),
        {
            chunk.push(records[i]);
            assert(chunk@ =~= records@.subrange(start as int, i + 1));
        }
        let c = compress_block(chunk.as_slice(), kind);
        proof {
            if rest.len() > RECORD_BLOCK_SIZE {
                lemma_record_chunks_step(rest);
                assert(rest.subrange(0, RECORD_BLOCK_SIZE as int) =~= chunk@);
                assert(rest.skip(RECORD_BLOCK_SIZE as int) =~= records@.skip(end as int));
            } else {
                assert(rest =~= chunk@);
                assert(record_chunks(rest) == seq![rest]);
                assert(records@.skip(end as int) =~= Seq::<u8>::empty());
                assert(record_chunks(records@.skip(end as int)) =~= Seq::<Seq<u8>>::empty());
            }
        }
        let ghost prev_plain = plain@;
        plain.push(chunk);
        compressed.push(c);
        proof {
            assert(bytes_views(plain@) =~= bytes_views(prev_plain).push(chunk@));
            assert(plain_all =~= bytes_views(plain@) + record_chunks(records@.skip(end as int)));
        }
        start = end;
    }
    assert(records@.skip(start as int) =~= Seq::<u8>::empty());
    assert(bytes_views(plain@) =~= plain_all);
    assert(record_section_undone(records@, kind)) by {
        if kind == CompressionKind::Zip {
            assert forall|i: int| 0 <= i < plain_all.len() implies deflate_undone(#[trigger] plain_all[i]) by {
                assert(plain_all[i] == plain@[i]@);
            }
        }
    }
    let ghost comp_all = plain_all.map_values(|b: Seq<u8>| compress_spec(b, kind));
    assert(bytes_views(compressed@) =~= comp_all);
    let nb = plain.len();
    assert(nb * 16 <= usize::MAX) by {
        assert(nb == 0 || (nb - 1) * RECORD_BLOCK_SIZE < records@.len());
    }
    let mut descs: Vec<u8> = Vec::new();
    let mut blocks: Vec<u8> = Vec::new();
    for i in 0..nb
        invariant
            nb == plain@.len(),
            nb == compressed@.len(),
            bytes_views(plain@) == plain_all,
            bytes_views(compressed@) == comp_all,
            descs@ == record_descs_bytes(plain_all.subrange(0, i as int), comp_all.subrange(0, i as int)),
            blocks@ == concat_bytes(comp_all.subrange(0, i as int)),
    {
        push_u64_be(&mut descs, compressed[i].len() as u64);
        push_u64_be(&mut descs, plain[i].len() as u64);
        push_bytes(&mut blocks, compressed[i].as_slice());
        proof {
            assert(plain_all.subrange(0, i + 1).drop_last() =~= plain_all.subrange(0, i as int));
            assert(comp_all.subrange(0, i + 1).drop_last() =~= comp_all.subrange(0, i as int));
            assert(plain_all[i as int] == plain@[i as int]@);
            assert(comp_all[i as int] == compressed@[i as int]@);
        }
    }
    assert(plain_all.subrange(0, nb as int) =~= plain_all);
    assert(comp_all.subrange(0, nb as int) =~= comp_all);
    let mut out: Vec<u8> = Vec::new();
    push_u64_be(&mut out, nb as u64);
    push_u64_be(&mut out, count as u64);
    push_u64_be(&mut out, (nb * 16) as u64);
    push_u64_be(&mut out, blocks.len() as u64);
    push_bytes(&mut out, descs.as_slice());
    push_bytes(&mut out, blocks.as_slice());
    out
}

/// The value written for an attribute of the header: the encoding and the
/// encryption describe the bytes written (UTF-8, none); the others are the
/// glossary's, or their defaults.
pub open spec fn header_value(info: Seq<(Seq<char>, Seq<char>)>, key: Seq<char>) -> Seq<char> {
    if key == "Encoding"@ {
        "UTF-8"@
    } else if key == "Encrypted"@ {
        "No"@
    } else {
        match info_get(info, key) {
            Some(v) => v,
            None => default_attr_spec(key),
        }
    }
}

/// One attribute as the header writes it: `key="value" `, the value escaped.
pub open spec fn attr_row(key: Seq<char>, value: Seq<char>) -> Seq<char> {
    key + "=\""@ + escape_html_spec(value) + "\" "@
}

/// The attributes of the .mdx header, one row per key.
pub open spec fn header_rows(info: Seq<(Seq<char>, Seq<char>)>, keys: Seq<Seq<char>>) -> Seq<char>
    decreases keys.len(),
{
    if keys.len() == 0 {
        Seq::empty()
    } else {
        header_rows(info, keys.drop_last()) + attr_row(keys.last(), header_value(info, keys.last()))
    }
}

/// The keys of [`ATTR_ORDER`].
pub open spec fn attr_keys() -> Seq<Seq<char>> {
    ATTR_ORDER@.map_values(|k: &str| k@)
}

/// The xml of the .mdx header, with its closing line break and NUL.
pub open spec fn header_xml(info: Seq<(Seq<char>, Seq<char>)>) -> Seq<char> {
    "<Dictionary "@ + header_rows(info, attr_keys()) + "/>\r\n\0"@
}

/// A header as the file holds it: its UTF-16LE byte length (big-endian u32),
/// the bytes, and their adler32 (little-endian).
pub open spec fn framed_header(xml: Seq<char>) -> Seq<u8> {
    let raw = units_le_bytes(utf16_units(xml));
    be32_bytes(raw.len() as int) + raw + le32_bytes(adler32_spec(raw))
}

fn push_attr_row(out: &mut Vec<char>, key: &str, value: &str)
    ensures
        final(out)@ == old(out)@ + attr_row(key@, value@),
{
    let ghost start = out@;
    push_str(out, key);
    push_str(out, "=\"");
    let escaped = escape_html(value);
    push_str(out, escaped.as_str());
    push_str(out, "\" ");
    assert(out@ =~= start + attr_row(key@, value@));
}

/// Frames the header text: UTF-16LE, with its length in front and its
/// adler32 behind; `TooLarge` where the length does not fit in a u32.
pub fn frame_header(xml: &[char]) -> (r: Result<Vec<u8>, MdictError>)
    ensures
        match r {
            Ok(bytes) => bytes@ == framed_header(xml@),
            Err(e) => e == MdictError::TooLarge && units_le_bytes(utf16_units(xml@)).len()
                > u32::MAX,
        },
{
    let units = encode_utf16(xml);
    let mut raw: Vec<u8> = Vec::new();
    push_units_le(&mut raw, units.as_slice());
    assert(raw@ =~= units_le_bytes(utf16_units(xml@)));
    if raw.len() > 0xFFFF_FFFF {
        return Err(MdictError::TooLarge);
    }
    let sum = adler32(raw.as_slice());
    let mut out: Vec<u8> = Vec::new();
    push_u32_be(&mut out, raw.len() as u32);
    push_bytes(&mut out, raw.as_slice());
    push_u32_le(&mut out, sum);
    Ok(out)
}

/// The header of an .mdx: every attribute of [`ATTR_ORDER`], from the
/// glossary's info or its default, framed.
pub fn write_header(info: &GlossaryInfo) -> (r: Result<Vec<u8>, MdictError>)
    requires
        info.wf(),
    ensures
        match r {
            Ok(bytes) => bytes@ == framed_header(header_xml(info@)),
            Err(e) => e == MdictError::TooLarge && units_le_bytes(
                utf16_units(header_xml(info@)),
            ).len() > u32::MAX,
        },
{
    let mut xml: Vec<char> = Vec::new();
    push_str(&mut xml, "<Dictionary ");
    let ghost start = xml@;
    let ghost keys = attr_keys();
    for i in 0..16
        invariant
            info.wf(),
            keys == attr_keys(),
            keys.len() == 16,
            xml@ == start + header_rows(info@, keys.take(i as int)),
    {
        let key: &str = ATTR_ORDER[i];
        assert(key@ == keys[i as int]);
        let value: &str = if str_eq(key, "Encoding") {
            "UTF-8"
        } else if str_eq(key, "Encrypted") {
            "No"
        } else {
            match info.get(key) {
                Some(v) => v,
                None => default_attr(key),
            }
        };
        assert(value@ == header_value(info@, key@));
        push_attr_row(&mut xml, key, value);
        assert(keys.take(i + 1).drop_last() =~= keys.take(i as int));
    }
    assert(keys.take(16) =~= keys);
    push_str(&mut xml, "/>\r\n\0");
    assert(xml@ =~= header_xml(info@));
    frame_header(xml.as_slice())
}

/// The attributes of an .mdd header, in order, with the values written
/// (the title is the dictionary's).
pub const MDD_ATTR_ORDER: [(&'static str, &'static str); 10] = [
    ("GeneratedByEngineVersion", "2.0"),
    ("RequiredEngineVersion", "2.0"),
    ("Format", ""),
    ("KeyCaseSensitive", "No"),
    ("StripKey", "No"),
    ("Encrypted", "No"),
    ("RegisterBy", ""),
    ("Title", ""),
    ("Encoding", ""),
    ("CreationDate", ""),
];

/// The attributes of the .mdd header, one row per pair, `Title` given `title`.
pub open spec fn mdd_rows(pairs: Seq<(&str, &str)>, title: Seq<char>) -> Seq<char>
    decreases pairs.len(),
{
    if pairs.len() == 0 {
        Seq::empty()
    } else {
        let (k, v) = pairs.last();
        mdd_rows(pairs.drop_last(), title) + attr_row(
            k@,
            if k@ == "Title"@ {
                title
            } else {
                v@
            },
        )
    }
}

/// The xml of the .mdd header.
pub open spec fn mdd_header_xml(title: Seq<char>) -> Seq<char> {
    "<Library_Data "@ + mdd_rows(MDD_ATTR_ORDER@, title) + "/>\r\n\0"@
}

/// How a resource is keyed: its path with `\` for `/`, behind a `\`, in UTF-16.
pub open spec fn resource_key_spec(name: Seq<char>) -> Seq<u16> {
    utf16_units("\\"@ + replace_spec(name, "/"@, "\\"@))
}

/// The key of a resource: `apple.png` is `\apple.png`, the way a definition's
/// `src` resolves.
pub fn resource_key(name: &str) -> (r: Vec<u16>)
    ensures
        r@ == resource_key_spec(name@),
{
    proof {
        reveal_strlit("/");
    }
    let replaced = replace_all(name, "/", "\\");
    let mut cs: Vec<char> = Vec::new();
    push_str(&mut cs, "\\");
    push_str(&mut cs, replaced.as_str());
    encode_utf16(cs.as_slice())
}

/// The total size of the data entries' bytes.
pub open spec fn total_size(entries: Seq<DataEntry>) -> int
    decreases entries.len(),
{
    if entries.len() == 0 {
        0
    } else {
        total_size(entries.drop_last()) + entries.last().spec_bytes().len()
    }
}

/// The data entries' bytes, one after another.
pub open spec fn all_bytes(entries: Seq<DataEntry>) -> Seq<u8>
    decreases entries.len(),
{
    if entries.len() == 0 {
        Seq::empty()
    } else {
        all_bytes(entries.drop_last()) + entries.last().spec_bytes()
    }
}

/// The .mdd key block: for each resource, where its bytes start (big-endian
/// u64), its key in UTF-16LE and a two-byte NUL.
pub open spec fn mdd_key_block(entries: Seq<DataEntry>) -> Seq<u8>
    decreases entries.len(),
{
    if entries.len() == 0 {
        Seq::empty()
    } else {
        mdd_key_block(entries.drop_last()) + be64_bytes(total_size(entries.drop_last()))
            + units_le_bytes(resource_key_spec(entries.last().spec_fname())) + seq![0u8, 0u8]
    }
}

/// A key in the .mdd key block info: its length in units (u16), its UTF-16LE
/// bytes and a two-byte NUL.
pub open spec fn mdd_info_key(key: Seq<u16>) -> Seq<u8> {
    be16_bytes((key.len() % 65536) as int) + units_le_bytes(key) + seq![0u8, 0u8]
}

/// The .mdd key block info: the resource count, the first and last keys,
/// the compressed and plain sizes of the key block.
pub open spec fn mdd_key_info(entries: Seq<DataEntry>, compressed_len: int, plain_len: int) -> Seq<
    u8,
> {
    let first = if entries.len() > 0 {
        resource_key_spec(entries[0].spec_fname())
    } else {
        Seq::empty()
    };
    let last = if entries.len() > 0 {
        resource_key_spec(entries.last().spec_fname())
    } else {
        Seq::empty()
    };
    be64_bytes(entries.len() as int) + mdd_info_key(first) + mdd_info_key(last) + be64_bytes(
        compressed_len,
    ) + be64_bytes(plain_len)
}

/// Whether, with zlib, inflating gives back the three blocks of an .mdd that
/// were deflated: the key block, its info and the resources' bytes.
pub open spec fn mdd_undone(entries: Seq<DataEntry>, kind: CompressionKind) -> bool {
    let block = mdd_key_block(entries);
    let info = mdd_key_info(entries, compress_spec(block, kind).len() as int, block.len() as int);
    kind == CompressionKind::Zip ==> deflate_undone(block) && deflate_undone(info) && deflate_undone(
        all_bytes(entries),
    )
}

/// An .mdd file: its header, its key section (one block), its record
/// section (one block holding every resource's bytes).
pub open spec fn mdd_spec(title: Seq<char>, entries: Seq<DataEntry>, kind: CompressionKind) -> Seq<
    u8,
> {
    let block = mdd_key_block(entries);
    let compressed = compress_spec(block, kind);
    let info = mdd_key_info(entries, compressed.len() as int, block.len() as int);
    let info_compressed = compress_spec(info, kind);
    let head = be64_bytes(1) + be64_bytes(entries.len() as int) + be64_bytes(info.len() as int)
        + be64_bytes(info_compressed.len() as int) + be64_bytes(compressed.len() as int);
    let records = all_bytes(entries);
    let records_compressed = compress_spec(records, kind);
    framed_header(mdd_header_xml(title)) + head + be32_bytes(adler32_spec(head)) + info_compressed
        + compressed + be64_bytes(1) + be64_bytes(entries.len() as int) + be64_bytes(16) + be64_bytes(
        records_compressed.len() as int,
    ) + be64_bytes(records_compressed.len() as int) + be64_bytes(records.len() as int)
        + records_compressed
}

fn push_info_key(out: &mut Vec<u8>, key: &[u16])
    ensures
        final(out)@ == old(out)@ + mdd_info_key(key@),
{
    let ghost start = out@;
    push_u16_be(out, (key.len() % 65536) as u16);
    push_units_le(out, key);
    out.push(0u8);
    out.push(0u8);
    assert(out@ =~= start + mdd_info_key(key@));
}

/// The .mdd of the resources `entries`, titled `title`; `TooLarge` where a
/// size does not fit the format's fields.
pub fn write_mdd(title: &str, entries: &[DataEntry], kind: CompressionKind) -> (r: Result<
    Vec<u8>,
    MdictError,
>)
    requires
        kind != CompressionKind::Lzo,
    ensures
        match r {
            Ok(bytes) => bytes@ == mdd_spec(title@, entries@, kind) && mdd_undone(entries@, kind),
            Err(e) => e == MdictError::TooLarge && (units_le_bytes(
                utf16_units(mdd_header_xml(title@)),
            ).len() > u32::MAX || total_size(entries@) > u64::MAX),
        },
{
    let mut xml: Vec<char> = Vec::new();
    push_str(&mut xml, "<Library_Data ");
    let ghost start = xml@;
    let ghost pairs = MDD_ATTR_ORDER@;
    for i in 0..10
        invariant
            pairs == MDD_ATTR_ORDER@,
            pairs.len() == 10,
            xml@ == start + mdd_rows(pairs.take(i as int), title@),
    {
        let (key, default) = MDD_ATTR_ORDER[i];
        let value: &str = if str_eq(key, "Title") {
            title
        } else {
            default
        };
        push_attr_row(&mut xml, key, value);
        assert(pairs.take(i + 1).drop_last() =~= pairs.take(i as int));
    }
    assert(pairs.take(10) =~= pairs);
    push_str(&mut xml, "/>\r\n\0");
    assert(xml@ =~= mdd_header_xml(title@));
    let mut out = match frame_header(xml.as_slice()) {
        Ok(h) => h,
        Err(e) => {
            return Err(e);
        },
    };
    let n = entries.len();
    let mut block: Vec<u8> = Vec::new();
    let mut records: Vec<u8> = Vec::new();
    let mut offset: u64 = 0;
    let mut first: Vec<u16> = Vec::new();
    let mut last: Vec<u16> = Vec::new();
    for i in 0..n
        invariant
            n == entries@.len(),
            offset == total_size(entries@.take(i as int)),
            block@ == mdd_key_block(entries@.take(i as int)),
            records@ == all_bytes(entries@.take(i as int)),
            records@.len() == total_size(entries@.take(i as int)),
            i == 0 ==> first@.len() == 0 && last@.len() == 0,
            i > 0 ==> first@ == resource_key_spec(entries@[0].spec_fname()),
            i > 0 ==> last@ == resource_key_spec(entries@[i - 1].spec_fname()),
    {
        let e = &entries[i];
        let key = resource_key(e.fname());
        push_u64_be(&mut block, offset);
        push_units_le(&mut block, key.as_slice());
        block.push(0u8);
        block.push(0u8);
        let bytes = e.bytes();
        push_bytes(&mut records, bytes);
        proof {
            let sub = entries@.take(i + 1);
            assert(sub.drop_last() =~= entries@.take(i as int));
            assert(sub.last() == entries@[i as int]);
            assert(block@ =~= mdd_key_block(sub));
        }
        if i == 0 {
            first = key.clone();
        }
        let size = bytes.len() as u64;
        if offset > u64::MAX - size {
            proof {
                lemma_total_size_grows(entries@, i + 1);
            }
            return Err(MdictError::TooLarge);
        }
        offset = offset + size;
        last = key;
    }
    assert(entries@.take(n as int) =~= entries@);
    let compressed = compress_block(block.as_slice(), kind);
    let mut info: Vec<u8> = Vec::new();
    push_u64_be(&mut info, n as u64);
    push_info_key(&mut info, first.as_slice());
    push_info_key(&mut info, last.as_slice());
    push_u64_be(&mut info, compressed.len() as u64);
    push_u64_be(&mut info, block.len() as u64);
    proof {
        if n == 0 {
            assert(first@ =~= Seq::<u16>::empty());
            assert(last@ =~= Seq::<u16>::empty());
        }
        assert(info@ =~= mdd_key_info(entries@, compressed@.len() as int, block@.len() as int));
    }
    let info_compressed = compress_block(info.as_slice(), kind);
    let mut head: Vec<u8> = Vec::new();
    push_u64_be(&mut head, 1u64);
    push_u64_be(&mut head, n as u64);
    push_u64_be(&mut head, info.len() as u64);
    push_u64_be(&mut head, info_compressed.len() as u64);
    push_u64_be(&mut head, compressed.len() as u64);
    let sum = adler32(head.as_slice());
    push_bytes(&mut out, head.as_slice());
    push_u32_be(&mut out, sum);
    push_bytes(&mut out, info_compressed.as_slice());
    push_bytes(&mut out, compressed.as_slice());
    let records_compressed = compress_block(records.as_slice(), kind);
    push_u64_be(&mut out, 1u64);
    push_u64_be(&mut out, n as u64);
    push_u64_be(&mut out, 16u64);
    push_u64_be(&mut out, records_compressed.len() as u64);
    push_u64_be(&mut out, records_compressed.len() as u64);
    push_u64_be(&mut out, records.len() as u64);
    push_bytes(&mut out, records_compressed.as_slice());
    assert(out@ =~= mdd_spec(title@, entries@, kind));
    assert(mdd_undone(entries@, kind));
    Ok(out)
}

proof fn lemma_total_size_grows(entries: Seq<DataEntry>, k: int)
    requires
        0 <= k <= entries.len(),
    ensures
        total_size(entries.take(k)) <= total_size(entries),
    decreases entries.len(),
{
    if k < entries.len() {
        assert(entries.drop_last().take(k) =~= entries.take(k));
        lemma_total_size_grows(entries.drop_last(), k);
    } else {
        assert(entries.take(k) =~= entries);
    }
}

/// A key of the .mdx, and what it points at: the entry `entry`, or, with the
/// index of one of its alts, a link from that alt to the entry's headword.
#[derive(Debug, Clone, Copy, PartialEq, Eq)]
pub struct KeyRef {
    pub entry: usize,
    pub alt: Option<usize>,
}

/// The keys of entry `e`: a link for each of its alts, then the entry itself.
pub open spec fn entry_refs(entries: Seq<Entry>, e: int) -> Seq<KeyRef> {
    Seq::new(entries[e]@.alts.len(), |a: int| KeyRef { entry: e as usize, alt: Some(a as usize) }).push(
        KeyRef { entry: e as usize, alt: None },
    )
}

/// The keys of the first `k` entries, in the entries' order.
pub open spec fn key_refs(entries: Seq<Entry>, k: int) -> Seq<KeyRef>
    decreases k,
{
    if k <= 0 {
        Seq::empty()
    } else {
        key_refs(entries, k - 1) + entry_refs(entries, k - 1)
    }
}

/// The headword a key stands for.
pub open spec fn ref_term(entries: Seq<Entry>, r: KeyRef) -> Seq<char> {
    match r.alt {
        Some(a) => entries[r.entry as int]@.alts[a as int].term,
        None => entries[r.entry as int]@.term,
    }
}

/// How many characters `s` starts with that are not alphanumeric.
pub open spec fn non_alnum_prefix(s: Seq<char>) -> int
    decreases s.len(),
{
    if s.len() == 0 || is_unicode_alphanumeric(s[0]) {
        0
    } else {
        1 + non_alnum_prefix(s.skip(1))
    }
}

/// What keys are sorted by: the headword from its first alphanumeric
/// character on, lowercased.
pub open spec fn sort_key_spec(term: Seq<char>) -> Seq<char> {
    is_unicode_lowercase_of(term.skip(non_alnum_prefix(term)))
}

/// The sort keys of all the keys of a glossary's entries.
pub open spec fn ref_sort_keys(entries: Seq<Entry>) -> Seq<Seq<char>> {
    key_refs(entries, entries.len() as int).map_values(|r: KeyRef| sort_key_spec(ref_term(entries, r)))
}

/// Whether `p` orders the keys of the entries: a permutation of their
/// indices, stably sorted by sort key.
pub open spec fn valid_order(entries: Seq<Entry>, p: Seq<usize>) -> bool {
    &&& p.to_multiset() == identity(key_refs(entries, entries.len() as int).len()).to_multiset()
    &&& sorted_by(ref_sort_keys(entries), p)
    &&& in_range(ref_sort_keys(entries), p)
}

/// The keys in the order `p`.
pub open spec fn ordered_refs(entries: Seq<Entry>, p: Seq<usize>) -> Seq<KeyRef> {
    p.map_values(|i: usize| key_refs(entries, entries.len() as int)[i as int])
}

fn sort_key(term: &str) -> (r: Vec<char>)
    ensures
        r@ == sort_key_spec(term@),
{
    let cs = chars_of(term);
    let mut i: usize = 0;
    assert(cs@.skip(0) =~= cs@);
    while i < cs.len() && !char_is_alphanumeric(cs[i])
        invariant
            i <= cs@.len(),
            cs@ == term@,
            non_alnum_prefix(term@) == i + non_alnum_prefix(cs@.skip(i as int)),
        decreases cs@.len() - i,
    {
        assert(cs@.skip(i as int)[0] == cs@[i as int]);
        assert(cs@.skip(i as int).skip(1) =~= cs@.skip(i + 1));
        i = i + 1;
    }
    if i < cs.len() {
        assert(cs@.skip(i as int)[0] == cs@[i as int]);
    }
    let rest = slice_to_vec(&cs, i, cs.len());
    assert(rest@ =~= term@.skip(non_alnum_prefix(term@)));
    let rest_str = string_of(&rest);
    let lower = to_lowercase(rest_str.as_str());
    chars_of(lower.as_str())
}

/// The keys of the glossary, a link for each alt before its entry, sorted
/// stably by their headwords from the first alphanumeric character on, lowercased.
pub fn collect_keys(glossary: &Glossary) -> (r: Vec<KeyRef>)
    ensures
        exists|p: Seq<usize>|
            valid_order(glossary.entries@, p) && r@ == ordered_refs(glossary.entries@, p),
        refs_ok(glossary.entries@, r@),
{
    let ghost es = glossary.entries@;
    let n = glossary.entries.len();
    let mut refs: Vec<KeyRef> = Vec::new();
    let mut keys: Vec<Vec<char>> = Vec::new();
    for e in 0..n
        invariant
            n == es.len(),
            es == glossary.entries@,
            refs@ == key_refs(es, e as int),
            refs_ok(es, refs@),
            keys@.len() == refs@.len(),
            forall|j: int| 0 <= j < keys@.len() ==> #[trigger] keys@[j]@ == sort_key_spec(ref_term(es, refs@[j])),
    {
        let entry = &glossary.entries[e];
        let alts = entry.alts();
        let m = alts.len();
        let ghost before = refs@;
        for a in 0..m
            invariant
                n == es.len(),
                es == glossary.entries@,
                e < n,
                m == alts@.len(),
                alts_view(alts@) == es[e as int]@.alts,
                refs@ == before + Seq::new(a as nat, |x: int| KeyRef { entry: e, alt: Some(x as usize) }),
                refs_ok(es, refs@),
                keys@.len() == refs@.len(),
                forall|j: int| 0 <= j < keys@.len() ==> #[trigger] keys@[j]@ == sort_key_spec(ref_term(es, refs@[j])),
        {
            let k = sort_key(alts[a].term());
            refs.push(KeyRef { entry: e, alt: Some(a) });
            keys.push(k);
            assert(refs@ =~= before + Seq::new((a + 1) as nat, |x: int| KeyRef { entry: e, alt: Some(x as usize) }));
            assert(alts_view(alts@)[a as int] == alts@[a as int]@);
        }
        let k = sort_key(entry.term());
        refs.push(KeyRef { entry: e, alt: None });
        keys.push(k);
        assert(refs@ =~= key_refs(es, e + 1));
    }
    let ghost all = key_refs(es, n as int);
    assert(key_views(keys@) =~= ref_sort_keys(es));
    let p = sorted_order(&keys);
    let mut out: Vec<KeyRef> = Vec::new();
    let len = p.len();
    for i in 0..len
        invariant
            len == p@.len(),
            refs@ == all,
            in_range(key_views(keys@), p@),
            keys@.len() == refs@.len(),
            refs_ok(es, refs@),
            refs_ok(es, out@),
            out@ == p@.take(i as int).map_values(|j: usize| all[j as int]),
    {
        assert(p@[i as int] < keys@.len());
        let ghost old_out = out@;
        out.push(refs[p[i]]);
        assert(out@ =~= p@.take(i + 1).map_values(|j: usize| all[j as int]));
        assert forall|j: int| 0 <= j < out@.len() implies (#[trigger] out@[j]).entry < es.len() && match out@[j].alt {
            Some(a) => a < es[out@[j].entry as int]@.alts.len(),
            None => true,
        } by {
            if j < old_out.len() {
                assert(out@[j] == old_out[j]);
            } else {
                assert(out@[j] == refs@[p@[i as int] as int]);
            }
        }
    }
    assert(p@.take(len as int) =~= p@);
    assert(valid_order(es, p@));
    out
}

/// The record of a key: a link to the entry's headword for an alt, the
/// entry's html otherwise; utf-8, NUL-terminated.
pub open spec fn record_of(entries: Seq<Entry>, links: Seq<char>, bank: Seq<TagBankEntry>, r: KeyRef) -> Seq<u8> {
    match r.alt {
        Some(_) => utf8_of("@@@LINK="@) + utf8_of(entries[r.entry as int]@.term) + seq![0u8],
        None => utf8_of(links + definition_to_html(*entries[r.entry as int].spec_definition(), bank))
            + seq![0u8],
    }
}

/// The records of the keys, one after another.
pub open spec fn records_of(entries: Seq<Entry>, links: Seq<char>, bank: Seq<TagBankEntry>, keys: Seq<KeyRef>) -> Seq<u8>
    decreases keys.len(),
{
    if keys.len() == 0 {
        Seq::empty()
    } else {
        records_of(entries, links, bank, keys.drop_last()) + record_of(entries, links, bank, keys.last())
    }
}

/// The key refs that point into `entries`.
pub open spec fn refs_ok(entries: Seq<Entry>, keys: Seq<KeyRef>) -> bool {
    forall|i: int|
        0 <= i < keys.len() ==> (#[trigger] keys[i]).entry < entries.len() && match keys[i].alt {
            Some(a) => a < entries[keys[i].entry as int]@.alts.len(),
            None => true,
        }
}

/// The records of the keys (rendered with `converter`), and where each
/// starts in them.
pub fn render_records(glossary: &Glossary, converter: &HtmlConverter, keys: &[KeyRef]) -> (r: (
    Vec<u8>,
    Vec<u64>,
))
    requires
        all_renderable(glossary.entries@),
        refs_ok(glossary.entries@, keys@),
    ensures
        r.0@ == records_of(
            glossary.entries@,
            links_html(converter.css_files@),
            bank_or_empty(converter.tag_bank),
            keys@,
        ),
        r.1@.len() == keys@.len(),
        forall|i: int|
            0 <= i < keys@.len() ==> #[trigger] r.1@[i] == records_of(
                glossary.entries@,
                links_html(converter.css_files@),
                bank_or_empty(converter.tag_bank),
                keys@.take(i),
            ).len(),
{
    let ghost es = glossary.entries@;
    let ghost links = links_html(converter.css_files@);
    let ghost bank = bank_or_empty(converter.tag_bank);
    let mut records: Vec<u8> = Vec::new();
    let mut offsets: Vec<u64> = Vec::new();
    let n = keys.len();
    for i in 0..n
        invariant
            n == keys@.len(),
            es == glossary.entries@,
            links == links_html(converter.css_files@),
            bank == bank_or_empty(converter.tag_bank),
            all_renderable(es),
            refs_ok(es, keys@),
            records@ == records_of(es, links, bank, keys@.take(i as int)),
            offsets@.len() == i,
            forall|j: int| 0 <= j < i ==> #[trigger] offsets@[j] == records_of(es, links, bank, keys@.take(j)).len(),
    {
        offsets.push(records.len() as u64);
        let k = keys[i];
        let entry = &glossary.entries[k.entry];
        match k.alt {
            Some(_) => {
                let link = bytes_of("@@@LINK=");
                push_bytes(&mut records, link.as_slice());
                push_bytes(&mut records, entry.b_term());
            },
            None => {
                assert(renderable(*es[k.entry as int].spec_definition()));
                let html = converter.convert(entry.definition());
                let b = bytes_of(html.as_str());
                push_bytes(&mut records, b.as_slice());
            },
        }
        records.push(0u8);
        proof {
            assert(keys@.take(i + 1).drop_last() =~= keys@.take(i as int));
            assert(keys@.take(i + 1).last() == k);
        }
        assert(records@ =~= records_of(es, links, bank, keys@.take(i + 1)));
    }
    assert(keys@.take(n as int) =~= keys@);
    (records, offsets)
}

/// Each key's record offset.
pub open spec fn record_offsets(entries: Seq<Entry>, links: Seq<char>, bank: Seq<TagBankEntry>, keys: Seq<KeyRef>) -> Seq<u64> {
    Seq::new(keys.len(), |i: int| records_of(entries, links, bank, keys.take(i)).len() as u64)
}

/// The utf-8 bytes of each key's headword.
pub open spec fn key_bytes(entries: Seq<Entry>, keys: Seq<KeyRef>) -> Seq<Seq<u8>> {
    keys.map_values(|r: KeyRef| utf8_of(ref_term(entries, r)))
}

/// An .mdx file, its keys in the order `p`: the header, the key section, the
/// record section.
pub open spec fn mdx_spec(g: Glossary, p: Seq<usize>, kind: CompressionKind) -> Seq<u8> {
    let es = g.entries@;
    let keys = ordered_refs(es, p);
    let links = glossary_links(g);
    let bank = glossary_bank(g);
    framed_header(header_xml(g.info@)) + key_section_bytes(
        key_bytes(es, keys),
        record_offsets(es, links, bank, keys),
        kind,
    ) + record_section_bytes(records_of(es, links, bank, keys), keys.len() as int, kind)
}

/// Whether, with zlib, inflating gives back every block of the .mdx that was
/// deflated.
pub open spec fn mdx_undone(g: Glossary, p: Seq<usize>, kind: CompressionKind) -> bool {
    let es = g.entries@;
    let keys = ordered_refs(es, p);
    let links = glossary_links(g);
    let bank = glossary_bank(g);
    &&& key_section_undone(key_bytes(es, keys), record_offsets(es, links, bank, keys), kind)
    &&& record_section_undone(records_of(es, links, bank, keys), kind)
}

/// The .mdx of a glossary and, where it has data entries, the .mdd holding
/// them, titled by the stem of `path`; `TooLarge` where a header or the
/// resources do not fit the format's size fields.
pub fn write_mdx(glossary: &Glossary, path: &str, kind: CompressionKind) -> (r: Result<
    (Vec<u8>, Option<Vec<u8>>),
    MdictError,
>)
    requires
        kind != CompressionKind::Lzo,
        glossary.info.wf(),
        all_renderable(glossary.entries@),
    ensures
        match r {
            Ok((mdx, mdd)) => {
                &&& exists|p: Seq<usize>|
                    valid_order(glossary.entries@, p) && mdx@ == mdx_spec(*glossary, p, kind) && mdx_undone(
                        *glossary,
                        p,
                        kind,
                    )
                &&& mdd is Some <==> glossary.data_entries@.len() > 0
                &&& mdd matches Some(b) ==> b@ == mdd_spec(
                    match path_stem(path@) {
                        Some(t) => t,
                        None => Seq::empty(),
                    },
                    glossary.data_entries@,
                    kind,
                ) && mdd_undone(glossary.data_entries@, kind)
            },
            Err(e) => e == MdictError::TooLarge,
        },
{
    let header = match write_header(&glossary.info) {
        Ok(h) => h,
        Err(e) => {
            return Err(e);
        },
    };
    let keys = collect_keys(glossary);
    let ghost es = glossary.entries@;
    let ghost p = choose|p: Seq<usize>| valid_order(es, p) && keys@ == ordered_refs(es, p);
    let converter = HtmlConverter::new(glossary);
    let (records, offsets) = render_records(glossary, &converter, keys.as_slice());
    let ghost links = links_html(converter.css_files@);
    let ghost bank = bank_or_empty(converter.tag_bank);
    proof {
        lemma_links_of_names(converter.css_files@);
        assert(links == glossary_links(*glossary));
        assert(bank == glossary_bank(*glossary));
        assert(offsets@ =~= record_offsets(es, links, bank, keys@));
    }
    let n = keys.len();
    let mut key_bytes_v: Vec<Vec<u8>> = Vec::new();
    for i in 0..n
        invariant
            n == keys@.len(),
            es == glossary.entries@,
            refs_ok(es, keys@),
            key_bytes_v@.len() == i,
            forall|j: int| 0 <= j < i ==> #[trigger] key_bytes_v@[j]@ == utf8_of(ref_term(es, keys@[j])),
    {
        let k = keys[i];
        let entry = &glossary.entries[k.entry];
        let b = match k.alt {
            Some(a) => {
                let alts = entry.alts();
                assert(alts_view(alts@)[a as int] == alts@[a as int]@);
                bytes_of(alts[a].term())
            },
            None => bytes_of(entry.term()),
        };
        key_bytes_v.push(b);
    }
    assert(bytes_views(key_bytes_v@) =~= key_bytes(es, keys@));
    let key_section = write_key_section(key_bytes_v.as_slice(), offsets.as_slice(), kind);
    let record_section = write_record_section(records.as_slice(), n, kind);
    let mut mdx = header;
    push_bytes(&mut mdx, key_section.as_slice());
    push_bytes(&mut mdx, record_section.as_slice());
    assert(mdx@ =~= mdx_spec(*glossary, p, kind));
    assert(mdx_undone(*glossary, p, kind));
    if glossary.data_entries.len() == 0 {
        return Ok((mdx, None));
    }
    let title = match file_stem(path) {
        Some(t) => t,
        None => String::new(),
    };
    match write_mdd(title.as_str(), glossary.data_entries.as_slice(), kind) {
        Ok(mdd) => Ok((mdx, Some(mdd))),
        Err(e) => Err(e),
    }
}

} // verus!
