//! What the .mdx reader finds in the sections the writer makes.

use vstd::prelude::*;

use crate::bytes::{be16, be16_bytes, be32_bytes, be64, be64_bytes, lemma_be32_roundtrip, lemma_be64_roundtrip};
use crate::compression::{deflate_undone, zlib_deflate, zlib_inflate};
use crate::encryption::adler32_spec;
use crate::formats::mdict::reader::{
    block_keys_from, decompress_spec, decrypt_info_spec, key_block_info_from, key_block_info_record,
    key_blocks_spec, key_section_spec, lemma_nul_from, nul_from, record_blocks_spec, record_descs_spec, record_section_spec,
    take_spec,
};
use crate::formats::mdict::writer::{
    compress_spec, concat_bytes, key_block_spec, key_info_spec, key_section_bytes, record_chunks, record_descs_bytes,
    key_section_undone, record_section_bytes, record_section_undone, RECORD_BLOCK_SIZE,
};
use crate::formats::mdict::{CompressionKind, EncryptionKind};

verus! {

/// Whether a byte string holds no zero byte.
pub open spec fn no_nul(b: Seq<u8>) -> bool {
    forall|i: int| 0 <= i < b.len() ==> #[trigger] b[i] != 0
}

/// Decompressing a block gives back what was compressed.
pub proof fn lemma_decompress_compress(data: Seq<u8>, kind: CompressionKind)
    requires
        kind != CompressionKind::Lzo,
        kind == CompressionKind::Zip ==> deflate_undone(data),
    ensures
        decompress_spec(compress_spec(data, kind)) == Ok::<Seq<u8>, crate::formats::mdict::MdictError>(data),
{
    lemma_be32_roundtrip(0);
    lemma_be32_roundtrip(0x0200_0000);
    let c = compress_spec(data, kind);
    match kind {
        CompressionKind::Zip => {
            assert(c.subrange(0, 4) =~= be32_bytes(0x0200_0000));
            assert(c.skip(8) =~= zlib_deflate(data));
            assert(zlib_inflate(zlib_deflate(data)) == Some(data));
        },
        _ => {
            assert(c.subrange(0, 4) =~= be32_bytes(0));
            assert(c.skip(8) =~= data);
        },
    }
}

/// Decoding the big-endian bytes of a 16-bit value gives the value back.
pub proof fn lemma_be16_roundtrip(v: int)
    requires
        0 <= v < 65536,
    ensures
        be16_bytes(v).len() == 2,
        be16(be16_bytes(v)) == v,
{
    let b = be16_bytes(v);
    assert(b[0] == v / 256);
    assert(b[1] == v % 256);
}

/// The first zero byte from `from` is right after a run without one.
pub proof fn lemma_nul_after(s: Seq<u8>, from: int, k: int)
    requires
        0 <= from <= k < s.len(),
        s[k] == 0,
        forall|j: int| from <= j < k ==> s[j] != 0,
    ensures
        nul_from(s, from) == Some(k),
{
    lemma_nul_from(s, from);
}

/// A zero byte found in `a` is found at the same place in `a + e`.
proof fn lemma_nul_from_extend(a: Seq<u8>, e: Seq<u8>, from: int)
    requires
        0 <= from,
        nul_from(a, from) is Some,
    ensures
        nul_from(a + e, from) == nul_from(a, from),
{
    lemma_nul_from(a, from);
    let k = nul_from(a, from)->0;
    assert forall|j: int| from <= j < k implies (a + e)[j] != 0 by {
        assert((a + e)[j] == a[j]);
    }
    lemma_nul_after(a + e, from, k);
}

/// One key as the key block stores it.
pub open spec fn key_record(offset: int, key: Seq<u8>) -> Seq<u8> {
    be64_bytes(offset) + key + seq![0u8]
}

/// Parsing on from a point of `a` parses one key record more in `a + e`.
proof fn lemma_block_keys_append(a: Seq<u8>, offset: int, k: Seq<u8>, p: int)
    requires
        0 <= p <= a.len(),
        no_nul(k),
        block_keys_from(a, p, false) is Some,
    ensures
        block_keys_from(a + key_record(offset, k), p, false) == Some(
            block_keys_from(a, p, false)->0.push(k),
        ),
    decreases a.len() - p,
{
    let e = key_record(offset, k);
    let ae = a + e;
    assert(be64_bytes(offset).len() == 8);
    if p == a.len() {
        let z = (a.len() + 8 + k.len()) as int;
        let s0 = (a.len() + 8) as int;
        assert(ae[z] == 0);
        assert forall|j: int| s0 <= j < z implies ae[j] != 0 by {
            assert(ae[j] == k[j - s0]);
        }
        lemma_nul_after(ae, s0, z);
        assert(ae.subrange(s0, z) =~= k);
        assert(block_keys_from(ae, z + 1, false) == Some(Seq::<Seq<u8>>::empty()));
        assert(block_keys_from(a, p, false) == Some(Seq::<Seq<u8>>::empty()));
        assert(seq![k] + Seq::<Seq<u8>>::empty() =~= Seq::<Seq<u8>>::empty().push(k));
    } else {
        let kk = nul_from(a, p + 8)->0;
        lemma_nul_from(a, p + 8);
        lemma_nul_from_extend(a, e, p + 8);
        assert(ae.subrange(p + 8, kk) =~= a.subrange(p + 8, kk));
        lemma_block_keys_append(a, offset, k, kk + 1);
        let rest = block_keys_from(a, kk + 1, false)->0;
        assert(seq![a.subrange(p + 8, kk)] + rest.push(k) =~= (seq![a.subrange(p + 8, kk)] + rest).push(k));
    }
}

/// The key block of some keys, each as [`key_record`] writes it.
proof fn lemma_key_block_step(keys: Seq<Seq<u8>>, offsets: Seq<u64>)
    requires
        keys.len() > 0,
    ensures
        key_block_spec(keys, offsets) == key_block_spec(keys.drop_last(), offsets) + key_record(
            offsets[keys.len() - 1] as int,
            keys.last(),
        ),
{
    assert(key_block_spec(keys, offsets) =~= key_block_spec(keys.drop_last(), offsets) + key_record(
        offsets[keys.len() - 1] as int,
        keys.last(),
    ));
}

/// The keys of a key block are the keys written into it.
pub proof fn lemma_block_keys_of_key_block(keys: Seq<Seq<u8>>, offsets: Seq<u64>)
    requires
        forall|i: int| 0 <= i < keys.len() ==> no_nul(#[trigger] keys[i]),
    ensures
        block_keys_from(key_block_spec(keys, offsets), 0, false) == Some(keys),
    decreases keys.len(),
{
    if keys.len() == 0 {
        assert(key_block_spec(keys, offsets) =~= Seq::<u8>::empty());
        assert(keys =~= Seq::<Seq<u8>>::empty());
    } else {
        let init = keys.drop_last();
        assert forall|i: int| 0 <= i < init.len() implies no_nul(#[trigger] init[i]) by {
            assert(init[i] == keys[i]);
        }
        lemma_block_keys_of_key_block(init, offsets);
        lemma_key_block_step(keys, offsets);
        assert(no_nul(keys[keys.len() - 1]));
        lemma_block_keys_append(key_block_spec(init, offsets), offsets[keys.len() - 1] as int, keys.last(), 0);
        assert(init.push(keys.last()) =~= keys);
    }
}

/// The bytes of `x + y` from `i` to `j` lie in one of them.
proof fn lemma_sub_concat(x: Seq<u8>, y: Seq<u8>, i: int, j: int)
    requires
        0 <= i <= j <= x.len() + y.len(),
    ensures
        j <= x.len() ==> (x + y).subrange(i, j) == x.subrange(i, j),
        i >= x.len() ==> (x + y).subrange(i, j) == y.subrange(i - x.len(), j - x.len()),
{
    if j <= x.len() {
        assert((x + y).subrange(i, j) =~= x.subrange(i, j));
    }
    if i >= x.len() {
        assert((x + y).subrange(i, j) =~= y.subrange(i - x.len(), j - x.len()));
    }
}

/// The fields of a key block info record, where they stand.
#[verifier::rlimit(40)]
proof fn lemma_key_info_fields(keys: Seq<Seq<u8>>, c: int, b: int) -> (q3: int)
    requires
        keys.len() > 0 ==> keys[0].len() < 65536 && keys.last().len() < 65536,
    ensures
        ({
            let info = key_info_spec(keys, c, b);
            let fl = if keys.len() > 0 { keys[0].len() as int } else { 0 };
            let ll = if keys.len() > 0 { keys.last().len() as int } else { 0 };
            &&& q3 == 8 + 2 + fl + 1 + 2 + ll + 1
            &&& info.len() == q3 + 16
            &&& info.subrange(8, 10) == be16_bytes(fl)
            &&& info.subrange(8 + 2 + fl + 1, 8 + 2 + fl + 1 + 2) == be16_bytes(ll)
            &&& info.subrange(q3, q3 + 8) == be64_bytes(c)
            &&& info.subrange(q3 + 8, q3 + 16) == be64_bytes(b)
        }),
{
    reveal(key_info_spec);
    let info = key_info_spec(keys, c, b);
    let first = if keys.len() > 0 { keys[0] } else { Seq::<u8>::empty() };
    let last = if keys.len() > 0 { keys.last() } else { Seq::<u8>::empty() };
    let fl = first.len() as int;
    let ll = last.len() as int;
    assert(fl % 65536 == fl);
    assert(ll % 65536 == ll);
    let h = be64_bytes(keys.len() as int);
    let p1 = h + be16_bytes(fl);
    let m2 = first + seq![0u8] + be16_bytes(ll);
    let p2 = p1 + m2;
    let m3 = last + seq![0u8];
    let p3 = p2 + m3;
    let tail = be64_bytes(c) + be64_bytes(b);
    assert(info =~= p3 + tail);
    let q2 = 8 + 2 + fl + 1;
    let q3 = q2 + 2 + ll + 1;
    assert(p1.len() == 10);
    assert(p2.len() == q2 + 2);
    assert(p3.len() == q3);
    assert(info.subrange(8, 10) =~= be16_bytes(fl)) by {
        lemma_sub_concat(h, be16_bytes(fl), 8, 10);
        lemma_sub_concat(p1, m2, 8, 10);
        lemma_sub_concat(p2, m3, 8, 10);
        lemma_sub_concat(p3, tail, 8, 10);
        assert(be16_bytes(fl).subrange(0, 2) =~= be16_bytes(fl));
    }
    assert(info.subrange(q2, q2 + 2) =~= be16_bytes(ll)) by {
        assert(m2 =~= (first + seq![0u8]) + be16_bytes(ll));
        lemma_sub_concat(first + seq![0u8], be16_bytes(ll), q2 - 10, q2 - 8);
        lemma_sub_concat(p1, m2, q2, q2 + 2);
        lemma_sub_concat(p2, m3, q2, q2 + 2);
        lemma_sub_concat(p3, tail, q2, q2 + 2);
        assert(be16_bytes(ll).subrange(0, 2) =~= be16_bytes(ll));
    }
    assert(info.subrange(q3, q3 + 8) =~= be64_bytes(c)) by {
        lemma_sub_concat(p3, tail, q3, q3 + 8);
        lemma_sub_concat(be64_bytes(c), be64_bytes(b), 0, 8);
        assert(be64_bytes(c).subrange(0, 8) =~= be64_bytes(c));
    }
    assert(info.subrange(q3 + 8, q3 + 16) =~= be64_bytes(b)) by {
        lemma_sub_concat(p3, tail, q3 + 8, q3 + 16);
        lemma_sub_concat(be64_bytes(c), be64_bytes(b), 8, 16);
        assert(be64_bytes(b).subrange(0, 8) =~= be64_bytes(b));
    }
    q3
}

/// The key block info the writer makes for one block gives back that block's
/// sizes.
pub proof fn lemma_key_info_roundtrip(keys: Seq<Seq<u8>>, c: int, b: int)
    requires
        keys.len() > 0 ==> keys[0].len() < 65536 && keys.last().len() < 65536,
        0 <= c < 18446744073709551616,
        0 <= b < 18446744073709551616,
    ensures
        key_block_info_from(key_info_spec(keys, c, b), 0, false) == Some(seq![(c as u64, b as u64)]),
{
    let info = key_info_spec(keys, c, b);
    let fl = if keys.len() > 0 { keys[0].len() as int } else { 0 };
    let ll = if keys.len() > 0 { keys.last().len() as int } else { 0 };
    let q3 = lemma_key_info_fields(keys, c, b);
    lemma_be64_roundtrip(c);
    lemma_be64_roundtrip(b);
    lemma_be16_roundtrip(fl);
    lemma_be16_roundtrip(ll);
    assert(key_block_info_record(info, 0, false) == Some(((c as u64, b as u64), q3 + 16)));
    assert(key_block_info_from(info, q3 + 16, false) == Some(Seq::<(u64, u64)>::empty()));
    assert(seq![(c as u64, b as u64)] + Seq::<(u64, u64)>::empty() =~= seq![(c as u64, b as u64)]);
}

/// The bytes of `pre + x + post` at `pre.len() + i` to `pre.len() + j` are those
/// of `x` from `i` to `j`.
proof fn lemma_sub_mid(pre: Seq<u8>, x: Seq<u8>, post: Seq<u8>, i: int, j: int)
    requires
        0 <= i <= j <= x.len(),
    ensures
        (pre + x + post).subrange(pre.len() + i, pre.len() + j) == x.subrange(i, j),
{
    assert((pre + x + post).subrange(pre.len() + i, pre.len() + j) =~= x.subrange(i, j));
}

/// Where the fields of a key section lie: five 8-byte fields, a 4-byte sum,
/// then two runs of bytes.
proof fn lemma_section_fields(
    a: Seq<u8>,
    b: Seq<u8>,
    c: Seq<u8>,
    d: Seq<u8>,
    e: Seq<u8>,
    f: Seq<u8>,
    g: Seq<u8>,
    h: Seq<u8>,
)
    requires
        a.len() == 8,
        b.len() == 8,
        c.len() == 8,
        d.len() == 8,
        e.len() == 8,
        f.len() == 4,
    ensures
        ({
            let x = a + b + c + d + e + f + g + h;
            &&& x.len() == 44 + g.len() + h.len()
            &&& x.subrange(24, 32) == d
            &&& x.subrange(44, 44 + g.len() as int) == g
            &&& x.subrange(44 + g.len() as int, x.len() as int) == h
        }),
{
    let x = a + b + c + d + e + f + g + h;
    assert(x.subrange(24, 32) =~= d);
    assert(x.subrange(44, 44 + g.len() as int) =~= g);
    assert(x.subrange(44 + g.len() as int, x.len() as int) =~= h);
}

/// Where the key section keeps the compressed info and the compressed block.
proof fn lemma_key_section_layout(keys: Seq<Seq<u8>>, offsets: Seq<u64>, kind: CompressionKind)
    ensures
        ({
            let ks = key_section_bytes(keys, offsets, kind);
            let block = key_block_spec(keys, offsets);
            let compressed = compress_spec(block, kind);
            let info = key_info_spec(keys, compressed.len() as int, block.len() as int);
            let info_c = compress_spec(info, kind);
            &&& ks.len() == 44 + info_c.len() + compressed.len()
            &&& ks.subrange(24, 32) == be64_bytes(info_c.len() as int)
            &&& ks.subrange(44, 44 + info_c.len() as int) == info_c
            &&& ks.subrange(44 + info_c.len() as int, ks.len() as int) == compressed
        }),
{
    let block = key_block_spec(keys, offsets);
    let compressed = compress_spec(block, kind);
    let info = key_info_spec(keys, compressed.len() as int, block.len() as int);
    let info_c = compress_spec(info, kind);
    let a = be64_bytes(1);
    let b = be64_bytes(keys.len() as int);
    let c = be64_bytes(info.len() as int);
    let d = be64_bytes(info_c.len() as int);
    let e = be64_bytes(compressed.len() as int);
    let f = be32_bytes(adler32_spec(a + b + c + d + e));
    lemma_section_fields(a, b, c, d, e, f, info_c, compressed);
}

/// The key section reader, given what its parts decode to.
proof fn lemma_key_section_read(
    data: Seq<u8>,
    p: int,
    enc: EncryptionKind,
    info_c: Seq<u8>,
    compressed: Seq<u8>,
    block_len: int,
    keys: Seq<Seq<u8>>,
    end: int,
)
    requires
        0 <= p,
        end == p + 44 + info_c.len() + compressed.len(),
        p + 44 + info_c.len() + compressed.len() <= data.len(),
        info_c.len() < 18446744073709551616,
        data.subrange(p + 24, p + 32) == be64_bytes(info_c.len() as int),
        data.subrange(p + 44, p + 44 + info_c.len()) == info_c,
        data.subrange(p + 44 + info_c.len(), p + 44 + info_c.len() + compressed.len()) == compressed,
        enc != EncryptionKind::Two,
        decompress_spec(info_c) matches Ok(info) && key_block_info_from(info, 0, false) == Some(
            seq![(compressed.len() as u64, block_len as u64)],
        ),
        compressed.len() < 18446744073709551616,
        decompress_spec(compressed) matches Ok(block) && block_keys_from(block, 0, false) == Some(keys),
    ensures
        key_section_spec(data, p, enc, false) == Some((keys, end)),
{
    reveal(key_section_spec);
    lemma_be64_roundtrip(info_c.len() as int);
    let q = p + 44 + info_c.len();
    let e = q + compressed.len();
    assert(take_spec(data, p + 44, info_c.len() as int) == Some((info_c, q)));
    assert(decrypt_info_spec(info_c, enc) == info_c);
    assert(take_spec(data, q, (compressed.len() as u64) as int) == Some((compressed, e)));
    let sizes = seq![(compressed.len() as u64, block_len as u64)];
    assert(sizes.drop_first() =~= Seq::<(u64, u64)>::empty());
    assert(key_blocks_spec(data, e, sizes.drop_first(), false) == Some((Seq::<Seq<u8>>::empty(), e)));
    assert(keys + Seq::<Seq<u8>>::empty() =~= keys);
    assert(key_blocks_spec(data, q, sizes, false) == Some((keys, e)));
}

/// Reading the key section the writer makes, wherever it stands in a file,
/// gives back the keys written, and the position right after the section.
#[verifier::rlimit(100)]
#[verifier::spinoff_prover]
pub proof fn lemma_key_section_roundtrip(
    keys: Seq<Seq<u8>>,
    offsets: Seq<u64>,
    kind: CompressionKind,
    enc: EncryptionKind,
    pre: Seq<u8>,
    post: Seq<u8>,
)
    requires
        kind != CompressionKind::Lzo,
        key_section_undone(keys, offsets, kind),
        enc != EncryptionKind::Two,
        forall|i: int| 0 <= i < keys.len() ==> no_nul(#[trigger] keys[i]),
        keys.len() > 0 ==> keys[0].len() < 65536 && keys.last().len() < 65536,
        key_section_bytes(keys, offsets, kind).len() < 18446744073709551616,
        key_block_spec(keys, offsets).len() < 18446744073709551616,
    ensures
        key_section_spec(
            pre + key_section_bytes(keys, offsets, kind) + post,
            pre.len() as int,
            enc,
            false,
        ) == Some((keys, (pre.len() + key_section_bytes(keys, offsets, kind).len()) as int)),
{
    let ks = key_section_bytes(keys, offsets, kind);
    let p = pre.len() as int;
    let block = key_block_spec(keys, offsets);
    let compressed = compress_spec(block, kind);
    let info = key_info_spec(keys, compressed.len() as int, block.len() as int);
    let info_c = compress_spec(info, kind);
    lemma_key_section_layout(keys, offsets, kind);
    let il = 44 + info_c.len() as int;
    lemma_sub_mid(pre, ks, post, 24, 32);
    lemma_sub_mid(pre, ks, post, 44, il);
    lemma_sub_mid(pre, ks, post, il, ks.len() as int);
    lemma_decompress_compress(info, kind);
    lemma_key_info_roundtrip(keys, compressed.len() as int, block.len() as int);
    lemma_decompress_compress(block, kind);
    lemma_block_keys_of_key_block(keys, offsets);
    lemma_key_section_read(
        pre + ks + post,
        p,
        enc,
        info_c,
        compressed,
        block.len() as int,
        keys,
        (pre.len() + ks.len()) as int,
    );
}

/// A concatenation is its first part followed by the rest.
pub proof fn lemma_concat_front(parts: Seq<Seq<u8>>)
    requires
        parts.len() > 0,
    ensures
        concat_bytes(parts) == parts[0] + concat_bytes(parts.drop_first()),
    decreases parts.len(),
{
    if parts.len() == 1 {
        assert(parts.drop_last() =~= Seq::<Seq<u8>>::empty());
        assert(parts.drop_first() =~= Seq::<Seq<u8>>::empty());
        assert(concat_bytes(Seq::<Seq<u8>>::empty()) == Seq::<u8>::empty());
        assert(parts[0] + Seq::<u8>::empty() =~= parts[0]);
        assert(Seq::<u8>::empty() + parts[0] =~= parts[0]);
    } else {
        lemma_concat_front(parts.drop_last());
        assert(parts.drop_last().drop_first() =~= parts.drop_first().drop_last());
        assert(parts.drop_first().last() == parts.last());
        assert(parts[0] + concat_bytes(parts.drop_first()) =~= parts[0] + concat_bytes(
            parts.drop_first().drop_last(),
        ) + parts.last());
    }
}

/// The blocks a run of records is cut into make up the records again.
pub proof fn lemma_record_chunks_concat(records: Seq<u8>)
    ensures
        concat_bytes(record_chunks(records)) == records,
        forall|i: int| 0 <= i < record_chunks(records).len() ==> #[trigger] record_chunks(records)[i].len()
            <= RECORD_BLOCK_SIZE,
        record_chunks(records).len() <= records.len(),
    decreases records.len(),
{
    let ch = record_chunks(records);
    if records.len() == 0 {
        assert(concat_bytes(ch) == Seq::<u8>::empty());
        assert(records =~= Seq::<u8>::empty());
    } else if records.len() <= RECORD_BLOCK_SIZE {
        assert(ch == seq![records]);
        lemma_concat_front(ch);
        assert(ch.drop_first() =~= Seq::<Seq<u8>>::empty());
        assert(records + Seq::<u8>::empty() =~= records);
    } else {
        let rest = records.skip(RECORD_BLOCK_SIZE as int);
        lemma_record_chunks_concat(rest);
        lemma_concat_front(ch);
        assert(ch.drop_first() =~= record_chunks(rest));
        assert(records.subrange(0, RECORD_BLOCK_SIZE as int) + rest =~= records);
    }
}

/// Each part of a concatenation is no longer than the whole.
proof fn lemma_concat_part_len(parts: Seq<Seq<u8>>, i: int)
    requires
        0 <= i < parts.len(),
    ensures
        parts[i].len() <= concat_bytes(parts).len(),
    decreases parts.len(),
{
    if i < parts.len() - 1 {
        lemma_concat_part_len(parts.drop_last(), i);
    }
}

/// The length of the block descriptors of a record section.
proof fn lemma_record_descs_len(plain: Seq<Seq<u8>>, compressed: Seq<Seq<u8>>)
    requires
        plain.len() == compressed.len(),
    ensures
        record_descs_bytes(plain, compressed).len() == 16 * plain.len(),
    decreases plain.len(),
{
    if plain.len() > 0 {
        lemma_record_descs_len(plain.drop_last(), compressed.drop_last());
    }
}

/// Where the descriptor of block `i` lies.
proof fn lemma_record_desc_at(plain: Seq<Seq<u8>>, compressed: Seq<Seq<u8>>, i: int)
    requires
        plain.len() == compressed.len(),
        0 <= i < plain.len(),
    ensures
        record_descs_bytes(plain, compressed).subrange(16 * i, 16 * i + 8) == be64_bytes(
            compressed[i].len() as int,
        ),
        record_descs_bytes(plain, compressed).subrange(16 * i + 8, 16 * i + 16) == be64_bytes(
            plain[i].len() as int,
        ),
    decreases plain.len(),
{
    let n = plain.len() as int;
    let pi = plain.drop_last();
    let ci = compressed.drop_last();
    lemma_record_descs_len(pi, ci);
    let prev = record_descs_bytes(pi, ci);
    let x = be64_bytes(compressed.last().len() as int);
    let y = be64_bytes(plain.last().len() as int);
    let all = record_descs_bytes(plain, compressed);
    assert(all == prev + x + y);
    if i < n - 1 {
        lemma_record_desc_at(pi, ci, i);
        assert(pi[i] == plain[i]);
        assert(ci[i] == compressed[i]);
        assert(16 * i + 16 <= prev.len());
        assert(all.subrange(16 * i, 16 * i + 8) =~= prev.subrange(16 * i, 16 * i + 8));
        assert(all.subrange(16 * i + 8, 16 * i + 16) =~= prev.subrange(16 * i + 8, 16 * i + 16));
    } else {
        assert(prev.len() == 16 * i);
        assert(all.subrange(16 * i, 16 * i + 8) =~= x);
        assert(all.subrange(16 * i + 8, 16 * i + 16) =~= y);
    }
}

/// The descriptors the record reader takes from blocks of these sizes.
pub open spec fn block_descs(plain: Seq<Seq<u8>>, compressed: Seq<Seq<u8>>) -> Seq<(u64, u64)> {
    Seq::new(plain.len(), |i: int| (compressed[i].len() as u64, plain[i].len() as u64))
}

/// Reading record blocks that decompress to `plain` gives their concatenation.
proof fn lemma_record_blocks_read(data: Seq<u8>, q: int, plain: Seq<Seq<u8>>, compressed: Seq<Seq<u8>>)
    requires
        plain.len() == compressed.len(),
        forall|i: int| #![trigger compressed[i]] 0 <= i < compressed.len() ==> decompress_spec(compressed[i])
            == Ok::<Seq<u8>, crate::formats::mdict::MdictError>(plain[i]) && compressed[i].len()
            < 18446744073709551616,
        0 <= q,
        q + concat_bytes(compressed).len() <= data.len(),
        data.subrange(q, q + concat_bytes(compressed).len()) == concat_bytes(compressed),
    ensures
        record_blocks_spec(data, q, block_descs(plain, compressed)) == Some(
            (concat_bytes(plain), q + concat_bytes(compressed).len()),
        ),
    decreases plain.len(),
{
    let descs = block_descs(plain, compressed);
    if plain.len() == 0 {
        assert(concat_bytes(plain) == Seq::<u8>::empty());
        assert(concat_bytes(compressed) == Seq::<u8>::empty());
    } else {
        let c0 = compressed[0];
        let rest_c = compressed.drop_first();
        let rest_p = plain.drop_first();
        lemma_concat_front(compressed);
        lemma_concat_front(plain);
        let cat = concat_bytes(compressed);
        assert(data.subrange(q, q + c0.len()) =~= c0) by {
            assert(cat.subrange(0, c0.len() as int) =~= c0);
            assert(data.subrange(q, q + c0.len()) =~= cat.subrange(0, c0.len() as int));
        }
        assert(descs[0].0 as int == c0.len());
        assert(take_spec(data, q, descs[0].0 as int) == Some((c0, q + c0.len())));
        assert forall|i: int| #![trigger rest_c[i]] 0 <= i < rest_c.len() implies decompress_spec(rest_c[i])
            == Ok::<Seq<u8>, crate::formats::mdict::MdictError>(rest_p[i]) && rest_c[i].len()
            < 18446744073709551616 by {
            assert(rest_c[i] == compressed[i + 1]);
            assert(rest_p[i] == plain[i + 1]);
        }
        let q2 = q + c0.len();
        assert(data.subrange(q2, q2 + concat_bytes(rest_c).len()) =~= concat_bytes(rest_c)) by {
            assert(cat.subrange(c0.len() as int, cat.len() as int) =~= concat_bytes(rest_c));
            assert(data.subrange(q2, q2 + concat_bytes(rest_c).len()) =~= cat.subrange(
                c0.len() as int,
                cat.len() as int,
            ));
        }
        lemma_record_blocks_read(data, q2, rest_p, rest_c);
        assert(descs.drop_first() =~= block_descs(rest_p, rest_c));
        assert(decompress_spec(c0) == Ok::<Seq<u8>, crate::formats::mdict::MdictError>(plain[0]));
    }
}

/// Where the fields of a record section lie: four 8-byte fields, then two
/// runs of bytes.
proof fn lemma_record_fields(a: Seq<u8>, b: Seq<u8>, c: Seq<u8>, d: Seq<u8>, e: Seq<u8>, f: Seq<u8>)
    requires
        a.len() == 8,
        b.len() == 8,
        c.len() == 8,
        d.len() == 8,
    ensures
        ({
            let x = a + b + c + d + e + f;
            &&& x.len() == 32 + e.len() + f.len()
            &&& x.subrange(0, 8) == a
            &&& x.subrange(32 + e.len() as int, x.len() as int) == f
            &&& forall|i: int, j: int| #![trigger x.subrange(32 + i, 32 + j)]
                0 <= i <= j <= e.len() ==> x.subrange(32 + i, 32 + j) == e.subrange(i, j)
        }),
{
    let x = a + b + c + d + e + f;
    assert(x.subrange(0, 8) =~= a);
    assert(x.subrange(32 + e.len() as int, x.len() as int) =~= f);
    assert forall|i: int, j: int| #![trigger x.subrange(32 + i, 32 + j)]
        0 <= i <= j <= e.len() implies x.subrange(32 + i, 32 + j) == e.subrange(i, j) by {
        assert(x.subrange(32 + i, 32 + j) =~= e.subrange(i, j));
    }
}

/// The record section reader, given what its parts hold.
pub proof fn lemma_record_section_read(
    data: Seq<u8>,
    p: int,
    plain: Seq<Seq<u8>>,
    compressed: Seq<Seq<u8>>,
    end: int,
)
    requires
        0 <= p,
        plain.len() == compressed.len(),
        plain.len() < 18446744073709551616,
        data.subrange(p, p + 8) == be64_bytes(plain.len() as int),
        end == p + 32 + 16 * plain.len() + concat_bytes(compressed).len(),
        end <= data.len(),
        forall|i: int| #![trigger compressed[i]] 0 <= i < compressed.len() ==> {
            &&& decompress_spec(compressed[i]) == Ok::<Seq<u8>, crate::formats::mdict::MdictError>(plain[i])
            &&& compressed[i].len() < 18446744073709551616
            &&& plain[i].len() < 18446744073709551616
            &&& data.subrange(p + 32 + 16 * i, p + 40 + 16 * i) == be64_bytes(compressed[i].len() as int)
            &&& data.subrange(p + 40 + 16 * i, p + 48 + 16 * i) == be64_bytes(plain[i].len() as int)
        },
        data.subrange(p + 32 + 16 * plain.len(), end) == concat_bytes(compressed),
    ensures
        record_section_spec(data, p) == Some((concat_bytes(plain), end)),
{
    reveal(record_section_spec);
    let nb = plain.len() as int;
    lemma_be64_roundtrip(nb);
    assert(be64(data.subrange(p, p + 8)) == nb);
    assert(record_descs_spec(data, p) =~= block_descs(plain, compressed)) by {
        assert forall|i: int| 0 <= i < nb implies #[trigger] record_descs_spec(data, p)[i] == block_descs(
            plain,
            compressed,
        )[i] by {
            assert(compressed[i].len() < 18446744073709551616);
            lemma_be64_roundtrip(compressed[i].len() as int);
            lemma_be64_roundtrip(plain[i].len() as int);
        }
    }
    lemma_record_blocks_read(data, p + 32 + 16 * nb, plain, compressed);
}

/// Where a record section keeps its fields.
proof fn lemma_record_section_layout(records: Seq<u8>, count: int, kind: CompressionKind)
    ensures
        ({
            let rs = record_section_bytes(records, count, kind);
            let plain = record_chunks(records);
            let compressed = plain.map_values(|b: Seq<u8>| compress_spec(b, kind));
            let nb = plain.len() as int;
            let cat = concat_bytes(compressed);
            &&& compressed.len() == nb
            &&& rs.len() == 32 + 16 * nb + cat.len()
            &&& rs.subrange(0, 8) == be64_bytes(nb)
            &&& rs.subrange(32 + 16 * nb, rs.len() as int) == cat
            &&& forall|i: int| #![trigger compressed[i]] 0 <= i < nb ==> {
                &&& rs.subrange(32 + 16 * i, 40 + 16 * i) == be64_bytes(compressed[i].len() as int)
                &&& rs.subrange(40 + 16 * i, 48 + 16 * i) == be64_bytes(plain[i].len() as int)
            }
        }),
{
    let rs = record_section_bytes(records, count, kind);
    let plain = record_chunks(records);
    let compressed = plain.map_values(|b: Seq<u8>| compress_spec(b, kind));
    let nb = plain.len() as int;
    let cat = concat_bytes(compressed);
    let descs = record_descs_bytes(plain, compressed);
    lemma_record_descs_len(plain, compressed);
    lemma_record_fields(
        be64_bytes(nb),
        be64_bytes(count),
        be64_bytes(nb * 16),
        be64_bytes(cat.len() as int),
        descs,
        cat,
    );
    assert forall|i: int| #![trigger compressed[i]] 0 <= i < nb implies {
        &&& rs.subrange(32 + 16 * i, 40 + 16 * i) == be64_bytes(compressed[i].len() as int)
        &&& rs.subrange(40 + 16 * i, 48 + 16 * i) == be64_bytes(plain[i].len() as int)
    } by {
        lemma_record_desc_at(plain, compressed, i);
        assert(rs.subrange(32 + 16 * i, 32 + (16 * i + 8)) == descs.subrange(16 * i, 16 * i + 8));
        assert(rs.subrange(32 + (16 * i + 8), 32 + (16 * i + 16)) == descs.subrange(16 * i + 8, 16 * i + 16));
    }
}

/// Reading the record section the writer makes, wherever it stands in a file,
/// gives back the records written, and the position right after the section.
pub proof fn lemma_record_section_roundtrip(
    records: Seq<u8>,
    count: int,
    kind: CompressionKind,
    pre: Seq<u8>,
    post: Seq<u8>,
)
    requires
        kind != CompressionKind::Lzo,
        record_section_undone(records, kind),
        record_section_bytes(records, count, kind).len() < 18446744073709551616,
    ensures
        record_section_spec(pre + record_section_bytes(records, count, kind) + post, pre.len() as int) == Some(
            (records, (pre.len() + record_section_bytes(records, count, kind).len()) as int),
        ),
{
    let rs = record_section_bytes(records, count, kind);
    let data = pre + rs + post;
    let p = pre.len() as int;
    let plain = record_chunks(records);
    let compressed = plain.map_values(|b: Seq<u8>| compress_spec(b, kind));
    let nb = plain.len() as int;
    let cat = concat_bytes(compressed);
    lemma_record_section_layout(records, count, kind);
    lemma_record_chunks_concat(records);
    lemma_sub_mid(pre, rs, post, 0, 8);
    lemma_sub_mid(pre, rs, post, 32 + 16 * nb, rs.len() as int);
    assert forall|i: int| #![trigger compressed[i]] 0 <= i < compressed.len() implies {
        &&& decompress_spec(compressed[i]) == Ok::<Seq<u8>, crate::formats::mdict::MdictError>(plain[i])
        &&& compressed[i].len() < 18446744073709551616
        &&& plain[i].len() < 18446744073709551616
        &&& data.subrange(p + 32 + 16 * i, p + 40 + 16 * i) == be64_bytes(compressed[i].len() as int)
        &&& data.subrange(p + 40 + 16 * i, p + 48 + 16 * i) == be64_bytes(plain[i].len() as int)
    } by {
        lemma_decompress_compress(plain[i], kind);
        lemma_concat_part_len(compressed, i);
        assert(plain[i].len() <= RECORD_BLOCK_SIZE);
        lemma_sub_mid(pre, rs, post, 32 + 16 * i, 40 + 16 * i);
        lemma_sub_mid(pre, rs, post, 40 + 16 * i, 48 + 16 * i);
    }
    lemma_record_section_read(data, p, plain, compressed, (pre.len() + rs.len()) as int);
}

} // verus!
