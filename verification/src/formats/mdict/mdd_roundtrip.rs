//! What reading an .mdd gives back of what writing it made.

use vstd::prelude::*;

use crate::bytes::{be16_bytes, be32_bytes, be64_bytes, le16_bytes, lemma_be64_roundtrip, units_le_bytes, utf16_units};
use crate::encryption::adler32_spec;
use crate::formats::mdict::readback::{lemma_decompress_compress, lemma_record_section_read};
use crate::formats::mdict::roundtrip::lemma_header_frame_roundtrip;
use crate::formats::mdict::{CompressionKind, MdictError};
use crate::formats::mdict::mdd::{mdd_parts, data_views, mdd_block_from, mdd_key_blocks, mdd_key_section, mdd_resources, resource_end, resource_name};
use crate::formats::mdict::readback::lemma_be16_roundtrip;
use crate::formats::mdict::reader::{decompress_spec, header_raw_spec, key_block_info_from, key_block_info_record, record_section_spec, take_spec, utf16_key_from};
use crate::formats::mdict::writer::{all_bytes, compress_spec, concat_bytes, framed_header, mdd_header_xml, mdd_info_key, mdd_key_block, mdd_key_info, mdd_spec, mdd_undone, resource_key_spec, total_size};
use crate::glossary::DataEntry;
use crate::entities::{lemma_replace_char_concat, lemma_replace_one_char};

use crate::strs::{le_units, lossy_utf16, lossy_utf16le, replace_spec};

verus! {

/// The bytes of some code units are those of the first, then of the rest.
proof fn lemma_units_front(u: Seq<u16>)
    requires
        u.len() > 0,
    ensures
        units_le_bytes(u) == le16_bytes(u[0] as int) + units_le_bytes(u.drop_first()),
    decreases u.len(),
{
    if u.len() == 1 {
        assert(u.drop_last() =~= Seq::<u16>::empty());
        assert(u.drop_first() =~= Seq::<u16>::empty());
        assert(units_le_bytes(Seq::<u16>::empty()) == Seq::<u8>::empty());
        assert(units_le_bytes(u) =~= le16_bytes(u[0] as int) + units_le_bytes(u.drop_first()));
    } else {
        lemma_units_front(u.drop_last());
        assert(u.drop_last().drop_first() =~= u.drop_first().drop_last());
        assert(u.drop_first().last() == u.last());
        assert(units_le_bytes(u) =~= le16_bytes(u[0] as int) + units_le_bytes(u.drop_first()));
    }
}

/// Code units take two bytes each, and pairing the bytes gives them back.
pub proof fn lemma_le_units_of(u: Seq<u16>)
    ensures
        units_le_bytes(u).len() == 2 * u.len(),
        le_units(units_le_bytes(u)) == u,
    decreases u.len(),
{
    if u.len() > 0 {
        lemma_le_units_of(u.drop_last());
        let b = units_le_bytes(u);
        let prev = units_le_bytes(u.drop_last());
        let v = u.last();
        assert(b == prev + le16_bytes(v as int));
        assert(b.len() == 2 * u.len());
        let n = u.len() - 1;
        assert(le_units(b) =~= u) by {
            assert forall|i: int| 0 <= i < u.len() implies #[trigger] le_units(b)[i] == u[i] by {
                if i < n {
                    assert(b[2 * i] == prev[2 * i]);
                    assert(b[2 * i + 1] == prev[2 * i + 1]);
                    assert(le_units(prev)[i] == u.drop_last()[i]);
                } else {
                    assert(b[2 * i] == (v as int % 256) as u8);
                    assert(b[2 * i + 1] == (v as int / 256) as u8);
                    assert(((v as int % 256) as u8) + 256 * ((v as int / 256) as u8) == v as int);
                }
            }
        }
    }
}

/// Whether no code unit is zero.
pub open spec fn no_zero_unit(u: Seq<u16>) -> bool {
    forall|i: int| 0 <= i < u.len() ==> #[trigger] u[i] != 0
}

/// A UTF-16 key read from `q` runs over the units written there, up to the
/// two zero bytes behind them.
proof fn lemma_utf16_key_over(d: Seq<u8>, q: int, u: Seq<u16>)
    requires
        0 <= q,
        q + 2 * u.len() + 2 <= d.len(),
        no_zero_unit(u),
        d.subrange(q, q + 2 * u.len() + 2) == units_le_bytes(u) + seq![0u8, 0u8],
    ensures
        utf16_key_from(d, q) == (units_le_bytes(u), q + 2 * u.len() + 2),
    decreases u.len(),
{
    lemma_le_units_of(u);
    if u.len() == 0 {
        assert(d.subrange(q, q + 2)[0] == d[q]);
        assert(d.subrange(q, q + 2)[1] == d[q + 1]);
        assert(units_le_bytes(u) =~= Seq::<u8>::empty());
    } else {
        lemma_units_front(u);
        let rest = u.drop_first();
        lemma_le_units_of(rest);
        let v = u[0];
        let w = d.subrange(q, q + 2 * u.len() + 2);
        assert(w[0] == d[q] && w[1] == d[q + 1]);
        assert(w[0] == (v as int % 256) as u8 && w[1] == (v as int / 256) as u8);
        assert(!(d[q] == 0 && d[q + 1] == 0)) by {
            assert(v != 0);
        }
        assert(forall|i: int| 0 <= i < rest.len() ==> #[trigger] rest[i] == u[i + 1]);
        assert(d.subrange(q + 2, q + 2 + 2 * rest.len() + 2) =~= units_le_bytes(rest) + seq![0u8, 0u8]) by {
            assert forall|i: int| 0 <= i < 2 * rest.len() + 2 implies #[trigger] d.subrange(
                q + 2,
                q + 2 + 2 * rest.len() + 2,
            )[i] == (units_le_bytes(rest) + seq![0u8, 0u8])[i] by {
                assert(d[q + 2 + i] == w[2 + i]);
            }
        }
        lemma_utf16_key_over(d, q + 2, rest);
        assert(seq![d[q], d[q + 1]] + units_le_bytes(rest) =~= units_le_bytes(u));
    }
}

/// One resource as the .mdd key block stores it.
pub open spec fn resource_record(offset: int, key: Seq<u16>) -> Seq<u8> {
    be64_bytes(offset) + units_le_bytes(key) + seq![0u8, 0u8]
}

/// The key block records of some resources.
pub open spec fn resource_records(os: Seq<int>, us: Seq<Seq<u16>>) -> Seq<Seq<u8>> {
    Seq::new(os.len(), |i: int| resource_record(os[i], us[i]))
}

/// Reading a key block made of resource records gives back each offset and key.
proof fn lemma_mdd_block_parse(pre: Seq<u8>, os: Seq<int>, us: Seq<Seq<u16>>)
    requires
        os.len() == us.len(),
        forall|i: int| 0 <= i < os.len() ==> 0 <= #[trigger] os[i] < 18446744073709551616,
        forall|i: int| 0 <= i < us.len() ==> no_zero_unit(#[trigger] us[i]),
    ensures
        mdd_block_from(pre + resource_records(os, us).flatten(), pre.len() as int) == Some(
            Seq::new(os.len(), |i: int| (os[i], units_le_bytes(us[i]))),
        ),
    decreases os.len(),
{
    let ts = resource_records(os, us);
    let d = pre + ts.flatten();
    let p = pre.len() as int;
    if os.len() == 0 {
        assert(ts.flatten() =~= Seq::<u8>::empty());
        assert(d.len() == p);
        assert(Seq::new(os.len(), |i: int| (os[i], units_le_bytes(us[i]))) =~= Seq::<(int, Seq<u8>)>::empty());
    } else {
        let t0 = ts[0];
        let u0 = us[0];
        let o0 = os[0];
        lemma_le_units_of(u0);
        lemma_be64_roundtrip(o0);
        assert(ts.flatten() == t0 + ts.drop_first().flatten());
        let os2 = os.drop_first();
        let us2 = us.drop_first();
        assert(ts.drop_first() =~= resource_records(os2, us2));
        let pre2 = pre + t0;
        assert(d =~= pre2 + resource_records(os2, us2).flatten());
        assert(forall|i: int| 0 <= i < os2.len() ==> #[trigger] os2[i] == os[i + 1]);
        assert(forall|i: int| 0 <= i < us2.len() ==> #[trigger] us2[i] == us[i + 1]);
        lemma_mdd_block_parse(pre2, os2, us2);
        assert(no_zero_unit(us[0]));
        assert(d.subrange(p + 8, p + 8 + 2 * u0.len() + 2) =~= units_le_bytes(u0) + seq![0u8, 0u8]);
        lemma_utf16_key_over(d, p + 8, u0);
        assert(d.subrange(p, p + 8) =~= be64_bytes(o0));
        assert(pre2.len() == p + 8 + 2 * u0.len() + 2);
        assert(Seq::new(os.len(), |i: int| (os[i], units_le_bytes(us[i]))) =~= seq![(o0, units_le_bytes(u0))]
            + Seq::new(os2.len(), |i: int| (os2[i], units_le_bytes(us2[i]))));
    }
}

/// The offsets the writer gives the resources: where each one's bytes start.
pub open spec fn resource_offsets(entries: Seq<DataEntry>) -> Seq<int> {
    Seq::new(entries.len(), |i: int| total_size(entries.take(i)))
}

/// The keys the writer gives the resources.
pub open spec fn resource_keys(entries: Seq<DataEntry>) -> Seq<Seq<u16>> {
    Seq::new(entries.len(), |i: int| resource_key_spec(entries[i].spec_fname()))
}

/// The .mdd key block is the resources' records one after the other.
proof fn lemma_mdd_key_block_records(entries: Seq<DataEntry>)
    ensures
        mdd_key_block(entries) == resource_records(resource_offsets(entries), resource_keys(entries)).flatten(),
    decreases entries.len(),
{
    let ts = resource_records(resource_offsets(entries), resource_keys(entries));
    if entries.len() == 0 {
        assert(ts =~= Seq::<Seq<u8>>::empty());
        assert(ts.flatten() =~= Seq::<u8>::empty());
    } else {
        let init = entries.drop_last();
        lemma_mdd_key_block_records(init);
        let ti = resource_records(resource_offsets(init), resource_keys(init));
        assert(ts =~= ti.push(ts.last())) by {
            assert forall|i: int| 0 <= i < ti.len() implies #[trigger] ts[i] == ti[i] by {
                assert(entries.take(i) =~= init.take(i));
                assert(entries[i] == init[i]);
            }
        }
        ti.lemma_flatten_push(ts.last());
        assert(entries.take(entries.len() - 1) =~= init);
    }
}

/// The fields of an .mdd key block info, where they stand.
proof fn lemma_mdd_info_fields(a: Seq<u8>, k1: Seq<u16>, k2: Seq<u16>, c: Seq<u8>, b: Seq<u8>)
    requires
        a.len() == 8,
        c.len() == 8,
        b.len() == 8,
        k1.len() < 65536,
        k2.len() < 65536,
    ensures
        ({
            let x = a + mdd_info_key(k1) + mdd_info_key(k2) + c + b;
            let q2 = (8 + 2 + 2 * k1.len() + 2) as int;
            let q3 = (q2 + 2 + 2 * k2.len() + 2) as int;
            &&& x.len() == q3 + 16
            &&& x.subrange(8, 10) == be16_bytes(k1.len() as int)
            &&& x.subrange(q2, q2 + 2) == be16_bytes(k2.len() as int)
            &&& x.subrange(q3, q3 + 8) == c
            &&& x.subrange(q3 + 8, q3 + 16) == b
        }),
{
    lemma_le_units_of(k1);
    lemma_le_units_of(k2);
    let i1 = mdd_info_key(k1);
    let i2 = mdd_info_key(k2);
    assert(k1.len() % 65536 == k1.len());
    assert(k2.len() % 65536 == k2.len());
    assert(i1.len() == 2 + 2 * k1.len() + 2);
    assert(i2.len() == 2 + 2 * k2.len() + 2);
    let x = a + i1 + i2 + c + b;
    let q2 = (8 + 2 + 2 * k1.len() + 2) as int;
    let q3 = (q2 + 2 + 2 * k2.len() + 2) as int;
    assert(x.subrange(8, 10) =~= i1.subrange(0, 2));
    assert(i1.subrange(0, 2) =~= be16_bytes(k1.len() as int));
    assert(x.subrange(q2, q2 + 2) =~= i2.subrange(0, 2));
    assert(i2.subrange(0, 2) =~= be16_bytes(k2.len() as int));
    assert(x.subrange(q3, q3 + 8) =~= c);
    assert(x.subrange(q3 + 8, q3 + 16) =~= b);
}

/// The .mdd key block info the writer makes gives back the block's sizes.
#[verifier::rlimit(40)]
pub proof fn lemma_mdd_info_roundtrip(entries: Seq<DataEntry>, c: int, b: int)
    requires
        entries.len() > 0 ==> resource_key_spec(entries[0].spec_fname()).len() < 65536
            && resource_key_spec(entries.last().spec_fname()).len() < 65536,
        0 <= c < 18446744073709551616,
        0 <= b < 18446744073709551616,
    ensures
        key_block_info_from(mdd_key_info(entries, c, b), 0, true) == Some(seq![(c as u64, b as u64)]),
{
    let first = if entries.len() > 0 { resource_key_spec(entries[0].spec_fname()) } else { Seq::<u16>::empty() };
    let last = if entries.len() > 0 { resource_key_spec(entries.last().spec_fname()) } else { Seq::<u16>::empty() };
    let info = mdd_key_info(entries, c, b);
    assert(info == be64_bytes(entries.len() as int) + mdd_info_key(first) + mdd_info_key(last) + be64_bytes(c)
        + be64_bytes(b));
    lemma_mdd_info_fields(be64_bytes(entries.len() as int), first, last, be64_bytes(c), be64_bytes(b));
    lemma_be64_roundtrip(c);
    lemma_be64_roundtrip(b);
    lemma_be16_roundtrip(first.len() as int);
    lemma_be16_roundtrip(last.len() as int);
    let q3 = (8 + 2 + 2 * first.len() + 2 + 2 + 2 * last.len() + 2) as int;
    assert(key_block_info_record(info, 0, true) == Some(((c as u64, b as u64), q3 + 16)));
    assert(key_block_info_from(info, q3 + 16, true) == Some(Seq::<(u64, u64)>::empty()));
    assert(seq![(c as u64, b as u64)] + Seq::<(u64, u64)>::empty() =~= seq![(c as u64, b as u64)]);
}

/// The resources' bytes as the writer lays them: each one's bytes lie between
/// its offset and the next one's.
proof fn lemma_all_bytes_prefix(entries: Seq<DataEntry>, k: int)
    requires
        0 <= k <= entries.len(),
    ensures
        total_size(entries) == all_bytes(entries).len(),
        total_size(entries.take(k)) <= total_size(entries),
        all_bytes(entries).subrange(0, total_size(entries.take(k))) == all_bytes(entries.take(k)),
    decreases entries.len(),
{
    if entries.len() == 0 {
        assert(entries.take(k) =~= entries);
        assert(all_bytes(entries) =~= Seq::<u8>::empty());
    } else {
        let init = entries.drop_last();
        if k == entries.len() {
            lemma_all_bytes_prefix(init, 0);
            assert(entries.take(k) =~= entries);
            assert(all_bytes(entries).subrange(0, total_size(entries)) =~= all_bytes(entries));
        } else {
            lemma_all_bytes_prefix(init, k);
            assert(entries.take(k) =~= init.take(k));
            assert(all_bytes(entries) == all_bytes(init) + entries.last().spec_bytes());
            assert(total_size(entries.take(k)) <= all_bytes(init).len());
            lemma_all_bytes_prefix(entries.take(k), 0);
            assert(all_bytes(entries).subrange(0, total_size(entries.take(k))) =~= all_bytes(init).subrange(
                0,
                total_size(entries.take(k)),
            ));
        }
    }
}

/// Resource `i`'s bytes, where the writer put them.
proof fn lemma_resource_bytes(entries: Seq<DataEntry>, i: int)
    requires
        0 <= i < entries.len(),
    ensures
        total_size(entries.take(i)) <= total_size(entries.take(i + 1)) <= all_bytes(entries).len(),
        all_bytes(entries).subrange(total_size(entries.take(i)), total_size(entries.take(i + 1)))
            == entries[i].spec_bytes(),
{
    lemma_all_bytes_prefix(entries, i + 1);
    lemma_all_bytes_prefix(entries.take(i + 1), i);
    let t1 = entries.take(i + 1);
    assert(t1.drop_last() =~= entries.take(i));
    assert(t1.take(i) =~= entries.take(i));
    assert(t1.last() == entries[i]);
    let a = all_bytes(entries);
    let lo = total_size(entries.take(i));
    let hi = total_size(t1);
    assert(all_bytes(t1) == all_bytes(entries.take(i)) + entries[i].spec_bytes());
    assert(a.subrange(lo, hi) =~= all_bytes(t1).subrange(lo, hi));
    assert(all_bytes(t1).subrange(lo, hi) =~= entries[i].spec_bytes());
}

/// Writing `/` as `\` and reading `\` back as `/` gives a path without `\` back.
proof fn lemma_swap_back(f: Seq<char>)
    requires
        forall|i: int| 0 <= i < f.len() ==> #[trigger] f[i] != '\\',
    ensures
        replace_spec(replace_spec(f, seq!['/'], seq!['\\']), seq!['\\'], seq!['/']) == f,
    decreases f.len(),
{
    let a = seq!['/'];
    let b = seq!['\\'];
    if f.len() == 0 {
        assert(replace_spec(f, a, b) == f);
        assert(replace_spec(f, b, a) == f);
    } else {
        let c = f[0];
        let rest = f.drop_first();
        assert(forall|i: int| 0 <= i < rest.len() ==> #[trigger] rest[i] == f[i + 1]);
        lemma_swap_back(rest);
        assert(f =~= seq![c] + rest);
        lemma_replace_char_concat(seq![c], rest, '/', b);
        lemma_replace_one_char(c, '/', b);
        let c2 = if c == '/' { '\\' } else { c };
        assert(replace_spec(seq![c], a, b) == seq![c2]);
        lemma_replace_char_concat(seq![c2], replace_spec(rest, a, b), '\\', a);
        lemma_replace_one_char(c2, '\\', a);
        assert(replace_spec(seq![c2], b, a) == seq![c]);
    }
}

/// The path read back from a resource's key is the path it was written from,
/// where the path holds no `\` and its key decodes to the text it encodes.
proof fn lemma_resource_name_back(f: Seq<char>)
    requires
        forall|i: int| 0 <= i < f.len() ==> #[trigger] f[i] != '\\',
        lossy_utf16(resource_key_spec(f)) == "\\"@ + replace_spec(f, "/"@, "\\"@),
    ensures
        resource_name(lossy_utf16le(units_le_bytes(resource_key_spec(f)))) == f,
{
    reveal_strlit("\\");
    reveal_strlit("/");
    assert("\\"@ =~= seq!['\\']);
    assert("/"@ =~= seq!['/']);
    lemma_le_units_of(resource_key_spec(f));
    let key = seq!['\\'] + replace_spec(f, seq!['/'], seq!['\\']);
    assert(lossy_utf16le(units_le_bytes(resource_key_spec(f))) == key);
    assert(key.skip(1) =~= replace_spec(f, seq!['/'], seq!['\\']));
    lemma_swap_back(f);
}

/// Where the parts of an .mdd lie after its header: five 8-byte fields and a
/// 4-byte sum, the compressed info and key block, six 8-byte fields, then the
/// compressed resources.
proof fn lemma_mdd_fields(
    h: Seq<u8>,
    k: Seq<Seq<u8>>,
    ic: Seq<u8>,
    c: Seq<u8>,
    r: Seq<Seq<u8>>,
    rc: Seq<u8>,
)
    requires
        k.len() == 6,
        forall|i: int| 0 <= i < 5 ==> #[trigger] k[i].len() == 8,
        k[5].len() == 4,
        r.len() == 6,
        forall|i: int| 0 <= i < 6 ==> #[trigger] r[i].len() == 8,
    ensures
        ({
            let x = h + k[0] + k[1] + k[2] + k[3] + k[4] + k[5] + ic + c + r[0] + r[1] + r[2] + r[3] + r[4] + r[5]
                + rc;
            let p1 = h.len() as int;
            let p2 = p1 + 44 + ic.len() + c.len();
            &&& x.len() == p2 + 48 + rc.len()
            &&& x.subrange(0, p1) == h
            &&& x.subrange(p1 + 24, p1 + 32) == k[3]
            &&& x.subrange(p1 + 44, p1 + 44 + ic.len()) == ic
            &&& x.subrange(p1 + 44 + ic.len(), p2) == c
            &&& x.subrange(p2, p2 + 8) == r[0]
            &&& x.subrange(p2 + 32, p2 + 40) == r[4]
            &&& x.subrange(p2 + 40, p2 + 48) == r[5]
            &&& x.subrange(p2 + 48, x.len() as int) == rc
        }),
{
    let x = h + k[0] + k[1] + k[2] + k[3] + k[4] + k[5] + ic + c + r[0] + r[1] + r[2] + r[3] + r[4] + r[5] + rc;
    let p1 = h.len() as int;
    let p2 = p1 + 44 + ic.len() + c.len();
    assert(k[0].len() == 8 && k[1].len() == 8 && k[2].len() == 8 && k[3].len() == 8 && k[4].len() == 8);
    assert(r[0].len() == 8 && r[1].len() == 8 && r[2].len() == 8 && r[3].len() == 8 && r[4].len() == 8
        && r[5].len() == 8);
    assert(x.subrange(0, p1) =~= h);
    assert(x.subrange(p1 + 24, p1 + 32) =~= k[3]);
    assert(x.subrange(p1 + 44, p1 + 44 + ic.len()) =~= ic);
    assert(x.subrange(p1 + 44 + ic.len(), p2) =~= c);
    assert(x.subrange(p2, p2 + 8) =~= r[0]);
    assert(x.subrange(p2 + 32, p2 + 40) =~= r[4]);
    assert(x.subrange(p2 + 40, p2 + 48) =~= r[5]);
    assert(x.subrange(p2 + 48, x.len() as int) =~= rc);
}

/// The .mdd key section reader, given what its parts decode to.
proof fn lemma_mdd_key_section_read(
    data: Seq<u8>,
    p: int,
    info_c: Seq<u8>,
    compressed: Seq<u8>,
    block_len: int,
    keys: Seq<(int, Seq<u8>)>,
    end: int,
)
    requires
        0 <= p,
        end == p + 44 + info_c.len() + compressed.len(),
        end <= data.len(),
        info_c.len() < 18446744073709551616,
        data.subrange(p + 24, p + 32) == be64_bytes(info_c.len() as int),
        data.subrange(p + 44, p + 44 + info_c.len()) == info_c,
        data.subrange(p + 44 + info_c.len(), end) == compressed,
        decompress_spec(info_c) matches Ok(info) && key_block_info_from(info, 0, true) == Some(
            seq![(compressed.len() as u64, block_len as u64)],
        ),
        compressed.len() < 18446744073709551616,
        decompress_spec(compressed) matches Ok(block) && mdd_block_from(block, 0) == Some(keys),
    ensures
        mdd_key_section(data, p) == Some((keys, end)),
{
    lemma_be64_roundtrip(info_c.len() as int);
    let q = p + 44 + info_c.len();
    assert(take_spec(data, p + 44, info_c.len() as int) == Some((info_c, q)));
    assert(take_spec(data, q, (compressed.len() as u64) as int) == Some((compressed, end)));
    let sizes = seq![(compressed.len() as u64, block_len as u64)];
    assert(sizes.drop_first() =~= Seq::<(u64, u64)>::empty());
    assert(mdd_key_blocks(data, end, sizes.drop_first()) == Some((Seq::<(int, Seq<u8>)>::empty(), end)));
    assert(keys + Seq::<(int, Seq<u8>)>::empty() =~= keys);
    assert(mdd_key_blocks(data, q, sizes) == Some((keys, end)));
}

/// The resources the writer describes in the key block.
pub open spec fn written_resources(entries: Seq<DataEntry>) -> Seq<(int, Seq<u8>)> {
    Seq::new(
        entries.len(),
        |i: int| (total_size(entries.take(i)), units_le_bytes(resource_key_spec(entries[i].spec_fname()))),
    )
}

/// Whether the writer's resource keys read back as the paths they were made
/// from: no path holds `\`, no key a zero unit, and each key's UTF-16 decodes
/// to the text it encodes.
pub open spec fn names_read_back(entries: Seq<DataEntry>) -> bool {
    forall|i: int| 0 <= i < entries.len() ==> {
        let f = #[trigger] entries[i].spec_fname();
        &&& forall|j: int| 0 <= j < f.len() ==> f[j] != '\\'
        &&& no_zero_unit(resource_key_spec(f))
        &&& lossy_utf16(resource_key_spec(f)) == "\\"@ + replace_spec(f, "/"@, "\\"@)
    }
}

/// Parsing the key block the writer makes gives back each resource's offset
/// and key.
proof fn lemma_mdd_block_back(entries: Seq<DataEntry>)
    requires
        names_read_back(entries),
        all_bytes(entries).len() < 18446744073709551616,
    ensures
        mdd_block_from(mdd_key_block(entries), 0) == Some(written_resources(entries)),
{
    lemma_mdd_key_block_records(entries);
    let os = resource_offsets(entries);
    let us = resource_keys(entries);
    assert forall|i: int| 0 <= i < os.len() implies 0 <= #[trigger] os[i] < 18446744073709551616 by {
        lemma_all_bytes_prefix(entries, i);
        lemma_all_bytes_prefix(entries.take(i), 0);
    }
    assert forall|i: int| 0 <= i < us.len() implies no_zero_unit(#[trigger] us[i]) by {
        assert(us[i] == resource_key_spec(entries[i].spec_fname()));
    }
    lemma_mdd_block_parse(Seq::<u8>::empty(), os, us);
    assert(Seq::<u8>::empty() + resource_records(os, us).flatten() =~= resource_records(os, us).flatten());
    assert(Seq::new(os.len(), |i: int| (os[i], units_le_bytes(us[i]))) =~= written_resources(entries));
}

/// The resources the reader makes of the keys and bytes the writer wrote are
/// the data entries.
proof fn lemma_mdd_resources_back(entries: Seq<DataEntry>)
    requires
        names_read_back(entries),
    ensures
        mdd_resources(written_resources(entries), all_bytes(entries)) == Some(data_views(entries)),
{
    let kv = written_resources(entries);
    let records = all_bytes(entries);
    let n = entries.len() as int;
    assert forall|i: int| 0 <= i < kv.len() implies resource_end(kv, records, i) == total_size(
        entries.take(i + 1),
    ) by {
        if i + 1 >= n {
            lemma_all_bytes_prefix(entries, 0);
            assert(entries.take(i + 1) =~= entries);
        }
    }
    assert forall|i: int| 0 <= i < kv.len() implies 0 <= #[trigger] kv[i].0 <= resource_end(kv, records, i)
        <= records.len() by {
        lemma_resource_bytes(entries, i);
        lemma_all_bytes_prefix(entries.take(i), 0);
    }
    assert(Seq::new(
        kv.len(),
        |i: int| (resource_name(lossy_utf16le(kv[i].1)), records.subrange(kv[i].0, resource_end(kv, records, i))),
    ) =~= data_views(entries)) by {
        assert forall|i: int| 0 <= i < n implies #[trigger] data_views(entries)[i] == (
            resource_name(lossy_utf16le(kv[i].1)),
            records.subrange(kv[i].0, resource_end(kv, records, i)),
        ) by {
            let f = entries[i].spec_fname();
            assert(forall|j: int| 0 <= j < f.len() ==> f[j] != '\\');
            lemma_resource_name_back(f);
            lemma_resource_bytes(entries, i);
        }
    }
}

/// What [`mdd_parts`] gives, step by step.
proof fn lemma_mdd_parts_of(
    data: Seq<u8>,
    raw: Seq<u8>,
    p1: int,
    keys: Seq<(int, Seq<u8>)>,
    p2: int,
    records: Seq<u8>,
)
    requires
        header_raw_spec(data, 0) == Ok::<(Seq<u8>, int), MdictError>((raw, p1)),
        mdd_key_section(data, p1) == Some((keys, p2)),
        record_section_spec(data, p2) matches Some((rs, _)) && rs == records,
    ensures
        mdd_parts(data) == mdd_resources(keys, records),
{
}

/// The sections of an .mdd laid out as the writer lays them read back.
proof fn lemma_mdd_sections(
    data: Seq<u8>,
    p1: int,
    ic: Seq<u8>,
    c: Seq<u8>,
    rc: Seq<u8>,
    block_len: int,
    keys: Seq<(int, Seq<u8>)>,
    records: Seq<u8>,
)
    requires
        0 <= p1,
        data.len() == p1 + 44 + ic.len() + c.len() + 48 + rc.len(),
        data.subrange(p1 + 24, p1 + 32) == be64_bytes(ic.len() as int),
        data.subrange(p1 + 44, p1 + 44 + ic.len()) == ic,
        data.subrange(p1 + 44 + ic.len(), p1 + 44 + ic.len() + c.len()) == c,
        data.subrange(p1 + 44 + ic.len() + c.len(), p1 + 44 + ic.len() + c.len() + 8) == be64_bytes(1),
        data.subrange(p1 + 44 + ic.len() + c.len() + 32, p1 + 44 + ic.len() + c.len() + 40) == be64_bytes(
            rc.len() as int,
        ),
        data.subrange(p1 + 44 + ic.len() + c.len() + 40, p1 + 44 + ic.len() + c.len() + 48) == be64_bytes(
            records.len() as int,
        ),
        data.subrange(p1 + 44 + ic.len() + c.len() + 48, data.len() as int) == rc,
        data.len() < 18446744073709551616,
        records.len() < 18446744073709551616,
        decompress_spec(ic) matches Ok(info) && key_block_info_from(info, 0, true) == Some(
            seq![(c.len() as u64, block_len as u64)],
        ),
        decompress_spec(c) matches Ok(block) && mdd_block_from(block, 0) == Some(keys),
        decompress_spec(rc) == Ok::<Seq<u8>, MdictError>(records),
    ensures
        mdd_key_section(data, p1) == Some((keys, p1 + 44 + ic.len() + c.len())),
        record_section_spec(data, p1 + 44 + ic.len() + c.len()) == Some((records, data.len() as int)),
{
    let p2 = p1 + 44 + ic.len() + c.len();
    lemma_mdd_key_section_read(data, p1, ic, c, block_len, keys, p2);
    assert(concat_bytes(seq![rc]) =~= rc) by {
        assert(seq![rc].drop_last() =~= Seq::<Seq<u8>>::empty());
        assert(concat_bytes(Seq::<Seq<u8>>::empty()) == Seq::<u8>::empty());
    }
    assert(concat_bytes(seq![records]) =~= records) by {
        assert(seq![records].drop_last() =~= Seq::<Seq<u8>>::empty());
        assert(concat_bytes(Seq::<Seq<u8>>::empty()) == Seq::<u8>::empty());
    }
    assert(seq![rc][0] == rc);
    assert(seq![records][0] == records);
    lemma_record_section_read(data, p2, seq![records], seq![rc], data.len() as int);
}

/// Where the writer puts the parts of an .mdd.
#[verifier::rlimit(60)]
proof fn lemma_mdd_layout(title: Seq<char>, entries: Seq<DataEntry>, kind: CompressionKind)
    ensures
        ({
            let data = mdd_spec(title, entries, kind);
            let h = framed_header(mdd_header_xml(title));
            let block = mdd_key_block(entries);
            let c = compress_spec(block, kind);
            let info = mdd_key_info(entries, c.len() as int, block.len() as int);
            let ic = compress_spec(info, kind);
            let records = all_bytes(entries);
            let rc = compress_spec(records, kind);
            let p1 = h.len() as int;
            let p2 = p1 + 44 + ic.len() + c.len();
            &&& data == h + data.skip(p1)
            &&& data.len() == p2 + 48 + rc.len()
            &&& data.subrange(p1 + 24, p1 + 32) == be64_bytes(ic.len() as int)
            &&& data.subrange(p1 + 44, p1 + 44 + ic.len()) == ic
            &&& data.subrange(p1 + 44 + ic.len(), p2) == c
            &&& data.subrange(p2, p2 + 8) == be64_bytes(1)
            &&& data.subrange(p2 + 32, p2 + 40) == be64_bytes(rc.len() as int)
            &&& data.subrange(p2 + 40, p2 + 48) == be64_bytes(records.len() as int)
            &&& data.subrange(p2 + 48, data.len() as int) == rc
        }),
{
    let n = entries.len() as int;
    let h = framed_header(mdd_header_xml(title));
    let block = mdd_key_block(entries);
    let c = compress_spec(block, kind);
    let info = mdd_key_info(entries, c.len() as int, block.len() as int);
    let ic = compress_spec(info, kind);
    let head = be64_bytes(1) + be64_bytes(n) + be64_bytes(info.len() as int) + be64_bytes(ic.len() as int)
        + be64_bytes(c.len() as int);
    let records = all_bytes(entries);
    let rc = compress_spec(records, kind);
    let k = seq![
        be64_bytes(1),
        be64_bytes(n),
        be64_bytes(info.len() as int),
        be64_bytes(ic.len() as int),
        be64_bytes(c.len() as int),
        be32_bytes(adler32_spec(head)),
    ];
    let r = seq![
        be64_bytes(1),
        be64_bytes(n),
        be64_bytes(16),
        be64_bytes(rc.len() as int),
        be64_bytes(rc.len() as int),
        be64_bytes(records.len() as int),
    ];
    let data = mdd_spec(title, entries, kind);
    assert(data =~= h + k[0] + k[1] + k[2] + k[3] + k[4] + k[5] + ic + c + r[0] + r[1] + r[2] + r[3] + r[4]
        + r[5] + rc);
    lemma_mdd_fields(h, k, ic, c, r, rc);
    let p1 = h.len() as int;
    assert(data =~= h + data.skip(p1)) by {
        assert(data.subrange(0, p1) == h);
    }
}

/// Reading back an .mdd the writer makes gives back its data entries, each
/// with its path and its bytes, in order; where zlib is used, the blocks it
/// deflated inflate back (as `write_mdd` ensures). Paths holding `\\` or a NUL,
/// or whose key does not decode to the text it encodes, are left out, and so
/// are first and last keys of 65536 units or more.
#[verifier::rlimit(100)]
#[verifier::spinoff_prover]
pub proof fn lemma_mdd_roundtrip(title: Seq<char>, entries: Seq<DataEntry>, kind: CompressionKind)
    requires
        kind != CompressionKind::Lzo,
        mdd_undone(entries, kind),
        units_le_bytes(utf16_units(mdd_header_xml(title))).len() < 4294967296,
        mdd_spec(title, entries, kind).len() < 18446744073709551616,
        mdd_key_block(entries).len() < 18446744073709551616,
        all_bytes(entries).len() < 18446744073709551616,
        entries.len() > 0 ==> resource_key_spec(entries[0].spec_fname()).len() < 65536
            && resource_key_spec(entries.last().spec_fname()).len() < 65536,
        names_read_back(entries),
    ensures
        mdd_parts(mdd_spec(title, entries, kind)) == Some(data_views(entries)),
{
    let h = framed_header(mdd_header_xml(title));
    let block = mdd_key_block(entries);
    let c = compress_spec(block, kind);
    let info = mdd_key_info(entries, c.len() as int, block.len() as int);
    let ic = compress_spec(info, kind);
    let records = all_bytes(entries);
    let data = mdd_spec(title, entries, kind);
    let p1 = h.len() as int;
    lemma_mdd_layout(title, entries, kind);
    lemma_header_frame_roundtrip(mdd_header_xml(title), data.skip(p1));
    lemma_decompress_compress(info, kind);
    lemma_decompress_compress(block, kind);
    lemma_decompress_compress(records, kind);
    lemma_mdd_info_roundtrip(entries, c.len() as int, block.len() as int);
    lemma_mdd_block_back(entries);
    lemma_mdd_sections(data, p1, ic, c, compress_spec(records, kind), block.len() as int, written_resources(entries), records);
    lemma_mdd_parts_of(
        data,
        units_le_bytes(utf16_units(mdd_header_xml(title))),
        p1,
        written_resources(entries),
        p1 + 44 + ic.len() + c.len(),
        records,
    );
    lemma_mdd_resources_back(entries);
}
} // verus!
