//! Reading an .mdx file: the header, the key section and the record section.

use vstd::prelude::*;
use vstd::hash_map::StringHashMap;

use crate::bytes::{be32, be64, le32, read_u16_be, read_u32_be, read_u32_le, read_u64_be, be16, le32_bytes};
use crate::compression::{zlib_decompress, zlib_inflate};
use crate::encryption::{adler32, adler32_spec, fast_decrypt, fast_decrypt_byte, ripemd128, ripemd128_digest};
use crate::formats::mdict::{encryption_from_attr_spec, EncryptionKind, MdictError, COMPRESSION_HEADER_0, COMPRESSION_HEADER_2};
use crate::formats::mdict::{StyleSheet};
use crate::glossary::glossary_info::{distinct_keys, lemma_lookup_absent, lemma_lookup_at, lemma_store_distinct, lookup, pairs_view, store};
use crate::glossary::alt::{AltEntry, AltView};
use crate::glossary::definition::DefinitionView;
use crate::glossary::{Glossary, GlossaryInfo, GlossaryMetadata};
use crate::glossary::glossary_info::{info_get, store_all};
use crate::glossary::data_entry::{extension_of, path_extension};
use crate::glossary::entry::{alts_view, Entry, EntryView};
use crate::strs::{has_prefix, is_unicode_whitespace, lemma_trim_end_unique, lemma_trim_start_index_unique, strip_prefix, trim, lines, lines_spec, lossy_utf16le, lossy_utf8, parse_unsigned, parse_unsigned_spec, str_eq, string_of, trim_chars, trim_spec, utf16le_lossy, utf8_lossy};
use crate::utils::{unescape_html, unescape_html_spec};

verus! {

/// The bytes `data[p..p+n]` and the position after them, if they are there.
pub open spec fn take_spec(data: Seq<u8>, p: int, n: int) -> Option<(Seq<u8>, int)> {
    if 0 <= p && 0 <= n && p + n <= data.len() {
        Some((data.subrange(p, p + n), p + n))
    } else {
        None
    }
}

/// A copy of `data[p..p+n]`, moving `*pos` past it; `None` if the data ends first.
pub(crate) fn take(data: &[u8], pos: &mut usize, n: u64) -> (r: Option<Vec<u8>>)
    requires
        *old(pos) <= data@.len(),
    ensures
        *final(pos) <= data@.len(),
        match take_spec(data@, *old(pos) as int, n as int) {
            Some((b, p)) => r is Some && r->0@ == b && *final(pos) == p,
            None => r is None,
        },
{
    let p = *pos;
    if n > (data.len() - p) as u64 {
        return None;
    }
    let n = n as usize;
    let mut out: Vec<u8> = Vec::new();
    for i in p..p + n
        invariant
            p + n <= data@.len(),
            out@ == data@.subrange(p as int, i as int),
    {
        out.push(data[i]);
        assert(data@.subrange(p as int, i + 1) =~= data@.subrange(p as int, i as int).push(data@[i as int]));
    }
    *pos = p + n;
    Some(out)
}

/// What [`decompress_block`] gives for a block: its 4-byte compression type,
/// 4 bytes of checksum (not checked), then the payload.
pub open spec fn decompress_spec(block: Seq<u8>) -> Result<Seq<u8>, MdictError> {
    if block.len() < 8 {
        Err(MdictError::BlockTooSmall)
    } else {
        let kind = be32(block.subrange(0, 4));
        let payload = block.skip(8);
        if kind == 0 {
            Ok(payload)
        } else if kind == 0x0200_0000 {
            match zlib_inflate(payload) {
                Some(out) => Ok(out),
                None => Err(MdictError::DecompressionFailed),
            }
        } else {
            Err(MdictError::UnsupportedCompression(kind as u32))
        }
    }
}

/// Undoes the compression of a block.
pub fn decompress_block(data: &[u8]) -> (r: Result<Vec<u8>, MdictError>)
    ensures
        match decompress_spec(data@) {
            Ok(out) => r is Ok && r->Ok_0@ == out,
            Err(e) => r == Err::<Vec<u8>, MdictError>(e),
        },
{
    if data.len() < 8 {
        return Err(MdictError::BlockTooSmall);
    }
    let mut pos: usize = 0;
    let kind = match read_u32_be(data, &mut pos) {
        Some(k) => k,
        None => {
            return Err(MdictError::BlockTooSmall);
        },
    };
    let mut p: usize = 8;
    let payload = match take(data, &mut p, (data.len() - 8) as u64) {
        Some(v) => v,
        None => {
            return Err(MdictError::BlockTooSmall);
        },
    };
    assert(payload@ =~= data@.skip(8));
    if kind == COMPRESSION_HEADER_0 {
        Ok(payload)
    } else if kind == COMPRESSION_HEADER_2 {
        match zlib_decompress(payload.as_slice()) {
            Some(out) => Ok(out),
            None => Err(MdictError::DecompressionFailed),
        }
    } else {
        Err(MdictError::UnsupportedCompression(kind))
    }
}

/// How many bytes a key of `n` units takes with its one-unit terminator: two
/// per unit in UTF-16, one otherwise.
pub open spec fn key_text_bytes(n: int, utf16: bool) -> int {
    if utf16 {
        2 * n + 2
    } else {
        n + 1
    }
}

/// One record of the key block info at `p`: the keyword count, the first and
/// last keys (a big-endian u16 length in units, that many units and a one-unit
/// terminator each), then the compressed and decompressed sizes of the block.
/// Gives the sizes and the position after the record.
pub open spec fn key_block_info_record(info: Seq<u8>, p: int, utf16: bool) -> Option<((u64, u64), int)> {
    let q = p + 8;
    if q + 2 > info.len() {
        None
    } else {
        let first = be16(info.subrange(q, q + 2));
        let q = q + 2 + key_text_bytes(first, utf16);
        if q + 2 > info.len() {
            None
        } else {
            let last = be16(info.subrange(q, q + 2));
            let q = q + 2 + key_text_bytes(last, utf16);
            if q + 16 > info.len() {
                None
            } else {
                Some(
                    (
                        (
                            be64(info.subrange(q, q + 8)) as u64,
                            be64(info.subrange(q + 8, q + 16)) as u64,
                        ),
                        q + 16,
                    ),
                )
            }
        }
    }
}

/// The block sizes that the key block info holds from `p` on.
pub open spec fn key_block_info_from(info: Seq<u8>, p: int, utf16: bool) -> Option<Seq<(u64, u64)>>
    decreases info.len() - p,
{
    if p < 0 || p >= info.len() {
        Some(Seq::empty())
    } else {
        match key_block_info_record(info, p, utf16) {
            Some((sizes, next)) => if next > p {
                match key_block_info_from(info, next, utf16) {
                    Some(rest) => Some(seq![sizes] + rest),
                    None => None,
                }
            } else {
                None
            },
            None => None,
        }
    }
}

/// Parses the (decompressed) key block info: the sizes of each key block.
pub fn parse_key_block_info(info: &[u8], utf16: bool) -> (r: Result<Vec<(u64, u64)>, MdictError>)
    ensures
        match key_block_info_from(info@, 0, utf16) {
            Some(blocks) => r is Ok && r->Ok_0@ == blocks,
            None => r == Err::<Vec<(u64, u64)>, MdictError>(MdictError::UnexpectedEof),
        },
{
    let mut blocks: Vec<(u64, u64)> = Vec::new();
    let mut pos: usize = 0;
    while pos < info.len()
        invariant
            pos <= info@.len(),
            key_block_info_from(info@, 0, utf16) == match key_block_info_from(info@, pos as int, utf16) {
                Some(rest) => Some(blocks@ + rest),
                None => None::<Seq<(u64, u64)>>,
            },
        decreases info@.len() - pos,
    {
        let ghost p0 = pos as int;
        let ghost rec = key_block_info_record(info@, p0, utf16);
        let eof = Err(MdictError::UnexpectedEof);
        if info.len() - pos < 8 {
            assert(rec is None);
            return eof;
        }
        pos = pos + 8;
        let first = match read_u16_be(info, &mut pos) {
            Some(v) => v,
            None => {
                return eof;
            },
        };
        let skip: usize = if utf16 { 2 * first as usize + 2 } else { first as usize + 1 };
        if (info.len() - pos) < skip {
            assert(rec is None);
            return eof;
        }
        pos = pos + skip;
        let last = match read_u16_be(info, &mut pos) {
            Some(v) => v,
            None => {
                return eof;
            },
        };
        let skip: usize = if utf16 { 2 * last as usize + 2 } else { last as usize + 1 };
        if (info.len() - pos) < skip {
            assert(rec is None);
            return eof;
        }
        pos = pos + skip;
        let compressed = match read_u64_be(info, &mut pos) {
            Some(v) => v,
            None => {
                return eof;
            },
        };
        let decompressed = match read_u64_be(info, &mut pos) {
            Some(v) => v,
            None => {
                return eof;
            },
        };
        assert(rec == Some(((compressed, decompressed), pos as int)));
        let ghost before = blocks@;
        blocks.push((compressed, decompressed));
        proof {
            match key_block_info_from(info@, pos as int, utf16) {
                Some(rest) => {
                    assert(blocks@ + rest =~= before + (seq![(compressed, decompressed)] + rest));
                },
                None => {},
            }
        }
    }
    assert(key_block_info_from(info@, pos as int, utf16) == Some(Seq::<(u64, u64)>::empty()));
    assert(blocks@ + Seq::<(u64, u64)>::empty() =~= blocks@);
    Ok(blocks)
}

/// The index of the first zero byte of `s` at or after `from`, if any.
pub open spec fn nul_from(s: Seq<u8>, from: int) -> Option<int>
    decreases s.len() - from,
{
    if from < 0 || from >= s.len() {
        None
    } else if s[from] == 0 {
        Some(from)
    } else {
        nul_from(s, from + 1)
    }
}

/// Properties of [`nul_from`].
pub proof fn lemma_nul_from(s: Seq<u8>, from: int)
    requires
        0 <= from,
    ensures
        match nul_from(s, from) {
            Some(k) => from <= k < s.len() && s[k] == 0 && forall|j: int| from <= j < k ==> s[j] != 0,
            None => forall|j: int| from <= j < s.len() ==> s[j] != 0,
        },
    decreases s.len() - from,
{
    if from < s.len() && s[from] != 0 {
        lemma_nul_from(s, from + 1);
    }
}

/// Finds the first zero byte at or after `from`.
pub fn find_nul(s: &[u8], from: usize) -> (r: Option<usize>)
    ensures
        r matches Some(k) ==> nul_from(s@, from as int) == Some(k as int),
        r is None ==> nul_from(s@, from as int) is None,
{
    let mut i = from;
    while i < s.len()
        invariant
            from <= i,
            nul_from(s@, from as int) == nul_from(s@, i as int),
        decreases s.len() - i,
    {
        if s[i] == 0 {
            return Some(i);
        }
        i = i + 1;
    }
    None
}

/// The bytes of a UTF-16 key from `q`: code unit pairs up to a zero pair
/// (excluded) or to the last whole pair; with the position after it.
pub open spec fn utf16_key_from(block: Seq<u8>, q: int) -> (Seq<u8>, int)
    decreases block.len() - q,
{
    if q < 0 || q + 2 > block.len() {
        (Seq::empty(), block.len() as int)
    } else if block[q] == 0 && block[q + 1] == 0 {
        (Seq::empty(), q + 2)
    } else {
        let (rest, next) = utf16_key_from(block, q + 2);
        (seq![block[q], block[q + 1]] + rest, next)
    }
}

/// The keys of a decompressed key block from `p`: each is an 8-byte offset
/// (skipped) then the key's bytes up to a terminator.
pub open spec fn block_keys_from(block: Seq<u8>, p: int, utf16: bool) -> Option<Seq<Seq<u8>>>
    decreases block.len() - p,
{
    if p < 0 || p >= block.len() {
        Some(Seq::empty())
    } else if p + 8 > block.len() {
        None
    } else {
        let (key, next) = if utf16 {
            utf16_key_from(block, p + 8)
        } else {
            match nul_from(block, p + 8) {
                Some(k) => (block.subrange(p + 8, k), k + 1),
                None => (Seq::empty(), -1),
            }
        };
        if next <= p || next > block.len() {
            None
        } else {
            match block_keys_from(block, next, utf16) {
                Some(rest) => Some(seq![key] + rest),
                None => None,
            }
        }
    }
}

pub proof fn lemma_utf16_key_next(block: Seq<u8>, q: int)
    requires
        0 <= q <= block.len(),
    ensures
        utf16_key_from(block, q).1 >= q,
        utf16_key_from(block, q).1 <= block.len(),
    decreases block.len() - q,
{
    if q + 2 <= block.len() && !(block[q] == 0 && block[q + 1] == 0) {
        lemma_utf16_key_next(block, q + 2);
    }
}

pub(crate) fn utf16_key(block: &[u8], q: usize) -> (r: (Vec<u8>, usize))
    requires
        q <= block@.len(),
    ensures
        r.0@ == utf16_key_from(block@, q as int).0,
        r.1 == utf16_key_from(block@, q as int).1,
{
    let mut out: Vec<u8> = Vec::new();
    let mut i = q;
    loop
        invariant
            q <= i <= block@.len(),
            (i - q) % 2 == 0,
            utf16_key_from(block@, q as int) == (
                out@ + utf16_key_from(block@, i as int).0,
                utf16_key_from(block@, i as int).1,
            ),
        decreases block@.len() - i,
    {
        if block.len() - i < 2 {
            assert(utf16_key_from(block@, i as int).0 =~= Seq::<u8>::empty());
            assert(out@ + Seq::<u8>::empty() =~= out@);
            return (out, block.len());
        }
        if block[i] == 0 && block[i + 1] == 0 {
            assert(out@ + Seq::<u8>::empty() =~= out@);
            return (out, i + 2);
        }
        let ghost before = out@;
        out.push(block[i]);
        out.push(block[i + 1]);
        proof {
            let (rest, next) = utf16_key_from(block@, i + 2);
            assert(before + (seq![block@[i as int], block@[i + 1]] + rest) =~= out@ + rest);
        }
        i = i + 2;
    }
}

/// The raw keys of a decompressed key block.
pub fn block_keys(block: &[u8], utf16: bool) -> (r: Result<Vec<Vec<u8>>, MdictError>)
    ensures
        match block_keys_from(block@, 0, utf16) {
            Some(keys) => r is Ok && r->Ok_0@.len() == keys.len() && forall|i: int|
                0 <= i < keys.len() ==> #[trigger] r->Ok_0@[i]@ == keys[i],
            None => r == Err::<Vec<Vec<u8>>, MdictError>(MdictError::UnexpectedEof),
        },
{
    let mut keys: Vec<Vec<u8>> = Vec::new();
    let mut pos: usize = 0;
    let ghost mut acc: Seq<Seq<u8>> = Seq::empty();
    while pos < block.len()
        invariant
            pos <= block@.len(),
            keys@.len() == acc.len(),
            forall|i: int| 0 <= i < acc.len() ==> #[trigger] keys@[i]@ == acc[i],
            block_keys_from(block@, 0, utf16) == match block_keys_from(block@, pos as int, utf16) {
                Some(rest) => Some(acc + rest),
                None => None::<Seq<Seq<u8>>>,
            },
        decreases block@.len() - pos,
    {
        if block.len() - pos < 8 {
            return Err(MdictError::UnexpectedEof);
        }
        let p = pos;
        let (key, next) = if utf16 {
            proof {
                lemma_utf16_key_next(block@, p + 8);
            }
            utf16_key(block, p + 8)
        } else {
            proof {
                lemma_nul_from(block@, p + 8);
            }
            match find_nul(block, p + 8) {
                Some(k) => {
                    let mut q = p + 8;
                    let key = match take(block, &mut q, (k - (p + 8)) as u64) {
                        Some(v) => v,
                        None => {
                            return Err(MdictError::UnexpectedEof);
                        },
                    };
                    (key, k + 1)
                },
                None => {
                    return Err(MdictError::UnexpectedEof);
                },
            }
        };
        proof {
            match block_keys_from(block@, next as int, utf16) {
                Some(rest) => {
                    assert(acc.push(key@) + rest =~= acc + (seq![key@] + rest));
                },
                None => {},
            }
        }
        keys.push(key);
        proof {
            acc = acc.push(key@);
        }
        pos = next;
    }
    assert(acc + Seq::<Seq<u8>>::empty() =~= acc);
    Ok(keys)
}

/// The key an encrypted key block info is decrypted with.
pub open spec fn info_key_spec(info: Seq<u8>) -> Seq<u8> {
    ripemd128_digest(info.subrange(4, 8) + le32_bytes(0x3695))
}

/// The key block info as the key section holds it, decrypted where the
/// encryption covers the index: all but its first 8 bytes are unscrambled.
pub open spec fn decrypt_info_spec(info: Seq<u8>, enc: EncryptionKind) -> Seq<u8> {
    if enc == EncryptionKind::Two && info.len() > 8 {
        info.subrange(0, 8) + Seq::new(
            (info.len() - 8) as nat,
            |i: int| fast_decrypt_byte(info.skip(8), info_key_spec(info), i),
        )
    } else {
        info
    }
}

fn decrypt_info(info: Vec<u8>, enc: EncryptionKind) -> (r: Vec<u8>)
    ensures
        r@ == decrypt_info_spec(info@, enc),
{
    if !(enc.encrypts_index() && info.len() > 8) {
        return info;
    }
    let mut key_input: Vec<u8> = Vec::new();
    key_input.push(info[4]);
    key_input.push(info[5]);
    key_input.push(info[6]);
    key_input.push(info[7]);
    crate::bytes::push_u32_le(&mut key_input, 0x3695u32);
    assert(key_input@ =~= info@.subrange(4, 8) + le32_bytes(0x3695));
    let key = ripemd128(key_input.as_slice());
    assert(key@.len() == 16);
    let mut head: Vec<u8> = Vec::new();
    let mut tail: Vec<u8> = Vec::new();
    let n = info.len();
    for i in 0..n
        invariant
            n == info@.len(),
            n > 8,
            i <= 8 ==> head@ == info@.subrange(0, i as int) && tail@.len() == 0,
            i > 8 ==> head@ == info@.subrange(0, 8) && tail@ == info@.subrange(8, i as int),
    {
        if i < 8 {
            head.push(info[i]);
            assert(head@ =~= info@.subrange(0, i + 1));
        } else {
            tail.push(info[i]);
            assert(tail@ =~= info@.subrange(8, i + 1));
        }
    }
    assert(tail@ =~= info@.skip(8));
    let ghost enc_tail = tail@;
    fast_decrypt(tail.as_mut_slice(), key.as_slice());
    for i in 0..tail.len()
        invariant
            head@ == info@.subrange(0, 8) + tail@.subrange(0, i as int),
    {
        head.push(tail[i]);
        assert(head@ =~= info@.subrange(0, 8) + tail@.subrange(0, i + 1));
    }
    assert(tail@.subrange(0, tail@.len() as int) =~= tail@);
    assert(head@ =~= decrypt_info_spec(info@, enc)) by {
        let want = decrypt_info_spec(info@, enc);
        assert(want.len() == head@.len());
        assert forall|j: int| 0 <= j < head@.len() implies head@[j] == want[j] by {
            if j >= 8 {
                assert(tail@[j - 8] == fast_decrypt_byte(enc_tail, key@, j - 8));
            }
        }
    }
    head
}

/// How a key's bytes are decoded.
pub open spec fn decode_key_spec(bytes: Seq<u8>, encoding: Seq<char>) -> Seq<char> {
    if encoding == "UTF-16LE"@ {
        lossy_utf16le(bytes)
    } else {
        lossy_utf8(bytes)
    }
}

/// Decodes a key: `UTF-16LE` as UTF-16, anything else as utf-8.
pub fn decode_string(data: &[u8], encoding: &str) -> (r: String)
    ensures
        r@ == decode_key_spec(data@, encoding@),
{
    if str_eq(encoding, "UTF-16LE") {
        utf16le_lossy(data)
    } else {
        utf8_lossy(data)
    }
}

/// The raw keys of the key blocks of the given sizes, stored one after the
/// other from `p`; with the position after them.
pub open spec fn key_blocks_spec(data: Seq<u8>, p: int, sizes: Seq<(u64, u64)>, utf16: bool) -> Option<
    (Seq<Seq<u8>>, int),
>
    decreases sizes.len(),
{
    if sizes.len() == 0 {
        Some((Seq::empty(), p))
    } else {
        match take_spec(data, p, sizes[0].0 as int) {
            Some((raw, q)) => match decompress_spec(raw) {
                Ok(block) => match block_keys_from(block, 0, utf16) {
                    Some(keys) => match key_blocks_spec(data, q, sizes.drop_first(), utf16) {
                        Some((rest, end)) => Some((keys + rest, end)),
                        None => None,
                    },
                    None => None,
                },
                Err(_) => None,
            },
            None => None,
        }
    }
}

/// The raw keys of the key section at `p`: five big-endian u64 (blocks, entries,
/// decompressed info size, info size, blocks size) and a u32 checksum, the
/// key block info, then the key blocks. With the position after the section.
#[verifier::opaque]
pub open spec fn key_section_spec(data: Seq<u8>, p: int, enc: EncryptionKind, utf16: bool) -> Option<
    (Seq<Seq<u8>>, int),
> {
    if p < 0 || p + 44 > data.len() {
        None
    } else {
        let info_size = be64(data.subrange(p + 24, p + 32));
        match take_spec(data, p + 44, info_size) {
            Some((info, q)) => match decompress_spec(decrypt_info_spec(info, enc)) {
                Ok(plain) => match key_block_info_from(plain, 0, utf16) {
                    Some(sizes) => key_blocks_spec(data, q, sizes, utf16),
                    None => None,
                },
                Err(_) => None,
            },
            None => None,
        }
    }
}

/// The error reading key blocks of the given sizes from `p` meets first: a
/// block that fails to decompress gives its error, anything else missing
/// `UnexpectedEof`.
pub open spec fn key_blocks_error(data: Seq<u8>, p: int, sizes: Seq<(u64, u64)>, utf16: bool) -> MdictError
    decreases sizes.len(),
{
    if sizes.len() == 0 {
        MdictError::UnexpectedEof
    } else {
        match take_spec(data, p, sizes[0].0 as int) {
            Some((raw, q)) => match decompress_spec(raw) {
                Ok(block) => match block_keys_from(block, 0, utf16) {
                    Some(_) => key_blocks_error(data, q, sizes.drop_first(), utf16),
                    None => MdictError::UnexpectedEof,
                },
                Err(e) => e,
            },
            None => MdictError::UnexpectedEof,
        }
    }
}

/// The error reading the key section at `p` meets where [`key_section_spec`]
/// finds no keys.
pub open spec fn key_section_error(data: Seq<u8>, p: int, enc: EncryptionKind, utf16: bool) -> MdictError {
    if p < 0 || p + 44 > data.len() {
        MdictError::UnexpectedEof
    } else {
        let info_size = be64(data.subrange(p + 24, p + 32));
        match take_spec(data, p + 44, info_size) {
            Some((info, q)) => match decompress_spec(decrypt_info_spec(info, enc)) {
                Ok(plain) => match key_block_info_from(plain, 0, utf16) {
                    Some(sizes) => key_blocks_error(data, q, sizes, utf16),
                    None => MdictError::UnexpectedEof,
                },
                Err(e) => e,
            },
            None => MdictError::UnexpectedEof,
        }
    }
}

/// The decoded keys of a list of raw keys.
pub open spec fn decode_keys_spec(raw: Seq<Seq<u8>>, encoding: Seq<char>) -> Seq<Seq<char>> {
    raw.map_values(|k: Seq<u8>| decode_key_spec(k, encoding))
}

/// Reads the key section at `*pos`: the keys, decoded.
pub fn read_keys(data: &[u8], pos: &mut usize, encoding: &str, encryption: EncryptionKind) -> (r:
    Result<Vec<String>, MdictError>)
    requires
        *old(pos) <= data@.len(),
    ensures
        *final(pos) <= data@.len(),
        match key_section_spec(data@, *old(pos) as int, encryption, encoding@ == "UTF-16LE"@) {
            Some((raw, end)) => r is Ok && *final(pos) == end && r->Ok_0@.map_values(|k: String| k@)
                == decode_keys_spec(raw, encoding@),
            None => r == Err::<Vec<String>, MdictError>(
                key_section_error(data@, *old(pos) as int, encryption, encoding@ == "UTF-16LE"@),
            ),
        },
{
    reveal(key_section_spec);
    let p = *pos;
    if data.len() - p < 44 {
        return Err(MdictError::UnexpectedEof);
    }
    let mut q = p + 24;
    let info_size = match read_u64_be(data, &mut q) {
        Some(v) => v,
        None => {
            return Err(MdictError::UnexpectedEof);
        },
    };
    assert(q == p + 32);
    let mut q = p + 44;
    let info = match take(data, &mut q, info_size) {
        Some(v) => v,
        None => {
            return Err(MdictError::UnexpectedEof);
        },
    };
    let info = decrypt_info(info, encryption);
    let plain = match decompress_block(info.as_slice()) {
        Ok(v) => v,
        Err(e) => {
            return Err(e);
        },
    };
    let utf16 = str_eq(encoding, "UTF-16LE");
    let sizes = match parse_key_block_info(plain.as_slice(), utf16) {
        Ok(v) => v,
        Err(e) => {
            return Err(e);
        },
    };
    let mut keys: Vec<String> = Vec::new();
    let ghost mut acc: Seq<Seq<u8>> = Seq::empty();
    let n = sizes.len();
    assert(sizes@.skip(0) =~= sizes@);
    assert(q == p + 44 + info_size);
    assert(key_section_spec(data@, p as int, encryption, utf16) == key_blocks_spec(
        data@,
        (p + 44 + info_size) as int,
        sizes@,
        utf16,
    ));
    for i in 0..n
        invariant
            n == sizes@.len(),
            q <= data@.len(),
            *pos == p,
            p <= data@.len(),
            utf16 == (encoding@ == "UTF-16LE"@),
            key_section_spec(data@, p as int, encryption, utf16) == key_blocks_spec(
                data@,
                (p + 44 + info_size) as int,
                sizes@,
                utf16,
            ),
            key_section_error(data@, p as int, encryption, utf16) == key_blocks_error(
                data@,
                q as int,
                sizes@.skip(i as int),
                utf16,
            ),
            keys@.map_values(|k: String| k@) == decode_keys_spec(acc, encoding@),
            key_blocks_spec(data@, (p + 44 + info_size) as int, sizes@, utf16) == match key_blocks_spec(
                data@,
                q as int,
                sizes@.skip(i as int),
                utf16,
            ) {
                Some((rest, end)) => Some((acc + rest, end)),
                None => None::<(Seq<Seq<u8>>, int)>,
            },
    {
        let ghost q0 = q as int;
        let ghost rest_sizes = sizes@.skip(i as int);
        assert(rest_sizes.drop_first() =~= sizes@.skip(i + 1));
        assert(rest_sizes[0] == sizes@[i as int]);
        let raw = match take(data, &mut q, sizes[i].0) {
            Some(v) => v,
            None => {
                return Err(MdictError::UnexpectedEof);
            },
        };
        let block = match decompress_block(raw.as_slice()) {
            Ok(v) => v,
            Err(e) => {
                return Err(e);
            },
        };
        let block_keys = match block_keys(block.as_slice(), utf16) {
            Ok(v) => v,
            Err(e) => {
                return Err(e);
            },
        };
        let m = block_keys.len();
        let ghost before_keys = keys@;
        for j in 0..m
            invariant
                m == block_keys@.len(),
                keys@.map_values(|k: String| k@) == decode_keys_spec(acc, encoding@)
                    + decode_keys_spec(block_keys@.subrange(0, j as int).map_values(|v: Vec<u8>| v@), encoding@),
        {
            let k = decode_string(block_keys[j].as_slice(), encoding);
            let ghost prev = keys@;
            keys.push(k);
            proof {
                let f = |v: Vec<u8>| v@;
                assert(block_keys@.subrange(0, j + 1).map_values(f) =~= block_keys@.subrange(0, j as int).map_values(f).push(block_keys@[j as int]@));
                assert(decode_keys_spec(block_keys@.subrange(0, j + 1).map_values(f), encoding@) =~= decode_keys_spec(block_keys@.subrange(0, j as int).map_values(f), encoding@).push(k@));
                assert(keys@.map_values(|k: String| k@) =~= prev.map_values(|k: String| k@).push(k@));
            }
            assert(keys@.map_values(|k: String| k@) =~= decode_keys_spec(acc, encoding@)
                + decode_keys_spec(block_keys@.subrange(0, j + 1).map_values(|v: Vec<u8>| v@), encoding@));
        }
        proof {
            let bk = block_keys@.subrange(0, m as int).map_values(|v: Vec<u8>| v@);
            let spec_keys = block_keys_from(block@, 0, utf16)->0;
            assert(bk =~= spec_keys);
            match key_blocks_spec(data@, q as int, sizes@.skip(i + 1), utf16) {
                Some((rest, end)) => {
                    assert(acc + bk + rest =~= acc + (bk + rest));
                },
                None => {},
            }
            assert(decode_keys_spec(acc, encoding@) + decode_keys_spec(bk, encoding@) =~= decode_keys_spec(acc + bk, encoding@));
            acc = acc + bk;
        }
    }
    assert(sizes@.skip(n as int) =~= Seq::<(u64, u64)>::empty());
    assert(acc + Seq::<Seq<u8>>::empty() =~= acc);
    *pos = q;
    Ok(keys)
}

/// The records of the record blocks described by `descs`, decompressed and
/// concatenated, stored one after the other from `p`; with the position after.
pub open spec fn record_blocks_spec(data: Seq<u8>, p: int, descs: Seq<(u64, u64)>) -> Option<(Seq<u8>, int)>
    decreases descs.len(),
{
    if descs.len() == 0 {
        Some((Seq::empty(), p))
    } else {
        match take_spec(data, p, descs[0].0 as int) {
            Some((raw, q)) => match decompress_spec(raw) {
                Ok(block) => match record_blocks_spec(data, q, descs.drop_first()) {
                    Some((rest, end)) => Some((block + rest, end)),
                    None => None,
                },
                Err(_) => None,
            },
            None => None,
        }
    }
}

/// The block descriptors of the record section at `p` (after its four u64 fields).
pub open spec fn record_descs_spec(data: Seq<u8>, p: int) -> Seq<(u64, u64)> {
    let nb = be64(data.subrange(p, p + 8));
    Seq::new(
        nb as nat,
        |i: int|
            (
                be64(data.subrange(p + 32 + 16 * i, p + 40 + 16 * i)) as u64,
                be64(data.subrange(p + 40 + 16 * i, p + 48 + 16 * i)) as u64,
            ),
    )
}

/// The records of the record section at `p`: four big-endian u64 (blocks,
/// entries, info size, total size), a (compressed, decompressed) size pair per
/// block, then the blocks.
#[verifier::opaque]
pub open spec fn record_section_spec(data: Seq<u8>, p: int) -> Option<(Seq<u8>, int)> {
    if p < 0 || p + 32 > data.len() {
        None
    } else {
        let nb = be64(data.subrange(p, p + 8));
        if p + 32 + 16 * nb > data.len() {
            None
        } else {
            record_blocks_spec(data, p + 32 + 16 * nb, record_descs_spec(data, p))
        }
    }
}

/// The error reading record blocks from `p` meets first: a block that fails
/// to decompress gives its error, a missing block `UnexpectedEof`.
pub open spec fn record_blocks_error(data: Seq<u8>, p: int, descs: Seq<(u64, u64)>) -> MdictError
    decreases descs.len(),
{
    if descs.len() == 0 {
        MdictError::UnexpectedEof
    } else {
        match take_spec(data, p, descs[0].0 as int) {
            Some((raw, q)) => match decompress_spec(raw) {
                Ok(_) => record_blocks_error(data, q, descs.drop_first()),
                Err(e) => e,
            },
            None => MdictError::UnexpectedEof,
        }
    }
}

/// The error reading the record section at `p` meets where
/// [`record_section_spec`] finds no records.
pub open spec fn record_section_error(data: Seq<u8>, p: int) -> MdictError {
    if p < 0 || p + 32 > data.len() {
        MdictError::UnexpectedEof
    } else {
        let nb = be64(data.subrange(p, p + 8));
        if p + 32 + 16 * nb > data.len() {
            MdictError::UnexpectedEof
        } else {
            record_blocks_error(data, p + 32 + 16 * nb, record_descs_spec(data, p))
        }
    }
}

/// The first `n` records from `start`: each runs up to a zero byte (excluded)
/// or to the end.
pub open spec fn split_records(records: Seq<u8>, start: int, n: nat) -> Option<Seq<Seq<u8>>>
    decreases n,
{
    if n == 0 {
        Some(Seq::empty())
    } else if start < 0 || start > records.len() {
        None
    } else {
        let end = match nul_from(records, start) {
            Some(k) => k,
            None => records.len() as int,
        };
        match split_records(records, end + 1, (n - 1) as nat) {
            Some(rest) => Some(seq![records.subrange(start, end)] + rest),
            None => None,
        }
    }
}

/// A split gives as many records as asked for.
pub proof fn lemma_split_records_len(records: Seq<u8>, start: int, n: nat)
    ensures
        split_records(records, start, n) matches Some(v) ==> v.len() == n,
    decreases n,
{
    if n > 0 && 0 <= start <= records.len() {
        let end = match nul_from(records, start) {
            Some(k) => k,
            None => records.len() as int,
        };
        lemma_split_records_len(records, end + 1, (n - 1) as nat);
    }
}

/// Reads the record section at `*pos`: its blocks, decompressed and joined.
pub fn read_records(data: &[u8], pos: &mut usize) -> (r: Result<Vec<u8>, MdictError>)
    requires
        *old(pos) <= data@.len(),
    ensures
        *final(pos) <= data@.len(),
        match record_section_spec(data@, *old(pos) as int) {
            Some((records, end)) => r is Ok && *final(pos) == end && r->Ok_0@ == records,
            None => r == Err::<Vec<u8>, MdictError>(record_section_error(data@, *old(pos) as int)),
        },
{
    reveal(record_section_spec);
    let p = *pos;
    let mut q = p;
    let num_blocks = match read_u64_be(data, &mut q) {
        Some(v) => v,
        None => {
            return Err(MdictError::UnexpectedEof);
        },
    };
    if data.len() - p < 32 {
        return Err(MdictError::UnexpectedEof);
    }
    if num_blocks > ((data.len() - p - 32) / 16) as u64 {
        assert(p + 32 + 16 * num_blocks > data@.len()) by (nonlinear_arith)
            requires
                num_blocks > (data@.len() - p - 32) / 16,
                data@.len() - p - 32 >= 0,
        ;
        return Err(MdictError::UnexpectedEof);
    }
    assert(p + 32 + 16 * num_blocks <= data@.len()) by (nonlinear_arith)
        requires
            num_blocks <= (data@.len() - p - 32) / 16,
            data@.len() - p - 32 >= 0,
    ;
    let nb = num_blocks as usize;
    let mut descs: Vec<(u64, u64)> = Vec::new();
    let mut q = p + 32;
    for i in 0..nb
        invariant
            nb == num_blocks,
            *pos == p,
            p + 32 + 16 * nb <= data@.len(),
            q == p + 32 + 16 * i,
            descs@ =~= record_descs_spec(data@, p as int).subrange(0, i as int),
            num_blocks == be64(data@.subrange(p as int, p + 8)),
    {
        assert(q + 16 <= p + 32 + 16 * nb) by (nonlinear_arith)
            requires
                q == p + 32 + 16 * i,
                i < nb,
        ;
        let c = match read_u64_be(data, &mut q) {
            Some(v) => v,
            None => {
                return Err(MdictError::UnexpectedEof);
            },
        };
        let d = match read_u64_be(data, &mut q) {
            Some(v) => v,
            None => {
                return Err(MdictError::UnexpectedEof);
            },
        };
        descs.push((c, d));
        assert(descs@ =~= record_descs_spec(data@, p as int).subrange(0, i + 1));
    }
    let ghost all_descs = descs@;
    assert(all_descs =~= record_descs_spec(data@, p as int));
    let mut records: Vec<u8> = Vec::new();
    assert(descs@.skip(0) =~= descs@);
    for i in 0..nb
        invariant
            nb == descs@.len(),
            q <= data@.len(),
            *pos == p,
            p <= data@.len(),
            record_section_spec(data@, p as int) == match record_blocks_spec(
                data@,
                q as int,
                descs@.skip(i as int),
            ) {
                Some((rest, end)) => Some((records@ + rest, end)),
                None => None::<(Seq<u8>, int)>,
            },
            record_section_error(data@, p as int) == record_blocks_error(data@, q as int, descs@.skip(i as int)),
    {
        let ghost rest_descs = descs@.skip(i as int);
        assert(rest_descs.drop_first() =~= descs@.skip(i + 1));
        assert(rest_descs[0] == descs@[i as int]);
        let raw = match take(data, &mut q, descs[i].0) {
            Some(v) => v,
            None => {
                return Err(MdictError::UnexpectedEof);
            },
        };
        let block = match decompress_block(raw.as_slice()) {
            Ok(v) => v,
            Err(e) => {
                return Err(e);
            },
        };
        let ghost before = records@;
        let m = block.len();
        for j in 0..m
            invariant
                m == block@.len(),
                records@ == before + block@.subrange(0, j as int),
        {
            records.push(block[j]);
            assert(records@ =~= before + block@.subrange(0, j + 1));
        }
        proof {
            assert(block@.subrange(0, m as int) =~= block@);
            match record_blocks_spec(data@, q as int, descs@.skip(i + 1)) {
                Some((rest, end)) => {
                    assert(before + (block@ + rest) =~= records@ + rest);
                },
                None => {},
            }
        }
    }
    assert(descs@.skip(nb as int) =~= Seq::<(u64, u64)>::empty());
    assert(records@ + Seq::<u8>::empty() =~= records@);
    let ghost all = records@;
    assert(record_section_spec(data@, p as int) == Some((all, q as int)));
    *pos = q;
    Ok(records)
}

/// Reads the record section at `*pos`: one value per key, decoded as utf-8.
pub fn read_values(data: &[u8], pos: &mut usize, keys: &[String]) -> (r: Result<Vec<String>, MdictError>)
    requires
        *old(pos) <= data@.len(),
    ensures
        *final(pos) <= data@.len(),
        match record_section_spec(data@, *old(pos) as int) {
            Some((records, end)) => match split_records(records, 0, keys@.len()) {
                Some(values) => r is Ok && *final(pos) == end && r->Ok_0@.map_values(|v: String| v@)
                    == values.map_values(|v: Seq<u8>| lossy_utf8(v)),
                None => r == Err::<Vec<String>, MdictError>(MdictError::MissingRecord),
            },
            None => r == Err::<Vec<String>, MdictError>(record_section_error(data@, *old(pos) as int)),
        },
{
    let p = *pos;
    let records = match read_records(data, pos) {
        Ok(v) => v,
        Err(e) => {
            return Err(e);
        },
    };
    let q = *pos;
    *pos = p;
    let ghost all = records@;
    assert(record_section_spec(data@, p as int) == Some((all, q as int)));
    let mut values: Vec<String> = Vec::new();
    let mut start: usize = 0;
    let mut past = false;
    let nk = keys.len();
    let ghost mut acc: Seq<Seq<u8>> = Seq::empty();
    for i in 0..nk
        invariant
            nk == keys@.len(),
            all == records@,
            values@.map_values(|v: String| v@) == acc.map_values(|v: Seq<u8>| lossy_utf8(v)),
            start <= all.len(),
            split_records(all, 0, nk as nat) == match split_records(
                all,
                if past {
                    all.len() + 1int
                } else {
                    start as int
                },
                (nk - i) as nat,
            ) {
                Some(rest) => Some(acc + rest),
                None => None::<Seq<Seq<u8>>>,
            },
            q <= data@.len(),
            *pos == p,
            p == *old(pos),
            p <= data@.len(),
            record_section_spec(data@, p as int) == Some((all, q as int)),
    {
        if past {
            return Err(MdictError::MissingRecord);
        }
        proof {
            lemma_nul_from(all, start as int);
        }
        let end = match find_nul(records.as_slice(), start) {
            Some(k) => k,
            None => records.len(),
        };
        let mut s = start;
        let piece = match take(records.as_slice(), &mut s, (end - start) as u64) {
            Some(v) => v,
            None => {
                return Err(MdictError::MissingRecord);
            },
        };
        let v = utf8_lossy(piece.as_slice());
        let ghost prev = values@;
        values.push(v);
        proof {
            assert(values@.map_values(|v: String| v@) =~= prev.map_values(|v: String| v@).push(v@));
            assert(acc.push(piece@).map_values(|v: Seq<u8>| lossy_utf8(v)) =~= acc.map_values(|v: Seq<u8>| lossy_utf8(v)).push(lossy_utf8(piece@)));
            match split_records(all, end + 1, (nk - i - 1) as nat) {
                Some(rest) => {
                    assert(acc.push(piece@) + rest =~= acc + (seq![piece@] + rest));
                },
                None => {},
            }
            acc = acc.push(piece@);
        }
        if end < records.len() {
            start = end + 1;
        } else {
            past = true;
        }
    }
    assert(acc + Seq::<Seq<u8>>::empty() =~= acc);
    *pos = q;
    Ok(values)
}

/// The `key="value"` pairs of an .mdx header in order, as the pattern
/// `(?s)(\w+)="(.*?)"` finds them (key and raw value).
pub uninterp spec fn mdx_header_matches(text: Seq<char>) -> Seq<(Seq<char>, Seq<char>)>;

/// Calls `regex::Regex::captures_iter` with the header pattern; the pairs
/// found are named.
#[verifier::external_body]
fn header_matches(text: &str) -> (r: Vec<(String, String)>)
    ensures
        pairs_view(r@) == mdx_header_matches(text@),
{
    let re = regex::Regex::new(r#"(?s)(\w+)="(.*?)""#).unwrap();
    re.captures_iter(text).map(|c| (c[1].to_string(), c[2].to_string())).collect()
}

/// The attributes of a header: each match stored (in place where its key was
/// already met) with its value unescaped.
pub open spec fn header_attrs_spec(matches: Seq<(Seq<char>, Seq<char>)>) -> Seq<(Seq<char>, Seq<char>)>
    decreases matches.len(),
{
    if matches.len() == 0 {
        Seq::empty()
    } else {
        store(
            header_attrs_spec(matches.drop_last()),
            matches.last().0,
            unescape_html_spec(matches.last().1),
        )
    }
}

/// A stylesheet as numbers and character sequences.
pub open spec fn stylesheet_view(s: Seq<(u32, (String, String))>) -> Seq<(u32, (Seq<char>, Seq<char>))> {
    s.map_values(|e: (u32, (String, String))| (e.0, (e.1.0@, e.1.1@)))
}

/// A stylesheet after storing `v` under `id` (in place where present).
pub open spec fn style_store(
    s: Seq<(u32, (Seq<char>, Seq<char>))>,
    id: u32,
    v: (Seq<char>, Seq<char>),
) -> Seq<(u32, (Seq<char>, Seq<char>))> {
    if exists|i: int| 0 <= i < s.len() && s[i].0 == id {
        let i = choose|i: int| 0 <= i < s.len() && s[i].0 == id;
        s.update(i, (id, v))
    } else {
        s.push((id, v))
    }
}

/// The styles of the first `k` groups of three lines: a number, the text
/// before and the text after; a group whose number does not parse is skipped.
pub open spec fn styles_from_lines(lines: Seq<Seq<char>>, k: nat) -> Seq<(u32, (Seq<char>, Seq<char>))>
    decreases k,
{
    if k == 0 {
        Seq::empty()
    } else {
        let acc = styles_from_lines(lines, (k - 1) as nat);
        let i = 3 * (k - 1);
        match parse_unsigned_spec(trim_spec(lines[i]), 0xffff_ffff) {
            Some(n) => style_store(acc, n as u32, (lines[i + 1], lines[i + 2])),
            None => acc,
        }
    }
}

/// The stylesheet a `StyleSheet` attribute holds.
pub open spec fn stylesheet_spec(text: Seq<char>) -> Seq<(u32, (Seq<char>, Seq<char>))> {
    styles_from_lines(lines_spec(text), lines_spec(text).len() / 3)
}

/// Parses the text of a `StyleSheet` attribute.
pub fn parse_stylesheet(text: &str) -> (r: StyleSheet)
    ensures
        stylesheet_view(r@) == stylesheet_spec(text@),
        forall|i: int, j: int| 0 <= i < j < r@.len() ==> r@[i].0 != r@[j].0,
{
    let lines = lines(text);
    let ghost ls = lines_spec(text@);
    let mut map: StyleSheet = Vec::new();
    let nl = lines.len();
    let nchunks = nl / 3;
    for k in 0..nchunks
        invariant
            nl == lines@.len(),
            nchunks == ls.len() / 3,
            lines@.len() == ls.len(),
            forall|i: int| 0 <= i < ls.len() ==> #[trigger] lines@[i]@ == ls[i],
            stylesheet_view(map@) == styles_from_lines(ls, k as nat),
            forall|i: int, j: int| 0 <= i < j < map@.len() ==> map@[i].0 != map@[j].0,
    {
        assert(3 * k + 2 < lines@.len()) by (nonlinear_arith)
            requires
                k < nchunks,
                nchunks == lines@.len() / 3,
        ;
        let i = 3 * k;
        let id = trim_chars(lines[i].as_slice());
        match parse_unsigned(id.as_slice(), 0xffff_ffff) {
            Some(n) => {
                let prefix = string_of(lines[i + 1].as_slice());
                let suffix = string_of(lines[i + 2].as_slice());
                let n = n as u32;
                let mut found: Option<usize> = None;
                let m = map.len();
                for j in 0..m
                    invariant
                        m == map@.len(),
                        found matches Some(x) ==> x < m && map@[x as int].0 == n,
                        found is None ==> forall|t: int| 0 <= t < j ==> map@[t].0 != n,
                {
                    if found.is_none() && map[j].0 == n {
                        found = Some(j);
                    }
                }
                let ghost before = map@;
                match found {
                    Some(x) => {
                        proof {
                            let sv = stylesheet_view(before);
                            assert(sv[x as int].0 == n);
                            let c = choose|t: int| 0 <= t < sv.len() && sv[t].0 == n;
                            assert(sv[c].0 == before[c].0);
                            assert(c == x as int);
                        }
                        map.set(x, (n, (prefix, suffix)));
                        assert(stylesheet_view(map@) =~= style_store(stylesheet_view(before), n, (ls[3 * k + 1], ls[3 * k + 2])));
                    },
                    None => {
                        map.push((n, (prefix, suffix)));
                        assert(stylesheet_view(map@) =~= style_store(stylesheet_view(before), n, (ls[3 * k + 1], ls[3 * k + 2])));
                    },
                }
            },
            None => {},
        }
    }
    map
}

/// A parsed .mdx header: its attributes, its encoding and its stylesheet.
pub struct ParsedHeader {
    pub attrs: Vec<(String, String)>,
    pub encoding: String,
    pub stylesheet: Option<StyleSheet>,
}

/// What [`parse_header_str`] checks of the attributes: version 2.0 and UTF-8.
pub open spec fn header_error_spec(attrs: Seq<(Seq<char>, Seq<char>)>) -> Option<MdictError> {
    match lookup(attrs, "GeneratedByEngineVersion"@) {
        None => Some(MdictError::MissingVersion),
        Some(v) => if v != "2.0"@ {
            Some(MdictError::UnsupportedVersion(arbitrary()))
        } else {
            match lookup(attrs, "Encoding"@) {
                None => Some(MdictError::MissingEncoding),
                Some(e) => if e != "UTF-8"@ {
                    Some(MdictError::UnsupportedEncoding(arbitrary()))
                } else {
                    None
                },
            }
        },
    }
}

/// Whether `got` is the error [`header_error_spec`] names for the attributes,
/// carrying the version or encoding found.
pub open spec fn header_error_matches(attrs: Seq<(Seq<char>, Seq<char>)>, got: MdictError) -> bool {
    match header_error_spec(attrs) {
        Some(want) => match (got, want) {
            (MdictError::UnsupportedVersion(v), MdictError::UnsupportedVersion(_)) => lookup(
                attrs,
                "GeneratedByEngineVersion"@,
            ) == Some(v@),
            (MdictError::UnsupportedEncoding(v), MdictError::UnsupportedEncoding(_)) => lookup(
                attrs,
                "Encoding"@,
            ) == Some(v@),
            (g, w) => g == w,
        },
        None => false,
    }
}

/// Parses the text of an .mdx header: a single xml tag whose attributes are the
/// dictionary's metadata. Only version 2.0 in UTF-8 is supported.
pub fn parse_header_str(header: &str) -> (r: Result<ParsedHeader, MdictError>)
    ensures
        ({
            let attrs = header_attrs_spec(mdx_header_matches(header@));
            match header_error_spec(attrs) {
                Some(_) => r is Err && header_error_matches(attrs, r->Err_0),
                None => r is Ok && pairs_view(r->Ok_0.attrs@) == attrs && r->Ok_0.encoding@ == "UTF-8"@
                    && match lookup(attrs, "StyleSheet"@) {
                    Some(text) => r->Ok_0.stylesheet is Some && stylesheet_view(r->Ok_0.stylesheet->0@)
                        == stylesheet_spec(text),
                    None => r->Ok_0.stylesheet is None,
                },
            }
        }),
{
    let matches = header_matches(header);
    parsed_header(matches)
}

/// The header that the `key="value"` pairs found in a header's text make
/// (see [`parse_header_str`]).
pub fn parsed_header(matches: Vec<(String, String)>) -> (r: Result<ParsedHeader, MdictError>)
    ensures
        ({
            let attrs = header_attrs_spec(pairs_view(matches@));
            match header_error_spec(attrs) {
                Some(_) => r is Err && header_error_matches(attrs, r->Err_0),
                None => r is Ok && pairs_view(r->Ok_0.attrs@) == attrs && r->Ok_0.encoding@ == "UTF-8"@
                    && match lookup(attrs, "StyleSheet"@) {
                    Some(text) => r->Ok_0.stylesheet is Some && stylesheet_view(r->Ok_0.stylesheet->0@)
                        == stylesheet_spec(text),
                    None => r->Ok_0.stylesheet is None,
                },
            }
        }),
{
    let ghost ms = pairs_view(matches@);
    let mut attrs: Vec<(String, String)> = Vec::new();
    let n = matches.len();
    for i in 0..n
        invariant
            n == matches@.len(),
            pairs_view(matches@) == ms,
            pairs_view(attrs@) == header_attrs_spec(ms.subrange(0, i as int)),
            distinct_keys(pairs_view(attrs@)),
    {
        let (k, v) = &matches[i];
        let value = unescape_html(v.as_str());
        let found = find_key(&attrs, k.as_str());
        let ghost before = pairs_view(attrs@);
        assert(ms.subrange(0, i + 1).drop_last() =~= ms.subrange(0, i as int));
        proof {
            lemma_store_distinct(before, k@, unescape_html_spec(v@));
            match found {
                Some(x) => {
                    lemma_lookup_at(before, x as int);
                },
                None => {
                    lemma_lookup_absent(before, k@);
                },
            }
        }
        match found {
            Some(x) => {
                let key = k.clone();
                attrs.set(x, (key, value));
                assert(pairs_view(attrs@) =~= store(before, k@, unescape_html_spec(v@)));
            },
            None => {
                attrs.push((k.clone(), value));
                assert(pairs_view(attrs@) =~= store(before, k@, unescape_html_spec(v@)));
            },
        }
    }
    assert(ms.subrange(0, n as int) =~= ms);
    let ghost av = pairs_view(attrs@);
    let version = match find_key(&attrs, "GeneratedByEngineVersion") {
        Some(x) => {
            proof {
                lemma_lookup_at(av, x as int);
            }
            &attrs[x].1
        },
        None => {
            proof {
                lemma_lookup_absent(av, "GeneratedByEngineVersion"@);
            }
            return Err(MdictError::MissingVersion);
        },
    };
    if !str_eq(version.as_str(), "2.0") {
        return Err(MdictError::UnsupportedVersion(version.clone()));
    }
    let encoding = match find_key(&attrs, "Encoding") {
        Some(x) => {
            proof {
                lemma_lookup_at(av, x as int);
            }
            attrs[x].1.clone()
        },
        None => {
            proof {
                lemma_lookup_absent(av, "Encoding"@);
            }
            return Err(MdictError::MissingEncoding);
        },
    };
    if !str_eq(encoding.as_str(), "UTF-8") {
        return Err(MdictError::UnsupportedEncoding(encoding));
    }
    let stylesheet = match find_key(&attrs, "StyleSheet") {
        Some(x) => {
            proof {
                lemma_lookup_at(av, x as int);
            }
            Some(parse_stylesheet(attrs[x].1.as_str()))
        },
        None => {
            proof {
                lemma_lookup_absent(av, "StyleSheet"@);
            }
            None
        },
    };
    Ok(ParsedHeader { attrs, encoding, stylesheet })
}

/// The index of `key` among the keys of `pairs`, if present (the first one).
pub fn find_key(pairs: &Vec<(String, String)>, key: &str) -> (r: Option<usize>)
    ensures
        match r {
            Some(i) => i < pairs@.len() && pairs@[i as int].0@ == key@ && (exists_key(
                pairs_view(pairs@),
                key@,
            )) && forall|j: int| 0 <= j < i ==> pairs@[j].0@ != key@,
            None => !exists_key(pairs_view(pairs@), key@),
        },
{
    let n = pairs.len();
    for i in 0..n
        invariant
            n == pairs@.len(),
            forall|j: int| 0 <= j < i ==> pairs@[j].0@ != key@,
    {
        if str_eq(pairs[i].0.as_str(), key) {
            assert(pairs_view(pairs@)[i as int].0 == key@);
            return Some(i);
        }
    }
    assert forall|j: int| 0 <= j < pairs_view(pairs@).len() implies pairs_view(pairs@)[j].0 != key@ by {
        assert(pairs_view(pairs@)[j].0 == pairs@[j].0@);
    }
    None
}

/// Whether some pair has `key` as its key.
pub open spec fn exists_key(pairs: Seq<(Seq<char>, Seq<char>)>, key: Seq<char>) -> bool {
    exists|i: int| 0 <= i < pairs.len() && pairs[i].0 == key
}

/// The raw text of the header at `p`: a big-endian u32 length, that many bytes
/// of UTF-16LE text, then their adler32 in little endian. With the position
/// after it.
pub open spec fn header_raw_spec(data: Seq<u8>, p: int) -> Result<(Seq<u8>, int), MdictError> {
    if p < 0 || p + 4 > data.len() {
        Err(MdictError::UnexpectedEof)
    } else {
        let len = be32(data.subrange(p, p + 4));
        match take_spec(data, p + 4, len) {
            None => Err(MdictError::UnexpectedEof),
            Some((raw, q)) => if q + 4 > data.len() {
                Err(MdictError::UnexpectedEof)
            } else if adler32_spec(raw) != le32(data.subrange(q, q + 4)) {
                Err(MdictError::HeaderChecksumMismatch)
            } else {
                Ok((raw, q + 4))
            },
        }
    }
}

/// Reads the raw text of the header at `*pos`, checking its adler32.
pub fn read_header_raw(data: &[u8], pos: &mut usize) -> (r: Result<Vec<u8>, MdictError>)
    requires
        *old(pos) <= data@.len(),
    ensures
        *final(pos) <= data@.len(),
        match header_raw_spec(data@, *old(pos) as int) {
            Err(e) => r == Err::<Vec<u8>, MdictError>(e),
            Ok((raw, end)) => r is Ok && r->Ok_0@ == raw && *final(pos) == end,
        },
{
    let p = *pos;
    let mut q = p;
    let len = match read_u32_be(data, &mut q) {
        Some(v) => v,
        None => {
            return Err(MdictError::UnexpectedEof);
        },
    };
    let raw = match take(data, &mut q, len as u64) {
        Some(v) => v,
        None => {
            return Err(MdictError::UnexpectedEof);
        },
    };
    let checksum = match read_u32_le(data, &mut q) {
        Some(v) => v,
        None => {
            return Err(MdictError::UnexpectedEof);
        },
    };
    if adler32(raw.as_slice()) != checksum {
        return Err(MdictError::HeaderChecksumMismatch);
    }
    *pos = q;
    Ok(raw)
}

/// Reads the header at `*pos`.
pub fn read_header(data: &[u8], pos: &mut usize) -> (r: Result<ParsedHeader, MdictError>)
    requires
        *old(pos) <= data@.len(),
    ensures
        *final(pos) <= data@.len(),
        match header_raw_spec(data@, *old(pos) as int) {
            Err(e) => r == Err::<ParsedHeader, MdictError>(e),
            Ok((raw, end)) => {
                let attrs = header_attrs_spec(mdx_header_matches(lossy_utf16le(raw)));
                match header_error_spec(attrs) {
                    Some(_) => r is Err && header_error_matches(attrs, r->Err_0),
                    None => r is Ok && *final(pos) == end && pairs_view(r->Ok_0.attrs@) == attrs
                        && r->Ok_0.encoding@ == "UTF-8"@ && match lookup(attrs, "StyleSheet"@) {
                        Some(text) => r->Ok_0.stylesheet is Some && stylesheet_view(
                            r->Ok_0.stylesheet->0@,
                        ) == stylesheet_spec(text),
                        None => r->Ok_0.stylesheet is None,
                    },
                }
            },
        },
{
    let p = *pos;
    let raw = match read_header_raw(data, pos) {
        Ok(v) => v,
        Err(e) => {
            return Err(e);
        },
    };
    let q = *pos;
    *pos = p;
    let text = utf16le_lossy(raw.as_slice());
    let header = parse_header_str(text.as_str())?;
    *pos = q;
    Ok(header)
}

/// Whether a record redirects to another headword (`@@@LINK=headword`).
pub open spec fn is_link(v: Seq<char>) -> bool {
    has_prefix(v, "@@@LINK="@)
}

/// The headword a link record redirects to, without surrounding whitespace.
pub open spec fn link_target(v: Seq<char>) -> Seq<char> {
    trim_spec(v.skip(8))
}

/// Whitespace around the headword of a link record (a line break after it,
/// as .mdx files store it) is not part of the headword it redirects to.
pub proof fn lemma_link_target_trimmed(a: Seq<char>, t: Seq<char>, b: Seq<char>)
    requires
        forall|j: int| 0 <= j < a.len() ==> is_unicode_whitespace(#[trigger] a[j]),
        forall|j: int| 0 <= j < b.len() ==> is_unicode_whitespace(#[trigger] b[j]),
        t.len() > 0 ==> !is_unicode_whitespace(t[0]) && !is_unicode_whitespace(t.last()),
    ensures
        is_link("@@@LINK="@ + a + t + b),
        link_target("@@@LINK="@ + a + t + b) == t,
{
    reveal_strlit("@@@LINK=");
    let v = "@@@LINK="@ + a + t + b;
    assert(v.subrange(0, 8) =~= "@@@LINK="@);
    let s = v.skip(8);
    assert(s =~= a + t + b);
    if t.len() > 0 {
        assert forall|j: int| 0 <= j < a.len() implies is_unicode_whitespace(#[trigger] s[j]) by {
            assert(s[j] == a[j]);
        }
        assert(s[a.len() as int] == t[0]);
        lemma_trim_start_index_unique(s, a.len() as int);
        let u = s.skip(a.len() as int);
        assert(u =~= t + b);
        assert forall|j: int| t.len() <= j < u.len() implies is_unicode_whitespace(#[trigger] u[j]) by {
            assert(u[j] == b[j - t.len()]);
        }
        assert(u[t.len() - 1] == t.last());
        lemma_trim_end_unique(u, t.len() as int);
        assert(u.subrange(0, t.len() as int) =~= t);
    } else {
        assert forall|j: int| 0 <= j < s.len() implies is_unicode_whitespace(#[trigger] s[j]) by {
            if j < a.len() {
                assert(s[j] == a[j]);
            } else {
                assert(s[j] == b[j - a.len()]);
            }
        }
        lemma_trim_start_index_unique(s, s.len() as int);
        let u = s.skip(s.len() as int);
        assert(u =~= t);
        lemma_trim_end_unique(u, 0);
        assert(u.subrange(0, 0) =~= t);
    }
}

/// Each link record among the first `n` puts its key among the keys that
/// link to its target.
proof fn lemma_link_listed(keys: Seq<Seq<char>>, values: Seq<Seq<char>>, n: int, i: int)
    requires
        0 <= i < n <= values.len(),
        n <= keys.len(),
        is_link(values[i]),
    ensures
        links_to(keys, values, n, link_target(values[i])).contains(keys[i]),
    decreases n,
{
    let t = link_target(values[i]);
    if i == n - 1 {
        let l = links_to(keys, values, n, t);
        assert(l.last() == keys[i]);
        assert(l.contains(keys[i]));
    } else {
        lemma_link_listed(keys, values, n - 1, i);
        let before = links_to(keys, values, n - 1, t);
        let j = choose|j: int| 0 <= j < before.len() && before[j] == keys[i];
        let l = links_to(keys, values, n, t);
        assert(l[j] == keys[i]);
    }
}

/// A record `@@@LINK=` followed by a headword makes its key an alt of that
/// headword, whatever whitespace stands around the headword: the key is
/// among the keys linking to the trimmed headword, which are the alts of
/// the entry of that headword.
pub proof fn lemma_link_record_gives_alt(
    keys: Seq<Seq<char>>,
    values: Seq<Seq<char>>,
    i: int,
    a: Seq<char>,
    t: Seq<char>,
    b: Seq<char>,
)
    requires
        keys.len() == values.len(),
        0 <= i < values.len(),
        values[i] == "@@@LINK="@ + a + t + b,
        forall|j: int| 0 <= j < a.len() ==> is_unicode_whitespace(#[trigger] a[j]),
        forall|j: int| 0 <= j < b.len() ==> is_unicode_whitespace(#[trigger] b[j]),
        t.len() > 0 ==> !is_unicode_whitespace(t[0]) && !is_unicode_whitespace(t.last()),
    ensures
        links_to(keys, values, keys.len() as int, t).contains(keys[i]),
{
    lemma_link_target_trimmed(a, t, b);
    lemma_link_listed(keys, values, keys.len() as int, i);
}

/// The keys among the first `n` whose record links to `t`, in order.
pub open spec fn links_to(keys: Seq<Seq<char>>, values: Seq<Seq<char>>, n: int, t: Seq<char>) -> Seq<
    Seq<char>,
>
    decreases n,
{
    if n <= 0 {
        Seq::empty()
    } else {
        let before = links_to(keys, values, n - 1, t);
        if is_link(values[n - 1]) && link_target(values[n - 1]) == t {
            before.push(keys[n - 1])
        } else {
            before
        }
    }
}

/// The entries of the first `n` key/record pairs: each record that is not a
/// link becomes an html entry, with the keys that link to it as alts.
pub open spec fn mdx_entries_spec(keys: Seq<Seq<char>>, values: Seq<Seq<char>>, n: int) -> Seq<EntryView>
    decreases n,
{
    if n <= 0 {
        Seq::empty()
    } else {
        let before = mdx_entries_spec(keys, values, n - 1);
        if is_link(values[n - 1]) {
            before
        } else {
            before.push(
                EntryView {
                    term: keys[n - 1],
                    definition: DefinitionView::Html(values[n - 1]),
                    alts: links_to(keys, values, keys.len() as int, keys[n - 1]).map_values(
                        |t: Seq<char>| AltView { term: t, definition: None },
                    ),
                },
            )
        }
    }
}

proof fn lemma_entries_extend(keys: Seq<Seq<char>>, values: Seq<Seq<char>>, n: int, m: int)
    requires
        0 <= n <= m,
    ensures
        mdx_entries_spec(keys, values, n).len() <= mdx_entries_spec(keys, values, m).len(),
        forall|k: int|
            0 <= k < mdx_entries_spec(keys, values, n).len() ==> #[trigger] mdx_entries_spec(
                keys,
                values,
                m,
            )[k] == mdx_entries_spec(keys, values, n)[k],
    decreases m - n,
{
    if n < m {
        lemma_entries_extend(keys, values, n, m - 1);
        let a = mdx_entries_spec(keys, values, m - 1);
        let b = mdx_entries_spec(keys, values, m);
        assert forall|k: int| 0 <= k < a.len() implies #[trigger] b[k] == a[k] by {}
    }
}

/// With a headword `t` whose record is not a link, a record `@@@LINK=`
/// followed by `t` (with any whitespace around it) makes its key an alt of
/// the entry read for `t`.
pub proof fn lemma_link_record_alt_of_entry(
    keys: Seq<Seq<char>>,
    values: Seq<Seq<char>>,
    i: int,
    j: int,
    a: Seq<char>,
    t: Seq<char>,
    b: Seq<char>,
)
    requires
        keys.len() == values.len(),
        0 <= i < values.len(),
        0 <= j < values.len(),
        values[i] == "@@@LINK="@ + a + t + b,
        forall|k: int| 0 <= k < a.len() ==> is_unicode_whitespace(#[trigger] a[k]),
        forall|k: int| 0 <= k < b.len() ==> is_unicode_whitespace(#[trigger] b[k]),
        t.len() > 0 ==> !is_unicode_whitespace(t[0]) && !is_unicode_whitespace(t.last()),
        keys[j] == t,
        !is_link(values[j]),
    ensures
        exists|e: int|
            0 <= e < mdx_entries_spec(keys, values, keys.len() as int).len() && {
                let entry = #[trigger] mdx_entries_spec(keys, values, keys.len() as int)[e];
                &&& entry.term == t
                &&& entry.definition == DefinitionView::Html(values[j])
                &&& entry.alts.contains(AltView { term: keys[i], definition: None })
            },
{
    lemma_link_record_gives_alt(keys, values, i, a, t, b);
    let n = keys.len() as int;
    let at_j = mdx_entries_spec(keys, values, j + 1);
    let e = at_j.len() - 1;
    lemma_entries_extend(keys, values, j + 1, n);
    let all = mdx_entries_spec(keys, values, n);
    assert(all[e] == at_j[e]);
    let l = links_to(keys, values, n, t);
    let w = choose|w: int| 0 <= w < l.len() && l[w] == keys[i];
    let alts = l.map_values(|s: Seq<char>| AltView { term: s, definition: None });
    assert(at_j[e].alts == alts);
    assert(alts[w] == AltView { term: keys[i], definition: None });
    assert(all[e].alts.contains(AltView { term: keys[i], definition: None }));
}

/// The entries of a glossary, as views.
pub open spec fn entries_view(entries: Seq<Entry>) -> Seq<EntryView> {
    entries.map_values(|e: Entry| e@)
}

/// Builds the entries from the keys and their records, turning links into alts.
pub fn build_entries(keys: Vec<String>, values: Vec<String>) -> (r: Vec<Entry>)
    requires
        keys@.len() == values@.len(),
    ensures
        entries_view(r@) == mdx_entries_spec(
            keys@.map_values(|k: String| k@),
            values@.map_values(|v: String| v@),
            keys@.len() as int,
        ),
{
    let ghost ks = keys@.map_values(|k: String| k@);
    let ghost vs = values@.map_values(|v: String| v@);
    let n = keys.len();
    let mut links: StringHashMap<Vec<String>> = StringHashMap::new();
    for i in 0..n
        invariant
            n == keys@.len(),
            n == values@.len(),
            ks == keys@.map_values(|k: String| k@),
            vs == values@.map_values(|v: String| v@),
            forall|t: Seq<char>| #[trigger] links@.contains_key(t) ==> links@[t]@.map_values(
                |k: String| k@,
            ) == links_to(ks, vs, i as int, t),
            forall|t: Seq<char>| !#[trigger] links@.contains_key(t) ==> links_to(ks, vs, i as int, t)
                =~= Seq::<Seq<char>>::empty(),
    {
        let ghost before = links@;
        match strip_prefix(values[i].as_str(), "@@@LINK=") {
            Some(rest) => {
                proof {
                    reveal_strlit("@@@LINK=");
                }
                let target = trim(rest.as_str());
                let mut list: Vec<String> = match links.get(target.as_str()) {
                    Some(v) => v.clone(),
                    None => Vec::new(),
                };
                let ghost old_list = list@;
                list.push(keys[i].clone());
                proof {
                    if before.contains_key(target@) {
                        assert(old_list =~= before[target@]@);
                    }
                    assert(list@.map_values(|k: String| k@) =~= old_list.map_values(|k: String| k@).push(ks[i as int]));
                }
                links.insert(target, list);
                proof {
                    assert forall|t: Seq<char>| #[trigger] links@.contains_key(t) implies links@[t]@.map_values(
                        |k: String| k@,
                    ) == links_to(ks, vs, i + 1, t) by {
                        assert(is_link(vs[i as int]));
                        assert(link_target(vs[i as int]) == target@);
                    }
                    assert forall|t: Seq<char>| !#[trigger] links@.contains_key(t) implies links_to(
                        ks,
                        vs,
                        i + 1,
                        t,
                    ) =~= Seq::<Seq<char>>::empty() by {
                        assert(t != target@);
                    }
                }
            },
            None => {
                proof {
                    reveal_strlit("@@@LINK=");
                    assert(!is_link(vs[i as int]));
                    assert forall|t: Seq<char>| #[trigger] links@.contains_key(t) implies links@[t]@.map_values(
                        |k: String| k@,
                    ) == links_to(ks, vs, i + 1, t) by {}
                }
            },
        }
    }
    let mut entries: Vec<Entry> = Vec::new();
    let mut keys = keys;
    let mut values = values;
    let ghost kvec = keys@;
    let ghost vvec = values@;
    // Take the pairs from the back, then reverse, to move the strings out.
    let mut rev: Vec<Entry> = Vec::new();
    let mut i = n;
    while i > 0
        invariant
            i <= n,
            n == kvec.len(),
            n == vvec.len(),
            keys@ == kvec.subrange(0, i as int),
            values@ == vvec.subrange(0, i as int),
            ks == kvec.map_values(|k: String| k@),
            vs == vvec.map_values(|v: String| v@),
            forall|t: Seq<char>| #[trigger] links@.contains_key(t) ==> links@[t]@.map_values(
                |k: String| k@,
            ) == links_to(ks, vs, n as int, t),
            forall|t: Seq<char>| !#[trigger] links@.contains_key(t) ==> links_to(ks, vs, n as int, t)
                =~= Seq::<Seq<char>>::empty(),
            mdx_entries_spec(ks, vs, n as int) == mdx_entries_spec(ks, vs, i as int) + entries_view(rev@).reverse(),
        decreases i,
    {
        let term = keys.pop().unwrap();
        let defi = values.pop().unwrap();
        proof {
            assert(keys@ =~= kvec.subrange(0, i - 1));
            assert(values@ =~= vvec.subrange(0, i - 1));
            assert(term@ == ks[i - 1]);
            assert(defi@ == vs[i - 1]);
        }
        i = i - 1;
        match strip_prefix(defi.as_str(), "@@@LINK=") {
            Some(_) => {
                proof {
                    reveal_strlit("@@@LINK=");
                    assert(is_link(vs[i as int]));
                }
            },
            None => {
                proof {
                    reveal_strlit("@@@LINK=");
                }
                let mut alts: Vec<AltEntry> = Vec::new();
                let ghost want = links_to(ks, vs, n as int, ks[i as int]);
                match links.get(term.as_str()) {
                    Some(list) => {
                        let m = list.len();
                        for j in 0..m
                            invariant
                                m == list@.len(),
                                list@.map_values(|k: String| k@) == want,
                                alts_view(alts@) == want.subrange(0, j as int).map_values(
                                    |t: Seq<char>| AltView { term: t, definition: None },
                                ),
                        {
                            let a = AltEntry::only_term(list[j].clone());
                            let ghost prev = alts@;
                            alts.push(a);
                            assert(alts_view(alts@) =~= alts_view(prev).push(a@));
                            assert(want.subrange(0, j + 1).map_values(
                                |t: Seq<char>| AltView { term: t, definition: None },
                            ) =~= want.subrange(0, j as int).map_values(
                                |t: Seq<char>| AltView { term: t, definition: None },
                            ).push(AltView { term: want[j as int], definition: None }));
                            assert(want[j as int] == list@[j as int]@);
                        }
                        assert(want.subrange(0, m as int) =~= want);
                    },
                    None => {
                        assert(want =~= Seq::<Seq<char>>::empty());
                        assert(alts_view(alts@) =~= want.map_values(
                            |t: Seq<char>| AltView { term: t, definition: None },
                        ));
                    },
                }
                let e = Entry::with_html(term, defi).with_alts(alts);
                let ghost prev = rev@;
                rev.push(e);
                proof {
                    assert(entries_view(rev@) =~= entries_view(prev).push(e@));
                    assert(entries_view(rev@).reverse() =~= seq![e@] + entries_view(prev).reverse());
                }
            },
        }
    }
    let m = rev.len();
    let mut k = m;
    assert(mdx_entries_spec(ks, vs, 0) =~= Seq::<EntryView>::empty());
    assert(entries_view(entries@) =~= Seq::<EntryView>::empty());
    assert(entries_view(entries@) + entries_view(rev@).reverse() =~= entries_view(rev@).reverse());
    while k > 0
        invariant
            k <= m,
            k == rev@.len(),
            m == rev@.len() + entries@.len(),
            entries_view(entries@) + entries_view(rev@).reverse() == mdx_entries_spec(ks, vs, n as int),
        decreases k,
    {
        let ghost rv = rev@;
        let e = rev.pop().unwrap();
        k = k - 1;
        let ghost prev = entries@;
        entries.push(e);
        proof {
            assert(entries_view(entries@) =~= entries_view(prev).push(e@));
            assert(entries_view(rv).reverse() =~= seq![e@] + entries_view(rev@).reverse());
            assert(entries_view(entries@) + entries_view(rev@).reverse() =~= entries_view(prev) + entries_view(rv).reverse());
        }
    }
    assert(entries_view(rev@).reverse() =~= Seq::<EntryView>::empty());
    assert(entries_view(entries@) + entries_view(rev@).reverse() =~= entries_view(entries@));
    entries
}

/// What an .mdx file holds: its header attributes, its stylesheet (if any),
/// its keys and their records, decoded; `None` where the file is not a
/// supported .mdx (or ends early).
pub open spec fn mdx_parts(data: Seq<u8>) -> Option<
    (
        Seq<(Seq<char>, Seq<char>)>,
        Option<Seq<(u32, (Seq<char>, Seq<char>))>>,
        Seq<Seq<char>>,
        Seq<Seq<char>>,
    ),
> {
    match header_raw_spec(data, 0) {
        Err(_) => None,
        Ok((raw, p1)) => {
            let attrs = header_attrs_spec(mdx_header_matches(lossy_utf16le(raw)));
            if header_error_spec(attrs) is Some {
                None
            } else {
                let info = store_all(seq![("name"@, "name"@)], attrs);
                let level = match info_get(info, "encrypted"@) {
                    Some(v) => v,
                    None => "no"@,
                };
                match encryption_from_attr_spec(level) {
                    Err(_) => None,
                    Ok(enc) => match key_section_spec(data, p1, enc, false) {
                        None => None,
                        Some((raw_keys, p2)) => match record_section_spec(data, p2) {
                            None => None,
                            Some((records, _)) => match split_records(records, 0, raw_keys.len()) {
                                None => None,
                                Some(vals) => Some(
                                    (
                                        attrs,
                                        match lookup(attrs, "StyleSheet"@) {
                                            Some(text) => Some(stylesheet_spec(text)),
                                            None => None,
                                        },
                                        decode_keys_spec(raw_keys, "UTF-8"@),
                                        vals.map_values(|v: Seq<u8>| lossy_utf8(v)),
                                    ),
                                ),
                            },
                        },
                    },
                }
            }
        },
    }
}

/// Whether `got` is the error reading an .mdx meets where [`mdx_parts`]
/// finds nothing: the first part that is missing or refused gives it.
pub open spec fn mdx_error_matches(data: Seq<u8>, got: MdictError) -> bool {
    match header_raw_spec(data, 0) {
        Err(e) => got == e,
        Ok((raw, p1)) => {
            let attrs = header_attrs_spec(mdx_header_matches(lossy_utf16le(raw)));
            if header_error_spec(attrs) is Some {
                header_error_matches(attrs, got)
            } else {
                let info = store_all(seq![("name"@, "name"@)], attrs);
                let level = match info_get(info, "encrypted"@) {
                    Some(v) => v,
                    None => "no"@,
                };
                match encryption_from_attr_spec(level) {
                    Err(MdictError::InvalidEncryptionLevel(_)) => got matches MdictError::InvalidEncryptionLevel(v)
                        && v@ == level,
                    Err(e) => got == e,
                    Ok(enc) => match key_section_spec(data, p1, enc, false) {
                        None => got == key_section_error(data, p1, enc, false),
                        Some((_, p2)) => match record_section_spec(data, p2) {
                            None => got == record_section_error(data, p2),
                            Some(_) => got == MdictError::MissingRecord,
                        },
                    },
                }
            }
        },
    }
}

/// Checks that the reader is given an `.mdx` file: `NotAnMdx` with the path
/// where its extension is not `mdx`.
pub fn check_mdx_path(path: &str) -> (r: Result<(), MdictError>)
    ensures
        r is Ok <==> path_extension(path@) == Some("mdx"@),
        r matches Err(e) ==> e matches MdictError::NotAnMdx(p) && p@ == path@,
{
    let ok = match extension_of(path) {
        Some(e) => str_eq(e.as_str(), "mdx"),
        None => false,
    };
    if ok {
        Ok(())
    } else {
        Err(MdictError::NotAnMdx(path.to_string()))
    }
}

/// Reads the glossary an .mdx file holds: its header attributes become the
/// info, its records the entries (html), and the records that link to another
/// headword become alts of that headword's entries.
pub fn read_mdx(data: &[u8]) -> (r: Result<Glossary, MdictError>)
    ensures
        match mdx_parts(data@) {
            Some((attrs, sheet, keys, values)) => r is Ok && {
                let g = r->Ok_0;
                &&& g.info.wf()
                &&& g.info@ == store_all(seq![("name"@, "name"@)], attrs)
                &&& entries_view(g.entries@) == mdx_entries_spec(keys, values, keys.len() as int)
                &&& g.data_entries@.len() == 0
                &&& g.metadata.tag_bank is None
                &&& match sheet {
                    Some(st) => g.metadata.stylesheet is Some && stylesheet_view(
                        g.metadata.stylesheet->0@,
                    ) == st,
                    None => g.metadata.stylesheet is None,
                }
            },
            None => r is Err && mdx_error_matches(data@, r->Err_0),
        },
{
    let mut pos: usize = 0;
    let header = read_header(data, &mut pos)?;
    let ParsedHeader { attrs, encoding, stylesheet } = header;
    let info = GlossaryInfo::from_pairs(attrs);
    let encryption = match info.get("encrypted") {
        Some(v) => EncryptionKind::from_attr(v)?,
        None => EncryptionKind::from_attr("no")?,
    };
    proof {
        reveal_strlit("no");
    }
    proof {
        reveal_strlit("UTF-8");
        reveal_strlit("UTF-16LE");
        assert(encoding@ == "UTF-8"@);
        assert("UTF-8"@.len() == 5);
        assert("UTF-16LE"@.len() == 8);
        assert(encoding@ != "UTF-16LE"@);
    }
    let keys = read_keys(data, &mut pos, encoding.as_str(), encryption)?;
    proof {
        assert(keys@.map_values(|k: String| k@).len() == keys@.len());
    }
    let ghost p2 = pos;
    let values = read_values(data, &mut pos, keys.as_slice())?;
    proof {
        assert(values@.map_values(|v: String| v@).len() == values@.len());
        if let Some((records, _)) = record_section_spec(data@, p2 as int) {
            lemma_split_records_len(records, 0, keys@.len());
        }
    }
    let entries = build_entries(keys, values);
    Ok(Glossary {
        entries,
        data_entries: Vec::new(),
        info,
        metadata: GlossaryMetadata { tag_bank: None, stylesheet },
    })
}

} // verus!
