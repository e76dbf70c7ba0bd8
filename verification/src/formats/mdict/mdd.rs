//! Reading an .mdd: the resources (pictures, sounds, stylesheets) an .mdx
//! refers to, keyed by their paths in UTF-16.

use vstd::prelude::*;

use crate::bytes::{be64, read_u64_be};
use crate::formats::mdict::reader::{
    decompress_block, decompress_spec, header_raw_spec, key_block_info_from, lemma_utf16_key_next,
    parse_key_block_info, read_header_raw, read_records, record_section_error, record_section_spec, take, take_spec,
    utf16_key,
    utf16_key_from,
};
use crate::formats::mdict::MdictError;
use crate::formats::stardict::reader::slice_to_bytes;
use crate::glossary::DataEntry;
use crate::strs::{chars_of, lossy_utf16le, replace_all, replace_spec, string_of, utf16le_lossy};

verus! {

/// The resources of a decompressed .mdd key block from `p`: each is where its
/// bytes start (a big-endian u64) and its key in UTF-16LE, up to a zero unit.
pub open spec fn mdd_block_from(block: Seq<u8>, p: int) -> Option<Seq<(int, Seq<u8>)>>
    decreases block.len() - p,
{
    if p < 0 || p >= block.len() {
        Some(Seq::empty())
    } else if p + 8 > block.len() {
        None
    } else {
        let (key, next) = utf16_key_from(block, p + 8);
        if next <= p || next > block.len() {
            None
        } else {
            match mdd_block_from(block, next) {
                Some(rest) => Some(seq![(be64(block.subrange(p, p + 8)), key)] + rest),
                None => None,
            }
        }
    }
}

/// The resources of the key blocks of the given sizes, from `p` on; with the
/// position after them.
pub open spec fn mdd_key_blocks(data: Seq<u8>, p: int, sizes: Seq<(u64, u64)>) -> Option<
    (Seq<(int, Seq<u8>)>, int),
>
    decreases sizes.len(),
{
    if sizes.len() == 0 {
        Some((Seq::empty(), p))
    } else {
        match take_spec(data, p, sizes[0].0 as int) {
            Some((raw, q)) => match decompress_spec(raw) {
                Ok(block) => match mdd_block_from(block, 0) {
                    Some(keys) => match mdd_key_blocks(data, q, sizes.drop_first()) {
                        Some((rest, end)) => Some((keys + rest, end)),
                        None => None,
                    },
                    None => None,
                },
                Err(_) => None,
            },
            None => None,
        }
    }
}

/// The key section of an .mdd at `p` (not encrypted): five u64 fields and
/// their sum, the key block info (UTF-16 keys), then the key blocks.
pub open spec fn mdd_key_section(data: Seq<u8>, p: int) -> Option<(Seq<(int, Seq<u8>)>, int)> {
    if p < 0 || p + 44 > data.len() {
        None
    } else {
        let info_size = be64(data.subrange(p + 24, p + 32));
        match take_spec(data, p + 44, info_size) {
            Some((info, q)) => match decompress_spec(info) {
                Ok(plain) => match key_block_info_from(plain, 0, true) {
                    Some(sizes) => mdd_key_blocks(data, q, sizes),
                    None => None,
                },
                Err(_) => None,
            },
            None => None,
        }
    }
}

/// The error reading .mdd key blocks meets first: a block that fails to
/// decompress gives its error, anything else missing `UnexpectedEof`.
pub open spec fn mdd_key_blocks_error(data: Seq<u8>, p: int, sizes: Seq<(u64, u64)>) -> MdictError
    decreases sizes.len(),
{
    if sizes.len() == 0 {
        MdictError::UnexpectedEof
    } else {
        match take_spec(data, p, sizes[0].0 as int) {
            Some((raw, q)) => match decompress_spec(raw) {
                Ok(block) => match mdd_block_from(block, 0) {
                    Some(_) => mdd_key_blocks_error(data, q, sizes.drop_first()),
                    None => MdictError::UnexpectedEof,
                },
                Err(e) => e,
            },
            None => MdictError::UnexpectedEof,
        }
    }
}

/// The error reading the .mdd key section at `p` meets where
/// [`mdd_key_section`] finds nothing.
pub open spec fn mdd_key_section_error(data: Seq<u8>, p: int) -> MdictError {
    if p < 0 || p + 44 > data.len() {
        MdictError::UnexpectedEof
    } else {
        let info_size = be64(data.subrange(p + 24, p + 32));
        match take_spec(data, p + 44, info_size) {
            Some((info, q)) => match decompress_spec(info) {
                Ok(plain) => match key_block_info_from(plain, 0, true) {
                    Some(sizes) => mdd_key_blocks_error(data, q, sizes),
                    None => MdictError::UnexpectedEof,
                },
                Err(e) => e,
            },
            None => MdictError::UnexpectedEof,
        }
    }
}

/// The error reading an .mdd meets where [`mdd_parts`] finds nothing: the
/// first part that is missing or refused gives it, and resources out of
/// order `MissingRecord`.
pub open spec fn mdd_error(data: Seq<u8>) -> MdictError {
    match header_raw_spec(data, 0) {
        Err(e) => e,
        Ok((_, p1)) => match mdd_key_section(data, p1) {
            None => mdd_key_section_error(data, p1),
            Some((_, p2)) => match record_section_spec(data, p2) {
                None => record_section_error(data, p2),
                Some(_) => MdictError::MissingRecord,
            },
        },
    }
}

/// The path a resource key names: its leading `\` dropped, `\` read as `/`.
pub open spec fn resource_name(key: Seq<char>) -> Seq<char> {
    let t = if key.len() > 0 && key[0] == '\\' {
        key.skip(1)
    } else {
        key
    };
    replace_spec(t, "\\"@, "/"@)
}

/// Where the bytes of resource `i` end: where the next one starts, or at the
/// end of the records.
pub open spec fn resource_end(keys: Seq<(int, Seq<u8>)>, records: Seq<u8>, i: int) -> int {
    if i + 1 < keys.len() {
        keys[i + 1].0
    } else {
        records.len() as int
    }
}

/// The resources the keys and the records make: each key's path and the
/// bytes from its start to the next one's; none where a start is out of order.
pub open spec fn mdd_resources(keys: Seq<(int, Seq<u8>)>, records: Seq<u8>) -> Option<Seq<(Seq<char>, Seq<u8>)>> {
    if forall|i: int| 0 <= i < keys.len() ==> 0 <= #[trigger] keys[i].0 <= resource_end(keys, records, i) <= records.len() {
        Some(
            Seq::new(
                keys.len(),
                |i: int| (resource_name(lossy_utf16le(keys[i].1)), records.subrange(keys[i].0, resource_end(keys, records, i))),
            ),
        )
    } else {
        None
    }
}

/// What an .mdd holds: its resources, in the order of its keys; none where it
/// is not a readable .mdd.
pub open spec fn mdd_parts(data: Seq<u8>) -> Option<Seq<(Seq<char>, Seq<u8>)>> {
    match header_raw_spec(data, 0) {
        Err(_) => None,
        Ok((_, p1)) => match mdd_key_section(data, p1) {
            None => None,
            Some((keys, p2)) => match record_section_spec(data, p2) {
                None => None,
                Some((records, _)) => mdd_resources(keys, records),
            },
        },
    }
}

/// The path and bytes of each data entry.
pub open spec fn data_views(v: Seq<DataEntry>) -> Seq<(Seq<char>, Seq<u8>)> {
    v.map_values(|d: DataEntry| (d.spec_fname(), d.spec_bytes()))
}

/// Offsets and keys as numbers and bytes.
pub open spec fn offset_key_views(v: Seq<(u64, Vec<u8>)>) -> Seq<(int, Seq<u8>)> {
    v.map_values(|e: (u64, Vec<u8>)| (e.0 as int, e.1@))
}

/// The resources of a decompressed .mdd key block.
fn block_resources(block: &[u8]) -> (r: Option<Vec<(u64, Vec<u8>)>>)
    ensures
        match mdd_block_from(block@, 0) {
            Some(ks) => r is Some && offset_key_views(r->0@) == ks,
            None => r is None,
        },
{
    let mut out: Vec<(u64, Vec<u8>)> = Vec::new();
    let mut pos: usize = 0;
    while pos < block.len()
        invariant
            pos <= block@.len(),
            mdd_block_from(block@, 0) == match mdd_block_from(block@, pos as int) {
                Some(rest) => Some(offset_key_views(out@) + rest),
                None => None::<Seq<(int, Seq<u8>)>>,
            },
        decreases block@.len() - pos,
    {
        if block.len() - pos < 8 {
            return None;
        }
        let p = pos;
        let mut q = p;
        let offset = match read_u64_be(block, &mut q) {
            Some(v) => v,
            None => {
                return None;
            },
        };
        proof {
            lemma_utf16_key_next(block@, p + 8);
        }
        let (key, next) = utf16_key(block, p + 8);
        let ghost before = offset_key_views(out@);
        out.push((offset, key));
        proof {
            assert(offset_key_views(out@) =~= before.push((offset as int, key@)));
            match mdd_block_from(block@, next as int) {
                Some(rest) => {
                    assert(before.push((offset as int, key@)) + rest =~= before + (seq![(offset as int, key@)] + rest));
                },
                None => {},
            }
        }
        pos = next;
    }
    assert(offset_key_views(out@) + Seq::<(int, Seq<u8>)>::empty() =~= offset_key_views(out@));
    Some(out)
}

/// The path a resource key names.
fn resource_name_of(key: &[u8]) -> (r: String)
    ensures
        r@ == resource_name(lossy_utf16le(key@)),
{
    proof {
        reveal_strlit("\\");
        reveal_strlit("/");
    }
    let text = utf16le_lossy(key);
    let cs = chars_of(text.as_str());
    let start: usize = if cs.len() > 0 && cs[0] == '\\' { 1 } else { 0 };
    let rest = crate::strs::slice_to_vec(cs.as_slice(), start, cs.len());
    assert(start == 1 ==> rest@ =~= cs@.skip(1));
    assert(start == 0 ==> rest@ =~= cs@);
    let rest_s = string_of(rest.as_slice());
    replace_all(rest_s.as_str(), "\\", "/")
}

/// Reads the resources an .mdd holds, in the order of its keys.
pub fn read_mdd(data: &[u8]) -> (r: Result<Vec<DataEntry>, MdictError>)
    ensures
        match mdd_parts(data@) {
            Some(rs) => r is Ok && data_views(r->Ok_0@) == rs,
            None => r == Err::<Vec<DataEntry>, MdictError>(mdd_error(data@)),
        },
{
    let mut pos: usize = 0;
    match read_header_raw(data, &mut pos) {
        Ok(_) => {},
        Err(e) => {
            return Err(e);
        },
    }
    let p1 = pos;
    if data.len() - p1 < 44 {
        return Err(MdictError::UnexpectedEof);
    }
    let mut q = p1 + 24;
    let info_size = match read_u64_be(data, &mut q) {
        Some(v) => v,
        None => {
            return Err(MdictError::UnexpectedEof);
        },
    };
    let mut q = p1 + 44;
    let info = match take(data, &mut q, info_size) {
        Some(v) => v,
        None => {
            return Err(MdictError::UnexpectedEof);
        },
    };
    let plain = match decompress_block(info.as_slice()) {
        Ok(v) => v,
        Err(e) => {
            return Err(e);
        },
    };
    let sizes = match parse_key_block_info(plain.as_slice(), true) {
        Ok(v) => v,
        Err(e) => {
            return Err(e);
        },
    };
    let mut keys: Vec<(u64, Vec<u8>)> = Vec::new();
    let n = sizes.len();
    assert(sizes@.skip(0) =~= sizes@);
    assert(offset_key_views(keys@) + Seq::<(int, Seq<u8>)>::empty() =~= Seq::<(int, Seq<u8>)>::empty());
    for i in 0..n
        invariant
            n == sizes@.len(),
            q <= data@.len(),
            header_raw_spec(data@, 0) matches Ok((_, e)) && e == p1,
            mdd_key_section(data@, p1 as int) == match mdd_key_blocks(data@, q as int, sizes@.skip(i as int)) {
                Some((rest, end)) => Some((offset_key_views(keys@) + rest, end)),
                None => None::<(Seq<(int, Seq<u8>)>, int)>,
            },
            mdd_key_section_error(data@, p1 as int) == mdd_key_blocks_error(data@, q as int, sizes@.skip(i as int)),
    {
        let ghost rest_sizes = sizes@.skip(i as int);
        assert(rest_sizes.drop_first() =~= sizes@.skip(i + 1));
        assert(rest_sizes[0] == sizes@[i as int]);
        let raw = match take(data, &mut q, sizes[i].0) {
            Some(v) => v,
            None => {
                return Err(MdictError::UnexpectedEof);
            },
        };
        let block = match decompress_block(raw.as_slice()) {
            Ok(v) => v,
            Err(e) => {
                return Err(e);
            },
        };
        let found = match block_resources(block.as_slice()) {
            Some(v) => v,
            None => {
                return Err(MdictError::UnexpectedEof);
            },
        };
        let ghost before = offset_key_views(keys@);
        let ghost bk = offset_key_views(found@);
        let mut found = found;
        keys.append(&mut found);
        proof {
            assert(offset_key_views(keys@) =~= before + bk);
            match mdd_key_blocks(data@, q as int, sizes@.skip(i + 1)) {
                Some((rest, end)) => {
                    assert(before + bk + rest =~= before + (bk + rest));
                },
                None => {},
            }
        }
    }
    assert(sizes@.skip(n as int) =~= Seq::<(u64, u64)>::empty());
    assert(offset_key_views(keys@) + Seq::<(int, Seq<u8>)>::empty() =~= offset_key_views(keys@));
    let ghost kv = offset_key_views(keys@);
    assert(mdd_key_section(data@, p1 as int) == Some((kv, q as int)));
    pos = q;
    let records = match read_records(data, &mut pos) {
        Ok(v) => v,
        Err(e) => {
            return Err(e);
        },
    };
    let m = keys.len();
    let mut out: Vec<DataEntry> = Vec::new();
    for i in 0..m
        invariant
            m == keys@.len(),
            kv == offset_key_views(keys@),
            header_raw_spec(data@, 0) matches Ok((_, e)) && e == p1,
            mdd_key_section(data@, p1 as int) == Some((kv, q as int)),
            record_section_spec(data@, q as int) matches Some((rs, _)) && rs == records@,
            forall|j: int| 0 <= j < i ==> 0 <= #[trigger] kv[j].0 <= resource_end(kv, records@, j) <= records@.len(),
            data_views(out@) == Seq::new(
                i as nat,
                |j: int| (resource_name(lossy_utf16le(kv[j].1)), records@.subrange(kv[j].0, resource_end(kv, records@, j))),
            ),
    {
        let start = keys[i].0;
        let end: u64 = if i + 1 < m { keys[i + 1].0 } else { records.len() as u64 };
        assert(kv[i as int] == (keys@[i as int].0 as int, keys@[i as int].1@));
        if i + 1 < m {
            assert(kv[i + 1] == (keys@[i + 1].0 as int, keys@[i + 1].1@));
        }
        assert(end as int == resource_end(kv, records@, i as int));
        if !(start <= end && end <= records.len() as u64) {
            assert(!(0 <= kv[i as int].0 <= resource_end(kv, records@, i as int) <= records@.len()));
            return Err(MdictError::MissingRecord);
        }
        let bytes = slice_to_bytes(records.as_slice(), start as usize, end as usize);
        let name = resource_name_of(keys[i].1.as_slice());
        let ghost prev = data_views(out@);
        let ghost item = (name@, bytes@);
        out.push(DataEntry::new(name, bytes));
        assert(data_views(out@) =~= prev.push(item));
        assert(data_views(out@) =~= Seq::new(
            (i + 1) as nat,
            |j: int| (resource_name(lossy_utf16le(kv[j].1)), records@.subrange(kv[j].0, resource_end(kv, records@, j))),
        ));
    }
    Ok(out)
}

} // verus!
