//! Why the .mdx keys the writer makes from headwords read back as those
//! headwords.

use vstd::prelude::*;

use crate::formats::mdict::readback::{lemma_key_section_roundtrip, no_nul};
use crate::formats::mdict::reader::{decode_keys_spec, key_section_spec};
use crate::formats::mdict::writer::{key_block_spec, key_section_bytes, key_section_undone};
use crate::formats::mdict::{CompressionKind, EncryptionKind};
use crate::formats::stardict::writer::lemma_utf8_back;
use crate::glossary::entry::utf8_of;

verus! {

/// A byte or-ed with a mask of high bits is not zero.
proof fn lemma_or_nonzero(hi: u8, x: u8)
    requires
        hi != 0,
    ensures
        (hi | x) != 0,
{
    assert((hi | x) != 0) by (bit_vector)
        requires
            hi != 0,
    ;
}

/// A character other than NUL has no zero byte in its utf-8.
proof fn lemma_scalar_no_nul(c: char)
    requires
        c != '\0',
    ensures
        no_nul(vstd::utf8::encode_scalar(c as u32)),
{
    let v = c as u32;
    let e = vstd::utf8::encode_scalar(v);
    if vstd::utf8::has_width_1_encoding(v) {
        assert(v != 0);
        assert((v & 0x7F) as u8 != 0) by (bit_vector)
            requires
                v != 0,
                v <= 0x7F,
        ;
    } else {
        lemma_or_nonzero(0xC0, ((v >> 6) & 0x1F) as u8);
        lemma_or_nonzero(0xE0, ((v >> 12) & 0x0F) as u8);
        lemma_or_nonzero(0xF0, ((v >> 18) & 0x7) as u8);
        lemma_or_nonzero(0x80, (v & 0x3F) as u8);
        lemma_or_nonzero(0x80, ((v >> 6) & 0x3F) as u8);
        lemma_or_nonzero(0x80, ((v >> 12) & 0x3F) as u8);
    }
}

/// A text without NUL characters has no zero byte in its utf-8, so it can
/// stand as an .mdx key (whose end a zero byte marks).
pub proof fn lemma_utf8_no_nul(s: Seq<char>)
    requires
        forall|i: int| 0 <= i < s.len() ==> #[trigger] s[i] != '\0',
    ensures
        no_nul(utf8_of(s)),
    decreases s.len(),
{
    if s.len() > 0 {
        let rest = s.drop_first();
        assert(forall|i: int| 0 <= i < rest.len() ==> #[trigger] rest[i] == s[i + 1]);
        lemma_utf8_no_nul(rest);
        lemma_scalar_no_nul(s[0]);
        let a = vstd::utf8::encode_scalar(s[0] as u32);
        assert(utf8_of(s) == a + utf8_of(rest));
        assert forall|i: int| 0 <= i < utf8_of(s).len() implies #[trigger] utf8_of(s)[i] != 0 by {
            if i < a.len() {
                assert(utf8_of(s)[i] == a[i]);
            } else {
                assert(utf8_of(s)[i] == utf8_of(rest)[i - a.len()]);
            }
        }
    }
}

/// What the key section reader gives back of the key section written for
/// some headwords: each headword, in order. Headwords holding a NUL, a first
/// or last headword of 65536 bytes or more, and sizes past the format's
/// fields are left out; with zlib, the deflated blocks must inflate back
/// (as `write_key_section` ensures).
pub proof fn lemma_key_terms_roundtrip(
    terms: Seq<Seq<char>>,
    offsets: Seq<u64>,
    kind: CompressionKind,
    enc: EncryptionKind,
    pre: Seq<u8>,
    post: Seq<u8>,
)
    requires
        kind != CompressionKind::Lzo,
        enc != EncryptionKind::Two,
        key_section_undone(terms.map_values(|t: Seq<char>| utf8_of(t)), offsets, kind),
        forall|i: int, j: int| 0 <= i < terms.len() && 0 <= j < terms[i].len() ==> #[trigger] terms[i][j] != '\0',
        terms.len() > 0 ==> utf8_of(terms[0]).len() < 65536 && utf8_of(terms.last()).len() < 65536,
        key_section_bytes(terms.map_values(|t: Seq<char>| utf8_of(t)), offsets, kind).len() < 18446744073709551616,
        key_block_spec(terms.map_values(|t: Seq<char>| utf8_of(t)), offsets).len() < 18446744073709551616,
    ensures
        ({
            let keys = terms.map_values(|t: Seq<char>| utf8_of(t));
            let ks = key_section_bytes(keys, offsets, kind);
            &&& key_section_spec(pre + ks + post, pre.len() as int, enc, false) == Some(
                (keys, (pre.len() + ks.len()) as int),
            )
            &&& decode_keys_spec(keys, "UTF-8"@) == terms
        }),
{
    let keys = terms.map_values(|t: Seq<char>| utf8_of(t));
    assert forall|i: int| 0 <= i < keys.len() implies no_nul(#[trigger] keys[i]) by {
        assert forall|j: int| 0 <= j < terms[i].len() implies #[trigger] terms[i][j] != '\0' by {}
        lemma_utf8_no_nul(terms[i]);
    }
    lemma_key_section_roundtrip(keys, offsets, kind, enc, pre, post);
    reveal_strlit("UTF-8");
    reveal_strlit("UTF-16LE");
    assert("UTF-8"@ != "UTF-16LE"@) by {
        assert("UTF-8"@.len() != "UTF-16LE"@.len());
    }
    assert forall|i: int| 0 <= i < terms.len() implies #[trigger] decode_keys_spec(keys, "UTF-8"@)[i] == terms[i] by {
        lemma_utf8_back(terms[i]);
    }
    assert(decode_keys_spec(keys, "UTF-8"@) =~= terms);
}

} // verus!
