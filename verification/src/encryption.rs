//! The checksum and the key scrambling that the Mdict format uses.

use ripemd::Digest;
use vstd::prelude::*;

verus! {

/// The Adler-32 running sums `(a, b)` after `data`, each reduced modulo 65521.
pub open spec fn adler32_sums(data: Seq<u8>) -> (int, int)
    decreases data.len(),
{
    if data.len() == 0 {
        (1, 0)
    } else {
        let (a, b) = adler32_sums(data.drop_last());
        let a2 = (a + data.last()) % 65521;
        (a2, (b + a2) % 65521)
    }
}

/// The Adler-32 checksum of `data`: `b * 2^16 + a`.
pub open spec fn adler32_spec(data: Seq<u8>) -> int {
    adler32_sums(data).1 * 65536 + adler32_sums(data).0
}

/// The checksum every mdict block carries.
///
/// Calls `simd_adler32::adler32`, whose contract here is the Adler-32
/// definition (RFC 1950): the two sums modulo 65521 packed as `b << 16 | a`.
#[verifier::external_body]
pub fn adler32(data: &[u8]) -> (res: u32)
    ensures
        res as int == adler32_spec(data@),
{
    simd_adler32::adler32(&data)
}

/// The RIPEMD-128 digest of `data`.
pub uninterp spec fn ripemd128_digest(data: Seq<u8>) -> Seq<u8>;

/// Calls `ripemd::Ripemd128::digest`; the contract says only that the result
/// is the 16-byte digest of the input, under a name.
#[verifier::external_body]
pub fn ripemd128(data: &[u8]) -> (res: [u8; 16])
    ensures
        res@ == ripemd128_digest(data@),
{
    ripemd::Ripemd128::digest(data).into()
}

/// The byte `fast_decrypt` writes at position `i`, given the encrypted bytes.
pub open spec fn fast_decrypt_byte(data: Seq<u8>, key: Seq<u8>, i: int) -> u8 {
    let current = data[i];
    let prev: u8 = if i == 0 { 0x36 } else { data[i - 1] };
    let rotated = (((current as int) % 16) * 16 + (current as int) / 16) as u8;
    (rotated ^ prev ^ ((i % 256) as u8) ^ key[i % (key.len() as int)]) as u8
}

/// Undoes the key scrambling of an encrypted Mdict index, in place.
pub fn fast_decrypt(data: &mut [u8], key: &[u8])
    requires
        key@.len() > 0,
    ensures
        final(data)@.len() == old(data)@.len(),
        forall|i: int|
            0 <= i < old(data)@.len() ==> #[trigger] final(data)@[i] == fast_decrypt_byte(
                old(data)@,
                key@,
                i,
            ),
{
    let ghost encrypted = data@;
    let mut prev: u8 = 0x36;
    let n = data.len();
    for i in 0..n
        invariant
            n == data@.len(),
            encrypted.len() == n,
            key@.len() > 0,
            forall|j: int| i <= j < n ==> data@[j] == encrypted[j],
            forall|j: int| 0 <= j < i ==> #[trigger] data@[j] == fast_decrypt_byte(encrypted, key@, j),
            i == 0 ==> prev == 0x36,
            i > 0 ==> prev == encrypted[i - 1],
    {
        let current = data[i];
        let t = (current % 16) * 16 + current / 16;
        let k = key[i % key.len()];
        let idx = (i % 256) as u8;
        let t = t ^ prev ^ idx ^ k;
        prev = current;
        data[i] = t;
    }
}

} // verus!
