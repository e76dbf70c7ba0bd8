use pangloss::encryption::{adler32, fast_decrypt, ripemd128};
use pangloss::formats::mdict::reader::decompress_block;
use pangloss::formats::mdict::writer::compress_block;
use pangloss::formats::mdict::{CompressionKind, MdictError};

#[test]
fn adler32_of_known_inputs() {
    assert_eq!(adler32(b""), 1);
    assert_eq!(adler32(b"Wikipedia"), 0x11E6_0398);
}

#[test]
fn ripemd128_of_known_inputs() {
    assert_eq!(
        ripemd128(b""),
        [0xcd, 0xf2, 0x62, 0x13, 0xa1, 0x50, 0xdc, 0x3e, 0xcb, 0x61, 0x0f, 0x18, 0xf6, 0xb3, 0x8b, 0x46]
    );
    assert_eq!(
        ripemd128(b"abc"),
        [0xc1, 0x4a, 0x12, 0x19, 0x9c, 0x66, 0xe4, 0xba, 0x84, 0x63, 0x6b, 0x0f, 0x69, 0x14, 0x4c, 0x77]
    );
}

#[test]
fn fast_decrypt_byte_by_byte() {
    let mut data = [0x12u8, 0x34];
    fast_decrypt(&mut data, &[0xff]);
    // rotate 0x12 -> 0x21, ^ 0x36 ^ 0 ^ 0xff
    assert_eq!(data[0], 0x21 ^ 0x36 ^ 0x00 ^ 0xff);
    // rotate 0x34 -> 0x43, ^ previous encrypted 0x12 ^ 1 ^ 0xff
    assert_eq!(data[1], 0x43 ^ 0x12 ^ 0x01 ^ 0xff);
}

#[test]
fn blocks_decompress_to_what_was_compressed() {
    let data = b"some bytes, some bytes, some bytes".to_vec();
    for kind in [CompressionKind::Stored, CompressionKind::Zip] {
        let block = compress_block(&data, kind);
        assert_eq!(decompress_block(&block).unwrap(), data);
    }
    let stored = compress_block(&data, CompressionKind::Stored);
    assert_eq!(&stored[..4], &[0, 0, 0, 0]);
    assert_eq!(&stored[8..], &data[..]);
    let zipped = compress_block(&data, CompressionKind::Zip);
    assert_eq!(&zipped[..4], &[2, 0, 0, 0]);
    assert_ne!(&zipped[8..], &data[..]);
}

#[test]
fn bad_blocks_are_refused() {
    assert_eq!(decompress_block(&[0, 0, 0]), Err(MdictError::BlockTooSmall));
    assert_eq!(decompress_block(&[1, 0, 0, 0, 0, 0, 0, 1]), Err(MdictError::UnsupportedCompression(0x0100_0000)));
}
