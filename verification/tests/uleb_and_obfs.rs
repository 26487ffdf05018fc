use wt_blk::blk::error::{ParseError, UlebError};
use wt_blk::blk::leb128::{uleb128, write_uleb128};
use wt_blk::vromf::de_obfuscation::deobfuscate;

#[test]
fn uleb_round_trip_small() {
    for n in [0usize, 1, 5, 127, 128, 129, 300, 16383, 16384, 1_000_000] {
        let enc = write_uleb128(n);
        let got = uleb128(&enc).unwrap();
        assert_eq!(got, (enc.len(), n));
    }
}

#[test]
fn uleb_round_trip_large() {
    for n in [usize::MAX, usize::MAX - 1, 1 << 40, (1 << 63) + 17] {
        let enc = write_uleb128(n);
        let got = uleb128(&enc).unwrap();
        assert_eq!(got, (enc.len(), n));
    }
}

#[test]
fn uleb_ignores_trailing_bytes() {
    let mut enc = write_uleb128(300);
    let len = enc.len();
    enc.extend_from_slice(&[0xAA, 0xBB]);
    assert_eq!(uleb128(&enc).unwrap(), (len, 300));
}

#[test]
fn uleb_truncated() {
    assert_eq!(
        uleb128(&[0x80]),
        Err(ParseError::BadUleb(UlebError::Truncated))
    );
    assert_eq!(uleb128(&[]), Err(ParseError::BadUleb(UlebError::Truncated)));
}

#[test]
fn uleb_overflow() {
    // eleven payload groups of all ones exceed a 64-bit word
    let buf = [0xFF, 0xFF, 0xFF, 0xFF, 0xFF, 0xFF, 0xFF, 0xFF, 0xFF, 0xFF, 0x7F];
    assert_eq!(
        uleb128(&buf),
        Err(ParseError::BadUleb(UlebError::Overflow))
    );
}

#[test]
fn uleb_zero_padded_value_still_fits() {
    // continuation bytes with zero payloads add nothing to the value
    let buf = [0x80, 0x80, 0x80, 0x80, 0x80, 0x80, 0x80, 0x80, 0x80, 0x80, 0x00];
    assert_eq!(uleb128(&buf).unwrap(), (11, 0));
}

#[test]
fn deobf_involution() {
    // a 256-byte pseudo-random buffer: applying the pass twice restores it
    let mut buf: Vec<u8> = Vec::new();
    let mut x: u32 = 0x12345678;
    for _ in 0..256 {
        x = x.wrapping_mul(1664525).wrapping_add(1013904223);
        buf.push((x >> 24) as u8);
    }
    let orig = buf.clone();
    deobfuscate(&mut buf);
    assert_ne!(buf, orig);
    deobfuscate(&mut buf);
    assert_eq!(buf, orig);
}

#[test]
fn deobf_short_buffer_untouched() {
    let mut buf = vec![1u8; 15];
    let orig = buf.clone();
    deobfuscate(&mut buf);
    assert_eq!(buf, orig);
}

#[test]
fn deobf_medium_buffer_masks_first_block_only() {
    let mut buf = vec![0u8; 31];
    deobfuscate(&mut buf);
    // the first sixteen bytes carry the key, the tail is untouched
    assert_ne!(&buf[0..16], &[0u8; 16][..]);
    assert_eq!(&buf[16..], &[0u8; 15][..]);
}
