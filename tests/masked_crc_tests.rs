use rustboard_core::masked_crc::{mask, unmask, MaskedCrc};

#[test]
fn test_compute() {
    // From RFC 3720 (iSCSI), section B.4 "CRC Examples".
    assert_eq!(MaskedCrc::compute(&[0; 32]), mask(0x8a9136aa));

    // From a real TFRecord (`file_version` event), with authoritative masking.
    assert_eq!(
        MaskedCrc::compute(b"\x1a\x11CRC test, one two"),
        MaskedCrc(0x5794d08a)
    );
}

#[test]
fn test_debug() {
    let long_crc = MaskedCrc(0xf1234567);
    assert_eq!(long_crc.to_string(), "0xf1234567");
    assert_eq!(long_crc.to_debug_string(), "MaskedCrc(0xf1234567)");

    let short_crc = MaskedCrc(0x00000123);
    assert_eq!(short_crc.to_string(), "0x00000123");
    assert_eq!(short_crc.to_debug_string(), "MaskedCrc(0x00000123)");
}

#[test]
fn compute_is_repeatable() {
    let data = b"some bytes to checksum";
    assert_eq!(MaskedCrc::compute(data), MaskedCrc::compute(data));
    assert_eq!(MaskedCrc::compute(&[]), MaskedCrc::compute(&[]));
}

#[test]
fn compute_of_empty_buffer() {
    // The CRC-32C of no bytes is zero; masking zero gives the delta.
    assert_eq!(MaskedCrc::compute(&[]), MaskedCrc(0xa282ead8));
    assert_eq!(mask(0), MaskedCrc(0xa282ead8));
}

#[test]
fn mask_formula() {
    // Rotate right by 15, then add 0xa282ead8 modulo 2^32.
    assert_eq!(mask(1), MaskedCrc(0x00020000u32.wrapping_add(0xa282ead8)));
    assert_eq!(mask(0x8000), MaskedCrc(0x00000001 + 0xa282ead8));
    assert_eq!(mask(0xffffffff), MaskedCrc(0xffffffffu32.wrapping_add(0xa282ead8)));
}

#[test]
fn unmask_recovers_crc() {
    for crc in [0u32, 1, 0x8a9136aa, 0xdeadbeef, 0xffffffff, 0x00008000] {
        assert_eq!(unmask(mask(crc)), crc);
    }
    assert_eq!(unmask(MaskedCrc::compute(&[0; 32])), 0x8a9136aa);
}
