//! Checksums as used by TFRecords.

use vstd::prelude::*;

verus! {

/// Constant added to the rotated CRC by the masking permutation.
pub const CRC_MASK_DELTA: u32 = 0xa282ead8;

/// The CRC-32-C (Castagnoli polynomial) of a byte sequence, before masking.
pub uninterp spec fn crc32c(bytes: Seq<u8>) -> u32;

/// The CRC rotated right by 15 bits.
pub open spec fn rotate_right_15(crc: u32) -> u32 {
    (crc >> 15u32) | (crc << 17u32)
}

/// The value rotated left by 15 bits, undoing `rotate_right_15`.
pub open spec fn rotate_left_15(v: u32) -> u32 {
    (v << 15u32) | (v >> 17u32)
}

/// The masking permutation: rotate right by 15 bits, then add the delta modulo 2^32.
pub open spec fn mask_value(crc: u32) -> u32 {
    ((rotate_right_15(crc) as int + CRC_MASK_DELTA as int) % 0x1_0000_0000) as u32
}

/// The inverse of the masking permutation.
pub open spec fn unmask_value(masked: u32) -> u32 {
    rotate_left_15(((masked as int - CRC_MASK_DELTA as int + 0x1_0000_0000) % 0x1_0000_0000) as u32)
}

/// The masked CRC-32-C of a byte sequence.
pub open spec fn masked_crc(bytes: Seq<u8>) -> u32 {
    mask_value(crc32c(bytes))
}

/// The lowercase hexadecimal digit for `d` (below 16).
pub open spec fn hex_digit(d: int) -> char {
    seq!['0', '1', '2', '3', '4', '5', '6', '7', '8', '9', 'a', 'b', 'c', 'd', 'e', 'f'][d]
}

/// `0x` followed by the eight lowercase hexadecimal digits of `v`, most significant first.
pub open spec fn hex_text(v: u32) -> Seq<char> {
    seq!['0', 'x'] + Seq::new(8, |i: int| hex_digit((v as int / vstd::arithmetic::power::pow(16, (7 - i) as nat)) % 16))
}

/// The debug form of a masked checksum: `MaskedCrc(0x........)`.
pub open spec fn debug_text(v: u32) -> Seq<char> {
    "MaskedCrc("@ + hex_text(v) + ")"@
}

/// A CRC-32-C (Castagnoli) checksum after a masking permutation.
///
/// This is the checksum format used by TFRecords. The masking permutation is the same as in
/// LevelDB, which offers as motivation that "it is problematic to compute the CRC of a
/// string that contains embedded CRCs".
#[derive(Copy, Clone, PartialEq, Eq, Structural, Debug)]
pub struct MaskedCrc(pub u32);

/// Relies on `crc::crc32::checksum_castagnoli`: the CRC-32-C of the bytes.
#[verifier::external_body]
fn castagnoli(bytes: &[u8]) -> (r: u32)
    ensures
        r == crc32c(bytes@),
{
    crc::crc32::checksum_castagnoli(bytes)
}

/// Relies on std's `{:#010x}` formatting of a `u32`: `0x` and eight lowercase hex digits.
#[verifier::external_body]
fn hex_u32(v: u32) -> (r: String)
    ensures
        r@ == hex_text(v),
{
    format!("{:#010x}", v)
}

/// Apply a masking operation to an unmasked CRC-32-C.
pub fn mask(crc: u32) -> (r: MaskedCrc)
    ensures
        r.0 == mask_value(crc),
{
    let rotated = (crc >> 15u32) | (crc << 17u32);
    assert(rotated == rotate_right_15(crc));
    MaskedCrc(rotated.wrapping_add(CRC_MASK_DELTA))
}

/// Recover the unmasked CRC-32-C from a masked one.
pub fn unmask(masked: MaskedCrc) -> (r: u32)
    ensures
        r == unmask_value(masked.0),
{
    let shifted = masked.0.wrapping_sub(CRC_MASK_DELTA);
    let r = (shifted << 15u32) | (shifted >> 17u32);
    assert(r == rotate_left_15(shifted));
    r
}

impl MaskedCrc {
    /// Compute a `MaskedCrc` from a data buffer.
    pub fn compute(bytes: &[u8]) -> (r: Self)
        ensures
            r.0 == masked_crc(bytes@),
    {
        mask(castagnoli(bytes))
    }

    /// The display form: `0x` and eight lowercase hexadecimal digits.
    pub fn to_string(&self) -> (r: String)
        ensures
            r@ == hex_text(self.0),
    {
        hex_u32(self.0)
    }

    /// The debug form: the display form wrapped in `MaskedCrc(...)`.
    pub fn to_debug_string(&self) -> (r: String)
        ensures
            r@ == debug_text(self.0),
    {
        let head = String::from_str("MaskedCrc(");
        let hex = hex_u32(self.0);
        let s = head.concat(hex.as_str());
        s.concat(")")
    }
}

/// Computing the checksum is a function of the bytes alone: equal buffers get equal checksums.
pub proof fn lemma_compute_deterministic(a: Seq<u8>, b: Seq<u8>)
    requires
        a == b,
    ensures
        masked_crc(a) == masked_crc(b),
{
}

/// Masking is a bijection on CRC values: unmasking a masked CRC gives the CRC back.
pub proof fn lemma_unmask_mask(crc: u32)
    ensures
        unmask_value(mask_value(crc)) == crc,
{
    let rot = rotate_right_15(crc);
    assert(((mask_value(crc) as int - CRC_MASK_DELTA as int + 0x1_0000_0000) % 0x1_0000_0000) as u32 == rot);
    assert(((crc >> 15u32) | (crc << 17u32)) << 15u32 | ((crc >> 15u32) | (crc << 17u32)) >> 17u32 == crc)
        by (bit_vector);
}

} // verus!
