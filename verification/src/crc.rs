//! CRC-32 checksums of frame payloads.
use vstd::prelude::*;

verus! {

/// One step of division by the CRC-32 (IEEE) polynomial, lowest bit first.
pub open spec fn crc_bit(c: u32) -> u32 {
    if c & 1 == 1 {
        (c >> 1) ^ 0xEDB8_8320
    } else {
        c >> 1
    }
}

/// The remainder after one more byte.
pub open spec fn crc_byte(c: u32, byte: u8) -> u32 {
    let c1 = crc_bit(crc_bit(c ^ (byte as u32)));
    let c2 = crc_bit(crc_bit(c1));
    let c3 = crc_bit(crc_bit(c2));
    crc_bit(crc_bit(c3))
}

/// The remainder after `bytes`, from all ones.
#[verifier::opaque]
pub open spec fn crc_remainder(bytes: Seq<u8>) -> u32
    decreases bytes.len(),
{
    if bytes.len() == 0 {
        0xFFFF_FFFF
    } else {
        crc_byte(crc_remainder(bytes.drop_last()), bytes.last())
    }
}

/// The CRC-32 (IEEE) checksum of `bytes`.
pub open spec fn crc32(bytes: Seq<u8>) -> u32 {
    crc_remainder(bytes) ^ 0xFFFF_FFFF
}

/// Calls `crc32fast::hash`, which is documented to compute the CRC-32 (IEEE)
/// checksum. Claims that it does.
#[verifier::external_body]
pub(crate) fn checksum(bytes: &[u8]) -> (crc: u32)
    ensures
        crc == crc32(bytes@),
{
    crc32fast::hash(bytes)
}

/// Evidence that a payload matched its stored checksum.
#[derive(Clone, Copy, Debug, PartialEq, Eq)]
pub struct CrcProof {
    crc: u32,
}

impl CrcProof {
    /// The checksum that was matched.
    pub closed spec fn crc(&self) -> u32 {
        self.crc
    }

    /// A proof exactly when `stored` is the checksum of `payload`.
    pub fn verify(payload: &[u8], stored: u32) -> (proof: Option<CrcProof>)
        ensures
            proof is Some <==> crc32(payload@) == stored,
            proof matches Some(p) ==> p.crc() == stored,
    {
        if checksum(payload) == stored {
            Some(CrcProof { crc: stored })
        } else {
            None
        }
    }
}

proof fn lemma_bit_keeps_apart(a: u32, b: u32)
    requires
        a != b,
    ensures
        crc_bit(a) != crc_bit(b),
{
    assert(a != b ==> (if a & 1 == 1 {
        (a >> 1) ^ 0xEDB8_8320u32
    } else {
        a >> 1
    }) != (if b & 1 == 1 {
        (b >> 1) ^ 0xEDB8_8320u32
    } else {
        b >> 1
    })) by (bit_vector);
}

proof fn lemma_bits_keep_apart(a: u32, b: u32)
    requires
        a != b,
    ensures
        crc_bit(crc_bit(a)) != crc_bit(crc_bit(b)),
{
    lemma_bit_keeps_apart(a, b);
    lemma_bit_keeps_apart(crc_bit(a), crc_bit(b));
}

/// Different remainders stay different under the same byte, and different
/// bytes take the same remainder to different ones.
proof fn lemma_byte_keeps_apart(a: u32, b: u32, x: u8, y: u8)
    requires
        (a != b && x == y) || (a == b && x != y),
    ensures
        crc_byte(a, x) != crc_byte(b, y),
{
    let (wide_x, wide_y) = (x as u32, y as u32);
    assert((a != b && wide_x == wide_y) || (a == b && wide_x != wide_y) ==> a ^ wide_x != b
        ^ wide_y) by (bit_vector);
    let (a0, b0) = (a ^ wide_x, b ^ wide_y);
    lemma_bits_keep_apart(a0, b0);
    let (a1, b1) = (crc_bit(crc_bit(a0)), crc_bit(crc_bit(b0)));
    lemma_bits_keep_apart(a1, b1);
    let (a2, b2) = (crc_bit(crc_bit(a1)), crc_bit(crc_bit(b1)));
    lemma_bits_keep_apart(a2, b2);
    let (a3, b3) = (crc_bit(crc_bit(a2)), crc_bit(crc_bit(b2)));
    lemma_bits_keep_apart(a3, b3);
}

proof fn lemma_remainder_keeps_apart(bytes: Seq<u8>, i: int, byte: u8)
    requires
        0 <= i < bytes.len(),
        byte != bytes[i],
    ensures
        crc_remainder(bytes.update(i, byte)) != crc_remainder(bytes),
    decreases bytes.len(),
{
    reveal(crc_remainder);
    let changed = bytes.update(i, byte);
    let (before, after) = (bytes.drop_last(), changed.drop_last());
    if i == bytes.len() - 1 {
        assert(after =~= before);
    } else {
        assert(after =~= before.update(i, byte));
        lemma_remainder_keeps_apart(before, i, byte);
    }
    lemma_byte_keeps_apart(
        crc_remainder(before),
        crc_remainder(after),
        bytes.last(),
        changed.last(),
    );
}

/// The checksum notices a change of any one byte.
pub proof fn law_changed_byte_changes_checksum(bytes: Seq<u8>, i: int, byte: u8)
    requires
        0 <= i < bytes.len(),
        byte != bytes[i],
    ensures
        crc32(bytes.update(i, byte)) != crc32(bytes),
{
    lemma_remainder_keeps_apart(bytes, i, byte);
    let (a, b) = (crc_remainder(bytes.update(i, byte)), crc_remainder(bytes));
    assert(a != b ==> a ^ 0xFFFF_FFFFu32 != b ^ 0xFFFF_FFFFu32) by (bit_vector);
}

/// The checksum of no bytes is 0.
pub proof fn law_checksum_of_nothing()
    ensures
        crc32(Seq::empty()) == 0,
{
    reveal(crc_remainder);
    assert(0xFFFF_FFFFu32 ^ 0xFFFF_FFFFu32 == 0) by (bit_vector);
}

} // verus!
