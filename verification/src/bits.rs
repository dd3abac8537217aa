//! Bit codec: turns a byte buffer into an ordered bit sequence and back.
//! Bits are emitted least-significant-first within each byte (bit 0 of byte 0
//! first), and the two conversions are exact inverses.

use vstd::prelude::*;

verus! {

/// Bit `j` (0 = least significant) of byte `b`. Meaningful for `0 <= j < 8`.
pub open spec fn bit_of(b: u8, j: int) -> bool {
    (b >> (j as u8)) & 1 == 1
}

/// 1 for a set bit, 0 for a clear one.
pub open spec fn bitval(b: bool) -> int {
    if b {
        1
    } else {
        0
    }
}

/// The bit sequence of a byte buffer: 8 bits per byte, LSB-first.
pub open spec fn bits_of_bytes(bytes: Seq<u8>) -> Seq<bool> {
    Seq::new(bytes.len() * 8, |i: int| bit_of(bytes[i / 8], i % 8))
}

/// The byte whose LSB-first bit sequence is `bits`. Meaningful for
/// `bits.len() == 8`.
pub open spec fn byte_of_bits(bits: Seq<bool>) -> u8 {
    (bitval(bits[0]) + 2 * bitval(bits[1]) + 4 * bitval(bits[2]) + 8 * bitval(bits[3]) + 16
        * bitval(bits[4]) + 32 * bitval(bits[5]) + 64 * bitval(bits[6]) + 128 * bitval(
        bits[7],
    )) as u8
}

/// The byte buffer reassembled from an LSB-first bit sequence, 8 bits at a
/// time. A trailing group of fewer than 8 bits is ignored.
pub open spec fn bytes_of_bits(bits: Seq<bool>) -> Seq<u8> {
    Seq::new(bits.len() / 8, |i: int| byte_of_bits(bits.subrange(8 * i, 8 * i + 8)))
}

/// Reassembling the 8 bits of a byte gives the byte back.
#[verifier::spinoff_prover]
pub proof fn lemma_byte_roundtrip(b: u8)
    ensures
        byte_of_bits(Seq::new(8, |j: int| bit_of(b, j))) == b,
{
    let bits = Seq::new(8, |j: int| bit_of(b, j));
    assert(b == (((b >> 0u8) & 1) + 2 * ((b >> 1u8) & 1) + 4 * ((b >> 2u8) & 1) + 8 * ((b >> 3u8)
        & 1) + 16 * ((b >> 4u8) & 1) + 32 * ((b >> 5u8) & 1) + 64 * ((b >> 6u8) & 1) + 128 * ((b
        >> 7u8) & 1)) as u8) by (bit_vector);
    assert((b >> 0u8) & 1 == 0 || (b >> 0u8) & 1 == 1) by (bit_vector);
    assert((b >> 1u8) & 1 == 0 || (b >> 1u8) & 1 == 1) by (bit_vector);
    assert((b >> 2u8) & 1 == 0 || (b >> 2u8) & 1 == 1) by (bit_vector);
    assert((b >> 3u8) & 1 == 0 || (b >> 3u8) & 1 == 1) by (bit_vector);
    assert((b >> 4u8) & 1 == 0 || (b >> 4u8) & 1 == 1) by (bit_vector);
    assert((b >> 5u8) & 1 == 0 || (b >> 5u8) & 1 == 1) by (bit_vector);
    assert((b >> 6u8) & 1 == 0 || (b >> 6u8) & 1 == 1) by (bit_vector);
    assert((b >> 7u8) & 1 == 0 || (b >> 7u8) & 1 == 1) by (bit_vector);
    assert(bitval(bits[0]) == (b >> 0u8) & 1);
    assert(bitval(bits[1]) == (b >> 1u8) & 1);
    assert(bitval(bits[2]) == (b >> 2u8) & 1);
    assert(bitval(bits[3]) == (b >> 3u8) & 1);
    assert(bitval(bits[4]) == (b >> 4u8) & 1);
    assert(bitval(bits[5]) == (b >> 5u8) & 1);
    assert(bitval(bits[6]) == (b >> 6u8) & 1);
    assert(bitval(bits[7]) == (b >> 7u8) & 1);
}

/// Byte-to-bit and bit-to-byte conversion are exact inverses: reassembling
/// the bit sequence of any byte buffer gives the buffer back.
pub proof fn lemma_bytes_bits_roundtrip(bytes: Seq<u8>)
    ensures
        bytes_of_bits(bits_of_bytes(bytes)) == bytes,
{
    let bits = bits_of_bytes(bytes);
    assert(bytes_of_bits(bits).len() == bytes.len());
    assert forall|i: int| 0 <= i < bytes.len() implies bytes_of_bits(bits)[i] == bytes[i] by {
        let group = bits.subrange(8 * i, 8 * i + 8);
        assert(group =~= Seq::new(8, |j: int| bit_of(bytes[i], j)));
        lemma_byte_roundtrip(bytes[i]);
    }
    assert(bytes_of_bits(bits) =~= bytes);
}

/// For each byte of `bytes`, emit its 8 bits ordered from least- to
/// most-significant. The output holds `8 * bytes.len()` bits.
#[verifier::spinoff_prover]
pub fn convert_bytes_to_bits(bytes: &[u8]) -> (r: Vec<bool>)
    ensures
        r@ == bits_of_bytes(bytes@),
{
    let mut out: Vec<bool> = Vec::new();
    let mut i: usize = 0;
    while i < bytes.len()
        invariant
            i <= bytes@.len(),
            out@.len() == 8 * i,
            forall|k: int| 0 <= k < out@.len() ==> out@[k] == bit_of(bytes@[k / 8], k % 8),
        decreases bytes@.len() - i,
    {
        let b = bytes[i];
        let mut j: usize = 0;
        while j < 8
            invariant
                j <= 8,
                i < bytes@.len(),
                b == bytes@[i as int],
                out@.len() == 8 * i + j,
                forall|k: int| 0 <= k < out@.len() ==> out@[k] == bit_of(bytes@[k / 8], k % 8),
            decreases 8 - j,
        {
            out.push((b >> (j as u8)) & 1 == 1);
            j += 1;
        }
        i += 1;
    }
    assert(out@ =~= bits_of_bytes(bytes@));
    out
}

/// Rebuilds one byte from the 8 bits starting at `base`, LSB-first.
#[verifier::spinoff_prover]
fn byte_from_group(bits: &[bool], base: usize) -> (b: u8)
    requires
        base + 8 <= bits@.len(),
    ensures
        b == byte_of_bits(bits@.subrange(base as int, base as int + 8)),
{
    let ghost group = bits@.subrange(base as int, base as int + 8);
    let b0: u8 = if bits[base] {
        1
    } else {
        0
    };
    let b1: u8 = if bits[base + 1] {
        1
    } else {
        0
    };
    let b2: u8 = if bits[base + 2] {
        1
    } else {
        0
    };
    let b3: u8 = if bits[base + 3] {
        1
    } else {
        0
    };
    let b4: u8 = if bits[base + 4] {
        1
    } else {
        0
    };
    let b5: u8 = if bits[base + 5] {
        1
    } else {
        0
    };
    let b6: u8 = if bits[base + 6] {
        1
    } else {
        0
    };
    let b7: u8 = if bits[base + 7] {
        1
    } else {
        0
    };
    let byte: u8 = b0 + 2 * b1 + 4 * b2 + 8 * b3 + 16 * b4 + 32 * b5 + 64 * b6 + 128 * b7;
    proof {
        assert(group[0] == bits@[base as int] && group[1] == bits@[base as int + 1] && group[2]
            == bits@[base as int + 2] && group[3] == bits@[base as int + 3] && group[4] == bits@[
            base as int + 4] && group[5] == bits@[base as int + 5] && group[6] == bits@[
            base as int + 6] && group[7] == bits@[base as int + 7]);
    }
    byte
}

/// Inverse of [`convert_bytes_to_bits`]: consumes the bits in groups of 8,
/// LSB-first, and rebuilds one byte per group.
pub fn convert_bits_to_bytes(bits: &[bool]) -> (r: Vec<u8>)
    requires
        bits@.len() % 8 == 0,
    ensures
        r@ == bytes_of_bits(bits@),
{
    let mut out: Vec<u8> = Vec::new();
    let n = bits.len() / 8;
    proof {
        vstd::arithmetic::div_mod::lemma_fundamental_div_mod(bits@.len() as int, 8);
    }
    assert(8 * n == bits@.len());
    let mut i: usize = 0;
    while i < n
        invariant
            i <= n,
            n == bits@.len() / 8,
            8 * n == bits@.len(),
            bits@.len() <= usize::MAX,
            bits@.len() % 8 == 0,
            out@.len() == i,
            forall|k: int|
                0 <= k < out@.len() ==> out@[k] == byte_of_bits(
                    bits@.subrange(8 * k, 8 * k + 8),
                ),
        decreases n - i,
    {
        let base = 8 * i;
        let byte = byte_from_group(bits, base);
        out.push(byte);
        i += 1;
    }
    assert(out@ =~= bytes_of_bits(bits@));
    out
}

} // verus!
