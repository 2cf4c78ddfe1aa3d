//! Packing bits into bytes and spreading bytes back into bits.

use vstd::prelude::*;

use crate::codec::{is_bits, CodecError};

verus! {

/// The bit at position `i`, or 0 past the end: the padding of the last byte.
pub open spec fn bit_at(bits: Seq<u8>, i: int) -> u8 {
    if 0 <= i < bits.len() {
        bits[i]
    } else {
        0
    }
}

/// Byte `k` of the packed form: bits `8k` to `8k + 7`, the first one as the
/// most significant bit.
pub open spec fn pack_byte(bits: Seq<u8>, k: int) -> u8 {
    let s = 8 * k;
    ((bit_at(bits, s) << 7u8) | (bit_at(bits, s + 1) << 6u8) | (bit_at(bits, s + 2) << 5u8) | (
    bit_at(bits, s + 3) << 4u8) | (bit_at(bits, s + 4) << 3u8) | (bit_at(bits, s + 5) << 2u8) | (
    bit_at(bits, s + 6) << 1u8) | bit_at(bits, s + 7)) as u8
}

/// The bits packed eight to a byte, most significant first, the last byte
/// padded with zeros.
pub open spec fn packed(bits: Seq<u8>) -> Seq<u8> {
    Seq::new(((bits.len() + 7) / 8) as nat, |k: int| pack_byte(bits, k))
}

/// The bits of each byte, most significant first.
pub open spec fn unpacked(bytes: Seq<u8>) -> Seq<u8> {
    Seq::new(8 * bytes.len(), |i: int| (bytes[i / 8] >> ((7 - i % 8) as u8)) & 1u8)
}

/// A string of '0' and '1' characters read as bits.
pub open spec fn text_bits(s: Seq<char>) -> Seq<u8> {
    s.map_values(|c: char| if c == '1' { 1u8 } else { 0u8 })
}

/// Every character is '0' or '1'.
pub open spec fn is_bit_text(s: Seq<char>) -> bool {
    forall|i: int| 0 <= i < s.len() ==> #[trigger] s[i] == '0' || s[i] == '1'
}

proof fn lemma_byte_bits(b0: u8, b1: u8, b2: u8, b3: u8, b4: u8, b5: u8, b6: u8, b7: u8, v: u8)
    by (bit_vector)
    requires
        b0 <= 1 && b1 <= 1 && b2 <= 1 && b3 <= 1 && b4 <= 1 && b5 <= 1 && b6 <= 1 && b7 <= 1,
        v == (b0 << 7u8) | (b1 << 6u8) | (b2 << 5u8) | (b3 << 4u8) | (b4 << 3u8) | (b5 << 2u8) | (
        b6 << 1u8) | b7,
    ensures
        (v >> 7u8) & 1u8 == b0,
        (v >> 6u8) & 1u8 == b1,
        (v >> 5u8) & 1u8 == b2,
        (v >> 4u8) & 1u8 == b3,
        (v >> 3u8) & 1u8 == b4,
        (v >> 2u8) & 1u8 == b5,
        (v >> 1u8) & 1u8 == b6,
        (v >> 0u8) & 1u8 == b7,
{
}

proof fn lemma_div_mod_8(k: int, j: int)
    by (nonlinear_arith)
    requires
        0 <= k,
        0 <= j < 8,
    ensures
        (8 * k + j) / 8 == k,
        (8 * k + j) % 8 == j,
{
}

/// Unpacking packed bits gives them back, followed by the zero padding.
pub proof fn lemma_unpack_pack(bits: Seq<u8>)
    requires
        is_bits(bits),
    ensures
        unpacked(packed(bits)).len() >= bits.len(),
        unpacked(packed(bits)).subrange(0, bits.len() as int) == bits,
{
    let p = packed(bits);
    let u = unpacked(p);
    assert forall|i: int| 0 <= i < bits.len() implies u[i] == bits[i] by {
        let k = i / 8;
        let j = i % 8;
        assert(i == 8 * k + j);
        assert(0 <= k < p.len());
        let s = 8 * k;
        assert(bit_at(bits, s) <= 1 && bit_at(bits, s + 1) <= 1 && bit_at(bits, s + 2) <= 1
            && bit_at(bits, s + 3) <= 1 && bit_at(bits, s + 4) <= 1 && bit_at(bits, s + 5) <= 1
            && bit_at(bits, s + 6) <= 1 && bit_at(bits, s + 7) <= 1);
        lemma_byte_bits(
            bit_at(bits, s),
            bit_at(bits, s + 1),
            bit_at(bits, s + 2),
            bit_at(bits, s + 3),
            bit_at(bits, s + 4),
            bit_at(bits, s + 5),
            bit_at(bits, s + 6),
            bit_at(bits, s + 7),
            pack_byte(bits, k),
        );
        assert(bit_at(bits, s + j) == bits[i]);
    }
    assert(u.subrange(0, bits.len() as int) =~= bits);
}

fn bit_or_zero(bits: &Vec<u8>, start: usize, j: usize) -> (r: u8)
    requires
        start < bits@.len(),
    ensures
        r == bit_at(bits@, start + j),
{
    if j < bits.len() - start {
        bits[start + j]
    } else {
        0
    }
}

proof fn lemma_byte_count(n: int, k: int)
    by (nonlinear_arith)
    requires
        0 <= n,
        0 <= k,
    ensures
        k < n / 8 + (if n % 8 == 0 { 0int } else { 1int }) ==> 8 * k < n,
        n / 8 + (if n % 8 == 0 { 0int } else { 1int }) == (n + 7) / 8,
{
}

/// Reads a string of '0' and '1' characters as bits and packs them eight to
/// a byte, the first bit of each group as the most significant; the last
/// byte is padded with zeros. Any other character is an error.
pub fn pack_bits(input: &str) -> (r: Result<Vec<u8>, CodecError>)
    ensures
        is_bit_text(input@) ==> r is Ok && r->Ok_0@ == packed(text_bits(input@)),
        !is_bit_text(input@) ==> r == Err::<Vec<u8>, CodecError>(CodecError::InvalidBitCharacter),
{
    let mut bits: Vec<u8> = Vec::new();
    for c in it: input.chars()
        invariant
            it.seq() == input@,
            bits@ == text_bits(input@.subrange(0, it.index() as int)),
            is_bit_text(input@.subrange(0, it.index() as int)),
    {
        let ghost i = it.index();
        if c == '0' {
            bits.push(0);
        } else if c == '1' {
            bits.push(1);
        } else {
            assert(!is_bit_text(input@));
            return Err(CodecError::InvalidBitCharacter);
        }
        assert(bits@ =~= text_bits(input@.subrange(0, i + 1)));
        assert(is_bit_text(input@.subrange(0, i + 1))) by {
            assert forall|t: int| 0 <= t < i + 1 implies #[trigger] input@.subrange(0, i + 1)[t] == '0'
                || input@.subrange(0, i + 1)[t] == '1' by {
                if t < i {
                    assert(input@.subrange(0, i + 1)[t] == input@.subrange(0, i as int)[t]);
                }
            }
        }
    }
    assert(input@.subrange(0, input@.len() as int) =~= input@);
    let ghost all = bits@;
    let n = bits.len();
    let mut out: Vec<u8> = Vec::new();
    let count = n / 8 + if n % 8 == 0 {
        0
    } else {
        1
    };
    while out.len() < count
        invariant
            bits@ == all,
            n == all.len(),
            count == n / 8 + (if n % 8 == 0 { 0int } else { 1int }),
            out@.len() <= count,
            forall|k: int| 0 <= k < out@.len() ==> #[trigger] out@[k] == pack_byte(all, k),
        decreases count - out@.len(),
    {
        proof {
            lemma_byte_count(n as int, out@.len() as int);
        }
        let pos = 8 * out.len();
        let b0 = bit_or_zero(&bits, pos, 0);
        let b1 = bit_or_zero(&bits, pos, 1);
        let b2 = bit_or_zero(&bits, pos, 2);
        let b3 = bit_or_zero(&bits, pos, 3);
        let b4 = bit_or_zero(&bits, pos, 4);
        let b5 = bit_or_zero(&bits, pos, 5);
        let b6 = bit_or_zero(&bits, pos, 6);
        let b7 = bit_or_zero(&bits, pos, 7);
        let byte = (b0 << 7u8) | (b1 << 6u8) | (b2 << 5u8) | (b3 << 4u8) | (b4 << 3u8) | (b5 << 2u8)
            | (b6 << 1u8) | b7;
        out.push(byte);
    }
    proof {
        lemma_byte_count(n as int, 0);
    }
    assert(out@ =~= packed(all));
    Ok(out)
}

/// Spreads each byte into its eight bits, most significant first.
pub fn decode_binary(encoded_data: &[u8]) -> (r: Vec<u8>)
    ensures
        r@ == unpacked(encoded_data@),
        is_bits(r@),
{
    let mut decoded_bits: Vec<u8> = Vec::new();
    let mut k: usize = 0;
    while k < encoded_data.len()
        invariant
            k <= encoded_data@.len(),
            decoded_bits@.len() == 8 * k,
            forall|t: int|
                0 <= t < decoded_bits@.len() ==> #[trigger] decoded_bits@[t] == (encoded_data@[t / 8]
                    >> ((7 - t % 8) as u8)) & 1u8,
        decreases encoded_data@.len() - k,
    {
        let byte = encoded_data[k];
        let mut j: u8 = 0;
        while j < 8
            invariant
                k < encoded_data@.len(),
                byte == encoded_data@[k as int],
                j <= 8,
                decoded_bits@.len() == 8 * k + j,
                forall|t: int|
                    0 <= t < decoded_bits@.len() ==> #[trigger] decoded_bits@[t] == (encoded_data@[t
                        / 8] >> ((7 - t % 8) as u8)) & 1u8,
            decreases 8 - j,
        {
            let bit = (byte >> (7 - j)) & 1;
            proof {
                lemma_div_mod_8(k as int, j as int);
            }
            decoded_bits.push(bit);
            j = j + 1;
        }
        k = k + 1;
    }
    assert(decoded_bits@ =~= unpacked(encoded_data@));
    assert forall|t: int| 0 <= t < decoded_bits@.len() implies #[trigger] decoded_bits@[t] <= 1 by {
        let v = encoded_data@[t / 8];
        let s = (7 - t % 8) as u8;
        assert((v >> s) & 1u8 <= 1u8) by (bit_vector);
    }
    decoded_bits
}

} // verus!
