//! Primitives of the LZNT1 wire format: little-endian words, chunk headers
//! and back-reference tuples.
use vstd::arithmetic::power2::{lemma2_to64, pow2};
use vstd::bits::{lemma_u32_low_bits_mask_is_mod, lemma_u32_shl_is_mul, lemma_u32_shr_is_div, low_bits_mask};
use vstd::prelude::*;

verus! {

/// Largest number of bytes a chunk decodes to.
pub const CHUNK_SIZE: usize = 4096;

/// Shortest match a tuple can describe.
pub const MIN_MATCH: usize = 3;

/// High bits of a compressed chunk's header.
pub const HEADER_COMPRESSED: u16 = 0xB000;

/// High bits of a raw chunk's header.
pub const HEADER_RAW: u16 = 0x3000;

/// The value of the little-endian word made of `lo` and `hi`.
pub open spec fn le16(lo: u8, hi: u8) -> int {
    lo as int + 256 * hi as int
}

/// The header of a chunk whose body holds `size` bytes.
pub open spec fn header_value(compressed: bool, size: int) -> int {
    (if compressed { 0xB000int } else { 0x3000int }) + (size - 1)
}

/// Whether a header marks its chunk as compressed: bit 15 alone decides.
pub open spec fn header_is_compressed(h: int) -> bool {
    h >= 0x8000
}

/// The body size a header declares.
pub open spec fn header_size(h: int) -> int {
    h % 4096 + 1
}

/// The 16-bit value of a tuple for `(offset, length)` under `split`.
pub open spec fn tuple_value(offset: int, length: int, split: int) -> int {
    (offset - 1) * pow2(split as nat) + (length - 3)
}

/// The offset a tuple value encodes under `split`.
pub open spec fn tuple_offset(v: int, split: int) -> int {
    v / (pow2(split as nat) as int) + 1
}

/// The length a tuple value encodes under `split`.
pub open spec fn tuple_length(v: int, split: int) -> int {
    v % (pow2(split as nat) as int) + 3
}

/// Whether `(offset, length)` fits in a tuple under `split`.
pub open spec fn tuple_fits(offset: int, length: int, split: int) -> bool {
    &&& 0 <= split <= 12
    &&& 1 <= offset <= pow2((16 - split) as nat)
    &&& 3 <= length <= pow2(split as nat) + 2
}

/// Reads the little-endian word at `pos`.
pub fn read_u16_le(buf: &[u8], pos: usize) -> (r: u16)
    requires
        pos + 2 <= buf@.len(),
    ensures
        r as int == le16(buf@[pos as int], buf@[pos + 1]),
{
    let lo = buf[pos];
    let hi = buf[pos + 1];
    let r = (lo as u16) | ((hi as u16) << 8u16);
    assert(((lo as u16) | ((hi as u16) << 8u16)) == lo as u16 + 256 * (hi as u16)) by (bit_vector);
    r
}

/// The two bytes of `v`, low byte first.
pub fn u16_le_bytes(v: u16) -> (r: (u8, u8))
    ensures
        le16(r.0, r.1) == v as int,
{
    let lo = (v & 0xFF) as u8;
    let hi = (v >> 8u16) as u8;
    assert((v & 0xFF) as u8 as int + 256 * ((v >> 8u16) as u8 as int) == v as int) by (bit_vector);
    (lo, hi)
}

/// Appends `v` to `out` as a little-endian word.
pub fn write_u16_le(out: &mut Vec<u8>, v: u16)
    ensures
        final(out)@.len() == old(out)@.len() + 2,
        final(out)@.subrange(0, old(out)@.len() as int) == old(out)@,
        le16(final(out)@[old(out)@.len() as int], final(out)@[old(out)@.len() + 1int]) == v as int,
{
    let (lo, hi) = u16_le_bytes(v);
    out.push(lo);
    out.push(hi);
}

/// The header word for a chunk of `size` body bytes, with the flag bits `flag`.
pub fn encode_header(flag: u16, size: usize) -> (r: u16)
    requires
        flag == HEADER_COMPRESSED || flag == HEADER_RAW,
        1 <= size <= CHUNK_SIZE,
    ensures
        r as int == header_value(flag == HEADER_COMPRESSED, size as int),
        header_is_compressed(r as int) == (flag == HEADER_COMPRESSED),
        header_size(r as int) == size,
{
    let x = (size - 1) as u16;
    let r = flag | (x & 0x0FFF);
    assert(x < 4096 ==> (0xB000u16 | (x & 0x0FFFu16)) == 0xB000u16 + x) by (bit_vector);
    assert(x < 4096 ==> (0x3000u16 | (x & 0x0FFFu16)) == 0x3000u16 + x) by (bit_vector);
    r
}

/// Packs `(offset, length)` into a tuple under `split`.
pub fn pack_tuple(offset: usize, length: usize, split: usize) -> (r: u16)
    requires
        tuple_fits(offset as int, length as int, split as int),
    ensures
        r as int == tuple_value(offset as int, length as int, split as int),
        tuple_offset(r as int, split as int) == offset,
        tuple_length(r as int, split as int) == length,
{
    proof {
        lemma_tuple_round_trip(offset as int, length as int, split as int);
        lemma2_to64();
    }
    let s = split as u32;
    let a = (offset - 1) as u32;
    proof {
        lemma_u32_shl_is_mul(a, s);
    }
    let shifted = a << s;
    proof {
        lemma_or_is_add(a, s, (length - 3) as u32);
    }
    let r = shifted | ((length - 3) as u32);
    r as u16
}

/// Unpacks a tuple into `(offset, length)` under `split`.
pub fn unpack_tuple(v: u16, split: usize) -> (r: (usize, usize))
    requires
        split <= 12,
    ensures
        r.0 as int == tuple_offset(v as int, split as int),
        r.1 as int == tuple_length(v as int, split as int),
        r.0 >= 1,
{
    let s = split as u32;
    let w = v as u32;
    proof {
        lemma2_to64();
        lemma_u32_shl_is_mul(1, s);
        lemma_u32_shr_is_div(w, s);
        lemma_u32_low_bits_mask_is_mod(w, s as nat);
    }
    let mask: u32 = (1u32 << s) - 1;
    assert(mask == low_bits_mask(s as nat) as u32);
    let offset = (w >> s) as usize + 1;
    let length = (w & mask) as usize + 3;
    (offset, length)
}

/// A tuple packed under `split` unpacks to the pair it was made from.
pub proof fn lemma_tuple_round_trip(offset: int, length: int, split: int)
    requires
        tuple_fits(offset, length, split),
    ensures
        0 <= tuple_value(offset, length, split) < 0x10000,
        tuple_offset(tuple_value(offset, length, split), split) == offset,
        tuple_length(tuple_value(offset, length, split), split) == length,
{
    lemma2_to64();
    let p = pow2(split as nat) as int;
    let q = pow2((16 - split) as nat) as int;
    assert(p * q == 0x10000) by {
        vstd::arithmetic::power2::lemma_pow2_adds(split as nat, (16 - split) as nat);
    }
    assert((offset - 1) * p <= (q - 1) * p) by (nonlinear_arith)
        requires 0 <= offset - 1 <= q - 1, p > 0;
    assert((q - 1) * p == p * q - p) by (nonlinear_arith);
    vstd::arithmetic::div_mod::lemma_fundamental_div_mod_converse(
        tuple_value(offset, length, split), p, offset - 1, length - 3);
}

proof fn lemma_or_is_add(a: u32, s: u32, b: u32)
    requires
        s <= 12,
        (b as int) < pow2(s as nat),
        a * pow2(s as nat) + b < 0x10000,
    ensures
        (a << s) | b == a * pow2(s as nat) + b,
{
    lemma2_to64();
    lemma_u32_shl_is_mul(1, s);
    lemma_u32_shl_is_mul(a, s);
    assert(b < (1u32 << s));
    assert(b < (1u32 << s) && s <= 12 ==> (a << s) | b == (a << s) + b) by (bit_vector);
}

} // verus!
