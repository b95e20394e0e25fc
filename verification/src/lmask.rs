//! # Validity-mask fill cursor
//!
//! A bit-packed validity mask holds eight rows per byte. While a buffer
//! is being filled, the bytes before the last one are settled and the last
//! byte is completing; a cursor `(byte_index, filled)` records how far the
//! fill has reached, so the mask's bit length is `byte_index * 8 + filled`.
//! The cursor travels packed in one `u64`: `filled` in the low eight bits,
//! the byte index above them.
//!
//! This module holds the cursor arithmetic and the per-byte bit updates;
//! the atomic publication around them belongs to the buffer that uses
//! them.

use vstd::prelude::*;

verus! {

/// Bits below the byte index in a packed cursor.
pub const INDEX_SHIFT: u64 = 8;

/// Mask of the fill count in a packed cursor.
pub const COUNT_MASK: u64 = 0xFF;

/// Largest byte index a packed cursor carries.
pub open spec fn max_index() -> int {
    0x00FF_FFFF_FFFF_FFFF
}

/// The packed form of cursor `(index, count)`.
pub open spec fn packed(index: int, count: int) -> int {
    index * 256 + count
}

/// Packs a cursor: `count` in the low eight bits, `index` above them.
pub fn pack(index: u64, count: u64) -> (v: u64)
    requires
        index <= max_index(),
        count < 256,
    ensures
        v == packed(index as int, count as int),
{
    assert((index << 8u64) | count == index * 256 + count) by (bit_vector)
        requires
            index <= 0x00FF_FFFF_FFFF_FFFFu64,
            count < 256,
    ;
    (index << INDEX_SHIFT) | count
}

/// Unpacks a cursor into `(index, count)`.
pub fn unpack(v: u64) -> (c: (u64, u64))
    ensures
        c.0 == v / 256,
        c.1 == v % 256,
        c.0 <= max_index(),
        v == packed(c.0 as int, c.1 as int),
{
    assert(v >> 8u64 == v / 256 && v & 0xFFu64 == v % 256) by (bit_vector);
    let c = (v >> INDEX_SHIFT, v & COUNT_MASK);
    assert(v == (v / 256) * 256 + v % 256) by (nonlinear_arith);
    assert(v / 256 <= 0x00FF_FFFF_FFFF_FFFF) by (nonlinear_arith)
        requires
            v <= 0xFFFF_FFFF_FFFF_FFFFu64,
    ;
    c
}

/// Unpacking a packed cursor gives it back.
pub proof fn law_unpack_pack(index: int, count: int)
    requires
        0 <= index <= max_index(),
        0 <= count < 256,
    ensures
        packed(index, count) / 256 == index,
        packed(index, count) % 256 == count,
{
    vstd::arithmetic::div_mod::lemma_fundamental_div_mod_converse(packed(index, count), 256, index, count);
}

/// The bit length a cursor describes.
pub open spec fn bit_len(index: int, count: int) -> int {
    index * 8 + count
}

/// The cursor after one more row: the fill count grows, and a byte that
/// fills moves the cursor to the next byte.
pub fn advance(index: u64, count: u64) -> (next: (u64, u64))
    requires
        count < 8,
        index < max_index(),
    ensures
        next.1 < 8,
        bit_len(next.0 as int, next.1 as int) == bit_len(index as int, count as int) + 1,
        next.1 == 0 ==> next.0 == index + 1,
        next.1 > 0 ==> next.0 == index,
{
    if count + 1 == 8 {
        (index + 1, 0)
    } else {
        (index, count + 1)
    }
}

/// Bit `k` of `byte` is set.
pub open spec fn bit(byte: u8, k: u8) -> bool {
    byte & (1u8 << k) != 0
}

/// The byte after recording the row at bit `count`: a fresh byte
/// (`count == 0`) starts all valid, and a null clears its bit. The bits of
/// the earlier rows keep their values and the bits of later rows stay set,
/// as they were in a byte being filled.
pub fn mark(byte: u8, count: u8, valid: bool) -> (out: u8)
    requires
        count < 8,
        count > 0 ==> forall|k: u8| count <= k < 8 ==> #[trigger] bit(byte, k),
    ensures
        bit(out, count) == valid,
        forall|k: u8| k < count ==> #[trigger] bit(out, k) == bit(byte, k),
        forall|k: u8| count < k < 8 ==> #[trigger] bit(out, k),
{
    let start: u8 = if count == 0 { 0xFF } else { byte };
    proof {
        assert forall|k: u8| count <= k < 8 implies #[trigger] bit(start, k) by {
            if count == 0 {
                assert(0xFFu8 & (1u8 << k) != 0) by (bit_vector)
                    requires
                        k < 8,
                ;
            }
        }
    }
    let out: u8 = if valid { start } else { start & !(1u8 << count) };
    proof {
        if !valid {
            assert forall|k: u8| k < 8 && k != count implies #[trigger] bit(out, k) == bit(start, k) by {
                assert((start & !(1u8 << count)) & (1u8 << k) == start & (1u8 << k)) by (bit_vector)
                    requires
                        k < 8,
                        count < 8,
                        k != count,
                ;
            }
            assert((start & !(1u8 << count)) & (1u8 << count) == 0) by (bit_vector)
                requires
                    count < 8,
            ;
        }
    }
    out
}

/// The last byte of a sealed mask: the bits past the `count` filled rows
/// are cleared, so only rows that exist read as valid. An empty or full
/// byte is left as it is.
pub fn finalise(byte: u8, count: u8) -> (out: u8)
    requires
        count <= 8,
    ensures
        count == 0 || count == 8 ==> out == byte,
        0 < count < 8 ==> forall|k: u8| k < count ==> #[trigger] bit(out, k) == bit(byte, k),
        0 < count < 8 ==> forall|k: u8| count <= k < 8 ==> !#[trigger] bit(out, k),
{
    if count > 0 && count < 8 {
        assert(1u16 << count >= 1 && 1u16 << count <= 128) by (bit_vector)
            requires
                0 < count < 8,
        ;
        let keep: u8 = ((1u16 << count) - 1) as u8;
        let out = byte & keep;
        proof {
            assert forall|k: u8| k < count implies #[trigger] bit(out, k) == bit(byte, k) by {
                assert((byte & (((1u16 << count) - 1) as u8)) & (1u8 << k) == byte & (1u8 << k)) by (bit_vector)
                    requires
                        k < count,
                        count < 8,
                ;
            }
            assert forall|k: u8| count <= k < 8 implies !#[trigger] bit(out, k) by {
                assert((byte & (((1u16 << count) - 1) as u8)) & (1u8 << k) == 0) by (bit_vector)
                    requires
                        count <= k,
                        k < 8,
                        0 < count,
                ;
            }
        }
        out
    } else {
        byte
    }
}

/// Number of mask bytes for `capacity` rows: eight rows per byte.
pub fn mask_bytes(capacity: usize) -> (n: usize)
    requires
        capacity + 7 <= usize::MAX,
    ensures
        n == (capacity + 7) / 8,
        n * 8 >= capacity,
{
    (capacity + 7) / 8
}

} // verus!
