use vstd::prelude::*;

verus! {

/// Byte `t` (little-endian, `0 <= t < 8`) of a 64-bit word; zero for any
/// other `t`.
pub open spec fn word_byte(w: u64, t: int) -> u8 {
    if 0 <= t < 8 {
        ((w >> ((8 * t) as u64)) & 0xffu64) as u8
    } else {
        0
    }
}

/// The word that inserting `value` at bit `offset` lays over the bytes that
/// start at byte `offset / 8`: `value` shifted left by `offset % 8`, in 64
/// bits, so that no bit of `value` is lost (it spans at most five bytes).
pub open spec fn shifted_word(offset: int, value: u32) -> u64 {
    (value as u64) << ((offset % 8) as u64)
}

/// The bits that inserting `value` at bit `offset` ORs into byte `j`.
pub open spec fn inserted_byte(offset: int, value: u32, j: int) -> u8 {
    word_byte(shifted_word(offset, value), j - offset / 8)
}

/// Inserting `value` at bit `offset` into `len` bytes touches no byte past the
/// end: every byte of the shifted word from byte `len` on is zero.
pub open spec fn insertion_fits(len: int, offset: int, value: u32) -> bool {
    forall|t: int|
        0 <= t < 5 && offset / 8 + t >= len ==> #[trigger] (shifted_word(offset, value) >> ((8
            * t) as u64)) == 0
}

/// A 32-bit value shifted left by less than a byte stays below bit 40.
pub proof fn lemma_shifted_word_small(value: u32, b: u64)
    requires
        b < 8,
    ensures
        ((value as u64) << b) >> 40u64 == 0,
{
    assert(((value as u64) << b) >> 40u64 == 0) by (bit_vector)
        requires
            b < 8,
    ;
}

/// Shifting a word right by one more byte.
pub proof fn lemma_shift_step(w: u64, t: u64)
    requires
        t < 5,
        w >> 40u64 == 0,
    ensures
        t < 4 ==> (w >> (8 * t)) >> 8u64 == w >> (8 * (t + 1)),
        t == 4 ==> (w >> (8 * t)) >> 8u64 == 0,
{
    assert(t < 4 ==> (w >> (8 * t)) >> 8u64 == w >> (8 * (t + 1))) by (bit_vector)
        requires
            t < 5,
    ;
    assert(t == 4 ==> (w >> (8 * t)) >> 8u64 == 0) by (bit_vector)
        requires
            w >> 40u64 == 0,
    ;
}

/// Once the bytes from byte `t` on are zero, so is every byte after it.
pub proof fn lemma_shift_zero_tail(w: u64, t: u64, t2: u64)
    requires
        t <= t2 < 8,
        w >> (8 * t) == 0,
    ensures
        (w >> (8 * t2)) & 0xffu64 == 0,
        w >> (8 * t2) == 0,
{
    assert((w >> (8 * t2)) & 0xffu64 == 0 && w >> (8 * t2) == 0) by (bit_vector)
        requires
            t <= t2 < 8,
            w >> (8 * t) == 0,
    ;
}

/// ORing zero into a byte leaves it unchanged.
pub proof fn lemma_or_zero(x: u8)
    ensures
        x | 0u8 == x,
{
    assert(x | 0u8 == x) by (bit_vector);
}

/// Law: inserting zero fits at any offset into any number of bytes, and puts
/// nothing into any byte.
pub proof fn lemma_insert_zero(len: int, offset: int)
    ensures
        insertion_fits(len, offset, 0),
        forall|j: int| #[trigger] inserted_byte(offset, 0, j) == 0,
{
    let b = (offset % 8) as u64;
    assert(((0u32 as u64) << b) == 0u64) by (bit_vector);
    assert forall|t: int| #[trigger] word_byte(0u64, t) == 0 by {
        let s = (8 * t) as u64;
        assert((0u64 >> s) & 0xffu64 == 0) by (bit_vector);
    }
    assert forall|t: int| 0 <= t < 5 implies #[trigger] (0u64 >> ((8 * t) as u64)) == 0 by {
        let s = (8 * t) as u64;
        assert(0u64 >> s == 0) by (bit_vector);
    }
}

} // verus!
