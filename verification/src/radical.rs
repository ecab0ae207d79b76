use vstd::prelude::*;
use crate::lookup::{TableLayout, lookup_bool, table_value, word_bytes};

verus! {

pub const RADICAL_CHUNK_SIZE: usize = 128;
pub const RADICAL_COLUMN_BITS: usize = 1;
pub const RADICAL_INDEX_LEN: usize = 97;
pub const RADICAL_INDEX_BITS: usize = 2;
pub const RADICAL_INDEX_BYTE_OFFSET: usize = 64;

/// The Radical table as little-endian 64-bit words: the packed column from
/// byte 0, the packed index from byte RADICAL_INDEX_BYTE_OFFSET, then zero padding.
pub const RADICAL_WORDS: [u64; 12] = [
    0x0000000000000000, 0x0000000000000000, 0xfffffffffbffffff, 0x000fffffffffffff,
    0xffffffffffffffff, 0xffffffffffffffff, 0xffffffffffffffff, 0x00000000003fffff,
    0x0000000000000000, 0x0000000000000000, 0xe400000000000000, 0x0000000000000000,
];

/// Layout of the Radical table.
pub open spec fn radical_layout() -> TableLayout {
    TableLayout {
        chunk_size: RADICAL_CHUNK_SIZE,
        column_bits: RADICAL_COLUMN_BITS,
        index_len: RADICAL_INDEX_LEN,
        index_bits: RADICAL_INDEX_BITS,
        index_byte_offset: RADICAL_INDEX_BYTE_OFFSET,
    }
}

/// Whether a Unicode code point has the Radical property: its bit in the
/// Radical table.
pub fn get_radical(code_point: char) -> (value: bool)
    ensures
        value == (table_value(word_bytes(RADICAL_WORDS@), radical_layout(), code_point as int) != 0),
{
    let layout = TableLayout {
        chunk_size: RADICAL_CHUNK_SIZE,
        column_bits: RADICAL_COLUMN_BITS,
        index_len: RADICAL_INDEX_LEN,
        index_bits: RADICAL_INDEX_BITS,
        index_byte_offset: RADICAL_INDEX_BYTE_OFFSET,
    };
    assert(1usize << 2usize == 4usize) by (bit_vector);
    lookup_bool(&RADICAL_WORDS, layout, code_point as usize)
}

} // verus!
