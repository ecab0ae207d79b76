use vstd::prelude::*;
use crate::lookup::{TableLayout, lookup_bool, table_value, word_bytes};

verus! {

pub const ID_COMPAT_MATH_START_CHUNK_SIZE: usize = 256;
pub const ID_COMPAT_MATH_START_COLUMN_BITS: usize = 1;
pub const ID_COMPAT_MATH_START_INDEX_LEN: usize = 473;
pub const ID_COMPAT_MATH_START_INDEX_BITS: usize = 2;
pub const ID_COMPAT_MATH_START_INDEX_BYTE_OFFSET: usize = 128;

/// The IdCompatMathStart table as little-endian 64-bit words: the packed column from
/// byte 0, the packed index from byte ID_COMPAT_MATH_START_INDEX_BYTE_OFFSET, then zero padding.
pub const ID_COMPAT_MATH_START_WORDS: [u64; 31] = [
    0x0000000000000000, 0x0000000000000000, 0x0000000000000000, 0x0000000000000000,
    0x0000000040000084, 0x0000000000000000, 0x0000000000000000, 0x0000000000000000,
    0x0000000000000000, 0x0000000000000000, 0x0000000000000000, 0x0800000008000002,
    0x0020000000200000, 0x0000800000008000, 0x0000020000000200, 0x0000000000000008,
    0x0000000000000000, 0x0000000000000010, 0x0000000000000000, 0x0000000000000000,
    0x0000000000000000, 0x0000000000000000, 0x0000000000000000, 0x0000000000000000,
    0x0000000000000000, 0x0000000000000000, 0x0000000000000000, 0x0000000000000000,
    0x0000000000000000, 0x0000000000000000, 0x0000e00000000000,
];

/// Layout of the IdCompatMathStart table.
pub open spec fn id_compat_math_start_layout() -> TableLayout {
    TableLayout {
        chunk_size: ID_COMPAT_MATH_START_CHUNK_SIZE,
        column_bits: ID_COMPAT_MATH_START_COLUMN_BITS,
        index_len: ID_COMPAT_MATH_START_INDEX_LEN,
        index_bits: ID_COMPAT_MATH_START_INDEX_BITS,
        index_byte_offset: ID_COMPAT_MATH_START_INDEX_BYTE_OFFSET,
    }
}

/// Whether a Unicode code point has the IdCompatMathStart property: its bit in the
/// IdCompatMathStart table.
pub fn get_id_compat_math_start(code_point: char) -> (value: bool)
    ensures
        value == (table_value(word_bytes(ID_COMPAT_MATH_START_WORDS@), id_compat_math_start_layout(), code_point as int) != 0),
{
    let layout = TableLayout {
        chunk_size: ID_COMPAT_MATH_START_CHUNK_SIZE,
        column_bits: ID_COMPAT_MATH_START_COLUMN_BITS,
        index_len: ID_COMPAT_MATH_START_INDEX_LEN,
        index_bits: ID_COMPAT_MATH_START_INDEX_BITS,
        index_byte_offset: ID_COMPAT_MATH_START_INDEX_BYTE_OFFSET,
    };
    assert(1usize << 2usize == 4usize) by (bit_vector);
    lookup_bool(&ID_COMPAT_MATH_START_WORDS, layout, code_point as usize)
}

} // verus!
