use vstd::prelude::*;
use crate::lookup::{TableLayout, lookup_bool, table_value, word_bytes};

verus! {

pub const DASH_CHUNK_SIZE: usize = 128;
pub const DASH_COLUMN_BITS: usize = 1;
pub const DASH_INDEX_LEN: usize = 543;
pub const DASH_INDEX_BITS: usize = 4;
pub const DASH_INDEX_BYTE_OFFSET: usize = 224;

/// The Dash table as little-endian 64-bit words: the packed column from
/// byte 0, the packed index from byte DASH_INDEX_BYTE_OFFSET, then zero padding.
pub const DASH_WORDS: [u64; 63] = [
    0x0000200000000000, 0x0000000000000000, 0x0000000000000000, 0x0000000000000000,
    0x4000000000000400, 0x0000000000000000, 0x0000000000000001, 0x0000000000000000,
    0x0000000000000040, 0x0000000000000000, 0x00000000003f0000, 0x0800000000080000,
    0x0000000000000800, 0x0000000000000000, 0x0000000000040000, 0x0000000000000000,
    0x0c00000004800000, 0x0000000020000001, 0x0001000010000000, 0x0000000000000000,
    0x0000000100000000, 0x0000000000000000, 0x0006000000000000, 0x0000000801000000,
    0x0000000000002000, 0x0000000000000000, 0x0000000000000000, 0x0000400000000000,
    0x1111211111111110, 0x1111111111111111, 0x1111111311111111, 0x1111111111111114,
    0x1111111111171165, 0x1118111111111111, 0x11111111111111a9, 0x1111111111111111,
    0x1111111111111111, 0x1111111111111111, 0x1111111111111111, 0x1111111111111111,
    0x1111111111111111, 0x1111111111111111, 0x1111111111111111, 0x1111111111111111,
    0x1111111111111111, 0x1111111111111111, 0x1111111111111111, 0x1111111111111111,
    0x1111111111111111, 0x1111111111111111, 0x1111111111111111, 0x1111111111111111,
    0x1111111111111111, 0x1111111111111111, 0x1111111111111111, 0x1111111111111111,
    0x1111111111111111, 0x1111111111111111, 0x1111111111111111, 0x1c1b111111111111,
    0x1111111111111111, 0x01011d1111111111, 0x0000000000000000,
];

/// Layout of the Dash table.
pub open spec fn dash_layout() -> TableLayout {
    TableLayout {
        chunk_size: DASH_CHUNK_SIZE,
        column_bits: DASH_COLUMN_BITS,
        index_len: DASH_INDEX_LEN,
        index_bits: DASH_INDEX_BITS,
        index_byte_offset: DASH_INDEX_BYTE_OFFSET,
    }
}

/// Whether a Unicode code point has the Dash property: its bit in the
/// Dash table.
pub fn get_dash(code_point: char) -> (value: bool)
    ensures
        value == (table_value(word_bytes(DASH_WORDS@), dash_layout(), code_point as int) != 0),
{
    let layout = TableLayout {
        chunk_size: DASH_CHUNK_SIZE,
        column_bits: DASH_COLUMN_BITS,
        index_len: DASH_INDEX_LEN,
        index_bits: DASH_INDEX_BITS,
        index_byte_offset: DASH_INDEX_BYTE_OFFSET,
    };
    assert(1usize << 4usize == 16usize) by (bit_vector);
    lookup_bool(&DASH_WORDS, layout, code_point as usize)
}

} // verus!
