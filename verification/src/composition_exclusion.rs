use vstd::prelude::*;
use crate::lookup::{TableLayout, lookup_bool, table_value, word_bytes};

verus! {

pub const COMPOSITION_EXCLUSION_CHUNK_SIZE: usize = 256;
pub const COMPOSITION_EXCLUSION_COLUMN_BITS: usize = 1;
pub const COMPOSITION_EXCLUSION_INDEX_LEN: usize = 467;
pub const COMPOSITION_EXCLUSION_INDEX_BITS: usize = 3;
pub const COMPOSITION_EXCLUSION_INDEX_BYTE_OFFSET: usize = 256;

/// The CompositionExclusion table as little-endian 64-bit words: the packed column from
/// byte 0, the packed index from byte COMPOSITION_EXCLUSION_INDEX_BYTE_OFFSET, then zero padding.
pub const COMPOSITION_EXCLUSION_WORDS: [u64; 55] = [
    0x0000000000000000, 0x0000000000000000, 0x0000000000000000, 0x0000000000000000,
    0x0000000000000000, 0x00000000ff000000, 0x0000000000000000, 0x00000000b0000000,
    0x0048000000000000, 0x000000004e000000, 0x0000000000000000, 0x0000000000000000,
    0x0000000000000000, 0x0000000030000000, 0x0000000000000000, 0x0000000000000000,
    0x0000000000000000, 0x0140020010842008, 0x0200108420080000, 0x0000000000000000,
    0x0000000000000000, 0x0000000000000000, 0x0000000000000000, 0x0000000010000000,
    0x5f7ffc00a0000000, 0x0000000000007fdb, 0x0000000000000000, 0x0000000000000000,
    0x0000000000000000, 0x0000001fc0000000, 0xf800000000000000, 0x0000000000000001,
    0x0000800688000000, 0x4000000000000000, 0x0000000000000001, 0x0000000000000000,
    0x0000000000000000, 0x0000000000000000, 0x0000000000000000, 0x0000000000000000,
    0x0000000000000000, 0x0000000000000000, 0x0000000000000000, 0x000c000000000000,
    0x0000000000000000, 0x0000000000000000, 0x0000000000000000, 0x0000000000000000,
    0x0000000000000000, 0x0000000000000000, 0x0000000000000000, 0x0000000000000000,
    0x0000000000000000, 0x0038000000000000, 0x0000000000000000,
];

/// Layout of the CompositionExclusion table.
pub open spec fn composition_exclusion_layout() -> TableLayout {
    TableLayout {
        chunk_size: COMPOSITION_EXCLUSION_CHUNK_SIZE,
        column_bits: COMPOSITION_EXCLUSION_COLUMN_BITS,
        index_len: COMPOSITION_EXCLUSION_INDEX_LEN,
        index_bits: COMPOSITION_EXCLUSION_INDEX_BITS,
        index_byte_offset: COMPOSITION_EXCLUSION_INDEX_BYTE_OFFSET,
    }
}

/// Whether a Unicode code point has the CompositionExclusion property: its bit in the
/// CompositionExclusion table.
pub fn get_composition_exclusion(code_point: char) -> (value: bool)
    ensures
        value == (table_value(word_bytes(COMPOSITION_EXCLUSION_WORDS@), composition_exclusion_layout(), code_point as int) != 0),
{
    let layout = TableLayout {
        chunk_size: COMPOSITION_EXCLUSION_CHUNK_SIZE,
        column_bits: COMPOSITION_EXCLUSION_COLUMN_BITS,
        index_len: COMPOSITION_EXCLUSION_INDEX_LEN,
        index_bits: COMPOSITION_EXCLUSION_INDEX_BITS,
        index_byte_offset: COMPOSITION_EXCLUSION_INDEX_BYTE_OFFSET,
    };
    assert(1usize << 3usize == 8usize) by (bit_vector);
    lookup_bool(&COMPOSITION_EXCLUSION_WORDS, layout, code_point as usize)
}

} // verus!
