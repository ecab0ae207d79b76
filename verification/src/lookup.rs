use vstd::prelude::*;

verus! {

/// The bytes of a table stored as 64-bit words, each word little-endian.
pub open spec fn word_bytes(words: Seq<u64>) -> Seq<u8> {
    Seq::new(8 * words.len(), |p: int| ((words[p / 8] >> ((8 * (p % 8)) as u64)) & 0xffu64) as u8)
}

/// Byte `p` of a table stored as 64-bit words.
fn table_byte(words: &[u64], p: usize) -> (b: u8)
    requires
        p < 8 * words@.len(),
    ensures
        b == word_bytes(words@)[p as int],
{
    let w = words[p / 8];
    let shift = (8 * (p % 8)) as u64;
    ((w >> shift) & 0xff) as u8
}

/// Bit `p` of a packed table: bit `p % 8` of byte `p / 8`.
pub open spec fn bit_at(data: Seq<u8>, p: int) -> nat {
    ((data[p / 8] >> ((p % 8) as u8)) & 1u8) as nat
}

/// The `width`-bit value stored at bit `p` of a packed table, lowest bit
/// first.
pub open spec fn field_at(data: Seq<u8>, p: int, width: nat) -> nat
    decreases width,
{
    if width == 0 {
        0
    } else {
        bit_at(data, p) + 2 * field_at(data, p + 1, (width - 1) as nat)
    }
}

/// Layout of a two-level packed property table: a column of `column_bits`-bit
/// values starting at byte 0, cut into chunks of `chunk_size` code points, and
/// an index of `index_len` entries of `index_bits` bits starting at byte
/// `index_byte_offset`, giving for each chunk of code points the chunk of the
/// column that holds its values.
#[derive(Clone, Copy)]
pub struct TableLayout {
    pub chunk_size: usize,
    pub column_bits: usize,
    pub index_len: usize,
    pub index_bits: usize,
    pub index_byte_offset: usize,
}

/// The index entry that code point `cp` is looked up by: entry
/// `cp / chunk_size`, or the last entry for code points past the index.
pub open spec fn index_slot(layout: TableLayout, cp: int) -> int {
    let hi = cp / layout.chunk_size as int;
    if hi > layout.index_len - 1 {
        layout.index_len - 1
    } else {
        hi
    }
}

/// The column chunk that code point `cp` is looked up in.
pub open spec fn table_chunk(data: Seq<u8>, layout: TableLayout, cp: int) -> nat {
    field_at(
        data,
        8 * layout.index_byte_offset + index_slot(layout, cp) * layout.index_bits,
        layout.index_bits as nat,
    )
}

/// The value that a packed property table holds for code point `cp`.
pub open spec fn table_value(data: Seq<u8>, layout: TableLayout, cp: int) -> nat {
    field_at(
        data,
        (table_chunk(data, layout, cp) * layout.chunk_size + cp % layout.chunk_size as int)
            * layout.column_bits,
        layout.column_bits as nat,
    )
}

/// The mask of the `w` lowest bits of a word.
pub open spec fn mask_of(w: usize) -> usize {
    ((1usize << w) - 1usize) as usize
}

/// Bit `t` of two bytes read as one little-endian 16-bit value.
proof fn lemma_pair_bit(b0: u8, b1: u8, t: usize)
    requires
        t < 16,
    ensures
        ((((b1 as usize) << 8usize) | (b0 as usize)) >> t) & 1usize == if t < 8 {
            ((b0 >> (t as u8)) & 1u8) as usize
        } else {
            ((b1 >> ((t - 8) as u8)) & 1u8) as usize
        },
{
    assert(t < 8 ==> ((((b1 as usize) << 8usize) | (b0 as usize)) >> t) & 1usize == ((b0 >> (
    t as u8)) & 1u8) as usize) by (bit_vector)
        requires
            t < 16,
    ;
    assert(t >= 8 ==> ((((b1 as usize) << 8usize) | (b0 as usize)) >> t) & 1usize == ((b1 >> ((
    t - 8) as u8)) & 1u8) as usize) by (bit_vector)
        requires
            t < 16,
    ;
}

/// Masking `w` bits off `x >> s` takes its lowest bit and, above it, `w - 1`
/// bits off `x >> (s + 1)`.
proof fn lemma_mask_split(x: usize, s: usize, w: usize)
    requires
        1 <= w,
        s + w <= 16,
        x < 0x10000,
    ensures
        (x >> s) & (mask_of(w)) == ((x >> s) & 1usize) + 2 * ((x >> ((s + 1) as usize))
            & (mask_of((w - 1) as usize))),
{
    assert((x >> s) & (mask_of(w)) == ((x >> s) & 1usize) + 2 * ((x >> ((s + 1) as usize)) & (mask_of((w - 1) as usize)))) by (bit_vector)
        requires
            1 <= w,
            s + w <= 16,
            x < 0x10000,
    ;
}

/// Reading two bytes at byte `a` as one little-endian value, shifting by `s`
/// and keeping `w` bits gives the `w`-bit field at bit `8 * a + s`.
proof fn lemma_pair_field(data: Seq<u8>, a: int, s: usize, w: usize)
    requires
        0 <= a,
        a + 1 < data.len(),
        s + w <= 16,
    ensures
        ((((((data[a + 1] as usize) << 8usize) | (data[a] as usize)) >> s) & (mask_of(w))) as nat) == field_at(data, 8 * a + s, w as nat),
    decreases w,
{
    let b0 = data[a];
    let b1 = data[a + 1];
    let x = ((b1 as usize) << 8usize) | (b0 as usize);
    assert(x < 0x10000) by (bit_vector)
        requires
            x == ((b1 as usize) << 8usize) | (b0 as usize),
    ;
    if w == 0 {
        assert((x >> s) & mask_of(0usize) == 0) by (bit_vector);
    } else {
        lemma_mask_split(x, s, w);
        lemma_pair_field(data, a, (s + 1) as usize, (w - 1) as usize);
        lemma_pair_bit(b0, b1, s);
        let p = 8 * a + s;
        if s < 8 {
            assert(p / 8 == a && p % 8 == s);
        } else {
            assert(p / 8 == a + 1 && p % 8 == s - 8);
        }
        assert(8 * a + (s + 1) == p + 1);
    }
}

/// Bit `t` of a byte read as a machine word is the table bit it stands for.
proof fn lemma_byte_bit(b: u8, t: usize)
    requires
        t < 8,
    ensures
        ((b as usize) >> t) & 1usize == ((b >> (t as u8)) & 1u8) as usize,
{
    assert(((b as usize) >> t) & 1usize == ((b >> (t as u8)) & 1u8) as usize) by (bit_vector)
        requires
            t < 8,
    ;
}

/// `data` holds a whole one-bit-per-code-point table laid out by `layout`,
/// with the padding byte that the two-byte index reads need.
pub open spec fn bool_table_fits(data: Seq<u8>, layout: TableLayout) -> bool {
    &&& layout.chunk_size > 0
    &&& layout.column_bits == 1
    &&& layout.index_len > 0
    &&& layout.index_bits <= 8
    &&& layout.index_byte_offset + (layout.index_len - 1) * layout.index_bits / 8 + 1 < data.len()
    &&& (1usize << layout.index_bits) * layout.chunk_size <= 8 * data.len()
    &&& data.len() <= 0x1000_0000
}

/// Looks up code point `cp` in a one-bit-per-code-point packed table stored
/// as 64-bit words.
pub fn lookup_bool(words: &[u64], layout: TableLayout, cp: usize) -> (value: bool)
    requires
        bool_table_fits(word_bytes(words@), layout),
        cp < 0x110000,
    ensures
        value == (table_value(word_bytes(words@), layout, cp as int) != 0),
{
    let ghost data = word_bytes(words@);
    let chunk_size = layout.chunk_size;
    let index_bits = layout.index_bits;
    let code_point_lo = cp % chunk_size;
    let mut code_point_hi = cp / chunk_size;
    if code_point_hi > layout.index_len - 1 {
        code_point_hi = layout.index_len - 1;
    }
    assert(code_point_hi == index_slot(layout, cp as int));

    assert(code_point_hi * index_bits <= (layout.index_len - 1) * index_bits) by (nonlinear_arith)
        requires
            code_point_hi <= layout.index_len - 1,
    ;
    let index_offset = code_point_hi * index_bits;
    let index_byte_offset = index_offset / 8;
    let index_bit_offset = index_offset % 8;
    let a = layout.index_byte_offset + index_byte_offset;
    let b1 = table_byte(words, a + 1);
    let b0 = table_byte(words, a);
    let mut index: usize = 0;
    index |= (b1 as usize) << 8;
    index |= (b0 as usize) << 0;
    assert(index == ((b1 as usize) << 8usize) | (b0 as usize)) by (bit_vector)
        requires
            index == (0usize | ((b1 as usize) << 8usize)) | ((b0 as usize) << 0usize),
    ;
    index >>= index_bit_offset;
    assert(1usize << index_bits >= 1usize) by (bit_vector)
        requires
            index_bits <= 8,
    ;
    let ghost shifted = index;
    index &= (1usize << index_bits) - 1;
    proof {
        lemma_pair_field(data, a as int, index_bit_offset, index_bits);
        assert(8 * a + index_bit_offset == 8 * layout.index_byte_offset + code_point_hi * index_bits);
    }
    assert(index == table_chunk(data, layout, cp as int));
    let ghost mask = mask_of(index_bits);
    assert(index < (1usize << index_bits)) by (bit_vector)
        requires
            index == shifted & mask,
            mask == mask_of(index_bits),
            index_bits <= 8,
    ;
    assert(index * chunk_size + code_point_lo < (1usize << index_bits) * chunk_size) by (nonlinear_arith)
        requires
            index < (1usize << index_bits),
            code_point_lo < chunk_size,
    ;

    let column_offset = (index * chunk_size + code_point_lo) * 1;
    let column_byte_offset = column_offset / 8;
    let column_bit_offset = column_offset % 8;

    let mut value: usize = 0;
    value |= (table_byte(words, column_byte_offset) as usize) << 0;
    value >>= column_bit_offset;
    value &= 1;
    proof {
        let b = data[column_byte_offset as int];
        assert(value == ((b as usize) >> column_bit_offset) & 1usize) by (bit_vector)
            requires
                value == ((0usize | ((b as usize) << 0usize)) >> column_bit_offset) & 1usize,
        ;
        lemma_byte_bit(b, column_bit_offset);
        let p = column_offset as int;
        assert(p == (table_chunk(data, layout, cp as int) * layout.chunk_size + cp as int
            % layout.chunk_size as int) * layout.column_bits);
        assert(field_at(data, p + 1, 0) == 0);
        assert(field_at(data, p, 1) == bit_at(data, p));
        assert(bit_at(data, p) == value);
    }
    value != 0
}

} // verus!
