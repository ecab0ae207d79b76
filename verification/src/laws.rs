use vstd::prelude::*;
use vstd::arithmetic::power2::{pow2, lemma2_to64, lemma_pow2_unfold, lemma_pow2_pos, lemma_pow2_strictly_increases};
use vstd::bits::lemma_u32_shr_is_div;
use crate::bits::{shifted_word, inserted_byte, insertion_fits};
use crate::column::{lemma_seq_max_below, table_cost, best_fit_sizes, candidate_costs, char_code, decoded_char, storable_char, position, interned, best_fit_pick, packed_len, packed_byte, compress_spec, packing_fits, bit_width, seq_max, lemma_bit_width_bound, chunk, chunk_count, occurs_in, index_entry, is_dedup_of};
use crate::lookup::{TableLayout, index_slot, table_chunk, table_value, bit_at, field_at};

verus! {

/// Bit `i` (`0 <= i < 32`) of a 32-bit value is set.
pub open spec fn word_bit(v: u32, i: int) -> bool {
    0 <= i < 32 && (v >> (i as u32)) & 1u32 == 1u32
}

/// Bit `r` (`0 <= r < 8`) of a byte is set.
pub open spec fn byte_bit(b: u8, r: int) -> bool {
    (b >> (r as u8)) & 1u8 == 1u8
}

/// Value `k` of `input`, packed `n` bits apart, sets bit `p` of the table.
pub open spec fn sets_bit(input: Seq<u32>, n: int, k: int, p: int) -> bool {
    let o = k * n;
    0 <= p - o && word_bit(input[k], p - o)
}

proof fn lemma_shifted_lane_bit(v: u32, b: u64, t: u64, r: u64)
    requires
        b < 8,
        t < 8,
        r < 8,
    ensures
        (((((((v as u64) << b) >> (8 * t)) & 0xffu64) as u8) >> (r as u8)) & 1u8 == 1u8) == (8 * t
            + r >= b && 8 * t + r - b < 32 && ((v >> ((8 * t + r - b) as u32)) & 1u32) == 1u32),
{
    assert((((((((v as u64) << b) >> (8 * t)) & 0xffu64) as u8) >> (r as u8)) & 1u8 == 1u8) == (8
        * t + r >= b && 8 * t + r - b < 32 && ((v >> ((8 * t + r - b) as u32)) & 1u32) == 1u32))
        by (bit_vector)
        requires
            b < 8,
            t < 8,
            r < 8,
    ;
}

proof fn lemma_zero_byte_bit(r: int)
    requires
        0 <= r < 8,
    ensures
        !byte_bit(0u8, r),
{
    let r8 = r as u8;
    assert((0u8 >> r8) & 1u8 == 0u8) by (bit_vector);
}

proof fn lemma_or_byte_bit(a: u8, b: u8, r: int)
    requires
        0 <= r < 8,
    ensures
        byte_bit(a | b, r) == (byte_bit(a, r) || byte_bit(b, r)),
{
    let r8 = r as u8;
    assert((((a | b) >> r8) & 1u8 == 1u8) == (((a >> r8) & 1u8 == 1u8) || ((b >> r8) & 1u8
        == 1u8))) by (bit_vector)
        requires
            r8 < 8,
    ;
}

/// Which bits of byte `j` inserting `value` at bit `offset` sets.
proof fn lemma_inserted_byte_bit(offset: int, value: u32, j: int, r: int)
    requires
        0 <= offset,
        0 <= r < 8,
    ensures
        byte_bit(inserted_byte(offset, value, j), r) == (0 <= 8 * j + r - offset && word_bit(
            value,
            8 * j + r - offset,
        )),
{
    let t = j - offset / 8;
    let b = offset % 8;
    assert(8 * j + r - offset == 8 * t + r - b);
    if 0 <= t < 8 {
        lemma_shifted_lane_bit(value, b as u64, t as u64, r as u64);
        assert(shifted_word(offset, value) == (value as u64) << (b as u64));
        assert((8 * t) as u64 == 8 * (t as u64));
    } else {
        lemma_zero_byte_bit(r);
    }
}

/// A bit of a packed byte is set exactly when one of the packed values sets
/// it.
proof fn lemma_packed_byte_bit(input: Seq<u32>, n: int, k: int, j: int, r: int)
    requires
        0 <= k <= input.len(),
        0 <= n,
        0 <= r < 8,
    ensures
        byte_bit(packed_byte(input, n, k, j), r) == exists|i: int|
            0 <= i < k && #[trigger] sets_bit(input, n, i, 8 * j + r),
    decreases k,
{
    if k == 0 {
        lemma_zero_byte_bit(r);
    } else {
        lemma_packed_byte_bit(input, n, k - 1, j, r);
        lemma_or_byte_bit(
            packed_byte(input, n, k - 1, j),
            inserted_byte((k - 1) * n, input[k - 1], j),
            r,
        );
        assert((k - 1) * n >= 0) by (nonlinear_arith)
            requires
                k >= 1,
                n >= 0,
        ;
        lemma_inserted_byte_bit((k - 1) * n, input[k - 1], j, r);
        if byte_bit(packed_byte(input, n, k, j), r) {
            if !byte_bit(packed_byte(input, n, k - 1, j), r) {
                assert(sets_bit(input, n, k - 1, 8 * j + r));
            }
        }
    }
}

/// A value below `2^n` has no set bit from bit `n` on.
proof fn lemma_high_bit_clear(v: u32, n: nat, i: int)
    requires
        v < pow2(n),
        n <= i < 32,
    ensures
        !word_bit(v, i),
{
    lemma_u32_shr_is_div(v, i as u32);
    if n < i {
        lemma_pow2_strictly_increases(n, i as nat);
    }
    lemma_pow2_pos(i as nat);
    assert(v as nat / pow2(i as nat) == 0) by (nonlinear_arith)
        requires
            v < pow2(i as nat),
    ;
    let s = i as u32;
    assert((0u32 & 1u32) != 1u32) by (bit_vector);
}

proof fn lemma_word_bit_step(v: u32, i: int)
    requires
        0 <= i < 31,
    ensures
        word_bit(v >> 1u32, i) == word_bit(v, i + 1),
{
    let s = i as u32;
    assert(((v >> 1u32) >> s) & 1u32 == (v >> (s + 1)) & 1u32) by (bit_vector)
        requires
            s < 31,
    ;
    assert((i + 1) as u32 == s + 1);
}

/// A field whose bits are those of `v`, with `v` below `2^n`, reads back as
/// `v`.
proof fn lemma_field_from_bits(data: Seq<u8>, o: int, n: nat, v: u32)
    requires
        n <= 32,
        v < pow2(n),
        forall|i: int|
            0 <= i < n ==> #[trigger] bit_at(data, o + i) == if word_bit(v, i) {
                1nat
            } else {
                0nat
            },
    ensures
        field_at(data, o, n) == v,
    decreases n,
{
    if n == 0 {
        lemma2_to64();
    } else {
        let h = v >> 1u32;
        lemma_u32_shr_is_div(v, 1u32);
        lemma2_to64();
        lemma_pow2_unfold(n);
        assert(h < pow2((n - 1) as nat)) by (nonlinear_arith)
            requires
                v < 2 * pow2((n - 1) as nat),
                h == v as nat / 2,
        ;
        assert forall|i: int| 0 <= i < n - 1 implies #[trigger] bit_at(data, (o + 1) + i)
            == if word_bit(h, i) {
            1nat
        } else {
            0nat
        } by {
            lemma_word_bit_step(v, i);
            assert(bit_at(data, o + (i + 1)) == bit_at(data, (o + 1) + i));
        }
        lemma_field_from_bits(data, o + 1, (n - 1) as nat, h);
        assert(v == (v & 1u32) + 2 * (v >> 1u32)) by (bit_vector);
        assert((v & 1u32) == 1u32 <==> ((v >> 0u32) & 1u32) == 1u32) by (bit_vector);
        assert((v & 1u32) <= 1u32) by (bit_vector);
        assert(bit_at(data, o + 0) == bit_at(data, o));
    }
}

/// Every value of `input` fits in `num_bits` bits, `num_bits` being at most
/// 32.
pub open spec fn values_fit(input: Seq<u32>, num_bits: int) -> bool {
    &&& 0 <= num_bits <= 32
    &&& forall|k: int| 0 <= k < input.len() ==> #[trigger] input[k] < pow2(num_bits as nat)
}

proof fn lemma_shifted_high_clear(v: u32, b: u64, n: u32, s: u64)
    requires
        b < 8,
        s <= 32,
        n <= 32,
        b + n <= s,
        n < 32 ==> v >> n == 0,
    ensures
        ((v as u64) << b) >> s == 0,
{
    assert(((v as u64) << b) >> s == 0) by (bit_vector)
        requires
            b < 8,
            s <= 32,
            n <= 32,
            b + n <= s,
            n < 32 ==> v >> n == 0,
    ;
}

/// Law: packing values that fit in `num_bits` bits never touches a byte past
/// the end of the packed table.
pub proof fn lemma_fitting_values_pack(input: Seq<u32>, num_bits: int)
    requires
        values_fit(input, num_bits),
    ensures
        packing_fits(input, num_bits),
{
    let n = num_bits;
    let len = input.len() as int;
    let total = packed_len(n, len);
    assert forall|k: int| 0 <= k < len implies insertion_fits(total, k * n, #[trigger] input[k]) by {
        let o = k * n;
        let b = o % 8;
        let v = input[k];
        assert(o + n <= n * len && 0 <= o) by (nonlinear_arith)
            requires
                0 <= k < len,
                0 <= n,
                o == k * n,
        ;
        assert forall|t: int| 0 <= t < 5 && o / 8 + t >= total implies #[trigger] (shifted_word(
            o,
            v,
        ) >> ((8 * t) as u64)) == 0 by {
            assert(8 * t >= b + n);
            if n < 32 {
                lemma_u32_shr_is_div(v, n as u32);
                lemma_pow2_pos(n as nat);
                assert(v as nat / pow2(n as nat) == 0) by (nonlinear_arith)
                    requires
                        v < pow2(n as nat),
                ;
            }
            lemma_shifted_high_clear(v, b as u64, n as u32, (8 * t) as u64);
        }
    }
}

proof fn lemma_bit_at_is_bit(data: Seq<u8>, p: int)
    requires
        0 <= p,
    ensures
        bit_at(data, p) == if byte_bit(data[p / 8], p % 8) {
            1nat
        } else {
            0nat
        },
{
    let x = data[p / 8];
    let r = (p % 8) as u8;
    assert((x >> r) & 1u8 == 1u8 || (x >> r) & 1u8 == 0u8) by (bit_vector);
}

/// Law: reading back field `k` of values packed `num_bits` apart gives value
/// `k`, when every value fits in `num_bits` bits.
pub proof fn lemma_compress_read_back(input: Seq<u32>, num_bits: int, k: int)
    requires
        values_fit(input, num_bits),
        0 <= k < input.len(),
    ensures
        field_at(compress_spec(input, num_bits), k * num_bits, num_bits as nat) == input[k],
{
    let n = num_bits;
    let len = input.len() as int;
    let data = compress_spec(input, n);
    let o = k * n;
    let v = input[k];
    assert(o + n <= n * len && 0 <= o) by (nonlinear_arith)
        requires
            0 <= k < len,
            0 <= n,
            o == k * n,
    ;
    assert forall|i: int| 0 <= i < n implies #[trigger] bit_at(data, o + i) == if word_bit(v, i) {
        1nat
    } else {
        0nat
    } by {
        let p = o + i;
        let j = p / 8;
        let r = p % 8;
        assert(j < packed_len(n, len));
        assert(data[j] == packed_byte(input, n, len, j));
        lemma_bit_at_is_bit(data, p);
        lemma_packed_byte_bit(input, n, len, j, r);
        assert(8 * j + r == p);
        if word_bit(v, i) {
            assert(sets_bit(input, n, k, p));
        } else {
            assert forall|k2: int| 0 <= k2 < len implies !#[trigger] sets_bit(input, n, k2, p) by {
                if sets_bit(input, n, k2, p) {
                    let i2 = p - k2 * n;
                    if i2 >= n {
                        lemma_high_bit_clear(input[k2], n as nat, i2);
                    }
                    assert(k2 == k) by (nonlinear_arith)
                        requires
                            0 <= i2 < n,
                            i2 == p - k2 * n,
                            p == k * n + i,
                            0 <= i < n,
                    ;
                }
            }
        }
    }
    lemma_field_from_bits(data, o, n as nat, v);
}

/// No value of `s` is above its largest value.
proof fn lemma_seq_max_is_max(s: Seq<u32>, i: int)
    requires
        0 <= i < s.len(),
    ensures
        s[i] <= seq_max(s),
    decreases s.len(),
{
    if i < s.len() - 1 {
        lemma_seq_max_is_max(s.drop_last(), i);
    }
}

/// A non-zero largest value is one of the values.
proof fn lemma_seq_max_attained(s: Seq<u32>) -> (i: int)
    requires
        seq_max(s) > 0,
    ensures
        0 <= i < s.len(),
        s[i] == seq_max(s),
    decreases s.len(),
{
    let rest = seq_max(s.drop_last());
    if s.last() as nat > rest {
        (s.len() - 1) as int
    } else {
        let j = lemma_seq_max_attained(s.drop_last());
        assert(s.drop_last()[j] == s[j]);
        j
    }
}

/// Law: the width that `get_width` gives holds every value of the column,
/// and no smaller width does: some value of the column needs its top bit.
pub proof fn lemma_width_holds_values(input: Seq<u32>)
    ensures
        forall|i: int| 0 <= i < input.len() ==> #[trigger] input[i] < pow2(bit_width(seq_max(input))),
        bit_width(seq_max(input)) > 0 ==> pow2((bit_width(seq_max(input)) - 1) as nat) <= seq_max(
            input,
        ),
        bit_width(seq_max(input)) > 0 ==> exists|i: int|
            0 <= i < input.len() && pow2((bit_width(seq_max(input)) - 1) as nat) <= #[trigger] input[i],
{
    let m = seq_max(input);
    let w = bit_width(m);
    lemma_bit_width_bound(m, w);
    if w > 0 {
        lemma_bit_width_bound(m, (w - 1) as nat);
        lemma_pow2_pos((w - 1) as nat);
        let j = lemma_seq_max_attained(input);
        assert(pow2((w - 1) as nat) <= input[j]);
    }
    assert forall|i: int| 0 <= i < input.len() implies #[trigger] input[i] < pow2(w) by {
        lemma_seq_max_is_max(input, i);
    }
}

/// Law (the lookup rule of `dedup`): entry `i` of the column is entry
/// `index_entry(index, i / chunk_size) * chunk_size + i % chunk_size` of the
/// deduplicated table.
pub proof fn lemma_dedup_lookup(column: Seq<u32>, chunk_size: int, table: Seq<u32>, index: Seq<u32>, i: int)
    requires
        chunk_size > 0,
        chunk_count(chunk_size) * chunk_size <= column.len(),
        is_dedup_of(column, chunk_size, table, index),
        0 <= i < chunk_count(chunk_size) * chunk_size,
    ensures
        0 <= index_entry(index, i / chunk_size) * chunk_size + i % chunk_size < table.len(),
        column[i] == table[index_entry(index, i / chunk_size) * chunk_size + i % chunk_size],
{
    let cs = chunk_size;
    let n = chunk_count(cs);
    let k = i / cs;
    let r = i % cs;
    let m = table.len() as int / cs;
    assert(0 <= k < n && i == k * cs + r) by (nonlinear_arith)
        requires
            0 <= i < n * cs,
            cs > 0,
            k == i / cs,
            r == i % cs,
    ;
    assert(index.len() > 0);
    let e = index_entry(index, k);
    assert(0 <= e < m);
    assert(e * cs + cs <= m * cs && k * cs + cs <= n * cs && 0 <= e * cs) by (nonlinear_arith)
        requires
            0 <= e < m,
            0 <= k < n,
            cs > 0,
    ;
    assert(chunk(table, e, cs) == chunk(column, k, cs));
    assert(chunk(table, e, cs)[r] == table[e * cs + r]);
    assert(chunk(column, k, cs)[r] == column[k * cs + r]);
}

/// A field of `sub`, where `sub` sits at byte `base` of `data`, reads the same
/// in `data`.
proof fn lemma_field_in_part(data: Seq<u8>, sub: Seq<u8>, base: int, q: int, w: nat)
    requires
        0 <= base,
        base + sub.len() <= data.len(),
        data.subrange(base, base + sub.len()) == sub,
        0 <= q,
        q + w <= 8 * sub.len(),
    ensures
        field_at(data, 8 * base + q, w) == field_at(sub, q, w),
    decreases w,
{
    if w > 0 {
        lemma_field_in_part(data, sub, base, q + 1, (w - 1) as nat);
        let p = 8 * base + q;
        assert(p / 8 == base + q / 8 && p % 8 == q % 8);
        assert(data.subrange(base, base + sub.len())[q / 8] == data[base + q / 8]);
        assert(8 * base + (q + 1) == p + 1);
    }
}

/// The table that `dedup` and `compress` lay out: the deduplicated column
/// packed `column_bits` per value at byte 0, the index packed `index_bits`
/// per entry right after it.
pub open spec fn packed_layout(
    table: Seq<u32>,
    index: Seq<u32>,
    chunk_size: int,
    column_bits: int,
    index_bits: int,
) -> TableLayout {
    TableLayout {
        chunk_size: chunk_size as usize,
        column_bits: column_bits as usize,
        index_len: index.len() as usize,
        index_bits: index_bits as usize,
        index_byte_offset: packed_len(column_bits, table.len() as int) as usize,
    }
}

/// Every value in the deduplicated table is a value of the column.
proof fn lemma_table_values_from_column(
    column: Seq<u32>,
    cs: int,
    table: Seq<u32>,
    index: Seq<u32>,
    p: int,
) -> (q: int)
    requires
        cs > 0,
        chunk_count(cs) * cs <= column.len(),
        is_dedup_of(column, cs, table, index),
        0 <= p < table.len(),
    ensures
        0 <= q < chunk_count(cs) * cs,
        table[p] == column[q],
{
    let n = chunk_count(cs);
    let m = table.len() as int / cs;
    let j = p / cs;
    let r = p % cs;
    assert(0 <= j < m && p == j * cs + r && j * cs + cs <= m * cs) by (nonlinear_arith)
        requires
            0 <= p < m * cs,
            cs > 0,
            j == p / cs,
            r == p % cs,
    ;
    let c = chunk(table, j, cs);
    assert(occurs_in(column, cs, n, c));
    let k2 = choose|k2: int| 0 <= k2 < n && #[trigger] chunk(column, k2, cs) == c;
    assert(c[r] == table[p]);
    assert(k2 * cs + r < n * cs && k2 * cs + cs <= n * cs && 0 <= k2 * cs) by (nonlinear_arith)
        requires
            0 <= k2 < n,
            0 <= r < cs,
    ;
    assert(chunk(column, k2, cs)[r] == column[k2 * cs + r]);
    k2 * cs + r
}

/// Law (a packed table reads back its column): when a column whose values fit
/// in `column_bits` bits is deduplicated, the table packed `column_bits` per
/// value and the index packed `index_bits` per entry, and the two are laid
/// side by side in `data`, looking up any code point of a whole chunk in
/// `data` gives its value in the column.
pub proof fn lemma_packed_table_reads_column(
    column: Seq<u32>,
    chunk_size: int,
    column_bits: int,
    table: Seq<u32>,
    index: Seq<u32>,
    index_bits: int,
    data: Seq<u8>,
    cp: int,
)
    requires
        0 < chunk_size <= 0x110000,
        0 <= column_bits <= 32,
        chunk_count(chunk_size) * chunk_size <= column.len(),
        data.len() <= usize::MAX,
        forall|i: int|
            0 <= i < chunk_count(chunk_size) * chunk_size ==> #[trigger] column[i] < pow2(
                column_bits as nat,
            ),
        is_dedup_of(column, chunk_size, table, index),
        values_fit(index, index_bits),
        data.len() >= packed_len(column_bits, table.len() as int) + packed_len(
            index_bits,
            index.len() as int,
        ),
        data.subrange(0, packed_len(column_bits, table.len() as int)) == compress_spec(
            table,
            column_bits,
        ),
        data.subrange(
            packed_len(column_bits, table.len() as int),
            packed_len(column_bits, table.len() as int) + packed_len(index_bits, index.len() as int),
        ) == compress_spec(index, index_bits),
        0 <= cp < chunk_count(chunk_size) * chunk_size,
    ensures
        table_value(data, packed_layout(table, index, chunk_size, column_bits, index_bits), cp)
            == column[cp],
{
    let cs = chunk_size;
    let cb = column_bits;
    let n = chunk_count(cs);
    let layout = packed_layout(table, index, cs, cb, index_bits);
    let l1 = packed_len(cb, table.len() as int);
    let k = cp / cs;
    let lo = cp % cs;
    assert(0 <= k < n) by (nonlinear_arith)
        requires
            0 <= cp < n * cs,
            cs > 0,
            k == cp / cs,
    ;
    assert(n >= 1);
    assert(index.len() >= 1);
    // The index entry.
    let slot = index_slot(layout, cp);
    assert(slot == if k < index.len() - 1 { k } else { index.len() - 1 });
    assert(0 <= slot < index.len());
    lemma_compress_read_back(index, index_bits, slot);
    assert(slot * index_bits + index_bits <= index_bits * index.len()) by (nonlinear_arith)
        requires
            0 <= slot < index.len(),
            0 <= index_bits,
    ;
    lemma_field_in_part(
        data,
        compress_spec(index, index_bits),
        l1,
        slot * index_bits,
        index_bits as nat,
    );
    assert(table_chunk(data, layout, cp) == index[slot]);
    assert(index_entry(index, k) == index[slot]);
    // The column value.
    lemma_dedup_lookup(column, cs, table, index, cp);
    let e = index_entry(index, k);
    let q = e * cs + lo;
    assert(0 <= q < table.len());
    assert(values_fit(table, cb)) by {
        assert forall|p: int| 0 <= p < table.len() implies #[trigger] table[p] < pow2(cb as nat) by {
            let q2 = lemma_table_values_from_column(column, cs, table, index, p);
        }
    }
    lemma_compress_read_back(table, cb, q);
    assert(q * cb + cb <= cb * table.len() && 0 <= q * cb) by (nonlinear_arith)
        requires
            0 <= q < table.len(),
            0 <= cb,
    ;
    lemma_field_in_part(data, compress_spec(table, cb), 0, q * cb, cb as nat);
}

/// A value held by `s` is found where `position` says.
proof fn lemma_position_found(s: Seq<Seq<char>>, x: Seq<char>)
    requires
        s.contains(x),
    ensures
        0 <= position(s, x) < s.len(),
        s[position(s, x)] == x,
    decreases s.len(),
{
    if s[0] != x {
        let i = choose|i: int| 0 <= i < s.len() && s[i] == x;
        assert(s.drop_first()[i - 1] == x);
        lemma_position_found(s.drop_first(), x);
    }
}

/// Interning keeps what was in `order` in front, and holds every value.
proof fn lemma_interned_keeps(order: Seq<Seq<char>>, vals: Seq<Seq<char>>)
    ensures
        interned(order, vals).len() >= order.len(),
        interned(order, vals).take(order.len() as int) == order,
        forall|i: int| 0 <= i < vals.len() ==> #[trigger] interned(order, vals).contains(vals[i]),
    decreases vals.len(),
{
    if vals.len() > 0 {
        let rest = vals.drop_last();
        lemma_interned_keeps(order, rest);
        let before = interned(order, rest);
        let after = interned(order, vals);
        if !before.contains(vals.last()) {
            assert(after.take(order.len() as int) =~= before.take(order.len() as int));
            assert(after[before.len() as int] == vals.last());
        }
        assert forall|i: int| 0 <= i < vals.len() implies #[trigger] after.contains(vals[i]) by {
            if i < vals.len() - 1 {
                assert(rest[i] == vals[i]);
                assert(before.contains(rest[i]));
                let j = choose|j: int| 0 <= j < before.len() && before[j] == rest[i];
                assert(after[j] == vals[i]);
            } else if !before.contains(vals.last()) {
                assert(after[before.len() as int] == vals[i]);
            }
        }
    }
}

/// Law (string columns): interning keeps the old order in front, and each
/// value is found in the result at its position.
pub proof fn lemma_interned_positions(order: Seq<Seq<char>>, vals: Seq<Seq<char>>)
    ensures
        interned(order, vals).take(order.len() as int) == order,
        forall|i: int|
            0 <= i < vals.len() ==> 0 <= #[trigger] position(interned(order, vals), vals[i])
                < interned(order, vals).len() && interned(order, vals)[position(
                interned(order, vals),
                vals[i],
            )] == vals[i],
{
    lemma_interned_keeps(order, vals);
    assert forall|i: int| 0 <= i < vals.len() implies 0 <= #[trigger] position(
        interned(order, vals),
        vals[i],
    ) < interned(order, vals).len() && interned(order, vals)[position(
        interned(order, vals),
        vals[i],
    )] == vals[i] by {
        lemma_position_found(interned(order, vals), vals[i]);
    }
}

/// Law (choice of chunk size): when no candidate costs zero, the pick is the
/// first candidate of least cost.
pub proof fn lemma_best_fit_least(costs: Seq<nat>, k: int)
    requires
        1 <= k <= costs.len(),
        forall|i: int| 0 <= i < k ==> #[trigger] costs[i] > 0,
    ensures
        0 <= best_fit_pick(costs, k) < k,
        forall|i: int| 0 <= i < k ==> costs[best_fit_pick(costs, k)] <= #[trigger] costs[i],
        forall|i: int| 0 <= i < best_fit_pick(costs, k) ==> costs[best_fit_pick(costs, k)] < #[trigger] costs[i],
    decreases k,
{
    if k > 1 {
        lemma_best_fit_least(costs, k - 1);
    } else {
        assert(best_fit_pick(costs, 0) == -1);
    }
}

/// Law (character columns): a column entry is zero exactly where the
/// description has no character, and never the reserved U+1FFFF.
pub proof fn lemma_char_entry_zero_iff_none(c: Option<char>)
    requires
        storable_char(c),
    ensures
        (char_code(c) == 0) == (c is None),
        char_code(c) != 0x1ffff,
{
}

/// Law (character columns keep the character): the column entry of a
/// storable optional character decodes back to that same optional character,
/// so a character column stores each character's own scalar value.
pub proof fn lemma_char_code_round_trip(c: Option<char>)
    requires
        storable_char(c),
    ensures
        decoded_char(char_code(c)) == c,
{
    match c {
        Some(ch) => {
            vstd::utf8::char_u32_cast(ch, ch as u32);
        },
        None => {},
    }
}

/// A chunk that occurs among the first `n` chunks has a first occurrence.
proof fn lemma_first_occurrence(column: Seq<u32>, chunk_size: int, n: int, c: Seq<u32>) -> (k: int)
    requires
        occurs_in(column, chunk_size, n, c),
    ensures
        0 <= k < n,
        chunk(column, k, chunk_size) == c,
        !occurs_in(column, chunk_size, k, c),
    decreases n,
{
    if occurs_in(column, chunk_size, n - 1, c) {
        lemma_first_occurrence(column, chunk_size, n - 1, c)
    } else {
        let k = choose|k: int| 0 <= k < n && #[trigger] chunk(column, k, chunk_size) == c;
        assert(k == n - 1);
        k
    }
}

/// Two deduplications of one column agree on the chunks that both tables
/// hold.
proof fn lemma_dedup_tables_agree(
    column: Seq<u32>,
    cs: int,
    t1: Seq<u32>,
    x1: Seq<u32>,
    t2: Seq<u32>,
    x2: Seq<u32>,
    j: int,
)
    requires
        cs > 0,
        is_dedup_of(column, cs, t1, x1),
        is_dedup_of(column, cs, t2, x2),
        0 <= j < t1.len() as int / cs,
        j < t2.len() as int / cs,
    ensures
        chunk(t1, j, cs) == chunk(t2, j, cs),
    decreases j,
{
    let n = chunk_count(cs);
    let m1 = t1.len() as int / cs;
    let m2 = t2.len() as int / cs;
    if j > 0 {
        lemma_dedup_tables_agree(column, cs, t1, x1, t2, x2, j - 1);
    }
    assert forall|e: int| 0 <= e < j implies #[trigger] chunk(t1, e, cs) == chunk(t2, e, cs) by {
        if e < j - 1 {
            lemma_dedup_tables_agree(column, cs, t1, x1, t2, x2, e);
        }
    }
    let c1 = chunk(t1, j, cs);
    let c2 = chunk(t2, j, cs);
    assert(occurs_in(column, cs, n, c1));
    assert(occurs_in(column, cs, n, c2));
    let k1 = lemma_first_occurrence(column, cs, n, c1);
    let k2 = lemma_first_occurrence(column, cs, n, c2);
    if k1 <= k2 {
        let e = index_entry(x2, k1);
        assert(chunk(t2, e, cs) == chunk(column, k1, cs));
        if e < j {
            assert(chunk(t1, e, cs) == c1);
            assert(chunk(t1, e, cs) != chunk(t1, j, cs));
        } else if e > j {
            assert(occurs_in(column, cs, k1, chunk(t2, j, cs)));
            let k = choose|k: int| 0 <= k < k1 && #[trigger] chunk(column, k, cs) == c2;
            assert(occurs_in(column, cs, k2, c2));
        }
    } else {
        let e = index_entry(x1, k2);
        assert(chunk(t1, e, cs) == chunk(column, k2, cs));
        if e < j {
            assert(chunk(t2, e, cs) == c2);
            assert(chunk(t2, e, cs) != chunk(t2, j, cs));
        } else if e > j {
            assert(occurs_in(column, cs, k2, chunk(t1, j, cs)));
            let k = choose|k: int| 0 <= k < k2 && #[trigger] chunk(column, k, cs) == c1;
            assert(occurs_in(column, cs, k1, c1));
        }
    }
}

/// Two deduplications of one column have tables of the same size.
proof fn lemma_dedup_sizes_agree(
    column: Seq<u32>,
    cs: int,
    t1: Seq<u32>,
    x1: Seq<u32>,
    t2: Seq<u32>,
    x2: Seq<u32>,
)
    requires
        cs > 0,
        is_dedup_of(column, cs, t1, x1),
        is_dedup_of(column, cs, t2, x2),
        t1.len() as int / cs <= t2.len() as int / cs,
    ensures
        t1.len() as int / cs == t2.len() as int / cs,
{
    let n = chunk_count(cs);
    let m1 = t1.len() as int / cs;
    let m2 = t2.len() as int / cs;
    if m1 < m2 {
        let c = chunk(t2, m1, cs);
        assert(occurs_in(column, cs, n, c));
        let k = choose|k: int| 0 <= k < n && #[trigger] chunk(column, k, cs) == c;
        let e = index_entry(x1, k);
        assert(chunk(t1, e, cs) == chunk(column, k, cs));
        lemma_dedup_tables_agree(column, cs, t1, x1, t2, x2, e);
        assert(chunk(t2, e, cs) != chunk(t2, m1, cs));
    }
}

/// Law (`dedup`'s result is determined by its column): there is one
/// deduplicated table and one trimmed index for a column and a chunk size.
pub proof fn lemma_dedup_unique(
    column: Seq<u32>,
    chunk_size: int,
    t1: Seq<u32>,
    x1: Seq<u32>,
    t2: Seq<u32>,
    x2: Seq<u32>,
)
    requires
        chunk_size > 0,
        is_dedup_of(column, chunk_size, t1, x1),
        is_dedup_of(column, chunk_size, t2, x2),
    ensures
        t1 == t2,
        x1 == x2,
{
    let cs = chunk_size;
    let n = chunk_count(cs);
    if t1.len() as int / cs <= t2.len() as int / cs {
        lemma_dedup_sizes_agree(column, cs, t1, x1, t2, x2);
    } else {
        lemma_dedup_sizes_agree(column, cs, t2, x2, t1, x1);
    }
    let m = t1.len() as int / cs;
    assert forall|p: int| 0 <= p < t1.len() implies t1[p] == t2[p] by {
        let j = p / cs;
        let r = p % cs;
        assert(0 <= j < m && p == j * cs + r && j * cs + cs <= m * cs) by (nonlinear_arith)
            requires
                0 <= p < m * cs,
                cs > 0,
                j == p / cs,
                r == p % cs,
        ;
        lemma_dedup_tables_agree(column, cs, t1, x1, t2, x2, j);
        assert(chunk(t1, j, cs)[r] == t1[p]);
        assert(chunk(t2, j, cs)[r] == t2[p]);
    }
    assert(t1 =~= t2);
    // The index entries name the same chunks, so they are the same numbers.
    assert forall|k: int| 0 <= k < n implies index_entry(x1, k) == #[trigger] index_entry(x2, k) by {
        let e1 = index_entry(x1, k);
        let e2 = index_entry(x2, k);
        assert(chunk(t1, e1, cs) == chunk(column, k, cs));
        assert(chunk(t2, e2, cs) == chunk(column, k, cs));
        if e1 < e2 {
            assert(chunk(t1, e1, cs) != chunk(t1, e2, cs));
        } else if e2 < e1 {
            assert(chunk(t1, e2, cs) != chunk(t1, e1, cs));
        }
    }
    if n > 0 {
        let l1 = x1.len() as int;
        let l2 = x2.len() as int;
        if l1 < l2 {
            assert(index_entry(x2, l2 - 2) == index_entry(x1, l2 - 2));
            assert(index_entry(x2, l2 - 1) == index_entry(x1, l2 - 1));
        } else if l2 < l1 {
            assert(index_entry(x1, l1 - 2) == index_entry(x2, l1 - 2));
            assert(index_entry(x1, l1 - 1) == index_entry(x2, l1 - 1));
        }
        assert(l1 == l2);
        assert forall|i: int| 0 <= i < l1 implies x1[i] == x2[i] by {
            assert(index_entry(x1, i) == index_entry(x2, i));
        }
        assert(x1 =~= x2);
    } else {
        assert(x1 =~= x2);
    }
}

/// The column's values over the code-point range are all zero.
pub open spec fn column_all_zero(column: Seq<u32>) -> bool {
    forall|q: int| 0 <= q < 0x110000 ==> #[trigger] column[q] == 0
}

/// A deduplication of a column with a chunk size that divides the code-point
/// range costs nothing exactly when the column is all zero.
proof fn lemma_cost_zero_iff_all_zero(column: Seq<u32>, cs: int, table: Seq<u32>, index: Seq<u32>)
    requires
        cs > 0,
        chunk_count(cs) * cs == 0x110000,
        column.len() >= 0x110000,
        is_dedup_of(column, cs, table, index),
    ensures
        (table_cost(table, index) == 0) == column_all_zero(column),
{
    let n = chunk_count(cs);
    let m = table.len() as int / cs;
    assert(n >= 1) by (nonlinear_arith)
        requires
            n * cs == 0x110000,
            cs > 0,
    ;
    assert(index.len() >= 1);
    assert(index[0] < m);
    assert(table.len() >= cs) by (nonlinear_arith)
        requires
            table.len() == m * cs,
            m >= 1,
            cs > 0,
    ;
    if column_all_zero(column) {
        assert forall|p: int| 0 <= p < table.len() implies #[trigger] table[p] < 1nat by {
            let q = lemma_table_values_from_column(column, cs, table, index, p);
        }
        lemma_seq_max_below(table, 1);
        assert(m == 1) by {
            if m >= 2 {
                assert(chunk(table, 0, cs) != chunk(table, 1, cs));
                assert(cs + cs <= m * cs) by (nonlinear_arith)
                    requires
                        m >= 2,
                        cs > 0,
                ;
                assert forall|r: int| 0 <= r < cs implies chunk(table, 0, cs)[r] == chunk(
                    table,
                    1,
                    cs,
                )[r] by {
                    assert(table[r] < 1nat);
                    assert(table[cs + r] < 1nat);
                }
                assert(chunk(table, 0, cs) =~= chunk(table, 1, cs));
            }
        }
        assert forall|i: int| 0 <= i < index.len() implies #[trigger] index[i] < 1nat by {}
        lemma_seq_max_below(index, 1);
        assert(bit_width(0) == 0);
        assert(seq_max(table) == 0 && seq_max(index) == 0);
        assert(table.len() * bit_width(seq_max(table)) == 0);
        assert(index.len() * bit_width(seq_max(index)) == 0);
        assert(table_cost(table, index) == 0);
    } else {
        let q = choose|q: int| 0 <= q < 0x110000 && #[trigger] column[q] != 0;
        lemma_dedup_lookup(column, cs, table, index, q);
        let p = index_entry(index, q / cs) * cs + q % cs;
        lemma_seq_max_is_max(table, p);
        assert(seq_max(table) > 0);
        assert(bit_width(seq_max(table)) > 0);
        assert(table.len() * bit_width(seq_max(table)) > 0) by (nonlinear_arith)
            requires
                table.len() > 0,
                bit_width(seq_max(table)) > 0,
        ;
    }
}

/// Law (choice of chunk size): among the deduplications with each chunk size
/// of `best_fit_sizes`, the one that `dedup_best_fit` keeps has the least
/// cost, and when that cost is not zero it is the first with that cost. (A
/// cost is zero only for an all-zero column, and then every cost is zero.)
pub proof fn lemma_best_fit_has_least_cost(column: Seq<u32>, cands: Seq<(Seq<u32>, Seq<u32>)>)
    requires
        column.len() >= 0x110000,
        cands.len() == 5,
        forall|i: int|
            0 <= i < 5 ==> is_dedup_of(column, best_fit_sizes()[i], #[trigger] cands[i].0, cands[i].1),
    ensures
        ({
            let costs = candidate_costs(cands);
            let p = best_fit_pick(costs, 5);
            &&& 0 <= p < 5
            &&& forall|i: int| 0 <= i < 5 ==> costs[p] <= #[trigger] costs[i]
            &&& costs[p] > 0 ==> forall|i: int| 0 <= i < p ==> costs[p] < #[trigger] costs[i]
        }),
{
    let costs = candidate_costs(cands);
    assert forall|i: int| 0 <= i < 5 implies (#[trigger] costs[i] == 0) == column_all_zero(column) by {
        let cs = best_fit_sizes()[i];
        if cs == 32 {
            assert(chunk_count(32) * 32 == 0x110000);
        } else if cs == 64 {
            assert(chunk_count(64) * 64 == 0x110000);
        } else if cs == 128 {
            assert(chunk_count(128) * 128 == 0x110000);
        } else if cs == 256 {
            assert(chunk_count(256) * 256 == 0x110000);
        } else {
            assert(cs == 512);
            assert(chunk_count(512) * 512 == 0x110000);
        }
        assert(is_dedup_of(column, cs, cands[i].0, cands[i].1));
        lemma_cost_zero_iff_all_zero(column, cs, cands[i].0, cands[i].1);
    }
    if column_all_zero(column) {
        assert(best_fit_pick(costs, 0) == -1);
        lemma_pick_in_range(costs, 5);
    } else {
        assert forall|i: int| 0 <= i < 5 implies #[trigger] costs[i] > 0 by {}
        lemma_best_fit_least(costs, 5);
    }
}

/// The pick among `k > 0` candidates is one of them.
proof fn lemma_pick_in_range(costs: Seq<nat>, k: int)
    requires
        1 <= k,
    ensures
        0 <= best_fit_pick(costs, k) < k,
    decreases k,
{
    if k > 1 {
        lemma_pick_in_range(costs, k - 1);
    } else {
        assert(best_fit_pick(costs, 0) == -1);
    }
}

/// Interning values that `order` already holds leaves it unchanged.
proof fn lemma_interned_nothing_new(order: Seq<Seq<char>>, vals: Seq<Seq<char>>)
    requires
        forall|i: int| 0 <= i < vals.len() ==> #[trigger] order.contains(vals[i]),
    ensures
        interned(order, vals) == order,
    decreases vals.len(),
{
    if vals.len() > 0 {
        let rest = vals.drop_last();
        assert forall|i: int| 0 <= i < rest.len() implies #[trigger] order.contains(rest[i]) by {
            assert(rest[i] == vals[i]);
        }
        lemma_interned_nothing_new(order, rest);
        assert(order.contains(vals[vals.len() - 1]));
    }
}

/// Law (string columns): interning the same values a second time changes
/// neither the order nor any value's position, so a second call of
/// `map_str_to_int` with the same strings leaves `order` as the first call
/// left it and returns the same column.
pub proof fn lemma_interning_twice(order: Seq<Seq<char>>, vals: Seq<Seq<char>>)
    ensures
        interned(interned(order, vals), vals) == interned(order, vals),
        forall|i: int|
            0 <= i < vals.len() ==> #[trigger] position(interned(interned(order, vals), vals), vals[i])
                == position(interned(order, vals), vals[i]),
{
    lemma_interned_keeps(order, vals);
    lemma_interned_nothing_new(interned(order, vals), vals);
}

} // verus!
