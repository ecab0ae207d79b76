use vstd::prelude::*;
use crate::bits::{word_byte, shifted_word, inserted_byte, insertion_fits, lemma_shifted_word_small, lemma_shift_step, lemma_shift_zero_tail, lemma_or_zero, lemma_insert_zero};
use vstd::arithmetic::power2::{pow2, lemma_pow2_unfold, lemma2_to64};

verus! {

/// Number of binary digits needed to write `m`: zero for zero, otherwise the
/// position of the highest set bit plus one.
pub open spec fn bit_width(m: nat) -> nat
    decreases m,
{
    if m == 0 {
        0
    } else {
        1 + bit_width(m / 2)
    }
}

/// A value is below `2^k` exactly when its bit width is at most `k`.
pub proof fn lemma_bit_width_bound(m: nat, k: nat)
    ensures
        (m < pow2(k)) == (bit_width(m) <= k),
    decreases k,
{
    if k == 0 {
        assert(pow2(0) == 1) by { lemma2_to64(); }
    } else {
        lemma_pow2_unfold(k);
        lemma_bit_width_bound(m / 2, (k - 1) as nat);
    }
}

/// The largest value of `s`, or zero for an empty sequence.
pub open spec fn seq_max(s: Seq<u32>) -> nat
    decreases s.len(),
{
    if s.len() == 0 {
        0
    } else {
        let rest = seq_max(s.drop_last());
        if s.last() as nat > rest {
            s.last() as nat
        } else {
            rest
        }
    }
}

/// Number of bits needed to hold each value of `input`: the bit width of its
/// largest value (zero for an empty or all-zero column).
pub fn get_width(input: &Vec<u32>) -> (width: usize)
    requires
        seq_max(input@) < 0x8000_0000,
    ensures
        width == bit_width(seq_max(input@)),
{
    let mut max: u32 = 0;
    let mut i: usize = 0;
    while i < input.len()
        invariant
            i <= input.len(),
            max == seq_max(input@.take(i as int)),
        decreases input.len() - i,
    {
        assert(input@.take(i as int + 1).drop_last() =~= input@.take(i as int));
        if input[i] > max {
            max = input[i];
        }
        i += 1;
    }
    assert(input@.take(input.len() as int) =~= input@);
    proof {
        lemma_bit_width_bound(max as nat, 31);
        lemma2_to64();
    }
    let mut width: usize = 0;
    let mut rest: u32 = max;
    while rest > 0
        invariant
            width + bit_width(rest as nat) == bit_width(max as nat),
            width <= 32,
            rest < 0x8000_0000,
            bit_width(rest as nat) + width <= 31,
        decreases rest,
    {
        rest = rest / 2;
        width += 1;
    }
    width
}

/// ORs `value`, shifted to bit `offset`, into `bytes` (little-endian bit
/// order: bit `p` of the table is bit `p % 8` of byte `p / 8`).
fn compress_insert_value(bytes: &mut Vec<u8>, offset: usize, value: u32)
    requires
        insertion_fits(old(bytes).len() as int, offset as int, value),
    ensures
        final(bytes).len() == old(bytes).len(),
        forall|j: int|
            0 <= j < old(bytes).len() ==> #[trigger] final(bytes)@[j] == (old(bytes)@[j]
                | inserted_byte(offset as int, value, j)),
        value == 0 ==> final(bytes)@ == old(bytes)@,
{
    let mut byte_offset = offset / 8;
    let bit_offset = offset % 8;
    let ghost base = offset / 8;
    let ghost len = bytes.len() as int;
    let ghost w: u64 = shifted_word(offset as int, value);
    let mut rest: u64 = (value as u64) << (bit_offset as u64);
    assert(rest == w);
    proof {
        lemma_shifted_word_small(value, bit_offset as u64);
    }
    let ghost mut t: u64 = 0;
    assert(rest == w >> (8 * t)) by (bit_vector)
        requires
            rest == w,
            t == 0u64,
    ;
    while rest != 0
        invariant
            t <= 5,
            byte_offset == base + t,
            base == offset / 8,
            w == shifted_word(offset as int, value),
            w >> 40u64 == 0,
            len == old(bytes).len(),
            insertion_fits(len, offset as int, value),
            t < 5 ==> rest == w >> (8 * t),
            t == 5 ==> rest == 0,
            bytes.len() == len,
            forall|j: int|
                base <= j < base + t ==> #[trigger] bytes@[j] == (old(bytes)@[j] | word_byte(
                    w,
                    j - base,
                )),
            forall|j: int|
                0 <= j < len && !(base <= j < base + t) ==> #[trigger] bytes@[j] == old(
                    bytes,
                )@[j],
        decreases 5 - t,
    {
        assert(t < 5);
        assert(byte_offset < len) by {
            if byte_offset >= len {
                assert(shifted_word(offset as int, value) >> ((8 * (t as int)) as u64) == 0);
            }
        }
        let b = bytes[byte_offset] | ((rest & 255) as u8);
        bytes.set(byte_offset, b);
        proof {
            lemma_shift_step(w, t);
        }
        rest = rest >> 8;
        byte_offset += 1;
        proof {
            t = (t + 1) as u64;
        }
    }
    proof {
        assert(w >> (8 * t) == 0);
        assert forall|j: int| 0 <= j < len implies #[trigger] bytes@[j] == (old(bytes)@[j]
            | inserted_byte(offset as int, value, j)) by {
            if base + t <= j < base + 8 {
                lemma_shift_zero_tail(w, t, (j - base) as u64);
                lemma_or_zero(old(bytes)@[j]);
            } else if !(base <= j < base + t) {
                lemma_or_zero(old(bytes)@[j]);
            }
        }
        if value == 0 {
            lemma_insert_zero(len, offset as int);
            assert forall|j: int| 0 <= j < len implies bytes@[j] == old(bytes)@[j] by {
                lemma_or_zero(old(bytes)@[j]);
            }
            assert(bytes@ =~= old(bytes)@);
        }
    }
}

/// Size in bytes of `count` values packed `num_bits` apart.
pub open spec fn packed_len(num_bits: int, count: int) -> int {
    (num_bits * count + 7) / 8
}

/// Byte `j` of the first `k` values of `input` packed `num_bits` apart: the
/// OR of what inserting each of them puts into that byte.
pub open spec fn packed_byte(input: Seq<u32>, num_bits: int, k: int, j: int) -> u8
    decreases k,
{
    if k <= 0 {
        0
    } else {
        packed_byte(input, num_bits, k - 1, j) | inserted_byte((k - 1) * num_bits, input[k - 1], j)
    }
}

/// The packed table of `input`: value `k` lands at bit `k * num_bits`.
pub open spec fn compress_spec(input: Seq<u32>, num_bits: int) -> Seq<u8> {
    Seq::new(
        packed_len(num_bits, input.len() as int) as nat,
        |j: int| packed_byte(input, num_bits, input.len() as int, j),
    )
}

/// No value of `input`, inserted at its place, reaches past the end of the
/// packed table.
pub open spec fn packing_fits(input: Seq<u32>, num_bits: int) -> bool {
    forall|k: int|
        0 <= k < input.len() ==> insertion_fits(
            packed_len(num_bits, input.len() as int),
            k * num_bits,
            #[trigger] input[k],
        )
}

/// Whether `compress` can pack `input` at `num_bits` bits per value: the
/// packed size fits in a machine word and no value, inserted at its place,
/// reaches past the end of the packed table.
pub fn packs_in_place(input: &Vec<u32>, num_bits: usize) -> (fits: bool)
    ensures
        fits == (num_bits * input.len() + 7 <= usize::MAX && packing_fits(input@, num_bits as int)),
{
    let total_num_bits = match num_bits.checked_mul(input.len()) {
        Some(t) => t,
        None => return false,
    };
    if total_num_bits > usize::MAX - 7 {
        return false;
    }
    let total = (total_num_bits + 7) / 8;
    let ghost n = num_bits as int;
    let mut offset: usize = 0;
    let mut k: usize = 0;
    while k < input.len()
        invariant
            k <= input.len(),
            n == num_bits,
            total_num_bits == n * input.len(),
            total_num_bits + 7 <= usize::MAX,
            total == packed_len(n, input.len() as int),
            offset == k * n,
            forall|i: int|
                0 <= i < k ==> insertion_fits(total as int, i * n, #[trigger] input@[i]),
        decreases input.len() - k,
    {
        assert((k + 1) * n <= n * input.len() && (k + 1) * n == k * n + n) by (nonlinear_arith)
            requires
                k < input.len(),
                n >= 0,
        ;
        let base = offset / 8;
        let bit_offset = offset % 8;
        let w: u64 = (input[k] as u64) << (bit_offset as u64);
        assert(w == shifted_word(offset as int, input@[k as int]));
        let ok = if base >= total {
            w == 0
        } else if total - base >= 5 {
            true
        } else {
            (w >> ((8 * (total - base)) as u64)) == 0
        };
        proof {
            let v = input@[k as int];
            if base >= total {
                assert(w >> ((8 * 0int) as u64) == w) by (bit_vector)
                    requires
                        true,
                ;
                if w == 0 {
                    assert forall|t: int| 0 <= t < 5 && base + t >= total implies #[trigger] (
                    shifted_word(offset as int, v) >> ((8 * t) as u64)) == 0 by {
                        lemma_shift_zero_tail(w, 0, t as u64);
                        assert((8 * t) as u64 == 8 * (t as u64));
                    }
                }
            } else if total - base < 5 {
                let t0 = (total - base) as u64;
                assert((8 * (total - base)) as u64 == 8 * t0);
                if ok {
                    assert forall|t: int| 0 <= t < 5 && base + t >= total implies #[trigger] (
                    shifted_word(offset as int, v) >> ((8 * t) as u64)) == 0 by {
                        lemma_shift_zero_tail(w, t0, t as u64);
                        assert((8 * t) as u64 == 8 * (t as u64));
                    }
                } else {
                    assert(base + t0 >= total);
                }
            }
        }
        if !ok {
            return false;
        }
        offset += num_bits;
        k += 1;
    }
    true
}

/// Packs the values of `input` into bytes, `num_bits` bits apart, with the
/// lowest bit first.
pub fn compress(input: &Vec<u32>, num_bits: usize) -> (packed: Vec<u8>)
    requires
        num_bits * input.len() + 7 <= usize::MAX,
        packing_fits(input@, num_bits as int),
    ensures
        packed@ == compress_spec(input@, num_bits as int),
{
    let total_num_bits = num_bits * input.len();
    let total_num_bytes = (total_num_bits + 7) / 8;
    let ghost n = num_bits as int;
    let ghost total = packed_len(n, input.len() as int);

    let mut r = Vec::<u8>::with_capacity(total_num_bytes);
    r.resize(total_num_bytes, 0);
    assert forall|j: int| 0 <= j < total implies r@[j] == packed_byte(input@, n, 0, j) by {
        assert(r@[j] == 0);
    }

    let mut offset: usize = 0;
    let mut i: usize = 0;
    while i < input.len()
        invariant
            i <= input.len(),
            n == num_bits,
            total == total_num_bytes,
            total == packed_len(n, input.len() as int),
            num_bits * input.len() + 7 <= usize::MAX,
            packing_fits(input@, n),
            offset == i * n,
            r.len() == total,
            forall|j: int| 0 <= j < total ==> #[trigger] r@[j] == packed_byte(input@, n, i as int, j),
        decreases input.len() - i,
    {
        assert((i + 1) * n <= n * input.len() && (i + 1) * n == i * n + n) by (nonlinear_arith)
            requires
                i < input.len(),
                n >= 0,
        ;
        assert(insertion_fits(total, i * n, input@[i as int]));
        let ghost before = r@;
        compress_insert_value(&mut r, offset, input[i]);
        offset += num_bits;
        i += 1;
        assert forall|j: int| 0 <= j < total implies #[trigger] r@[j] == packed_byte(
            input@,
            n,
            i as int,
            j,
        ) by {
            assert(r@[j] == (before[j] | inserted_byte((i - 1) * n, input@[i - 1], j)));
        }
    }
    assert(r@ =~= compress_spec(input@, n));
    r
}

/// Chunk `k` of `s` when `s` is cut into chunks of `chunk_size` values.
pub open spec fn chunk(s: Seq<u32>, k: int, chunk_size: int) -> Seq<u32> {
    s.subrange(k * chunk_size, k * chunk_size + chunk_size)
}

/// Copies chunk `src_chunk` of `src` over chunk `dst_chunk` of `dst`, first
/// growing `dst` with zeros when it is too short to hold that chunk.
fn copy_chunk(src: &Vec<u32>, src_chunk: usize, dst: &mut Vec<u32>, dst_chunk: usize, chunk_size: usize)
    requires
        src_chunk * chunk_size + chunk_size <= src.len(),
        dst_chunk * chunk_size + chunk_size <= usize::MAX,
    ensures
        final(dst).len() == if old(dst).len() < dst_chunk * chunk_size + chunk_size {
            dst_chunk * chunk_size + chunk_size
        } else {
            old(dst).len() as int
        },
        forall|j: int|
            0 <= j < final(dst).len() ==> #[trigger] final(dst)@[j] == if dst_chunk * chunk_size
                <= j < dst_chunk * chunk_size + chunk_size {
                src@[src_chunk * chunk_size + (j - dst_chunk * chunk_size)]
            } else if j < old(dst).len() {
                old(dst)@[j]
            } else {
                0
            },
{
    let dst_offset = dst_chunk * chunk_size;
    let src_offset = src_chunk * chunk_size;

    let dst_size = dst_offset + chunk_size;
    if dst.len() < dst_size {
        dst.resize(dst_size, 0);
    }
    let ghost grown = dst@;
    assert forall|j: int| old(dst).len() <= j < dst.len() implies dst@[j] == 0 by {
        assert(grown[j] == 0);
    }
    assert forall|j: int| 0 <= j < old(dst).len() implies dst@[j] == old(dst)@[j] by {
        if old(dst).len() < dst_size {
            assert(grown.subrange(0, old(dst).len() as int)[j] == grown[j]);
        }
    }

    let mut i: usize = 0;
    while i < chunk_size
        invariant
            i <= chunk_size,
            dst_offset == dst_chunk * chunk_size,
            src_offset == src_chunk * chunk_size,
            src_offset + chunk_size <= src.len(),
            dst_offset + chunk_size <= dst.len(),
            dst.len() == grown.len(),
            forall|j: int|
                0 <= j < dst.len() ==> #[trigger] dst@[j] == if dst_offset <= j < dst_offset + i {
                    src@[src_offset + (j - dst_offset)]
                } else {
                    grown[j]
                },
        decreases chunk_size - i,
    {
        let v = src[src_offset + i];
        dst.set(dst_offset + i, v);
        i += 1;
    }
}

/// Whether chunk `dst_chunk` of `dst` equals chunk `src_chunk` of `src`.
fn test_chunk(src: &Vec<u32>, src_chunk: usize, dst: &Vec<u32>, dst_chunk: usize, chunk_size: usize) -> (same: bool)
    requires
        src_chunk * chunk_size + chunk_size <= src.len(),
        dst_chunk * chunk_size + chunk_size <= dst.len(),
    ensures
        same == (chunk(dst@, dst_chunk as int, chunk_size as int) == chunk(
            src@,
            src_chunk as int,
            chunk_size as int,
        )),
{
    let src_offset = src_chunk * chunk_size;
    let dst_offset = dst_chunk * chunk_size;
    let ghost a = chunk(dst@, dst_chunk as int, chunk_size as int);
    let ghost b = chunk(src@, src_chunk as int, chunk_size as int);

    let mut i: usize = 0;
    while i < chunk_size
        invariant
            i <= chunk_size,
            src_offset == src_chunk * chunk_size,
            dst_offset == dst_chunk * chunk_size,
            src_offset + chunk_size <= src.len(),
            dst_offset + chunk_size <= dst.len(),
            a == chunk(dst@, dst_chunk as int, chunk_size as int),
            b == chunk(src@, src_chunk as int, chunk_size as int),
            forall|j: int| 0 <= j < i ==> a[j] == b[j],
        decreases chunk_size - i,
    {
        if dst[dst_offset + i] != src[src_offset + i] {
            assert(a[i as int] != b[i as int]);
            return false;
        }
        i += 1;
    }
    assert(a =~= b);
    return true;
}

/// The first of the chunks `0..dst_chunk` of `dst` that equals chunk
/// `src_chunk` of `src`, or `dst_chunk` when none does.
fn test_chunks(src: &Vec<u32>, src_chunk: usize, dst: &Vec<u32>, dst_chunk: usize, chunk_size: usize) -> (found: usize)
    requires
        src_chunk * chunk_size + chunk_size <= src.len(),
        dst_chunk * chunk_size <= dst.len(),
    ensures
        found <= dst_chunk,
        found < dst_chunk ==> chunk(dst@, found as int, chunk_size as int) == chunk(
            src@,
            src_chunk as int,
            chunk_size as int,
        ),
        forall|i: int|
            0 <= i < found ==> #[trigger] chunk(dst@, i, chunk_size as int) != chunk(
                src@,
                src_chunk as int,
                chunk_size as int,
            ),
{
    let mut i: usize = 0;
    while i < dst_chunk
        invariant
            i <= dst_chunk,
            src_chunk * chunk_size + chunk_size <= src.len(),
            dst_chunk * chunk_size <= dst.len(),
            forall|k: int|
                0 <= k < i ==> #[trigger] chunk(dst@, k, chunk_size as int) != chunk(
                    src@,
                    src_chunk as int,
                    chunk_size as int,
                ),
        decreases dst_chunk - i,
    {
        assert(i * chunk_size + chunk_size <= dst_chunk * chunk_size) by (nonlinear_arith)
            requires
                i < dst_chunk,
        ;
        if test_chunk(src, src_chunk, dst, i, chunk_size) {
            return i;
        }
        i += 1;
    }
    return dst_chunk;
}

/// Number of whole chunks of `chunk_size` code points in the code-point range
/// `0..0x110000`.
pub open spec fn chunk_count(chunk_size: int) -> int {
    0x110000int / chunk_size
}

/// `c` is one of the chunks `0..limit` of `column`.
pub open spec fn occurs_in(column: Seq<u32>, chunk_size: int, limit: int, c: Seq<u32>) -> bool {
    exists|k: int| 0 <= k < limit && #[trigger] chunk(column, k, chunk_size) == c
}

/// The entry of a trimmed index table that chunk `k` is looked up by: entry
/// `k`, or the last entry for every chunk past the end of the table.
pub open spec fn index_entry(index: Seq<u32>, k: int) -> int {
    if k < index.len() - 1 {
        index[k] as int
    } else {
        index[index.len() - 1] as int
    }
}

/// `table` and `index` are the deduplicated form of the first
/// `chunk_count(chunk_size)` chunks of `column`: `table` holds each distinct
/// chunk once, in the order in which it first occurs in `column`; `index`
/// gives for each chunk the number of its copy in `table`, with the trailing
/// run of one repeated entry cut down to a single entry.
pub open spec fn is_dedup_of(column: Seq<u32>, chunk_size: int, table: Seq<u32>, index: Seq<u32>) -> bool {
    let n = chunk_count(chunk_size);
    let m = table.len() as int / chunk_size;
    &&& table.len() == m * chunk_size
    &&& forall|i: int, j: int|
        0 <= i < j < m ==> #[trigger] chunk(table, i, chunk_size) != #[trigger] chunk(
            table,
            j,
            chunk_size,
        )
    &&& forall|j: int| 0 <= j < m ==> occurs_in(column, chunk_size, n, #[trigger] chunk(table, j, chunk_size))
    &&& forall|j1: int, j2: int, k: int|
        #![trigger chunk(table, j1, chunk_size), chunk(table, j2, chunk_size), chunk(column, k, chunk_size)]
        0 <= j1 < j2 < m && 0 <= k < n && chunk(column, k, chunk_size) == chunk(table, j2, chunk_size)
            ==> occurs_in(column, chunk_size, k, chunk(table, j1, chunk_size))
    &&& index.len() <= n
    &&& n > 0 ==> index.len() > 0
    &&& index.len() >= 2 ==> index[index.len() - 2] != index[index.len() - 1]
    &&& forall|i: int| 0 <= i < index.len() ==> #[trigger] index[i] < m
    &&& forall|k: int|
        0 <= k < n ==> chunk(table, index_entry(index, k), chunk_size) == #[trigger] chunk(
            column,
            k,
            chunk_size,
        )
}

/// Deduplicates `column`: cuts its first `0x110000 / chunk_size` chunks of
/// `chunk_size` values, keeps each distinct chunk once, and returns
/// `(table, index)` where `index` maps each chunk to its copy in `table`.
///
/// To find entry `i`: take `index[min(i / chunk_size, index.len() - 1)]`, and
/// read `table` at that entry times `chunk_size` plus `i % chunk_size`.
pub fn dedup(column: &Vec<u32>, chunk_size: usize) -> (tables: (Vec<u32>, Vec<u32>))
    requires
        chunk_size > 0,
        chunk_count(chunk_size as int) * chunk_size <= column.len(),
    ensures
        is_dedup_of(column@, chunk_size as int, tables.0@, tables.1@),
        tables.0@.len() <= chunk_count(chunk_size as int) * chunk_size,
{
    let num_chunks = 0x110000 / chunk_size;
    let mut index_table = Vec::<u32>::new();
    let mut dedup_table = Vec::<u32>::new();
    let ghost cs = chunk_size as int;
    let ghost col = column@;
    let ghost mut first: Seq<int> = Seq::empty();
    assert(num_chunks * chunk_size <= 0x110000) by (nonlinear_arith)
        requires
            num_chunks == 0x110000usize / chunk_size,
            chunk_size > 0,
    ;

    let mut dst_chunk: usize = 0;
    let mut src_chunk: usize = 0;
    while src_chunk < num_chunks
        invariant
            cs == chunk_size,
            chunk_size > 0,
            col == column@,
            num_chunks == chunk_count(cs),
            num_chunks * chunk_size <= 0x110000,
            num_chunks * chunk_size <= column.len(),
            src_chunk <= num_chunks,
            dst_chunk <= src_chunk,
            index_table.len() == src_chunk,
            dedup_table.len() == dst_chunk * chunk_size,
            forall|i: int, j: int|
                0 <= i < j < dst_chunk ==> #[trigger] chunk(dedup_table@, i, cs) != #[trigger] chunk(
                    dedup_table@,
                    j,
                    cs,
                ),
            forall|k: int|
                0 <= k < src_chunk ==> #[trigger] index_table@[k] < dst_chunk && chunk(
                    dedup_table@,
                    index_table@[k] as int,
                    cs,
                ) == chunk(col, k, cs),
            first.len() == dst_chunk,
            forall|j: int|
                0 <= j < dst_chunk ==> 0 <= #[trigger] first[j] < src_chunk && index_table@[first[j]]
                    == j && forall|k: int| 0 <= k < first[j] ==> index_table@[k] < j,
        decreases num_chunks - src_chunk,
    {
        assert(src_chunk * chunk_size + chunk_size <= num_chunks * chunk_size
            && dst_chunk * chunk_size + chunk_size <= num_chunks * chunk_size) by (nonlinear_arith)
            requires
                src_chunk < num_chunks,
                dst_chunk <= src_chunk,
        ;
        let found_chunk = test_chunks(column, src_chunk, &dedup_table, dst_chunk, chunk_size);
        let ghost old_table = dedup_table@;
        let ghost old_index = index_table@;
        index_table.push(found_chunk as u32);
        if found_chunk == dst_chunk {
            copy_chunk(column, src_chunk, &mut dedup_table, dst_chunk, chunk_size);
            assert forall|j: int| 0 <= j < dst_chunk implies #[trigger] chunk(dedup_table@, j, cs)
                == chunk(old_table, j, cs) by {
                assert(j * cs + cs <= dst_chunk * cs) by (nonlinear_arith)
                    requires
                        j < dst_chunk,
                        cs > 0,
                ;
                assert(chunk(dedup_table@, j, cs) =~= chunk(old_table, j, cs));
            }
            assert(chunk(dedup_table@, dst_chunk as int, cs) =~= chunk(col, src_chunk as int, cs));
            proof {
                first = first.push(src_chunk as int);
            }
            dst_chunk += 1;
            assert(dedup_table.len() == dst_chunk * chunk_size) by (nonlinear_arith)
                requires
                    dedup_table.len() == (dst_chunk - 1) * chunk_size + chunk_size,
            ;
        }
        src_chunk += 1;
        assert forall|k: int| 0 <= k < src_chunk implies #[trigger] index_table@[k] < dst_chunk
            && chunk(dedup_table@, index_table@[k] as int, cs) == chunk(col, k, cs) by {
            if k < src_chunk - 1 {
                assert(index_table@[k] == old_index[k]);
            }
        }
    }

    let ghost raw = index_table@;
    let ghost table = dedup_table@;
    let ghost m = dst_chunk as int;
    assert(table.len() as int / cs == m && table.len() <= num_chunks * cs) by (nonlinear_arith)
        requires
            table.len() == m * cs,
            cs > 0,
            m <= num_chunks,
    ;
    proof {
        assert forall|j: int| 0 <= j < m implies occurs_in(col, cs, num_chunks as int, #[trigger] chunk(table, j, cs)) by {
            assert(chunk(col, first[j], cs) == chunk(table, j, cs));
        }
        assert forall|j1: int, j2: int, k: int|
            #![trigger chunk(table, j1, cs), chunk(table, j2, cs), chunk(col, k, cs)]
            0 <= j1 < j2 < m && 0 <= k < num_chunks && chunk(col, k, cs) == chunk(table, j2, cs)
            implies occurs_in(col, cs, k, chunk(table, j1, cs)) by {
            let r = raw[k] as int;
            if r != j2 {
                if r < j2 {
                    assert(chunk(table, r, cs) != chunk(table, j2, cs));
                } else {
                    assert(chunk(table, j2, cs) != chunk(table, r, cs));
                }
            }
            assert(first[j2] <= k);
            assert(raw[first[j1]] == j1);
            assert(first[j1] < first[j2]) by {
                if first[j1] >= first[j2] {
                    if first[j1] > first[j2] {
                        assert(raw[first[j2]] < j1);
                    }
                }
            }
            assert(chunk(col, first[j1], cs) == chunk(table, j1, cs));
        }
    }

    // Cut the trailing run of the last entry down to that one entry.
    if index_table.len() > 0 {
        let last_value = index_table[index_table.len() - 1];
        loop
            invariant
                index_table@ == raw.take(index_table.len() as int),
                index_table.len() <= raw.len(),
                raw.len() == num_chunks,
                num_chunks > 0,
                last_value == raw[raw.len() - 1],
                forall|t: int| index_table.len() <= t < raw.len() ==> #[trigger] raw[t] == last_value,
            ensures
                index_table@ == raw.take(index_table.len() as int),
                index_table.len() <= raw.len(),
                forall|t: int| index_table.len() <= t < raw.len() ==> #[trigger] raw[t] == last_value,
                index_table.len() > 0 ==> raw[index_table.len() - 1] != last_value,
            decreases index_table.len(),
        {
            if index_table.len() == 0 {
                break;
            }
            if index_table[index_table.len() - 1] == last_value {
                index_table.pop();
                assert(index_table@ =~= raw.take(index_table.len() as int));
            } else {
                break;
            }
        }
        index_table.push(last_value);
        let ghost index = index_table@;
        let ghost len = index.len() as int;
        assert forall|k: int| 0 <= k < num_chunks implies chunk(table, index_entry(index, k), cs)
            == #[trigger] chunk(col, k, cs) by {
            if k < len - 1 {
                assert(index[k] == raw[k]);
            } else {
                assert(raw[k] == last_value);
            }
        }
        assert forall|i: int| 0 <= i < len implies #[trigger] index[i] < m by {
            if i < len - 1 {
                assert(index[i] == raw[i]);
            }
        }
        proof {
            if len >= 2 {
                assert(index[len - 2] == raw[len - 2]);
            }
        }
    }
    return (dedup_table, index_table);
}

/// Every value of `s` is below `bound`, so its largest value is too.
pub proof fn lemma_seq_max_below(s: Seq<u32>, bound: nat)
    requires
        forall|i: int| 0 <= i < s.len() ==> #[trigger] s[i] < bound,
    ensures
        seq_max(s) < bound || (s.len() == 0 && bound == 0),
    decreases s.len(),
{
    if s.len() > 0 {
        lemma_seq_max_below(s.drop_last(), bound);
    }
}

/// The chunk sizes that `dedup_best_fit` tries, in order.
pub open spec fn best_fit_sizes() -> Seq<int> {
    seq![32, 64, 128, 256, 512]
}

/// Bits taken by a deduplicated table and its index when each is packed at
/// the width of its largest value.
pub open spec fn table_cost(table: Seq<u32>, index: Seq<u32>) -> nat {
    table.len() * bit_width(seq_max(table)) + index.len() * bit_width(seq_max(index))
}

/// Which of the first `k` costs is kept when they are tried in order, each
/// replacing the kept one when that one costs zero or more than it; `-1`
/// when `k` is zero.
pub open spec fn best_fit_pick(costs: Seq<nat>, k: int) -> int
    decreases k,
{
    if k <= 0 {
        -1
    } else {
        let p = best_fit_pick(costs, k - 1);
        let best = if p < 0 {
            0
        } else {
            costs[p]
        };
        if best == 0 || costs[k - 1] < best {
            k - 1
        } else {
            p
        }
    }
}

/// The costs of a list of candidate `(table, index)` pairs.
pub open spec fn candidate_costs(cands: Seq<(Seq<u32>, Seq<u32>)>) -> Seq<nat> {
    cands.map_values(|c: (Seq<u32>, Seq<u32>)| table_cost(c.0, c.1))
}

/// Deduplicates `column` with each chunk size of `best_fit_sizes` and keeps
/// the smallest packed result: `(table, table_bits, index, index_bits,
/// chunk_size)`.
pub fn dedup_best_fit(column: &Vec<u32>) -> (best: (Vec<u32>, usize, Vec<u32>, usize, usize))
    requires
        column.len() >= 0x110000,
        forall|i: int| 0 <= i < 0x110000 ==> #[trigger] column@[i] < 0x8000_0000,
    ensures
        exists|cands: Seq<(Seq<u32>, Seq<u32>)>|
            {
                &&& cands.len() == 5
                &&& forall|i: int|
                    0 <= i < 5 ==> is_dedup_of(
                        column@,
                        best_fit_sizes()[i],
                        #[trigger] cands[i].0,
                        cands[i].1,
                    )
                &&& {
                    let costs = candidate_costs(cands);
                    let p = best_fit_pick(costs, 5);
                    &&& 0 <= p < 5
                    &&& best.0@ == cands[p].0
                    &&& best.2@ == cands[p].1
                    &&& best.4 == best_fit_sizes()[p]
                    &&& forall|i: int| 0 <= i < 5 ==> costs[p] <= #[trigger] costs[i]
                    &&& costs[p] > 0 ==> forall|i: int| 0 <= i < p ==> costs[p] < #[trigger] costs[i]
                }
                &&& forall|i: int|
                    0 <= i < 5 ==> best.0@.len() * best.1 + best.2@.len() * best.3
                        <= (#[trigger] cands[i].0).len() * bit_width(seq_max(cands[i].0))
                        + cands[i].1.len() * bit_width(seq_max(cands[i].1))
            },
        best.1 == bit_width(seq_max(best.0@)),
        best.3 == bit_width(seq_max(best.2@)),
{
    let chunk_sizes: Vec<usize> = vec![32, 64, 128, 256, 512];
    assert(chunk_sizes@ =~= seq![32usize, 64, 128, 256, 512]);

    let mut best_chunk_size: usize = 0;
    let mut best_dedup = Vec::<u32>::new();
    let mut best_index = Vec::<u32>::new();
    let mut best_dedup_bits: usize = 0;
    let mut best_index_bits: usize = 0;
    let mut best_byte_len: usize = 0;
    let ghost mut cands: Seq<(Seq<u32>, Seq<u32>)> = Seq::empty();

    let mut i: usize = 0;
    while i < 5
        invariant
            i <= 5,
            chunk_sizes@ == seq![32usize, 64, 128, 256, 512],
            column.len() >= 0x110000,
            forall|k: int| 0 <= k < 0x110000 ==> #[trigger] column@[k] < 0x8000_0000,
            cands.len() == i,
            forall|c: int|
                0 <= c < i ==> is_dedup_of(
                    column@,
                    best_fit_sizes()[c],
                    #[trigger] cands[c].0,
                    cands[c].1,
                ),
            ({
                let p = best_fit_pick(candidate_costs(cands), i as int);
                &&& (i == 0 <==> p < 0)
                &&& p < i
                &&& p < 0 ==> best_byte_len == 0
                &&& p >= 0 ==> {
                    &&& best_dedup@ == cands[p].0
                    &&& best_index@ == cands[p].1
                    &&& best_chunk_size == best_fit_sizes()[p]
                    &&& best_byte_len == table_cost(cands[p].0, cands[p].1)
                    &&& best_dedup_bits == bit_width(seq_max(best_dedup@))
                    &&& best_index_bits == bit_width(seq_max(best_index@))
                }
            }),
        decreases 5 - i,
    {
        let chunk_size = chunk_sizes[i];
        assert(chunk_size == 32 || chunk_size == 64 || chunk_size == 128 || chunk_size == 256
            || chunk_size == 512);
        assert(chunk_size as int == best_fit_sizes()[i as int]);
        assert(chunk_count(chunk_size as int) * chunk_size == 0x110000);
        let (dedup_table, index_table) = dedup(column, chunk_size);
        let ghost n = chunk_count(chunk_size as int);
        let ghost m = dedup_table@.len() as int / chunk_size as int;
        proof {
            assert forall|p: int| 0 <= p < dedup_table@.len() implies #[trigger] dedup_table@[p]
                < 0x8000_0000nat by {
                let j = p / chunk_size as int;
                let r = p % chunk_size as int;
                assert(0 <= j < m && p == j * chunk_size + r && j * chunk_size + chunk_size
                    <= m * chunk_size) by (nonlinear_arith)
                    requires
                        0 <= p < m * chunk_size,
                        chunk_size > 0,
                        j == p / chunk_size as int,
                        r == p % chunk_size as int,
                ;
                let c = chunk(dedup_table@, j, chunk_size as int);
                assert(occurs_in(column@, chunk_size as int, n, c));
                let k = choose|k: int| 0 <= k < n && #[trigger] chunk(column@, k, chunk_size as int) == c;
                assert(c[r] == dedup_table@[p]);
                assert(k * chunk_size + r < 0x110000) by (nonlinear_arith)
                    requires
                        0 <= k < n,
                        0 <= r < chunk_size,
                        n * chunk_size == 0x110000,
                ;
                assert(chunk(column@, k, chunk_size as int)[r] == column@[k * chunk_size + r]);
            }
            lemma_seq_max_below(dedup_table@, 0x8000_0000);
            assert forall|p: int| 0 <= p < index_table@.len() implies #[trigger] index_table@[p]
                < 0x8000_0000nat by {
                assert(m <= n) by (nonlinear_arith)
                    requires
                        dedup_table@.len() <= n * chunk_size,
                        m == dedup_table@.len() as int / chunk_size as int,
                        chunk_size > 0,
                ;
            }
            lemma_seq_max_below(index_table@, 0x8000_0000);
        }
        let dedup_bits = get_width(&dedup_table);
        let index_bits = get_width(&index_table);
        proof {
            lemma_bit_width_bound(seq_max(dedup_table@), 31);
            lemma_bit_width_bound(seq_max(index_table@), 31);
            lemma2_to64();
            assert(index_table@.len() <= 0x110000) by (nonlinear_arith)
                requires
                    index_table@.len() <= n,
                    n * chunk_size == 0x110000,
                    chunk_size > 0,
            ;
            assert(dedup_table@.len() * dedup_bits <= 0x110000 * 31 && index_table@.len()
                * index_bits <= 0x110000 * 31) by (nonlinear_arith)
                requires
                    dedup_table@.len() <= 0x110000,
                    index_table@.len() <= 0x110000,
                    dedup_bits <= 31,
                    index_bits <= 31,
            ;
        }

        let byte_len = dedup_table.len() * dedup_bits + index_table.len() * index_bits;
        proof {
            let old_cands = cands;
            cands = cands.push((dedup_table@, index_table@));
            lemma_pick_prefix(candidate_costs(cands), candidate_costs(old_cands), i as int);
            assert(candidate_costs(cands)[i as int] == byte_len);
        }
        if best_byte_len == 0 || byte_len < best_byte_len {
            best_chunk_size = chunk_size;
            best_dedup = dedup_table;
            best_index = index_table;
            best_dedup_bits = dedup_bits;
            best_index_bits = index_bits;
            best_byte_len = byte_len;
        }
        i += 1;
    }

    proof {
        crate::laws::lemma_best_fit_has_least_cost(column@, cands);
        let costs = candidate_costs(cands);
        let p = best_fit_pick(costs, 5);
        assert(costs[p] == table_cost(cands[p].0, cands[p].1));
        assert forall|k: int| 0 <= k < 5 implies best_dedup@.len() * best_dedup_bits
            + best_index@.len() * best_index_bits <= (#[trigger] cands[k].0).len() * bit_width(
            seq_max(cands[k].0),
        ) + cands[k].1.len() * bit_width(seq_max(cands[k].1)) by {
            assert(costs[k] == table_cost(cands[k].0, cands[k].1));
        }
    }
    return (best_dedup, best_dedup_bits, best_index, best_index_bits, best_chunk_size);
}

/// The pick among the first `k` costs depends only on those costs.
proof fn lemma_pick_prefix(a: Seq<nat>, b: Seq<nat>, k: int)
    requires
        0 <= k <= b.len(),
        b.len() <= a.len(),
        forall|i: int| 0 <= i < b.len() ==> a[i] == b[i],
    ensures
        best_fit_pick(a, k) == best_fit_pick(b, k),
        -1 <= best_fit_pick(a, k) < k,
        k > 0 ==> best_fit_pick(a, k) >= 0,
    decreases k,
{
    if k > 0 {
        lemma_pick_prefix(a, b, k - 1);
    }
}

/// Maps the first `0x110000` descriptions through the predicate `op`: one for
/// `true`, zero for `false`.
pub fn map_bool_to_int<T>(descriptions: &Vec<T>, op: impl Fn(&T) -> bool) -> (column: Vec<u32>)
    requires
        descriptions.len() >= 0x110000,
        forall|cp: int| 0 <= cp < 0x110000 ==> op.requires((&descriptions@[cp],)),
    ensures
        column.len() == 0x110000,
        forall|cp: int|
            0 <= cp < 0x110000 ==> (#[trigger] column@[cp] == 0 || column@[cp] == 1) && op.ensures(
                (&descriptions@[cp],),
                column@[cp] == 1,
            ),
{
    let mut r = Vec::<u32>::with_capacity(0x110000);
    r.resize(0x110000, 0);

    let mut cp: usize = 0;
    while cp < 0x110000
        invariant
            cp <= 0x110000,
            r.len() == 0x110000,
            descriptions.len() >= 0x110000,
            forall|c: int| 0 <= c < 0x110000 ==> op.requires((&descriptions@[c],)),
            forall|c: int|
                0 <= c < cp ==> (#[trigger] r@[c] == 0 || r@[c] == 1) && op.ensures(
                    (&descriptions@[c],),
                    r@[c] == 1,
                ),
        decreases 0x110000 - cp,
    {
        if op(&descriptions[cp]) {
            r.set(cp, 1);
        } else {
            r.set(cp, 0);
        }
        cp += 1;
    }
    return r;
}

/// The column value of an optional character: its scalar value, or zero for
/// none.
pub open spec fn char_code(c: Option<char>) -> u32 {
    match c {
        Some(ch) => ch as u32,
        None => 0,
    }
}

/// A character that a character column can hold: neither U+0000, which stands
/// for "none", nor U+1FFFF.
pub open spec fn storable_char(c: Option<char>) -> bool {
    match c {
        Some(ch) => (ch as u32) != 0 && (ch as u32) != 0x1ffff,
        None => true,
    }
}

/// `value` is what a character column holds for `description`: the code of
/// one of the characters that `op` may give for it.
pub open spec fn char_entry<T, F: Fn(&T) -> &Option<char>>(op: F, description: &T, value: u32) -> bool {
    exists|c: &Option<char>| #[trigger] op.ensures((description,), c) && value == char_code(*c)
}

/// The optional character that a character column value stands for: none
/// for zero, else the character whose scalar value it is.
pub open spec fn decoded_char(value: u32) -> Option<char> {
    if value == 0 {
        None
    } else {
        Some(value as char)
    }
}

/// `value` gives back one of the characters that `op` may give for
/// `description` (none for none).
pub open spec fn char_round_trip<T, F: Fn(&T) -> &Option<char>>(op: F, description: &T, value: u32) -> bool {
    exists|c: &Option<char>| #[trigger] op.ensures((description,), c) && decoded_char(value) == *c
}

/// Maps the first `0x110000` descriptions through `op` to the scalar value of
/// the character it gives, or zero where it gives none.
pub fn map_char_to_int<T>(descriptions: &Vec<T>, op: impl Fn(&T) -> &Option<char>) -> (column: Vec<u32>)
    requires
        descriptions.len() >= 0x110000,
        forall|cp: int| 0 <= cp < 0x110000 ==> op.requires((&descriptions@[cp],)),
        forall|cp: int, c: &Option<char>|
            0 <= cp < 0x110000 && #[trigger] op.ensures((&descriptions@[cp],), c) ==> storable_char(
                *c,
            ),
    ensures
        column.len() == 0x110000,
        forall|cp: int|
            0 <= cp < 0x110000 ==> #[trigger] char_entry(op, &descriptions@[cp], column@[cp]),
        forall|cp: int|
            0 <= cp < 0x110000 ==> #[trigger] char_round_trip(op, &descriptions@[cp], column@[cp]),
{
    let mut r = Vec::<u32>::with_capacity(0x110000);
    r.resize(0x110000, 0);

    let mut cp: usize = 0;
    while cp < 0x110000
        invariant
            cp <= 0x110000,
            r.len() == 0x110000,
            descriptions.len() >= 0x110000,
            forall|c: int| 0 <= c < 0x110000 ==> op.requires((&descriptions@[c],)),
            forall|c: int| 0 <= c < cp ==> #[trigger] char_entry(op, &descriptions@[c], r@[c]),
            forall|c: int| 0 <= c < cp ==> #[trigger] char_round_trip(op, &descriptions@[c], r@[c]),
            forall|c: int, f: &Option<char>|
                0 <= c < 0x110000 && #[trigger] op.ensures((&descriptions@[c],), f) ==> storable_char(*f),
        decreases 0x110000 - cp,
    {
        let found = op(&descriptions[cp]);
        let ghost before = r@;
        if let Some(c) = found {
            r.set(cp, *c as u32);
        } else {
            r.set(cp, 0);
        }
        assert forall|c: int| 0 <= c < cp + 1 implies #[trigger] char_entry(
            op,
            &descriptions@[c],
            r@[c],
        ) by {
            if c < cp {
                assert(before[c] == r@[c]);
                assert(char_entry(op, &descriptions@[c], before[c]));
            } else {
                assert(op.ensures((&descriptions@[c],), found) && r@[c] == char_code(*found));
            }
        }
        assert forall|c: int| 0 <= c < cp + 1 implies #[trigger] char_round_trip(
            op,
            &descriptions@[c],
            r@[c],
        ) by {
            if c < cp {
                assert(before[c] == r@[c]);
                assert(char_round_trip(op, &descriptions@[c], before[c]));
            } else {
                assert(storable_char(*found));
                match *found {
                    Some(ch) => {
                        vstd::utf8::char_u32_cast(ch, ch as u32);
                    },
                    None => {},
                }
                assert(op.ensures((&descriptions@[c],), found) && decoded_char(r@[c]) == *found);
            }
        }
        cp += 1;
    }
    return r;
}

/// Where `x` first occurs in `s`, or `s.len()` when it does not occur.
pub open spec fn position(s: Seq<Seq<char>>, x: Seq<char>) -> int
    decreases s.len(),
{
    if s.len() == 0 {
        0
    } else if s[0] == x {
        0
    } else {
        1 + position(s.drop_first(), x)
    }
}

/// `order` after each of `vals`, in turn, is appended to it unless it is
/// already there.
pub open spec fn interned(order: Seq<Seq<char>>, vals: Seq<Seq<char>>) -> Seq<Seq<char>>
    decreases vals.len(),
{
    if vals.len() == 0 {
        order
    } else {
        let before = interned(order, vals.drop_last());
        if before.contains(vals.last()) {
            before
        } else {
            before.push(vals.last())
        }
    }
}

/// The views of a list of strings.
pub open spec fn string_views(s: Seq<String>) -> Seq<Seq<char>> {
    s.map_values(|x: String| x@)
}

/// `value` is what `op` may give for `description`, seen as characters.
pub open spec fn str_entry<T, F: Fn(&T) -> &String>(op: F, description: &T, value: Seq<char>) -> bool {
    exists|s: &String| #[trigger] op.ensures((description,), s) && value == s@
}

/// `vals` lists, for each of the first `vals.len()` descriptions, one string
/// that `op` may give for it.
pub open spec fn str_values<T, F: Fn(&T) -> &String>(op: F, descriptions: Seq<T>, vals: Seq<Seq<char>>) -> bool {
    &&& vals.len() <= descriptions.len()
    &&& forall|cp: int| 0 <= cp < vals.len() ==> #[trigger] str_entry(op, &descriptions[cp], vals[cp])
}

/// `x` is first at `j` in `s` (or absent, when `j` is `s.len()`).
proof fn lemma_position(s: Seq<Seq<char>>, x: Seq<char>, j: int)
    requires
        0 <= j <= s.len(),
        forall|i: int| 0 <= i < j ==> s[i] != x,
        j < s.len() ==> s[j] == x,
    ensures
        position(s, x) == j,
    decreases j,
{
    if s.len() > 0 && j > 0 {
        lemma_position(s.drop_first(), x, j - 1);
    }
}

/// Appending to `s` does not move a value that `s` already holds.
proof fn lemma_position_push(s: Seq<Seq<char>>, y: Seq<char>, x: Seq<char>)
    requires
        s.contains(x),
    ensures
        position(s.push(y), x) == position(s, x),
        position(s, x) < s.len(),
    decreases s.len(),
{
    if s[0] != x {
        assert(s.drop_first().contains(x)) by {
            let i = choose|i: int| 0 <= i < s.len() && s[i] == x;
            assert(s.drop_first()[i - 1] == x);
        }
        lemma_position_push(s.drop_first(), y, x);
        assert(s.push(y).drop_first() =~= s.drop_first().push(y));
    }
}

/// Interning keeps what was there and adds every interned value.
proof fn lemma_interned_contains(order: Seq<Seq<char>>, vals: Seq<Seq<char>>, i: int)
    requires
        0 <= i < vals.len(),
    ensures
        interned(order, vals).contains(vals[i]),
    decreases vals.len(),
{
    let before = interned(order, vals.drop_last());
    if i < vals.len() - 1 {
        lemma_interned_contains(order, vals.drop_last(), i);
        assert(vals.drop_last()[i] == vals[i]);
        if !before.contains(vals.last()) {
            let k = choose|k: int| 0 <= k < before.len() && before[k] == vals[i];
            assert(before.push(vals.last())[k] == vals[i]);
        }
    } else {
        if !before.contains(vals.last()) {
            assert(before.push(vals.last())[before.len() as int] == vals.last());
        }
    }
}

/// Maps the first `0x110000` descriptions through `op` to the position of the
/// string it gives in `order`, appending each string not yet in `order`.
pub fn map_str_to_int<T>(order: &mut Vec<String>, descriptions: &Vec<T>, op: impl Fn(&T) -> &String) -> (column: Vec<u32>)
    requires
        descriptions.len() >= 0x110000,
        forall|cp: int| 0 <= cp < 0x110000 ==> op.requires((&descriptions@[cp],)),
    ensures
        column.len() == 0x110000,
        exists|vals: Seq<Seq<char>>|
            {
                &&& #[trigger] str_values(op, descriptions@, vals)
                &&& vals.len() == 0x110000
                &&& string_views(final(order)@) == interned(string_views(old(order)@), vals)
                &&& forall|cp: int|
                    0 <= cp < 0x110000 ==> #[trigger] column@[cp] == position(
                        string_views(final(order)@),
                        vals[cp],
                    ) as u32
            },
{
    let mut r = Vec::<u32>::with_capacity(0x110000);
    r.resize(0x110000, 0);
    let ghost start = string_views(order@);
    let ghost mut vals: Seq<Seq<char>> = Seq::empty();

    let mut cp: usize = 0;
    while cp < 0x110000
        invariant
            cp <= 0x110000,
            r.len() == 0x110000,
            descriptions.len() >= 0x110000,
            forall|c: int| 0 <= c < 0x110000 ==> op.requires((&descriptions@[c],)),
            vals.len() == cp,
            str_values(op, descriptions@, vals),
            start == string_views(old(order)@),
            string_views(order@) == interned(start, vals),
            forall|c: int|
                0 <= c < cp ==> #[trigger] r@[c] == position(string_views(order@), vals[c]) as u32,
        decreases 0x110000 - cp,
    {
        let str_val = op(&descriptions[cp]);
        let ghost views = string_views(order@);
        let ghost before_r = r@;
        let ghost before_vals = vals;

        let mut j: usize = 0;
        let mut found = false;
        while j < order.len()
            invariant_except_break
                !found,
            invariant
                j <= order.len(),
                views == string_views(order@),
                forall|i: int| 0 <= i < j ==> views[i] != str_val@,
            ensures
                j <= order.len(),
                forall|i: int| 0 <= i < j ==> views[i] != str_val@,
                found ==> j < order.len() && views[j as int] == str_val@,
                !found ==> j == order.len(),
            decreases order.len() - j,
        {
            if order[j] == *str_val {
                assert(views[j as int] == order@[j as int]@);
                found = true;
                break;
            }
            j += 1;
        }
        proof {
            vals = vals.push(str_val@);
            assert(vals.drop_last() =~= before_vals);
            assert forall|c: int| 0 <= c < vals.len() implies #[trigger] str_entry(
                op,
                &descriptions@[c],
                vals[c],
            ) by {
                if c < cp {
                    assert(str_entry(op, &descriptions@[c], before_vals[c]));
                } else {
                    assert(op.ensures((&descriptions@[c],), str_val));
                }
            }
        }
        if found {
            r.set(cp, j as u32);
            proof {
                lemma_position(views, str_val@, j as int);
                assert(views.contains(str_val@)) by {
                    assert(views[j as int] == str_val@);
                }
            }
        } else {
            r.set(cp, order.len() as u32);
            let copy = str_val.clone();
            order.push(copy);
            proof {
                assert(!views.contains(str_val@));
                assert(string_views(order@) =~= views.push(str_val@));
                lemma_position(string_views(order@), str_val@, j as int);
                assert forall|c: int| 0 <= c < cp implies #[trigger] before_r[c] == position(
                    string_views(order@),
                    vals[c],
                ) as u32 by {
                    lemma_interned_contains(start, before_vals, c);
                    assert(before_vals[c] == vals[c]);
                    lemma_position_push(views, str_val@, vals[c]);
                }
            }
        }
        assert forall|c: int| 0 <= c < cp + 1 implies #[trigger] r@[c] == position(
            string_views(order@),
            vals[c],
        ) as u32 by {
            if c < cp {
                assert(r@[c] == before_r[c]);
            }
        }
        cp += 1;
    }
    return r;
}

} // verus!
