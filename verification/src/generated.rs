use vstd::prelude::*;
use vstd::arithmetic::power2::{pow2, lemma2_to64, lemma_pow2_unfold};
use vstd::bits::{lemma_u64_shr_is_div, lemma_u64_shl_is_mul, lemma_u64_pow2_no_overflow};
use crate::lookup::{TableLayout, bit_at, field_at, index_slot, table_chunk, table_value};
use crate::codegen::{
    next_pow2, bytes_to_read, lemma_bytes_to_read_cover, decimal,
    framed, index_read_line, value_read_line, index_read_lines, value_read_lines, lookup_head_text,
    lookup_index_text, lookup_value_text, NameCase, case_converted, table_source_fits,
    table_consts_text, table_bytes_text, lookup_doc_text, bool_table_text, enum_table_text,
    enum_definition_text, enum_arms_text,
};
use crate::column::{compress_spec, packed_len, chunk_count, is_dedup_of};
use crate::laws::{lemma_packed_table_reads_column, packed_layout, values_fit};
use vstd::seq_lib::lemma_concat_associative;

verus! {

/// One statement of the body of a generated lookup function.
pub enum Stmt {
    /// `{` opening the body.
    Open,
    /// `const INDEX_MASK = (1 << INDEX_BITS) - 1`.
    IndexMaskDef,
    /// `const COLUMN_MASK = 1` (one-bit tables).
    BoolMaskDef,
    /// `const COLUMN_MASK = (1 << COLUMN_BITS) - 1`.
    WideMaskDef,
    /// `let code_point_value = code_point as usize`.
    CodePointValue,
    /// `let code_point_lo = code_point_value % CHUNK_SIZE`.
    CodePointLo,
    /// `let mut code_point_hi = code_point_value / CHUNK_SIZE`.
    CodePointHi,
    /// `if code_point_hi > INDEX_LEN - 1 { code_point_hi = INDEX_LEN - 1; }`.
    ClampHi,
    /// `let index_offset = code_point_hi * INDEX_BITS`.
    IndexOffset,
    /// `let index_byte_offset = index_offset / 8`.
    IndexByteOffset,
    /// `let index_bit_offset = index_offset % 8`.
    IndexBitOffset,
    /// `let mut index: usize = 0`.
    IndexInit,
    /// `index |= (DATA[INDEX_BYTE_OFFSET + index_byte_offset + i] as usize) << 8 * i`.
    IndexRead(nat),
    /// `index >>= index_bit_offset`.
    IndexShift,
    /// `index &= INDEX_MASK`.
    IndexMask,
    /// `let column_offset = (index * CHUNK_SIZE + code_point_lo) * COLUMN_BITS`.
    ColumnOffset,
    /// `let column_byte_offset = column_offset / 8`.
    ColumnByteOffset,
    /// `let column_bit_offset = column_offset % 8`.
    ColumnBitOffset,
    /// `let mut value: usize = 0`.
    ValueInit,
    /// `value |= (DATA[column_byte_offset + i] as usize) << 8 * i`.
    ValueRead(nat),
    /// `value >>= column_bit_offset`.
    ValueShift,
    /// `value &= COLUMN_MASK`.
    ValueMask,
    /// `return match value {`: the function's result is `value`.
    ReturnMatch,
}

/// The source text of a statement, for a table whose constants are named
/// after `upper`.
pub open spec fn stmt_text(upper: Seq<char>, stmt: Stmt) -> Seq<char> {
    match stmt {
        Stmt::Open => "{\n"@,
        Stmt::IndexMaskDef => framed(
            "    const INDEX_MASK : usize = (1 << "@,
            upper,
            "_INDEX_BITS) - 1;\n"@,
        ),
        Stmt::BoolMaskDef => "    const COLUMN_MASK : usize = 1;\n\n"@,
        Stmt::WideMaskDef => framed(
            "    const COLUMN_MASK : usize = (1 << "@,
            upper,
            "_COLUMN_BITS) - 1;\n\n"@,
        ),
        Stmt::CodePointValue => "    let code_point_value = code_point as usize;\n"@,
        Stmt::CodePointLo => framed(
            "    let code_point_lo = code_point_value % "@,
            upper,
            "_CHUNK_SIZE;\n"@,
        ),
        Stmt::CodePointHi => framed(
            "    let mut code_point_hi = code_point_value / "@,
            upper,
            "_CHUNK_SIZE;\n"@,
        ),
        Stmt::ClampHi => framed("    if code_point_hi > "@, upper, "_INDEX_LEN - 1 {\n"@) + framed(
            "        code_point_hi = "@,
            upper,
            "_INDEX_LEN - 1;\n"@,
        ) + "    }\n\n"@,
        Stmt::IndexOffset => framed(
            "    let index_offset = code_point_hi * "@,
            upper,
            "_INDEX_BITS;\n"@,
        ),
        Stmt::IndexByteOffset => "    let index_byte_offset = index_offset / 8;\n"@,
        Stmt::IndexBitOffset => "    let index_bit_offset = index_offset % 8;\n"@,
        Stmt::IndexInit => "    let mut index: usize = 0;\n"@,
        Stmt::IndexRead(i) => "    index |= ("@ + upper + "_DATA["@ + upper
            + "_INDEX_BYTE_OFFSET + index_byte_offset + "@ + decimal(i) + "] as usize) << "@
            + decimal(i * 8) + ";\n"@,
        Stmt::IndexShift => "    index >>= index_bit_offset;\n"@,
        Stmt::IndexMask => "    index &= INDEX_MASK;\n\n"@,
        Stmt::ColumnOffset => framed(
            "    let column_offset = (index * "@,
            upper,
            "_CHUNK_SIZE + code_point_lo) * "@,
        ) + upper + "_COLUMN_BITS;\n"@,
        Stmt::ColumnByteOffset => "    let column_byte_offset = column_offset / 8;\n"@,
        Stmt::ColumnBitOffset => "    let column_bit_offset = column_offset % 8;\n\n"@,
        Stmt::ValueInit => "    let mut value: usize = 0;\n"@,
        Stmt::ValueRead(i) => "    value |= ("@ + upper + "_DATA[column_byte_offset + "@
            + decimal(i) + "] as usize) << "@ + decimal(i * 8) + ";\n"@,
        Stmt::ValueShift => "    value >>= column_bit_offset;\n"@,
        Stmt::ValueMask => "    value &= COLUMN_MASK;\n\n"@,
        Stmt::ReturnMatch => "    return match value {\n"@,
    }
}

/// The source text of a list of statements.
pub open spec fn stmts_text(upper: Seq<char>, stmts: Seq<Stmt>) -> Seq<char>
    decreases stmts.len(),
{
    if stmts.len() == 0 {
        Seq::empty()
    } else {
        stmt_text(upper, stmts[0]) + stmts_text(upper, stmts.drop_first())
    }
}

/// Reads of bytes `count - 1` down to `0` of the index word.
pub open spec fn index_reads(count: nat) -> Seq<Stmt>
    decreases count,
{
    if count == 0 {
        Seq::empty()
    } else {
        seq![Stmt::IndexRead((count - 1) as nat)] + index_reads((count - 1) as nat)
    }
}

/// Reads of bytes `count - 1` down to `0` of the value word.
pub open spec fn value_reads(count: nat) -> Seq<Stmt>
    decreases count,
{
    if count == 0 {
        Seq::empty()
    } else {
        seq![Stmt::ValueRead((count - 1) as nat)] + value_reads((count - 1) as nat)
    }
}

/// The body of a generated lookup function up to its final `match`: it
/// reads the index entry `index_read` bytes at a time and the column value
/// `value_read` bytes at a time; `wide` tables mask the value with
/// `COLUMN_BITS` bits, one-bit tables with a single bit.
pub open spec fn lookup_program(index_read: nat, value_read: nat, wide: bool) -> Seq<Stmt> {
    program_head(wide) + index_reads(index_read) + program_middle() + value_reads(value_read)
        + program_tail()
}

proof fn lemma_stmts_text_append(upper: Seq<char>, a: Seq<Stmt>, b: Seq<Stmt>)
    ensures
        stmts_text(upper, a + b) == stmts_text(upper, a) + stmts_text(upper, b),
    decreases a.len(),
{
    if a.len() == 0 {
        assert(a + b =~= b);
    } else {
        assert((a + b).drop_first() =~= a.drop_first() + b);
        lemma_stmts_text_append(upper, a.drop_first(), b);
    }
}

proof fn lemma_index_reads_text(upper: Seq<char>, count: nat)
    ensures
        stmts_text(upper, index_reads(count)) == index_read_lines(upper, count),
    decreases count,
{
    if count > 0 {
        let first = seq![Stmt::IndexRead((count - 1) as nat)];
        lemma_stmts_text_append(upper, first, index_reads((count - 1) as nat));
        lemma_index_reads_text(upper, (count - 1) as nat);
        assert(first.drop_first() =~= Seq::<Stmt>::empty());
        assert(stmts_text(upper, first.drop_first()) == Seq::<char>::empty());
        assert(stmts_text(upper, first) == stmt_text(upper, first[0]) + stmts_text(upper, first.drop_first()));
        assert(stmts_text(upper, first) =~= index_read_line(upper, (count - 1) as nat));
    }
}

proof fn lemma_value_reads_text(upper: Seq<char>, count: nat)
    ensures
        stmts_text(upper, value_reads(count)) == value_read_lines(upper, count),
    decreases count,
{
    if count > 0 {
        let first = seq![Stmt::ValueRead((count - 1) as nat)];
        lemma_stmts_text_append(upper, first, value_reads((count - 1) as nat));
        lemma_value_reads_text(upper, (count - 1) as nat);
        assert(first.drop_first() =~= Seq::<Stmt>::empty());
        assert(stmts_text(upper, first.drop_first()) == Seq::<char>::empty());
        assert(stmts_text(upper, first) == stmt_text(upper, first[0]) + stmts_text(upper, first.drop_first()));
        assert(stmts_text(upper, first) =~= value_read_line(upper, (count - 1) as nat));
    }
}

/// The mask definition of a table's value column.
pub open spec fn column_mask_stmt(wide: bool) -> Stmt {
    if wide {
        Stmt::WideMaskDef
    } else {
        Stmt::BoolMaskDef
    }
}

/// The opening statements of a lookup program: the masks and the split of
/// the code point into its chunk and its place in the chunk.
pub open spec fn program_start(wide: bool) -> Seq<Stmt> {
    seq![
        Stmt::Open,
        Stmt::IndexMaskDef,
        column_mask_stmt(wide),
        Stmt::CodePointValue,
        Stmt::CodePointLo,
        Stmt::CodePointHi,
        Stmt::ClampHi,
    ]
}

/// The statements that find where the index entry starts.
pub open spec fn program_index_start() -> Seq<Stmt> {
    seq![Stmt::IndexOffset, Stmt::IndexByteOffset, Stmt::IndexBitOffset, Stmt::IndexInit]
}

/// The statements before the index reads.
pub open spec fn program_head(wide: bool) -> Seq<Stmt> {
    program_start(wide) + program_index_start()
}

/// The statements between the index reads and the value reads.
pub open spec fn program_middle() -> Seq<Stmt> {
    seq![
        Stmt::IndexShift,
        Stmt::IndexMask,
        Stmt::ColumnOffset,
        Stmt::ColumnByteOffset,
        Stmt::ColumnBitOffset,
        Stmt::ValueInit,
    ]
}

/// The statements after the value reads.
pub open spec fn program_tail() -> Seq<Stmt> {
    seq![Stmt::ValueShift, Stmt::ValueMask, Stmt::ReturnMatch]
}

proof fn lemma_start_text(upper: Seq<char>, wide: bool)
    ensures
        stmts_text(upper, program_start(wide)) == lookup_head_text(
            upper,
            stmt_text(upper, column_mask_stmt(wide)),
        ),
{
    reveal_with_fuel(stmts_text, 8);
    assert(stmts_text(upper, program_start(wide)) =~= lookup_head_text(
        upper,
        stmt_text(upper, column_mask_stmt(wide)),
    ));
}

proof fn lemma_index_start_text(upper: Seq<char>)
    ensures
        stmts_text(upper, program_index_start()) == framed(
            "    let index_offset = code_point_hi * "@,
            upper,
            "_INDEX_BITS;\n"@,
        )
            + "    let index_byte_offset = index_offset / 8;\n    let index_bit_offset = index_offset % 8;\n    let mut index: usize = 0;\n"@,
{
    reveal_with_fuel(stmts_text, 5);
    reveal_strlit("    let index_byte_offset = index_offset / 8;\n    let index_bit_offset = index_offset % 8;\n    let mut index: usize = 0;\n");
    reveal_strlit("    let index_byte_offset = index_offset / 8;\n");
    reveal_strlit("    let index_bit_offset = index_offset % 8;\n");
    reveal_strlit("    let mut index: usize = 0;\n");
    assert(stmts_text(upper, program_index_start()) =~= framed(
        "    let index_offset = code_point_hi * "@,
        upper,
        "_INDEX_BITS;\n"@,
    )
        + "    let index_byte_offset = index_offset / 8;\n    let index_bit_offset = index_offset % 8;\n    let mut index: usize = 0;\n"@);
}

proof fn lemma_middle_text(upper: Seq<char>)
    ensures
        stmts_text(upper, program_middle()) == "    index >>= index_bit_offset;\n    index &= INDEX_MASK;\n\n"@
            + framed("    let column_offset = (index * "@, upper, "_CHUNK_SIZE + code_point_lo) * "@)
            + upper + "_COLUMN_BITS;\n"@
            + "    let column_byte_offset = column_offset / 8;\n    let column_bit_offset = column_offset % 8;\n\n"@
            + "    let mut value: usize = 0;\n"@,
{
    reveal_with_fuel(stmts_text, 7);
    reveal_strlit("    index >>= index_bit_offset;\n    index &= INDEX_MASK;\n\n");
    reveal_strlit("    index >>= index_bit_offset;\n");
    reveal_strlit("    index &= INDEX_MASK;\n\n");
    reveal_strlit("    let column_byte_offset = column_offset / 8;\n    let column_bit_offset = column_offset % 8;\n\n");
    reveal_strlit("    let column_byte_offset = column_offset / 8;\n");
    reveal_strlit("    let column_bit_offset = column_offset % 8;\n\n");
    assert(stmts_text(upper, program_middle()) =~= "    index >>= index_bit_offset;\n    index &= INDEX_MASK;\n\n"@
        + framed("    let column_offset = (index * "@, upper, "_CHUNK_SIZE + code_point_lo) * "@)
        + upper + "_COLUMN_BITS;\n"@
        + "    let column_byte_offset = column_offset / 8;\n    let column_bit_offset = column_offset % 8;\n\n"@
        + "    let mut value: usize = 0;\n"@);
}

proof fn lemma_tail_text(upper: Seq<char>)
    ensures
        stmts_text(upper, program_tail()) == "    value >>= column_bit_offset;\n    value &= COLUMN_MASK;\n\n"@
            + "    return match value {\n"@,
{
    reveal_with_fuel(stmts_text, 4);
    reveal_strlit("    value >>= column_bit_offset;\n    value &= COLUMN_MASK;\n\n");
    reveal_strlit("    value >>= column_bit_offset;\n");
    reveal_strlit("    value &= COLUMN_MASK;\n\n");
    assert(stmts_text(upper, program_tail()) =~= "    value >>= column_bit_offset;\n    value &= COLUMN_MASK;\n\n"@
        + "    return match value {\n"@);
}

/// Law (the generated lookup body is a program): the text that the table
/// generators write for a lookup function's body, up to its final `match`,
/// is the text of `lookup_program`, statement by statement.
#[verifier::spinoff_prover]
#[verifier::rlimit(60)]
pub proof fn lemma_lookup_text_is_program(upper: Seq<char>, index_read: nat, value_read: nat, wide: bool)
    ensures
        stmts_text(upper, lookup_program(index_read, value_read, wide)) == lookup_head_text(
            upper,
            stmt_text(upper, column_mask_stmt(wide)),
        ) + lookup_index_text(upper, index_read) + lookup_value_text(upper, value_read),
{
    let a = program_head(wide);
    lemma_stmts_text_append(upper, program_start(wide), program_index_start());
    lemma_start_text(upper, wide);
    lemma_index_start_text(upper);
    let b = program_middle();
    let c = program_tail();
    let ir = index_reads(index_read);
    let vr = value_reads(value_read);
    assert(lookup_program(index_read, value_read, wide) =~= a + ir + b + vr + c);
    lemma_stmts_text_append(upper, a + ir + b + vr, c);
    lemma_stmts_text_append(upper, a + ir + b, vr);
    lemma_stmts_text_append(upper, a + ir, b);
    lemma_stmts_text_append(upper, a, ir);
    lemma_index_reads_text(upper, index_read);
    lemma_value_reads_text(upper, value_read);
    lemma_middle_text(upper);
    lemma_tail_text(upper);
    assert(stmts_text(upper, lookup_program(index_read, value_read, wide)) =~= lookup_head_text(
        upper,
        stmt_text(upper, column_mask_stmt(wide)),
    ) + lookup_index_text(upper, index_read) + lookup_value_text(upper, value_read));
}

/// What a generated lookup function's body works on: the bytes of its data
/// array, the values of its table constants, and the code point.
pub struct LookupEnv {
    pub data: Seq<u8>,
    pub layout: TableLayout,
    pub cp: int,
}

/// The variables of a generated lookup function's body. The integer ones are
/// taken as unbounded; the index and value words are 64-bit.
pub struct LookupState {
    pub code_point_value: int,
    pub code_point_lo: int,
    pub code_point_hi: int,
    pub index_offset: int,
    pub index_byte_offset: int,
    pub index_bit_offset: int,
    pub index: u64,
    pub index_mask: u64,
    pub column_mask: u64,
    pub column_offset: int,
    pub column_byte_offset: int,
    pub column_bit_offset: int,
    pub value: u64,
}

/// What running one statement does to the variables.
pub open spec fn step(env: LookupEnv, s: LookupState, stmt: Stmt) -> LookupState {
    let l = env.layout;
    match stmt {
        Stmt::Open => s,
        Stmt::IndexMaskDef => LookupState {
            index_mask: ((1u64 << (l.index_bits as u64)) - 1) as u64,
            ..s
        },
        Stmt::BoolMaskDef => LookupState { column_mask: 1, ..s },
        Stmt::WideMaskDef => LookupState {
            column_mask: ((1u64 << (l.column_bits as u64)) - 1) as u64,
            ..s
        },
        Stmt::CodePointValue => LookupState { code_point_value: env.cp, ..s },
        Stmt::CodePointLo => LookupState {
            code_point_lo: s.code_point_value % (l.chunk_size as int),
            ..s
        },
        Stmt::CodePointHi => LookupState {
            code_point_hi: s.code_point_value / (l.chunk_size as int),
            ..s
        },
        Stmt::ClampHi => LookupState {
            code_point_hi: if s.code_point_hi > l.index_len - 1 {
                l.index_len - 1
            } else {
                s.code_point_hi
            },
            ..s
        },
        Stmt::IndexOffset => LookupState {
            index_offset: s.code_point_hi * (l.index_bits as int),
            ..s
        },
        Stmt::IndexByteOffset => LookupState { index_byte_offset: s.index_offset / 8, ..s },
        Stmt::IndexBitOffset => LookupState { index_bit_offset: s.index_offset % 8, ..s },
        Stmt::IndexInit => LookupState { index: 0, ..s },
        Stmt::IndexRead(i) => LookupState {
            index: s.index | ((env.data[l.index_byte_offset + s.index_byte_offset + i] as u64) << ((8
                * i) as u64)),
            ..s
        },
        Stmt::IndexShift => LookupState { index: s.index >> (s.index_bit_offset as u64), ..s },
        Stmt::IndexMask => LookupState { index: s.index & s.index_mask, ..s },
        Stmt::ColumnOffset => LookupState {
            column_offset: (s.index as int * (l.chunk_size as int) + s.code_point_lo) * (
            l.column_bits as int),
            ..s
        },
        Stmt::ColumnByteOffset => LookupState { column_byte_offset: s.column_offset / 8, ..s },
        Stmt::ColumnBitOffset => LookupState { column_bit_offset: s.column_offset % 8, ..s },
        Stmt::ValueInit => LookupState { value: 0, ..s },
        Stmt::ValueRead(i) => LookupState {
            value: s.value | ((env.data[s.column_byte_offset + i] as u64) << ((8 * i) as u64)),
            ..s
        },
        Stmt::ValueShift => LookupState { value: s.value >> (s.column_bit_offset as u64), ..s },
        Stmt::ValueMask => LookupState { value: s.value & s.column_mask, ..s },
        Stmt::ReturnMatch => s,
    }
}

/// What running a list of statements in order does to the variables.
pub open spec fn run(env: LookupEnv, s: LookupState, stmts: Seq<Stmt>) -> LookupState
    decreases stmts.len(),
{
    if stmts.len() == 0 {
        s
    } else {
        run(env, step(env, s, stmts[0]), stmts.drop_first())
    }
}

proof fn lemma_run_append(env: LookupEnv, s: LookupState, a: Seq<Stmt>, b: Seq<Stmt>)
    ensures
        run(env, s, a + b) == run(env, run(env, s, a), b),
    decreases a.len(),
{
    if a.len() == 0 {
        assert(a + b =~= b);
    } else {
        assert((a + b).drop_first() =~= a.drop_first() + b);
        assert((a + b)[0] == a[0]);
        lemma_run_append(env, step(env, s, a[0]), a.drop_first(), b);
    }
}

/// Bit `t` (`0 <= t < 64`) of a 64-bit word is set.
pub open spec fn bit64(x: u64, t: int) -> bool {
    0 <= t < 64 && (x >> (t as u64)) & 1u64 == 1u64
}

proof fn lemma_or_byte_bits(x: u64, b: u8, k: u64, t: u64)
    requires
        k < 8,
        t < 64,
    ensures
        ((x | ((b as u64) << (8 * k))) >> t) & 1u64 == 1u64 <==> ((x >> t) & 1u64 == 1u64 || (8 * k
            <= t < 8 * k + 8 && (b >> ((t - 8 * k) as u8)) & 1u8 == 1u8)),
{
    assert(((x | ((b as u64) << (8 * k))) >> t) & 1u64 == 1u64 <==> ((x >> t) & 1u64 == 1u64 || (8
        * k <= t < 8 * k + 8 && (b >> ((t - 8 * k) as u8)) & 1u8 == 1u8))) by (bit_vector)
        requires
            k < 8,
            t < 64,
    ;
}

proof fn lemma_bit_at_value(data: Seq<u8>, p: int)
    requires
        0 <= p,
    ensures
        bit_at(data, p) == if (data[p / 8] >> ((p % 8) as u8)) & 1u8 == 1u8 {
            1nat
        } else {
            0nat
        },
{
    let x = data[p / 8];
    let r = (p % 8) as u8;
    assert((x >> r) & 1u8 == 1u8 || (x >> r) & 1u8 == 0u8) by (bit_vector);
}

/// Reading `count` bytes from byte `base + i` for `i` from `count - 1` down
/// to `0`, ORing byte `i` in at bit `8 * i`, sets bit `t` of the word exactly
/// where it was set or where bit `8 * base + t` of the data is set.
proof fn lemma_run_index_reads(env: LookupEnv, s: LookupState, count: nat)
    requires
        count <= 8,
        s.index_byte_offset >= 0,
    ensures
        run(env, s, index_reads(count)) == (LookupState {
            index: run(env, s, index_reads(count)).index,
            ..s
        }),
        forall|t: int|
            0 <= t < 64 ==> #[trigger] bit64(run(env, s, index_reads(count)).index, t) == (bit64(
                s.index,
                t,
            ) || (t < 8 * count && bit_at(
                env.data,
                8 * (env.layout.index_byte_offset + s.index_byte_offset) + t,
            ) == 1)),
    decreases count,
{
    if count > 0 {
        let i = (count - 1) as nat;
        let reads = index_reads(count);
        let s1 = step(env, s, Stmt::IndexRead(i));
        assert(reads[0] == Stmt::IndexRead(i));
        assert(reads.drop_first() =~= index_reads(i));
        lemma_run_index_reads(env, s1, i);
        let a = env.layout.index_byte_offset + s.index_byte_offset;
        let b = env.data[a + i];
        assert forall|t: int| 0 <= t < 64 implies #[trigger] bit64(s1.index, t) == (bit64(s.index, t)
            || (8 * i <= t < 8 * i + 8 && bit_at(env.data, 8 * a + t) == 1)) by {
            lemma_or_byte_bits(s.index, b, i as u64, t as u64);
            assert((8 * i) as u64 == 8 * (i as u64));
            if 8 * i <= t < 8 * i + 8 {
                let p = 8 * a + t;
                assert(p / 8 == a + i && p % 8 == t - 8 * i);
                lemma_bit_at_value(env.data, p);
                assert(((t as u64) - 8 * (i as u64)) as u8 == (p % 8) as u8);
            }
        }
    }
}

/// The same, for the value word read from byte `column_byte_offset`.
proof fn lemma_run_value_reads(env: LookupEnv, s: LookupState, count: nat)
    requires
        count <= 8,
        s.column_byte_offset >= 0,
    ensures
        run(env, s, value_reads(count)) == (LookupState {
            value: run(env, s, value_reads(count)).value,
            ..s
        }),
        forall|t: int|
            0 <= t < 64 ==> #[trigger] bit64(run(env, s, value_reads(count)).value, t) == (bit64(
                s.value,
                t,
            ) || (t < 8 * count && bit_at(env.data, 8 * s.column_byte_offset + t) == 1)),
    decreases count,
{
    if count > 0 {
        let i = (count - 1) as nat;
        let reads = value_reads(count);
        let s1 = step(env, s, Stmt::ValueRead(i));
        assert(reads[0] == Stmt::ValueRead(i));
        assert(reads.drop_first() =~= value_reads(i));
        lemma_run_value_reads(env, s1, i);
        let a = s.column_byte_offset;
        let b = env.data[a + i];
        assert forall|t: int| 0 <= t < 64 implies #[trigger] bit64(s1.value, t) == (bit64(s.value, t)
            || (8 * i <= t < 8 * i + 8 && bit_at(env.data, 8 * a + t) == 1)) by {
            lemma_or_byte_bits(s.value, b, i as u64, t as u64);
            assert((8 * i) as u64 == 8 * (i as u64));
            if 8 * i <= t < 8 * i + 8 {
                let p = 8 * a + t;
                assert(p / 8 == a + i && p % 8 == t - 8 * i);
                lemma_bit_at_value(env.data, p);
                assert(((t as u64) - 8 * (i as u64)) as u8 == (p % 8) as u8);
            }
        }
    }
}

proof fn lemma_bit64_step(v: u64, i: int)
    requires
        0 <= i < 63,
    ensures
        bit64(v >> 1u64, i) == bit64(v, i + 1),
{
    let s = i as u64;
    assert(((v >> 1u64) >> s) & 1u64 == (v >> (s + 1)) & 1u64) by (bit_vector)
        requires
            s < 63,
    ;
    assert((i + 1) as u64 == s + 1);
}

/// A field whose bits are those of `v`, with `v` below `2^n`, reads back as
/// `v`.
proof fn lemma_field_from_bits64(data: Seq<u8>, o: int, n: nat, v: u64)
    requires
        n <= 63,
        v < pow2(n),
        forall|i: int|
            0 <= i < n ==> #[trigger] bit_at(data, o + i) == if bit64(v, i) {
                1nat
            } else {
                0nat
            },
    ensures
        field_at(data, o, n) == v,
    decreases n,
{
    if n == 0 {
        lemma2_to64();
    } else {
        let h = v >> 1u64;
        lemma_u64_shr_is_div(v, 1u64);
        lemma2_to64();
        lemma_pow2_unfold(n);
        assert(h < pow2((n - 1) as nat)) by (nonlinear_arith)
            requires
                v < 2 * pow2((n - 1) as nat),
                h == v as nat / 2,
        ;
        assert forall|i: int| 0 <= i < n - 1 implies #[trigger] bit_at(data, (o + 1) + i)
            == if bit64(h, i) {
            1nat
        } else {
            0nat
        } by {
            lemma_bit64_step(v, i);
            assert(bit_at(data, o + (i + 1)) == bit_at(data, (o + 1) + i));
        }
        lemma_field_from_bits64(data, o + 1, (n - 1) as nat, h);
        assert(v == (v & 1u64) + 2 * (v >> 1u64)) by (bit_vector);
        assert((v & 1u64) == 1u64 <==> ((v >> 0u64) & 1u64) == 1u64) by (bit_vector);
        assert((v & 1u64) <= 1u64) by (bit_vector);
        assert(bit_at(data, o + 0) == bit_at(data, o));
    }
}

/// The mask of the `w` lowest bits of a 64-bit word.
pub open spec fn mask64(w: u64) -> u64 {
    ((1u64 << w) - 1) as u64
}

proof fn lemma_shift_mask_bits(x: u64, s: u64, w: u64, j: u64)
    requires
        s < 64,
        w < 64,
        j < 64,
    ensures
        (((x >> s) & mask64(w)) >> j) & 1u64 == 1u64 <==> (j < w && s + j < 64 && (x >> (s + j))
            & 1u64 == 1u64),
{
    assert((((x >> s) & mask64(w)) >> j) & 1u64 == 1u64 <==> (j < w && s + j < 64 && (x >> (s
        + j)) & 1u64 == 1u64)) by (bit_vector)
        requires
            s < 64,
            w < 64,
            j < 64,
    ;
}

proof fn lemma_masked_below(y: u64, w: u64)
    requires
        w < 64,
    ensures
        (y & mask64(w)) < pow2(w as nat),
{
    assert((y & mask64(w)) < (1u64 << w)) by (bit_vector)
        requires
            w < 64,
    ;
    lemma_u64_pow2_no_overflow(w as nat);
    lemma_u64_shl_is_mul(1u64, w);
}

/// Reading a word whose bit `t` is bit `base + t` of the data for `t` below
/// `8 * count`, shifting it by `s` and keeping `w` bits gives the `w`-bit
/// field at bit `base + s`.
proof fn lemma_read_field(data: Seq<u8>, base: int, count: nat, s: u64, w: u64, x: u64)
    requires
        s < 8,
        w < 64,
        s + w <= 8 * count,
        count <= 8,
        forall|t: int| 0 <= t < 64 ==> #[trigger] bit64(x, t) == (t < 8 * count && bit_at(data, base + t) == 1),
    ensures
        ((x >> s) & mask64(w)) as nat == field_at(data, base + s, w as nat),
{
    let y = (x >> s) & mask64(w);
    lemma_masked_below(x >> s, w);
    assert forall|i: int| 0 <= i < w implies #[trigger] bit_at(data, (base + s) + i) == if bit64(
        y,
        i,
    ) {
        1nat
    } else {
        0nat
    } by {
        let j = i as u64;
        lemma_shift_mask_bits(x, s, w, j);
        assert(s + j == (s + i) as u64);
        assert(bit64(y, i) == bit64(x, s + i));
        assert(bit64(x, s + i) == (s + i < 8 * count && bit_at(data, base + (s + i)) == 1));
        assert(bit_at(data, base + (s + i)) == bit_at(data, (base + s) + i));
        let p = (base + s) + i;
        let b = data[p / 8];
        let r = (p % 8) as u8;
        assert((b >> r) & 1u8 <= 1u8) by (bit_vector);
    }
    lemma_field_from_bits64(data, base + s, w as nat, y);
}

proof fn lemma_bytes_to_read_small(bits: nat)
    requires
        bits <= 56,
    ensures
        bytes_to_read(bits) <= 8,
{
    let x = ((bits + 7) / 8 + 1) as nat;
    assert(x <= 8);
    assert(next_pow2(1) == 1);
    assert(next_pow2(2) == 2);
    assert(next_pow2(3) == 4);
    assert(next_pow2(4) == 4);
    assert(next_pow2(5) == 8);
    assert(next_pow2(6) == 8);
    assert(next_pow2(7) == 8);
    assert(next_pow2(8) == 8);
}

/// How many bytes the value read of a lookup program takes: as many as the
/// generators write for `column_bits`-bit values, one for one-bit tables.
pub open spec fn value_read_count(layout: TableLayout, wide: bool) -> nat {
    if wide {
        bytes_to_read(layout.column_bits as nat)
    } else {
        1
    }
}

/// The generated index and column widths that the lookup program reads
/// correctly: every read fits in a 64-bit word, and a one-bit table has one
/// bit per value.
pub open spec fn program_fits(layout: TableLayout, wide: bool) -> bool {
    &&& layout.chunk_size > 0
    &&& layout.index_len > 0
    &&& layout.index_bits <= 56
    &&& wide ==> layout.column_bits <= 56
    &&& !wide ==> layout.column_bits == 1
}

#[verifier::spinoff_prover]
#[verifier::rlimit(40)]
proof fn lemma_head_run(env: LookupEnv, s0: LookupState, wide: bool)
    requires
        program_fits(env.layout, wide),
        env.cp >= 0,
    ensures
        ({
            let l = env.layout;
            let s1 = run(env, s0, program_head(wide));
            let slot = index_slot(l, env.cp);
            &&& s1.code_point_lo == env.cp % (l.chunk_size as int)
            &&& s1.code_point_hi == slot
            &&& s1.index_byte_offset == (slot * l.index_bits) / 8
            &&& s1.index_bit_offset == (slot * l.index_bits) % 8
            &&& s1.index == 0
            &&& s1.index_mask == mask64(l.index_bits as u64)
            &&& s1.column_mask == mask64(l.column_bits as u64)
        }),
{
    let l = env.layout;
    lemma_run_append(env, s0, program_start(wide), program_index_start());
    reveal_with_fuel(run, 8);
    let s1 = run(env, s0, program_start(wide));
    let slot = index_slot(l, env.cp);
    assert(s1.code_point_hi == slot);
    if !wide {
        assert(1u64 == mask64(1u64)) by (bit_vector);
    }
}

proof fn lemma_middle_run(env: LookupEnv, s: LookupState)
    ensures
        ({
            let l = env.layout;
            let r = run(env, s, program_middle());
            let index = (s.index >> (s.index_bit_offset as u64)) & s.index_mask;
            &&& r.index == index
            &&& r.column_offset == (index as int * (l.chunk_size as int) + s.code_point_lo) * (
            l.column_bits as int)
            &&& r.column_byte_offset == r.column_offset / 8
            &&& r.column_bit_offset == r.column_offset % 8
            &&& r.value == 0
            &&& r.column_mask == s.column_mask
        }),
{
    reveal_with_fuel(run, 7);
}

proof fn lemma_tail_run(env: LookupEnv, s: LookupState)
    ensures
        run(env, s, program_tail()).value == (s.value >> (s.column_bit_offset as u64))
            & s.column_mask,
{
    reveal_with_fuel(run, 4);
}

/// Law (what a generated lookup function computes): running the body of a
/// generated lookup function, from any starting values of its variables,
/// leaves in `value` the value that the packed table holds for the code point
/// (`table_value`): the index entry is the `INDEX_BITS`-wide field at bit
/// `8 * INDEX_BYTE_OFFSET + slot * INDEX_BITS`, and the value the
/// `COLUMN_BITS`-wide field at bit `(entry * CHUNK_SIZE + code_point % CHUNK_SIZE)
/// * COLUMN_BITS`.
#[verifier::spinoff_prover]
pub proof fn lemma_lookup_program_reads_table(env: LookupEnv, s0: LookupState, wide: bool)
    requires
        program_fits(env.layout, wide),
        env.cp >= 0,
    ensures
        run(
            env,
            s0,
            lookup_program(
                bytes_to_read(env.layout.index_bits as nat),
                value_read_count(env.layout, wide),
                wide,
            ),
        ).value as nat == table_value(env.data, env.layout, env.cp),
{
    let l = env.layout;
    let data = env.data;
    let ib = l.index_bits;
    let cb = l.column_bits;
    let ir = bytes_to_read(ib as nat);
    let vr = value_read_count(l, wide);
    lemma_bytes_to_read_cover(ib as nat);
    lemma_bytes_to_read_small(ib as nat);
    if wide {
        lemma_bytes_to_read_cover(cb as nat);
        lemma_bytes_to_read_small(cb as nat);
    }
    let head = program_head(wide);
    let ireads = index_reads(ir);
    let middle = program_middle();
    let vreads = value_reads(vr);
    let tail = program_tail();
    assert(lookup_program(ir, vr, wide) =~= head + ireads + middle + vreads + tail);
    lemma_run_append(env, s0, head + ireads + middle + vreads, tail);
    lemma_run_append(env, s0, head + ireads + middle, vreads);
    lemma_run_append(env, s0, head + ireads, middle);
    lemma_run_append(env, s0, head, ireads);

    // Where the index entry is.
    lemma_head_run(env, s0, wide);
    let s1 = run(env, s0, head);
    let slot = index_slot(l, env.cp);
    assert(0 <= slot < l.index_len);
    assert(0 <= slot * ib) by (nonlinear_arith)
        requires
            0 <= slot,
    ;
    let a = l.index_byte_offset + s1.index_byte_offset;

    // The index word.
    lemma_run_index_reads(env, s1, ir);
    let s2 = run(env, s1, ireads);
    assert forall|t: int| 0 <= t < 64 implies #[trigger] bit64(s2.index, t) == (t < 8 * ir
        && bit_at(data, 8 * a + t) == 1) by {
        let tt = t as u64;
        assert((0u64 >> tt) & 1u64 != 1u64) by (bit_vector);
    }

    // The index entry, and where the value is.
    lemma_middle_run(env, s2);
    let s3 = run(env, s2, middle);
    let ibit = s1.index_bit_offset as u64;
    assert(s3.index == (s2.index >> ibit) & mask64(ib as u64));
    lemma_read_field(data, 8 * a, ir, ibit, ib as u64, s2.index);
    assert(8 * a + ibit == 8 * l.index_byte_offset + slot * ib);
    assert(s3.index as nat == table_chunk(data, l, env.cp));
    let column_offset = (table_chunk(data, l, env.cp) * l.chunk_size + env.cp % (
    l.chunk_size as int)) * cb;
    assert(s3.column_offset == column_offset);
    assert(0 <= column_offset) by (nonlinear_arith)
        requires
            0 <= table_chunk(data, l, env.cp),
            0 <= env.cp % (l.chunk_size as int),
            0 <= cb,
            column_offset == (table_chunk(data, l, env.cp) * l.chunk_size + env.cp % (
            l.chunk_size as int)) * cb,
    ;
    assert(s3.value == 0);

    // The value word.
    lemma_run_value_reads(env, s3, vr);
    let s4 = run(env, s3, vreads);
    assert forall|t: int| 0 <= t < 64 implies #[trigger] bit64(s4.value, t) == (t < 8 * vr
        && bit_at(data, 8 * s3.column_byte_offset + t) == 1) by {
        let tt = t as u64;
        assert((0u64 >> tt) & 1u64 != 1u64) by (bit_vector);
    }
    lemma_tail_run(env, s4);
    let s5 = run(env, s4, tail);
    let cbit = s3.column_bit_offset as u64;
    assert(s5.value == (s4.value >> cbit) & mask64(cb as u64));
    lemma_read_field(data, 8 * s3.column_byte_offset, vr, cbit, cb as u64, s4.value);
    assert(8 * s3.column_byte_offset + cbit == column_offset);
}


/// The constants that open a generated table file, one line each, stated
/// from the layout that its lookup reads.
pub open spec fn layout_consts_text(upper: Seq<char>, l: TableLayout) -> Seq<char> {
    "// This file was generated by the cargo-build script.\n\n"@ + ("const "@ + upper
        + "_CHUNK_SIZE : usize = "@ + decimal(l.chunk_size as nat) + ";\n"@) + ("const "@ + upper
        + "_COLUMN_BITS : usize = "@ + decimal(l.column_bits as nat) + ";\n"@) + ("const "@ + upper
        + "_INDEX_LEN : usize = "@ + decimal(l.index_len as nat) + ";\n"@) + ("const "@ + upper
        + "_INDEX_BITS : usize = "@ + decimal(l.index_bits as nat) + ";\n\n"@) + ("const "@
        + upper + "_INDEX_BYTE_OFFSET : usize = "@ + decimal(l.index_byte_offset as nat)
        + ";\n\n"@)
}

/// The bytes of a generated table file's data array: the packed column, the
/// packed index, and `pad` zero bytes.
pub open spec fn table_data(column_bytes: Seq<u8>, index_bytes: Seq<u8>, pad: nat) -> Seq<u8> {
    column_bytes + index_bytes + Seq::new(pad, |i: int| 0u8)
}

proof fn lemma_table_data_parts(column_bytes: Seq<u8>, index_bytes: Seq<u8>, pad: nat)
    ensures
        ({
            let data = table_data(column_bytes, index_bytes, pad);
            &&& data.len() == column_bytes.len() + index_bytes.len() + pad
            &&& data.subrange(0, column_bytes.len() as int) == column_bytes
            &&& data.subrange(
                column_bytes.len() as int,
                (column_bytes.len() + index_bytes.len()) as int,
            ) == index_bytes
        }),
{
    let data = table_data(column_bytes, index_bytes, pad);
    assert(data.subrange(0, column_bytes.len() as int) =~= column_bytes);
    assert(data.subrange(column_bytes.len() as int, (column_bytes.len() + index_bytes.len()) as int)
        =~= index_bytes);
}

/// Law (a generated one-bit lookup answers from the column): for a column
/// deduplicated into `table` and `index` (as `dedup` does) and a size that
/// `bool_table_source` accepts, the source that it writes states the
/// constants of the layout that its lookup reads, then the data array
/// (`table` packed one bit apart, then `index` packed `index_bits` apart,
/// then padding), the doc lines and signature, the text of the lookup program, and
/// the `match` that turns the value into a `bool`; and running that program
/// on that data, for any code point of the column, leaves in `value` the
/// column's own value there.
pub proof fn lemma_bool_source_computes_column(
    name: Seq<char>,
    column: Seq<u32>,
    chunk_size: int,
    table: Seq<u32>,
    index: Seq<u32>,
    index_bits: int,
    cp: int,
    s0: LookupState,
)
    requires
        0 < chunk_size <= 0x110000,
        chunk_count(chunk_size) * chunk_size <= column.len(),
        forall|i: int| 0 <= i < chunk_count(chunk_size) * chunk_size ==> #[trigger] column[i] <= 1,
        is_dedup_of(column, chunk_size, table, index),
        values_fit(index, index_bits),
        table_source_fits(table, 1, index, index_bits as nat),
        0 <= cp < chunk_count(chunk_size) * chunk_size,
    ensures
        ({
            let upper = case_converted(name, NameCase::Constant);
            let camel = case_converted(name, NameCase::Pascal);
            let column_bytes = compress_spec(table, 1);
            let index_bytes = compress_spec(index, index_bits);
            let index_read = bytes_to_read(index_bits as nat);
            let program = lookup_program(index_read, 1, false);
            let env = LookupEnv {
                data: table_data(column_bytes, index_bytes, (index_read - 1) as nat),
                layout: packed_layout(table, index, chunk_size, 1, index_bits),
                cp,
            };
            &&& bool_table_text(name, table, index, index_bits as nat, chunk_size as nat)
                == layout_consts_text(upper, env.layout) + table_bytes_text(
                upper,
                column_bytes,
                index_bytes,
                index_read,
            )
                + lookup_doc_text(camel) + "/// bool value\n"@ + framed(
                "#[must_use] pub const fn get_"@,
                name,
                "(code_point: char) -> bool\n"@,
            ) + stmts_text(upper, program) + "        0 => false,\n        _ => true,\n    };\n}\n\n"@
            &&& run(env, s0, program).value == column[cp]
        }),
{
    let upper = case_converted(name, NameCase::Constant);
    let camel = case_converted(name, NameCase::Pascal);
    let column_bytes = compress_spec(table, 1);
    let index_bytes = compress_spec(index, index_bits);
    let index_read = bytes_to_read(index_bits as nat);
    let program = lookup_program(index_read, 1, false);
    let layout = packed_layout(table, index, chunk_size, 1, index_bits);
    let data = table_data(column_bytes, index_bytes, (index_read - 1) as nat);
    let env = LookupEnv { data, layout, cp };

    // The text.
    lemma_lookup_text_is_program(upper, index_read, 1, false);
    let before = table_consts_text(
        upper,
        chunk_size as nat,
        1,
        index.len(),
        index_bits as nat,
        column_bytes.len(),
    ) + table_bytes_text(upper, column_bytes, index_bytes, index_read) + lookup_doc_text(camel)
        + "/// bool value\n"@ + framed(
        "#[must_use] pub const fn get_"@,
        name,
        "(code_point: char) -> bool\n"@,
    );
    let h = lookup_head_text(upper, "    const COLUMN_MASK : usize = 1;\n\n"@);
    let ix = lookup_index_text(upper, index_read);
    let v = lookup_value_text(upper, 1);
    let arms = "        0 => false,\n        _ => true,\n    };\n}\n\n"@;
    assert(stmts_text(upper, program) == h + ix + v);
    assert(bool_table_text(name, table, index, index_bits as nat, chunk_size as nat)
        == before + h + ix + v + arms);
    lemma_concat_associative(before, h, ix);
    lemma_concat_associative(before, h + ix, v);

    // What the program computes.
    assert(0x110000int / chunk_size >= 1) by (nonlinear_arith)
        requires
            0 < chunk_size <= 0x110000,
    ;
    assert(chunk_count(chunk_size) > 0);
    assert(index.len() > 0);
    assert(index.len() <= chunk_count(chunk_size));
    lemma_table_data_parts(column_bytes, index_bytes, (index_read - 1) as nat);
    lemma_bytes_to_read_cover(index_bits as nat);
    assert(packed_len(1, table.len() as int) == column_bytes.len());
    assert(program_fits(layout, false));
    assert(table_consts_text(
        upper,
        chunk_size as nat,
        1,
        index.len(),
        index_bits as nat,
        column_bytes.len(),
    ) == layout_consts_text(upper, layout));
    lemma_lookup_program_reads_table(env, s0, false);
    assert(forall|i: int| 0 <= i < chunk_count(chunk_size) * chunk_size ==> #[trigger] column[i]
        < pow2(1)) by {
        lemma2_to64();
    }
    lemma_packed_table_reads_column(column, chunk_size, 1, table, index, index_bits, data, cp);
}


/// Law (a generated enumerated lookup answers from the column): for a column
/// of `column_bits`-bit values deduplicated into `table` and `index` (as
/// `dedup` does) and a size that `enum_table_source` accepts, the source that
/// it writes states the constants of the layout that its lookup reads, then
/// the data array (`table` packed `column_bits` apart, then `index` packed
/// `index_bits` apart, then padding), the enum, the doc lines and signature,
/// the text of the lookup program, and the `match` from value to variant; and
/// running that program on that data, for any code point of the column,
/// leaves in `value` the column's own value there, so the getter returns the
/// variant of that number.
pub proof fn lemma_enum_source_computes_column(
    name: Seq<char>,
    values: Seq<Seq<char>>,
    column: Seq<u32>,
    column_bits: int,
    chunk_size: int,
    table: Seq<u32>,
    index: Seq<u32>,
    index_bits: int,
    cp: int,
    s0: LookupState,
)
    requires
        0 < chunk_size <= 0x110000,
        0 <= column_bits <= 32,
        chunk_count(chunk_size) * chunk_size <= column.len(),
        forall|i: int|
            0 <= i < chunk_count(chunk_size) * chunk_size ==> #[trigger] column[i] < pow2(
                column_bits as nat,
            ),
        is_dedup_of(column, chunk_size, table, index),
        values_fit(index, index_bits),
        table_source_fits(table, column_bits as nat, index, index_bits as nat),
        0 <= cp < chunk_count(chunk_size) * chunk_size,
    ensures
        ({
            let upper = case_converted(name, NameCase::Constant);
            let camel = case_converted(name, NameCase::Pascal);
            let column_bytes = compress_spec(table, column_bits);
            let index_bytes = compress_spec(index, index_bits);
            let index_read = bytes_to_read(index_bits as nat);
            let program = lookup_program(index_read, bytes_to_read(column_bits as nat), true);
            let env = LookupEnv {
                data: table_data(column_bytes, index_bytes, (index_read - 1) as nat),
                layout: packed_layout(table, index, chunk_size, column_bits, index_bits),
                cp,
            };
            &&& enum_table_text(
                name,
                values,
                table,
                column_bits as nat,
                index,
                index_bits as nat,
                chunk_size as nat,
            ) == layout_consts_text(upper, env.layout) + table_bytes_text(
                upper,
                column_bytes,
                index_bytes,
                index_read,
            )
                + enum_definition_text(camel, values) + lookup_doc_text(camel) + framed(
                "/// A "@,
                camel,
                " attribute of the Unicode code-point.\n"@,
            ) + framed("#[must_use] pub const fn get_"@, name, "(code_point: char) -> "@) + camel
                + "\n"@ + stmts_text(upper, program) + enum_arms_text(camel, values, values.len())
                + "        _ => "@ + camel + "::"@ + case_converted(values[0], NameCase::Pascal)
                + ",\n"@ + "    };\n}\n\n"@
            &&& run(env, s0, program).value == column[cp]
        }),
{
    let upper = case_converted(name, NameCase::Constant);
    let camel = case_converted(name, NameCase::Pascal);
    let column_bytes = compress_spec(table, column_bits);
    let index_bytes = compress_spec(index, index_bits);
    let index_read = bytes_to_read(index_bits as nat);
    let column_read = bytes_to_read(column_bits as nat);
    let program = lookup_program(index_read, column_read, true);
    let layout = packed_layout(table, index, chunk_size, column_bits, index_bits);
    let data = table_data(column_bytes, index_bytes, (index_read - 1) as nat);
    let env = LookupEnv { data, layout, cp };

    // The text.
    lemma_lookup_text_is_program(upper, index_read, column_read, true);
    let before = table_consts_text(
        upper,
        chunk_size as nat,
        column_bits as nat,
        index.len(),
        index_bits as nat,
        column_bytes.len(),
    ) + table_bytes_text(upper, column_bytes, index_bytes, index_read) + enum_definition_text(
        camel,
        values,
    ) + lookup_doc_text(camel) + framed("/// A "@, camel, " attribute of the Unicode code-point.\n"@)
        + framed("#[must_use] pub const fn get_"@, name, "(code_point: char) -> "@) + camel + "\n"@;
    let h = lookup_head_text(
        upper,
        framed("    const COLUMN_MASK : usize = (1 << "@, upper, "_COLUMN_BITS) - 1;\n\n"@),
    );
    let ix = lookup_index_text(upper, index_read);
    let v = lookup_value_text(upper, column_read);
    assert(stmts_text(upper, program) == h + ix + v);
    lemma_concat_associative(before, h, ix);
    lemma_concat_associative(before, h + ix, v);
    assert(before + stmts_text(upper, program) == before + h + ix + v);

    // What the program computes.
    assert(0x110000int / chunk_size >= 1) by (nonlinear_arith)
        requires
            0 < chunk_size <= 0x110000,
    ;
    assert(chunk_count(chunk_size) > 0);
    assert(index.len() > 0);
    assert(index.len() <= chunk_count(chunk_size));
    lemma_table_data_parts(column_bytes, index_bytes, (index_read - 1) as nat);
    lemma_bytes_to_read_cover(index_bits as nat);
    assert(packed_len(column_bits, table.len() as int) == column_bytes.len());
    assert(program_fits(layout, true));
    assert(table_consts_text(
        upper,
        chunk_size as nat,
        column_bits as nat,
        index.len(),
        index_bits as nat,
        column_bytes.len(),
    ) == layout_consts_text(upper, layout));
    assert(value_read_count(layout, true) == column_read);
    lemma_lookup_program_reads_table(env, s0, true);
    lemma_packed_table_reads_column(column, chunk_size, column_bits, table, index, index_bits, data, cp);
}

} // verus!
