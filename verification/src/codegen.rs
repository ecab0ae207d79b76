use vstd::prelude::*;
use convert_case::{Case, Casing};
use vstd::arithmetic::power2::is_pow2;
use crate::column::{compress, compress_spec, packed_len, packing_fits, string_views};

verus! {

/// The text of a decimal digit.
pub open spec fn digit_text(d: nat) -> Seq<char> {
    if d == 0 {
        "0"@
    } else if d == 1 {
        "1"@
    } else if d == 2 {
        "2"@
    } else if d == 3 {
        "3"@
    } else if d == 4 {
        "4"@
    } else if d == 5 {
        "5"@
    } else if d == 6 {
        "6"@
    } else if d == 7 {
        "7"@
    } else if d == 8 {
        "8"@
    } else {
        "9"@
    }
}

/// `n` written in decimal, without leading zeros.
pub open spec fn decimal(n: nat) -> Seq<char>
    decreases n,
{
    if n < 10 {
        digit_text(n)
    } else {
        decimal(n / 10) + digit_text(n % 10)
    }
}

/// The number that a string of decimal digits stands for.
pub open spec fn digits_value(s: Seq<char>) -> int
    decreases s.len(),
{
    if s.len() == 0 {
        0
    } else {
        10 * digits_value(s.drop_last()) + (s.last() as int - 48)
    }
}

/// A character among `0` to `9`.
pub open spec fn is_digit(c: char) -> bool {
    48 <= c as int <= 57
}

proof fn lemma_digit_text(d: nat)
    requires
        d < 10,
    ensures
        digit_text(d).len() == 1,
        digit_text(d)[0] as int == 48 + d,
{
    reveal_strlit("0");
    reveal_strlit("1");
    reveal_strlit("2");
    reveal_strlit("3");
    reveal_strlit("4");
    reveal_strlit("5");
    reveal_strlit("6");
    reveal_strlit("7");
    reveal_strlit("8");
    reveal_strlit("9");
}

/// Law: `decimal(n)` is a non-empty string of digits, without a leading zero
/// unless it is `0` itself, that reads back as `n`.
pub proof fn lemma_decimal_reads_back(n: nat)
    ensures
        decimal(n).len() > 0,
        forall|i: int| 0 <= i < decimal(n).len() ==> is_digit(#[trigger] decimal(n)[i]),
        digits_value(decimal(n)) == n,
        n > 0 ==> decimal(n)[0] as int != 48,
    decreases n,
{
    if n < 10 {
        lemma_digit_text(n);
        assert(decimal(n).drop_last() =~= Seq::<char>::empty());
        assert(digits_value(Seq::<char>::empty()) == 0);
        assert(digits_value(decimal(n)) == 10 * digits_value(decimal(n).drop_last()) + (
        decimal(n).last() as int - 48));
    } else {
        lemma_decimal_reads_back(n / 10);
        lemma_digit_text(n % 10);
        let a = decimal(n / 10);
        let d = digit_text(n % 10);
        assert(decimal(n) == a + d);
        assert((a + d).drop_last() =~= a);
        assert((a + d)[0] == a[0]);
        assert((a + d).last() == d[0]);
        assert(digits_value(a + d) == 10 * digits_value(a) + (d[0] as int - 48));
        assert forall|i: int| 0 <= i < decimal(n).len() implies is_digit(#[trigger] decimal(n)[i]) by {
            if i < a.len() {
                assert((a + d)[i] == a[i]);
            } else {
                assert((a + d)[i] == d[0]);
            }
        }
    }
}

fn push_digit(out: &mut String, d: usize)
    requires
        d < 10,
    ensures
        final(out)@ == old(out)@ + digit_text(d as nat),
{
    match d {
        0 => out.append("0"),
        1 => out.append("1"),
        2 => out.append("2"),
        3 => out.append("3"),
        4 => out.append("4"),
        5 => out.append("5"),
        6 => out.append("6"),
        7 => out.append("7"),
        8 => out.append("8"),
        _ => out.append("9"),
    }
}

/// Appends `n` in decimal.
fn push_decimal(out: &mut String, n: usize)
    ensures
        final(out)@ == old(out)@ + decimal(n as nat),
    decreases n,
{
    if n >= 10 {
        push_decimal(out, n / 10);
    }
    push_digit(out, n % 10);
    proof {
        if n >= 10 {
            assert(old(out)@ + decimal(n as nat) =~= old(out)@ + decimal((n / 10) as nat)
                + digit_text((n % 10) as nat));
        }
    }
}

/// A byte written as one cell of a table row: right-aligned in three
/// columns, then a comma.
pub open spec fn byte_cell(b: u8) -> Seq<char> {
    (if b < 10 {
        "  "@
    } else if b < 100 {
        " "@
    } else {
        Seq::empty()
    }) + decimal(b as nat) + ","@
}

fn push_byte_cell(out: &mut String, b: u8)
    ensures
        final(out)@ == old(out)@ + byte_cell(b),
{
    let ghost start = out@;
    if b < 10 {
        out.append("  ");
    } else if b < 100 {
        out.append(" ");
    }
    let ghost pad = if b < 10 {
        "  "@
    } else if b < 100 {
        " "@
    } else {
        Seq::<char>::empty()
    };
    assert(out@ =~= start + pad);
    push_decimal(out, b as usize);
    out.append(",");
    assert(out@ =~= start + byte_cell(b));
}

/// The line break that starts a new row before every 32nd cell.
pub open spec fn row_break(i: int) -> Seq<char> {
    if i % 32 == 0 {
        "\n    "@
    } else {
        Seq::empty()
    }
}

/// `bytes` written as table cells, 32 to a row, each row on a new indented
/// line.
pub open spec fn byte_rows(bytes: Seq<u8>) -> Seq<char>
    decreases bytes.len(),
{
    if bytes.len() == 0 {
        Seq::empty()
    } else {
        byte_rows(bytes.drop_last()) + row_break(bytes.len() - 1) + byte_cell(bytes.last())
    }
}

fn push_byte_rows(out: &mut String, bytes: &Vec<u8>)
    ensures
        final(out)@ == old(out)@ + byte_rows(bytes@),
{
    let mut i: usize = 0;
    while i < bytes.len()
        invariant
            i <= bytes.len(),
            out@ == old(out)@ + byte_rows(bytes@.take(i as int)),
        decreases bytes.len() - i,
    {
        let ghost before = out@;
        if i % 32 == 0 {
            out.append("\n    ");
        }
        assert(out@ =~= before + row_break(i as int));
        push_byte_cell(out, bytes[i]);
        assert(bytes@.take(i as int + 1).drop_last() =~= bytes@.take(i as int));
        assert(out@ =~= old(out)@ + byte_rows(bytes@.take(i as int + 1)));
        i += 1;
    }
    assert(bytes@.take(bytes.len() as int) =~= bytes@);
}

/// `count` cells of the zero byte.
pub open spec fn zero_cells(count: nat) -> Seq<char>
    decreases count,
{
    if count == 0 {
        Seq::empty()
    } else {
        zero_cells((count - 1) as nat) + byte_cell(0)
    }
}

fn push_zero_cells(out: &mut String, count: usize)
    ensures
        final(out)@ == old(out)@ + zero_cells(count as nat),
{
    let mut i: usize = 0;
    while i < count
        invariant
            i <= count,
            out@ == old(out)@ + zero_cells(i as nat),
        decreases count - i,
    {
        push_byte_cell(out, 0);
        assert(out@ =~= old(out)@ + zero_cells((i + 1) as nat));
        i += 1;
    }
}

/// The naming conventions that generated code uses.
#[derive(Clone, Copy, PartialEq, Eq, Structural)]
pub enum NameCase {
    /// `UPPER_SNAKE_CASE`, for constants.
    Constant,
    /// `UpperCamelCase`, for types and enum variants.
    Pascal,
}

/// What convert_case makes of `text` when it converts it to `case`.
pub uninterp spec fn case_converted(text: Seq<char>, case: NameCase) -> Seq<char>;

/// Converts `text` to `case` with convert_case's `Casing::to_case` (splitting
/// it into words at convert_case's default boundaries). The result is taken to
/// be `case_converted` of the text and the case; nothing else is claimed of it.
#[verifier::external_body]
fn to_case(text: &str, case: NameCase) -> (converted: String)
    ensures
        converted@ == case_converted(text@, case),
{
    let case = match case {
        NameCase::Constant => Case::Constant,
        NameCase::Pascal => Case::Pascal,
    };
    text.to_case(case)
}

/// The least power of two that is at least `x`.
pub open spec fn next_pow2(x: nat) -> nat
    decreases x,
{
    if x <= 1 {
        1
    } else {
        2 * next_pow2(((x + 1) / 2) as nat)
    }
}

/// Law: `next_pow2(x)` is a power of two, at least `x`, and below `2 * x`
/// for any positive `x`: the least power of two that is at least `x`.
pub proof fn lemma_next_pow2(x: nat)
    ensures
        is_pow2(next_pow2(x) as int),
        1 <= next_pow2(x),
        x <= next_pow2(x),
        x >= 1 ==> next_pow2(x) < 2 * x,
    decreases x,
{
    reveal(is_pow2);
    if x > 1 {
        lemma_next_pow2(((x + 1) / 2) as nat);
    }
}

/// The least power of two that is at least `x`.
fn next_power_of_two(x: usize) -> (p: usize)
    requires
        next_pow2(x as nat) <= usize::MAX,
    ensures
        p == next_pow2(x as nat),
    decreases x,
{
    if x <= 1 {
        1
    } else {
        2 * next_power_of_two(x / 2 + x % 2)
    }
}

/// Number of bytes that generated code reads at once to get a value of
/// `bits` bits at any bit offset.
pub open spec fn bytes_to_read(bits: nat) -> nat {
    next_pow2(((bits + 7) / 8 + 1) as nat)
}

/// Law: generated code reads a power of two of bytes, enough to hold a value
/// of `bits` bits at any of the eight bit offsets within its first byte.
pub proof fn lemma_bytes_to_read_cover(bits: nat)
    ensures
        is_pow2(bytes_to_read(bits) as int),
        8 * bytes_to_read(bits) >= bits + 8,
{
    lemma_next_pow2(((bits + 7) / 8 + 1) as nat);
}

/// One line of the generated index read: byte `i` of the index word.
pub open spec fn index_read_line(upper: Seq<char>, i: nat) -> Seq<char> {
    "    index |= ("@ + upper + "_DATA["@ + upper + "_INDEX_BYTE_OFFSET + index_byte_offset + "@
        + decimal(i) + "] as usize) << "@ + decimal(i * 8) + ";\n"@
}

/// The generated index read: bytes `count - 1` down to `0`.
pub open spec fn index_read_lines(upper: Seq<char>, count: nat) -> Seq<char>
    decreases count,
{
    if count == 0 {
        Seq::empty()
    } else {
        index_read_line(upper, (count - 1) as nat) + index_read_lines(upper, (count - 1) as nat)
    }
}

/// One line of the generated value read: byte `i` of the value word.
pub open spec fn value_read_line(upper: Seq<char>, i: nat) -> Seq<char> {
    "    value |= ("@ + upper + "_DATA[column_byte_offset + "@ + decimal(i) + "] as usize) << "@
        + decimal(i * 8) + ";\n"@
}

/// The generated value read: bytes `count - 1` down to `0`.
pub open spec fn value_read_lines(upper: Seq<char>, count: nat) -> Seq<char>
    decreases count,
{
    if count == 0 {
        Seq::empty()
    } else {
        value_read_line(upper, (count - 1) as nat) + value_read_lines(upper, (count - 1) as nat)
    }
}

fn push_index_read_lines(out: &mut String, upper: &String, count: usize)
    requires
        count == 0 || (count - 1) * 8 <= usize::MAX,
    ensures
        final(out)@ == old(out)@ + index_read_lines(upper@, count as nat),
    decreases count,
{
    if count > 0 {
        let i = count - 1;
        let ghost start = out@;
        out.append("    index |= (");
        out.append(upper.as_str());
        out.append("_DATA[");
        out.append(upper.as_str());
        out.append("_INDEX_BYTE_OFFSET + index_byte_offset + ");
        push_decimal(out, i);
        out.append("] as usize) << ");
        push_decimal(out, i * 8);
        out.append(";\n");
        assert(out@ =~= start + index_read_line(upper@, i as nat));
        push_index_read_lines(out, upper, i);
        assert(out@ =~= start + index_read_lines(upper@, count as nat));
    }
}

fn push_value_read_lines(out: &mut String, upper: &String, count: usize)
    requires
        count == 0 || (count - 1) * 8 <= usize::MAX,
    ensures
        final(out)@ == old(out)@ + value_read_lines(upper@, count as nat),
    decreases count,
{
    if count > 0 {
        let i = count - 1;
        let ghost start = out@;
        out.append("    value |= (");
        out.append(upper.as_str());
        out.append("_DATA[column_byte_offset + ");
        push_decimal(out, i);
        out.append("] as usize) << ");
        push_decimal(out, i * 8);
        out.append(";\n");
        assert(out@ =~= start + value_read_line(upper@, i as nat));
        push_value_read_lines(out, upper, i);
        assert(out@ =~= start + value_read_lines(upper@, count as nat));
    }
}

/// One constant of a generated table file: `const {upper}{suffix}{value}{end}`.
pub open spec fn const_line(upper: Seq<char>, suffix: Seq<char>, value: nat, end: Seq<char>) -> Seq<char> {
    "const "@ + upper + suffix + decimal(value) + end
}

fn push_const_line(out: &mut String, upper: &str, suffix: &str, value: usize, end: &str)
    ensures
        final(out)@ == old(out)@ + const_line(upper@, suffix@, value as nat, end@),
{
    out.append("const ");
    out.append(upper);
    out.append(suffix);
    push_decimal(out, value);
    out.append(end);
    assert(out@ =~= old(out)@ + const_line(upper@, suffix@, value as nat, end@));
}

/// A labelled block of table rows.
pub open spec fn labelled_rows(label: Seq<char>, bytes: Seq<u8>) -> Seq<char> {
    label + byte_rows(bytes)
}

fn push_labelled_rows(out: &mut String, label: &str, bytes: &Vec<u8>)
    ensures
        final(out)@ == old(out)@ + labelled_rows(label@, bytes@),
{
    out.append(label);
    push_byte_rows(out, bytes);
    assert(out@ =~= old(out)@ + labelled_rows(label@, bytes@));
}

/// The notice and layout constants that open a generated table file.
pub open spec fn table_consts_text(
    upper: Seq<char>,
    chunk_size: nat,
    column_bits: nat,
    index_len: nat,
    index_bits: nat,
    index_byte_offset: nat,
) -> Seq<char> {
    "// This file was generated by the cargo-build script.\n\n"@ + const_line(
        upper,
        "_CHUNK_SIZE : usize = "@,
        chunk_size,
        ";\n"@,
    ) + const_line(upper, "_COLUMN_BITS : usize = "@, column_bits, ";\n"@) + const_line(
        upper,
        "_INDEX_LEN : usize = "@,
        index_len,
        ";\n"@,
    ) + const_line(upper, "_INDEX_BITS : usize = "@, index_bits, ";\n\n"@) + const_line(
        upper,
        "_INDEX_BYTE_OFFSET : usize = "@,
        index_byte_offset,
        ";\n\n"@,
    )
}

fn push_table_consts(
    out: &mut String,
    upper: &str,
    chunk_size: usize,
    column_bits: usize,
    index_len: usize,
    index_bits: usize,
    index_byte_offset: usize,
)
    ensures
        final(out)@ == old(out)@ + table_consts_text(
            upper@,
            chunk_size as nat,
            column_bits as nat,
            index_len as nat,
            index_bits as nat,
            index_byte_offset as nat,
        ),
{
    out.append("// This file was generated by the cargo-build script.\n\n");
    push_const_line(out, upper, "_CHUNK_SIZE : usize = ", chunk_size, ";\n");
    push_const_line(out, upper, "_COLUMN_BITS : usize = ", column_bits, ";\n");
    push_const_line(out, upper, "_INDEX_LEN : usize = ", index_len, ";\n");
    push_const_line(out, upper, "_INDEX_BITS : usize = ", index_bits, ";\n\n");
    push_const_line(out, upper, "_INDEX_BYTE_OFFSET : usize = ", index_byte_offset, ";\n\n");
    assert(out@ =~= old(out)@ + table_consts_text(
        upper@,
        chunk_size as nat,
        column_bits as nat,
        index_len as nat,
        index_bits as nat,
        index_byte_offset as nat,
    ));
}

/// The packed data of a generated table file: the column, the index, and
/// `index_read - 1` zero bytes so that reading `index_read` bytes from any
/// index entry stays inside the array.
pub open spec fn table_bytes_text(
    upper: Seq<char>,
    column_bytes: Seq<u8>,
    index_bytes: Seq<u8>,
    index_read: nat,
) -> Seq<char> {
    const_line(
        upper,
        "_DATA: [u8; "@,
        (column_bytes.len() + index_bytes.len() + index_read - 1) as nat,
        "] = [\n"@,
    ) + labelled_rows("    // Column table"@, column_bytes) + labelled_rows(
        "\n    // Index table"@,
        index_bytes,
    ) + "\n    // Padding to handle unaligned word reads.\n    "@ + zero_cells(
        (index_read - 1) as nat,
    ) + "\n];\n\n"@
}

fn push_table_bytes(
    out: &mut String,
    upper: &str,
    column_bytes: &Vec<u8>,
    index_bytes: &Vec<u8>,
    index_read: usize,
)
    requires
        index_read >= 1,
        column_bytes.len() + index_bytes.len() + index_read <= usize::MAX,
    ensures
        final(out)@ == old(out)@ + table_bytes_text(
            upper@,
            column_bytes@,
            index_bytes@,
            index_read as nat,
        ),
{
    let data_bytes_len = column_bytes.len() + index_bytes.len() + index_read - 1;
    push_const_line(out, upper, "_DATA: [u8; ", data_bytes_len, "] = [\n");
    push_labelled_rows(out, "    // Column table", column_bytes);
    push_labelled_rows(out, "\n    // Index table", index_bytes);
    out.append("\n    // Padding to handle unaligned word reads.\n    ");
    push_zero_cells(out, index_read - 1);
    out.append("\n];\n\n");
    assert(out@ =~= old(out)@ + table_bytes_text(
        upper@,
        column_bytes@,
        index_bytes@,
        index_read as nat,
    ));
}

/// `before`, then `middle`, then `after`.
pub open spec fn framed(before: Seq<char>, middle: Seq<char>, after: Seq<char>) -> Seq<char> {
    before + middle + after
}

fn push_framed(out: &mut String, before: &str, middle: &str, after: &str)
    ensures
        final(out)@ == old(out)@ + framed(before@, middle@, after@),
{
    out.append(before);
    out.append(middle);
    out.append(after);
    assert(out@ =~= old(out)@ + framed(before@, middle@, after@));
}

/// The start of a generated lookup function body: the masks, and the split
/// of the code point into its chunk and its place in the chunk.
pub open spec fn lookup_head_text(upper: Seq<char>, column_mask: Seq<char>) -> Seq<char> {
    "{\n"@ + framed("    const INDEX_MASK : usize = (1 << "@, upper, "_INDEX_BITS) - 1;\n"@) + column_mask
        + "    let code_point_value = code_point as usize;\n"@ + framed(
        "    let code_point_lo = code_point_value % "@,
        upper,
        "_CHUNK_SIZE;\n"@,
    ) + framed("    let mut code_point_hi = code_point_value / "@, upper, "_CHUNK_SIZE;\n"@)
        + framed("    if code_point_hi > "@, upper, "_INDEX_LEN - 1 {\n"@) + framed(
        "        code_point_hi = "@,
        upper,
        "_INDEX_LEN - 1;\n"@,
    ) + "    }\n\n"@
}

fn push_lookup_head(out: &mut String, upper: &str, column_mask: &str)
    ensures
        final(out)@ == old(out)@ + lookup_head_text(upper@, column_mask@),
{
    out.append("{\n");
    push_framed(out, "    const INDEX_MASK : usize = (1 << ", upper, "_INDEX_BITS) - 1;\n");
    out.append(column_mask);
    out.append("    let code_point_value = code_point as usize;\n");
    push_framed(out, "    let code_point_lo = code_point_value % ", upper, "_CHUNK_SIZE;\n");
    push_framed(out, "    let mut code_point_hi = code_point_value / ", upper, "_CHUNK_SIZE;\n");
    push_framed(out, "    if code_point_hi > ", upper, "_INDEX_LEN - 1 {\n");
    push_framed(out, "        code_point_hi = ", upper, "_INDEX_LEN - 1;\n");
    out.append("    }\n\n");
    assert(out@ =~= old(out)@ + lookup_head_text(upper@, column_mask@));
}

/// The generated read of the index entry, `index_read` bytes at a time.
pub open spec fn lookup_index_text(upper: Seq<char>, index_read: nat) -> Seq<char> {
    framed("    let index_offset = code_point_hi * "@, upper, "_INDEX_BITS;\n"@)
        + "    let index_byte_offset = index_offset / 8;\n    let index_bit_offset = index_offset % 8;\n    let mut index: usize = 0;\n"@
        + index_read_lines(upper, index_read)
        + "    index >>= index_bit_offset;\n    index &= INDEX_MASK;\n\n"@
}

fn push_lookup_index(out: &mut String, upper: &String, index_read: usize)
    requires
        index_read == 0 || (index_read - 1) * 8 <= usize::MAX,
    ensures
        final(out)@ == old(out)@ + lookup_index_text(upper@, index_read as nat),
{
    push_framed(out, "    let index_offset = code_point_hi * ", upper.as_str(), "_INDEX_BITS;\n");
    out.append(
        "    let index_byte_offset = index_offset / 8;\n    let index_bit_offset = index_offset % 8;\n    let mut index: usize = 0;\n",
    );
    push_index_read_lines(out, upper, index_read);
    out.append("    index >>= index_bit_offset;\n    index &= INDEX_MASK;\n\n");
    assert(out@ =~= old(out)@ + lookup_index_text(upper@, index_read as nat));
}

/// The generated read of the column value, `value_read` bytes at a time, up
/// to the opening of the final `match`.
pub open spec fn lookup_value_text(upper: Seq<char>, value_read: nat) -> Seq<char> {
    framed("    let column_offset = (index * "@, upper, "_CHUNK_SIZE + code_point_lo) * "@)
        + upper + "_COLUMN_BITS;\n"@
        + "    let column_byte_offset = column_offset / 8;\n    let column_bit_offset = column_offset % 8;\n\n"@
        + "    let mut value: usize = 0;\n"@ + value_read_lines(upper, value_read)
        + "    value >>= column_bit_offset;\n    value &= COLUMN_MASK;\n\n"@
        + "    return match value {\n"@
}

fn push_lookup_value(out: &mut String, upper: &String, value_read: usize)
    requires
        value_read == 0 || (value_read - 1) * 8 <= usize::MAX,
    ensures
        final(out)@ == old(out)@ + lookup_value_text(upper@, value_read as nat),
{
    push_framed(
        out,
        "    let column_offset = (index * ",
        upper.as_str(),
        "_CHUNK_SIZE + code_point_lo) * ",
    );
    out.append(upper.as_str());
    out.append("_COLUMN_BITS;\n");
    out.append(
        "    let column_byte_offset = column_offset / 8;\n    let column_bit_offset = column_offset % 8;\n\n",
    );
    out.append("    let mut value: usize = 0;\n");
    push_value_read_lines(out, upper, value_read);
    out.append("    value >>= column_bit_offset;\n    value &= COLUMN_MASK;\n\n");
    out.append("    return match value {\n");
    assert(out@ =~= old(out)@ + lookup_value_text(upper@, value_read as nat));
}

/// The doc comment lines that every generated lookup function starts with.
pub open spec fn lookup_doc_text(camel: Seq<char>) -> Seq<char> {
    framed("/// Get the "@, camel, " attribute for a Unicode code-point.\n"@)
        + "///\n/// # Arguments\n///  - `code_point` A code-point in the form of a rust `char`.\n///\n/// # Returns\n"@
}

fn push_lookup_doc(out: &mut String, camel: &str)
    ensures
        final(out)@ == old(out)@ + lookup_doc_text(camel@),
{
    push_framed(out, "/// Get the ", camel, " attribute for a Unicode code-point.\n");
    out.append(
        "///\n/// # Arguments\n///  - `code_point` A code-point in the form of a rust `char`.\n///\n/// # Returns\n",
    );
    assert(out@ =~= old(out)@ + lookup_doc_text(camel@));
}

/// A column packed `column_bits` apart and an index packed `index_bits` apart
/// can be written out as one table file: neither packing reaches past its end,
/// and no size that the file states, or that its reads use, overflows a
/// machine word.
pub open spec fn table_source_fits(column: Seq<u32>, column_bits: nat, index: Seq<u32>, index_bits: nat) -> bool {
    &&& column_bits * column.len() + 7 <= usize::MAX
    &&& packing_fits(column, column_bits as int)
    &&& index_bits * index.len() + 7 <= usize::MAX
    &&& packing_fits(index, index_bits as int)
    &&& index_bits + 7 <= usize::MAX
    &&& bytes_to_read(index_bits) <= usize::MAX
    &&& (bytes_to_read(index_bits) - 1) * 8 <= usize::MAX
    &&& packed_len(column_bits as int, column.len() as int) + packed_len(
        index_bits as int,
        index.len() as int,
    ) + bytes_to_read(index_bits) <= usize::MAX
}

/// The source of the lookup file for a one-bit property `name`: the packed
/// `column` (one bit per entry) and `index`, and a `get_{name}` function that
/// reads them.
pub open spec fn bool_table_text(
    name: Seq<char>,
    column: Seq<u32>,
    index: Seq<u32>,
    index_bits: nat,
    chunk_size: nat,
) -> Seq<char> {
    let upper = case_converted(name, NameCase::Constant);
    let camel = case_converted(name, NameCase::Pascal);
    let column_bytes = compress_spec(column, 1);
    let index_bytes = compress_spec(index, index_bits as int);
    let index_read = bytes_to_read(index_bits);
    table_consts_text(upper, chunk_size, 1, index.len(), index_bits, column_bytes.len())
        + table_bytes_text(upper, column_bytes, index_bytes, index_read) + lookup_doc_text(camel)
        + "/// bool value\n"@ + framed(
        "#[must_use] pub const fn get_"@,
        name,
        "(code_point: char) -> bool\n"@,
    ) + lookup_head_text(upper, "    const COLUMN_MASK : usize = 1;\n\n"@) + lookup_index_text(
        upper,
        index_read,
    ) + lookup_value_text(upper, 1) + "        0 => false,\n        _ => true,\n    };\n}\n\n"@
}

/// Writes the source of the lookup file for the one-bit property `name`
/// (see `bool_table_text`).
pub fn bool_table_source(
    name: &str,
    column: &Vec<u32>,
    index: &Vec<u32>,
    index_bits: usize,
    chunk_size: usize,
) -> (text: String)
    requires
        table_source_fits(column@, 1, index@, index_bits as nat),
    ensures
        text@ == bool_table_text(name@, column@, index@, index_bits as nat, chunk_size as nat),
{
    let upper = to_case(name, NameCase::Constant);
    let camel = to_case(name, NameCase::Pascal);

    let column_bytes = compress(column, 1);
    let index_bytes = compress(index, index_bits);

    let index_bytes_to_read = next_power_of_two((index_bits + 7) / 8 + 1);
    let column_bytes_to_read: usize = 1;
    proof {
        lemma_next_pow2(((index_bits + 7) / 8 + 1) as nat);
    }

    let mut out = String::new();
    push_table_consts(&mut out, upper.as_str(), chunk_size, 1, index.len(), index_bits, column_bytes.len());
    push_table_bytes(&mut out, upper.as_str(), &column_bytes, &index_bytes, index_bytes_to_read);
    push_lookup_doc(&mut out, camel.as_str());
    out.append("/// bool value\n");
    push_framed(&mut out, "#[must_use] pub const fn get_", name, "(code_point: char) -> bool\n");
    push_lookup_head(&mut out, upper.as_str(), "    const COLUMN_MASK : usize = 1;\n\n");
    push_lookup_index(&mut out, &upper, index_bytes_to_read);
    push_lookup_value(&mut out, &upper, column_bytes_to_read);
    out.append("        0 => false,\n        _ => true,\n    };\n}\n\n");
    assert(out@ =~= bool_table_text(name@, column@, index@, index_bits as nat, chunk_size as nat));
    out
}

/// The variants `0..count` of a generated property enum, each value named in
/// UpperCamelCase.
pub open spec fn enum_variants_text(values: Seq<Seq<char>>, count: nat) -> Seq<char>
    decreases count,
{
    if count == 0 {
        Seq::empty()
    } else {
        enum_variants_text(values, (count - 1) as nat) + "    "@ + case_converted(
            values[count - 1],
            NameCase::Pascal,
        ) + " = "@ + decimal((count - 1) as nat) + ",\n"@
    }
}

/// The arms `0..count` of the generated `match` from column value to enum
/// variant.
pub open spec fn enum_arms_text(camel: Seq<char>, values: Seq<Seq<char>>, count: nat) -> Seq<char>
    decreases count,
{
    if count == 0 {
        Seq::empty()
    } else {
        enum_arms_text(camel, values, (count - 1) as nat) + "        "@ + decimal((count - 1) as nat)
            + " => "@ + camel + "::"@ + case_converted(values[count - 1], NameCase::Pascal)
            + ",\n"@
    }
}

/// The generated property enum.
pub open spec fn enum_definition_text(camel: Seq<char>, values: Seq<Seq<char>>) -> Seq<char> {
    framed("/// The "@, camel, " attribute for Unicode code-points.\n"@)
        + "#[derive(Debug,Clone,Copy,PartialEq)]\n"@ + framed("pub enum "@, camel, " {\n"@)
        + enum_variants_text(values, values.len()) + "}\n\n"@
}

fn push_enum_definition(out: &mut String, camel: &str, values: &Vec<String>)
    ensures
        final(out)@ == old(out)@ + enum_definition_text(camel@, string_views(values@)),
{
    let ghost views = string_views(values@);
    push_framed(out, "/// The ", camel, " attribute for Unicode code-points.\n");
    out.append("#[derive(Debug,Clone,Copy,PartialEq)]\n");
    push_framed(out, "pub enum ", camel, " {\n");
    let ghost start = out@;
    let mut i: usize = 0;
    while i < values.len()
        invariant
            i <= values.len(),
            views == string_views(values@),
            out@ == start + enum_variants_text(views, i as nat),
        decreases values.len() - i,
    {
        let variant = to_case(values[i].as_str(), NameCase::Pascal);
        out.append("    ");
        out.append(variant.as_str());
        out.append(" = ");
        push_decimal(out, i);
        out.append(",\n");
        assert(views[i as int] == values@[i as int]@);
        assert(out@ =~= start + enum_variants_text(views, (i + 1) as nat));
        i += 1;
    }
    out.append("}\n\n");
    assert(out@ =~= old(out)@ + enum_definition_text(camel@, views));
}

fn push_enum_arms(out: &mut String, camel: &str, values: &Vec<String>)
    requires
        values.len() >= 1,
    ensures
        final(out)@ == old(out)@ + enum_arms_text(camel@, string_views(values@), values.len() as nat)
            + "        _ => "@ + camel@ + "::"@ + case_converted(
            values@[0]@,
            NameCase::Pascal,
        ) + ",\n"@ + "    };\n}\n\n"@,
{
    let ghost views = string_views(values@);
    let mut i: usize = 0;
    while i < values.len()
        invariant
            i <= values.len(),
            views == string_views(values@),
            out@ == old(out)@ + enum_arms_text(camel@, views, i as nat),
        decreases values.len() - i,
    {
        let variant = to_case(values[i].as_str(), NameCase::Pascal);
        out.append("        ");
        push_decimal(out, i);
        out.append(" => ");
        out.append(camel);
        out.append("::");
        out.append(variant.as_str());
        out.append(",\n");
        assert(views[i as int] == values@[i as int]@);
        assert(out@ =~= old(out)@ + enum_arms_text(camel@, views, (i + 1) as nat));
        i += 1;
    }
    let first = to_case(values[0].as_str(), NameCase::Pascal);
    out.append("        _ => ");
    out.append(camel);
    out.append("::");
    out.append(first.as_str());
    out.append(",\n");
    out.append("    };\n}\n\n");
    assert(out@ =~= old(out)@ + enum_arms_text(camel@, views, values.len() as nat)
        + "        _ => "@ + camel@ + "::"@ + case_converted(values@[0]@, NameCase::Pascal) + ",\n"@
        + "    };\n}\n\n"@);
}

/// The source of the lookup file for a property `name` whose values are the
/// names in `values`: the packed `column` (`column_bits` per entry) and
/// `index`, an enum of the values, and a `get_{name}` function that reads the
/// tables (falling back to the first value for a number with no name).
pub open spec fn enum_table_text(
    name: Seq<char>,
    values: Seq<Seq<char>>,
    column: Seq<u32>,
    column_bits: nat,
    index: Seq<u32>,
    index_bits: nat,
    chunk_size: nat,
) -> Seq<char> {
    let upper = case_converted(name, NameCase::Constant);
    let camel = case_converted(name, NameCase::Pascal);
    let column_bytes = compress_spec(column, column_bits as int);
    let index_bytes = compress_spec(index, index_bits as int);
    let index_read = bytes_to_read(index_bits);
    let column_read = bytes_to_read(column_bits);
    table_consts_text(upper, chunk_size, column_bits, index.len(), index_bits, column_bytes.len())
        + table_bytes_text(upper, column_bytes, index_bytes, index_read) + enum_definition_text(
        camel,
        values,
    ) + lookup_doc_text(camel) + framed(
        "/// A "@,
        camel,
        " attribute of the Unicode code-point.\n"@,
    ) + framed("#[must_use] pub const fn get_"@, name, "(code_point: char) -> "@) + camel + "\n"@
        + lookup_head_text(
        upper,
        framed("    const COLUMN_MASK : usize = (1 << "@, upper, "_COLUMN_BITS) - 1;\n\n"@),
    ) + lookup_index_text(upper, index_read) + lookup_value_text(upper, column_read)
        + enum_arms_text(camel, values, values.len()) + "        _ => "@ + camel + "::"@
        + case_converted(values[0], NameCase::Pascal) + ",\n"@ + "    };\n}\n\n"@
}

/// Writes the source of the lookup file for the property `name` whose values
/// are `enum_values` (see `enum_table_text`).
pub fn enum_table_source(
    name: &str,
    enum_values: &Vec<String>,
    column: &Vec<u32>,
    column_bits: usize,
    index: &Vec<u32>,
    index_bits: usize,
    chunk_size: usize,
) -> (text: String)
    requires
        enum_values.len() >= 1,
        table_source_fits(column@, column_bits as nat, index@, index_bits as nat),
        column_bits + 7 <= usize::MAX,
        bytes_to_read(column_bits as nat) <= usize::MAX,
        (bytes_to_read(column_bits as nat) - 1) * 8 <= usize::MAX,
    ensures
        text@ == enum_table_text(
            name@,
            string_views(enum_values@),
            column@,
            column_bits as nat,
            index@,
            index_bits as nat,
            chunk_size as nat,
        ),
{
    let upper = to_case(name, NameCase::Constant);
    let camel = to_case(name, NameCase::Pascal);

    let column_bytes = compress(column, column_bits);
    let index_bytes = compress(index, index_bits);

    let index_bytes_to_read = next_power_of_two((index_bits + 7) / 8 + 1);
    let column_bytes_to_read = next_power_of_two((column_bits + 7) / 8 + 1);
    proof {
        lemma_next_pow2(((index_bits + 7) / 8 + 1) as nat);
    }

    let mut column_mask = String::new();
    push_framed(
        &mut column_mask,
        "    const COLUMN_MASK : usize = (1 << ",
        upper.as_str(),
        "_COLUMN_BITS) - 1;\n\n",
    );
    assert(column_mask@ =~= framed(
        "    const COLUMN_MASK : usize = (1 << "@,
        upper@,
        "_COLUMN_BITS) - 1;\n\n"@,
    ));

    let mut out = String::new();
    push_table_consts(
        &mut out,
        upper.as_str(),
        chunk_size,
        column_bits,
        index.len(),
        index_bits,
        column_bytes.len(),
    );
    push_table_bytes(&mut out, upper.as_str(), &column_bytes, &index_bytes, index_bytes_to_read);
    push_enum_definition(&mut out, camel.as_str(), enum_values);
    push_lookup_doc(&mut out, camel.as_str());
    push_framed(&mut out, "/// A ", camel.as_str(), " attribute of the Unicode code-point.\n");
    push_framed(&mut out, "#[must_use] pub const fn get_", name, "(code_point: char) -> ");
    out.append(camel.as_str());
    out.append("\n");
    push_lookup_head(&mut out, upper.as_str(), column_mask.as_str());
    push_lookup_index(&mut out, &upper, index_bytes_to_read);
    push_lookup_value(&mut out, &upper, column_bytes_to_read);
    push_enum_arms(&mut out, camel.as_str(), enum_values);
    assert(out@ =~= enum_table_text(
        name@,
        string_views(enum_values@),
        column@,
        column_bits as nat,
        index@,
        index_bits as nat,
        chunk_size as nat,
    ));
    out
}

} // verus!
