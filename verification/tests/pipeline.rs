use ucd_tables::codegen::bool_table_source;
use ucd_tables::column::{compress, dedup, get_width};
use ucd_tables::lookup::{lookup_bool, TableLayout};

const RANGE: usize = 0x110000;

fn to_words(bytes: &[u8]) -> Vec<u64> {
    bytes
        .chunks(8)
        .map(|c| {
            let mut b = [0u8; 8];
            b[..c.len()].copy_from_slice(c);
            u64::from_le_bytes(b)
        })
        .collect()
}

#[test]
fn packed_table_reads_back_its_column() {
    let mut column = vec![0u32; RANGE];
    for cp in 0x3000..0x3100 {
        column[cp] = 1;
    }
    for cp in (0x5000..0x5080).step_by(2) {
        column[cp] = 1;
    }
    column[0x20] = 1;
    let chunk_size = 128;
    let (table, index) = dedup(&column, chunk_size);
    let index_bits = get_width(&index);
    assert_eq!(index_bits, 2);

    let mut bytes = compress(&table, 1);
    let index_byte_offset = bytes.len();
    bytes.extend(compress(&index, index_bits));
    bytes.push(0);
    let words = to_words(&bytes);
    let layout = TableLayout {
        chunk_size,
        column_bits: 1,
        index_len: index.len(),
        index_bits,
        index_byte_offset,
    };
    for cp in 0..RANGE {
        assert_eq!(lookup_bool(&words, layout, cp), column[cp] != 0, "code point {:#x}", cp);
    }
}

#[test]
fn wide_index_reads_more_bytes() {
    let column = vec![0u32; 16];
    let index = vec![300u32, 5];
    let text = bool_table_source("wide", &column, &index, 9, 8);
    for i in 0..4 {
        let line = format!(
            "    index |= (WIDE_DATA[WIDE_INDEX_BYTE_OFFSET + index_byte_offset + {}] as usize) << {};\n",
            i,
            i * 8
        );
        assert!(text.contains(&line));
    }
    assert!(!text.contains("index_byte_offset + 4]"));
    // Two column bytes, three index bytes and three bytes of padding.
    assert!(text.contains("const WIDE_DATA: [u8; 8] = [\n"));
}

#[test]
fn width_holds_every_value() {
    let values = vec![0u32, 17, 64, 3];
    let w = get_width(&values);
    assert_eq!(w, 7);
    assert!(values.iter().all(|v| *v < (1 << w)));
    assert!(!values.iter().all(|v| *v < (1 << (w - 1))));
}

#[test]
fn multi_bit_packed_table_reads_back_its_column() {
    let mut column = vec![0u32; RANGE];
    for cp in 0..RANGE {
        if (0x4000..0x4400).contains(&cp) {
            column[cp] = (cp % 5) as u32;
        }
    }
    column[0x10] = 6;
    let chunk_size = 256;
    let (table, index) = dedup(&column, chunk_size);
    let column_bits = get_width(&table);
    let index_bits = get_width(&index);
    assert_eq!(column_bits, 3);
    let mut bytes = compress(&table, column_bits);
    let index_byte_offset = bytes.len();
    bytes.extend(compress(&index, index_bits));
    let field = |bit: usize, width: usize| -> u32 {
        let mut value = 0u32;
        for i in 0..width {
            let p = bit + i;
            value |= (((bytes[p / 8] >> (p % 8)) & 1) as u32) << i;
        }
        value
    };
    for cp in 0..RANGE {
        let slot = std::cmp::min(cp / chunk_size, index.len() - 1);
        let entry = field(index_byte_offset * 8 + slot * index_bits, index_bits) as usize;
        let value = field((entry * chunk_size + cp % chunk_size) * column_bits, column_bits);
        assert_eq!(value, column[cp]);
    }
}
