use ucd_tables::codegen::{bool_table_source, enum_table_source};
use ucd_tables::column::compress;
use ucd_tables::radical::{
    RADICAL_CHUNK_SIZE, RADICAL_INDEX_BITS, RADICAL_INDEX_BYTE_OFFSET, RADICAL_INDEX_LEN,
    RADICAL_WORDS,
};

fn word_bytes(words: &[u64]) -> Vec<u8> {
    words.iter().flat_map(|w| w.to_le_bytes()).collect()
}

fn field(bytes: &[u8], bit: usize, width: usize) -> u32 {
    let mut value = 0u32;
    for i in 0..width {
        let p = bit + i;
        value |= (((bytes[p / 8] >> (p % 8)) & 1) as u32) << i;
    }
    value
}

/// The numbers in the array literal of a generated file, in order.
fn array_numbers(text: &str) -> Vec<u32> {
    let start = text.find("] = [\n").unwrap() + 6;
    let end = text.find("\n];\n").unwrap();
    text[start..end]
        .lines()
        .filter(|line| !line.trim_start().starts_with("//"))
        .flat_map(|line| line.split(',').map(|s| s.trim().to_string()).collect::<Vec<_>>())
        .filter(|s| !s.is_empty())
        .map(|s| s.parse::<u32>().unwrap())
        .collect()
}

#[test]
fn bool_table_round_trip() {
    let bytes = word_bytes(&RADICAL_WORDS);
    let column_entries = RADICAL_INDEX_BYTE_OFFSET * 8;
    let column: Vec<u32> = (0..column_entries).map(|p| field(&bytes, p, 1)).collect();
    let index: Vec<u32> = (0..RADICAL_INDEX_LEN)
        .map(|k| field(&bytes, RADICAL_INDEX_BYTE_OFFSET * 8 + k * RADICAL_INDEX_BITS, RADICAL_INDEX_BITS))
        .collect();
    let text = bool_table_source("radical", &column, &index, RADICAL_INDEX_BITS, RADICAL_CHUNK_SIZE);

    assert!(text.starts_with("// This file was generated by the cargo-build script.\n\nconst RADICAL_CHUNK_SIZE : usize = 128;\n"));
    assert!(text.contains("const RADICAL_COLUMN_BITS : usize = 1;\nconst RADICAL_INDEX_LEN : usize = 97;\nconst RADICAL_INDEX_BITS : usize = 2;\n\n"));
    assert!(text.contains("const RADICAL_INDEX_BYTE_OFFSET : usize = 64;\n\n"));
    assert!(text.contains("const RADICAL_DATA: [u8; 90] = [\n    // Column table\n      0,  0,"));
    assert!(text.contains("\n    // Padding to handle unaligned word reads.\n      0,\n];\n\n"));
    assert!(text.contains("/// Get the Radical attribute for a Unicode code-point.\n"));
    assert!(text.contains("#[must_use] pub const fn get_radical(code_point: char) -> bool\n{\n"));
    assert!(text.contains("    const INDEX_MASK : usize = (1 << RADICAL_INDEX_BITS) - 1;\n    const COLUMN_MASK : usize = 1;\n\n"));
    assert!(text.contains(
        "    index |= (RADICAL_DATA[RADICAL_INDEX_BYTE_OFFSET + index_byte_offset + 1] as usize) << 8;\n    index |= (RADICAL_DATA[RADICAL_INDEX_BYTE_OFFSET + index_byte_offset + 0] as usize) << 0;\n"
    ));
    assert!(text.contains("    value |= (RADICAL_DATA[column_byte_offset + 0] as usize) << 0;\n"));
    assert!(text.ends_with("    return match value {\n        0 => false,\n        _ => true,\n    };\n}\n\n"));

    let numbers = array_numbers(&text);
    assert_eq!(numbers.len(), 90);
    for (i, n) in numbers.iter().enumerate() {
        assert_eq!(*n, bytes[i] as u32);
    }
    // Rows hold 32 cells each, right-aligned in three columns.
    assert!(text.contains("255,255,255,251,255,"));
}

#[test]
fn enum_table_source_lists_the_values() {
    let mut column = vec![0u32; 64];
    for (i, v) in column.iter_mut().enumerate() {
        *v = (i % 3) as u32;
    }
    let index = vec![0u32, 1, 0];
    let values = vec!["not set".to_string(), "upper case".to_string(), "lower case".to_string()];
    let text = enum_table_source("letter kind", &values, &column, 2, &index, 1, 32);

    assert!(text.contains("const LETTER_KIND_CHUNK_SIZE : usize = 32;\n"));
    assert!(text.contains("const LETTER_KIND_COLUMN_BITS : usize = 2;\n"));
    assert!(text.contains("const LETTER_KIND_INDEX_LEN : usize = 3;\n"));
    assert!(text.contains("const LETTER_KIND_INDEX_BYTE_OFFSET : usize = 16;\n\n"));
    assert!(text.contains("const LETTER_KIND_DATA: [u8; 18] = [\n"));
    assert!(text.contains("/// The LetterKind attribute for Unicode code-points.\n#[derive(Debug,Clone,Copy,PartialEq)]\npub enum LetterKind {\n    NotSet = 0,\n    UpperCase = 1,\n    LowerCase = 2,\n}\n\n"));
    assert!(text.contains("/// A LetterKind attribute of the Unicode code-point.\n#[must_use] pub const fn get_letter kind(code_point: char) -> LetterKind\n"));
    assert!(text.contains("    const COLUMN_MASK : usize = (1 << LETTER_KIND_COLUMN_BITS) - 1;\n\n"));
    assert!(text.contains("    value |= (LETTER_KIND_DATA[column_byte_offset + 1] as usize) << 8;\n    value |= (LETTER_KIND_DATA[column_byte_offset + 0] as usize) << 0;\n"));
    assert!(text.ends_with("        0 => LetterKind::NotSet,\n        1 => LetterKind::UpperCase,\n        2 => LetterKind::LowerCase,\n        _ => LetterKind::NotSet,\n    };\n}\n\n"));

    let numbers = array_numbers(&text);
    let mut expected: Vec<u32> = compress(&column, 2).iter().map(|b| *b as u32).collect();
    expected.extend(compress(&index, 1).iter().map(|b| *b as u32));
    expected.push(0);
    assert_eq!(numbers, expected);
}
