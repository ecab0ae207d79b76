use ucd_tables::column::{
    packs_in_place, compress, dedup, dedup_best_fit, get_width, map_bool_to_int, map_char_to_int, map_str_to_int,
};

const RANGE: usize = 0x110000;

fn lookup(table: &Vec<u32>, index: &Vec<u32>, chunk_size: usize, i: usize) -> u32 {
    let chunk = std::cmp::min(i / chunk_size, index.len() - 1);
    table[index[chunk] as usize * chunk_size + i % chunk_size]
}

#[test]
fn width_of_columns() {
    assert_eq!(get_width(&vec![]), 0);
    assert_eq!(get_width(&vec![0, 0, 0]), 0);
    assert_eq!(get_width(&vec![1]), 1);
    assert_eq!(get_width(&vec![2, 1]), 2);
    assert_eq!(get_width(&vec![3]), 2);
    assert_eq!(get_width(&vec![0, 4, 1]), 3);
    assert_eq!(get_width(&vec![255]), 8);
    assert_eq!(get_width(&vec![256]), 9);
    assert_eq!(get_width(&vec![0x7fff_ffff]), 31);
}

#[test]
fn compress_packs_lowest_bit_first() {
    assert_eq!(compress(&vec![1, 2, 3], 2), vec![0b0011_1001]);
    assert_eq!(compress(&vec![5, 6, 7], 3), vec![0xf5, 0x01]);
    assert_eq!(compress(&vec![1, 0, 1, 1, 0, 0, 0, 0, 1], 1), vec![0b0000_1101, 0b0000_0001]);
    assert_eq!(compress(&vec![0x1234, 0xabcd], 16), vec![0x34, 0x12, 0xcd, 0xab]);
    assert_eq!(compress(&vec![], 5), Vec::<u8>::new());
    assert_eq!(compress(&vec![0, 0, 0], 0), Vec::<u8>::new());
}

#[test]
fn compress_keeps_wide_values_whole() {
    assert_eq!(compress(&vec![0, 0x1FFF_FFFF], 29), vec![0, 0, 0, 224, 255, 255, 255, 3]);
    assert_eq!(
        compress(&vec![0xFFFF_FFFF, 0xFFFF_FFFF, 1], 32),
        vec![255, 255, 255, 255, 255, 255, 255, 255, 1, 0, 0, 0]
    );
    let input: Vec<u32> = (0..40u32).map(|i| 0x8000_0001u32.wrapping_mul(i + 3) >> 2).collect();
    for bits in [30usize, 31, 32] {
        let packed = compress(&input.iter().map(|v| v & ((1u64 << bits) - 1) as u32).collect(), bits);
        for (k, v) in input.iter().enumerate() {
            let v = v & ((1u64 << bits) - 1) as u32;
            let mut value = 0u64;
            for i in 0..bits {
                let p = k * bits + i;
                value |= (((packed[p / 8] >> (p % 8)) & 1) as u64) << i;
            }
            assert_eq!(value, v as u64);
        }
    }
}

#[test]
fn packs_in_place_matches_the_end_of_the_table() {
    assert!(packs_in_place(&vec![3, 1, 2], 2));
    assert!(packs_in_place(&vec![0, 0x1FFF_FFFF], 29));
    assert!(packs_in_place(&vec![], 100));
    // A too-wide value that stays inside the table is accepted.
    assert!(packs_in_place(&vec![7, 0, 0, 0], 2));
    // A too-wide last value that reaches past the end is not.
    assert!(!packs_in_place(&vec![0, 0, 0, 0x1ff], 2));
    assert!(!packs_in_place(&vec![1], usize::MAX));
    // Zero fits anywhere, and packing zeros writes nothing.
    assert!(packs_in_place(&vec![0; 9], 0));
    assert_eq!(compress(&vec![0, 0, 0, 0], 3), vec![0, 0]);
}

#[test]
fn compress_reads_back() {
    let input: Vec<u32> = (0..200u32).map(|i| (i * 37 + 11) % 128).collect();
    let bits = get_width(&input);
    assert_eq!(bits, 7);
    let packed = compress(&input, bits);
    assert_eq!(packed.len(), (bits * input.len() + 7) / 8);
    for (k, v) in input.iter().enumerate() {
        let mut value = 0u32;
        for i in 0..bits {
            let p = k * bits + i;
            value |= (((packed[p / 8] >> (p % 8)) & 1) as u32) << i;
        }
        assert_eq!(value, *v);
    }
}

fn sample_column() -> Vec<u32> {
    let mut column = vec![0u32; RANGE];
    for cp in 0x100..0x180 {
        column[cp] = 1;
    }
    for cp in (0x400..0x500).step_by(3) {
        column[cp] = 2;
    }
    column[0x2000] = 1;
    column[0x10fff0] = 3;
    column
}

#[test]
fn dedup_all_zero_column() {
    let column = vec![0u32; RANGE];
    let (table, index) = dedup(&column, 32);
    assert_eq!(table, vec![0u32; 32]);
    assert_eq!(index, vec![0]);
}

#[test]
fn dedup_keeps_distinct_chunks_in_order() {
    let column = sample_column();
    let (table, index) = dedup(&column, 128);
    // chunk 0 is zeros, chunk 2 is all ones, chunks 8 and 9 hold twos with
    // different phases, chunk 0x40 holds the lone one, the last chunk the three.
    assert_eq!(table.len() % 128, 0);
    let chunks: Vec<&[u32]> = table.chunks(128).collect();
    for i in 0..chunks.len() {
        for j in i + 1..chunks.len() {
            assert_ne!(chunks[i], chunks[j]);
        }
    }
    assert_eq!(chunks[0], &[0u32; 128][..]);
    assert_eq!(chunks[1], &[1u32; 128][..]);
    assert_eq!(index[0], 0);
    assert_eq!(index[2], 1);
    assert_eq!(index.last(), Some(&(chunks.len() as u32 - 1)));
    for i in 0..RANGE {
        assert_eq!(lookup(&table, &index, 128, i), column[i]);
    }
}

#[test]
fn dedup_trims_the_trailing_run() {
    let mut column = vec![0u32; RANGE];
    column[5] = 9;
    let (table, index) = dedup(&column, 64);
    assert_eq!(table.len(), 128);
    assert_eq!(index, vec![0, 1]);
    for i in 0..RANGE {
        assert_eq!(lookup(&table, &index, 64, i), column[i]);
    }
    // A run ending in the same chunk as the start keeps the entry before it.
    let mut column = vec![0u32; RANGE];
    column[0x100] = 1;
    let (_, index) = dedup(&column, 256);
    assert_eq!(index, vec![0, 1, 0]);
}

#[test]
fn dedup_with_a_chunk_size_that_does_not_divide_the_range() {
    let column: Vec<u32> = (0..RANGE as u32).map(|i| i % 3).collect();
    let (table, index) = dedup(&column, 100000);
    // 11 whole chunks; their phases repeat every three chunks.
    assert_eq!(table.len(), 300000);
    assert_eq!(index, vec![0, 1, 2, 0, 1, 2, 0, 1, 2, 0, 1]);
}

#[test]
fn best_fit_on_an_all_zero_column_takes_the_last_size() {
    let column = vec![0u32; RANGE];
    let (table, table_bits, index, index_bits, chunk_size) = dedup_best_fit(&column);
    assert_eq!(chunk_size, 512);
    assert_eq!(table, vec![0u32; 512]);
    assert_eq!(table_bits, 0);
    assert_eq!(index, vec![0]);
    assert_eq!(index_bits, 0);
}

#[test]
fn best_fit_picks_the_smallest_packing() {
    let column = sample_column();
    let (table, table_bits, index, index_bits, chunk_size) = dedup_best_fit(&column);
    let mut best = usize::MAX;
    let mut best_size = 0;
    for size in [32usize, 64, 128, 256, 512] {
        let (t, i) = dedup(&column, size);
        let cost = t.len() * get_width(&t) + i.len() * get_width(&i);
        if cost < best {
            best = cost;
            best_size = size;
        }
    }
    assert_eq!(chunk_size, best_size);
    assert_eq!(table.len() * table_bits + index.len() * index_bits, best);
    assert_eq!(table_bits, get_width(&table));
    assert_eq!(index_bits, get_width(&index));
    for i in 0..RANGE {
        assert_eq!(lookup(&table, &index, chunk_size, i), column[i]);
    }
}

#[test]
fn map_bools() {
    let descriptions: Vec<bool> = (0..RANGE).map(|i| i % 7 == 0).collect();
    let column = map_bool_to_int(&descriptions, |d: &bool| *d);
    assert_eq!(column.len(), RANGE);
    for i in 0..RANGE {
        assert_eq!(column[i], (i % 7 == 0) as u32);
    }
}

#[test]
fn map_chars() {
    let descriptions: Vec<Option<char>> =
        (0..RANGE as u32).map(|i| if i % 5 == 1 { char::from_u32(0x41 + i % 26) } else { None }).collect();
    let column = map_char_to_int(&descriptions, |d: &Option<char>| d);
    assert_eq!(column.len(), RANGE);
    assert_eq!(column[0], 0);
    assert_eq!(column[1], 0x42);
    assert_eq!(column[6], 0x47);
    assert_eq!(column[7], 0);
    for i in 0..RANGE {
        assert_eq!(column[i] == 0, descriptions[i].is_none());
    }
}

#[test]
fn map_strings_interns_in_first_seen_order() {
    let names = ["Lu", "Ll", "Cn", "Ll"];
    let descriptions: Vec<String> = (0..RANGE).map(|i| names[i % 4].to_string()).collect();
    let mut order = vec!["Cn".to_string()];
    let column = map_str_to_int(&mut order, &descriptions, |d: &String| d);
    assert_eq!(order, vec!["Cn".to_string(), "Lu".to_string(), "Ll".to_string()]);
    assert_eq!(column.len(), RANGE);
    assert_eq!(&column[0..8], &[1, 2, 0, 2, 1, 2, 0, 2]);
    for i in 0..RANGE {
        assert_eq!(order[column[i] as usize], descriptions[i]);
    }
}

#[test]
fn map_strings_twice_changes_nothing() {
    let names = ["Zs", "Nd", "Zs", "Po", "Nd"];
    let descriptions: Vec<String> = (0..RANGE).map(|i| names[i % 5].to_string()).collect();
    let mut order = Vec::new();
    let first = map_str_to_int(&mut order, &descriptions, |d: &String| d);
    let after_first = order.clone();
    let second = map_str_to_int(&mut order, &descriptions, |d: &String| d);
    assert_eq!(order, after_first);
    assert_eq!(first, second);
}
