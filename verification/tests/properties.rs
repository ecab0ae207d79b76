use ucd_tables::composition_exclusion::get_composition_exclusion;
use ucd_tables::dash::get_dash;
use ucd_tables::id_compat_math_start::get_id_compat_math_start;
use ucd_tables::radical::get_radical;

fn ch(cp: u32) -> char {
    char::from_u32(cp).unwrap()
}

#[test]
fn radical_blocks() {
    assert!(get_radical(ch(0x2E80)));
    assert!(get_radical(ch(0x2E99)));
    assert!(!get_radical(ch(0x2E9A)));
    assert!(get_radical(ch(0x2E9B)));
    assert!(get_radical(ch(0x2EF3)));
    assert!(!get_radical(ch(0x2EF4)));
    assert!(get_radical(ch(0x2F00)));
    assert!(get_radical(ch(0x2FD5)));
    assert!(!get_radical(ch(0x2FD6)));
    assert!(!get_radical('A'));
    assert!(!get_radical(ch(0x10FFFF)));
}

#[test]
fn dash_characters() {
    assert!(get_dash('-'));
    assert!(get_dash(ch(0x2014)));
    assert!(get_dash(ch(0x058A)));
    assert!(get_dash(ch(0x2E3A)));
    assert!(get_dash(ch(0xFE58)));
    assert!(!get_dash('A'));
    assert!(!get_dash(ch(0x10FFFF)));
}

#[test]
fn composition_exclusions() {
    assert!(get_composition_exclusion(ch(0x0958)));
    assert!(get_composition_exclusion(ch(0x2ADC)));
    assert!(get_composition_exclusion(ch(0xFB1D)));
    assert!(get_composition_exclusion(ch(0x1D15E)));
    assert!(!get_composition_exclusion('A'));
    assert!(!get_composition_exclusion(ch(0x10FFFF)));
}

#[test]
fn id_compat_math_starts() {
    assert!(get_id_compat_math_start(ch(0x2202)));
    assert!(get_id_compat_math_start(ch(0x2207)));
    assert!(get_id_compat_math_start(ch(0x221E)));
    assert!(get_id_compat_math_start(ch(0x1D6C1)));
    assert!(!get_id_compat_math_start('A'));
    assert!(!get_id_compat_math_start(ch(0x10FFFF)));
}

#[test]
fn lookups_past_the_index_use_its_last_entry() {
    // Every table's index stops before the end of the code-point range; the
    // code points past it share the last entry, which holds no property here.
    for cp in (0x30000u32..0x110000).step_by(0x101) {
        if let Some(c) = char::from_u32(cp) {
            assert!(!get_radical(c));
            assert!(!get_dash(c));
            assert!(!get_composition_exclusion(c));
            assert!(!get_id_compat_math_start(c));
        }
    }
}

#[test]
fn property_counts_over_all_code_points() {
    let mut counts = [0usize; 4];
    for cp in 0u32..0x110000 {
        if let Some(c) = char::from_u32(cp) {
            counts[0] += get_radical(c) as usize;
            counts[1] += get_dash(c) as usize;
            counts[2] += get_composition_exclusion(c) as usize;
            counts[3] += get_id_compat_math_start(c) as usize;
        }
    }
    assert_eq!(counts, [329, 31, 81, 13]);
}
