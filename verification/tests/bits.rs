use logic_gates::bits::{convert_u64_in_bools, flip_bit, set_bit, test_bit, MAX_PINS};

#[test]
fn convert_puts_bit_k_at_index_k() {
    assert_eq!(convert_u64_in_bools(0b101, 3), vec![true, false, true]);
    assert_eq!(convert_u64_in_bools(0b110, 3), vec![false, true, true]);
    assert_eq!(convert_u64_in_bools(0b1, 1), vec![true]);
    assert_eq!(convert_u64_in_bools(0b10, 2), vec![false, true]);
}

#[test]
fn convert_pads_with_low_levels() {
    assert_eq!(convert_u64_in_bools(0, 4), vec![false; 4]);
    assert_eq!(convert_u64_in_bools(0b1, 4), vec![true, false, false, false]);
}

#[test]
fn convert_reads_only_the_asked_width() {
    assert_eq!(convert_u64_in_bools(0b1110, 1), vec![false]);
    assert_eq!(convert_u64_in_bools(0b1111, 2), vec![true, true]);
    assert_eq!(convert_u64_in_bools(u64::MAX, 0), Vec::<bool>::new());
}

#[test]
fn convert_full_width() {
    assert_eq!(MAX_PINS, 64);
    assert_eq!(convert_u64_in_bools(u64::MAX, 64), vec![true; 64]);
    let top = convert_u64_in_bools(1 << 63, 64);
    assert_eq!(top.len(), 64);
    assert!(top[63]);
    assert!(top[..63].iter().all(|level| !level));
}

#[test]
fn test_bit_reads_one_bit() {
    assert!(test_bit(0b100, 2));
    assert!(!test_bit(0b100, 1));
    assert!(test_bit(u64::MAX, 63));
    assert!(!test_bit(0, 0));
}

#[test]
fn set_bit_changes_one_bit() {
    assert_eq!(set_bit(0, 3, true), 0b1000);
    assert_eq!(set_bit(0b1000, 3, true), 0b1000);
    assert_eq!(set_bit(0b1111, 2, false), 0b1011);
    assert_eq!(set_bit(0b1011, 2, false), 0b1011);
    assert_eq!(set_bit(0, 63, true), 1 << 63);
}

#[test]
fn flip_bit_inverts_one_bit() {
    assert_eq!(flip_bit(0b11, 0), 0b10);
    assert_eq!(flip_bit(0b10, 0), 0b11);
    assert_eq!(flip_bit(0, 63), 1 << 63);
    assert_eq!(flip_bit(flip_bit(0xdead_beef, 17), 17), 0xdead_beef);
}

#[test]
fn convert_beyond_the_mask_is_low() {
    let levels = convert_u64_in_bools(u64::MAX, 70);
    assert_eq!(levels.len(), 70);
    assert!(levels[..64].iter().all(|level| *level));
    assert!(levels[64..].iter().all(|level| !level));
}
