use sudoku::mask::{bit, count, digit, lowest, FULL};

#[test]
fn full_mask_holds_nine_digits() {
    assert_eq!(FULL, 0x1ff);
    assert_eq!(count(FULL), 9);
}

#[test]
fn count_of_the_empty_mask_is_zero() {
    assert_eq!(count(0), 0);
}

#[test]
fn count_matches_the_number_of_bits() {
    assert_eq!(count(0b000000001), 1);
    assert_eq!(count(0b100000000), 1);
    assert_eq!(count(0b100000001), 2);
    assert_eq!(count(0b010101010), 4);
    assert_eq!(count(0b111101111), 8);
    for m in 0..=0x1ff_i32 {
        assert_eq!(count(m), m.count_ones());
    }
}

#[test]
fn lowest_isolates_the_smallest_digit() {
    assert_eq!(lowest(0b000000001), 0b000000001);
    assert_eq!(lowest(0b100000000), 0b100000000);
    assert_eq!(lowest(0b101101000), 0b000001000);
    assert_eq!(lowest(FULL), 1);
    for m in 1..=0x1ff_i32 {
        assert_eq!(lowest(m), 1 << m.trailing_zeros());
    }
}

#[test]
fn bit_of_each_digit() {
    let expected = [1, 2, 4, 8, 16, 32, 64, 128, 256];
    for d in 1..=9u8 {
        assert_eq!(bit(d), expected[(d - 1) as usize]);
    }
}

#[test]
fn digit_of_each_mask() {
    for d in 1..=9u8 {
        assert_eq!(digit(bit(d)), d);
    }
    assert_eq!(digit(0), 0);
    assert_eq!(digit(3), 0);
    assert_eq!(digit(0x1ff), 0);
    assert_eq!(digit(512), 0);
    assert_eq!(digit(-1), 0);
}
