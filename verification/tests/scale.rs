use voxel_terrain::scale::{bit_of, checked_raise, floor_shift};

#[test]
fn floor_shift_by_zero_is_identity() {
    assert_eq!(floor_shift(5, 0), 5);
    assert_eq!(floor_shift(-5, 0), -5);
    assert_eq!(floor_shift(i32::MIN, 0), i32::MIN);
    assert_eq!(floor_shift(i32::MAX, 0), i32::MAX);
}

#[test]
fn floor_shift_rounds_toward_negative_infinity() {
    assert_eq!(floor_shift(7, 3), 0);
    assert_eq!(floor_shift(8, 3), 1);
    assert_eq!(floor_shift(15, 3), 1);
    assert_eq!(floor_shift(-1, 3), -1);
    assert_eq!(floor_shift(-8, 3), -1);
    assert_eq!(floor_shift(-9, 3), -2);
    assert_eq!(floor_shift(-16, 3), -2);
    assert_eq!(floor_shift(-17, 3), -3);
}

#[test]
fn floor_shift_at_the_width_of_the_type() {
    assert_eq!(floor_shift(i32::MIN, 30), -2);
    assert_eq!(floor_shift(i32::MAX, 30), 1);
    assert_eq!(floor_shift(i32::MIN, 31), -1);
    assert_eq!(floor_shift(i32::MAX, 31), 0);
    assert_eq!(floor_shift(-1, 31), -1);
    assert_eq!(floor_shift(0, 31), 0);
}

#[test]
fn floor_shift_beyond_the_width_of_the_type() {
    assert_eq!(floor_shift(i32::MIN, 32), -1);
    assert_eq!(floor_shift(-1, 40), -1);
    assert_eq!(floor_shift(1, 40), 0);
    assert_eq!(floor_shift(i32::MAX, u32::MAX), 0);
    assert_eq!(floor_shift(i32::MIN, u32::MAX), -1);
}

#[test]
fn bit_of_positive_numbers() {
    assert_eq!(bit_of(5, 0), 1);
    assert_eq!(bit_of(5, 1), 0);
    assert_eq!(bit_of(5, 2), 1);
    assert_eq!(bit_of(5, 3), 0);
    assert_eq!(bit_of(5, 31), 0);
    assert_eq!(bit_of(5, 1000), 0);
}

#[test]
fn bit_of_negative_numbers_is_twos_complement() {
    assert_eq!(bit_of(-1, 0), 1);
    assert_eq!(bit_of(-1, 10), 1);
    assert_eq!(bit_of(-1, 31), 1);
    assert_eq!(bit_of(-1, 100), 1);
    assert_eq!(bit_of(-2, 0), 0);
    assert_eq!(bit_of(-2, 1), 1);
    assert_eq!(bit_of(-3, 1), 0);
    assert_eq!(bit_of(i32::MIN, 30), 0);
    assert_eq!(bit_of(i32::MIN, 31), 1);
}

#[test]
fn checked_raise_doubles_level_by_level() {
    assert_eq!(checked_raise(5, 0), Some(5));
    assert_eq!(checked_raise(5, 3), Some(40));
    assert_eq!(checked_raise(-5, 3), Some(-40));
    assert_eq!(checked_raise(0, u32::MAX), Some(0));
    assert_eq!(checked_raise(1, 30), Some(1_073_741_824));
    assert_eq!(checked_raise(-1, 31), Some(i32::MIN));
}

#[test]
fn checked_raise_stops_where_32_bits_end() {
    assert_eq!(checked_raise(1, 31), None);
    assert_eq!(checked_raise(-1, 32), None);
    assert_eq!(checked_raise(1, 32), None);
    assert_eq!(checked_raise(i32::MAX, 1), None);
    assert_eq!(checked_raise(i32::MIN, 1), None);
    assert_eq!(checked_raise(1_073_741_823, 1), Some(i32::MAX - 1));
    assert_eq!(checked_raise(-1_073_741_824, 1), Some(i32::MIN));
    assert_eq!(checked_raise(3, u32::MAX), None);
}
