use rust_map::key::{get_abs_diff, get_index, half_point, key_eq, key_lt, subtract_with_borrow};

#[test]
fn index_reads_two_bits_at_a_time() {
    let key = [0b0001_1011u8, 0b1110_0100u8];
    let expected = [0, 1, 2, 3, 3, 2, 1, 0];
    for (depth, want) in expected.iter().enumerate() {
        assert_eq!(get_index(key, depth), *want);
    }
}

#[test]
fn subtraction_borrows_across_bytes() {
    assert_eq!(subtract_with_borrow(&[1, 0, 0], &[0, 0, 1]), [0, 255, 255]);
    assert_eq!(subtract_with_borrow(&[0, 0, 1], &[1, 0, 0]), [255, 0, 1]);
    assert_eq!(subtract_with_borrow(&[5, 5], &[5, 5]), [0, 0]);
    assert_eq!(subtract_with_borrow(&[0, 0], &[0, 1]), [255, 255]);
    assert_eq!(subtract_with_borrow(&[2, 0], &[1, 255]), [0, 1]);
}

#[test]
fn distance_takes_shorter_way_round() {
    assert_eq!(get_abs_diff([0, 0], [255, 255]), [0, 1]);
    assert_eq!(get_abs_diff([255, 255], [0, 0]), [0, 1]);
    assert_eq!(get_abs_diff([0, 10], [0, 3]), [0, 7]);
    assert_eq!(get_abs_diff([0, 3], [0, 10]), [0, 7]);
    assert_eq!(get_abs_diff([7, 7], [7, 7]), [0, 0]);
    assert_eq!(get_abs_diff([0, 0], [128, 0]), [128, 0]);
    assert_eq!(get_abs_diff([128, 0], [0, 0]), [128, 0]);
    assert_eq!(get_abs_diff([0, 0], [128, 1]), [127, 255]);
    assert_eq!(get_abs_diff([0u8; 0], [0u8; 0]), [0u8; 0]);
}

#[test]
fn half_point_is_top_bit() {
    assert_eq!(half_point::<4>(), [128, 0, 0, 0]);
    assert_eq!(half_point::<1>(), [128]);
    assert_eq!(half_point::<0>(), [0u8; 0]);
}

#[test]
fn order_is_big_endian() {
    assert!(key_lt(&[0, 255], &[1, 0]));
    assert!(!key_lt(&[1, 0], &[0, 255]));
    assert!(!key_lt(&[3, 3], &[3, 3]));
    assert!(key_eq(&[3, 3], &[3, 3]));
    assert!(!key_eq(&[3, 3], &[3, 4]));
}
