//! Digits of scalars and sizes of windows.

use msm::{get_booth_index, get_field_sign, window_size};

#[test]
fn booth_digits_of_three_bits() {
    // window 1 of three bits begins at bit 2
    let wanted = [0, 1, 1, 2, 2, 3, 3, 4, -4, -3, -3, -2, -2, -1, -1, 0];
    for (bits, digit) in wanted.iter().enumerate() {
        assert_eq!(get_booth_index(1, 3, &[(bits << 2) as u8, 0]), *digit);
    }
}

#[test]
fn lowest_window_is_padded() {
    assert_eq!(get_booth_index(0, 3, &[0b101]), -3);
    assert_eq!(get_booth_index(0, 3, &[0b011]), 3);
    assert_eq!(get_booth_index(0, 1, &[1]), -1);
    assert_eq!(get_booth_index(1, 1, &[1]), 1);
    assert_eq!(get_booth_index(0, 30, &[0xff, 0xff, 0xff, 0x3f]), -1);
}

#[test]
fn windows_past_the_end_are_empty() {
    assert_eq!(get_booth_index(9, 8, &[0xff, 0xff]), 0);
    assert_eq!(get_booth_index(2, 8, &[0xff, 0xff]), 1);
    assert_eq!(get_booth_index(0, 8, &[]), 0);
}

#[test]
fn digits_reconstruct_the_scalar() {
    for value in [0u64, 1, 5, 0x80, 0xffff, 0x1234_5678_9abc, 0x7fff_ffff_ffff_ffff] {
        let bytes = value.to_le_bytes();
        for c in 1..25 {
            let mut sum: i128 = 0;
            for w in (0..64 / c + 1).rev() {
                let digit = get_booth_index(w, c, &bytes);
                assert!(digit.unsigned_abs() <= 1 << (c - 1));
                sum = (sum << c) + digit as i128;
            }
            assert_eq!(sum, value as i128);
        }
    }
}

#[test]
fn wider_windows_can_miss_bits() {
    // window 8 of 25 bits begins at bit 199, the last bit of a byte
    let mut bytes = [0u8; 32];
    bytes[28] = 1;
    assert_eq!(get_booth_index(8, 25, &bytes), 0);
    // one byte of the four further down it is seen
    bytes[28] = 0;
    bytes[27] = 1;
    assert_eq!(get_booth_index(8, 25, &bytes), 1 << 16);
}

#[test]
fn sign_is_that_of_the_last_byte() {
    assert!(get_field_sign(&[7, 0]));
    assert!(!get_field_sign(&[0, 1]));
    assert!(get_field_sign(&[0]));
    assert!(!get_field_sign(&[0x80]));
}

#[test]
fn window_sizes_are_rounded_logarithms() {
    assert_eq!(window_size(0), 1);
    assert_eq!(window_size(3), 1);
    assert_eq!(window_size(4), 3);
    assert_eq!(window_size(31), 3);
    assert_eq!(window_size(32), 4);
    assert_eq!(window_size(8103), 9);
    assert_eq!(window_size(8104), 10);
    for k in 4..23 {
        let floor = (k as f64).exp().floor() as usize;
        for n in floor - 2..floor + 3 {
            assert_eq!(window_size(n), (n as f64).ln().ceil() as usize);
        }
    }
    assert_eq!(window_size(u32::MAX as usize), 23);
    // only the low 32 bits count
    assert_eq!(window_size((1 << 32) + 100), 5);
    assert_eq!(window_size(1 << 32), 0);
}
