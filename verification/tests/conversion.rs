use payload_decoder::{array_to_decimal, Scaled};

fn as_f64(value: &Scaled) -> f64 {
    let raw = match value.to_i128() {
        Some(raw) => raw as f64,
        None => {
            let magnitude =
                value.magnitude.iter().fold(0.0_f64, |acc, byte| acc * 256.0 + f64::from(*byte));
            if value.negative {
                -magnitude
            } else {
                magnitude
            }
        }
    };
    raw / f64::from(value.divisor)
}

const DIVISORS: [u32; 5] = [1, 2, 10, 100, 1000];

#[test]
fn unsigned_single_byte_is_never_negative() {
    for byte in 0..=255u8 {
        for divisor in DIVISORS {
            let value = array_to_decimal(&[byte], false, divisor);
            assert!(!value.negative);
            assert_eq!(value.magnitude, vec![byte]);
            assert!(as_f64(&value) >= 0.0);
            assert_eq!(as_f64(&value), f64::from(byte) / f64::from(divisor));
        }
    }
}

#[test]
fn unsigned_wide_fields_are_never_negative() {
    let streams: [&[u8]; 5] = [
        &[0xFF, 0xFF],
        &[0x80, 0x00, 0x00, 0x00],
        &[0xFF, 0xFF, 0xFF, 0xFF, 0xFF, 0xFF, 0xFF, 0xFF],
        &[0x80, 0, 0, 0, 0, 0, 0, 0, 0, 0, 0, 0],
        &[0x00, 0x00],
    ];
    for stream in streams {
        let value = array_to_decimal(stream, false, 100);
        assert!(!value.negative);
        assert_eq!(value.magnitude, stream.to_vec());
        assert!(as_f64(&value) >= 0.0);
    }
}

#[test]
fn signed_byte_ff_is_minus_one() {
    for divisor in DIVISORS {
        let value = array_to_decimal(&[0xFF], true, divisor);
        assert_eq!(value, Scaled { negative: true, magnitude: vec![1], divisor });
        assert_eq!(as_f64(&value), -1.0 / f64::from(divisor));
    }
}

#[test]
fn signed_byte_7f_is_127() {
    for divisor in DIVISORS {
        let value = array_to_decimal(&[0x7F], true, divisor);
        assert_eq!(value, Scaled { negative: false, magnitude: vec![127], divisor });
        assert_eq!(as_f64(&value), 127.0 / f64::from(divisor));
    }
}

#[test]
fn signed_byte_80_is_minus_128() {
    for divisor in DIVISORS {
        let value = array_to_decimal(&[0x80], true, divisor);
        assert_eq!(value, Scaled { negative: true, magnitude: vec![128], divisor });
        assert_eq!(as_f64(&value), -128.0 / f64::from(divisor));
    }
}

#[test]
fn signed_byte_covers_the_whole_range() {
    for byte in 0..=255u8 {
        let value = array_to_decimal(&[byte], true, 1);
        let expected = if byte >= 0x80 { f64::from(byte) - 256.0 } else { f64::from(byte) };
        assert_eq!(as_f64(&value), expected);
        assert_eq!(value.negative, byte >= 0x80);
        assert_eq!(value.magnitude.len(), 1);
    }
}

#[test]
fn unsigned_two_bytes_are_big_endian() {
    for divisor in DIVISORS {
        let value = array_to_decimal(&[0x01, 0x00], false, divisor);
        assert_eq!(value, Scaled { negative: false, magnitude: vec![1, 0], divisor });
        assert_eq!(as_f64(&value), 256.0 / f64::from(divisor));
    }
}

#[test]
fn unsigned_two_bytes_match_the_positional_sum() {
    for high in [0u8, 1, 0x7F, 0x80, 0xFF] {
        for low in [0u8, 1, 0x7F, 0x80, 0xFF] {
            let value = array_to_decimal(&[high, low], false, 1);
            assert_eq!(as_f64(&value), 256.0 * f64::from(high) + f64::from(low));
        }
    }
}

#[test]
fn unsigned_four_bytes_are_big_endian() {
    let value = array_to_decimal(&[101, 75, 88, 53], false, 1);
    assert_eq!(as_f64(&value), 1_699_436_597.0);
    assert!(!value.negative);
}

#[test]
fn signed_two_bytes_below_zero() {
    let value = array_to_decimal(&[0xFF, 0x38], true, 100);
    assert_eq!(value, Scaled { negative: true, magnitude: vec![0x00, 0xC8], divisor: 100 });
    assert_eq!(as_f64(&value), -2.0);
}

#[test]
fn signed_two_bytes_above_zero() {
    let value = array_to_decimal(&[0x07, 0xD5], true, 100);
    assert_eq!(value, Scaled { negative: false, magnitude: vec![0x07, 0xD5], divisor: 100 });
    assert_eq!(as_f64(&value), 20.05);
}

#[test]
fn signed_two_bytes_with_a_zero_low_byte() {
    let value = array_to_decimal(&[0xFF, 0x00], true, 1);
    assert_eq!(value, Scaled { negative: true, magnitude: vec![0x01, 0x00], divisor: 1 });
    assert_eq!(as_f64(&value), -256.0);
}

#[test]
fn signed_minimum_of_each_width() {
    let two = array_to_decimal(&[0x80, 0x00], true, 1);
    assert_eq!(two, Scaled { negative: true, magnitude: vec![0x80, 0x00], divisor: 1 });
    assert_eq!(as_f64(&two), -32768.0);
    let four = array_to_decimal(&[0x80, 0, 0, 0], true, 1);
    assert_eq!(as_f64(&four), -2_147_483_648.0);
    let eight = array_to_decimal(&[0x80, 0, 0, 0, 0, 0, 0, 0], true, 1);
    assert_eq!(as_f64(&eight), -9_223_372_036_854_775_808.0);
}

#[test]
fn signed_maximum_of_each_width() {
    let two = array_to_decimal(&[0x7F, 0xFF], true, 1);
    assert_eq!(as_f64(&two), 32767.0);
    assert!(!two.negative);
    let four = array_to_decimal(&[0x7F, 0xFF, 0xFF, 0xFF], true, 1);
    assert_eq!(as_f64(&four), 2_147_483_647.0);
    assert!(!four.negative);
}

#[test]
fn sign_is_taken_from_the_first_byte_only() {
    let value = array_to_decimal(&[0x00, 0x80], true, 1);
    assert_eq!(value, Scaled { negative: false, magnitude: vec![0x00, 0x80], divisor: 1 });
    assert_eq!(as_f64(&value), 128.0);
}

#[test]
fn signed_zero_is_not_negative() {
    let value = array_to_decimal(&[0x00, 0x00], true, 10);
    assert_eq!(value, Scaled { negative: false, magnitude: vec![0, 0], divisor: 10 });
    assert_eq!(as_f64(&value), 0.0);
}

#[test]
fn signed_all_ones_is_minus_one_at_any_width() {
    for width in 1..=20usize {
        let stream = vec![0xFFu8; width];
        let value = array_to_decimal(&stream, true, 1);
        let mut expected = vec![0u8; width];
        expected[width - 1] = 1;
        assert_eq!(value, Scaled { negative: true, magnitude: expected, divisor: 1 });
        assert_eq!(as_f64(&value), -1.0);
    }
}

#[test]
fn fields_wider_than_a_machine_word_are_kept_exactly() {
    let unsigned = array_to_decimal(&[1, 0, 0, 0, 0, 0, 0, 0, 0], false, 1);
    assert_eq!(unsigned.magnitude, vec![1, 0, 0, 0, 0, 0, 0, 0, 0]);
    assert_eq!(as_f64(&unsigned), 18_446_744_073_709_551_616.0);
    let signed = array_to_decimal(&[0xFF, 0, 0, 0, 0, 0, 0, 0, 0, 0], true, 1);
    assert_eq!(
        signed,
        Scaled { negative: true, magnitude: vec![1, 0, 0, 0, 0, 0, 0, 0, 0, 0], divisor: 1 }
    );
}

#[test]
fn negation_carries_through_inner_zero_bytes() {
    let value = array_to_decimal(&[0xFE, 0x00, 0x03, 0x00], true, 1);
    assert_eq!(
        value,
        Scaled { negative: true, magnitude: vec![0x01, 0xFF, 0xFD, 0x00], divisor: 1 }
    );
    assert_eq!(as_f64(&value), -33_553_664.0);
}

#[test]
fn divisor_is_carried_unchanged() {
    let value = array_to_decimal(&[0x00, 0x63], false, u32::MAX);
    assert_eq!(value.divisor, u32::MAX);
    let halved = array_to_decimal(&[99], false, 2);
    assert_eq!(as_f64(&halved), 49.5);
}

#[test]
fn raw_integer_of_small_fields() {
    assert_eq!(array_to_decimal(&[0xFF], true, 1).to_i128(), Some(-1));
    assert_eq!(array_to_decimal(&[0x7F], true, 1).to_i128(), Some(127));
    assert_eq!(array_to_decimal(&[0x80], true, 1).to_i128(), Some(-128));
    assert_eq!(array_to_decimal(&[0xFF], false, 1).to_i128(), Some(255));
    assert_eq!(array_to_decimal(&[0x01, 0x00], false, 7).to_i128(), Some(256));
    assert_eq!(array_to_decimal(&[0xFF, 0x38], true, 100).to_i128(), Some(-200));
    assert_eq!(array_to_decimal(&[0x07, 0xD5], true, 100).to_i128(), Some(2005));
    assert_eq!(array_to_decimal(&[101, 75, 88, 53], false, 1).to_i128(), Some(1_699_436_597));
    assert_eq!(array_to_decimal(&[0x80, 0, 0, 0], true, 1).to_i128(), Some(-2_147_483_648));
    assert_eq!(array_to_decimal(&[0x80, 0, 0, 0], false, 1).to_i128(), Some(2_147_483_648));
}

#[test]
fn raw_integer_of_every_two_byte_field() {
    for high in 0..=255u8 {
        for low in 0..=255u8 {
            let unsigned = i128::from(high) * 256 + i128::from(low);
            let signed = if high >= 0x80 { unsigned - 65536 } else { unsigned };
            assert_eq!(array_to_decimal(&[high, low], false, 1).to_i128(), Some(unsigned));
            assert_eq!(array_to_decimal(&[high, low], true, 1).to_i128(), Some(signed));
        }
    }
}

#[test]
fn raw_integer_at_the_limits_of_a_machine_integer() {
    let mut largest = vec![0xFFu8; 16];
    largest[0] = 0x7F;
    assert_eq!(array_to_decimal(&largest, false, 1).to_i128(), Some(i128::MAX));
    assert_eq!(array_to_decimal(&largest, true, 1).to_i128(), Some(i128::MAX));

    let mut smallest = vec![0u8; 16];
    smallest[0] = 0x80;
    assert_eq!(array_to_decimal(&smallest, true, 1).to_i128(), Some(i128::MIN));
    assert_eq!(array_to_decimal(&smallest, false, 1).to_i128(), None);

    let all_ones = vec![0xFFu8; 16];
    assert_eq!(array_to_decimal(&all_ones, true, 1).to_i128(), Some(-1));
    assert_eq!(array_to_decimal(&all_ones, false, 1).to_i128(), None);
}

#[test]
fn raw_integer_of_fields_wider_than_a_machine_integer() {
    let mut one_more = vec![0u8; 17];
    one_more[0] = 0x01;
    assert_eq!(array_to_decimal(&one_more, false, 1).to_i128(), None);

    let mut small = vec![0u8; 20];
    small[19] = 5;
    assert_eq!(array_to_decimal(&small, false, 1).to_i128(), Some(5));
    assert_eq!(array_to_decimal(&small, true, 1).to_i128(), Some(5));

    let mut lowest = vec![0u8; 17];
    lowest[0] = 0xFF;
    lowest[1] = 0x80;
    assert_eq!(array_to_decimal(&lowest, true, 1).to_i128(), Some(i128::MIN));

    let mut too_low = vec![0xFFu8; 17];
    too_low[1] = 0x7F;
    assert_eq!(array_to_decimal(&too_low, true, 1).to_i128(), None);

    let huge = vec![0xFFu8; 40];
    assert_eq!(array_to_decimal(&huge, false, 1).to_i128(), None);
    assert_eq!(array_to_decimal(&huge, true, 1).to_i128(), Some(-1));
}

#[test]
fn raw_integer_of_a_value_written_by_hand() {
    let zero = Scaled { negative: true, magnitude: vec![0, 0], divisor: 1 };
    assert_eq!(zero.to_i128(), Some(0));
    let empty = Scaled { negative: false, magnitude: vec![], divisor: 1 };
    assert_eq!(empty.to_i128(), Some(0));
    let minus_three = Scaled { negative: true, magnitude: vec![3], divisor: 1 };
    assert_eq!(minus_three.to_i128(), Some(-3));
}
