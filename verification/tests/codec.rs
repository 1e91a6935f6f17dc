use mf4_parse::data_serde::{
    bytes_and_bits, from_u8_vec, parse_be_value, parse_le_value, reverse_bytes_array,
    right_shift_bytes, right_shift_bytes_inplace, UTF16String,
};
use mf4_parse::float_bits::{real_equal, real_is_nan, real_less, real_less_eq};

#[test]
fn test_u8_from_le_bytes() {
    let cursor = vec![0x12u8];
    assert_eq!(0x12u8, parse_le_value::<u8>(&cursor));
}

#[test]
fn test_u16_from_le_bytes() {
    let cursor = vec![0x12u8, 0x34];
    assert_eq!(0x3412u16, parse_le_value::<u16>(&cursor));
}

#[test]
fn test_f32_from_le_bytes() {
    let cursor = vec![0x00u8, 0x00, 0x48, 0x41];
    assert_eq!(12.5f32, f32::from_bits(parse_le_value::<u32>(&cursor)));
}

#[test]
fn test_f32_from_be_bytes() {
    let cursor = vec![0x41u8, 0x48, 0x00, 0x00];
    assert_eq!(12.5f32, f32::from_bits(parse_be_value::<u32>(&cursor)));
}

#[test]
fn test_f64_from_be_bytes() {
    let cursor = vec![0x41u8, 0x48, 0x00, 0x00, 0x00, 0x00, 0x00, 0x00];
    assert_eq!(3145728.0f64, f64::from_bits(parse_be_value::<u64>(&cursor)));
}

#[test]
fn test_right_shift_fn() {
    let mut a: Vec<u8> = vec![0x01u8, 0x02, 0x03, 0x04];
    let b = vec![0x01u8, 0x02, 0x03, 0x04];
    right_shift_bytes_inplace(&mut a, 3).unwrap();
    assert_eq!(vec![64, 96, 128, 0], a);
    let new = right_shift_bytes(&b, 3).unwrap();
    assert_eq!(vec![64, 96, 128, 0], new);
}

#[test]
fn test_bytes_fn() {
    let mut a: Vec<u8> = vec![0x01u8, 0x02, 0xff, 0xff];
    bytes_and_bits(&mut a, 23);
    assert_eq!(vec![0x01u8, 0x02, 0x7f, 0x00], a);
    reverse_bytes_array(&mut a);
    assert_eq!(vec![0x00u8, 0x7f, 0x02, 0x01], a);
}

#[test]
fn shift_outside_one_to_seven_is_refused() {
    let b = vec![1u8, 2];
    assert!(right_shift_bytes(&b, 0).is_err());
    assert!(right_shift_bytes(&b, 8).is_err());
    let mut a = vec![1u8, 2];
    assert!(right_shift_bytes_inplace(&mut a, 0).is_err());
    assert!(right_shift_bytes_inplace(&mut a, 9).is_err());
    assert_eq!(a, vec![1u8, 2]);
}

#[test]
fn signed_and_wide_integers_in_both_orders() {
    assert_eq!(parse_le_value::<i8>(&[0xff]), -1i8);
    assert_eq!(parse_be_value::<i8>(&[0x80]), -128i8);
    assert_eq!(parse_le_value::<i16>(&[0xfe, 0xff]), -2i16);
    assert_eq!(parse_be_value::<i16>(&[0xff, 0xfe]), -2i16);
    assert_eq!(parse_le_value::<u32>(&[1, 2, 3, 4]), 0x04030201u32);
    assert_eq!(parse_be_value::<u32>(&[1, 2, 3, 4]), 0x01020304u32);
    assert_eq!(parse_le_value::<i32>(&[0xff, 0xff, 0xff, 0x7f]), i32::MAX);
    assert_eq!(parse_be_value::<i32>(&[0x80, 0, 0, 0]), i32::MIN);
    assert_eq!(parse_le_value::<u64>(&[1, 2, 3, 4, 5, 6, 7, 8]), 0x0807060504030201u64);
    assert_eq!(parse_be_value::<u64>(&[1, 2, 3, 4, 5, 6, 7, 8]), 0x0102030405060708u64);
    assert_eq!(parse_le_value::<i64>(&[0xff; 8]), -1i64);
    assert_eq!(parse_be_value::<i64>(&[0x80, 0, 0, 0, 0, 0, 0, 0]), i64::MIN);
    assert_eq!(parse_be_value::<u16>(&[0x12, 0x34]), 0x1234u16);
    assert_eq!(parse_be_value::<u8>(&[7]), 7u8);
}

#[test]
fn text_in_utf8_and_utf16() {
    assert_eq!(parse_le_value::<String>(b"abc"), "abc".to_string());
    assert_eq!(parse_le_value::<String>(&[0xff, 0xfe]), "ERROR during parsing LB STRING".to_string());
    assert_eq!(parse_be_value::<String>(b"cba"), "abc".to_string());
    let le: UTF16String = parse_le_value(&[0x41, 0x00, 0x42, 0x00]);
    assert_eq!(le.inner, "AB");
    let be: UTF16String = parse_be_value(&[0x00, 0x41, 0x00, 0x42]);
    assert_eq!(be.inner, "AB");
}

#[test]
fn units_from_pairs_of_bytes() {
    assert_eq!(from_u8_vec(&vec![1, 2, 3, 4]).unwrap(), vec![0x0201u16, 0x0403]);
    assert!(from_u8_vec(&vec![1, 2, 3]).is_err());
    assert_eq!(from_u8_vec(&vec![]).unwrap(), Vec::<u16>::new());
}

#[test]
fn mask_keeps_whole_bytes_below_the_bit_count() {
    let mut a = vec![0xffu8, 0xff, 0xff];
    bytes_and_bits(&mut a, 8);
    assert_eq!(a, vec![0xff, 0x00, 0x00]);
    let mut b = vec![0xffu8, 0xff];
    bytes_and_bits(&mut b, 16);
    assert_eq!(b, vec![0xff, 0xff]);
    let mut c = vec![0xffu8, 0xff];
    bytes_and_bits(&mut c, 0);
    assert_eq!(c, vec![0, 0]);
    let mut d: Vec<u8> = vec![];
    reverse_bytes_array(&mut d);
    assert_eq!(d, Vec::<u8>::new());
}

#[test]
fn shift_right_then_left_gives_back_a_run_with_clear_low_bits() {
    // 0x0403_0208 has its three lowest bits clear.
    let b = vec![0x08u8, 0x02, 0x03, 0x04];
    let r = right_shift_bytes(&b, 3).unwrap();
    let mut back = vec![0u8; 4];
    for i in 0..4 {
        let lo = if i >= 1 { r[i - 1] } else { 0 };
        back[i] = (r[i] << 3) | (lo >> 5);
    }
    assert_eq!(back, b);
}

#[test]
fn doubles_compare_by_their_bits_as_they_do_by_value() {
    let samples: [f64; 14] = [
        0.0,
        -0.0,
        1.0,
        -1.0,
        0.5,
        -0.5,
        1e300,
        -1e300,
        f64::MIN_POSITIVE,
        f64::INFINITY,
        f64::NEG_INFINITY,
        f64::NAN,
        105.1,
        105.0,
    ];
    for a in samples {
        for b in samples {
            assert_eq!(real_less(a.to_bits(), b.to_bits()), a < b);
            assert_eq!(real_less_eq(a.to_bits(), b.to_bits()), a <= b);
            assert_eq!(real_equal(a.to_bits(), b.to_bits()), a == b);
        }
        assert_eq!(real_is_nan(a.to_bits()), a.is_nan());
    }
}
