use lenient_u128::{parse_u128, parse_u128_bytes};

#[test]
fn test_parse_u128() {
    assert_eq!(parse_u128("0"), 0);
    assert_eq!(parse_u128("12"), 12);
    assert_eq!(parse_u128("1234567890"), 1234567890);
    assert_eq!(parse_u128(&format!("{}", u128::MAX)), u128::MAX);

    // a long input string must wrap rather than panic
    let big = "zzzzzzzzzzzzzzzzzzzzzzzzzzzzzzzzzzzzzzzzzzzzzzzzzzzzzzzzzzzzzzzzzzzzzzzzzzzzzzzzzzzzzzzzzzzzz";
    let mut s = String::new();
    (0..20).for_each(|_| s += big);
    parse_u128(&s);
}

#[test]
fn empty_input_is_zero() {
    assert_eq!(parse_u128(""), 0);
    assert_eq!(parse_u128_bytes(&[]), 0);
}

#[test]
fn leading_zeros_are_ignored() {
    assert_eq!(parse_u128("007"), 7);
    assert_eq!(parse_u128("0000000000000000000000000000000000000000000042"), 42);
}

#[test]
fn digit_strings_parse_exactly() {
    for n in [0u128, 1, 9, 10, 99, 1000, 123456789012345678901234567890, u128::MAX - 1] {
        assert_eq!(parse_u128(&n.to_string()), n);
    }
}

#[test]
fn non_digit_bytes_wrap_at_eight_bits() {
    // 'z' is 0x7A: 0x7A - 0x30 = 74
    assert_eq!(parse_u128("z"), 74);
    assert_eq!(parse_u128("zz"), 814);
    // '/' is 0x2F: 0x2F - 0x30 wraps to 255
    assert_eq!(parse_u128("/"), 255);
    // ' ' is 0x20: 0x20 - 0x30 wraps to 240
    assert_eq!(parse_u128(" 1"), 2401);
    assert_eq!(parse_u128_bytes(&[0x00]), 208);
    assert_eq!(parse_u128_bytes(&[0xFF]), 207);
}

#[test]
fn multibyte_characters_count_by_their_bytes() {
    // "é" is encoded as 0xC3 0xA9: 147 and 121
    assert_eq!(parse_u128("é"), 1591);
    assert_eq!(parse_u128("é"), parse_u128_bytes(&[0xC3, 0xA9]));
}

#[test]
fn long_non_digit_input_does_not_panic() {
    let zs = "z".repeat(2000);
    let first = parse_u128(&zs);
    assert_eq!(parse_u128(&zs), first);

    let bytes: Vec<u8> = (0..2000usize).map(|i| (i % 256) as u8).collect();
    let first = parse_u128_bytes(&bytes);
    assert_eq!(parse_u128_bytes(&bytes), first);
}

#[test]
fn repeated_calls_agree() {
    for s in ["", "0", "12", "hello, world", "99999999999999999999999999999999999999999999"] {
        assert_eq!(parse_u128(s), parse_u128(s));
        assert_eq!(parse_u128(s), parse_u128_bytes(s.as_bytes()));
    }
}

#[test]
fn overflow_wraps_modulo_two_to_the_128() {
    // 2^128 and 2^128 + 1
    assert_eq!(parse_u128("340282366920938463463374607431768211456"), 0);
    assert_eq!(parse_u128("340282366920938463463374607431768211457"), 1);
    assert_eq!(parse_u128("0340282366920938463463374607431768211457"), 1);
    // 10^39 = 2 * 2^128 + 319435266158123073073250785136463577088
    let ten_pow_39 = format!("1{}", "0".repeat(39));
    assert_eq!(parse_u128(&ten_pow_39), 319435266158123073073250785136463577088);
    assert_eq!(parse_u128(&ten_pow_39), 10u128.wrapping_pow(39));
    // 10^60 reduced modulo 2^128, step by step
    let ten_pow_60 = format!("1{}", "0".repeat(60));
    assert_eq!(parse_u128(&ten_pow_60), 10u128.wrapping_pow(60));
}
