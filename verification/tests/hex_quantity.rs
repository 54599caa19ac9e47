use evm_tools::evm_trace::U64Hex;
use evm_tools::hex_quantity::{parse_hex_quantity, HexError};

#[test]
fn reads_a_prefixed_quantity() {
    assert_eq!(parse_hex_quantity("0x1b4"), Ok(436));
    assert_eq!(parse_hex_quantity("0x0"), Ok(0));
    assert_eq!(parse_hex_quantity("0x00ff"), Ok(255));
}

#[test]
fn digits_of_either_case_and_any_prefix() {
    assert_eq!(parse_hex_quantity("0XAbC"), Ok(0xabc));
    assert_eq!(parse_hex_quantity("zz10"), Ok(16));
}

#[test]
fn no_digits_is_empty() {
    assert_eq!(parse_hex_quantity("0x"), Err(HexError::Empty));
}

#[test]
fn signs_follow_from_str_radix() {
    assert_eq!(parse_hex_quantity("0x+ff"), Ok(255));
    assert_eq!(parse_hex_quantity("0x+"), Err(HexError::InvalidDigit));
    assert_eq!(parse_hex_quantity("0x-"), Err(HexError::InvalidDigit));
    assert_eq!(parse_hex_quantity("0x-1"), Err(HexError::InvalidDigit));
}

#[test]
fn invalid_digit_is_refused() {
    assert_eq!(parse_hex_quantity("0x12g4"), Err(HexError::InvalidDigit));
    assert_eq!(parse_hex_quantity("0x 1"), Err(HexError::InvalidDigit));
}

#[test]
fn the_largest_u64_and_one_more() {
    assert_eq!(parse_hex_quantity("0xffffffffffffffff"), Ok(u64::MAX));
    assert_eq!(parse_hex_quantity("0x10000000000000000"), Err(HexError::Overflow));
    assert_eq!(parse_hex_quantity("0x0000000000000000001"), Ok(1));
}

#[test]
fn overflow_before_a_later_bad_digit() {
    assert_eq!(parse_hex_quantity("0x10000000000000000g"), Err(HexError::Overflow));
}

#[test]
fn agrees_with_from_str_radix() {
    for s in ["0x1", "0xdeadBEEF", "0x+7", "0x", "0x-", "0x1q", "0x123456789abcdef01"] {
        let expected = u64::from_str_radix(&s[2..], 16);
        let got = parse_hex_quantity(s);
        assert_eq!(got.is_ok(), expected.is_ok(), "{}", s);
        if let Ok(v) = expected {
            assert_eq!(got, Ok(v));
        }
    }
}

#[test]
fn gas_amount_from_prefixed_hex() {
    assert_eq!(U64Hex::from_prefixed_hex("0x5f5e100"), Ok(U64Hex(100_000_000)));
    assert_eq!(U64Hex::from_prefixed_hex("0xq"), Err(HexError::InvalidDigit));
}
