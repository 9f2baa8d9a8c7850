use parity_ethcore::args::{Args, FromHexError};
use parity_ethcore::sort::sort_words;
use parity_ethcore::u256::U256;

#[test]
fn from_big_endian_short_and_long() {
    assert_eq!(U256::from_big_endian(&[]), U256::zero());
    assert_eq!(U256::from_big_endian(&[1, 0]), U256::from_u64(256));
    let mut b = vec![0u8; 32];
    b[15] = 1;
    b[31] = 2;
    assert_eq!(U256::from_big_endian(&b), U256 { hi: 1, lo: 2 });
    assert_eq!(U256::from_big_endian(&[0xff; 32]), U256::max());
    let mut c = vec![0u8; 17];
    c[0] = 3;
    assert_eq!(U256::from_big_endian(&c), U256 { hi: 3, lo: 0 });
}

#[test]
fn order_by_high_then_low_half() {
    let a = U256 { hi: 0, lo: u128::MAX };
    let b = U256 { hi: 1, lo: 0 };
    assert!(a.lt(&b));
    assert!(!b.lt(&a));
    assert!(a.le(&a));
    assert!(!a.lt(&a));
    assert!(U256::zero().le(&U256::max()));
}

#[test]
fn overflowing_sub_exact_and_wrapping() {
    let (d, o) = U256::from_u64(10).overflowing_sub(U256::from_u64(3));
    assert_eq!((d, o), (U256::from_u64(7), false));
    let (d, o) = U256 { hi: 1, lo: 0 }.overflowing_sub(U256::from_u64(1));
    assert_eq!((d, o), (U256 { hi: 0, lo: u128::MAX }, false));
    let (d, o) = U256::zero().overflowing_sub(U256::from_u64(1));
    assert_eq!((d, o), (U256::max(), true));
    let (d, o) = U256::max().overflowing_sub(U256::max());
    assert_eq!((d, o), (U256::zero(), false));
}

#[test]
fn u256_from_hex_text() {
    assert_eq!(U256::from_str("1000"), Ok(U256::from_u64(0x1000)));
    assert_eq!(U256::from_str("abc"), Ok(U256::from_u64(0xabc)));
    assert_eq!(U256::from_str("ABCDEF"), Ok(U256::from_u64(0xabcdef)));
    assert_eq!(U256::from_str(""), Ok(U256::zero()));
    assert_eq!(U256::from_str("12 345 6"), Ok(U256::from_u64(0x123456)));
    // whitespace counts toward the length that decides the padding
    assert_eq!(U256::from_str("12 34"), Err(FromHexError::InvalidHexLength));
    assert_eq!(U256::from_str(&"f".repeat(64)), Ok(U256::max()));
}

#[test]
fn u256_from_hex_text_errors() {
    assert_eq!(U256::from_str("12xz"), Err(FromHexError::InvalidHexCharacter('x', 2)));
    // odd byte length gets a leading zero, which makes the digit count odd here
    assert_eq!(U256::from_str("a b"), Err(FromHexError::InvalidHexLength));
}

#[test]
fn hex_fits_up_to_thirty_two_bytes() {
    assert!(U256::hex_fits(&"f".repeat(64)));
    assert!(!U256::hex_fits(&"f".repeat(65)));
    assert!(U256::hex_fits("not hex"));
}

fn args(code: Option<&str>, gas: Option<&str>, input: Option<&str>) -> Args {
    Args {
        cmd_stats: true,
        flag_code: code.map(|s| s.to_string()),
        flag_gas: gas.map(|s| s.to_string()),
        flag_input: input.map(|s| s.to_string()),
    }
}

#[test]
fn args_gas_parses_hex_or_defaults_to_max() {
    assert_eq!(args(None, Some("ff"), None).gas(), U256::from_u64(255));
    assert_eq!(args(None, Some("10000"), None).gas(), U256::from_u64(0x10000));
    assert_eq!(args(None, None, None).gas(), U256::max());
    assert_eq!(args(None, Some("zz"), None).gas(), U256::max());
}

#[test]
fn args_gas_in_range() {
    assert!(args(None, None, None).gas_in_range());
    assert!(args(None, Some("ff"), None).gas_in_range());
    assert!(!args(None, Some(&"1".repeat(66)), None).gas_in_range());
}

#[test]
fn args_code_and_data() {
    let a = args(Some("6001600101"), None, Some("00ff"));
    assert_eq!(a.code(), Some(vec![0x60, 0x01, 0x60, 0x01, 0x01]));
    assert_eq!(a.data(), Some(vec![0x00, 0xff]));
    let b = args(None, None, Some("abc"));
    assert_eq!(b.code(), None);
    assert_eq!(b.data(), None);
    let c = args(Some("6g"), None, None);
    assert_eq!(c.code(), None);
}

#[test]
fn sort_words_ascending_with_duplicates() {
    let v: Vec<U256> = [7u64, 3, 9, 3, 0, 7].iter().map(|&x| U256::from_u64(x)).collect();
    let s: Vec<U256> = [0u64, 3, 3, 7, 7, 9].iter().map(|&x| U256::from_u64(x)).collect();
    assert_eq!(sort_words(&v), s);
    assert_eq!(sort_words(&Vec::new()), Vec::<U256>::new());
}
