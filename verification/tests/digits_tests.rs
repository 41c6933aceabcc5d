use fmt_interspersed::digits::u64_to_string;

#[test]
fn test_u64_to_string_values() {
    assert_eq!("0", u64_to_string(0));
    assert_eq!("7", u64_to_string(7));
    assert_eq!("10", u64_to_string(10));
    assert_eq!("123", u64_to_string(123));
    assert_eq!("18446744073709551615", u64_to_string(u64::MAX));
}
