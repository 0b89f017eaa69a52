use x80::number::parse_number;

#[test]
fn decimal_numbers() {
    assert_eq!(parse_number("80"), Some(80));
    assert_eq!(parse_number("0"), Some(0));
    assert_eq!(parse_number("-5"), Some(-5));
    assert_eq!(parse_number("+7"), Some(7));
    assert_eq!(parse_number("2147483647"), Some(2147483647));
    assert_eq!(parse_number("-2147483648"), Some(-2147483648));
}

#[test]
fn decimal_out_of_range_is_no_number() {
    assert_eq!(parse_number("2147483648"), None);
}

#[test]
fn hexadecimal_numbers() {
    assert_eq!(parse_number("0x80"), Some(0x80));
    assert_eq!(parse_number("0xFF"), Some(255));
    assert_eq!(parse_number("0xff"), Some(255));
    assert_eq!(parse_number("0x8000"), Some(0x8000));
    assert_eq!(parse_number("0x-1"), Some(-1));
}

#[test]
fn binary_numbers() {
    assert_eq!(parse_number("00000101b"), Some(5));
    assert_eq!(parse_number("11111111b"), Some(255));
    assert_eq!(parse_number("1000000000000001b"), Some(0x8001));
}

#[test]
fn binary_needs_eight_or_sixteen_digits() {
    assert_eq!(parse_number("101b"), None);
    assert_eq!(parse_number("000000101b"), None);
}

#[test]
fn names_are_no_numbers() {
    assert_eq!(parse_number("start"), None);
    assert_eq!(parse_number("0x"), None);
    assert_eq!(parse_number(""), None);
    assert_eq!(parse_number("-"), None);
    assert_eq!(parse_number("+"), None);
    assert_eq!(parse_number("12ab"), None);
    assert_eq!(parse_number("0xg1"), None);
}

#[test]
fn decimal_round_trip_examples() {
    for x in [0i32, 7, -7, 100, 65535, i32::MAX, i32::MIN] {
        assert_eq!(parse_number(&x.to_string()), Some(x));
    }
}
