use seahorse::number::{is_float, parse_int};

#[test]
fn integers_read_as_the_standard_library_reads_them() {
    let cases = [
        "0", "7", "100", "-100", "+100", "000123", "-0", "+0", "", "+", "-", "--1", "+-1", "1 ",
        " 1", "1_000", "0x10", "12a", "a12", "1.0", "١٢", "9223372036854775807",
        "9223372036854775808", "-9223372036854775808", "-9223372036854775809",
        "2147483647", "2147483648", "-2147483648", "-2147483649",
        "99999999999999999999999999999999999999999", "00000000000000000000000000000000000001",
    ];
    for s in cases {
        assert_eq!(parse_int(s), s.parse::<isize>().ok(), "on {:?}", s);
    }
}

#[test]
fn an_integer_has_its_decimal_value() {
    assert_eq!(parse_int("42"), Some(42));
    assert_eq!(parse_int("-42"), Some(-42));
    assert_eq!(parse_int("+42"), Some(42));
    assert_eq!(parse_int("notanumber"), None);
    assert_eq!(parse_int(&isize::MAX.to_string()), Some(isize::MAX));
    assert_eq!(parse_int(&isize::MIN.to_string()), Some(isize::MIN));
}

#[test]
fn float_literals_are_those_that_the_standard_library_reads() {
    let cases = [
        "1.23", "0", "1", "-1", "+1", "1.", ".5", "-.5", "+.5", ".", "", "+", "-", "e5", "1e5",
        "1E5", "1e+5", "1e-5", "1e", "1e+", "1e-", "1.e5", ".e5", ".5e3", "1.5e3", "1.5e3.2",
        "1..5", "1.5.", "inf", "INF", "Inf", "+inf", "-inf", "infinity", "Infinity", "-INFINITY",
        "infinit", "infinityy", "in", "nan", "NaN", "NAN", "-nan", "+nan", "nane", "n", " 1.0",
        "1.0 ", "1,5", "1_0.0", "0x1p3", "1f", "1.0f64", "--1", "+-1", "1e1000", "1e-1000",
        "1e99999999999999999999", "00000.00000", "123456789012345678901234567890.5",
        "invalid", "١.٢", "ınf", "1e٥", "İnf",
    ];
    for s in cases {
        assert_eq!(is_float(s), s.parse::<f64>().is_ok(), "on {:?}", s);
    }
}

#[test]
fn float_literals_by_example() {
    assert!(is_float("1.23"));
    assert!(is_float("-1e-3"));
    assert!(is_float("NaN"));
    assert!(!is_float("invalid"));
    assert!(!is_float("."));
    assert!(!is_float(""));
}
