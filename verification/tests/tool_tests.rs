use kmeans::tool::parse_number;

#[test]
fn parses_a_typed_count() {
    assert_eq!(parse_number("12\n"), Some(12));
    assert_eq!(parse_number("  +7 \r\n"), Some(7));
    assert_eq!(parse_number("\u{3000}0042\u{a0}"), Some(42));
    assert_eq!(parse_number("18446744073709551615"), Some(usize::MAX));
}

#[test]
fn refuses_what_is_not_a_count() {
    assert_eq!(parse_number(""), None);
    assert_eq!(parse_number("   \n"), None);
    assert_eq!(parse_number("+"), None);
    assert_eq!(parse_number("-3"), None);
    assert_eq!(parse_number("1 2"), None);
    assert_eq!(parse_number("x9"), None);
    assert_eq!(parse_number("18446744073709551616"), None);
    assert_eq!(parse_number("99999999999999999999999x"), None);
}

#[test]
fn agrees_with_std_parse() {
    for s in ["0", " 5 ", "+10", "++1", "1_0", "\t3\t", "007", "", "-0", "12a"] {
        assert_eq!(parse_number(s), s.trim().parse::<usize>().ok(), "{:?}", s);
    }
}
