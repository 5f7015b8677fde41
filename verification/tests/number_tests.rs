use vcf_parser::number::Number;

fn number(text: &str) -> Number {
    Number::parse(text).unwrap()
}

#[test]
fn numerals_are_read() {
    assert_eq!(number("10"), number("10.0"));
    assert_eq!(number("10"), number("1e1"));
    assert_eq!(number("10"), number("+0010.000"));
    assert_eq!(number("0.5"), number(".5"));
    assert_eq!(number("5"), number("5."));
    assert_eq!(number("-0.0015"), number("-1.5E-3"));
    assert_eq!(number("0"), number("-0.000e10"));
    assert_eq!(number("0"), number("0e99999999999999999999999999"));
    assert!(number("10") != number("11"));
    assert!(number("1") != number("-1"));
    assert!(number("1e307").is_zero() == false);
    assert!(number("0.0").is_zero());
}

#[test]
fn what_is_no_numeral_is_refused() {
    for text in [
        "", ".", "+", "-", "e5", "1e", "1e+", "1.5.2", "1,5", " 1", "1 ", "0x10", "inf", "nan", "NaN",
        "infinity", "1_000", "--1", "٣",
    ] {
        assert!(Number::parse(text).is_none(), "{}", text);
    }
}

#[test]
fn numbers_out_of_range_are_refused() {
    assert!(Number::parse("1e308").is_none());
    assert!(Number::parse("0.1e308").is_some());
    assert!(Number::parse("9.99e307").is_some());
    assert!(Number::parse("1e999999999999999999999999999999").is_none());
    assert!(Number::parse("1e-1000002").is_none());
    assert!(Number::parse("1e-1000001").is_some());
    assert!(Number::parse("1e-400").is_some());
    assert!(Number::parse("100000000000000000000").is_some());
}

#[test]
fn whole_numerals() {
    assert_eq!(Number::parse_whole("42"), Some(number("42")));
    assert_eq!(Number::parse_whole("-42"), Some(number("-42")));
    assert_eq!(Number::parse_whole("+42"), Some(number("42")));
    assert_eq!(Number::parse_whole("99999999999999999999"), Some(number("99999999999999999999")));
    assert!(Number::parse_whole("4.2").is_none());
    assert!(Number::parse_whole("4e2").is_none());
    assert!(Number::parse_whole("").is_none());
    assert!(Number::parse_whole("-").is_none());
}

#[test]
fn numbers_are_ordered() {
    let ascending = [
        "-1e10", "-12", "-1.5", "-1", "-0.5", "-1e-7", "0", "1e-7", "0.09", "0.1", "0.11", "0.5", "1",
        "1.5", "2", "9", "10", "10.01", "99", "100", "1e10",
    ];
    for i in 0..ascending.len() {
        for j in 0..ascending.len() {
            let a = number(ascending[i]);
            let b = number(ascending[j]);
            assert_eq!(a.less_than(&b), i < j, "{} < {}", ascending[i], ascending[j]);
            assert_eq!(a.at_most(&b), i <= j, "{} <= {}", ascending[i], ascending[j]);
            assert_eq!(a.same(&b), i == j);
        }
    }
}

#[test]
fn numbers_are_written_as_plain_decimals() {
    for (text, expected) in [
        ("0", "0"),
        ("-0", "0"),
        ("10.0", "10"),
        ("1e3", "1000"),
        ("12.50", "12.5"),
        ("-1.5e-3", "-0.0015"),
        ("0.5", "0.5"),
        ("123456789.123456789", "123456789.123456789"),
        ("1e-7", "0.0000001"),
        ("-42", "-42"),
    ] {
        assert_eq!(number(text).to_text(), expected);
        assert_eq!(number(&number(text).to_text()), number(text));
    }
}

#[test]
fn natural_numbers() {
    assert_eq!(Number::from_u64(0), number("0"));
    assert_eq!(Number::from_u64(7), number("7"));
    assert_eq!(Number::from_u64(1200), number("1200"));
    assert_eq!(Number::from_u64(u64::MAX), number("18446744073709551615"));
    assert_eq!(Number::from_u64(10100).to_text(), "10100");
    assert_eq!(Number::from_u64(5).clone(), number("5.0"));
}
