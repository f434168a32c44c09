use utility_css::decimal::{push_decimal, Decimal};

fn text(negative: bool, mantissa: u64, scale: u8) -> String {
    let mut out = String::new();
    push_decimal(&mut out, negative, mantissa, scale);
    out
}

#[test]
fn decimal_new_keeps_its_limits() {
    assert!(Decimal::new(false, 999_999_999, 9).is_some());
    assert!(Decimal::new(false, 1_000_000_000, 0).is_none());
    assert!(Decimal::new(false, 1, 10).is_none());
    let d = Decimal::new(true, 25, 2).unwrap();
    assert!(d.negative());
    assert_eq!(d.mantissa(), 25);
    assert_eq!(d.scale(), 2);
}

#[test]
fn decimal_one_is_one() {
    let d = Decimal::one();
    assert!(!d.negative());
    assert_eq!((d.mantissa(), d.scale()), (1, 0));
}

#[test]
fn parse_unsigned_reads_digits_and_point() {
    let d = Decimal::parse_unsigned("12.50").unwrap();
    assert_eq!((d.mantissa(), d.scale()), (1250, 2));
    let d = Decimal::parse_unsigned("7").unwrap();
    assert_eq!((d.mantissa(), d.scale()), (7, 0));
    let d = Decimal::parse_unsigned(".5").unwrap();
    assert_eq!((d.mantissa(), d.scale()), (5, 1));
    let d = Decimal::parse_unsigned("5.").unwrap();
    assert_eq!((d.mantissa(), d.scale()), (5, 0));
    let d = Decimal::parse_unsigned("0007").unwrap();
    assert_eq!((d.mantissa(), d.scale()), (7, 0));
}

#[test]
fn parse_unsigned_refuses_what_is_no_number() {
    for bad in ["", ".", "-1", "+1", "1e3", "1.2.3", "abc", "1 ", "1000000000", "0.0000000001"] {
        assert!(Decimal::parse_unsigned(bad).is_none(), "{:?}", bad);
    }
}

#[test]
fn parse_reads_a_sign() {
    let d = Decimal::parse("-0.25").unwrap();
    assert!(d.negative());
    assert_eq!((d.mantissa(), d.scale()), (25, 2));
    let d = Decimal::parse("3").unwrap();
    assert!(!d.negative());
    assert_eq!((d.mantissa(), d.scale()), (3, 0));
    assert!(Decimal::parse("--3").is_none());
    assert!(Decimal::parse("-").is_none());
    assert!(Decimal::parse("").is_none());
}

#[test]
fn decimal_text_trims_and_places_the_point() {
    assert_eq!(text(false, 100, 2), "1");
    assert_eq!(text(false, 25, 2), "0.25");
    assert_eq!(text(true, 100, 2), "-1");
    assert_eq!(text(false, 5, 3), "0.005");
    assert_eq!(text(false, 1250, 2), "12.5");
    assert_eq!(text(false, 120, 0), "120");
    assert_eq!(text(false, 0, 0), "0");
    assert_eq!(text(true, 0, 4), "0");
    assert_eq!(text(false, 999_999_999 * 999_999_999, 18), "0.999999998000000001");
    assert_eq!(text(true, 1, 18), "-0.000000000000000001");
}

#[test]
fn push_decimal_appends() {
    let mut out = "x: ".to_string();
    push_decimal(&mut out, true, 15, 1);
    assert_eq!(out, "x: -1.5");
}
