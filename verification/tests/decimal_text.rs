use rwr_profile::decimal::Decimal;

#[test]
fn decimal_reads_six_places() {
    assert_eq!(Decimal::parse("11.098661"), Some(Decimal { micros: 11_098_661 }));
    assert_eq!(Decimal::parse("-1"), Some(Decimal { micros: -1_000_000 }));
    assert_eq!(Decimal::parse("0.5"), Some(Decimal { micros: 500_000 }));
    assert_eq!(Decimal::parse("5."), Some(Decimal { micros: 5_000_000 }));
    assert_eq!(Decimal::parse(".5"), Some(Decimal { micros: 500_000 }));
    assert_eq!(Decimal::parse("+2.25"), Some(Decimal { micros: 2_250_000 }));
}

#[test]
fn decimal_drops_places_beyond_the_sixth() {
    assert_eq!(Decimal::parse("0.30000001"), Some(Decimal { micros: 300_000 }));
    assert_eq!(Decimal::parse("1.9999999"), Some(Decimal { micros: 1_999_999 }));
}

#[test]
fn decimal_rejects_what_is_no_number() {
    assert_eq!(Decimal::parse(""), None);
    assert_eq!(Decimal::parse("."), None);
    assert_eq!(Decimal::parse("-"), None);
    assert_eq!(Decimal::parse("1.2.3"), None);
    assert_eq!(Decimal::parse("12a"), None);
    assert_eq!(Decimal::parse("inf"), None);
    assert_eq!(Decimal::parse("NaN"), None);
    assert_eq!(Decimal::parse(" 1"), None);
    assert_eq!(Decimal::parse("٣"), None);
}

#[test]
fn decimal_rejects_what_does_not_fit() {
    assert_eq!(Decimal::parse("9223372036854.775807"), Some(Decimal { micros: i64::MAX }));
    assert_eq!(Decimal::parse("-9223372036854.775808"), Some(Decimal { micros: i64::MIN }));
    assert_eq!(Decimal::parse("9223372036854.775808"), None);
    assert_eq!(Decimal::parse("99999999999999999999999999"), None);
}

#[test]
fn decimal_writes_without_trailing_zeros() {
    assert_eq!(Decimal { micros: 11_098_661 }.to_text(), "11.098661");
    assert_eq!(Decimal { micros: 5_000_000 }.to_text(), "5");
    assert_eq!(Decimal { micros: 500_000 }.to_text(), "0.5");
    assert_eq!(Decimal { micros: -250_000 }.to_text(), "-0.25");
    assert_eq!(Decimal { micros: 0 }.to_text(), "0");
    assert_eq!(Decimal { micros: 1 }.to_text(), "0.000001");
    assert_eq!(Decimal { micros: i64::MIN }.to_text(), "-9223372036854.775808");
}

#[test]
fn decimal_text_reads_back() {
    for micros in [0i64, 1, -1, 999_999, 1_000_000, -341_500_000, i64::MAX, i64::MIN] {
        let d = Decimal { micros };
        assert_eq!(Decimal::parse(&d.to_text()), Some(d));
    }
}

#[test]
fn decimal_subtraction_saturates() {
    let a = Decimal::from_units(15);
    let b = Decimal::from_units(10);
    assert_eq!(a.saturating_sub(&b), Decimal::from_units(5));
    assert!(b.lt(&a));
    assert!(!a.lt(&a));
    let low = Decimal { micros: i64::MIN };
    assert_eq!(low.saturating_sub(&a), low);
    let high = Decimal { micros: i64::MAX };
    assert_eq!(high.saturating_sub(&Decimal { micros: -1 }), high);
}

#[test]
fn decimal_reads_an_exponent_of_ten() {
    assert_eq!(Decimal::parse("1e5"), Some(Decimal { micros: 100_000_000_000 }));
    assert_eq!(Decimal::parse("1.04858e+006"), Some(Decimal { micros: 1_048_580_000_000 }));
    assert_eq!(Decimal::parse("2.5E-3"), Some(Decimal { micros: 2_500 }));
    assert_eq!(Decimal::parse("-1.5e1"), Some(Decimal { micros: -15_000_000 }));
    assert_eq!(Decimal::parse(".5e1"), Some(Decimal { micros: 5_000_000 }));
    assert_eq!(Decimal::parse("5.e0"), Some(Decimal { micros: 5_000_000 }));
    assert_eq!(Decimal::parse("+12e-1"), Some(Decimal { micros: 1_200_000 }));
    assert_eq!(Decimal::parse("123456789e-9"), Some(Decimal { micros: 123_456 }));
}

#[test]
fn decimal_with_exponent_drops_what_falls_beyond_the_sixth_place() {
    assert_eq!(Decimal::parse("1e-6"), Some(Decimal { micros: 1 }));
    assert_eq!(Decimal::parse("1e-7"), Some(Decimal { micros: 0 }));
    assert_eq!(Decimal::parse("19e-7"), Some(Decimal { micros: 1 }));
    assert_eq!(Decimal::parse("1e-1000"), Some(Decimal { micros: 0 }));
    assert_eq!(Decimal::parse("0e1000"), Some(Decimal { micros: 0 }));
    assert_eq!(Decimal::parse("0.000e999"), Some(Decimal { micros: 0 }));
}

#[test]
fn decimal_with_exponent_must_fit() {
    assert_eq!(Decimal::parse("9223372036854775807e-6"), Some(Decimal { micros: i64::MAX }));
    assert_eq!(Decimal::parse("-9223372036854775808e-6"), Some(Decimal { micros: i64::MIN }));
    assert_eq!(Decimal::parse("9223372036854775808e-6"), None);
    assert_eq!(Decimal::parse("1e13"), None);
    assert_eq!(Decimal::parse("1e1000"), None);
    assert_eq!(Decimal::parse("9.3e12"), None);
    assert_eq!(Decimal::parse("9.2e12"), Some(Decimal { micros: 9_200_000_000_000_000_000 }));
}

#[test]
fn decimal_rejects_a_broken_exponent() {
    for text in ["1e", "e5", "1e+", "1e-", "1e5.0", "1ee5", "1e1001", "1e-1001", "1e 5", "1x5", "-e1", ".e1", "1e٣"] {
        assert_eq!(Decimal::parse(text), None);
    }
}

#[test]
fn decimal_without_exponent_reads_as_with_exponent_zero() {
    for text in ["0", "-0.5", "12.3456789", "+7.", ".25", "1.2.3", "", "-"] {
        let plain = Decimal::parse_plain(text);
        assert_eq!(Decimal::parse(text), plain);
        assert_eq!(Decimal::parse(&format!("{}e0", text)), plain);
    }
}
