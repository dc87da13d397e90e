use zdr055_gpx::decimal::{parse_decimal, parse_unsigned, push_fixed, Decimal};

fn dec(s: &str) -> Option<Decimal> {
    parse_decimal(s.as_bytes(), 0, s.len())
}

fn fixed(d: Decimal, places: usize) -> String {
    let mut out = Vec::new();
    push_fixed(&mut out, d, places);
    String::from_utf8(out).unwrap()
}

#[test]
fn decimals_are_kept_in_lowest_terms() {
    assert_eq!(dec("12.500"), Some(Decimal { negative: false, mantissa: 125, scale: 1 }));
    assert_eq!(dec("-0.000"), Some(Decimal::zero()));
    assert_eq!(dec("+7"), Some(Decimal { negative: false, mantissa: 7, scale: 0 }));
    assert_eq!(dec(".5"), Some(Decimal { negative: false, mantissa: 5, scale: 1 }));
    assert_eq!(dec("5."), Some(Decimal { negative: false, mantissa: 5, scale: 0 }));
    assert_eq!(dec("-1.25"), Some(Decimal { negative: true, mantissa: 125, scale: 2 }));
}

#[test]
fn malformed_decimals_are_rejected() {
    for s in ["", ".", "-", "+.", "1.2.3", "1e5", "abc", "--1", "99999999999999999999"] {
        assert_eq!(dec(s), None, "{}", s);
    }
    assert_eq!(dec("18446744073709551615"), Some(Decimal { negative: false, mantissa: u64::MAX, scale: 0 }));
}

#[test]
fn unsigned_limits() {
    let p = |s: &str, max: u32| parse_unsigned(s.as_bytes(), 0, s.len(), max);
    assert_eq!(p("255", 255), Some(255));
    assert_eq!(p("256", 255), None);
    assert_eq!(p("+12", 255), Some(12));
    assert_eq!(p("-0", 255), None);
    assert_eq!(p("", 255), None);
    assert_eq!(p("4294967295", u32::MAX), Some(u32::MAX));
    assert_eq!(p("4294967296", u32::MAX), None);
}

#[test]
fn fixed_rendering_pads_and_rounds_half_to_even() {
    assert_eq!(fixed(dec("35.123456").unwrap(), 7), "35.1234560");
    assert_eq!(fixed(dec("-0.02").unwrap(), 7), "-0.0200000");
    assert_eq!(fixed(dec("42.5").unwrap(), 2), "42.50");
    assert_eq!(fixed(Decimal::zero(), 2), "0.00");
    assert_eq!(fixed(dec("1.23456785").unwrap(), 7), "1.2345678");
    assert_eq!(fixed(dec("1.23456795").unwrap(), 7), "1.2345680");
    assert_eq!(fixed(dec("1.234567851").unwrap(), 7), "1.2345679");
    assert_eq!(fixed(dec("9.999").unwrap(), 2), "10.00");
    assert_eq!(fixed(dec("0.000000000000000000000000001").unwrap(), 2), "0.00");
    assert_eq!(fixed(dec("18446744073709551615").unwrap(), 7), "18446744073709551615.0000000");
}

#[test]
fn negation_keeps_zero_unsigned() {
    assert_eq!(Decimal::zero().negate(), Decimal::zero());
    assert_eq!(dec("1.5").unwrap().negate(), Decimal { negative: true, mantissa: 15, scale: 1 });
}
