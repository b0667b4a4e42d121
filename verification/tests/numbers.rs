use overlay_music::number::{
    ascii_lower_text, divide, fixed3_text, fixed6_text, parse_number, plain_text, to_millionths,
    Number,
};

fn finite(negative: bool, millionths: u128) -> Option<Number> {
    Some(Number::Finite { negative, parts: millionths * 1_000_000_000_000 })
}

#[test]
fn numbers_are_read() {
    assert_eq!(parse_number("12.5"), finite(false, 12_500_000));
    assert_eq!(parse_number("-16"), finite(true, 16_000_000));
    assert_eq!(parse_number("+.5"), finite(false, 500_000));
    assert_eq!(parse_number("7."), finite(false, 7_000_000));
    assert_eq!(parse_number("1e3"), finite(false, 1_000_000_000));
    assert_eq!(parse_number("2.5E-3"), finite(false, 2_500));
    let tiny = |parts| Some(Number::Finite { negative: false, parts });
    assert_eq!(parse_number("0.0000005"), tiny(500_000_000_000));
    assert_eq!(parse_number("1e-18"), tiny(1));
    assert_eq!(parse_number("0.0000000000000000005"), tiny(1));
    assert_eq!(parse_number("0.0000000000000000004"), tiny(0));
    assert_eq!(parse_number("-inf"), Some(Number::Infinite { negative: true }));
    assert_eq!(parse_number("Infinity"), Some(Number::Infinite { negative: false }));
    assert_eq!(parse_number("nan"), Some(Number::NotANumber));
}

#[test]
fn what_is_no_number_is_refused() {
    for s in ["", "-", ".", "e5", "1e", "1e+", " 1", "1 ", "1,5", "0x10", "N/A", "--1", "infinit"] {
        assert_eq!(parse_number(s), None, "{s:?}");
    }
}

#[test]
fn reading_agrees_with_floating_point() {
    for s in ["0", "1", "-1.5", "3.25", "100", "0.001", "1e2", "12.000001", "99999.5"] {
        let f: f64 = s.parse().unwrap();
        let n = to_millionths(parse_number(s).unwrap());
        assert_eq!(n, (f * 1_000_000.0).round() as i64, "{s}");
    }
}

#[test]
fn millionths_are_rounded() {
    let read = |s: &str| to_millionths(parse_number(s).unwrap());
    assert_eq!(read("0.0000005"), 1);
    assert_eq!(read("0.0000004999"), 0);
    assert_eq!(read("-12.3456785"), -12_345_679);
    assert_eq!(read("-12.3456784"), -12_345_678);
}

#[test]
fn written_numbers_are_read_back() {
    for s in ["-16.1234567", "16.123456789012345", "-0.30000000000000004", "1e-18", "7", "-0", "9e12", "inf", "nan"] {
        let n = parse_number(s).unwrap();
        assert_eq!(parse_number(&plain_text(n)), Some(n), "{s}");
    }
}

#[test]
fn numbers_stay_in_range() {
    assert_eq!(to_millionths(Number::NotANumber), 0);
    assert_eq!(to_millionths(Number::Infinite { negative: false }), i64::MAX);
    assert_eq!(to_millionths(Number::Infinite { negative: true }), i64::MIN);
    assert_eq!(to_millionths(parse_number("1e300").unwrap()), i64::MAX);
}

#[test]
fn fixed_places_are_written() {
    assert_eq!(fixed6_text(1_500_000), "1.500000");
    assert_eq!(fixed6_text(-250_000), "-0.250000");
    assert_eq!(fixed6_text(0), "0.000000");
    assert_eq!(fixed6_text(333_333), format!("{:.6}", 0.333333));
    assert_eq!(fixed3_text(1_234_567), format!("{:.3}", 1.234567));
    assert_eq!(fixed3_text(9_000), "0.009");
    assert_eq!(fixed3_text(-1_500_000), "-1.500");
}

#[test]
fn plain_numbers_are_written_as_short_as_possible() {
    for s in ["-16", "-1.5", "11", "0.1", "-70.25", "0", "-16.1234567", "0.30000000000000004", "22.999999999999996"] {
        let f: f64 = s.parse().unwrap();
        assert_eq!(plain_text(parse_number(s).unwrap()), format!("{f}"));
    }
    assert_eq!(plain_text(parse_number("-16.0").unwrap()), format!("{}", -16.0));
    assert_eq!(plain_text(parse_number("-0.0").unwrap()), format!("{}", -0.0_f64));
    assert_eq!(plain_text(parse_number("-inf").unwrap()), format!("{}", f64::NEG_INFINITY));
    assert_eq!(plain_text(Number::NotANumber), format!("{}", f64::NAN));
}

#[test]
fn division_rounds_to_the_nearest() {
    assert_eq!(divide(3_600_000_000, 1_500_000), 2_400_000_000);
    assert_eq!(divide(1_000_000, 3_000_000), 333_333);
    assert_eq!(divide(2_000_000, 3_000_000), 666_667);
    assert_eq!(divide(-1_000_000, 3_000_000), -333_333);
    assert_eq!(divide(i64::MAX, 1), i64::MAX);
    assert_eq!(divide(i64::MIN, 1), i64::MIN);
}

#[test]
fn ascii_is_lowered() {
    assert_eq!(ascii_lower_text("MP3.Ä"), "mp3.Ä");
}
