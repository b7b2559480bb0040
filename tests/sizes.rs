use sizetree::error::SizeError;
use sizetree::format::format_size;
use sizetree::parse::{parse_normalized_size, parse_size, trim, SizeExpr};

// The floating-point step that the program takes after the library: the number
// read as f64, times the unit, truncated.
fn count(expr: &SizeExpr) -> u64 {
    let number: f64 = expr.number.parse().unwrap();
    (number * expr.multiplier as f64) as u64
}

fn bytes(s: &str) -> Option<u64> {
    parse_size(s).ok().map(|e| count(&e))
}

fn parse_fault(s: &str) -> String {
    match parse_size(s) {
        Err(SizeError::ParseError(m)) => m,
        Err(SizeError::IoError(_)) => panic!("unexpected I/O error"),
        Ok(e) => panic!("unexpected success: {}", e.number),
    }
}

#[test]
fn format_bytes_below_one_kilobyte() {
    assert_eq!(format_size(0), "0 B");
    assert_eq!(format_size(1), "1 B");
    assert_eq!(format_size(1023), "1023 B");
}

#[test]
fn format_unit_thresholds() {
    assert_eq!(format_size(1024), "1.00 KB");
    assert_eq!(format_size(1024 * 1024), "1.00 MB");
    assert_eq!(format_size(1024 * 1024 * 1024), "1.00 GB");
    assert_eq!(format_size(1024 * 1024 - 1), "1024.00 KB");
}

#[test]
fn format_two_decimal_places() {
    assert_eq!(format_size(1536), "1.50 KB");
    assert_eq!(format_size(1572864), "1.50 MB");
    assert_eq!(format_size(1153), "1.13 KB");
    assert_eq!(format_size(10 * 1024 * 1024 * 1024 + 1024 * 1024 * 256), "10.25 GB");
}

#[test]
fn format_ties_round_to_even() {
    // 1152 / 1024 == 1.125 exactly
    assert_eq!(format_size(1152), "1.12 KB");
    // 1168 / 1024 == 1.140625, plainly nearer 1.14
    assert_eq!(format_size(1168), "1.14 KB");
}

#[test]
fn format_largest_count() {
    assert_eq!(format_size(u64::MAX), "17179869184.00 GB");
}

#[test]
fn parse_examples() {
    assert_eq!(bytes("0"), Some(0));
    assert_eq!(bytes("1KB"), Some(1024));
    assert_eq!(bytes("1.5MB"), Some(1572864));
}

#[test]
fn parse_empty_fails() {
    assert_eq!(parse_fault(""), "Empty size string");
    assert_eq!(parse_fault("   "), "Empty size string");
}

#[test]
fn parse_unknown_unit_fails() {
    assert_eq!(parse_fault("5XB"), "Invalid number: 5X");
    assert_eq!(parse_fault("KB"), "Invalid number: ");
    assert_eq!(parse_fault("1.2.3"), "Invalid number: 1.2.3");
    assert_eq!(parse_fault("."), "Invalid number: .");
    assert_eq!(parse_fault("abc"), "Invalid number: ABC");
}

#[test]
fn parse_case_and_white_space() {
    assert_eq!(bytes("  2 g "), None);
    assert_eq!(bytes(" 2g\t"), Some(2 * 1024 * 1024 * 1024));
    assert_eq!(bytes("500kb"), Some(512000));
    assert_eq!(bytes("3m"), Some(3 * 1024 * 1024));
    assert_eq!(bytes("7b"), Some(7));
}

#[test]
fn parse_fractions_round_down() {
    assert_eq!(bytes("1.5"), Some(1));
    assert_eq!(bytes(".5K"), Some(512));
    assert_eq!(bytes("5."), Some(5));
    assert_eq!(bytes("0.1KB"), Some(102));
    assert_eq!(bytes("0.999999999999KB"), Some(1023));
}

#[test]
fn parse_signs() {
    assert_eq!(bytes("+3K"), Some(3072));
    assert_eq!(bytes("-5"), Some(0));
    assert_eq!(bytes("-1.5GB"), Some(0));
}

#[test]
fn parse_saturates() {
    assert_eq!(bytes("99999999999999999999GB"), Some(u64::MAX));
    assert_eq!(bytes("18446744073709551615"), Some(u64::MAX));
}

#[test]
fn parse_is_monotonic_for_one_unit() {
    let a = bytes("2.5MB").unwrap();
    let b = bytes("2.25MB").unwrap();
    let c = bytes("2MB").unwrap();
    assert!(a >= b && b >= c);
}

#[test]
fn parse_normalized_takes_text_as_is() {
    let e = parse_normalized_size("1KB").ok().unwrap();
    assert_eq!((e.number.as_str(), e.multiplier), ("1", 1024));
    assert_eq!(count(&e), 1024);
    assert!(parse_normalized_size("1kb").is_err());
}

#[test]
fn trim_removes_unicode_white_space() {
    assert_eq!(trim("\u{3000} x y\u{a0}\n"), "x y");
    assert_eq!(trim(""), "");
    assert_eq!(trim(" \t"), "");
}

#[test]
fn uppercase_reaches_the_unit() {
    // the lower-case unit only reads as a unit once upper-cased
    assert_eq!(bytes("1k"), Some(1024));
    assert_eq!(parse_fault("1x"), "Invalid number: 1X");
}

#[test]
fn error_messages() {
    assert_eq!(SizeError::ParseError(String::from("bad")).message(), "Size parsing error: bad");
    assert_eq!(SizeError::IoError(String::from("gone")).message(), "I/O error: gone");
}

#[test]
fn parse_exponents() {
    assert_eq!(bytes("1E3"), Some(1000));
    assert_eq!(bytes("1e3"), Some(1000));
    assert_eq!(bytes("1.5E1KB"), Some(15360));
    assert_eq!(bytes("2E-1K"), Some(204));
    assert_eq!(bytes("1E+2"), Some(100));
    assert_eq!(bytes("15E-1KB"), Some(1536));
    assert_eq!(bytes("5E-1"), Some(0));
    assert_eq!(bytes("1e6"), Some(1000000));
    assert_eq!(bytes(".5E1"), Some(5));
}

#[test]
fn parse_extreme_exponents() {
    assert_eq!(bytes("1E30"), Some(u64::MAX));
    assert_eq!(bytes("1E-400"), Some(0));
    assert_eq!(bytes("0E999999999999999999999999"), Some(0));
    assert_eq!(bytes("1E999999999999999999999999"), Some(u64::MAX));
    assert_eq!(bytes("7E-999999999999999999999999GB"), Some(0));
    assert_eq!(bytes("-1E30"), Some(0));
}

#[test]
fn parse_bad_exponents() {
    assert_eq!(parse_fault("1E"), "Invalid number: 1E");
    assert_eq!(parse_fault("E5"), "Invalid number: E5");
    assert_eq!(parse_fault("1E+"), "Invalid number: 1E+");
    assert_eq!(parse_fault("1E2.5"), "Invalid number: 1E2.5");
    assert_eq!(parse_fault(".E1"), "Invalid number: .E1");
}

#[test]
fn parse_infinity_and_nan() {
    assert_eq!(bytes("INF"), Some(u64::MAX));
    assert_eq!(bytes("inf"), Some(u64::MAX));
    assert_eq!(bytes("+Infinity"), Some(u64::MAX));
    assert_eq!(bytes("INFKB"), Some(u64::MAX));
    assert_eq!(bytes("-INF"), Some(0));
    assert_eq!(bytes("NAN"), Some(0));
    assert_eq!(bytes("-nan"), Some(0));
    assert_eq!(parse_fault("INFIN"), "Invalid number: INFIN");
}

#[test]
fn format_then_parse_is_close() {
    for n in [0u64, 1, 1023, 1024, 1152, 1536, 123456, 1048576, 5000000, 1073741824, 987654321012] {
        let text = format_size(n).replace(' ', "");
        let v = bytes(&text).unwrap();
        let unit: u64 = if n < 1024 {
            1
        } else if n < 1048576 {
            1024
        } else if n < 1073741824 {
            1048576
        } else {
            1073741824
        };
        if n < 1024 {
            assert_eq!(v, n);
        } else {
            assert!(v.abs_diff(n) <= unit / 200 + 3, "{} read back as {}", n, v);
        }
    }
}

#[test]
fn parse_keeps_number_and_unit() {
    let e = parse_size(" 1.5mb ").ok().unwrap();
    assert_eq!((e.number.as_str(), e.multiplier), ("1.5", 1048576));
    let e = parse_size("-2E-1G").ok().unwrap();
    assert_eq!((e.number.as_str(), e.multiplier), ("-2E-1", 1073741824));
    let e = parse_size("7").ok().unwrap();
    assert_eq!((e.number.as_str(), e.multiplier), ("7", 1));
}

#[test]
fn parse_reads_as_floating_point() {
    assert_eq!(bytes("9007199254740993"), Some(9007199254740992));
    assert_eq!(bytes("0.99999999999999999999"), Some(1));
}
