use mandelbrot::parse::parse_i32;
use mandelbrot::parse::parse_pair;
use mandelbrot::parse::split_pair;

#[test]
fn main_test_parse_pair() {
    assert_eq!(parse_pair("", 'x'), None);

    assert_eq!(parse_pair("10,20", ','), Some((10, 20)));
    assert_eq!(parse_pair("10x20", 'x'), Some((10, 20)));
}

#[test]
fn utils_test_parse_pair() {
    assert_eq!(parse_pair("", 'x'), None);

    assert_eq!(parse_pair("10,20", ','), Some((10, 20)));
    assert_eq!(parse_pair("10x20", 'x'), Some((10, 20)));
}

#[test]
fn pair_without_separator_is_absent() {
    assert_eq!(parse_pair("1020", ','), None);
    assert_eq!(parse_pair("10x20", ','), None);
}

#[test]
fn pair_with_a_missing_side_is_absent() {
    assert_eq!(parse_pair(",20", ','), None);
    assert_eq!(parse_pair("10,", ','), None);
    assert_eq!(parse_pair(",", ','), None);
}

#[test]
fn pair_splits_at_the_first_separator() {
    assert_eq!(split_pair("1,2,3", ','), Some(("1", "2,3")));
    assert_eq!(parse_pair("10,20,30", ','), None);
}

#[test]
fn split_keeps_both_sides_verbatim() {
    assert_eq!(split_pair(",-0.0625", ','), Some(("", "-0.0625")));
    assert_eq!(split_pair("400x600", 'x'), Some(("400", "600")));
    assert_eq!(split_pair("", 'x'), None);
}

#[test]
fn parse_i32_accepts_signs_and_leading_zeros() {
    assert_eq!(parse_i32("10"), Some(10));
    assert_eq!(parse_i32("+10"), Some(10));
    assert_eq!(parse_i32("-10"), Some(-10));
    assert_eq!(parse_i32("0"), Some(0));
    assert_eq!(parse_i32("-0"), Some(0));
    assert_eq!(parse_i32("007"), Some(7));
    assert_eq!(parse_i32("00000000000000000012"), Some(12));
}

#[test]
fn parse_i32_rejects_malformed_text() {
    assert_eq!(parse_i32(""), None);
    assert_eq!(parse_i32("+"), None);
    assert_eq!(parse_i32("-"), None);
    assert_eq!(parse_i32("1 2"), None);
    assert_eq!(parse_i32(" 12"), None);
    assert_eq!(parse_i32("4e3"), None);
    assert_eq!(parse_i32("12a"), None);
    assert_eq!(parse_i32("1.5"), None);
}

#[test]
fn parse_i32_respects_the_value_range() {
    assert_eq!(parse_i32("2147483647"), Some(i32::MAX));
    assert_eq!(parse_i32("2147483648"), None);
    assert_eq!(parse_i32("-2147483648"), Some(i32::MIN));
    assert_eq!(parse_i32("-2147483649"), None);
    assert_eq!(parse_i32("99999999999999999999"), None);
    assert_eq!(parse_i32("-99999999999999999999"), None);
}

/// The original component parsing for a complex point: a comma split, then
/// double-precision components; the split is the library's.
fn parse_complex(s: &str) -> Option<(f64, f64)> {
    match split_pair(s, ',') {
        Some((re, im)) => match (re.parse::<f64>(), im.parse::<f64>()) {
            (Ok(re), Ok(im)) => Some((re, im)),
            _ => None,
        },
        None => None,
    }
}

#[test]
fn test_parse_complex() {
    assert_eq!(parse_complex("1.25,-0.0625"), Some((1.25, -0.0625)));
    assert_eq!(parse_complex(",-0.0625"), None);
}
