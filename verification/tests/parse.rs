use dashboard_layout::node::{parse_split_direction, SplitDirection};
use dashboard_layout::size::{parse_size, FormatErrorKind, Size};

#[test]
fn parses_pixel_size() {
    assert_eq!(parse_size("42px"), Ok(Size::Px(42)));
    assert_eq!(parse_size("10px"), Ok(Size::Px(10)));
    assert_eq!(parse_size("0px"), Ok(Size::Px(0)));
}

#[test]
fn parses_unit_size_to_thousandths() {
    assert_eq!(parse_size("12.5u"), Ok(Size::Unit(12500)));
    assert_eq!(parse_size("75u"), Ok(Size::Unit(75000)));
    assert_eq!(parse_size("1u"), Ok(Size::Unit(1000)));
    assert_eq!(parse_size("0.125u"), Ok(Size::Unit(125)));
    assert_eq!(parse_size("0u"), Ok(Size::Unit(0)));
}

#[test]
fn pixel_value_reserializes_exactly() {
    // Round trip: the numeric value of the parsed size is recovered
    // exactly from the text.
    match parse_size("42px") {
        Ok(Size::Px(v)) => assert_eq!(v.to_string(), "42"),
        other => panic!("expected pixels, got {:?}", other),
    }
    match parse_size("12.5u") {
        Ok(Size::Unit(m)) => {
            assert_eq!(m / 1000, 12);
            assert_eq!(m % 1000, 500);
        }
        other => panic!("expected units, got {:?}", other),
    }
}

#[test]
fn trims_whitespace_before_suffix() {
    assert_eq!(parse_size(" 42 px"), Ok(Size::Px(42)));
    assert_eq!(parse_size("\t7.25 u"), Ok(Size::Unit(7250)));
}

#[test]
fn accepts_leading_plus_and_dot_forms() {
    assert_eq!(parse_size("+42px"), Ok(Size::Px(42)));
    assert_eq!(parse_size(".5u"), Ok(Size::Unit(500)));
    assert_eq!(parse_size("5.u"), Ok(Size::Unit(5000)));
    assert_eq!(parse_size("1.5000u"), Ok(Size::Unit(1500)));
}

#[test]
fn rejects_missing_suffix() {
    let e = parse_size("42").unwrap_err();
    assert_eq!(e.kind, FormatErrorKind::BadSuffix);
    assert_eq!(e.input, "42");
    assert_eq!(parse_size("").unwrap_err().kind, FormatErrorKind::BadSuffix);
    assert_eq!(parse_size("42 em").unwrap_err().kind, FormatErrorKind::BadSuffix);
}

#[test]
fn rejects_bad_pixel_values() {
    let e = parse_size("x3px").unwrap_err();
    assert_eq!(e.kind, FormatErrorKind::BadPixelValue);
    assert_eq!(e.input, "x3px");
    assert_eq!(parse_size("px").unwrap_err().kind, FormatErrorKind::BadPixelValue);
    assert_eq!(parse_size("-3px").unwrap_err().kind, FormatErrorKind::BadPixelValue);
    assert_eq!(parse_size("4.5px").unwrap_err().kind, FormatErrorKind::BadPixelValue);
    // One past the largest representable pixel count.
    assert_eq!(
        parse_size("18446744073709551616px").unwrap_err().kind,
        FormatErrorKind::BadPixelValue
    );
    // The largest one parses.
    assert_eq!(
        parse_size("18446744073709551615px"),
        Ok(Size::Px(u64::MAX))
    );
}

#[test]
fn rejects_bad_unit_values() {
    let e = parse_size("u").unwrap_err();
    assert_eq!(e.kind, FormatErrorKind::BadUnitValue);
    assert_eq!(parse_size(".u").unwrap_err().kind, FormatErrorKind::BadUnitValue);
    assert_eq!(parse_size("-1u").unwrap_err().kind, FormatErrorKind::BadUnitValue);
    assert_eq!(parse_size("1.2.3u").unwrap_err().kind, FormatErrorKind::BadUnitValue);
    // Finer than a thousandth of a unit.
    assert_eq!(parse_size("0.0001u").unwrap_err().kind, FormatErrorKind::BadUnitValue);
}

#[test]
fn px_suffix_wins_over_unit_suffix() {
    // A text ending in `px` is judged as a pixel size even though it
    // also ends in a prefix-of-`u` nonsense; `12upx` is a bad pixel
    // value, never a unit.
    assert_eq!(parse_size("12upx").unwrap_err().kind, FormatErrorKind::BadPixelValue);
}

#[test]
fn parses_split_direction_words() {
    assert_eq!(parse_split_direction("horizontal"), Ok(SplitDirection::Horizontal));
    assert_eq!(parse_split_direction("vertical"), Ok(SplitDirection::Vertical));
    let e = parse_split_direction("Horizontal").unwrap_err();
    assert_eq!(e.kind, FormatErrorKind::BadSplitWord);
    assert_eq!(e.input, "Horizontal");
    assert_eq!(
        parse_split_direction("diagonal").unwrap_err().kind,
        FormatErrorKind::BadSplitWord
    );
}
