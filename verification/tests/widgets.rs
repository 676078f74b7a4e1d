use dashboard_layout::icons::wmo_code_to_icon;
use dashboard_layout::money::format_cents_commas;

#[test]
fn icons_for_grouped_codes() {
    assert_eq!(wmo_code_to_icon(0), "sunny-29.svg");
    assert_eq!(wmo_code_to_icon(2), "partly-cloudy-5.svg");
    assert_eq!(wmo_code_to_icon(45), "fog-85.svg");
    assert_eq!(wmo_code_to_icon(53), "light-rain-90.svg");
    assert_eq!(wmo_code_to_icon(57), "sleet_03.svg");
    assert_eq!(wmo_code_to_icon(63), "shower-rain-1.svg");
    assert_eq!(wmo_code_to_icon(66), "sleet_04.svg");
    assert_eq!(wmo_code_to_icon(75), "slight-snow_01.svg");
    assert_eq!(wmo_code_to_icon(77), "slight-snow.svg");
    assert_eq!(wmo_code_to_icon(81), "shower-rain-1.svg");
    assert_eq!(wmo_code_to_icon(86), "medium-snow_01.svg");
    assert_eq!(wmo_code_to_icon(95), "thunderstorm-24.svg");
    assert_eq!(wmo_code_to_icon(99), "thunder-47.svg");
}

#[test]
fn icons_for_range_and_unknown_codes() {
    // Codes caught only by the coarse ranges after the specific
    // groups are taken.
    assert_eq!(wmo_code_to_icon(62), "shower-rain-1.svg");
    assert_eq!(wmo_code_to_icon(64), "shower-rain-1.svg");
    assert_eq!(wmo_code_to_icon(70), "medium-snow_01.svg");
    assert_eq!(wmo_code_to_icon(78), "medium-snow_01.svg");
    // Unknown codes fall through to the default icon.
    assert_eq!(wmo_code_to_icon(4), "partly-cloudy_01.svg");
    assert_eq!(wmo_code_to_icon(200), "partly-cloudy_01.svg");
}

#[test]
fn formats_balances_with_commas() {
    assert_eq!(format_cents_commas(132345), "$1,323.45");
    assert_eq!(format_cents_commas(1354), "$13.54");
    assert_eq!(format_cents_commas(1339), "$13.39");
    assert_eq!(format_cents_commas(0), "$0.00");
    assert_eq!(format_cents_commas(5), "$0.05");
    assert_eq!(format_cents_commas(123456789012), "$1,234,567,890.12");
}

#[test]
fn formats_negative_balances_as_the_widget_draws_them() {
    // The dollars and cents columns each keep the sign of the input,
    // and the comma grouping counts the minus sign like a digit.
    assert_eq!(format_cents_commas(-105), "$-1.-5");
    assert_eq!(format_cents_commas(-50), "$0.-50");
    assert_eq!(format_cents_commas(-1234567), "$-12,345.-67");
    assert_eq!(format_cents_commas(-12345678), "$-,123,456.-78");
}
