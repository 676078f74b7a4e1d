//! Weather icons: which SVG file stands for a WMO weather code.

use vstd::prelude::*;

verus! {

/// The icon file a WMO weather code maps to. Codes are grouped the
/// way the dashboard draws them: the specific groups are tried first,
/// then two coarse ranges, then a catch-all.
pub open spec fn spec_wmo_icon(code: u8) -> Seq<char> {
    if code == 0 {
        "sunny-29.svg"@
    } else if code == 1 || code == 2 || code == 3 {
        "partly-cloudy-5.svg"@
    } else if code == 45 || code == 48 {
        "fog-85.svg"@
    } else if code == 51 || code == 53 || code == 55 {
        "light-rain-90.svg"@
    } else if code == 56 || code == 57 {
        "sleet_03.svg"@
    } else if code == 61 || code == 63 || code == 65 {
        "shower-rain-1.svg"@
    } else if code == 66 || code == 67 {
        "sleet_04.svg"@
    } else if code == 71 || code == 73 || code == 75 {
        "slight-snow_01.svg"@
    } else if code == 77 {
        "slight-snow.svg"@
    } else if code == 80 || code == 81 || code == 82 {
        "shower-rain-1.svg"@
    } else if code == 85 || code == 86 {
        "medium-snow_01.svg"@
    } else if code == 95 {
        "thunderstorm-24.svg"@
    } else if code == 96 || code == 99 {
        "thunder-47.svg"@
    } else if 61 <= code <= 67 {
        "shower-rain-1.svg"@
    } else if 70 <= code <= 79 {
        "medium-snow_01.svg"@
    } else {
        "partly-cloudy_01.svg"@
    }
}

/// The icon file to draw for a WMO weather code.
pub fn wmo_code_to_icon(code: u8) -> (r: &'static str)
    ensures
        r@ == spec_wmo_icon(code),
{
    match code {
        0 => "sunny-29.svg",                  // Clear sky
        1 | 2 | 3 => "partly-cloudy-5.svg",   // Mainly clear, partly cloudy, overcast
        45 | 48 => "fog-85.svg",              // Fog / depositing rime fog
        51 | 53 | 55 => "light-rain-90.svg",  // Drizzle
        56 | 57 => "sleet_03.svg",            // Freezing drizzle
        61 | 63 | 65 => "shower-rain-1.svg",  // Rain showers
        66 | 67 => "sleet_04.svg",            // Freezing rain
        71 | 73 | 75 => "slight-snow_01.svg", // Snow fall
        77 => "slight-snow.svg",              // Snow grains
        80 | 81 | 82 => "shower-rain-1.svg",  // Rain showers
        85 | 86 => "medium-snow_01.svg",      // Snow showers
        95 => "thunderstorm-24.svg",          // Thunderstorm
        96 | 99 => "thunder-47.svg",          // Thunderstorm with hail
        // Some extreme / less common cases
        61..=67 => "shower-rain-1.svg",
        70..=79 => "medium-snow_01.svg",
        _ => "partly-cloudy_01.svg",          // Default / unknown codes
    }
}

} // verus!
