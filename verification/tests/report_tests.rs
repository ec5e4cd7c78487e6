use pass_gen::report::{dec_string, format_time, format_unit, parse_width, separator_line, CENTURY_MS, YEAR_MS};

#[test]
fn below_a_second() {
    assert_eq!(format_time(0), "less than a second");
    assert_eq!(format_time(500), "less than a second");
    assert_eq!(format_time(999), "less than a second");
}

#[test]
fn seconds_tier() {
    assert_eq!(format_time(1000), "1 seconds");
    assert_eq!(format_time(45_000), "45 seconds");
    assert_eq!(format_time(59_499), "59 seconds");
}

#[test]
fn minutes_tier() {
    assert_eq!(format_time(60_000), "1 minutes");
    // 3540 seconds are 59 minutes
    assert_eq!(format_time(3_540_000), "59 minutes");
}

#[test]
fn hours_tier() {
    // 3700 seconds pass the hour mark: 1.03 hours
    assert_eq!(format_time(3_700_000), "1 hours");
    assert_eq!(format_time(36_000_000), "10 hours");
}

#[test]
fn days_tier_starts_at_a_day() {
    // 90000 seconds pass the day mark: 1.04 days
    assert_eq!(format_time(90_000_000), "1 days");
}

#[test]
fn days_tier() {
    // two weeks
    assert_eq!(format_time(1_209_600_000), "14 days");
}

#[test]
fn years_tier() {
    // 40000000 seconds exceed a year: 463 days are 1.27 years
    assert_eq!(format_time(40_000_000_000), "1 years");
}

#[test]
fn centuries_tier() {
    let ms = (CENTURY_MS as u128) * 3;
    assert_eq!(format_time(ms), "3 centuries");
    assert_eq!(format_time(YEAR_MS as u128 * 100), "1 centuries");
}

#[test]
fn tier_boundaries_are_contiguous() {
    assert_eq!(format_time(999), "less than a second");
    assert_eq!(format_time(1000), "1 seconds");
    assert_eq!(format_time(59_999), "60 seconds");
    assert_eq!(format_time(60_000), "1 minutes");
    assert_eq!(format_time(3_599_999), "60 minutes");
    assert_eq!(format_time(3_600_000), "1 hours");
    assert_eq!(format_time(86_399_999), "24 hours");
    assert_eq!(format_time(86_400_000), "1 days");
    assert_eq!(format_time(31_557_599_999), "365 days");
    assert_eq!(format_time(31_557_600_000), "1 years");
    assert_eq!(format_time(3_155_759_999_999), "100 years");
    assert_eq!(format_time(3_155_760_000_000), "1 centuries");
}

#[test]
fn exponential_starts_at_a_million_units() {
    assert_eq!(format_unit(999_999_000, 1000, "seconds"), "999999 seconds");
    assert_eq!(format_unit(1_000_000_000, 1000, "seconds"), "1e+6 seconds");
    assert_eq!(format_unit(2_000_000_000, 1000, "seconds"), "2e+6 seconds");
}

#[test]
fn exponential_mantissa_is_one_digit() {
    // 2.5e9 of a unit rounds half to even: 2e+9
    assert_eq!(format_unit(2_500_000_000_000, 1000, "seconds"), "2e+9 seconds");
    // 9.7e8 of a unit rounds up into the next decade
    assert_eq!(format_unit(970_000_000_000, 1000, "seconds"), "1e+9 seconds");
}

#[test]
fn exponential_centuries_from_format_time() {
    // 2.5e9 centuries
    let ms: u128 = 2_500_000_000u128 * CENTURY_MS as u128;
    assert_eq!(format_time(ms), "2e+9 centuries");
    // 1.5e6 centuries round half to even upward
    let ms2: u128 = 1_500_000u128 * CENTURY_MS as u128;
    assert_eq!(format_time(ms2), "2e+6 centuries");
}

#[test]
fn rounding_is_half_to_even() {
    // 2.5 minutes round down to 2, 3.5 minutes round up to 4
    assert_eq!(format_time(150_000), "2 minutes");
    assert_eq!(format_time(210_000), "4 minutes");
}

#[test]
fn decimal_rendering() {
    assert_eq!(dec_string(0), "0");
    assert_eq!(dec_string(7), "7");
    assert_eq!(dec_string(1000), "1000");
    assert_eq!(dec_string(340282366920938463463374607431768211455), "340282366920938463463374607431768211455");
}

#[test]
fn largest_duration_is_exponential_centuries() {
    assert_eq!(format_time(u128::MAX), "1e+26 centuries");
}

#[test]
fn width_probe_output_is_trimmed_and_parsed() {
    assert_eq!(parse_width(&b"132\n".to_vec()), 132);
    assert_eq!(parse_width(&b"  80  ".to_vec()), 80);
    assert_eq!(parse_width(&b"\n".to_vec()), 80);
    assert_eq!(parse_width(&b"".to_vec()), 80);
    assert_eq!(parse_width(&b"wide\n".to_vec()), 80);
    assert_eq!(parse_width(&b"99999999999999999999999999\n".to_vec()), 80);
}

#[test]
fn separator_line_is_all_dashes() {
    assert_eq!(separator_line(0), "");
    assert_eq!(separator_line(5), "-----");
    assert_eq!(separator_line(80).len(), 80);
    assert!(separator_line(80).chars().all(|c| c == '-'));
}
