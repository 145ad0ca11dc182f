use chrono_photo::cli::{Cli, ParseCliError};
use chrono_photo::decimal::{parse_decimal, Decimal};
use chrono_photo::modes::{
    BackgroundMode, Compression, OutlierMode, OutlierSelectionMode, ParseEnumError, SelectionMode,
};
use chrono_photo::processor::{ChronoProcessor, SliceLayout};
use chrono_photo::select::{
    calc_pixel_darker, calc_pixel_lighter, outlier_analysis, select_outlier_pixel, select_pixel,
};
use chrono_photo::stats::{median, quartiles, sorted_channel};

fn dec(negative: bool, mantissa: u64, exponent: i64) -> Decimal {
    Decimal::Finite { negative, mantissa, exponent }
}

/// `mantissa / 10^scale` as an absolute threshold.
fn abs(mantissa: u64, scale: i64) -> OutlierMode {
    OutlierMode::Absolute { threshold: dec(false, mantissa, -scale) }
}

/// `mantissa / 10^scale` as a relative threshold.
fn rel(mantissa: u64, scale: i64) -> OutlierMode {
    OutlierMode::Relative { threshold: dec(false, mantissa, -scale) }
}

fn rgb(samples: &[[u8; 3]]) -> Vec<u8> {
    samples.iter().flat_map(|s| s.iter().copied()).collect()
}

// ----- option names -------------------------------------------------------

#[test]
fn selection_mode_names() {
    assert_eq!(SelectionMode::from_string("lighter"), Ok(SelectionMode::Lighter));
    assert_eq!(SelectionMode::from_string("darker"), Ok(SelectionMode::Darker));
    assert_eq!(SelectionMode::from_string("outlier"), Ok(SelectionMode::Outlier));
}

#[test]
fn selection_mode_unknown_name() {
    assert_eq!(
        SelectionMode::from_string("brighter"),
        Err(ParseEnumError(
            "Not a pixel selection mode: brighter. Must be one of (lighter|darker|outlier)".to_string()
        ))
    );
}

#[test]
fn outlier_selection_mode_names() {
    assert_eq!(OutlierSelectionMode::from_string("first"), Ok(OutlierSelectionMode::First));
    assert_eq!(OutlierSelectionMode::from_string("last"), Ok(OutlierSelectionMode::Last));
    assert_eq!(OutlierSelectionMode::from_string("extreme"), Ok(OutlierSelectionMode::Extreme));
    assert_eq!(OutlierSelectionMode::from_string("average"), Ok(OutlierSelectionMode::Average));
    assert_eq!(
        OutlierSelectionMode::from_string("median"),
        Err(ParseEnumError(
            "Not an outlier selection mode: median. Must be one of (first|last|extreme|average)".to_string()
        ))
    );
}

#[test]
fn background_mode_names() {
    assert_eq!(BackgroundMode::from_string("first"), Ok(BackgroundMode::First));
    assert_eq!(BackgroundMode::from_string("random"), Ok(BackgroundMode::Random));
    assert_eq!(BackgroundMode::from_string("average"), Ok(BackgroundMode::Average));
    assert_eq!(BackgroundMode::from_string("median"), Ok(BackgroundMode::Median));
    assert_eq!(
        BackgroundMode::from_string("last"),
        Err(ParseEnumError(
            "Not a background pixel selection mode: last. Must be one of (first|random|average|median)"
                .to_string()
        ))
    );
}

#[test]
fn compression_names() {
    assert_eq!(Compression::from_string("gzip"), Ok(Compression::GZip));
    assert_eq!(Compression::from_string("zlib"), Ok(Compression::ZLib));
    assert_eq!(Compression::from_string("deflate"), Ok(Compression::Deflate));
    assert_eq!(
        Compression::from_string("zip"),
        Err(ParseEnumError("Not a compression mode: zip. Must be one of (gzip|zlib|deflate)".to_string()))
    );
}

#[test]
fn outlier_mode_names() {
    assert_eq!(OutlierMode::from_string("abs/0.05/0.2"), Ok(abs(5, 2)));
    assert_eq!(OutlierMode::from_string("absolute/0.1"), Ok(abs(1, 1)));
    assert_eq!(OutlierMode::from_string("rel/1.5"), Ok(rel(15, 1)));
    assert_eq!(OutlierMode::from_string("relative/2"), Ok(rel(2, 0)));
}

#[test]
fn outlier_mode_unknown_name() {
    assert_eq!(
        OutlierMode::from_string("ratio/0.1"),
        Err(ParseEnumError(
            "Not a pixel outlier detection mode: ratio/0.1. Must be one of (abs[olute]/<threshold>|rel[ative]/<threshold>)"
                .to_string()
        ))
    );
}

#[test]
fn outlier_mode_needs_slash_and_number() {
    assert!(OutlierMode::can_parse("abs/0.1"));
    assert!(OutlierMode::can_parse("other/0.1"));
    assert!(!OutlierMode::can_parse("abs"));
    assert!(!OutlierMode::can_parse("abs/x"));
    assert!(!OutlierMode::can_parse("abs//0.1"));
    assert!(OutlierMode::can_parse("abs/1e-3"));
    assert!(OutlierMode::can_parse("abs/inf"));
}

#[test]
fn outlier_mode_takes_any_number() {
    assert_eq!(OutlierMode::from_string("abs/1e-3"), Ok(abs(1, 3)));
    assert_eq!(OutlierMode::from_string("abs/0.0000001"), Ok(abs(1, 7)));
    assert_eq!(OutlierMode::from_string("abs/100000000"), Ok(abs(100_000_000, 0)));
    assert_eq!(
        OutlierMode::from_string("abs/inf"),
        Ok(OutlierMode::Absolute { threshold: Decimal::Infinite { negative: false } })
    );
    assert_eq!(
        OutlierMode::from_string("rel/NaN/0.2"),
        Ok(OutlierMode::Relative { threshold: Decimal::NotANumber })
    );
}

// ----- decimals -------------------------------------------------------------

#[test]
fn decimals_read_exactly() {
    assert_eq!(parse_decimal("0.05"), Some(dec(false, 5, -2)));
    assert_eq!(parse_decimal("12.5"), Some(dec(false, 125, -1)));
    assert_eq!(parse_decimal(".5"), Some(dec(false, 5, -1)));
    assert_eq!(parse_decimal("2."), Some(dec(false, 2, 0)));
    assert_eq!(parse_decimal("-0.25"), Some(dec(true, 25, -2)));
    assert_eq!(parse_decimal("+3"), Some(dec(false, 3, 0)));
    assert_eq!(parse_decimal("0.000001"), Some(dec(false, 1, -6)));
    assert_eq!(parse_decimal("0.0000001"), Some(dec(false, 1, -7)));
    assert_eq!(parse_decimal("99999999"), Some(dec(false, 99_999_999, 0)));
    assert_eq!(parse_decimal("100000000"), Some(dec(false, 100_000_000, 0)));
    assert_eq!(parse_decimal("0"), Some(dec(false, 0, 0)));
    assert_eq!(parse_decimal("-0.0"), Some(dec(true, 0, -1)));
}

#[test]
fn decimals_with_exponent() {
    assert_eq!(parse_decimal("1e-3"), Some(dec(false, 1, -3)));
    assert_eq!(parse_decimal("1E5"), Some(dec(false, 1, 5)));
    assert_eq!(parse_decimal("2.5e+4"), Some(dec(false, 25, 3)));
    assert_eq!(parse_decimal("-.5E-1"), Some(dec(true, 5, -2)));
    assert_eq!(parse_decimal("7.e2"), Some(dec(false, 7, 2)));
    assert_eq!(parse_decimal("1e0007"), Some(dec(false, 1, 7)));
}

#[test]
fn decimals_keep_eighteen_significant_digits() {
    assert_eq!(
        parse_decimal("1234567890123456789012"),
        Some(dec(false, 123_456_789_012_345_678, 4))
    );
    assert_eq!(
        parse_decimal("0.000000000000000000000012345"),
        Some(dec(false, 12345, -27))
    );
    assert_eq!(
        parse_decimal("0.1234567890123456789"),
        Some(dec(false, 123_456_789_012_345_678, -18))
    );
}

#[test]
fn decimals_hold_huge_exponents() {
    assert_eq!(
        parse_decimal("1e99999999999999999999999"),
        Some(dec(false, 1, 1_000_000_000_000_000_000))
    );
    assert_eq!(
        parse_decimal("1e-99999999999999999999999"),
        Some(dec(false, 1, -1_000_000_000_000_000_000))
    );
}

#[test]
fn decimals_infinite_and_not_a_number() {
    assert_eq!(parse_decimal("inf"), Some(Decimal::Infinite { negative: false }));
    assert_eq!(parse_decimal("-Infinity"), Some(Decimal::Infinite { negative: true }));
    assert_eq!(parse_decimal("+INF"), Some(Decimal::Infinite { negative: false }));
    assert_eq!(parse_decimal("NaN"), Some(Decimal::NotANumber));
    assert_eq!(parse_decimal("-nan"), Some(Decimal::NotANumber));
}

#[test]
fn decimals_rejected() {
    assert_eq!(parse_decimal(""), None);
    assert_eq!(parse_decimal("."), None);
    assert_eq!(parse_decimal("-"), None);
    assert_eq!(parse_decimal("1.2.3"), None);
    assert_eq!(parse_decimal("abc"), None);
    assert_eq!(parse_decimal("e5"), None);
    assert_eq!(parse_decimal("1e"), None);
    assert_eq!(parse_decimal("1e+"), None);
    assert_eq!(parse_decimal("1e5e3"), None);
    assert_eq!(parse_decimal("--1"), None);
    assert_eq!(parse_decimal(" 1"), None);
    assert_eq!(parse_decimal("1_0"), None);
    assert_eq!(parse_decimal("infinit"), None);
    assert_eq!(parse_decimal("nan1"), None);
}

#[test]
fn threshold_reached_exactly() {
    // 0.05^2 = 25 / 10^4
    let t = dec(false, 5, -2);
    assert!(t.reaches(25, 10_000));
    assert!(!t.reaches(24, 10_000));
    // 30^2 = 900
    let t = dec(false, 3, 1);
    assert!(t.reaches(900, 1));
    assert!(!t.reaches(899, 1));
    // the sign does not count
    assert!(dec(true, 3, 1).reaches(900, 1));
    // zero is always reached
    assert!(dec(false, 0, 5).reaches(0, 7));
    // tiny and huge exponents
    assert!(dec(false, 1, -1_000_000_000_000_000_000).reaches(1, 1_000_000));
    assert!(!dec(false, 1, -1_000_000_000_000_000_000).reaches(0, 1));
    assert!(!dec(false, 1, 1_000_000_000_000_000_000).reaches(1_000_000, 1));
    assert!(dec(false, 1, 1_000_000_000_000_000_000).reaches(1_000_000, 0));
    // infinity and not-a-number never are
    assert!(!Decimal::Infinite { negative: false }.reaches(1_000_000, 1));
    assert!(!Decimal::NotANumber.reaches(1_000_000, 1));
    assert!(!Decimal::NotANumber.reaches(0, 0));
}

// ----- order statistics -----------------------------------------------------

#[test]
fn median_is_doubled() {
    assert_eq!(median(&vec![7]), 14);
    assert_eq!(median(&vec![1, 2, 3]), 4);
    assert_eq!(median(&vec![1, 2, 3, 4]), 5);
    assert_eq!(median(&vec![255, 255]), 510);
}

#[test]
fn quartiles_at_quarter_positions() {
    // positions 2 and 6 of seven values: 2 and 6
    assert_eq!(quartiles(&vec![1, 2, 3, 4, 5, 6, 7]), (4, 8, 12));
    // positions 2.25 and 6.75 of eight values: averages 2.5 and 6.5
    assert_eq!(quartiles(&vec![1, 2, 3, 4, 5, 6, 7, 8]), (5, 9, 13));
    // positions 1.5 and 4.5 of five values
    assert_eq!(quartiles(&vec![1, 2, 3, 4, 5]), (3, 6, 9));
    // positions outside the sample take its ends
    assert_eq!(quartiles(&vec![9]), (18, 18, 18));
    assert_eq!(quartiles(&vec![2, 4]), (4, 6, 8));
}

#[test]
fn quartiles_ordered() {
    let q = quartiles(&vec![0, 3, 3, 8, 9, 200, 201]);
    assert!(q.0 <= q.1 && q.1 <= q.2);
}

#[test]
fn channel_is_sorted() {
    let data = rgb(&[[9, 1, 5], [3, 2, 5], [6, 0, 5]]);
    assert_eq!(sorted_channel(&data, 3, 0), vec![3, 6, 9]);
    assert_eq!(sorted_channel(&data, 3, 1), vec![0, 1, 2]);
}

#[test]
fn median_ignores_order_of_images() {
    let a = rgb(&[[9, 1, 5], [3, 2, 5], [6, 0, 5], [1, 1, 1]]);
    let b = rgb(&[[1, 1, 1], [6, 0, 5], [9, 1, 5], [3, 2, 5]]);
    for ch in 0..3 {
        assert_eq!(median(&sorted_channel(&a, 3, ch)), median(&sorted_channel(&b, 3, ch)));
    }
}

// ----- brightness -----------------------------------------------------------

#[test]
fn darker_picks_least_brightness() {
    let data = rgb(&[[50, 50, 50], [10, 20, 30], [0, 0, 100], [200, 0, 0]]);
    // brightness 150, 60, 100, 200
    assert_eq!(calc_pixel_darker(&data, 3), vec![10, 20, 30]);
}

#[test]
fn darker_picks_first_of_ties() {
    let data = rgb(&[[5, 5, 5], [1, 2, 3], [3, 2, 1]]);
    assert_eq!(calc_pixel_darker(&data, 3), vec![1, 2, 3]);
}

#[test]
fn lighter_picks_greatest_brightness() {
    let data = rgb(&[[50, 50, 50], [10, 20, 30], [0, 0, 200], [200, 0, 0]]);
    assert_eq!(calc_pixel_lighter(&data, 3), vec![0, 0, 200]);
}

#[test]
fn lighter_with_black_pixels_picks_first() {
    let data = rgb(&[[0, 0, 0], [0, 0, 0]]);
    assert_eq!(calc_pixel_lighter(&data, 3), vec![0, 0, 0]);
}

#[test]
fn brightness_ignores_alpha() {
    let data = vec![10, 10, 10, 0, 20, 20, 20, 255];
    assert_eq!(calc_pixel_darker(&data, 4), vec![10, 10, 10, 0]);
    assert_eq!(calc_pixel_lighter(&data, 4), vec![20, 20, 20, 255]);
}

// ----- outliers -------------------------------------------------------------

fn one_outlier() -> Vec<u8> {
    rgb(&[[100, 100, 100], [100, 100, 100], [100, 100, 100], [200, 200, 200]])
}

#[test]
fn single_outlier_is_used_whatever_the_selection() {
    let data = one_outlier();
    for sel in [
        OutlierSelectionMode::First,
        OutlierSelectionMode::Last,
        OutlierSelectionMode::Extreme,
        OutlierSelectionMode::Average,
    ] {
        let (p, out) = select_outlier_pixel(&abs(1, 1), sel, BackgroundMode::First, &data, 3, 0);
        assert_eq!(p, vec![200, 200, 200]);
        assert!(out);
    }
}

fn two_outliers() -> Vec<u8> {
    rgb(&[[100, 100, 100], [200, 200, 200], [100, 100, 100], [251, 251, 251], [100, 100, 100]])
}

#[test]
fn outlier_first_last_extreme_average() {
    let data = two_outliers();
    let t = abs(1, 1);
    let bg = BackgroundMode::Median;
    assert_eq!(select_outlier_pixel(&t, OutlierSelectionMode::First, bg, &data, 3, 0).0, vec![200, 200, 200]);
    assert_eq!(select_outlier_pixel(&t, OutlierSelectionMode::Last, bg, &data, 3, 0).0, vec![251, 251, 251]);
    assert_eq!(select_outlier_pixel(&t, OutlierSelectionMode::Extreme, bg, &data, 3, 0).0, vec![251, 251, 251]);
    // (200 + 251) / 2 = 225.5, rounded up
    assert_eq!(select_outlier_pixel(&t, OutlierSelectionMode::Average, bg, &data, 3, 0).0, vec![226, 226, 226]);
}

#[test]
fn outlier_analysis_lists_outliers() {
    let data = two_outliers();
    let a = outlier_analysis(&abs(1, 1), &data, 3);
    assert_eq!(a.outliers, vec![1, 3]);
    assert_eq!(a.extreme, 3);
    assert_eq!(a.medians, vec![200, 200, 200]);
}

#[test]
fn threshold_is_fraction_of_colour_range() {
    // distance sqrt(3) * 10 = 17.32; threshold 0.0679 * 255 = 17.31
    let data = rgb(&[[100, 100, 100], [100, 100, 100], [110, 110, 110]]);
    let a = outlier_analysis(&abs(679, 4), &data, 3);
    assert_eq!(a.outliers, vec![2]);
    // threshold 0.068 * 255 = 17.34
    let b = outlier_analysis(&abs(68, 3), &data, 3);
    assert_eq!(b.outliers, Vec::<usize>::new());
}

#[test]
fn larger_threshold_finds_fewer_outliers() {
    let data = two_outliers();
    assert_eq!(outlier_analysis(&abs(1, 1), &data, 3).outliers, vec![1, 3]);
    // 0.5 * 255 = 127.5; distances sqrt(3) * 100 = 173 and sqrt(3) * 151 = 261
    assert_eq!(outlier_analysis(&abs(5, 1), &data, 3).outliers, vec![1, 3]);
    // 0.8 * 255 = 204
    assert_eq!(outlier_analysis(&abs(8, 1), &data, 3).outliers, vec![3]);
    assert_eq!(outlier_analysis(&abs(2, 0), &data, 3).outliers, Vec::<usize>::new());
}

#[test]
fn infinite_or_undefined_threshold_finds_no_outlier() {
    let data = two_outliers();
    let inf = OutlierMode::Absolute { threshold: Decimal::Infinite { negative: false } };
    assert_eq!(outlier_analysis(&inf, &data, 3).outliers, Vec::<usize>::new());
    let nan = OutlierMode::Relative { threshold: Decimal::NotANumber };
    assert_eq!(outlier_analysis(&nan, &data, 3).outliers, Vec::<usize>::new());
    // a tiny threshold makes every sample that differs from the median an outlier
    let tiny = OutlierMode::Absolute { threshold: dec(false, 1, -30) };
    assert_eq!(outlier_analysis(&tiny, &data, 3).outliers, vec![1, 3]);
}

#[test]
fn zero_threshold_makes_every_sample_an_outlier() {
    let data = rgb(&[[7, 7, 7], [7, 7, 7]]);
    let a = outlier_analysis(&abs(0, 0), &data, 3);
    assert_eq!(a.outliers, vec![0, 1]);
    assert_eq!(a.extreme, 0);
}

#[test]
fn relative_threshold_uses_interquartile_range() {
    // one channel: median 30, quartiles 10 and 50, so 0 and 60 are 0.75 IQR away
    let data = vec![0, 10, 20, 30, 40, 50, 60];
    let t = rel(75, 2);
    let a = outlier_analysis(&t, &data, 1);
    assert_eq!(a.outliers, vec![0, 6]);
    assert_eq!(a.extreme, 0);
    assert_eq!(select_outlier_pixel(&t, OutlierSelectionMode::Last, BackgroundMode::First, &data, 1, 0).0, vec![60]);
    assert_eq!(select_outlier_pixel(&t, OutlierSelectionMode::Average, BackgroundMode::First, &data, 1, 0).0, vec![30]);
    // 0.76 IQR is not reached
    assert_eq!(outlier_analysis(&rel(76, 2), &data, 1).outliers, Vec::<usize>::new());
}

#[test]
fn relative_threshold_with_zero_range_uses_colour_steps() {
    // quartiles both 0: distances are measured in plain colour steps
    let data = vec![0, 0, 0, 0, 0, 0, 100];
    assert_eq!(outlier_analysis(&rel(100, 0), &data, 1).outliers, vec![6]);
    assert_eq!(outlier_analysis(&rel(101, 0), &data, 1).outliers, Vec::<usize>::new());
}

fn no_outlier() -> Vec<u8> {
    rgb(&[[10, 20, 30], [10, 20, 30], [13, 23, 34]])
}

#[test]
fn background_modes() {
    let data = no_outlier();
    let t = abs(5, 1);
    let sel = OutlierSelectionMode::Extreme;
    assert_eq!(select_outlier_pixel(&t, sel, BackgroundMode::First, &data, 3, 2), (vec![10, 20, 30], false));
    assert_eq!(select_outlier_pixel(&t, sel, BackgroundMode::Random, &data, 3, 2), (vec![13, 23, 34], false));
    // 11, 21, 31.33
    assert_eq!(select_outlier_pixel(&t, sel, BackgroundMode::Average, &data, 3, 0), (vec![11, 21, 31], false));
    assert_eq!(select_outlier_pixel(&t, sel, BackgroundMode::Median, &data, 3, 0), (vec![10, 20, 30], false));
}

#[test]
fn median_background_rounds_half_up() {
    let data = vec![10, 11];
    assert_eq!(
        select_outlier_pixel(&abs(1, 0), OutlierSelectionMode::First, BackgroundMode::Median, &data, 1, 0),
        (vec![11], false)
    );
}

#[test]
fn select_pixel_dispatches() {
    let data = two_outliers();
    let t = abs(1, 1);
    let sel = OutlierSelectionMode::First;
    let bg = BackgroundMode::First;
    assert_eq!(select_pixel(SelectionMode::Darker, &t, sel, bg, &data, 3, 0), (vec![100, 100, 100], false));
    assert_eq!(select_pixel(SelectionMode::Lighter, &t, sel, bg, &data, 3, 0), (vec![251, 251, 251], false));
    assert_eq!(select_pixel(SelectionMode::Outlier, &t, sel, bg, &data, 3, 0), (vec![200, 200, 200], true));
}

// ----- processor ------------------------------------------------------------

#[test]
fn random_background_picks_an_input_sample() {
    let data = no_outlier();
    let mut p = ChronoProcessor::new(
        SelectionMode::Outlier,
        abs(5, 1),
        BackgroundMode::Random,
        OutlierSelectionMode::Extreme,
        Compression::GZip,
    );
    for _ in 0..50 {
        let mut pixel = vec![0; 3];
        let out = p.calc_pixel(&data, &mut pixel);
        assert!(!out);
        assert!(pixel == vec![10, 20, 30] || pixel == vec![13, 23, 34]);
    }
}

#[test]
fn calc_pixel_outlier() {
    let mut p = ChronoProcessor::new(
        SelectionMode::Outlier,
        abs(1, 1),
        BackgroundMode::Random,
        OutlierSelectionMode::Average,
        Compression::ZLib,
    );
    let mut pixel = vec![0; 3];
    assert!(p.calc_pixel(&two_outliers(), &mut pixel));
    assert_eq!(pixel, vec![226, 226, 226]);
    assert_eq!(p.compression(), Compression::ZLib);
}

#[test]
fn process_slice_writes_one_output_row() {
    // two pixels per row, three images, RGB; rows are 8 bytes apart
    let layout = SliceLayout { width: 2, height: 2, width_stride: 3, height_stride: 8 };
    let data: Vec<u8> = vec![
        100, 100, 100, 1, 2, 3, 0, 0, //
        100, 100, 100, 1, 2, 3, 0, 0, //
        200, 200, 200, 1, 2, 3, 0, 0, //
    ];
    let mut p = ChronoProcessor::new(
        SelectionMode::Outlier,
        abs(1, 1),
        BackgroundMode::First,
        OutlierSelectionMode::Extreme,
        Compression::GZip,
    );
    let mut buffer = vec![9u8; 16];
    let mut mask = vec![7u8; 16];
    p.process_slice(&layout, &data, 3, 1, &mut buffer, &mut mask);
    assert_eq!(buffer, vec![9, 9, 9, 9, 9, 9, 9, 9, 200, 200, 200, 1, 2, 3, 9, 9]);
    assert_eq!(mask, vec![7, 7, 7, 7, 7, 7, 7, 7, 255, 255, 255, 0, 0, 0, 7, 7]);
}

#[test]
fn process_slice_alpha_mask_is_opaque() {
    let layout = SliceLayout { width: 1, height: 1, width_stride: 4, height_stride: 4 };
    let data: Vec<u8> = vec![5, 5, 5, 0, 9, 9, 9, 128];
    let mut p = ChronoProcessor::new(
        SelectionMode::Darker,
        abs(1, 1),
        BackgroundMode::First,
        OutlierSelectionMode::Extreme,
        Compression::GZip,
    );
    let mut buffer = vec![0u8; 4];
    let mut mask = vec![0u8; 4];
    p.process_slice(&layout, &data, 2, 0, &mut buffer, &mut mask);
    assert_eq!(buffer, vec![5, 5, 5, 0]);
    assert_eq!(mask, vec![0, 0, 0, 255]);
}

// ----- command line ---------------------------------------------------------

fn cli() -> Cli {
    Cli {
        pattern: "img/*.jpg".to_string(),
        temp_dir: None,
        output: "out.jpg".to_string(),
        blend_output: Some("blend.png".to_string()),
        mode: None,
        threshold: None,
        background: None,
        outlier: None,
        compression: None,
        quality: None,
        debug: true,
    }
}

#[test]
fn cli_defaults() {
    let c = cli();
    assert!(c.check_modes());
    let p = c.parse().unwrap();
    assert_eq!(p.pattern, "img/*.jpg");
    assert_eq!(p.temp_dir, None);
    assert_eq!(p.output, "out.jpg");
    assert_eq!(p.blend_output, Some("blend.png".to_string()));
    assert_eq!(p.mode, SelectionMode::Outlier);
    assert_eq!(p.threshold, abs(5, 2));
    assert_eq!(p.background, BackgroundMode::Random);
    assert_eq!(p.outlier, OutlierSelectionMode::Extreme);
    assert_eq!(p.compression, Compression::GZip);
    assert_eq!(p.quality, 95);
    assert!(p.debug);
}

#[test]
fn cli_given_values() {
    let mut c = cli();
    c.mode = Some("lighter".to_string());
    c.threshold = Some("rel/0.5".to_string());
    c.background = Some("median".to_string());
    c.outlier = Some("first".to_string());
    c.compression = Some("deflate".to_string());
    c.quality = Some(100);
    c.temp_dir = Some("/tmp/x".to_string());
    let p = c.parse().unwrap();
    assert_eq!(p.mode, SelectionMode::Lighter);
    assert_eq!(p.threshold, rel(5, 1));
    assert_eq!(p.background, BackgroundMode::Median);
    assert_eq!(p.outlier, OutlierSelectionMode::First);
    assert_eq!(p.compression, Compression::Deflate);
    assert_eq!(p.quality, 100);
    assert_eq!(p.temp_dir, Some("/tmp/x".to_string()));
}

#[test]
fn cli_quality_out_of_range() {
    let mut c = cli();
    c.quality = Some(0);
    assert_eq!(
        c.parse().unwrap_err(),
        ParseCliError("Expected 0 < qualtiy <= 100. Got value 0".to_string())
    );
    c.quality = Some(101);
    assert_eq!(
        c.parse().unwrap_err(),
        ParseCliError("Expected 0 < qualtiy <= 100. Got value 101".to_string())
    );
    c.quality = Some(255);
    assert_eq!(
        c.parse().unwrap_err(),
        ParseCliError("Expected 0 < qualtiy <= 100. Got value 255".to_string())
    );
    c.quality = Some(1);
    assert_eq!(c.parse().unwrap().quality, 1);
}

#[test]
fn cli_parse_is_repeatable() {
    let mut c = cli();
    c.threshold = Some("rel/2.5e-1".to_string());
    let a = c.parse().unwrap();
    let b = c.parse().unwrap();
    assert_eq!(a.pattern, b.pattern);
    assert_eq!(a.temp_dir, b.temp_dir);
    assert_eq!(a.output, b.output);
    assert_eq!(a.blend_output, b.blend_output);
    assert_eq!(a.mode, b.mode);
    assert_eq!(a.threshold, b.threshold);
    assert_eq!(a.threshold, rel(25, 2));
    assert_eq!(a.background, b.background);
    assert_eq!(a.outlier, b.outlier);
    assert_eq!(a.compression, b.compression);
    assert_eq!(a.quality, b.quality);
    assert_eq!(a.debug, b.debug);
    c.quality = Some(0);
    assert_eq!(c.parse().unwrap_err(), c.parse().unwrap_err());
}

#[test]
fn cli_mode_with_threshold_text() {
    let mut c = cli();
    c.mode = Some("outlier/0.1".to_string());
    assert!(c.check_modes());
    assert_eq!(c.parse().unwrap().mode, SelectionMode::Outlier);
    assert_eq!(SelectionMode::from_string("outlier/0.1"), Ok(SelectionMode::Outlier));
    assert_eq!(SelectionMode::from_string("outlier/1e-3"), Ok(SelectionMode::Outlier));
    for bad in ["outlier/x", "outlier/", "outlier/0.1/zz", "outliers", "lighter/0.1"] {
        assert_eq!(
            SelectionMode::from_string(bad),
            Err(ParseEnumError(format!(
                "Not a pixel selection mode: {}. Must be one of (lighter|darker|outlier)",
                bad
            )))
        );
    }
    let mut c = cli();
    c.mode = Some("outlier/x".to_string());
    assert!(!c.check_modes());
    let mut c = cli();
    c.threshold = Some("abs/1e-3".to_string());
    assert_eq!(c.parse().unwrap().threshold, abs(1, 3));
}

#[test]
fn cli_bad_modes_detected() {
    let mut c = cli();
    c.mode = Some("brightest".to_string());
    assert!(!c.check_modes());
    let mut c = cli();
    c.threshold = Some("abs".to_string());
    assert!(!c.check_modes());
    let mut c = cli();
    c.threshold = Some("fraction/0.1".to_string());
    assert!(!c.check_modes());
    let mut c = cli();
    c.compression = Some("lz4".to_string());
    assert!(!c.check_modes());
}
