use png2svg::cli::{mode_from_token, mode_name, parse_colors, parse_mode, parse_u8, parse_u8_range};
use png2svg::color::{color_distance, to_hex, Color};
use png2svg::options::{
    opacity_from_options, palette_size_from_options, scaled_tolerance, VectorizeMode,
    VectorizeOptions,
};
use png2svg::render::points_to_path;
use png2svg::wide::{mul_wide, wide_lt};
use png2svg::simplify::{point_to_line_dist_sq, rdp_simplify, simplify_for_mode, Point};

#[test]
fn colours_are_parsed_within_range() {
    assert_eq!(parse_colors("12"), Ok(12));
    assert_eq!(parse_colors("+8"), Ok(8));
    assert_eq!(parse_colors("1"), Err("colors must be between 2 and 64".to_string()));
    assert_eq!(parse_colors("65"), Err("colors must be between 2 and 64".to_string()));
    assert_eq!(
        parse_colors("twelve"),
        Err("colors must be a whole number between 2 and 64".to_string())
    );
    assert_eq!(
        parse_colors("300"),
        Err("colors must be a whole number between 2 and 64".to_string())
    );
}

#[test]
fn bytes_are_read_in_decimal() {
    assert_eq!(parse_u8("0"), Some(0));
    assert_eq!(parse_u8("255"), Some(255));
    assert_eq!(parse_u8("007"), Some(7));
    assert_eq!(parse_u8("256"), None);
    assert_eq!(parse_u8(""), None);
    assert_eq!(parse_u8("+"), None);
    assert_eq!(parse_u8("-1"), None);
    assert_eq!(parse_u8(" 1"), None);
    assert_eq!(parse_u8_range("5", "level", 1, 9), Ok(5));
    assert_eq!(parse_u8_range("10", "level", 1, 9), Err("level must be between 1 and 9".to_string()));
}

#[test]
fn modes_are_read_in_any_case() {
    assert_eq!(parse_mode("logo"), Ok(VectorizeMode::Logo));
    assert_eq!(parse_mode("Poster"), Ok(VectorizeMode::Poster));
    assert_eq!(parse_mode("PIXEL-ART"), Ok(VectorizeMode::PixelArt));
    assert_eq!(parse_mode("pixelart"), Ok(VectorizeMode::PixelArt));
    assert_eq!(parse_mode("vector"), Err("mode must be one of: logo, poster, pixel".to_string()));
    assert_eq!(mode_from_token("Logo"), None);
}

#[test]
fn mode_names_read_back() {
    for m in [VectorizeMode::Logo, VectorizeMode::Poster, VectorizeMode::PixelArt] {
        assert_eq!(mode_from_token(mode_name(m)), Some(m));
    }
    assert_eq!(mode_name(VectorizeMode::PixelArt), "pixel");
}

#[test]
fn defaults_match_the_documented_values() {
    let o = VectorizeOptions::default();
    assert_eq!(o.colors, 8);
    assert_eq!(o.detail, 600);
    assert_eq!(o.smoothness, 500);
    assert_eq!(o.tolerance, 1500);
    assert_eq!(o.mode, VectorizeMode::Logo);
    assert_eq!(VectorizeMode::default(), VectorizeMode::Logo);
}

#[test]
fn palette_size_follows_colours_and_detail() {
    let o = VectorizeOptions::default();
    assert_eq!(palette_size_from_options(&o), 5);
    let o = VectorizeOptions { colors: 12, detail: 750, ..VectorizeOptions::default() };
    assert_eq!(palette_size_from_options(&o), 9);
    let o = VectorizeOptions { colors: 0, detail: 0, ..VectorizeOptions::default() };
    assert_eq!(palette_size_from_options(&o), 1);
    let o = VectorizeOptions { colors: 64, detail: 1000, ..VectorizeOptions::default() };
    assert_eq!(palette_size_from_options(&o), 64);
}

#[test]
fn tolerance_is_scaled_by_mode() {
    let o = VectorizeOptions::default();
    assert_eq!(scaled_tolerance(&o), None);
    let o = VectorizeOptions { mode: VectorizeMode::Poster, tolerance: 200, ..o };
    assert_eq!(scaled_tolerance(&o), Some(600));
    let o = VectorizeOptions { mode: VectorizeMode::Poster, tolerance: 2000, ..o };
    assert_eq!(scaled_tolerance(&o), Some(2000));
    let o = VectorizeOptions { mode: VectorizeMode::PixelArt, tolerance: 1500, ..o };
    assert_eq!(scaled_tolerance(&o), Some(6000));
}

#[test]
fn opacity_has_a_floor() {
    let o = VectorizeOptions::default();
    assert_eq!(opacity_from_options(255, &o), 1000);
    assert_eq!(opacity_from_options(128, &o), 950);
    assert_eq!(opacity_from_options(250, &o), 980);
}

#[test]
fn colours_are_written_in_hex() {
    assert_eq!(to_hex(Color { r: 255, g: 0, b: 16, a: 9 }), "ff0010");
    assert_eq!(to_hex(Color { r: 1, g: 171, b: 205, a: 0 }), "01abcd");
}

#[test]
fn distance_sums_squared_channel_differences() {
    let a = Color { r: 10, g: 20, b: 30, a: 255 };
    let b = Color { r: 13, g: 16, b: 30, a: 0 };
    assert_eq!(color_distance(a, b), 9 + 16 + 0 + 65025);
    assert_eq!(color_distance(a, a), 0);
}

fn pts(coords: &[(u64, u64)]) -> Vec<Point> {
    coords.iter().map(|&(x, y)| Point { x, y }).collect()
}

#[test]
fn straight_runs_collapse_to_their_ends() {
    let line = pts(&[(1, 1), (3, 1), (5, 1), (7, 1), (9, 1)]);
    assert_eq!(rdp_simplify(&line, 600), pts(&[(1, 1), (9, 1)]));
    let short = pts(&[(1, 1), (9, 9)]);
    assert_eq!(rdp_simplify(&short, 600), short);
}

#[test]
fn far_points_are_kept() {
    let bent = pts(&[(1, 1), (5, 1), (9, 9), (13, 1), (17, 1)]);
    let r = rdp_simplify(&bent, 600);
    assert_eq!(r, pts(&[(1, 1), (5, 1), (9, 9), (13, 1), (17, 1)]));
    let loose = rdp_simplify(&bent, 40000);
    assert_eq!(loose, pts(&[(1, 1), (17, 1)]));
}

#[test]
fn logo_mode_keeps_every_point() {
    let line = pts(&[(1, 1), (3, 1), (5, 1), (7, 1), (9, 1)]);
    let o = VectorizeOptions::default();
    assert_eq!(simplify_for_mode(line.clone(), &o), line);
    let o = VectorizeOptions { mode: VectorizeMode::PixelArt, ..o };
    assert_eq!(simplify_for_mode(line.clone(), &o), pts(&[(1, 1), (9, 1)]));
    let bent = pts(&[(1, 1), (5, 1), (9, 9), (13, 1), (17, 1)]);
    let o = VectorizeOptions { mode: VectorizeMode::Poster, tolerance: 1000, ..o };
    assert_eq!(simplify_for_mode(bent.clone(), &o), bent);
}

#[test]
fn paths_use_lines_or_curves() {
    let o = VectorizeOptions::default();
    let square = pts(&[(1, 1), (3, 1), (3, 3), (1, 3), (1, 1)]);
    assert_eq!(
        points_to_path(&square, &o),
        "M 0.50 0.50 L 1.50 0.50 L 1.50 1.50 L 0.50 1.50 L 0.50 0.50 Z"
    );
    assert_eq!(points_to_path(&pts(&[(1, 1)]), &o), "");
    let smooth = VectorizeOptions { smoothness: 1000, ..o };
    assert_eq!(
        points_to_path(&square, &smooth),
        "M 0.50 0.50 C 1.20 0.50 1.50 0.80 1.50 0.50 C 1.50 1.20 1.20 1.50 1.50 1.50 \
         C 0.80 1.50 0.50 1.20 0.50 1.50 L 0.50 0.50 Z"
    );
}

#[test]
fn distance_is_an_exact_fraction() {
    let p = Point { x: 0, y: 2 };
    let a = Point { x: 0, y: 0 };
    let b = Point { x: 2, y: 0 };
    let (num, den) = point_to_line_dist_sq(p, a, b);
    assert_eq!(num, (0, 16));
    assert_eq!(den, 4);
    assert_eq!(num.1 / den, 4);
    assert_eq!(point_to_line_dist_sq(Point { x: 3, y: 4 }, a, a), ((0, 25), 1));
    assert_eq!(point_to_line_dist_sq(Point { x: 5, y: 0 }, a, b), ((0, 9 * 4), 4));
}

#[test]
fn distances_stay_exact_at_full_width() {
    let far = 8589934591u64;
    let a = Point { x: 1, y: 1 };
    let b = Point { x: far, y: 1 };
    let p = Point { x: far / 2, y: far };
    let (num, den) = point_to_line_dist_sq(p, a, b);
    let len = (far - 1) as u128;
    let h = (far - 1) as u128;
    assert_eq!(den, len * len);
    let expected = mul_wide(h * len, h * len);
    assert_eq!(num, expected);
    assert!(num.0 > 0);
}

#[test]
fn wide_products_and_order() {
    assert_eq!(mul_wide(u128::MAX, u128::MAX), (u128::MAX - 1, 1));
    assert_eq!(mul_wide(1u128 << 64, 1u128 << 64), (1, 0));
    assert_eq!(mul_wide(12345, 678), (0, 12345 * 678));
    assert!(wide_lt((0, u128::MAX), (1, 0)));
    assert!(!wide_lt((2, 0), (1, u128::MAX)));
    assert!(wide_lt((3, 4), (3, 5)));
}
