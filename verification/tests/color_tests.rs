use std::cmp::Ordering;
use swatch::color::{Color, ColorOrderBy, Frac};

fn c(r: u8, g: u8, b: u8) -> Color {
    Color::new(r, g, b)
}

#[test]
fn hex_round_trip_exact() {
    let samples = [
        c(0, 0, 0),
        c(255, 255, 255),
        c(10, 20, 30),
        c(171, 205, 239),
        c(1, 128, 254),
        c(200, 0, 0),
    ];
    for color in samples {
        let hex = color.to_hex();
        assert_eq!(Color::from_hex(&hex), Ok(color));
    }
}

#[test]
fn hex_format_is_canonical_uppercase() {
    assert_eq!(c(171, 205, 239).to_hex(), "#ABCDEF");
    assert_eq!(c(255, 0, 10).to_hex(), "#FF000A");
    assert_eq!(c(0, 0, 0).to_hex(), "#000000");
}

#[test]
fn hex_parse_is_case_insensitive() {
    assert_eq!(Color::from_hex("#abcdef"), Ok(c(171, 205, 239)));
    assert_eq!(Color::from_hex("#AbCdEf"), Ok(c(171, 205, 239)));
}

#[test]
fn hex_parse_rejects_short_strings() {
    assert!(Color::from_hex("").is_err());
    assert!(Color::from_hex("#FFF").is_err());
    assert!(Color::from_hex("#AABBC").is_err());
}

#[test]
fn hex_parse_rejects_non_hex_digits() {
    assert!(Color::from_hex("#GGHHII").is_err());
    assert!(Color::from_hex("#AABBCx").is_err());
    assert!(Color::from_hex("#AA BBC").is_err());
}

#[test]
fn hsl_round_trip_is_exact_on_a_grid() {
    let mut v: u32 = 0;
    let mut values: Vec<u8> = Vec::new();
    while v < 256 {
        values.push(v as u8);
        v += 17;
    }
    values.push(255);
    for &r in &values {
        for &g in &values {
            for &b in &values {
                let color = c(r, g, b);
                let hsl = color.to_hsl();
                assert_eq!(Color::from_hsl(hsl), color);
            }
        }
    }
}

#[test]
fn hsl_round_trip_on_primaries_and_grays() {
    for color in [
        c(255, 0, 0),
        c(0, 255, 0),
        c(0, 0, 255),
        c(255, 255, 0),
        c(0, 255, 255),
        c(255, 0, 255),
        c(128, 128, 128),
        c(1, 1, 1),
        c(254, 254, 254),
    ] {
        assert_eq!(Color::from_hsl(color.to_hsl()), color);
    }
}

#[test]
fn blend_divides_each_operand_before_summing() {
    // Both red channels odd: per-operand halving gives 0 + 0 = 0, while the
    // naive (1 + 1) / 2 would give 1. The two forms must differ here.
    let a = c(1, 0, 0);
    let b = c(1, 0, 0);
    let blended = a.blend(b);
    assert_eq!(blended, c(0, 0, 0));
    let naive = ((1u16 + 1u16) / 2) as u8;
    assert_ne!(blended.r, naive);
}

#[test]
fn blend_matches_per_channel_formula() {
    let a = c(255, 13, 200);
    let b = c(0, 27, 101);
    let blended = a.blend(b);
    assert_eq!(blended.r, 255 / 2 + 0 / 2);
    assert_eq!(blended.g, 13 / 2 + 27 / 2);
    assert_eq!(blended.b, 200 / 2 + 101 / 2);
}

#[test]
fn darken_scales_and_truncates() {
    assert_eq!(c(100, 200, 50).darken(Frac::new(50, 100)), c(50, 100, 25));
    assert_eq!(c(219, 119, 119).darken(Frac::new(30, 100)), c(153, 83, 83));
    assert_eq!(c(255, 255, 255).darken(Frac::new(100, 100)), c(0, 0, 0));
    assert_eq!(c(10, 20, 30).darken(Frac::new(0, 100)), c(10, 20, 30));
}

#[test]
fn lighten_moves_toward_white_and_truncates() {
    assert_eq!(c(100, 200, 50).lighten(Frac::new(50, 100)), c(177, 227, 152));
    assert_eq!(c(10, 20, 30).lighten(Frac::new(0, 100)), c(10, 20, 30));
    assert_eq!(c(10, 20, 30).lighten(Frac::new(100, 100)), c(255, 255, 255));
}

#[test]
fn saturate_replaces_saturation_outright() {
    // A mid gray has saturation 0; flooring it to 1/2 must *increase* it.
    assert_eq!(c(100, 100, 100).saturate(Frac::new(1, 2)), c(150, 50, 50));
    // A muted red keeps its hue and lightness at the new saturation.
    assert_eq!(c(200, 100, 100).saturate(Frac::new(1, 2)), c(202, 97, 97));
}

#[test]
fn average_color_truncates_per_channel() {
    let pixels = vec![c(1, 2, 3), c(2, 3, 4), c(4, 5, 6)];
    assert_eq!(Color::average_color(&pixels), c(2, 3, 4));
    let one = vec![c(9, 8, 7)];
    assert_eq!(Color::average_color(&one), c(9, 8, 7));
}

#[test]
fn compare_by_orders_on_the_chosen_channel() {
    let a = c(1, 9, 5);
    let b = c(2, 9, 4);
    assert_eq!(Color::compare_by(a, b, ColorOrderBy::R), Ordering::Less);
    assert_eq!(Color::compare_by(a, b, ColorOrderBy::G), Ordering::Equal);
    assert_eq!(Color::compare_by(a, b, ColorOrderBy::B), Ordering::Greater);
}

#[test]
fn find_color_reads_first_hash() {
    assert_eq!(Color::find_color("0: (170,187,204) #AABBCC srgb"), Ok(c(170, 187, 204)));
    assert_eq!(Color::find_color("#010203"), Ok(c(1, 2, 3)));
    assert!(Color::find_color("no color here").is_err());
    assert!(Color::find_color("tail too short #AABB").is_err());
}
