use swatch::backend::{adjust, get, Backend};
use swatch::brightness::Brightness;
use swatch::color::{Color, Frac};
use swatch::median_cut::{get_ranges, split_into_buckets, MedianCutBackend};
use swatch::util::{generic_adjust, set_bg, set_fg};

fn c(r: u8, g: u8, b: u8) -> Color {
    Color::new(r, g, b)
}

#[test]
fn quantizer_returns_exactly_16_colors() {
    let mut pixels: Vec<Color> = Vec::new();
    let mut i: u32 = 0;
    while i < 100 {
        pixels.push(c((i * 7 % 256) as u8, (i * 13 % 256) as u8, (i * 29 % 256) as u8));
        i += 1;
    }
    let out = split_into_buckets(&pixels, 1, 16);
    assert_eq!(out.len(), 16);
}

#[test]
fn quantizer_is_deterministic() {
    let mut pixels: Vec<Color> = Vec::new();
    let mut i: u32 = 0;
    while i < 64 {
        pixels.push(c((i * 11 % 256) as u8, (255 - i * 3 % 256) as u8, (i * i % 256) as u8));
        i += 1;
    }
    let first = split_into_buckets(&pixels, 1, 16);
    let second = split_into_buckets(&pixels, 1, 16);
    assert_eq!(first, second);
}

#[test]
fn uniform_input_quantizes_to_16_copies() {
    let pixels = vec![c(10, 20, 30); 256];
    let out = split_into_buckets(&pixels, 1, 16);
    assert_eq!(out, vec![c(10, 20, 30); 16]);
}

#[test]
fn tie_between_r_and_g_ranges_splits_on_r() {
    // R-range == G-range == 15, B-range == 0. Every split must choose R, so
    // the output is the input sorted by the red channel; a split on G would
    // give the reverse order.
    let order: [u8; 16] = [3, 1, 4, 15, 9, 2, 6, 8, 10, 0, 5, 13, 11, 7, 14, 12];
    let pixels: Vec<Color> = order.iter().map(|&i| c(i, 15 - i, 0)).collect();
    let out = split_into_buckets(&pixels, 1, 16);
    let expected: Vec<Color> = (0u8..16).map(|i| c(i, 15 - i, 0)).collect();
    assert_eq!(out, expected);
}

#[test]
fn ranges_are_per_channel_max_minus_min() {
    let pixels = vec![c(10, 0, 200), c(60, 5, 100), c(35, 250, 150)];
    assert_eq!(get_ranges(&pixels), (50, 250, 100));
}

#[test]
fn dark_adjustment_recolors_the_anchor_slots() {
    let mut raw: Vec<Color> = Vec::new();
    raw.push(c(5, 5, 5));
    for i in 1u8..8 {
        raw.push(c(i, 2 * i, 3 * i));
    }
    for _ in 8..15 {
        raw.push(c(200, 0, 0));
    }
    raw.push(c(50, 50, 50));
    let out = adjust(&raw, Brightness::Dark);
    assert_eq!(out.len(), 16);
    // Slot 0 keeps raw[0] untouched: its red channel 5 does not exceed 16.
    assert_eq!(out[0], c(5, 5, 5));
    let expected_7 = c(200, 0, 0).blend(c(0xEE, 0xEE, 0xEE));
    assert_eq!(expected_7, c(219, 119, 119));
    assert_eq!(out[7], expected_7);
    assert_eq!(out[8], expected_7.darken(Frac::new(30, 100)));
    assert_eq!(out[8], c(153, 83, 83));
    assert_eq!(out[15], c(200, 0, 0).blend(c(0xEE, 0xEE, 0xEE)));
    // The untouched band slots carry the duplicated upper half.
    for k in 1..7 {
        assert_eq!(out[k], c(200, 0, 0));
    }
    for k in 9..15 {
        assert_eq!(out[k], c(200, 0, 0));
    }
}

#[test]
fn dark_adjustment_darkens_slot_0_above_the_red_threshold() {
    let mut raw: Vec<Color> = vec![c(100, 50, 50)];
    for _ in 1..16 {
        raw.push(c(30, 30, 30));
    }
    let out = adjust(&raw, Brightness::Dark);
    assert_eq!(out[0], c(60, 30, 30));
}

#[test]
fn light_adjustment_overrides_the_anchor_slots() {
    let mut raw: Vec<Color> = Vec::new();
    for i in 0u8..16 {
        raw.push(c(10 * i, 200 - 10 * i, 5 * i));
    }
    let first = raw[0];
    let last = raw[15];
    let out = adjust(&raw, Brightness::Light);
    assert_eq!(out.len(), 16);
    assert_eq!(out[0], last.lighten(Frac::new(85, 100)));
    assert_eq!(out[7], first);
    assert_eq!(out[8], last.darken(Frac::new(40, 100)));
    assert_eq!(out[15], first);
    // The remaining slots are the remapped entries desaturated to 1/2.
    for k in 1..7 {
        assert_eq!(out[k], raw[7 + k].saturate(Frac::new(1, 2)));
    }
    for k in 9..15 {
        assert_eq!(out[k], raw[k - 1].saturate(Frac::new(1, 2)));
    }
}

#[test]
fn get_runs_extraction_then_adjustment() {
    let pixels = vec![c(10, 20, 30); 256];
    let backend = MedianCutBackend {};
    let palette = get(&pixels, Brightness::Dark, &backend);
    assert_eq!(palette.len(), 16);
    // Quantizing a uniform image gives 16 copies, so every working slot
    // starts as (10, 20, 30); red 10 does not exceed 16, so slot 0 stays.
    assert_eq!(palette[0], c(10, 20, 30));
    let blended = c(10, 20, 30).blend(c(0xEE, 0xEE, 0xEE));
    assert_eq!(blended, c(124, 129, 134));
    assert_eq!(palette[7], blended);
    assert_eq!(palette[8], blended.darken(Frac::new(30, 100)));
    assert_eq!(palette[15], blended);
}

#[test]
fn backend_trait_is_object_shaped_over_pixels() {
    let pixels = vec![c(1, 2, 3); 16];
    let backend = MedianCutBackend {};
    let raw = backend.generate_colors(&pixels);
    assert_eq!(raw.len(), 16);
}

#[test]
fn generic_adjust_dark_recolors_around_the_first_entry() {
    let colors = vec![c(100, 100, 100); 16];
    let out = generic_adjust(&colors, Brightness::Dark);
    assert_eq!(out.len(), 16);
    assert_eq!(out[0], c(20, 20, 20));
    assert_eq!(out[7], c(196, 196, 196));
    assert_eq!(out[8], c(78, 78, 78));
    assert_eq!(out[15], c(196, 196, 196));
    assert_eq!(out[1], c(100, 100, 100));
}

#[test]
fn generic_adjust_light_desaturates_and_dims_every_entry() {
    let colors = vec![c(200, 100, 100); 16];
    let out = generic_adjust(&colors, Brightness::Light);
    assert_eq!(out.len(), 16);
    let transformed = c(200, 100, 100).saturate(Frac::new(60, 100)).darken(Frac::new(50, 100));
    assert_eq!(out[1], transformed);
    let anchor = transformed.lighten(Frac::new(95, 100));
    assert_eq!(out[0], anchor);
    assert_eq!(out[7], anchor.darken(Frac::new(75, 100)));
    assert_eq!(out[8], anchor.darken(Frac::new(25, 100)));
    assert_eq!(out[15], anchor.darken(Frac::new(75, 100)));
}

#[test]
fn escape_sequences_carry_decimal_channels() {
    assert_eq!(set_fg(c(255, 0, 10)), "\u{1b}[38;2;255;0;10m");
    assert_eq!(set_bg(c(255, 0, 10)), "\u{1b}[48;2;255;0;10m");
    assert_eq!(set_fg(c(7, 77, 177)), "\u{1b}[38;2;7;77;177m");
}
