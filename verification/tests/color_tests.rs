use multilayer_gol::color::{Color, ColorHSV};
use multilayer_gol::fraction::Fraction;

fn rgb(r: u8, g: u8, b: u8) -> Color {
    Color { r, g, b }
}

fn hsv(h: (u32, u32), s: (u32, u32), v: (u32, u32)) -> ColorHSV {
    ColorHSV {
        h: Fraction { num: h.0, den: h.1 },
        s: Fraction { num: s.0, den: s.1 },
        v: Fraction { num: v.0, den: v.1 },
    }
}

#[test]
fn add_colors_adds_each_channel() {
    let sum = Color::add_colors(&rgb(1, 2, 3), &rgb(10, 20, 30));
    assert_eq!(sum, rgb(11, 22, 33));
}

#[test]
fn add_colors_stops_at_255() {
    let sum = Color::add_colors(&rgb(200, 100, 255), &rgb(100, 155, 1));
    assert_eq!(sum, rgb(255, 255, 255));
    let sum = Color::add_colors(&rgb(254, 0, 128), &rgb(1, 0, 128));
    assert_eq!(sum, rgb(255, 0, 255));
}

#[test]
fn add_colors_with_black_changes_nothing() {
    let c = rgb(12, 200, 255);
    assert_eq!(Color::add_colors(&c, &rgb(0, 0, 0)), c);
    assert_eq!(Color::add_colors(&rgb(0, 0, 0), &c), c);
}

#[test]
fn add_colors_commutes() {
    let a = rgb(200, 17, 90);
    let b = rgb(100, 240, 3);
    assert_eq!(Color::add_colors(&a, &b), Color::add_colors(&b, &a));
}

#[test]
fn add_colors_associates_across_the_cap() {
    let a = rgb(200, 10, 128);
    let b = rgb(100, 20, 127);
    let c = rgb(50, 30, 1);
    let left = Color::add_colors(&Color::add_colors(&a, &b), &c);
    let right = Color::add_colors(&a, &Color::add_colors(&b, &c));
    assert_eq!(left, right);
    assert_eq!(left, rgb(255, 60, 255));
}

#[test]
fn every_order_of_the_same_colors_blends_alike() {
    let colors = [rgb(255, 0, 0), rgb(127, 255, 0), rgb(0, 255, 255), rgb(127, 0, 255)];
    let orders: [[usize; 4]; 6] =
        [[0, 1, 2, 3], [3, 2, 1, 0], [1, 0, 3, 2], [2, 3, 0, 1], [1, 3, 0, 2], [2, 0, 3, 1]];
    for order in orders {
        let mut sum = rgb(0, 0, 0);
        for k in order {
            sum = Color::add_colors(&sum, &colors[k]);
        }
        assert_eq!(sum, rgb(255, 255, 255));
    }
    let pair = [rgb(100, 0, 7), rgb(27, 0, 9)];
    assert_eq!(Color::add_colors(&pair[0], &pair[1]), rgb(127, 0, 16));
    assert_eq!(Color::add_colors(&pair[1], &pair[0]), rgb(127, 0, 16));
}

#[test]
fn color_to_hex_writes_two_digits_per_channel() {
    assert_eq!(Color::color_to_hex(&rgb(255, 0, 127)), "#ff007f");
    assert_eq!(Color::color_to_hex(&rgb(0, 0, 0)), "#000000");
    assert_eq!(Color::color_to_hex(&rgb(1, 2, 3)), "#010203");
    assert_eq!(Color::color_to_hex(&rgb(171, 205, 239)), "#abcdef");
    assert_eq!(Color::color_to_hex(&rgb(16, 9, 160)), "#1009a0");
}

#[test]
fn color_to_hex_agrees_with_the_standard_formatter() {
    for r in [0u8, 5, 15, 16, 99, 128, 200, 255] {
        for g in [0u8, 10, 77, 255] {
            for b in [0u8, 1, 254] {
                let expected = format!("#{:02x}{:02x}{:02x}", r, g, b);
                assert_eq!(Color::color_to_hex(&rgb(r, g, b)), expected);
            }
        }
    }
}

#[test]
fn to_rgb_gives_the_six_corner_colors() {
    assert_eq!(hsv((0, 1), (1, 1), (1, 1)).to_rgb(), rgb(255, 0, 0));
    assert_eq!(hsv((1, 6), (1, 1), (1, 1)).to_rgb(), rgb(255, 255, 0));
    assert_eq!(hsv((1, 3), (1, 1), (1, 1)).to_rgb(), rgb(0, 255, 0));
    assert_eq!(hsv((1, 2), (1, 1), (1, 1)).to_rgb(), rgb(0, 255, 255));
    assert_eq!(hsv((2, 3), (1, 1), (1, 1)).to_rgb(), rgb(0, 0, 255));
    assert_eq!(hsv((5, 6), (1, 1), (1, 1)).to_rgb(), rgb(255, 0, 255));
}

#[test]
fn to_rgb_rounds_the_middle_channel_down() {
    // 90 degrees: half way up the second sixth of the circle.
    assert_eq!(hsv((90, 360), (1, 1), (1, 1)).to_rgb(), rgb(127, 255, 0));
    // 270 degrees.
    assert_eq!(hsv((270, 360), (1, 1), (1, 1)).to_rgb(), rgb(127, 0, 255));
    // 30 degrees: x = 1/2.
    assert_eq!(hsv((30, 360), (1, 1), (1, 1)).to_rgb(), rgb(255, 127, 0));
    // 144 degrees: x = 2/5, and 255 * 2 / 5 is exactly 102.
    assert_eq!(hsv((2, 5), (1, 1), (1, 1)).to_rgb(), rgb(0, 255, 102));
    // 345 degrees, last sixth: x = 1/4.
    assert_eq!(hsv((345, 360), (1, 1), (1, 1)).to_rgb(), rgb(255, 0, 63));
}

#[test]
fn to_rgb_scales_with_saturation_and_value() {
    assert_eq!(hsv((0, 1), (1, 2), (1, 1)).to_rgb(), rgb(255, 127, 127));
    assert_eq!(hsv((0, 1), (1, 1), (1, 2)).to_rgb(), rgb(127, 0, 0));
    assert_eq!(hsv((1, 3), (0, 1), (1, 1)).to_rgb(), rgb(255, 255, 255));
    assert_eq!(hsv((1, 3), (1, 1), (0, 1)).to_rgb(), rgb(0, 0, 0));
    // 210 degrees, s = 1/2, v = 4/5: c = 2/5, x = 1/5, m = 2/5.
    assert_eq!(hsv((210, 360), (1, 2), (4, 5)).to_rgb(), rgb(102, 153, 204));
}

#[test]
fn to_rgb_takes_the_largest_denominators() {
    let max = u32::MAX;
    assert_eq!(hsv((0, max), (max, max), (max, max)).to_rgb(), rgb(255, 0, 0));
    assert_eq!(hsv((max - 1, max), (max, max), (max, max)).to_rgb(), rgb(255, 0, 0));
    // Just below 180 degrees: still the third sixth, blue three parts in `max` short of full.
    assert_eq!(hsv((max / 2, max), (max, max), (max, max)).to_rgb(), rgb(0, 255, 254));
    // Just above 180 degrees: the fourth sixth.
    assert_eq!(hsv((max / 2 + 1, max), (max, max), (max, max)).to_rgb(), rgb(0, 254, 255));
}
