use planet_raster::color::{rainbow_segment, spectrum_stop, to_rgba_bytes, Color};
use planet_raster::framebuffer::Framebuffer;
use planet_raster::scalar::Scalar;

fn depth(v: f32) -> Scalar {
    Scalar::from_bits(v.to_bits())
}

const NAVY: Color = Color { r: 5, g: 5, b: 15, a: 255 };
const RED: Color = Color { r: 200, g: 10, b: 20, a: 255 };
const GREEN: Color = Color { r: 10, g: 220, b: 30, a: 128 };

#[test]
fn new_fills_background_and_infinite_depth() {
    let fb = Framebuffer::new(4, 3, NAVY);
    assert_eq!(fb.width(), 4);
    assert_eq!(fb.height(), 3);
    assert_eq!(fb.background_color(), NAVY);
    assert_eq!(fb.current_color(), Color::new(255, 255, 255, 255));
    let pixels = fb.image_data();
    assert_eq!(pixels.len(), 12);
    assert!(pixels.iter().all(|c| *c == NAVY));
    for y in 0..3 {
        for x in 0..4 {
            assert_eq!(fb.depth_at(x, y), Some(Scalar::infinity()));
            assert_eq!(fb.color_at(x, y), Some(NAVY));
        }
    }
}

#[test]
fn empty_framebuffer_has_no_pixels() {
    let mut fb = Framebuffer::new(0, 7, NAVY);
    assert_eq!(fb.image_data().len(), 0);
    fb.set_pixel_with_color(0, 0, RED);
    fb.set_pixel_depth_tested(0, 0, depth(1.0), RED);
    assert_eq!(fb.color_at(0, 0), None);
    assert_eq!(fb.image_data().len(), 0);
}

#[test]
fn set_pixel_writes_row_major_from_top_left() {
    let mut fb = Framebuffer::new(4, 3, NAVY);
    fb.set_pixel_with_color(1, 2, RED);
    let pixels = fb.image_data();
    for (i, c) in pixels.iter().enumerate() {
        if i == 2 * 4 + 1 {
            assert_eq!(*c, RED);
        } else {
            assert_eq!(*c, NAVY);
        }
    }
    assert_eq!(fb.depth_at(1, 2), Some(Scalar::infinity()));
}

#[test]
fn set_pixel_uses_the_current_color() {
    let mut fb = Framebuffer::new(2, 2, NAVY);
    fb.set_pixel(0, 1);
    assert_eq!(fb.color_at(0, 1), Some(Color::white()));
    fb.set_current_color(GREEN);
    assert_eq!(fb.current_color(), GREEN);
    fb.set_pixel(1, 0);
    assert_eq!(fb.color_at(1, 0), Some(GREEN));
    assert_eq!(fb.color_at(0, 0), Some(NAVY));
}

#[test]
fn out_of_range_writes_are_ignored() {
    let mut fb = Framebuffer::new(4, 3, NAVY);
    let before = fb.image_data();
    for (x, y) in [(-1, 0), (0, -1), (4, 0), (0, 3), (4, 3), (i32::MAX, i32::MAX), (i32::MIN, 0)] {
        fb.set_pixel(x, y);
        fb.set_pixel_with_color(x, y, RED);
        fb.set_pixel_depth(x, y, depth(0.5));
        fb.set_pixel_depth_tested(x, y, depth(0.5), RED);
        assert!(!fb.depth_passes(x, y, depth(0.5)));
        assert_eq!(fb.color_at(x, y), None);
        assert_eq!(fb.depth_at(x, y), None);
    }
    assert_eq!(fb.image_data(), before);
}

#[test]
fn depth_test_keeps_the_nearer_fragment() {
    let mut fb = Framebuffer::new(3, 3, NAVY);
    assert!(fb.depth_passes(1, 1, depth(5.0)));
    fb.set_pixel_depth_tested(1, 1, depth(5.0), RED);
    assert_eq!(fb.color_at(1, 1), Some(RED));
    assert_eq!(fb.depth_at(1, 1), Some(depth(5.0)));

    assert!(!fb.depth_passes(1, 1, depth(6.0)));
    fb.set_pixel_depth_tested(1, 1, depth(6.0), GREEN);
    assert_eq!(fb.color_at(1, 1), Some(RED));
    assert_eq!(fb.depth_at(1, 1), Some(depth(5.0)));

    fb.set_pixel_depth_tested(1, 1, depth(5.0), GREEN);
    assert_eq!(fb.color_at(1, 1), Some(RED));

    fb.set_pixel_depth_tested(1, 1, depth(-2.0), GREEN);
    assert_eq!(fb.color_at(1, 1), Some(GREEN));
    assert_eq!(fb.depth_at(1, 1), Some(depth(-2.0)));
}

#[test]
fn depth_that_is_not_a_number_is_never_written() {
    let mut fb = Framebuffer::new(3, 3, NAVY);
    fb.set_pixel_depth_tested(2, 2, depth(f32::NAN), RED);
    assert_eq!(fb.color_at(2, 2), Some(NAVY));
    assert_eq!(fb.depth_at(2, 2), Some(Scalar::infinity()));
    fb.set_pixel_depth_tested(2, 2, depth(f32::INFINITY), RED);
    assert_eq!(fb.color_at(2, 2), Some(NAVY));
}

#[test]
fn set_pixel_depth_uses_the_current_color() {
    let mut fb = Framebuffer::new(3, 3, NAVY);
    fb.set_current_color(GREEN);
    fb.set_pixel_depth(0, 2, depth(1.5));
    assert_eq!(fb.color_at(0, 2), Some(GREEN));
    assert_eq!(fb.depth_at(0, 2), Some(depth(1.5)));
    fb.set_current_color(RED);
    fb.set_pixel_depth(0, 2, depth(1.5));
    assert_eq!(fb.color_at(0, 2), Some(GREEN));
}

#[test]
fn unconditional_write_leaves_depth_alone() {
    let mut fb = Framebuffer::new(3, 3, NAVY);
    fb.set_pixel_depth_tested(1, 0, depth(1.0), RED);
    fb.set_pixel_with_color(1, 0, GREEN);
    assert_eq!(fb.color_at(1, 0), Some(GREEN));
    assert_eq!(fb.depth_at(1, 0), Some(depth(1.0)));
}

#[test]
fn clear_restores_background_and_depth() {
    let mut fb = Framebuffer::new(3, 2, NAVY);
    fb.set_pixel_depth_tested(1, 1, depth(1.0), RED);
    fb.set_pixel_with_color(0, 0, GREEN);
    fb.set_background_color(GREEN);
    assert_eq!(fb.color_at(2, 1), Some(NAVY));
    fb.clear();
    assert_eq!(fb.width(), 3);
    assert_eq!(fb.height(), 2);
    assert!(fb.image_data().iter().all(|c| *c == GREEN));
    for y in 0..2 {
        for x in 0..3 {
            assert_eq!(fb.depth_at(x, y), Some(Scalar::infinity()));
        }
    }
    fb.set_pixel_depth_tested(1, 1, depth(9.0), RED);
    assert_eq!(fb.color_at(1, 1), Some(RED));
}

#[test]
fn rgba_bytes_keep_pixel_and_channel_order() {
    let mut fb = Framebuffer::new(2, 1, NAVY);
    fb.set_pixel_with_color(1, 0, GREEN);
    let bytes = to_rgba_bytes(&fb.image_data());
    assert_eq!(bytes, vec![5, 5, 15, 255, 10, 220, 30, 128]);
    assert_eq!(to_rgba_bytes(&Vec::new()), Vec::<u8>::new());
}

#[test]
fn named_colors() {
    assert_eq!(Color::white(), Color { r: 255, g: 255, b: 255, a: 255 });
    assert_eq!(Color::new(1, 2, 3, 4), Color { r: 1, g: 2, b: 3, a: 4 });
}

#[test]
fn colour_from_numbers_rounds_toward_zero_and_saturates() {
    let of = |v: f32| Scalar::from_bits(v.to_bits());
    assert_eq!(
        Color::from_scalars(of(12.9), of(-3.0), of(300.0), 255),
        Color { r: 12, g: 0, b: 255, a: 255 }
    );
    assert_eq!(
        Color::from_scalars(of(f32::NAN), of(255.0), of(254.999), 7),
        Color { r: 0, g: 255, b: 254, a: 7 }
    );
}

#[test]
fn rainbow_runs_from_red_to_violet() {
    let red = Color::new(255, 0, 0, 255);
    let orange = Color::new(255, 127, 0, 255);
    let yellow = Color::new(255, 255, 0, 255);
    let green = Color::new(0, 255, 0, 255);
    let blue = Color::new(0, 0, 255, 255);
    let indigo = Color::new(75, 0, 130, 255);
    let violet = Color::new(148, 0, 211, 255);
    assert_eq!(rainbow_segment(0), Some((red, orange)));
    assert_eq!(rainbow_segment(1), Some((orange, yellow)));
    assert_eq!(rainbow_segment(2), Some((yellow, green)));
    assert_eq!(rainbow_segment(3), Some((green, blue)));
    assert_eq!(rainbow_segment(4), Some((blue, indigo)));
    assert_eq!(rainbow_segment(5), Some((indigo, violet)));
    assert_eq!(rainbow_segment(6), None);
    assert_eq!(rainbow_segment(-1), None);
    assert_eq!(spectrum_stop(0), red);
    assert_eq!(spectrum_stop(6), violet);
    assert_eq!(Color::magenta(), Color::new(255, 0, 255, 255));
}

#[test]
fn of_two_equally_near_fragments_the_first_stays() {
    let mut one = Framebuffer::new(1, 1, NAVY);
    one.set_pixel_depth_tested(0, 0, depth(2.0), RED);
    one.set_pixel_depth_tested(0, 0, depth(2.0), GREEN);
    assert_eq!(one.color_at(0, 0), Some(RED));
    let mut other = Framebuffer::new(1, 1, NAVY);
    other.set_pixel_depth_tested(0, 0, depth(2.0), GREEN);
    other.set_pixel_depth_tested(0, 0, depth(2.0), RED);
    assert_eq!(other.color_at(0, 0), Some(GREEN));
}

#[test]
fn two_fragments_of_different_depth_commute() {
    let mut one = Framebuffer::new(2, 1, NAVY);
    one.set_pixel_depth_tested(1, 0, depth(2.0), RED);
    one.set_pixel_depth_tested(1, 0, depth(3.0), GREEN);
    let mut other = Framebuffer::new(2, 1, NAVY);
    other.set_pixel_depth_tested(1, 0, depth(3.0), GREEN);
    other.set_pixel_depth_tested(1, 0, depth(2.0), RED);
    assert_eq!(one.image_data(), other.image_data());
    assert_eq!(one.depth_at(1, 0), other.depth_at(1, 0));
    assert_eq!(one.color_at(1, 0), Some(RED));
    assert_eq!(one.depth_at(1, 0), Some(depth(2.0)));
}

/// Straight-alpha blend with the arithmetic done here and the clamping and
/// rounding done by the library.
fn blend(base: Color, top: Color, alpha: f32) -> Color {
    let number = |n: u8| f32::from_bits(Scalar::from_u8(n).to_bits());
    let a = f32::from_bits(depth(alpha).clamp_unit().to_bits());
    let mix = |b: u8, t: u8| depth(number(b) * (1.0 - a) + number(t) * a);
    Color::from_scalars(mix(base.r, top.r), mix(base.g, top.g), mix(base.b, top.b), 255)
}

#[test]
fn blend_at_weight_zero_keeps_the_base_and_at_one_gives_the_top() {
    for (base, top) in [(RED, NAVY), (NAVY, RED), (Color::white(), Color::new(0, 0, 0, 255))] {
        assert_eq!(blend(base, top, 0.0), base);
        assert_eq!(blend(base, top, 1.0), top);
        assert_eq!(blend(base, top, -3.0), base);
        assert_eq!(blend(base, top, 7.5), top);
    }
    assert_eq!(blend(RED, NAVY, 0.5), Color::new(102, 7, 17, 255));
}
