use approx::{AbsDiffEq, RelativeEq};
use ray_canvas::color::Color;

fn close(a: f32, b: f32) -> bool {
    a.relative_eq(&b, f32::default_epsilon(), f32::default_max_relative())
}

fn colors_close(a: Color<f32>, b: Color<f32>) -> bool {
    close(a.r, b.r) && close(a.g, b.g) && close(a.b, b.b)
}

#[test]
fn add_colors() {
    let col1: Color<f32> = Color::new(0.9, 0.6, 0.75);
    let col2: Color<f32> = Color::new(0.7, 0.1, 0.25);
    let result: Color<f32> = col1 + col2;
    let expected_result: Color<f32> = Color::new(1.6, 0.7, 1.0);
    assert!(colors_close(result, expected_result));
}

#[test]
fn subtract_colors() {
    let col1: Color<f32> = Color::new(0.9, 0.6, 0.75);
    let col2: Color<f32> = Color::new(0.7, 0.1, 0.25);
    let result: Color<f32> = col1 - col2;
    let expected_result: Color<f32> = Color::new(0.2, 0.5, 0.5);
    assert!(colors_close(result, expected_result));
}

#[test]
fn multiply_color_by_scalar() {
    let col: Color<f32> = Color::new(0.2, 0.3, 0.4);
    let result: Color<f32> = col * 2.0;
    let expected_result: Color<f32> = Color::new(0.4, 0.6, 0.8);
    assert!(colors_close(result, expected_result));
}

#[test]
fn multiply_colors() {
    let col1: Color<f32> = Color::new(1.0, 0.2, 0.4);
    let col2: Color<f32> = Color::new(0.9, 1.0, 0.1);
    let result: Color<f32> = col1 * col2;
    let expected_result: Color<f32> = Color::new(0.9, 0.2, 0.04);
    assert!(colors_close(result, expected_result));
}

#[test]
fn integer_colors_are_exact() {
    let a: Color<i64> = Color::new(10, -20, 30);
    let b: Color<i64> = Color::new(1, 2, 3);
    assert_eq!(a + b, Color::new(11, -18, 33));
    assert_eq!(a - b, Color::new(9, -22, 27));
    assert_eq!(a * 3, Color::new(30, -60, 90));
    assert_eq!(a * b, Color::new(10, -40, 90));
}

#[test]
fn addition_commutes_and_self_difference_is_identity() {
    let a: Color<i64> = Color::new(7, -3, 255);
    let b: Color<i64> = Color::new(-100, 40, 1);
    assert_eq!(a + b, b + a);
    assert_eq!(b - b, Color::new(0, 0, 0));
    assert_eq!(a + (b - b), a);
}

#[test]
fn as_array_keeps_channel_order() {
    let c: Color<u8> = Color::new(1, 2, 3);
    assert_eq!(c.as_array(), [1, 2, 3]);
}

#[test]
fn as_rgb8_clamps_both_ends() {
    assert_eq!(Color::<i64>::new(383, -128, 128).as_rgb8(), Color::<u8>::new(255, 0, 128));
    assert_eq!(Color::<i64>::new(0, 255, 256).as_rgb8(), Color::<u8>::new(0, 255, 255));
    assert_eq!(Color::<i64>::new(i64::MIN, i64::MAX, 1).as_rgb8(), Color::<u8>::new(0, 255, 1));
}
