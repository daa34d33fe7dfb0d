use ray_canvas::canvas::Canvas;
use ray_canvas::color::Color;
use ray_canvas::ppm::ppm_from_canvas;

// Channels here are already scaled to 0..=255 and rounded, as a floating-point
// canvas is before encoding: 1.5 becomes 383, 0.5 becomes 128, -0.5 becomes -128,
// 1.0 becomes 255, 0.8 becomes 204 and 0.6 becomes 153.

#[test]
fn test_ppm_from_canvas_single_pixel() {
    let canvas: Canvas<i64> = Canvas::new(1, 1);
    let result = ppm_from_canvas(&canvas);
    let expected_result = "P3\n1 1\n255\n0 0 0\n";
    assert!(result.eq(expected_result))
}

#[test]
fn test_ppm_from_canvas_multiple_pixels() {
    let canvas: Canvas<i64> = Canvas::new(5, 3);
    let result = ppm_from_canvas(&canvas);
    let expected_result = "\
        P3\n\
        5 3\n\
        255\n\
        0 0 0 0 0 0 0 0 0 0 0 0 0 0 0 \n\
        0 0 0 0 0 0 0 0 0 0 0 0 0 0 0 \n\
        0 0 0 0 0 0 0 0 0 0 0 0 0 0 0\n";
    assert!(result.eq(expected_result))
}

#[test]
fn test_ppm_from_edited_canvas() {
    let mut canvas: Canvas<i64> = Canvas::new(5, 3);
    let color1 = Color::new(383, 0, 0);
    let color2 = Color::new(0, 128, 0);
    let color3 = Color::new(-128, 0, 255);
    canvas.set(0, 0, color1).unwrap();
    canvas.set(2, 1, color2).unwrap();
    canvas.set(4, 2, color3).unwrap();
    let result = ppm_from_canvas(&canvas);
    let expected_result = "\
        P3\n\
        5 3\n\
        255\n\
        255 0 0 0 0 0 0 0 0 0 0 0 0 0 0 \n\
        0 0 0 0 0 0 0 128 0 0 0 0 0 0 0 \n\
        0 0 0 0 0 0 0 0 0 0 0 0 0 0 255\n";
    assert!(result.eq(expected_result))
}

#[test]
fn test_ppm_multiline() {
    let mut canvas: Canvas<i64> = Canvas::new(10, 2);
    canvas.fill(Color::new(255, 204, 153));
    let result = ppm_from_canvas(&canvas);
    let expected_result = "\
        P3\n\
        10 2\n\
        255\n\
        255 204 153 255 204 153 255 204 153 255 204 153 255 204 153 255 204 \n\
        153 255 204 153 255 204 153 255 204 153 255 204 153 \n\
        255 204 153 255 204 153 255 204 153 255 204 153 255 204 153 255 204 \n\
        153 255 204 153 255 204 153 255 204 153 255 204 153\n";
    assert!(result.eq(expected_result))
}

#[test]
fn zero_sized_canvas_encodes_header_and_empty_body() {
    assert_eq!(ppm_from_canvas(&Canvas::new(0, 4)), "P3\n0 4\n255\n\n");
    assert_eq!(ppm_from_canvas(&Canvas::new(4, 0)), "P3\n4 0\n255\n\n");
}

#[test]
fn no_line_is_longer_than_seventy() {
    let mut canvas: Canvas<i64> = Canvas::new(37, 3);
    canvas.fill(Color::new(255, 255, 255));
    canvas.set(5, 1, Color::new(7, 42, 100)).unwrap();
    let text = ppm_from_canvas(&canvas);
    for line in text.split('\n') {
        assert!(line.len() <= 70, "line too long: {:?}", line);
    }
    assert!(text.ends_with("255\n"));
    assert!(!text.ends_with("\n\n"));
}

#[test]
fn exactly_full_line_does_not_add_an_empty_line() {
    // 70 characters are "255 " seventeen times and then "0 ": the next token wraps.
    let mut canvas: Canvas<i64> = Canvas::new(7, 1);
    canvas.fill(Color::new(255, 255, 255));
    canvas.set(5, 0, Color::new(255, 255, 0)).unwrap();
    canvas.set(6, 0, Color::new(255, 255, 0)).unwrap();
    let text = ppm_from_canvas(&canvas);
    let body: Vec<&str> = text.lines().skip(3).collect();
    assert_eq!(
        body,
        vec![
            "255 255 255 255 255 255 255 255 255 255 255 255 255 255 255 255 255 0 ",
            "255 255 0",
        ]
    );
    assert_eq!(body[0].len(), 70);
}

#[test]
fn scanlines_never_share_a_line() {
    let mut canvas: Canvas<i64> = Canvas::new(2, 3);
    canvas.set(0, 0, Color::new(1, 2, 3)).unwrap();
    canvas.set(1, 2, Color::new(4, 5, 6)).unwrap();
    let text = ppm_from_canvas(&canvas);
    assert_eq!(text, "P3\n2 3\n255\n1 2 3 0 0 0 \n0 0 0 0 0 0 \n0 0 0 4 5 6\n");
}

#[test]
fn large_dimensions_in_header() {
    let canvas: Canvas<i64> = Canvas::new(1, 0);
    assert_eq!(ppm_from_canvas(&canvas), "P3\n1 0\n255\n\n");
    let mut canvas: Canvas<i64> = Canvas::new(1, 1234);
    canvas.fill(Color::new(9, 10, 99));
    let text = ppm_from_canvas(&canvas);
    assert!(text.starts_with("P3\n1 1234\n255\n9 10 99 \n"));
    assert!(text.ends_with("\n9 10 99\n"));
}
