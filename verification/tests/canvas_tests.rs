use rust_seek::canvas::{draw_line_thick_i, draw_rect_outline, draw_thick_outline, fill_rect, set_pixel, Rgb, ShapeKind};

#[test]
fn pixels_inside_are_set() {
    let mut buf = vec![0u8; 2 * 2 * 4];
    let red = Rgb { r: 200, g: 10, b: 20 };
    set_pixel(&mut buf, 2, 2, 1, 0, red);
    assert_eq!(&buf[4..8], &[200, 10, 20, 255]);
    set_pixel(&mut buf, 2, 2, 0, 1, red);
    assert_eq!(&buf[8..12], &[200, 10, 20, 255]);
    assert_eq!(&buf[0..4], &[0, 0, 0, 0]);
}

#[test]
fn pixels_outside_are_ignored() {
    let mut buf = vec![7u8; 2 * 2 * 4];
    let c = Rgb { r: 1, g: 2, b: 3 };
    set_pixel(&mut buf, 2, 2, -1, 0, c);
    set_pixel(&mut buf, 2, 2, 2, 0, c);
    set_pixel(&mut buf, 2, 2, 0, 2, c);
    assert_eq!(buf, vec![7u8; 16]);
}

#[test]
fn shapes_compare() {
    assert!(ShapeKind::Rect == ShapeKind::Rect);
    assert!(ShapeKind::Pen != ShapeKind::Arrow);
}

fn pixel(buf: &[u8], w: usize, x: usize, y: usize) -> [u8; 4] {
    let i = (y * w + x) * 4;
    [buf[i], buf[i + 1], buf[i + 2], buf[i + 3]]
}

fn painted_pixels(buf: &[u8], w: usize, h: usize) -> Vec<(usize, usize)> {
    let mut out = Vec::new();
    for y in 0..h {
        for x in 0..w {
            if pixel(buf, w, x, y)[3] == 255 {
                out.push((x, y));
            }
        }
    }
    out
}

#[test]
fn fill_rect_paints_the_clipped_rectangle() {
    let mut buf = vec![0u8; 4 * 3 * 4];
    let c = Rgb { r: 9, g: 8, b: 7 };
    fill_rect(&mut buf, 4, 3, 2, 1, 6, 5, c);
    assert_eq!(painted_pixels(&buf, 4, 3), vec![(2, 1), (3, 1), (2, 2), (3, 2)]);
    assert_eq!(pixel(&buf, 4, 3, 2), [9, 8, 7, 255]);
}

#[test]
fn fill_rect_with_crossed_corners_paints_nothing() {
    let mut buf = vec![0u8; 3 * 3 * 4];
    fill_rect(&mut buf, 3, 3, 2, 0, 1, 2, Rgb { r: 1, g: 1, b: 1 });
    assert_eq!(buf, vec![0u8; 36]);
}

#[test]
fn outline_leaves_the_inside_untouched() {
    let mut buf = vec![0u8; 5 * 5 * 4];
    draw_rect_outline(&mut buf, 5, 5, 1, 1, 3, 3, Rgb { r: 255, g: 0, b: 0 });
    let got = painted_pixels(&buf, 5, 5);
    assert_eq!(got.len(), 8);
    assert!(!got.contains(&(2, 2)));
    assert!(got.contains(&(1, 1)) && got.contains(&(3, 3)) && got.contains(&(1, 3)));
}

#[test]
fn outline_off_the_image_is_clipped() {
    let mut buf = vec![0u8; 2 * 2 * 4];
    draw_rect_outline(&mut buf, 2, 2, -1, -1, 5, 5, Rgb { r: 1, g: 2, b: 3 });
    assert_eq!(buf, vec![0u8; 16]);
}

#[test]
fn thin_diagonal_line_steps_both_ways() {
    let mut buf = vec![0u8; 4 * 4 * 4];
    draw_line_thick_i(&mut buf, 4, 4, 0, 0, 3, 3, Rgb { r: 5, g: 5, b: 5 }, 1);
    assert_eq!(painted_pixels(&buf, 4, 4), vec![(0, 0), (1, 1), (2, 2), (3, 3)]);
}

#[test]
fn steep_line_visits_every_row() {
    let mut buf = vec![0u8; 3 * 6 * 4];
    draw_line_thick_i(&mut buf, 3, 6, 0, 0, 1, 5, Rgb { r: 5, g: 5, b: 5 }, 0);
    let got = painted_pixels(&buf, 3, 6);
    assert_eq!(got.len(), 6);
    for y in 0..6 {
        assert!(got.iter().any(|p| p.1 == y));
    }
    assert!(got.contains(&(0, 0)) && got.contains(&(1, 5)));
}

#[test]
fn thick_line_covers_squares_around_its_ends() {
    let mut buf = vec![0u8; 7 * 3 * 4];
    draw_line_thick_i(&mut buf, 7, 3, 5, 1, 1, 1, Rgb { r: 1, g: 1, b: 1 }, 2);
    let got = painted_pixels(&buf, 7, 3);
    assert_eq!(got.len(), 21);
}

#[test]
fn negative_stroke_width_draws_single_pixels() {
    let mut buf = vec![0u8; 3 * 1 * 4];
    draw_line_thick_i(&mut buf, 3, 1, 0, 0, 2, 0, Rgb { r: 1, g: 1, b: 1 }, -1);
    assert_eq!(painted_pixels(&buf, 3, 1), vec![(0, 0), (1, 0), (2, 0)]);
    let mut none = vec![0u8; 3 * 1 * 4];
    draw_line_thick_i(&mut none, 3, 1, 0, 0, 2, 0, Rgb { r: 1, g: 1, b: 1 }, -2);
    assert_eq!(none, vec![0u8; 12]);
}

#[test]
fn shallow_line_has_no_gaps() {
    let mut buf = vec![0u8; 6 * 3 * 4];
    draw_line_thick_i(&mut buf, 6, 3, 5, 2, 0, 0, Rgb { r: 3, g: 3, b: 3 }, 1);
    let got = painted_pixels(&buf, 6, 3);
    assert_eq!(got.len(), 6);
    for x in 0..6 {
        assert!(got.iter().any(|p| p.0 == x));
    }
    for pair in got.windows(2) {
        assert!(pair[1].1 >= pair[0].1 && pair[1].1 - pair[0].1 <= 1);
    }
    assert!(got.contains(&(0, 0)) && got.contains(&(5, 2)));
}

#[test]
fn thick_outline_nests_inset_rings() {
    let mut buf = vec![0u8; 5 * 5 * 4];
    draw_thick_outline(&mut buf, 5, 5, 0, 0, 4, 4, 2, Rgb { r: 1, g: 1, b: 1 });
    let got = painted_pixels(&buf, 5, 5);
    assert_eq!(got.len(), 24);
    assert!(!got.contains(&(2, 2)));
    let mut none = vec![0u8; 5 * 5 * 4];
    draw_thick_outline(&mut none, 5, 5, 0, 0, 4, 4, 0, Rgb { r: 1, g: 1, b: 1 });
    assert_eq!(none, vec![0u8; 100]);
}
