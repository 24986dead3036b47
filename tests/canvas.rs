use pixel_plot::canvas::{Image, Color};

fn numbered(width: usize, height: usize) -> Image {
    let mut c = Image::new(width, height, Color::black());
    for y in 0..height {
        for x in 0..width {
            c.set_pixel(x, y, Color::rgb(x as u8, y as u8, (y * width + x) as u8));
        }
    }
    c
}

#[test]
fn new_canvas_is_filled() {
    let c = Image::new(3, 2, Color::rgb(1, 2, 3));
    assert_eq!(c.pixels.len(), 6);
    assert!(c.pixels.iter().all(|p| *p == Color::rgb(1, 2, 3)));
}

#[test]
fn set_pixel_writes_row_major() {
    let mut c = Image::new(4, 3, Color::black());
    c.set_pixel(2, 1, Color::rgb(9, 8, 7));
    assert_eq!(c.pixels[1 * 4 + 2], Color::rgb(9, 8, 7));
    assert_eq!(c.get_pixel(2, 1), Some(Color::rgb(9, 8, 7)));
    assert_eq!(c.get_pixel(4, 1), None);
}

#[test]
fn set_pixel_one_past_the_edge_is_ignored() {
    let mut c = numbered(4, 3);
    let before = c.pixels.clone();
    c.set_pixel(4, 0, Color::rgb(255, 255, 255));
    c.set_pixel(0, 3, Color::rgb(255, 255, 255));
    c.set_pixel(4, 3, Color::rgb(255, 255, 255));
    assert_eq!(c.pixels, before);
}

#[test]
fn decay_white_once_and_twice() {
    let mut c = Image::new(5, 4, Color::rgb(255, 255, 255));
    c.decay(95, 100);
    assert!(c.pixels.iter().all(|p| *p == Color::rgb(242, 242, 242)));
    c.decay(95, 100);
    assert!(c.pixels.iter().all(|p| *p == Color::rgb(229, 229, 229)));
}

#[test]
fn decay_truncates_each_channel() {
    let mut c = Image::new(1, 1, Color::rgb(20, 1, 100));
    c.decay(95, 100);
    assert_eq!(c.pixels[0], Color::rgb(19, 0, 95));
}

#[test]
fn shift_by_zero_is_identity() {
    let mut c = numbered(5, 3);
    let before = c.pixels.clone();
    c.shift(0, 0);
    assert_eq!(c.pixels, before);
}

#[test]
fn shift_moves_pixels_with_wraparound() {
    let mut c = numbered(4, 3);
    let before = c.pixels.clone();
    c.shift(1, 2);
    for y in 0..3 {
        for x in 0..4 {
            let dst = ((y + 2) % 3) * 4 + (x + 1) % 4;
            assert_eq!(c.pixels[dst], before[y * 4 + x]);
        }
    }
}

#[test]
fn shift_negative_offsets_wrap() {
    let mut a = numbered(4, 3);
    let mut b = numbered(4, 3);
    a.shift(-1, -1);
    b.shift(3, 2);
    assert_eq!(a.pixels, b.pixels);
    assert_eq!(a.pixels[0], Color::rgb(1, 1, 5));
}

#[test]
fn shift_then_complement_restores() {
    let mut c = numbered(5, 4);
    let before = c.pixels.clone();
    c.shift(2, 3);
    assert_ne!(c.pixels, before);
    c.shift(5 - 2, 4 - 3);
    assert_eq!(c.pixels, before);
}
