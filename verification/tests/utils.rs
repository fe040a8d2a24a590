use image_magic::pixel::{Image, Pixel, rgb_diff};
use image_magic::refine::{sqrt, Rectangle};
use image_magic::compositor::RGBA;

fn px(r: u8, g: u8, b: u8, a: u8) -> Pixel {
    Pixel { r, g, b, a }
}

#[test]
fn test_rgb_diff() {}

#[test]
fn test_mark_merge() {}

#[test]
fn it_works() {
    assert_eq!(2 + 2, 4);
}

#[test]
fn test_rgba() {
    let mut rgba = RGBA::new();
    rgba.set_val(px(123, 123, 0, 0));
    println!("{}", rgba.r);
    assert_eq!(rgba.r, 123);
    assert_eq!(rgba.g, 123);
    assert_eq!(rgba.b, 0);
    assert_eq!(rgba.total_record, 1);
}

#[test]
fn rgb_diff_formula() {
    assert_eq!(rgb_diff(px(0, 0, 0, 0), px(255, 255, 255, 0)), 765);
    assert_eq!(rgb_diff(px(10, 20, 30, 40), px(10, 20, 30, 200)), 0);
    assert_eq!(rgb_diff(px(10, 50, 0, 0), px(30, 20, 5, 0)), 20 + 30 + 5);
    assert_eq!(rgb_diff(px(30, 20, 5, 0), px(10, 50, 0, 0)), 55);
}

#[test]
fn sqrt_values() {
    assert_eq!(sqrt(0), 0);
    assert_eq!(sqrt(1), 1);
    assert_eq!(sqrt(3), 1);
    assert_eq!(sqrt(4), 2);
    assert_eq!(sqrt(15), 3);
    assert_eq!(sqrt(16), 4);
    assert_eq!(sqrt(17), 4);
    assert_eq!(sqrt(65536), 256);
}

#[test]
fn rectangle_range_values() {
    let r = Rectangle::rectangle_range(0, 0, 4, 10, 10);
    assert_eq!((r.top_x, r.top_y, r.bottom_x, r.bottom_y), (0, 0, 2, 2));
    let r = Rectangle::rectangle_range(9, 9, 4, 10, 10);
    assert_eq!((r.top_x, r.top_y, r.bottom_x, r.bottom_y), (7, 7, 9, 9));
    let r = Rectangle::rectangle_range(5, 5, 6, 10, 10);
    assert_eq!((r.top_x, r.top_y, r.bottom_x, r.bottom_y), (2, 2, 8, 8));
}

#[test]
fn avg_rgb_formula() {
    let mut rgba = RGBA::new();
    rgba.set_val(px(10, 0, 255, 4));
    rgba.set_val(px(21, 1, 255, 5));
    let p = rgba.avg_rgb();
    assert_eq!(p.r, 15);
    assert_eq!(p.g, 0);
    assert_eq!(p.b, 255);
    assert_eq!(p.a, 4);
}

#[test]
fn image_accessors() {
    let mut img = Image::new(3, 2, px(1, 2, 3, 4));
    assert_eq!(img.width(), 3);
    assert_eq!(img.height(), 2);
    assert_eq!(img.get_pixel(2, 1), px(1, 2, 3, 4));
    img.set_pixel(2, 1, px(9, 9, 9, 9));
    assert_eq!(img.get_pixel(2, 1), px(9, 9, 9, 9));
    assert_eq!(img.get_pixel(0, 0), px(1, 2, 3, 4));
}
