use pngslim::layout::ColorType;
use pngslim::reduce::trivial_compress;

#[test]
fn rgb_with_gray_pixels_becomes_gray() {
    let data = vec![7, 7, 7, 200, 200, 200, 0, 0, 0];
    let (out, color) = trivial_compress(data, ColorType::Rgb);
    assert_eq!(color, ColorType::Grayscale);
    assert_eq!(out, vec![7, 200, 0]);
}

#[test]
fn rgb_with_one_colored_pixel_is_unchanged() {
    let data = vec![7, 7, 7, 200, 201, 200, 0, 0, 0];
    let (out, color) = trivial_compress(data.clone(), ColorType::Rgb);
    assert_eq!(color, ColorType::Rgb);
    assert_eq!(out, data);
}

#[test]
fn rgb_with_blue_differing_is_unchanged() {
    let data = vec![5, 5, 6];
    let (out, color) = trivial_compress(data.clone(), ColorType::Rgb);
    assert_eq!(color, ColorType::Rgb);
    assert_eq!(out, data);
}

#[test]
fn empty_rgb_becomes_empty_gray() {
    let (out, color) = trivial_compress(Vec::new(), ColorType::Rgb);
    assert_eq!(color, ColorType::Grayscale);
    assert!(out.is_empty());
}

#[test]
fn grayscale_is_unchanged() {
    let data = vec![1, 2, 3];
    let (out, color) = trivial_compress(data.clone(), ColorType::Grayscale);
    assert_eq!(color, ColorType::Grayscale);
    assert_eq!(out, data);
}

#[test]
fn opaque_gray_alpha_becomes_gray() {
    let (out, color) = trivial_compress(vec![9, 255, 40, 255], ColorType::GrayscaleAlpha);
    assert_eq!(color, ColorType::Grayscale);
    assert_eq!(out, vec![9, 40]);
}

#[test]
fn translucent_gray_alpha_is_unchanged() {
    let data = vec![9, 255, 40, 0];
    let (out, color) = trivial_compress(data.clone(), ColorType::GrayscaleAlpha);
    assert_eq!(color, ColorType::GrayscaleAlpha);
    assert_eq!(out, data);
}

#[test]
fn opaque_gray_rgba_becomes_gray() {
    let data = vec![10, 10, 10, 255, 10, 10, 10, 255, 10, 10, 10, 255, 10, 10, 10, 255];
    let (out, color) = trivial_compress(data, ColorType::Rgba);
    assert_eq!(color, ColorType::Grayscale);
    assert_eq!(out, vec![10, 10, 10, 10]);
}

#[test]
fn opaque_colored_rgba_becomes_rgb() {
    let data = vec![1, 2, 3, 255, 4, 4, 4, 255];
    let (out, color) = trivial_compress(data, ColorType::Rgba);
    assert_eq!(color, ColorType::Rgb);
    assert_eq!(out, vec![1, 2, 3, 4, 4, 4]);
}

#[test]
fn rgba_with_alpha_254_is_never_reduced() {
    let data = vec![10, 10, 10, 255, 10, 10, 10, 254, 10, 10, 10, 255, 10, 10, 10, 255];
    let (out, color) = trivial_compress(data.clone(), ColorType::Rgba);
    assert_eq!(color, ColorType::Rgba);
    assert_eq!(out, data);
    let colored = vec![1, 2, 3, 254];
    let (out, color) = trivial_compress(colored.clone(), ColorType::Rgba);
    assert_eq!(color, ColorType::Rgba);
    assert_eq!(out, colored);
}
