use pngslim::layout::{ColorType, FilterType};

#[test]
fn color_codes_round_trip() {
    for c in [ColorType::Grayscale, ColorType::Rgb, ColorType::Indexed, ColorType::GrayscaleAlpha, ColorType::Rgba] {
        assert_eq!(ColorType::from_code(c.code()), Some(c));
    }
    assert_eq!(ColorType::Rgba.code(), 6);
    assert_eq!(ColorType::from_code(1), None);
    assert_eq!(ColorType::from_code(5), None);
}

#[test]
fn channel_counts() {
    assert_eq!(ColorType::Grayscale.channels(), 1);
    assert_eq!(ColorType::GrayscaleAlpha.channels(), 2);
    assert_eq!(ColorType::Rgb.channels(), 3);
    assert_eq!(ColorType::Rgba.channels(), 4);
    assert_eq!(ColorType::Indexed.channels(), 1);
}

#[test]
fn filter_codes() {
    assert_eq!(FilterType::NoFilter.code(), 0);
    assert_eq!(FilterType::Paeth.code(), 4);
}
