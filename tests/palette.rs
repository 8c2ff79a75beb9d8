use pngslim::layout::ColorType;
use pngslim::palette::calc_pallet;

fn distinct_rgb(n: usize) -> Vec<u8> {
    let mut data = Vec::new();
    for i in 0..n {
        data.push((i % 256) as u8);
        data.push((i / 256) as u8);
        data.push(7);
    }
    data
}

#[test]
fn exactly_256_colors_are_indexed() {
    let data = distinct_rgb(256);
    let (idx, pal, color) = calc_pallet(data.clone(), ColorType::Rgb);
    assert_eq!(color, ColorType::Indexed);
    let pal = pal.expect("a palette");
    assert_eq!(pal.len(), 256 * 3);
    assert_eq!(idx.len(), 256);
    for i in 0..256 {
        let j = idx[i] as usize;
        assert_eq!(&pal[3 * j..3 * j + 3], &data[3 * i..3 * i + 3]);
    }
}

#[test]
fn colors_257_are_left_as_rgb() {
    let data = distinct_rgb(257);
    let (out, pal, color) = calc_pallet(data.clone(), ColorType::Rgb);
    assert_eq!(color, ColorType::Rgb);
    assert!(pal.is_none());
    assert_eq!(out, data);
}

#[test]
fn palette_is_ranked_by_frequency() {
    // red once, green three times, blue twice
    let data = vec![255, 0, 0, 0, 255, 0, 0, 0, 255, 0, 255, 0, 0, 0, 255, 0, 255, 0];
    let (idx, pal, color) = calc_pallet(data, ColorType::Rgb);
    assert_eq!(color, ColorType::Indexed);
    assert_eq!(pal, Some(vec![0, 255, 0, 0, 0, 255, 255, 0, 0]));
    assert_eq!(idx, vec![2, 0, 1, 0, 1, 0]);
}

#[test]
fn equal_counts_keep_first_occurrence_order() {
    let data = vec![1, 1, 2, 3, 3, 4, 3, 3, 4, 1, 1, 2];
    let (idx, pal, _) = calc_pallet(data, ColorType::Rgb);
    assert_eq!(pal, Some(vec![1, 1, 2, 3, 3, 4]));
    assert_eq!(idx, vec![0, 1, 1, 0]);
}

#[test]
fn other_layouts_get_no_palette() {
    for color in [ColorType::Grayscale, ColorType::GrayscaleAlpha, ColorType::Rgba] {
        let data = vec![1, 2, 3, 4];
        let (out, pal, c) = calc_pallet(data.clone(), color);
        assert_eq!(c, color);
        assert!(pal.is_none());
        assert_eq!(out, data);
    }
}
