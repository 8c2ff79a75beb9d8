use pngslim::codec::{decode_image, encode, find_best_encoding, keep_smaller, optimize_image, Image, PngError};
use pngslim::layout::{ColorType, FilterType};

fn to_rgba(img: &Image) -> Vec<[u8; 4]> {
    let d = &img.data;
    match img.color {
        ColorType::Grayscale => d.iter().map(|&g| [g, g, g, 255]).collect(),
        ColorType::GrayscaleAlpha => d.chunks(2).map(|p| [p[0], p[0], p[0], p[1]]).collect(),
        ColorType::Rgb => d.chunks(3).map(|p| [p[0], p[1], p[2], 255]).collect(),
        ColorType::Rgba => d.chunks(4).map(|p| [p[0], p[1], p[2], p[3]]).collect(),
        ColorType::Indexed => panic!("decoding expands palettes"),
    }
}

fn png_file(data: &[u8], width: u32, height: u32, color: ColorType) -> Vec<u8> {
    encode(&data.to_vec(), width, height, color, &None, FilterType::Sub).expect("encodable")
}

fn round_trip(data: &[u8], width: u32, height: u32, color: ColorType) {
    let file = png_file(data, width, height, color);
    let before = decode_image(&file).expect("decodable");
    let original = to_rgba(&before);
    let out = optimize_image(before).expect("optimizable");
    let after = decode_image(&out).expect("decodable output");
    assert_eq!(after.width, width);
    assert_eq!(after.height, height);
    assert_eq!(to_rgba(&after), original);
}

#[test]
fn gray_rgba_image_end_to_end() {
    let pixel = [10u8, 10, 10, 255];
    let data: Vec<u8> = pixel.iter().copied().cycle().take(16).collect();
    let file = png_file(&data, 2, 2, ColorType::Rgba);
    let img = decode_image(&file).expect("decodable");
    assert_eq!(img.color, ColorType::Rgba);
    assert_eq!(img.data, data);
    let out = optimize_image(img).expect("optimizable");
    let back = decode_image(&out).expect("decodable output");
    assert_eq!(back.color, ColorType::Grayscale);
    assert_eq!(back.data, vec![10, 10, 10, 10]);
    assert_eq!(to_rgba(&back), vec![pixel; 4]);
}

#[test]
fn round_trip_keeps_pixels_for_every_layout() {
    round_trip(&[0, 50, 100, 150, 200, 250], 3, 2, ColorType::Grayscale);
    round_trip(&[1, 255, 2, 255, 3, 255, 4, 255], 2, 2, ColorType::GrayscaleAlpha);
    round_trip(&[1, 0, 2, 255, 3, 9, 4, 255], 2, 2, ColorType::GrayscaleAlpha);
    round_trip(&[9, 9, 9, 1, 2, 3, 1, 2, 3, 4, 5, 6], 2, 2, ColorType::Rgb);
    round_trip(&[9, 9, 9, 8, 8, 8, 7, 7, 7, 6, 6, 6], 2, 2, ColorType::Rgb);
    round_trip(&[1, 2, 3, 255, 4, 5, 6, 255], 2, 1, ColorType::Rgba);
    round_trip(&[1, 2, 3, 254, 4, 5, 6, 255], 1, 2, ColorType::Rgba);
    let many: Vec<u8> = (0..300u32).flat_map(|i| [(i % 256) as u8, (i / 256) as u8, 3]).collect();
    round_trip(&many, 20, 15, ColorType::Rgb);
}

#[test]
fn translucent_rgba_stays_rgba() {
    let mut data: Vec<u8> = [10u8, 10, 10, 255].iter().copied().cycle().take(16).collect();
    data[7] = 254;
    let file = png_file(&data, 2, 2, ColorType::Rgba);
    let out = optimize_image(decode_image(&file).unwrap()).unwrap();
    let back = decode_image(&out).unwrap();
    assert_eq!(back.color, ColorType::Rgba);
    assert_eq!(back.data, data);
}

#[test]
fn search_is_deterministic_and_picks_the_smallest() {
    let data: Vec<u8> = (0..64u32).map(|i| (i * 37 % 251) as u8).collect();
    let first = find_best_encoding(&data, 8, 8, ColorType::Grayscale, &None).unwrap();
    let second = find_best_encoding(&data, 8, 8, ColorType::Grayscale, &None).unwrap();
    assert_eq!(first, second);
    let filters = [FilterType::NoFilter, FilterType::Sub, FilterType::Up, FilterType::Avg, FilterType::Paeth];
    let outs: Vec<Vec<u8>> = filters.iter().map(|&f| encode(&data, 8, 8, ColorType::Grayscale, &None, f).unwrap()).collect();
    let min = outs.iter().map(|o| o.len()).min().unwrap();
    let expected = outs.iter().find(|o| o.len() == min).unwrap();
    assert_eq!(&first, expected);
}

#[test]
fn encode_writes_a_png_stream() {
    let out = encode(&vec![1, 2, 3, 4], 2, 2, ColorType::Grayscale, &None, FilterType::Up).unwrap();
    assert_eq!(&out[..8], &[137, 80, 78, 71, 13, 10, 26, 10]);
    let back = decode_image(&out).unwrap();
    assert_eq!(back.data, vec![1, 2, 3, 4]);
}

#[test]
fn encode_refuses_zero_width() {
    let r = encode(&Vec::new(), 0, 3, ColorType::Grayscale, &None, FilterType::NoFilter);
    assert_eq!(r, Err(PngError::Encode));
    let r = find_best_encoding(&Vec::new(), 0, 3, ColorType::Grayscale, &None);
    assert_eq!(r, Err(PngError::Encode));
}

#[test]
fn indexed_without_palette_is_refused() {
    let r = encode(&vec![0, 0], 2, 1, ColorType::Indexed, &None, FilterType::NoFilter);
    assert_eq!(r, Err(PngError::Encode));
}

#[test]
fn keep_smaller_prefers_strictly_shorter() {
    assert_eq!(keep_smaller(vec![1, 2, 3], vec![4, 5]), vec![4, 5]);
    assert_eq!(keep_smaller(vec![1, 2], vec![4, 5]), vec![1, 2]);
    assert_eq!(keep_smaller(vec![1], vec![4, 5]), vec![1]);
}

#[test]
fn garbage_is_a_decode_error() {
    assert!(matches!(decode_image(&vec![1, 2, 3, 4, 5]), Err(PngError::Decode)));
    assert!(matches!(decode_image(&Vec::new()), Err(PngError::Decode)));
}

#[test]
fn indexed_file_is_decoded_expanded() {
    let file = {
        let idx = vec![0u8, 1, 1, 0];
        encode(&idx, 2, 2, ColorType::Indexed, &Some(vec![255, 0, 0, 0, 0, 255]), FilterType::NoFilter).unwrap()
    };
    let img = decode_image(&file).unwrap();
    assert_eq!(img.color, ColorType::Rgb);
    assert_eq!(img.data, vec![255, 0, 0, 0, 0, 255, 0, 0, 255, 255, 0, 0]);
}

#[test]
fn sixteen_bit_file_is_unsupported() {
    let mut file = Vec::new();
    {
        let mut enc = png::Encoder::new(&mut file, 1, 1);
        enc.set_color(png::ColorType::Grayscale);
        enc.set_depth(png::BitDepth::Sixteen);
        let mut writer = enc.write_header().unwrap();
        writer.write_image_data(&[1, 2]).unwrap();
    }
    assert!(matches!(decode_image(&file), Err(PngError::Unsupported)));
}
