//! Channel layouts of a pixel buffer and the pixel values a buffer stands for.
use vstd::prelude::*;

verus! {

/// How the bytes of a buffer group into pixels (always 8 bits per sample).
#[derive(Clone, Copy, Debug, PartialEq, Eq, Structural)]
pub enum ColorType {
    Grayscale,
    Rgb,
    Indexed,
    GrayscaleAlpha,
    Rgba,
}

/// A pixel as red, green, blue and alpha samples.
pub type Rgba8 = (u8, u8, u8, u8);

/// A pixel as red, green and blue samples.
pub type Rgb8 = (u8, u8, u8);

pub open spec fn channels(c: ColorType) -> nat {
    match c {
        ColorType::Grayscale => 1,
        ColorType::Rgb => 3,
        ColorType::Indexed => 1,
        ColorType::GrayscaleAlpha => 2,
        ColorType::Rgba => 4,
    }
}

/// The color type number that a PNG header carries for each layout.
pub open spec fn color_code(c: ColorType) -> u8 {
    match c {
        ColorType::Grayscale => 0,
        ColorType::Rgb => 2,
        ColorType::Indexed => 3,
        ColorType::GrayscaleAlpha => 4,
        ColorType::Rgba => 6,
    }
}

/// A buffer whose length is a whole number of pixels of the layout.
pub open spec fn whole_pixels(d: Seq<u8>, c: ColorType) -> bool {
    d.len() % channels(c) == 0
}

pub open spec fn pixel_count(d: Seq<u8>, c: ColorType) -> nat {
    d.len() / channels(c)
}

/// The `i`-th pixel of a three-channel buffer.
pub open spec fn rgb_at(d: Seq<u8>, i: int) -> Rgb8 {
    (d[3 * i], d[3 * i + 1], d[3 * i + 2])
}

/// The `j`-th entry of a palette table of red, green, blue triples.
pub open spec fn palette_entry(p: Seq<u8>, j: int) -> Rgb8 {
    (p[3 * j], p[3 * j + 1], p[3 * j + 2])
}

/// What the `i`-th pixel of a buffer decodes to, as red, green, blue and alpha.
pub open spec fn rgba_at(d: Seq<u8>, c: ColorType, pal: Seq<u8>, i: int) -> Rgba8 {
    match c {
        ColorType::Grayscale => (d[i], d[i], d[i], 255u8),
        ColorType::GrayscaleAlpha => (d[2 * i], d[2 * i], d[2 * i], d[2 * i + 1]),
        ColorType::Rgb => (d[3 * i], d[3 * i + 1], d[3 * i + 2], 255u8),
        ColorType::Rgba => (d[4 * i], d[4 * i + 1], d[4 * i + 2], d[4 * i + 3]),
        ColorType::Indexed => {
            let e = palette_entry(pal, d[i] as int);
            (e.0, e.1, e.2, 255u8)
        },
    }
}

/// The decoded pixels of a buffer, in row-major order.
pub open spec fn rgba_pixels(d: Seq<u8>, c: ColorType, pal: Seq<u8>) -> Seq<Rgba8> {
    Seq::new(pixel_count(d, c), |i: int| rgba_at(d, c, pal, i))
}

impl ColorType {
    /// Bytes per pixel.
    pub fn channels(&self) -> (r: usize)
        ensures
            r == channels(*self),
    {
        match self {
            ColorType::Grayscale => 1,
            ColorType::Rgb => 3,
            ColorType::Indexed => 1,
            ColorType::GrayscaleAlpha => 2,
            ColorType::Rgba => 4,
        }
    }

    /// The PNG header's color type number.
    pub fn code(&self) -> (r: u8)
        ensures
            r == color_code(*self),
    {
        match self {
            ColorType::Grayscale => 0,
            ColorType::Rgb => 2,
            ColorType::Indexed => 3,
            ColorType::GrayscaleAlpha => 4,
            ColorType::Rgba => 6,
        }
    }

    /// The layout with the given PNG color type number, if there is one.
    pub fn from_code(n: u8) -> (r: Option<ColorType>)
        ensures
            r matches Some(c) ==> color_code(c) == n,
            r is None <==> !(n == 0 || n == 2 || n == 3 || n == 4 || n == 6),
    {
        match n {
            0 => Some(ColorType::Grayscale),
            2 => Some(ColorType::Rgb),
            3 => Some(ColorType::Indexed),
            4 => Some(ColorType::GrayscaleAlpha),
            6 => Some(ColorType::Rgba),
            _ => None,
        }
    }
}

/// Scan-line filter strategies, in the order in which they are tried.
#[derive(Clone, Copy, Debug, PartialEq, Eq, Structural)]
pub enum FilterType {
    NoFilter,
    Sub,
    Up,
    Avg,
    Paeth,
}

/// The filter type number that PNG uses for each strategy.
pub open spec fn filter_code(f: FilterType) -> u8 {
    match f {
        FilterType::NoFilter => 0,
        FilterType::Sub => 1,
        FilterType::Up => 2,
        FilterType::Avg => 3,
        FilterType::Paeth => 4,
    }
}

impl FilterType {
    pub fn code(&self) -> (r: u8)
        ensures
            r == filter_code(*self),
    {
        match self {
            FilterType::NoFilter => 0,
            FilterType::Sub => 1,
            FilterType::Up => 2,
            FilterType::Avg => 3,
            FilterType::Paeth => 4,
        }
    }
}

} // verus!
