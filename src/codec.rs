//! PNG decoding and encoding through the `png` crate, and the search over
//! scan-line filters for the smallest encoding.
use vstd::prelude::*;
use crate::layout::{channels, color_code, filter_code, rgba_pixels, whole_pixels, ColorType, FilterType};
use crate::palette::{calc_pallet, lemma_palette_keeps_pixels, opt_view, palette_result};
use crate::reduce::{lemma_reduce_keeps_pixels, reduced, trivial_compress};

verus! {

#[verifier::external_type_specification]
#[verifier::external_body]
pub struct ExDecodingError(png::DecodingError);

#[verifier::external_type_specification]
#[verifier::external_body]
pub struct ExEncodingError(png::EncodingError);

/// What the `png` crate decodes a file to: the first frame's samples, its
/// width and height, its color type number and its bit depth.
pub uninterp spec fn png_decoding(file: Seq<u8>) -> Option<(Seq<u8>, u32, u32, u8, u8)>;

/// What the `png` crate encodes 8-bit samples to at its best compression,
/// with the given color type number, palette table and filter type number.
pub uninterp spec fn png_encoding(
    data: Seq<u8>,
    width: u32,
    height: u32,
    color: u8,
    palette: Option<Seq<u8>>,
    filter: u8,
) -> Option<Seq<u8>>;

/// Relies on png's `Decoder::new`, `set_transformations(EXPAND)`, `read_info`
/// and `Reader::next_frame`: the first frame with palettes and samples under
/// 8 bits expanded, with its size, color type and bit depth, or an error for
/// a stream it cannot read. The outcome depends on the bytes alone.
#[verifier::external_body]
fn png_decode(file: &Vec<u8>) -> (r: Result<(Vec<u8>, u32, u32, u8, u8), png::DecodingError>)
    ensures
        match r {
            Ok(v) => png_decoding(file@) == Some((v.0@, v.1, v.2, v.3, v.4)),
            Err(_) => png_decoding(file@) is None,
        },
{
    let mut decoder = png::Decoder::new(file.as_slice());
    decoder.set_transformations(png::Transformations::EXPAND);
    let mut reader = decoder.read_info()?;
    let mut buf = vec![0u8; reader.output_buffer_size()];
    let info = reader.next_frame(&mut buf)?;
    buf.truncate(info.buffer_size());
    Ok((buf, info.width, info.height, info.color_type as u8, info.bit_depth as u8))
}

/// Relies on png's `Encoder::new`, its setters (`Compression::Best`, 8-bit
/// depth, one filter for every row, the palette where given), `write_header`
/// and `Writer::write_image_data`: a PNG stream, or an error for parameters it
/// refuses. The outcome depends on the arguments alone.
#[verifier::external_body]
fn png_encode(
    data: &Vec<u8>,
    width: u32,
    height: u32,
    color: u8,
    palette: &Option<Vec<u8>>,
    filter: u8,
) -> (r: Result<Vec<u8>, png::EncodingError>)
    requires
        color == 0 || color == 2 || color == 3 || color == 4 || color == 6,
        filter <= 4,
        fills_frame(data@, width, height, layout_of_code(color)),
    ensures
        match r {
            Ok(v) => png_encoding(data@, width, height, color, opt_view(palette), filter) == Some(v@),
            Err(_) => png_encoding(data@, width, height, color, opt_view(palette), filter) is None,
        },
{
    let mut out: Vec<u8> = Vec::new();
    {
        let mut enc = png::Encoder::new(&mut out, width, height);
        enc.set_compression(png::Compression::Best);
        enc.set_color(png::ColorType::from_u8(color).unwrap());
        enc.set_depth(png::BitDepth::Eight);
        enc.set_filter(png::FilterType::from_u8(filter).unwrap());
        if let Some(p) = palette {
            enc.set_palette(p.clone());
        }
        enc.write_header()?.write_image_data(data)?;
    }
    Ok(out)
}

/// Why a file could not be optimized.
#[derive(Clone, Copy, Debug, PartialEq, Eq, Structural)]
pub enum PngError {
    /// The file is not a PNG stream that can be decoded.
    Decode,
    /// The decoded frame is not 8-bit gray, gray+alpha, RGB or RGBA samples
    /// filling the frame.
    Unsupported,
    /// The encoder refused a trial.
    Encode,
}

/// A decoded frame: 8-bit samples in row-major order.
pub struct Image {
    pub data: Vec<u8>,
    pub width: u32,
    pub height: u32,
    pub color: ColorType,
}

/// A buffer that holds exactly `width` × `height` pixels of its layout.
pub open spec fn fills_frame(d: Seq<u8>, width: u32, height: u32, c: ColorType) -> bool {
    d.len() == width * height * channels(c)
}

pub open spec fn layout_of_code(n: u8) -> ColorType {
    if n == 0 {
        ColorType::Grayscale
    } else if n == 2 {
        ColorType::Rgb
    } else if n == 4 {
        ColorType::GrayscaleAlpha
    } else if n == 6 {
        ColorType::Rgba
    } else {
        ColorType::Indexed
    }
}

/// A decoded frame that this library works on.
pub open spec fn supported(buf: Seq<u8>, width: u32, height: u32, code: u8, depth: u8) -> bool {
    &&& depth == 8
    &&& (code == 0 || code == 2 || code == 4 || code == 6)
    &&& fills_frame(buf, width, height, layout_of_code(code))
}

/// Decodes a PNG file into an 8-bit frame of plain channels.
pub fn decode_image(file: &Vec<u8>) -> (r: Result<Image, PngError>)
    ensures
        match png_decoding(file@) {
            None => r == Err::<Image, PngError>(PngError::Decode),
            Some((buf, w, h, code, depth)) => if supported(buf, w, h, code, depth) {
                r matches Ok(img) && img.data@ == buf && img.width == w && img.height == h
                    && img.color == layout_of_code(code)
            } else {
                r == Err::<Image, PngError>(PngError::Unsupported)
            },
        },
{
    match png_decode(file) {
        Err(_) => Err(PngError::Decode),
        Ok((buf, width, height, code, depth)) => {
            if depth != 8 {
                return Err(PngError::Unsupported);
            }
            let color = match ColorType::from_code(code) {
                Some(c) => c,
                None => return Err(PngError::Unsupported),
            };
            if color == ColorType::Indexed {
                return Err(PngError::Unsupported);
            }
            assert((width as u128) * (height as u128) <= 0xffff_ffffu128 * 0xffff_ffffu128) by (nonlinear_arith)
                requires width <= 0xffff_ffff, height <= 0xffff_ffff;
            let wh: u128 = (width as u128) * (height as u128);
            assert(wh * (channels(color) as u128) <= 0xffff_ffffu128 * 0xffff_ffffu128 * 4) by (nonlinear_arith)
                requires channels(color) <= 4, wh == width * height, width <= 0xffff_ffff, height <= 0xffff_ffff;
            let want: u128 = wh * (color.channels() as u128);
            if want != buf.len() as u128 {
                return Err(PngError::Unsupported);
            }
            Ok(Image { data: buf, width, height, color })
        },
    }
}

/// What one trial encodes the buffer to with filter `f`.
pub open spec fn trial(data: Seq<u8>, width: u32, height: u32, color: ColorType, pal: Option<Seq<u8>>, f: FilterType) -> Option<Seq<u8>> {
    png_encoding(data, width, height, color_code(color), pal, filter_code(f))
}

/// Encodes the buffer as a PNG stream with 8-bit samples, the given layout,
/// the palette where there is one, and filter `filter_type` on every row.
pub fn encode(
    bytes: &Vec<u8>,
    width: u32,
    height: u32,
    color_type: ColorType,
    pallet: &Option<Vec<u8>>,
    filter_type: FilterType,
) -> (r: Result<Vec<u8>, PngError>)
    requires
        fills_frame(bytes@, width, height, color_type),
    ensures
        match r {
            Ok(v) => trial(bytes@, width, height, color_type, opt_view(pallet), filter_type) == Some(v@),
            Err(e) => e == PngError::Encode && trial(bytes@, width, height, color_type, opt_view(pallet), filter_type) is None,
        },
{
    match png_encode(bytes, width, height, color_type.code(), pallet, filter_type.code()) {
        Ok(v) => Ok(v),
        Err(_) => Err(PngError::Encode),
    }
}

/// The filters in the order in which they are tried.
pub open spec fn filter_order() -> Seq<FilterType> {
    seq![FilterType::NoFilter, FilterType::Sub, FilterType::Up, FilterType::Avg, FilterType::Paeth]
}

fn filter_at(k: usize) -> (f: FilterType)
    requires
        k < 5,
    ensures
        f == filter_order()[k as int],
{
    if k == 0 {
        FilterType::NoFilter
    } else if k == 1 {
        FilterType::Sub
    } else if k == 2 {
        FilterType::Up
    } else if k == 3 {
        FilterType::Avg
    } else {
        FilterType::Paeth
    }
}

/// Of the best so far and a new candidate, the one to keep: the candidate
/// only where it is strictly shorter.
pub open spec fn smaller_of(best: Seq<u8>, candidate: Seq<u8>) -> Seq<u8> {
    if candidate.len() < best.len() {
        candidate
    } else {
        best
    }
}

/// The candidate that a left-to-right pass keeps.
pub open spec fn best_of(c: Seq<Seq<u8>>) -> Seq<u8>
    decreases c.len(),
{
    if c.len() <= 1 {
        if c.len() == 1 {
            c[0]
        } else {
            Seq::empty()
        }
    } else {
        smaller_of(best_of(c.drop_last()), c.last())
    }
}

/// Keeps the shorter of the best encoding so far and a new one; on equal
/// lengths the earlier one stays.
pub fn keep_smaller(best: Vec<u8>, candidate: Vec<u8>) -> (r: Vec<u8>)
    ensures
        r@ == smaller_of(best@, candidate@),
{
    if candidate.len() < best.len() {
        candidate
    } else {
        best
    }
}

/// Every filter's trial succeeds.
pub open spec fn all_trials_succeed(data: Seq<u8>, width: u32, height: u32, color: ColorType, pal: Option<Seq<u8>>) -> bool {
    forall|k: int| 0 <= k < 5 ==> (#[trigger] trial(data, width, height, color, pal, filter_order()[k])) is Some
}

/// The trials' outputs, in filter order.
pub open spec fn trial_outputs(data: Seq<u8>, width: u32, height: u32, color: ColorType, pal: Option<Seq<u8>>) -> Seq<Seq<u8>> {
    Seq::new(5, |k: int| match trial(data, width, height, color, pal, filter_order()[k]) {
        Some(v) => v,
        None => Seq::empty(),
    })
}

pub open spec fn outcome_view(r: &Result<Vec<u8>, PngError>) -> Result<Seq<u8>, PngError> {
    match r {
        Ok(v) => Ok(v@),
        Err(e) => Err(*e),
    }
}

/// What the filter search owes: the shortest trial output, earliest filter
/// first on a tie, where every trial succeeds; an encoding error otherwise.
pub open spec fn search_outcome(
    data: Seq<u8>,
    width: u32,
    height: u32,
    color: ColorType,
    pal: Option<Seq<u8>>,
    r: Result<Seq<u8>, PngError>,
) -> bool {
    match r {
        Ok(v) => all_trials_succeed(data, width, height, color, pal) && v == best_of(
            trial_outputs(data, width, height, color, pal),
        ),
        Err(e) => e == PngError::Encode && !all_trials_succeed(data, width, height, color, pal),
    }
}

/// The filter search is deterministic: on the same buffer, size, layout and
/// palette any two outcomes it may give are the same.
pub proof fn lemma_search_deterministic(
    data: Seq<u8>,
    width: u32,
    height: u32,
    color: ColorType,
    pal: Option<Seq<u8>>,
    r1: Result<Seq<u8>, PngError>,
    r2: Result<Seq<u8>, PngError>,
)
    requires
        search_outcome(data, width, height, color, pal, r1),
        search_outcome(data, width, height, color, pal, r2),
    ensures
        r1 == r2,
{
}

/// Encodes the buffer once with each filter and returns the shortest
/// output, the earliest filter winning a tie. A refused trial ends the
/// search with an error.
pub fn find_best_encoding(
    bytes: &Vec<u8>,
    width: u32,
    height: u32,
    color: ColorType,
    pallet: &Option<Vec<u8>>,
) -> (r: Result<Vec<u8>, PngError>)
    requires
        fills_frame(bytes@, width, height, color),
    ensures
        search_outcome(bytes@, width, height, color, opt_view(pallet), outcome_view(&r)),
{
    let ghost outs = trial_outputs(bytes@, width, height, color, opt_view(pallet));
    let mut best = match encode(bytes, width, height, color, pallet, filter_at(0)) {
        Ok(v) => v,
        Err(e) => return Err(e),
    };
    assert(outs.take(1).drop_last() =~= Seq::<Seq<u8>>::empty());
    let mut k: usize = 1;
    while k < 5
        invariant
            1 <= k <= 5,
            fills_frame(bytes@, width, height, color),
            outs == trial_outputs(bytes@, width, height, color, opt_view(pallet)),
            forall|q: int| 0 <= q < k ==> (#[trigger] trial(bytes@, width, height, color, opt_view(pallet), filter_order()[q])) is Some,
            best@ == best_of(outs.take(k as int)),
        decreases 5 - k,
    {
        let f = filter_at(k);
        let out = match encode(bytes, width, height, color, pallet, f) {
            Ok(v) => v,
            Err(e) => return Err(e),
        };
        assert(outs.take(k + 1).drop_last() =~= outs.take(k as int));
        best = keep_smaller(best, out);
        k += 1;
    }
    assert(outs.take(5) =~= outs);
    Ok(best)
}

/// `c[k]` is what a pass keeps, every earlier candidate is strictly longer
/// and none is shorter.
pub open spec fn first_smallest(c: Seq<Seq<u8>>, k: int) -> bool {
    &&& 0 <= k < c.len()
    &&& c[k] == best_of(c)
    &&& forall|j: int| 0 <= j < k ==> (#[trigger] c[j]).len() > c[k].len()
    &&& forall|j: int| 0 <= j < c.len() ==> (#[trigger] c[j]).len() >= c[k].len()
}

/// The kept candidate is the first one of least length: every earlier one
/// is strictly longer and none is shorter.
pub proof fn lemma_best_is_first_smallest(c: Seq<Seq<u8>>)
    requires
        c.len() > 0,
    ensures
        exists|k: int| first_smallest(c, k),
    decreases c.len(),
{
    if c.len() == 1 {
        assert(first_smallest(c, 0));
    } else {
        let p = c.drop_last();
        lemma_best_is_first_smallest(p);
        let k0 = choose|k: int| first_smallest(p, k);
        let b = best_of(c);
        if c.last().len() < best_of(p).len() {
            let k = c.len() - 1;
            assert forall|j: int| 0 <= j < k implies (#[trigger] c[j]).len() > b.len() by {
                assert(c[j] == p[j]);
            }
            assert forall|j: int| 0 <= j < c.len() implies (#[trigger] c[j]).len() >= b.len() by {
                if j < k {
                    assert(c[j] == p[j]);
                }
            }
            assert(first_smallest(c, k));
        } else {
            assert forall|j: int| 0 <= j < k0 implies (#[trigger] c[j]).len() > b.len() by {
                assert(c[j] == p[j]);
            }
            assert forall|j: int| 0 <= j < c.len() implies (#[trigger] c[j]).len() >= b.len() by {
                if j < c.len() - 1 {
                    assert(c[j] == p[j]);
                }
            }
            assert(first_smallest(c, k0));
        }
    }
}

/// Reduction followed by palette construction never changes a decoded
/// pixel: the final buffer, read in its final layout with its palette,
/// holds the same pixels as the input read in its own layout.
pub proof fn lemma_pipeline_keeps_pixels(
    d: Seq<u8>,
    c: ColorType,
    out: Seq<u8>,
    pal: Option<Seq<u8>>,
    c2: ColorType,
)
    requires
        c != ColorType::Indexed,
        whole_pixels(d, c),
        palette_result(reduced(d, c).0, reduced(d, c).1, out, pal, c2),
    ensures
        rgba_pixels(out, c2, match pal { Some(p) => p, None => seq![] }) == rgba_pixels(d, c, seq![]),
{
    lemma_reduce_keeps_pixels(d, c);
    let (e, c1) = reduced(d, c);
    if c2 == ColorType::Indexed {
        lemma_palette_keeps_pixels(e, out, pal->Some_0);
    }
}

proof fn lemma_frame_kept(d: Seq<u8>, width: u32, height: u32, c: ColorType)
    requires
        c != ColorType::Indexed,
        fills_frame(d, width, height, c),
    ensures
        whole_pixels(d, c),
        fills_frame(reduced(d, c).0, width, height, reduced(d, c).1),
        reduced(d, c).1 == ColorType::Rgb ==> (width * height) as nat == reduced(d, c).0.len() / 3,
{
    let n = (width * height) as int;
    let k = channels(c) as int;
    assert(d.len() == n * k);
    assert((n * k) % k == 0 && (n * k) / k == n) by (nonlinear_arith)
        requires k > 0, n >= 0;
    assert((n * 3) / 3 == n) by (nonlinear_arith)
        requires n >= 0;
}

/// The result of optimizing a decoded frame.
pub open spec fn optimized(img: &Image, r: Result<Seq<u8>, PngError>) -> bool {
    let (e, c1) = reduced(img.data@, img.color);
    exists|out: Seq<u8>, pal: Option<Seq<u8>>, c2: ColorType|
        #[trigger] palette_result(e, c1, out, pal, c2) && search_outcome(out, img.width, img.height, c2, pal, r)
}

/// Reduces the frame's layout, builds a palette where one applies, and
/// returns the smallest of the filter trials on the result.
pub fn optimize_image(img: Image) -> (r: Result<Vec<u8>, PngError>)
    requires
        img.color != ColorType::Indexed,
        fills_frame(img.data@, img.width, img.height, img.color),
    ensures
        optimized(&img, outcome_view(&r)),
{
    let ghost d = img.data@;
    let Image { data, width, height, color } = img;
    proof {
        lemma_frame_kept(d, width, height, color);
    }
    let (reduced_data, reduced_color) = trivial_compress(data, color);
    let ghost e = reduced_data@;
    let (out, pallet, out_color) = calc_pallet(reduced_data, reduced_color);
    let r = find_best_encoding(&out, width, height, out_color, &pallet);
    assert(palette_result(e, reduced_color, out@, opt_view(&pallet), out_color));
    r
}

} // verus!
