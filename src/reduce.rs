//! Color-model reduction: rewrite a buffer into a cheaper layout when every
//! pixel allows it without loss.
use vstd::prelude::*;
use crate::layout::{channels, rgba_pixels, whole_pixels, ColorType};

verus! {

/// Every pixel of a three-channel buffer has red == green == blue.
pub open spec fn rgb_is_gray(d: Seq<u8>) -> bool {
    forall|i: int| 0 <= i < d.len() / 3 ==> #[trigger] d[3 * i] == d[3 * i + 1] && d[3 * i] == d[3 * i + 2]
}

/// Every pixel of a gray+alpha buffer is fully opaque.
pub open spec fn gray_alpha_opaque(d: Seq<u8>) -> bool {
    forall|i: int| 0 <= i < d.len() / 2 ==> #[trigger] d[2 * i + 1] == 255
}

/// Every pixel of an RGBA buffer is fully opaque.
pub open spec fn rgba_opaque(d: Seq<u8>) -> bool {
    forall|i: int| 0 <= i < d.len() / 4 ==> #[trigger] d[4 * i + 3] == 255
}

/// Every pixel of an RGBA buffer has red == green == blue.
pub open spec fn rgba_is_gray(d: Seq<u8>) -> bool {
    forall|i: int| 0 <= i < d.len() / 4 ==> #[trigger] d[4 * i] == d[4 * i + 1] && d[4 * i] == d[4 * i + 2]
}

/// The first sample of each pixel of a buffer with `k` bytes per pixel.
pub open spec fn first_samples(d: Seq<u8>, k: nat) -> Seq<u8> {
    Seq::new(d.len() / k, |i: int| d[k * i])
}

/// An RGBA buffer with the alpha byte of each pixel left out.
pub open spec fn drop_alpha(d: Seq<u8>) -> Seq<u8> {
    Seq::new(3 * (d.len() / 4), |j: int| d[4 * (j / 3) + j % 3])
}

/// The buffer and layout that reduction yields.
pub open spec fn reduced(d: Seq<u8>, c: ColorType) -> (Seq<u8>, ColorType) {
    match c {
        ColorType::Rgb => if rgb_is_gray(d) {
            (first_samples(d, 3), ColorType::Grayscale)
        } else {
            (d, c)
        },
        ColorType::GrayscaleAlpha => if gray_alpha_opaque(d) {
            (first_samples(d, 2), ColorType::Grayscale)
        } else {
            (d, c)
        },
        ColorType::Rgba => if !rgba_opaque(d) {
            (d, c)
        } else if rgba_is_gray(d) {
            (first_samples(d, 4), ColorType::Grayscale)
        } else {
            (drop_alpha(d), ColorType::Rgb)
        },
        _ => (d, c),
    }
}

/// Reduces `data`, laid out as `color`, to the cheapest layout that keeps
/// every pixel: RGB with gray pixels and opaque gray+alpha become gray;
/// opaque RGBA becomes gray or RGB. Otherwise the input comes back as it was.
pub fn trivial_compress(data: Vec<u8>, color: ColorType) -> (r: (Vec<u8>, ColorType))
    requires
        color != ColorType::Indexed,
        whole_pixels(data@, color),
    ensures
        (r.0@, r.1) == reduced(data@, color),
        whole_pixels(r.0@, r.1),
        color == ColorType::Rgb && rgb_is_gray(data@) ==> {
            &&& r.1 == ColorType::Grayscale
            &&& r.0@.len() == data@.len() / 3
            &&& forall|i: int| 0 <= i < r.0@.len() ==> #[trigger] r.0@[i] == data@[3 * i]
                && r.0@[i] == data@[3 * i + 1] && r.0@[i] == data@[3 * i + 2]
        },
        color == ColorType::Rgb && !rgb_is_gray(data@) ==> r.0@ == data@ && r.1 == color,
        color == ColorType::Rgba && !rgba_opaque(data@) ==> r.0@ == data@ && r.1 == color,
        rgba_pixels(r.0@, r.1, seq![]) == rgba_pixels(data@, color, seq![]),
{
    proof {
        lemma_reduce_keeps_pixels(data@, color);
    }
    match color {
        ColorType::Rgb => {
            let n: usize = data.len() / 3;
            let mut gray: Vec<u8> = Vec::with_capacity(n);
            let mut i: usize = 0;
            while i < n
                invariant
                    color == ColorType::Rgb,
                    whole_pixels(data@, color),
                    n == data@.len() / 3,
                    data@.len() <= usize::MAX,
                    i <= n,
                    gray@ =~= first_samples(data@, 3).take(i as int),
                    forall|k: int| 0 <= k < i ==> #[trigger] data@[3 * k] == data@[3 * k + 1]
                        && data@[3 * k] == data@[3 * k + 2],
                decreases n - i,
            {
                assert(3 * i + 2 < data@.len()) by (nonlinear_arith)
                    requires i < n, n == data@.len() / 3;
                let r = data[3 * i];
                if r != data[3 * i + 1] || r != data[3 * i + 2] {
                    assert(!rgb_is_gray(data@)) by {
                        assert(data@[3 * (i as int)] != data@[3 * (i as int) + 1]
                            || data@[3 * (i as int)] != data@[3 * (i as int) + 2]);
                    }
                    return (data, color);
                }
                gray.push(r);
                i += 1;
            }
            (gray, ColorType::Grayscale)
        },
        ColorType::GrayscaleAlpha => {
            let n: usize = data.len() / 2;
            let mut gray: Vec<u8> = Vec::with_capacity(n);
            let mut i: usize = 0;
            while i < n
                invariant
                    color == ColorType::GrayscaleAlpha,
                    whole_pixels(data@, color),
                    n == data@.len() / 2,
                    data@.len() <= usize::MAX,
                    i <= n,
                    gray@ =~= first_samples(data@, 2).take(i as int),
                    forall|k: int| 0 <= k < i ==> #[trigger] data@[2 * k + 1] == 255,
                decreases n - i,
            {
                assert(2 * i + 1 < data@.len()) by (nonlinear_arith)
                    requires i < n, n == data@.len() / 2;
                if data[2 * i + 1] != 255 {
                    assert(data@[2 * (i as int) + 1] != 255);
                    return (data, color);
                }
                gray.push(data[2 * i]);
                i += 1;
            }
            (gray, ColorType::Grayscale)
        },
        ColorType::Rgba => reduce_rgba(data),
        _ => (data, color),
    }
}

/// Reduction never changes a decoded pixel: the reduced buffer, read in its
/// new layout, holds the same pixels as the input read in its own.
pub proof fn lemma_reduce_keeps_pixels(d: Seq<u8>, c: ColorType)
    requires
        c != ColorType::Indexed,
        whole_pixels(d, c),
    ensures
        rgba_pixels(reduced(d, c).0, reduced(d, c).1, seq![]) == rgba_pixels(d, c, seq![]),
{
    let (e, c2) = reduced(d, c);
    let a = rgba_pixels(e, c2, seq![]);
    let b = rgba_pixels(d, c, seq![]);
    match c {
        ColorType::Rgb => if rgb_is_gray(d) {
            assert forall|i: int| 0 <= i < b.len() implies a[i] == b[i] by {
                assert(d[3 * i] == d[3 * i + 1] && d[3 * i] == d[3 * i + 2]);
            }
        },
        ColorType::GrayscaleAlpha => if gray_alpha_opaque(d) {
            assert forall|i: int| 0 <= i < b.len() implies a[i] == b[i] by {
                assert(d[2 * i + 1] == 255);
            }
        },
        ColorType::Rgba => if rgba_opaque(d) {
            if rgba_is_gray(d) {
                assert forall|i: int| 0 <= i < b.len() implies a[i] == b[i] by {
                    assert(d[4 * i + 3] == 255);
                    assert(d[4 * i] == d[4 * i + 1] && d[4 * i] == d[4 * i + 2]);
                }
            } else {
                let n = d.len() / 4;
                assert((3 * n) / 3 == n) by (nonlinear_arith);
                assert forall|i: int| 0 <= i < b.len() implies a[i] == b[i] by {
                    assert(d[4 * i + 3] == 255);
                    assert(3 * i + 2 < 3 * n) by (nonlinear_arith) requires 0 <= i < n;
                    assert((3 * i + 0) / 3 == i && (3 * i + 0) % 3 == 0) by (nonlinear_arith);
                    assert((3 * i + 1) / 3 == i && (3 * i + 1) % 3 == 1) by (nonlinear_arith);
                    assert((3 * i + 2) / 3 == i && (3 * i + 2) % 3 == 2) by (nonlinear_arith);
                }
            }
        },
        _ => {},
    }
    assert(a =~= b);
}

fn reduce_rgba(data: Vec<u8>) -> (r: (Vec<u8>, ColorType))
    requires
        whole_pixels(data@, ColorType::Rgba),
    ensures
        (r.0@, r.1) == reduced(data@, ColorType::Rgba),
        whole_pixels(r.0@, r.1),
{
    let n: usize = data.len() / 4;
    let mut i: usize = 0;
    while i < n
        invariant
            n == data@.len() / 4,
            data@.len() <= usize::MAX,
            i <= n,
            whole_pixels(data@, ColorType::Rgba),
            forall|k: int| 0 <= k < i ==> #[trigger] data@[4 * k + 3] == 255,
        decreases n - i,
    {
        assert(4 * i + 3 < data@.len()) by (nonlinear_arith)
            requires i < n, n == data@.len() / 4;
        if data[4 * i + 3] != 255 {
            assert(data@[4 * (i as int) + 3] != 255);
            return (data, ColorType::Rgba);
        }
        i += 1;
    }
    let mut gray_ok: bool = true;
    i = 0;
    while i < n
        invariant
            n == data@.len() / 4,
            data@.len() <= usize::MAX,
            i <= n,
            gray_ok <==> forall|k: int| 0 <= k < i ==> #[trigger] data@[4 * k] == data@[4 * k + 1]
                && data@[4 * k] == data@[4 * k + 2],
        decreases n - i,
    {
        assert(4 * i + 3 < data@.len()) by (nonlinear_arith)
            requires i < n, n == data@.len() / 4;
        if data[4 * i] != data[4 * i + 1] || data[4 * i] != data[4 * i + 2] {
            gray_ok = false;
        }
        i += 1;
    }
    if gray_ok {
        let mut gray: Vec<u8> = Vec::with_capacity(n);
        i = 0;
        while i < n
            invariant
                n == data@.len() / 4,
                data@.len() <= usize::MAX,
                i <= n,
                gray@ =~= first_samples(data@, 4).take(i as int),
            decreases n - i,
        {
            assert(4 * i + 3 < data@.len()) by (nonlinear_arith)
                requires i < n, n == data@.len() / 4;
            gray.push(data[4 * i]);
            i += 1;
        }
        assert(gray@ =~= first_samples(data@, 4));
        (gray, ColorType::Grayscale)
    } else {
        let mut rgb: Vec<u8> = Vec::with_capacity(3 * n);
        i = 0;
        while i < n
            invariant
                n == data@.len() / 4,
                data@.len() <= usize::MAX,
                i <= n,
                rgb@ =~= drop_alpha(data@).take(3 * i),
            decreases n - i,
        {
            proof {
                assert(4 * i + 3 < data@.len()) by (nonlinear_arith)
                    requires i < n, n == data@.len() / 4;
                assert((3 * i + 0) / 3 == i && (3 * i + 0) % 3 == 0) by (nonlinear_arith);
                assert((3 * i + 1) / 3 == i && (3 * i + 1) % 3 == 1) by (nonlinear_arith);
                assert((3 * i + 2) / 3 == i && (3 * i + 2) % 3 == 2) by (nonlinear_arith);
            }
            rgb.push(data[4 * i]);
            rgb.push(data[4 * i + 1]);
            rgb.push(data[4 * i + 2]);
            i += 1;
        }
        assert(rgb@ =~= drop_alpha(data@));
        assert((3 * n) % 3 == 0) by (nonlinear_arith);
        (rgb, ColorType::Rgb)
    }
}

} // verus!
