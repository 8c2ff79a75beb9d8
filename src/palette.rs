//! Palette construction for RGB buffers with at most 256 distinct colors.
use vstd::prelude::*;
use vstd::seq_lib::seq_to_set_is_finite;
use vstd::set_lib::lemma_len_subset;
use crate::layout::{palette_entry, rgb_at, rgba_pixels, whole_pixels, ColorType, Rgb8};

verus! {

/// The pixels of a three-channel buffer.
pub open spec fn rgb_pixels(d: Seq<u8>) -> Seq<Rgb8> {
    Seq::new(d.len() / 3, |i: int| rgb_at(d, i))
}

/// The set of colors that occur in a three-channel buffer.
pub open spec fn distinct_colors(d: Seq<u8>) -> Set<Rgb8> {
    rgb_pixels(d).to_set()
}

/// How many of the first `n` pixels have color `c`.
pub open spec fn count_prefix(d: Seq<u8>, c: Rgb8, n: nat) -> nat
    decreases n,
{
    if n == 0 {
        0
    } else {
        count_prefix(d, c, (n - 1) as nat) + if rgb_at(d, n - 1) == c { 1nat } else { 0nat }
    }
}

/// How many pixels of a three-channel buffer have color `c`.
pub open spec fn color_count(d: Seq<u8>, c: Rgb8) -> nat {
    count_prefix(d, c, d.len() / 3)
}

/// The entries of a palette table.
pub open spec fn palette_colors(p: Seq<u8>) -> Seq<Rgb8> {
    Seq::new(p.len() / 3, |j: int| palette_entry(p, j))
}

/// `idx` holds, for each pixel of `d`, the index of its color in `p`.
pub open spec fn indexes(d: Seq<u8>, idx: Seq<u8>, p: Seq<u8>) -> bool {
    &&& p.len() % 3 == 0
    &&& idx.len() == d.len() / 3
    &&& forall|i: int| 0 <= i < idx.len() ==> (#[trigger] idx[i]) < p.len() / 3
        && palette_entry(p, idx[i] as int) == rgb_at(d, i)
}

/// Color `a` occurs in `d` before any pixel of color `b`.
pub open spec fn seen_before(d: Seq<u8>, a: Rgb8, b: Rgb8) -> bool {
    exists|p: int| 0 <= p < d.len() / 3 && #[trigger] rgb_at(d, p) == a
        && forall|q: int| 0 <= q <= p ==> rgb_at(d, q) != b
}

/// `p` lists each color of `d` once, most frequent first; of two colors with
/// the same count, the one that occurs first comes first.
pub open spec fn ranked_palette(d: Seq<u8>, p: Seq<u8>) -> bool {
    &&& palette_colors(p).no_duplicates()
    &&& palette_colors(p).to_set() == distinct_colors(d)
    &&& forall|j: int, k: int| 0 <= j < k < p.len() / 3 ==>
        color_count(d, #[trigger] palette_entry(p, j)) >= color_count(d, #[trigger] palette_entry(p, k))
    &&& forall|j: int, k: int| 0 <= j < k < p.len() / 3 &&
        color_count(d, #[trigger] palette_entry(p, j)) == color_count(d, #[trigger] palette_entry(p, k))
        ==> seen_before(d, palette_entry(p, j), palette_entry(p, k))
}

proof fn lemma_count_bounded(d: Seq<u8>, c: Rgb8, n: nat)
    ensures
        count_prefix(d, c, n) <= n,
    decreases n,
{
    if n > 0 {
        lemma_count_bounded(d, c, (n - 1) as nat);
    }
}

proof fn lemma_count_absent(d: Seq<u8>, c: Rgb8, n: nat)
    requires
        forall|k: int| 0 <= k < n ==> rgb_at(d, k) != c,
    ensures
        count_prefix(d, c, n) == 0,
    decreases n,
{
    if n > 0 {
        lemma_count_absent(d, c, (n - 1) as nat);
    }
}

/// The position of `c` in `colors`, if it is there.
fn find_color(colors: &Vec<Rgb8>, c: Rgb8) -> (r: Option<usize>)
    ensures
        r matches Some(j) ==> j < colors@.len() && colors@[j as int] == c,
        r is None ==> !colors@.contains(c),
{
    let mut j: usize = 0;
    while j < colors.len()
        invariant
            j <= colors@.len(),
            forall|k: int| 0 <= k < j ==> colors@[k] != c,
        decreases colors@.len() - j,
    {
        let e = colors[j];
        if e.0 == c.0 && e.1 == c.1 && e.2 == c.2 {
            return Some(j);
        }
        j += 1;
    }
    None
}

/// The distinct colors of `data` in order of first occurrence, each with its
/// number of pixels; the scan stops once there are more than 256.
fn tally_colors(data: &Vec<u8>) -> (r: (Vec<Rgb8>, Vec<usize>))
    requires
        whole_pixels(data@, ColorType::Rgb),
    ensures
        r.0@.len() == r.1@.len(),
        r.0@.no_duplicates(),
        r.0@.to_set().subset_of(distinct_colors(data@)),
        r.0@.len() <= 256 ==> r.0@.to_set() == distinct_colors(data@),
        r.0@.len() <= 257,
        forall|a: int, b: int| 0 <= a < b < r.0@.len() ==> seen_before(data@, #[trigger] r.0@[a], #[trigger] r.0@[b]),
        r.0@.len() <= 256 ==> forall|j: int| 0 <= j < r.1@.len() ==> #[trigger] r.1@[j] == color_count(data@, r.0@[j]),
{
    let n: usize = data.len() / 3;
    let ghost px = rgb_pixels(data@);
    let mut colors: Vec<Rgb8> = Vec::new();
    let mut counts: Vec<usize> = Vec::new();
    let mut i: usize = 0;
    while i < n && colors.len() <= 256
        invariant
            n == data@.len() / 3,
            data@.len() <= usize::MAX,
            px == rgb_pixels(data@),
            i <= n,
            colors@.len() == counts@.len(),
            colors@.len() <= 257,
            colors@.no_duplicates(),
            forall|c: Rgb8| colors@.contains(c) <==> exists|k: int| 0 <= k < i && #[trigger] px[k] == c,
            forall|j: int| 0 <= j < counts@.len() ==> #[trigger] counts@[j] == count_prefix(data@, colors@[j], i as nat),
            forall|a: int, b: int| 0 <= a < b < colors@.len() ==> seen_before(data@, #[trigger] colors@[a], #[trigger] colors@[b]),
        decreases n - i,
    {
        assert(3 * i + 2 < data@.len()) by (nonlinear_arith)
            requires i < n, n == data@.len() / 3;
        let c: Rgb8 = (data[3 * i], data[3 * i + 1], data[3 * i + 2]);
        assert(px[i as int] == c);
        let ghost old_colors = colors@;
        let ghost old_counts = counts@;
        match find_color(&colors, c) {
            Some(j) => {
                proof {
                    lemma_count_bounded(data@, c, i as nat);
                }
                let v = counts[j] + 1;
                counts.set(j, v);
                assert(colors@[j as int] == c);
            },
            None => {
                proof {
                    assert forall|k: int| 0 <= k < i implies rgb_at(data@, k) != c by {
                        if rgb_at(data@, k) == c {
                            assert(px[k] == c);
                        }
                    }
                    lemma_count_absent(data@, c, i as nat);
                    assert forall|a: int| 0 <= a < old_colors.len() implies seen_before(data@, #[trigger] old_colors[a], c) by {
                        assert(old_colors.contains(old_colors[a]));
                        let p = choose|p: int| 0 <= p < i && #[trigger] px[p] == old_colors[a];
                        assert(rgb_at(data@, p) == old_colors[a]);
                        assert forall|q: int| 0 <= q <= p implies rgb_at(data@, q) != c by {
                            assert(px[q] == rgb_at(data@, q));
                        }
                    }
                }
                colors.push(c);
                counts.push(1);
                assert(colors@[colors@.len() - 1] == c);
            },
        }
        proof {
            assert forall|c2: Rgb8| colors@.contains(c2) implies exists|k: int| 0 <= k < i + 1 && #[trigger] px[k] == c2 by {
                if c2 != c {
                    assert(old_colors.contains(c2));
                }
            }
            assert forall|c2: Rgb8| (exists|k: int| 0 <= k < i + 1 && #[trigger] px[k] == c2) implies colors@.contains(c2) by {
                if c2 != c {
                    assert(old_colors.contains(c2));
                    let q = choose|q: int| 0 <= q < old_colors.len() && old_colors[q] == c2;
                    assert(colors@[q] == c2);
                }
            }
        }
        i += 1;
    }
    proof {
        let s = colors@.to_set();
        assert(s.subset_of(px.to_set())) by {
            assert forall|c: Rgb8| s.contains(c) implies px.to_set().contains(c) by {
                assert(colors@.contains(c));
                let k = choose|k: int| 0 <= k < i && #[trigger] px[k] == c;
                assert(px.contains(c));
            }
        }
        colors@.unique_seq_to_set();
        if colors@.len() <= 256 {
            assert(s =~= px.to_set()) by {
                assert forall|c: Rgb8| px.to_set().contains(c) implies s.contains(c) by {
                    assert(px.contains(c));
                    let k = choose|k: int| 0 <= k < px.len() && px[k] == c;
                    assert(colors@.contains(c));
                }
            }
        }
    }
    (colors, counts)
}

/// `colors` reordered by descending count; colors with equal counts keep
/// their order (the order of first occurrence).
fn rank_colors(colors: &Vec<Rgb8>, counts: &Vec<usize>, Ghost(d): Ghost<Seq<u8>>) -> (r: (Vec<Rgb8>, Vec<usize>))
    requires
        colors@.len() == counts@.len(),
        colors@.no_duplicates(),
        forall|j: int| 0 <= j < counts@.len() ==> #[trigger] counts@[j] == color_count(d, colors@[j]),
        forall|a: int, b: int| 0 <= a < b < colors@.len() ==> seen_before(d, #[trigger] colors@[a], #[trigger] colors@[b]),
    ensures
        r.0@.len() == colors@.len(),
        r.1@.len() == colors@.len(),
        r.0@.no_duplicates(),
        r.0@.to_set() == colors@.to_set(),
        forall|k: int| 0 <= k < r.1@.len() ==> #[trigger] r.1@[k] == color_count(d, r.0@[k]),
        forall|a: int, b: int| 0 <= a < b < r.1@.len() ==> r.1@[a] >= r.1@[b],
        forall|a: int, b: int| 0 <= a < b < r.1@.len() && r.1@[a] == r.1@[b] ==>
            seen_before(d, #[trigger] r.0@[a], #[trigger] r.0@[b]),
{
    let m = colors.len();
    let mut sc: Vec<Rgb8> = Vec::with_capacity(m);
    let mut sn: Vec<usize> = Vec::with_capacity(m);
    let mut j: usize = 0;
    while j < m
        invariant
            m == colors@.len(),
            m == counts@.len(),
            colors@.no_duplicates(),
            forall|q: int| 0 <= q < counts@.len() ==> #[trigger] counts@[q] == color_count(d, colors@[q]),
            j <= m,
            sc@.len() == j,
            sn@.len() == j,
            sc@.no_duplicates(),
            forall|c: Rgb8| sc@.contains(c) <==> colors@.take(j as int).contains(c),
            forall|k: int| 0 <= k < sn@.len() ==> #[trigger] sn@[k] == color_count(d, sc@[k]),
            forall|a: int, b: int| 0 <= a < b < sn@.len() ==> sn@[a] >= sn@[b],
            forall|a: int, b: int| 0 <= a < b < colors@.len() ==> seen_before(d, #[trigger] colors@[a], #[trigger] colors@[b]),
            forall|a: int, b: int| 0 <= a < b < sn@.len() && sn@[a] == sn@[b] ==>
                seen_before(d, #[trigger] sc@[a], #[trigger] sc@[b]),
        decreases m - j,
    {
        let x = colors[j];
        let cx = counts[j];
        let mut p: usize = 0;
        while p < sn.len() && sn[p] >= cx
            invariant
                p <= sn@.len(),
                forall|q: int| 0 <= q < p ==> sn@[q] >= cx,
            decreases sn@.len() - p,
        {
            p += 1;
        }
        proof {
            assert(!sc@.contains(x)) by {
                if sc@.contains(x) {
                    assert(colors@.take(j as int).contains(x));
                    let q = choose|q: int| 0 <= q < j && colors@.take(j as int)[q] == x;
                    assert(colors@[q] == colors@[j as int]);
                }
            }
        }
        let ghost old_sc = sc@;
        let ghost old_sn = sn@;
        sc.insert(p, x);
        sn.insert(p, cx);
        proof {
            old_sc.insert_ensures(p as int, x);
            old_sn.insert_ensures(p as int, cx);
            assert forall|k: int| 0 <= k < sn@.len() implies #[trigger] sn@[k] == color_count(d, sc@[k]) by {
                if k > p {
                    assert(sn@[k] == old_sn[k - 1]);
                }
            }
            assert forall|a: int, b: int| 0 <= a < b < sn@.len() implies sn@[a] >= sn@[b] by {
                if b > p {
                    assert(sn@[b] == old_sn[b - 1]);
                }
                if a > p {
                    assert(sn@[a] == old_sn[a - 1]);
                }
                if a == p && b > p && p < old_sn.len() {
                    assert(old_sn[p as int] < cx);
                    assert(old_sn[p as int] >= old_sn[b - 1]);
                }
            }
            assert forall|a: int, b: int| 0 <= a < b < sc@.len() implies sc@[a] != sc@[b] by {
                if b > p {
                    assert(sc@[b] == old_sc[b - 1]);
                    assert(old_sc.contains(old_sc[b - 1]));
                }
                if a > p {
                    assert(sc@[a] == old_sc[a - 1]);
                }
                if a < p {
                    assert(old_sc.contains(old_sc[a]));
                }
            }
            assert forall|a: int, b: int| 0 <= a < b < sn@.len() && sn@[a] == sn@[b] implies
                seen_before(d, #[trigger] sc@[a], #[trigger] sc@[b]) by {
                if a > p {
                    assert(sn@[a] == old_sn[a - 1] && sc@[a] == old_sc[a - 1]);
                    assert(sn@[b] == old_sn[b - 1] && sc@[b] == old_sc[b - 1]);
                } else if a == p {
                    assert(sn@[b] == old_sn[b - 1]);
                    assert(old_sn[p as int] < cx);
                    assert(old_sn[p as int] >= old_sn[b - 1]);
                } else if b == p {
                    assert(old_sc.contains(sc@[a]));
                    assert(colors@.take(j as int).contains(sc@[a]));
                    let q = choose|q: int| 0 <= q < j && #[trigger] colors@.take(j as int)[q] == sc@[a];
                    assert(colors@[q] == sc@[a]);
                    assert(seen_before(d, colors@[q], colors@[j as int]));
                } else if b > p {
                    assert(sn@[b] == old_sn[b - 1] && sc@[b] == old_sc[b - 1]);
                }
            }
            assert(colors@.take(j + 1) =~= colors@.take(j as int).push(x));
            assert forall|c: Rgb8| sc@.contains(c) <==> colors@.take(j + 1).contains(c) by {
                if sc@.contains(c) {
                    let k = choose|k: int| 0 <= k < sc@.len() && sc@[k] == c;
                    if k < p {
                        assert(old_sc.contains(c));
                    } else if k > p {
                        assert(old_sc[k - 1] == c);
                        assert(old_sc.contains(c));
                    }
                    assert(colors@.take(j as int).push(x).contains(c) || c == x);
                    assert(colors@.take(j as int).push(x)[j as int] == x);
                }
                if colors@.take(j + 1).contains(c) {
                    let k = choose|k: int| 0 <= k < j + 1 && #[trigger] colors@.take(j + 1)[k] == c;
                    if k < j {
                        assert(colors@.take(j as int)[k] == c);
                        assert(old_sc.contains(c));
                        let q = choose|q: int| 0 <= q < old_sc.len() && old_sc[q] == c;
                        if q < p {
                            assert(sc@[q] == c);
                        } else {
                            assert(sc@[q + 1] == c);
                        }
                    } else {
                        assert(sc@[p as int] == c);
                    }
                }
            }
        }
        j += 1;
    }
    proof {
        assert(colors@.take(m as int) =~= colors@);
        assert(sc@.to_set() =~= colors@.to_set());
    }
    (sc, sn)
}

/// What palette construction yields for `d` laid out as `c`: the buffer
/// `out`, laid out as `c2`, with palette table `pal` where there is one.
pub open spec fn palette_result(d: Seq<u8>, c: ColorType, out: Seq<u8>, pal: Option<Seq<u8>>, c2: ColorType) -> bool {
    if c != ColorType::Rgb || distinct_colors(d).len() > 256 {
        out == d && pal is None && c2 == c
    } else {
        &&& c2 == ColorType::Indexed
        &&& pal matches Some(p) && {
            &&& p.len() == 3 * distinct_colors(d).len()
            &&& indexes(d, out, p)
            &&& ranked_palette(d, p)
        }
    }
}

pub open spec fn opt_view(p: &Option<Vec<u8>>) -> Option<Seq<u8>> {
    match p {
        Some(v) => Some(v@),
        None => None,
    }
}

/// Replaces an RGB buffer with at most 256 distinct colors by one index byte
/// per pixel and a palette table of red, green, blue triples, most frequent
/// color first (colors with equal counts in order of first occurrence). Any
/// other buffer comes back unchanged, without a palette.
pub fn calc_pallet(data: Vec<u8>, color: ColorType) -> (r: (Vec<u8>, Option<Vec<u8>>, ColorType))
    requires
        color == ColorType::Rgb ==> whole_pixels(data@, color),
    ensures
        palette_result(data@, color, r.0@, opt_view(&r.1), r.2),
{
    if color != ColorType::Rgb {
        return (data, None, color);
    }
    let (colors, counts) = tally_colors(&data);
    if colors.len() > 256 {
        proof {
            seq_to_set_is_finite(rgb_pixels(data@));
            lemma_len_subset(colors@.to_set(), distinct_colors(data@));
            colors@.unique_seq_to_set();
        }
        return (data, None, color);
    }
    proof {
        colors@.unique_seq_to_set();
    }
    let (sc, sn) = rank_colors(&colors, &counts, Ghost(data@));
    proof {
        sc@.unique_seq_to_set();
    }
    let m = sc.len();
    let mut pal: Vec<u8> = Vec::with_capacity(3 * m);
    let mut k: usize = 0;
    while k < m
        invariant
            m == sc@.len(),
            m <= 256,
            k <= m,
            pal@.len() == 3 * k,
            forall|q: int| 0 <= q < k ==> #[trigger] palette_entry(pal@, q) == sc@[q],
        decreases m - k,
    {
        let e = sc[k];
        let ghost before = pal@;
        pal.push(e.0);
        pal.push(e.1);
        pal.push(e.2);
        proof {
            assert forall|q: int| 0 <= q < k + 1 implies #[trigger] palette_entry(pal@, q) == sc@[q] by {
                if q < k {
                    assert(palette_entry(before, q) == sc@[q]);
                }
            }
        }
        k += 1;
    }
    let n: usize = data.len() / 3;
    let mut idx: Vec<u8> = Vec::with_capacity(n);
    let mut i: usize = 0;
    while i < n
        invariant
            n == data@.len() / 3,
            data@.len() <= usize::MAX,
            m == sc@.len(),
            m <= 256,
            sc@.to_set() == distinct_colors(data@),
            i <= n,
            idx@.len() == i,
            forall|q: int| 0 <= q < i ==> (#[trigger] idx@[q]) < m && sc@[idx@[q] as int] == rgb_at(data@, q),
        decreases n - i,
    {
        assert(3 * i + 2 < data@.len()) by (nonlinear_arith)
            requires i < n, n == data@.len() / 3;
        let c: Rgb8 = (data[3 * i], data[3 * i + 1], data[3 * i + 2]);
        proof {
            assert(rgb_pixels(data@)[i as int] == c);
            assert(rgb_pixels(data@).contains(c));
            assert(sc@.to_set().contains(c));
        }
        match find_color(&sc, c) {
            Some(j) => {
                idx.push(j as u8);
            },
            None => {
                proof {
                    assert(false);
                }
            },
        }
        i += 1;
    }
    proof {
        assert(palette_colors(pal@) =~= sc@);
        assert forall|j: int, q: int| 0 <= j < q < pal@.len() / 3 implies
            color_count(data@, #[trigger] palette_entry(pal@, j)) >= color_count(data@, #[trigger] palette_entry(pal@, q)) by {
            assert(sn@[j] >= sn@[q]);
        }
        assert forall|j: int, q: int| 0 <= j < q < pal@.len() / 3 &&
            color_count(data@, #[trigger] palette_entry(pal@, j)) == color_count(data@, #[trigger] palette_entry(pal@, q))
            implies seen_before(data@, palette_entry(pal@, j), palette_entry(pal@, q)) by {
            assert(sn@[j] == sn@[q]);
            assert(seen_before(data@, sc@[j], sc@[q]));
        }
        assert(colors@.to_set() == distinct_colors(data@));
    }
    (idx, Some(pal), ColorType::Indexed)
}

/// Palette indexing never changes a decoded pixel.
pub proof fn lemma_palette_keeps_pixels(d: Seq<u8>, idx: Seq<u8>, p: Seq<u8>)
    requires
        whole_pixels(d, ColorType::Rgb),
        indexes(d, idx, p),
    ensures
        rgba_pixels(idx, ColorType::Indexed, p) == rgba_pixels(d, ColorType::Rgb, seq![]),
{
    let a = rgba_pixels(idx, ColorType::Indexed, p);
    let b = rgba_pixels(d, ColorType::Rgb, seq![]);
    assert forall|i: int| 0 <= i < b.len() implies a[i] == b[i] by {
        assert(idx[i] < p.len() / 3);
    }
    assert(a =~= b);
}

} // verus!
