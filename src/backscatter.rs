//! Backscatter sample selection: the darkest pixels of each depth bin.
use vstd::prelude::*;
use crate::grid::{Grid, DepthMap, seq_min, seq_max, min_max, lemma_min_max};
use crate::segment::PPM;
use crate::errors::Aqua3dError;
use crate::image_proc::ImageProcessing;

verus! {

/// Colour image, one (red, green, blue) triple per cell.
pub type RgbImage = Grid<(u8, u8, u8)>;

/// One sample: a depth and the brightness of one colour channel there.
pub type Sample = (u32, u8);

/// Brightness of a pixel: the sum of its channels (the average, times 3).
pub open spec fn intensity(px: (u8, u8, u8)) -> u32 {
    (px.0 + px.1 + px.2) as u32
}

/// Channel `c` (0, 1 or 2) of a pixel.
pub open spec fn channel(px: (u8, u8, u8), c: int) -> u8 {
    if c == 0 { px.0 } else if c == 1 { px.1 } else { px.2 }
}

/// Order by brightness, then by cell index.
pub open spec fn key_le(a: (u32, usize), b: (u32, usize)) -> bool {
    a.0 < b.0 || (a.0 == b.0 && a.1 <= b.1)
}

/// Depth `d` lies above the exclusion threshold
/// `min + min_depth_ppm / PPM * (max - min)`.
pub open spec fn deep_enough(lo: int, hi: int, min_depth_ppm: int, d: int) -> bool {
    (d - lo) * PPM > min_depth_ppm * (hi - lo)
}

/// The equal-width bin of `[lo, hi]` (with `lo < hi`) that holds `d`; the
/// bins are half-open but for the last, which also holds `hi`.
pub open spec fn bin_of(lo: int, hi: int, num_bins: int, d: int) -> int {
    let b = (d - lo) * num_bins / (hi - lo);
    if b < num_bins - 1 { b } else { num_bins - 1 }
}

/// (brightness, index) of the first `i` cells that qualify for bin `k`, in
/// cell order.
pub open spec fn bin_pairs(
    depth: Seq<u32>,
    img: Seq<(u8, u8, u8)>,
    num_bins: int,
    min_depth_ppm: int,
    k: int,
    i: int,
) -> Seq<(u32, usize)>
    decreases i,
{
    if i <= 0 {
        Seq::empty()
    } else {
        let prev = bin_pairs(depth, img, num_bins, min_depth_ppm, k, i - 1);
        let (lo, hi) = (seq_min(depth) as int, seq_max(depth) as int);
        let d = depth[i - 1] as int;
        if deep_enough(lo, hi, min_depth_ppm, d) && bin_of(lo, hi, num_bins, d) == k {
            prev.push((intensity(img[i - 1]), (i - 1) as usize))
        } else {
            prev
        }
    }
}

/// `s` holds the items of `b`, darkest first.
pub open spec fn sorted_version(s: Seq<(u32, usize)>, b: Seq<(u32, usize)>) -> bool {
    &&& s.to_multiset() == b.to_multiset()
    &&& s.len() == b.len()
    &&& forall|i: int, j: int| 0 <= i <= j < s.len() ==> key_le(#[trigger] s[i], #[trigger] s[j])
}

/// `ceil(fraction_ppm / PPM * pop)`.
pub open spec fn wanted(pop: int, fraction_ppm: int) -> int {
    (fraction_ppm * pop + PPM - 1) / PPM as int
}

/// Cells picked from the first `k` sorted bins: from each, the darkest
/// `wanted` ones, cut to what is left of the shared budget `max_vals`.
pub open spec fn picked(sorted: Seq<Seq<(u32, usize)>>, k: int, fraction_ppm: int, max_vals: int) -> Seq<
    usize,
>
    decreases k,
{
    if k <= 0 {
        Seq::empty()
    } else {
        let prev = picked(sorted, k - 1, fraction_ppm, max_vals);
        let s = sorted[k - 1];
        let want = wanted(s.len() as int, fraction_ppm);
        let left = max_vals - prev.len();
        let t = if want < left { want } else { left };
        let t = if t < s.len() { t } else { s.len() as int };
        prev + s.subrange(0, t).map_values(|p: (u32, usize)| p.1)
    }
}

/// The samples of channel `c` for the picked cells.
pub open spec fn samples_of(
    depth: Seq<u32>,
    img: Seq<(u8, u8, u8)>,
    cells: Seq<usize>,
    c: int,
) -> Seq<Sample> {
    cells.map_values(|i: usize| (depth[i as int], channel(img[i as int], c)))
}

/// What the selector returns: `ShapeMismatch` when the image and the depth
/// map differ in size; `DegenerateDepthRange` when the depth map is empty or
/// flat; otherwise three sample sequences, one per channel, for the cells
/// picked from each bin sorted darkest first, never more than `max_vals`
/// nor `max_vals` per bin.
pub open spec fn selection(
    depth: &DepthMap,
    img: &RgbImage,
    num_bins: usize,
    fraction_ppm: u32,
    max_vals: u32,
    min_depth_ppm: u32,
    r: Result<Vec<Vec<Sample>>, Aqua3dError>,
) -> bool {
    &&& (depth.height != img.height || depth.width != img.width) <==> r == Err::<Vec<Vec<Sample>>, Aqua3dError>(
        Aqua3dError::ShapeMismatch,
    )
    &&& r == Err::<Vec<Vec<Sample>>, Aqua3dError>(Aqua3dError::DegenerateDepthRange) <==> (depth.height
        == img.height && depth.width == img.width && (depth.cells@.len() == 0 || seq_min(depth.cells@)
        == seq_max(depth.cells@)))
    &&& r matches Err(e) ==> e == Aqua3dError::ShapeMismatch || e == Aqua3dError::DegenerateDepthRange
    &&& r matches Ok(s) ==> {
        &&& s@.len() == 3
        &&& exists|sorted: Seq<Seq<(u32, usize)>>|
            {
                &&& sorted.len() == num_bins
                &&& forall|k: int|
                    0 <= k < num_bins ==> sorted_version(
                        #[trigger] sorted[k],
                        bin_pairs(
                            depth.cells@,
                            img.cells@,
                            num_bins as int,
                            min_depth_ppm as int,
                            k,
                            depth.cells@.len() as int,
                        ),
                    )
                &&& forall|c: int|
                    0 <= c < 3 ==> (#[trigger] s@[c])@ == samples_of(
                        depth.cells@,
                        img.cells@,
                        picked(sorted, num_bins as int, fraction_ppm as int, max_vals as int),
                        c,
                    )
            }
        &&& forall|c: int|
            0 <= c < 3 ==> (#[trigger] s@[c])@.len() <= max_vals && s@[c]@.len() <= max_vals * num_bins
    }
}

/// The budget is never exceeded.
pub proof fn lemma_picked_within_budget(
    sorted: Seq<Seq<(u32, usize)>>,
    k: int,
    fraction_ppm: int,
    max_vals: int,
)
    requires
        0 <= k <= sorted.len(),
        max_vals >= 0,
        fraction_ppm >= 0,
    ensures
        picked(sorted, k, fraction_ppm, max_vals).len() <= max_vals,
    decreases k,
{
    if k > 0 {
        lemma_picked_within_budget(sorted, k - 1, fraction_ppm, max_vals);
        let s = sorted[k - 1];
        assert(wanted(s.len() as int, fraction_ppm) >= 0) by (nonlinear_arith)
            requires
                fraction_ppm >= 0,
        ;
    }
}

proof fn lemma_bin_pairs_bound(
    depth: Seq<u32>,
    img: Seq<(u8, u8, u8)>,
    num_bins: int,
    min_depth_ppm: int,
    k: int,
    i: int,
)
    requires
        0 <= i,
    ensures
        forall|m: int|
            0 <= m < bin_pairs(depth, img, num_bins, min_depth_ppm, k, i).len() ==> (#[trigger] bin_pairs(
                depth,
                img,
                num_bins,
                min_depth_ppm,
                k,
                i,
            )[m]).1 < i,
    decreases i,
{
    if i > 0 {
        lemma_bin_pairs_bound(depth, img, num_bins, min_depth_ppm, k, i - 1);
        let prev = bin_pairs(depth, img, num_bins, min_depth_ppm, k, i - 1);
        let cur = bin_pairs(depth, img, num_bins, min_depth_ppm, k, i);
        assert forall|m: int| 0 <= m < cur.len() implies (#[trigger] cur[m]).1 < i by {
            if m < prev.len() {
                assert(cur[m] == prev[m]);
            }
        }
    }
}

proof fn lemma_picked_prefix(
    sorted: Seq<Seq<(u32, usize)>>,
    x: Seq<(u32, usize)>,
    k: int,
    fraction_ppm: int,
    max_vals: int,
)
    requires
        0 <= k <= sorted.len(),
    ensures
        picked(sorted.push(x), k, fraction_ppm, max_vals) == picked(sorted, k, fraction_ppm, max_vals),
    decreases k,
{
    if k > 0 {
        lemma_picked_prefix(sorted, x, k - 1, fraction_ppm, max_vals);
        assert(sorted.push(x)[k - 1] == sorted[k - 1]);
    }
}

/// (brightness, index) of the cells that qualify for bin `k`, in cell order.
fn collect_bin(
    depth: &Vec<u32>,
    img: &Vec<(u8, u8, u8)>,
    gray: &Vec<u32>,
    lo: u32,
    hi: u32,
    num_bins: usize,
    min_depth_ppm: u32,
    k: usize,
) -> (r: Vec<(u32, usize)>)
    requires
        depth@.len() == img@.len(),
        gray@ == img@.map_values(|px: (u8, u8, u8)| intensity(px)),
        depth@.len() > 0,
        lo == seq_min(depth@),
        hi == seq_max(depth@),
        lo < hi,
        num_bins > 0,
    ensures
        r@ == bin_pairs(depth@, img@, num_bins as int, min_depth_ppm as int, k as int, depth@.len() as int),
{
    let n = depth.len();
    let mut r: Vec<(u32, usize)> = Vec::new();
    let mut i: usize = 0;
    proof {
        lemma_min_max(depth@);
    }
    while i < n
        invariant
            n == depth@.len(),
            n == img@.len(),
            gray@ == img@.map_values(|px: (u8, u8, u8)| intensity(px)),
            i <= n,
            lo == seq_min(depth@),
            hi == seq_max(depth@),
            lo < hi,
            num_bins > 0,
            forall|j: int| 0 <= j < n ==> lo <= #[trigger] depth@[j] <= hi,
            r@ == bin_pairs(depth@, img@, num_bins as int, min_depth_ppm as int, k as int, i as int),
        decreases n - i,
    {
        let d = depth[i];
        let off: u32 = d - lo;
        let range: u32 = hi - lo;
        assert(min_depth_ppm as u64 * range as u64 <= u32::MAX as u64 * u32::MAX as u64) by (nonlinear_arith);
        let deep = off as u64 * 1_000_000 > min_depth_ppm as u64 * range as u64;
        assert(off as u128 * num_bins as u128 <= u32::MAX as u128 * usize::MAX as u128) by (nonlinear_arith);
        let raw_bin: u128 = (off as u128 * num_bins as u128) / range as u128;
        let bin: usize = if raw_bin < (num_bins - 1) as u128 { raw_bin as usize } else { num_bins - 1 };
        if deep && bin == k {
            r.push((gray[i], i));
        }
        i = i + 1;
    }
    r
}

/// Picks backscatter samples. The depth range is split into `num_bins`
/// equal bins; cells no deeper than the cut-off
/// `min + min_depth_ppm / PPM * (max - min)` are left out. In each bin the
/// cells are sorted darkest first and the first `ceil(fraction_ppm / PPM *
/// population)` are taken, as long as the shared budget of `max_vals`
/// samples lasts. The result holds one sample sequence per colour channel.
pub fn select_samples(
    depth: &DepthMap,
    img: &RgbImage,
    num_bins: usize,
    fraction_ppm: u32,
    max_vals: u32,
    min_depth_ppm: u32,
) -> (r: Result<Vec<Vec<Sample>>, Aqua3dError>)
    requires
        depth.wf(),
        img.wf(),
    ensures
        selection(depth, img, num_bins, fraction_ppm, max_vals, min_depth_ppm, r),
{
    if depth.height != img.height || depth.width != img.width {
        return Err(Aqua3dError::ShapeMismatch);
    }
    let n = depth.cells.len();
    if n == 0 {
        return Err(Aqua3dError::DegenerateDepthRange);
    }
    let (lo, hi) = min_max(&depth.cells);
    if lo == hi {
        return Err(Aqua3dError::DegenerateDepthRange);
    }
    proof {
        lemma_min_max(depth.cells@);
    }
    let ghost d = depth.cells@;
    let ghost im = img.cells@;
    let ghost f = fraction_ppm as int;
    let ghost mx = max_vals as int;
    let gray = img.grayscale();
    let mut s0: Vec<Sample> = Vec::new();
    let mut s1: Vec<Sample> = Vec::new();
    let mut s2: Vec<Sample> = Vec::new();
    let ghost mut sorted: Seq<Seq<(u32, usize)>> = seq![];
    let mut taken: u32 = 0;
    let mut k: usize = 0;
    while k < num_bins
        invariant
            n == d.len(),
            n == im.len(),
            d == depth.cells@,
            im == img.cells@,
            gray.cells@ == im.map_values(|px: (u8, u8, u8)| intensity(px)),
            f == fraction_ppm,
            mx == max_vals,
            lo == seq_min(d),
            hi == seq_max(d),
            lo < hi,
            k <= num_bins,
            sorted.len() == k,
            forall|b: int|
                0 <= b < k ==> sorted_version(
                    #[trigger] sorted[b],
                    bin_pairs(d, im, num_bins as int, min_depth_ppm as int, b, n as int),
                ),
            taken == picked(sorted, k as int, f, mx).len(),
            taken <= max_vals,
            s0@ == samples_of(d, im, picked(sorted, k as int, f, mx), 0),
            s1@ == samples_of(d, im, picked(sorted, k as int, f, mx), 1),
            s2@ == samples_of(d, im, picked(sorted, k as int, f, mx), 2),
        decreases num_bins - k,
    {
        let pairs = collect_bin(&depth.cells, &img.cells, &gray.cells, lo, hi, num_bins, min_depth_ppm, k);
        let ghost bp = pairs@;
        let sk = sorted_pairs(pairs);
        proof {
            lemma_bin_pairs_bound(d, im, num_bins as int, min_depth_ppm as int, k as int, n as int);
            sk@.to_multiset_ensures();
            bp.to_multiset_ensures();
            assert forall|m: int| 0 <= m < sk@.len() implies (#[trigger] sk@[m]).1 < n by {
                assert(sk@.contains(sk@[m]));
                assert(sk@.to_multiset().count(sk@[m]) > 0);
                assert(bp.to_multiset().count(sk@[m]) > 0);
                assert(bp.contains(sk@[m]));
                let x = choose|x: int| 0 <= x < bp.len() && bp[x] == sk@[m];
                assert(bp[x].1 < n);
            }
        }
        let pop = sk.len();
        assert(fraction_ppm as u128 * pop as u128 <= u32::MAX as u128 * usize::MAX as u128) by (nonlinear_arith);
        let want: u128 = (fraction_ppm as u128 * pop as u128 + 999_999) / 1_000_000;
        let left: u32 = max_vals - taken;
        let t1: u128 = if want < left as u128 { want } else { left as u128 };
        let t: usize = if t1 < pop as u128 { t1 as usize } else { pop };
        let ghost base = picked(sorted, k as int, f, mx);
        let ghost mut cur: Seq<usize> = base;
        let mut j: usize = 0;
        while j < t
            invariant
                n == d.len(),
                n == im.len(),
                d == depth.cells@,
                im == img.cells@,
                t <= sk@.len(),
                j <= t,
                forall|m: int| 0 <= m < sk@.len() ==> (#[trigger] sk@[m]).1 < n,
                cur == base + sk@.subrange(0, j as int).map_values(|p: (u32, usize)| p.1),
                s0@ == samples_of(d, im, cur, 0),
                s1@ == samples_of(d, im, cur, 1),
                s2@ == samples_of(d, im, cur, 2),
            decreases t - j,
        {
            let idx = sk[j].1;
            let px = img.cells[idx];
            let dv = depth.cells[idx];
            s0.push((dv, px.0));
            s1.push((dv, px.1));
            s2.push((dv, px.2));
            proof {
                let cur2 = cur.push(idx);
                assert(sk@.subrange(0, j + 1).map_values(|p: (u32, usize)| p.1) =~= sk@.subrange(
                    0,
                    j as int,
                ).map_values(|p: (u32, usize)| p.1).push(idx));
                assert(samples_of(d, im, cur2, 0) =~= samples_of(d, im, cur, 0).push((dv, px.0)));
                assert(samples_of(d, im, cur2, 1) =~= samples_of(d, im, cur, 1).push((dv, px.1)));
                assert(samples_of(d, im, cur2, 2) =~= samples_of(d, im, cur, 2).push((dv, px.2)));
                cur = cur2;
            }
            j = j + 1;
        }
        proof {
            let sorted2 = sorted.push(sk@);
            lemma_picked_prefix(sorted, sk@, k as int, f, mx);
            assert(sorted2[k as int] == sk@);
            assert(picked(sorted2, k + 1, f, mx) == cur);
            assert forall|b: int|
                0 <= b < k + 1 implies sorted_version(
                #[trigger] sorted2[b],
                bin_pairs(d, im, num_bins as int, min_depth_ppm as int, b, n as int),
            ) by {
                if b < k {
                    assert(sorted2[b] == sorted[b]);
                }
            }
            sorted = sorted2;
            lemma_picked_within_budget(sorted, k + 1, f, mx);
        }
        taken = taken + t as u32;
        k = k + 1;
    }
    proof {
        lemma_picked_within_budget(sorted, num_bins as int, f, mx);
        if num_bins > 0 {
            assert(mx <= mx * num_bins) by (nonlinear_arith)
                requires
                    num_bins >= 1,
                    mx >= 0,
            ;
        }
    }
    let mut out: Vec<Vec<Sample>> = Vec::new();
    out.push(s0);
    out.push(s1);
    out.push(s2);
    Ok(out)
}

/// Relies on itertools::Itertools::sorted: the same items in ascending order
/// (tuples compare field by field).
#[verifier::external_body]
fn sorted_pairs(v: Vec<(u32, usize)>) -> (r: Vec<(u32, usize)>)
    ensures
        r@.to_multiset() == v@.to_multiset(),
        r@.len() == v@.len(),
        forall|i: int, j: int| 0 <= i <= j < r@.len() ==> key_le(#[trigger] r@[i], #[trigger] r@[j]),
{
    itertools::Itertools::sorted(v.into_iter()).collect()
}

} // verus!
