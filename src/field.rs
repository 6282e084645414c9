use vstd::prelude::*;

use crate::config::VoronoiKind;
use crate::point::{Point, Rgb};

verus! {

/// The color of every location that no seed owns: a dark magenta.
pub open spec fn background_spec() -> Rgb {
    Rgb { r: 128, g: 0, b: 128 }
}

pub fn background() -> (r: Rgb)
    ensures
        r == background_spec(),
{
    Rgb { r: 128, g: 0, b: 128 }
}

/// Logical coordinates of the raster location `(x, y)` on a `width` by `height`
/// raster: the origin at the center, y pointing up.
pub open spec fn logical_of(x: int, y: int, width: int, height: int) -> (int, int) {
    (x - width / 2, height / 2 - y)
}

/// Absolute offsets along each axis between two positions.
pub open spec fn offsets(a: [i32; 2], b: [i32; 2]) -> (int, int) {
    (abs_int(a[0] - b[0]), abs_int(a[1] - b[1]))
}

pub open spec fn abs_int(v: int) -> int {
    if v < 0 {
        -v
    } else {
        v
    }
}

/// Under `kind`, seed `i` beats every seed in `scores`, and strictly beats those
/// before it: the lowest index wins a tie.
pub open spec fn is_selected(scores: Seq<u32>, kind: VoronoiKind, i: int) -> bool {
    &&& 0 <= i < scores.len()
    &&& forall|j: int|
        0 <= j < scores.len() ==> match kind {
            VoronoiKind::Near => scores[i] <= #[trigger] scores[j],
            VoronoiKind::Far => scores[i] >= #[trigger] scores[j],
        }
    &&& forall|j: int|
        0 <= j < i ==> match kind {
            VoronoiKind::Near => #[trigger] scores[j] > scores[i],
            VoronoiKind::Far => #[trigger] scores[j] < scores[i],
        }
}

/// The scores of one pixel against the `n` seeds, in a table that holds `n`
/// scores for each pixel in turn.
pub open spec fn pixel_scores(scores: Seq<u32>, n: int, px: int) -> Seq<u32> {
    scores.subrange(px * n, px * n + n)
}

/// `c` is the color of the seed that `kind` selects for pixel `px`.
pub open spec fn is_selected_color(
    scores: Seq<u32>,
    colors: Seq<Rgb>,
    kind: VoronoiKind,
    px: int,
    c: Rgb,
) -> bool {
    exists|i: int|
        0 <= i < colors.len() && #[trigger] is_selected(
            pixel_scores(scores, colors.len() as int, px),
            kind,
            i,
        ) && c == colors[i]
}

/// Logical coordinates of the raster location `(x, y)`, or `None` where one of them
/// does not fit an `i32`.
pub fn raster_to_logical(x: i32, y: i32, width: u32, height: u32) -> (r: Option<[i32; 2]>)
    ensures
        ({
            let (lx, ly) = logical_of(x as int, y as int, width as int, height as int);
            &&& r is Some <==> (i32::MIN <= lx <= i32::MAX && i32::MIN <= ly <= i32::MAX)
            &&& r matches Some(p) ==> p[0] == lx && p[1] == ly
        }),
{
    let lx: i64 = x as i64 - (width / 2) as i64;
    let ly: i64 = (height / 2) as i64 - y as i64;
    if lx < i32::MIN as i64 || lx > i32::MAX as i64 || ly < i32::MIN as i64 || ly
        > i32::MAX as i64 {
        None
    } else {
        Some([lx as i32, ly as i32])
    }
}

/// Bound of the position sliders on a `width` by `height` viewport: half the smaller
/// dimension, so that a point set through them stays in view.
pub fn slider_extent(width: u32, height: u32) -> (r: i32)
    ensures
        r as int == (if width <= height { width as int } else { height as int }) / 2,
{
    let min_size = if width <= height {
        width
    } else {
        height
    };
    (min_size / 2) as i32
}

/// Absolute offsets `(|ax - bx|, |ay - by|)` between two positions. The Lp distance
/// is a function of these two values and of `p` alone.
pub fn axis_offsets(a: [i32; 2], b: [i32; 2]) -> (r: (u32, u32))
    ensures
        (r.0 as int, r.1 as int) == offsets(a, b),
{
    let dx: i64 = a[0] as i64 - b[0] as i64;
    let dy: i64 = a[1] as i64 - b[1] as i64;
    let ax: i64 = if dx < 0 {
        -dx
    } else {
        dx
    };
    let ay: i64 = if dy < 0 {
        -dy
    } else {
        dy
    };
    (ax as u32, ay as u32)
}

/// The Lp distance is symmetric: it depends on the two positions only through their
/// absolute offsets, and those do not depend on the order of the positions.
pub proof fn lemma_offsets_symmetric(a: [i32; 2], b: [i32; 2])
    ensures
        offsets(a, b) == offsets(b, a),
{
}

/// At most one seed is selected: ties between equal scores all go to the lowest
/// index, so the field is fully determined by the scores.
pub proof fn lemma_selected_unique(scores: Seq<u32>, kind: VoronoiKind, i: int, j: int)
    requires
        is_selected(scores, kind, i),
        is_selected(scores, kind, j),
    ensures
        i == j,
{
    if i < j {
        assert(match kind {
            VoronoiKind::Near => scores[i] > scores[j],
            VoronoiKind::Far => scores[i] < scores[j],
        });
    } else if j < i {
        assert(match kind {
            VoronoiKind::Near => scores[j] > scores[i],
            VoronoiKind::Far => scores[j] < scores[i],
        });
    }
}

/// The offsets from raster location `(x, y)` to each seed, in seed order.
pub open spec fn pixel_offsets(x: int, y: int, width: int, height: int, seeds: Seq<Point>) -> Seq<
    (int, int),
> {
    let (lx, ly) = logical_of(x, y, width, height);
    Seq::new(
        seeds.len(),
        |k: int| (abs_int(lx - seeds[k].pos[0]), abs_int(ly - seeds[k].pos[1])),
    )
}

/// Pairs of `u32` read as pairs of integers.
pub open spec fn as_int_pairs(t: Seq<(u32, u32)>) -> Seq<(int, int)> {
    t.map_values(|o: (u32, u32)| (o.0 as int, o.1 as int))
}

/// The offsets `(|dx|, |dy|)` from every location of a `width` by `height` raster to
/// every seed: for each location in turn, row by row from the top, its offsets to
/// the seeds in order. Location `(x, y)` is location `y * width + x`, and its
/// offsets are taken in logical coordinates (see `raster_to_logical`).
pub fn raster_offsets(width: u32, height: u32, seeds: &[Point]) -> (r: Vec<(u32, u32)>)
    requires
        width <= i32::MAX,
        height <= i32::MAX,
        width * height * seeds@.len() <= usize::MAX,
    ensures
        r@.len() == width * height * seeds@.len(),
        forall|y: int, x: int|
            0 <= y < height && 0 <= x < width ==> #[trigger] as_int_pairs(
                r@.subrange((y * width + x) * seeds@.len(), (y * width + x) * seeds@.len() + seeds@.len()),
            ) == pixel_offsets(x, y, width as int, height as int, seeds@),
{
    let n = seeds.len();
    let mut out: Vec<(u32, u32)> = Vec::new();
    let mut y: u32 = 0;
    while y < height
        invariant
            n == seeds@.len(),
            width <= i32::MAX,
            height <= i32::MAX,
            width * height * n <= usize::MAX,
            y <= height,
            out@.len() == y * width * n,
            forall|yy: int, x: int|
                0 <= yy < y && 0 <= x < width ==> #[trigger] as_int_pairs(
                    out@.subrange((yy * width + x) * n, (yy * width + x) * n + n),
                ) == pixel_offsets(x, yy, width as int, height as int, seeds@),
        decreases height - y,
    {
        let mut x: u32 = 0;
        while x < width
            invariant
                n == seeds@.len(),
                width <= i32::MAX,
                height <= i32::MAX,
                width * height * n <= usize::MAX,
                y < height,
                x <= width,
                out@.len() == (y * width + x) * n,
                forall|yy: int, xx: int|
                    0 <= yy <= y && 0 <= xx < width && yy * width + xx < y * width + x ==> #[trigger] as_int_pairs(
                        out@.subrange((yy * width + xx) * n, (yy * width + xx) * n + n),
                    ) == pixel_offsets(xx, yy, width as int, height as int, seeds@),
            decreases width - x,
        {
            let lx: i32 = (x as i64 - (width / 2) as i64) as i32;
            let ly: i32 = ((height / 2) as i64 - y as i64) as i32;
            let ghost start = out@.len() as int;
            let ghost before = out@;
            proof {
                assert((y * width + x + 1) * n <= width * height * n) by (nonlinear_arith)
                    requires
                        y < height,
                        x < width,
                ;
                assert((y * width + x + 1) * n == (y * width + x) * n + n) by (nonlinear_arith);
            }
            let mut k: usize = 0;
            while k < n
                invariant
                    n == seeds@.len(),
                    start == (y * width + x) * n,
                    start + n <= usize::MAX,
                    k <= n,
                    out@.len() == start + k,
                    out@.subrange(0, start) == before,
                    lx == x - width / 2,
                    ly == height / 2 - y,
                    forall|j: int|
                        0 <= j < k ==> (out@[start + j].0 as int, out@[start + j].1 as int) == (
                            abs_int(lx - seeds@[j].pos[0]),
                            abs_int(ly - seeds@[j].pos[1]),
                        ),
                decreases n - k,
            {
                let o = axis_offsets([lx, ly], seeds[k].pos);
                out.push(o);
                proof {
                    assert(out@.subrange(0, start) =~= before);
                }
                k = k + 1;
            }
            proof {
                let row = out@.subrange(start, start + n);
                assert(as_int_pairs(row) =~= pixel_offsets(x as int, y as int, width as int, height as int, seeds@));
                assert forall|yy: int, xx: int|
                    0 <= yy <= y && 0 <= xx < width && yy * width + xx < y * width + x + 1 implies #[trigger] as_int_pairs(
                        out@.subrange((yy * width + xx) * n, (yy * width + xx) * n + n),
                    ) == pixel_offsets(xx, yy, width as int, height as int, seeds@) by {
                    let q = yy * width + xx;
                    if q < y * width + x {
                        assert((q + 1) * n <= start) by (nonlinear_arith)
                            requires
                                q + 1 <= y * width + x,
                                start == (y * width + x) * n,
                                0 <= n,
                        ;
                        assert(q * n + n == (q + 1) * n) by (nonlinear_arith);
                        assert(0 <= q * n) by (nonlinear_arith) requires 0 <= q, 0 <= n;
                        assert(out@.subrange(q * n, q * n + n) =~= before.subrange(q * n, q * n + n));
                    } else {
                        assert(yy == y && xx == x) by (nonlinear_arith)
                            requires
                                q == yy * width + xx,
                                q == y * width + x,
                                0 <= xx < width,
                                0 <= x < width,
                                0 <= yy <= y,
                        ;
                        assert(q * n + n == start + n);
                    }
                }
                assert((y * width + x + 1) * n == (y * width + x) * n + n) by (nonlinear_arith);
            }
            x = x + 1;
        }
        proof {
            assert(y * width + width == (y + 1) * width) by (nonlinear_arith);
            assert forall|yy: int, xx: int|
                0 <= yy < y + 1 && 0 <= xx < width implies #[trigger] as_int_pairs(
                    out@.subrange((yy * width + xx) * n, (yy * width + xx) * n + n),
                ) == pixel_offsets(xx, yy, width as int, height as int, seeds@) by {
                assert(yy * width + xx < y * width + width) by (nonlinear_arith)
                    requires
                        yy <= y,
                        xx < width,
                ;
            }
            assert((y + 1) * width * n == (y * width + width) * n) by (nonlinear_arith);
        }
        y = y + 1;
    }
    proof {
        assert(height * width * n == width * height * n) by (nonlinear_arith);
    }
    out
}

/// Index of the seed that `kind` selects by `scores` (the smallest score for
/// `Near`, the largest for `Far`, the lowest index on ties); `None` exactly when
/// there are no scores.
pub fn select_seed(scores: &[u32], kind: VoronoiKind) -> (r: Option<usize>)
    ensures
        r is None <==> scores@.len() == 0,
        r matches Some(i) ==> is_selected(scores@, kind, i as int),
{
    if scores.len() == 0 {
        return None;
    }
    let mut best: usize = 0;
    let mut i: usize = 1;
    while i < scores.len()
        invariant
            1 <= i <= scores@.len(),
            best < i,
            forall|j: int|
                0 <= j < i ==> match kind {
                    VoronoiKind::Near => scores@[best as int] <= #[trigger] scores@[j],
                    VoronoiKind::Far => scores@[best as int] >= #[trigger] scores@[j],
                },
            forall|j: int|
                0 <= j < best ==> match kind {
                    VoronoiKind::Near => #[trigger] scores@[j] > scores@[best as int],
                    VoronoiKind::Far => #[trigger] scores@[j] < scores@[best as int],
                },
        decreases scores@.len() - i,
    {
        let better = match kind {
            VoronoiKind::Near => scores[i] < scores[best],
            VoronoiKind::Far => scores[i] > scores[best],
        };
        if better {
            best = i;
        }
        i = i + 1;
    }
    Some(best)
}

/// Paints a raster of `pixels` locations, given for each location in turn its scores
/// against the seeds (`scores` holds `colors.len()` scores per location, so that a
/// location's score for seed `k` is its distance to that seed under the metric in
/// use, or any key that orders as that distance does). Each location takes the color
/// of the seed that `kind` selects, the lowest index winning a tie, or the background
/// color where there is no seed.
pub fn paint_field(scores: &Vec<u32>, colors: &Vec<Rgb>, pixels: usize, kind: VoronoiKind) -> (r:
    Vec<Rgb>)
    requires
        scores@.len() == pixels * colors@.len(),
    ensures
        r@.len() == pixels,
        colors@.len() == 0 ==> forall|px: int| 0 <= px < pixels ==> #[trigger] r@[px] == background_spec(),
        colors@.len() > 0 ==> forall|px: int|
            0 <= px < pixels ==> is_selected_color(scores@, colors@, kind, px, #[trigger] r@[px]),
{
    let n = colors.len();
    let total = scores.len();
    let mut out: Vec<Rgb> = Vec::with_capacity(pixels);
    let bg = background();
    let mut px: usize = 0;
    while px < pixels
        invariant
            px <= pixels,
            n == colors@.len(),
            scores@.len() == pixels * n,
            total == scores@.len(),
            bg == background_spec(),
            out@.len() == px,
            n == 0 ==> forall|q: int| 0 <= q < px ==> #[trigger] out@[q] == background_spec(),
            n > 0 ==> forall|q: int|
                0 <= q < px ==> is_selected_color(scores@, colors@, kind, q, #[trigger] out@[q]),
        decreases pixels - px,
    {
        let ghost prev = out@;
        if n == 0 {
            out.push(bg);
            assert(forall|q: int| 0 <= q < px ==> out@[q] == prev[q]);
        } else {
            proof {
                assert((px + 1) * n <= pixels * n) by (nonlinear_arith)
                    requires
                        px + 1 <= pixels,
                        0 <= n,
                ;
                assert((px + 1) * n == px * n + n) by (nonlinear_arith);
            }
            let start = px * n;
            let row = vstd::slice::slice_subrange(scores.as_slice(), start, start + n);
            let sel = select_seed(row, kind);
            let i = match sel {
                Some(i) => i,
                None => 0,
            };
            assert(is_selected(pixel_scores(scores@, n as int, px as int), kind, i as int));
            assert(is_selected_color(scores@, colors@, kind, px as int, colors@[i as int]));
            out.push(colors[i]);
            assert(out@[px as int] == colors@[i as int]);
            assert(forall|q: int| 0 <= q < px ==> out@[q] == prev[q]);
        }
        px = px + 1;
    }
    out
}

} // verus!
