use vstd::prelude::*;

verus! {

/// A color with 8-bit channels; each channel `c` stands for the intensity `c / 255`.
#[derive(Clone, Copy, Debug, PartialEq, Eq, Default)]
pub struct Rgb {
    pub r: u8,
    pub g: u8,
    pub b: u8,
}

/// A seed point: a position in the centered, y-up plane and the color of its cell.
#[derive(Clone, Copy, Debug, PartialEq, Eq, Default)]
pub struct Point {
    pub pos: [i32; 2],
    pub color: Rgb,
}

pub open spec fn min3(a: u8, b: u8, c: u8) -> int {
    if a <= b && a <= c {
        a as int
    } else if b <= c {
        b as int
    } else {
        c as int
    }
}

pub open spec fn max3(a: u8, b: u8, c: u8) -> int {
    if a >= b && a >= c {
        a as int
    } else if b >= c {
        b as int
    } else {
        c as int
    }
}

/// A vivid color: saturation at least 0.55, so its smallest channel is at most 45% of
/// its largest, give or take one step of rounding.
pub open spec fn vivid(c: Rgb) -> bool {
    100 * min3(c.r, c.g, c.b) <= 45 * max3(c.r, c.g, c.b) + 100
}

/// Squared Euclidean distance between a point's position and `pos`.
pub open spec fn sq_dist(p: Point, pos: [i32; 2]) -> int {
    let dx = p.pos[0] as int - pos[0] as int;
    let dy = p.pos[1] as int - pos[1] as int;
    dx * dx + dy * dy
}

/// `i` is the lowest index among the points closest to `pos`.
pub open spec fn is_nearest(points: Seq<Point>, pos: [i32; 2], i: int) -> bool {
    &&& 0 <= i < points.len()
    &&& forall|j: int| 0 <= j < points.len() ==> sq_dist(points[i], pos) <= sq_dist(#[trigger] points[j], pos)
    &&& forall|j: int| 0 <= j < i ==> sq_dist(#[trigger] points[j], pos) > sq_dist(points[i], pos)
}

/// At most one point is the nearest: among equally close points only the lowest
/// index qualifies.
pub proof fn lemma_nearest_unique(points: Seq<Point>, pos: [i32; 2], i: int, j: int)
    requires
        is_nearest(points, pos, i),
        is_nearest(points, pos, j),
    ensures
        i == j,
{
    if i < j {
        assert(sq_dist(points[i], pos) > sq_dist(points[j], pos));
    } else if j < i {
        assert(sq_dist(points[j], pos) > sq_dist(points[i], pos));
    }
}

/// Relies on random_color's `RandomColor::to_rgb_array` with bright luminosity: the
/// saturation is drawn from `[55, 99]` percent and the channels are `floor(255 v)`,
/// `floor(255 v (1 - s))` and one between them, so the color is vivid.
#[verifier::external_body]
fn random_color() -> (c: Rgb)
    ensures
        vivid(c),
{
    let [r, g, b] = random_color::RandomColor::new()
        .luminosity(random_color::options::Luminosity::Bright)
        .to_rgb_array();
    Rgb { r, g, b }
}

impl Point {
    /// A point at `pos` with a fresh bright random color.
    pub fn new(pos: [i32; 2]) -> (r: Self)
        ensures
            r.pos == pos,
            vivid(r.color),
    {
        let color = random_color();
        Point { pos, color }
    }

    /// Gives the point a fresh bright random color; its position stays.
    pub fn set_random_color(&mut self)
        ensures
            final(self).pos == old(self).pos,
            vivid(final(self).color),
    {
        self.color = random_color();
    }

    pub fn pos_i32_tuple(self) -> (r: (i32, i32))
        ensures
            r == (self.pos[0], self.pos[1]),
    {
        (self.pos[0], self.pos[1])
    }
}

fn point_sq_dist(p: &Point, pos: [i32; 2]) -> (d: i128)
    ensures
        d == sq_dist(*p, pos),
{
    let dx: i128 = p.pos[0] as i128 - pos[0] as i128;
    let dy: i128 = p.pos[1] as i128 - pos[1] as i128;
    assert(dx * dx <= 0x1_0000_0000 * 0x1_0000_0000) by (nonlinear_arith)
        requires
            -0x1_0000_0000 <= dx <= 0x1_0000_0000,
    ;
    assert(dy * dy <= 0x1_0000_0000 * 0x1_0000_0000) by (nonlinear_arith)
        requires
            -0x1_0000_0000 <= dy <= 0x1_0000_0000,
    ;
    assert(0 <= dx * dx && 0 <= dy * dy) by (nonlinear_arith);
    dx * dx + dy * dy
}

/// Index of the point closest to `pos` in squared Euclidean distance, the lowest such
/// index on ties; `None` exactly when there are no points.
pub fn nearest_point_idx(points: &[Point], pos: [i32; 2]) -> (r: Option<usize>)
    ensures
        r is None <==> points@.len() == 0,
        r matches Some(i) ==> is_nearest(points@, pos, i as int),
{
    if points.len() == 0 {
        return None;
    }
    let mut best: usize = 0;
    let mut best_d: i128 = point_sq_dist(&points[0], pos);
    let mut i: usize = 1;
    while i < points.len()
        invariant
            1 <= i <= points@.len(),
            best < i,
            best_d == sq_dist(points@[best as int], pos),
            forall|j: int| 0 <= j < i ==> best_d <= sq_dist(#[trigger] points@[j], pos),
            forall|j: int| 0 <= j < best ==> sq_dist(#[trigger] points@[j], pos) > best_d,
        decreases points@.len() - i,
    {
        let d = point_sq_dist(&points[i], pos);
        if d < best_d {
            best = i;
            best_d = d;
        }
        i = i + 1;
    }
    Some(best)
}

} // verus!
