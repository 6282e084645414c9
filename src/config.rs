use vstd::prelude::*;

verus! {

/// Which seed owns a location: the nearest one or the farthest one.
#[derive(Clone, Copy, Debug, PartialEq, Eq, Structural)]
pub enum VoronoiKind {
    Near,
    Far,
}

impl Default for VoronoiKind {
    fn default() -> (r: Self)
        ensures
            r == VoronoiKind::Near,
    {
        VoronoiKind::Near
    }
}

/// Smallest metric exponent, in thousandths.
pub const LP_MIN_MILLI: u32 = 500;

/// Largest metric exponent, in thousandths.
pub const LP_MAX_MILLI: u32 = 10000;

/// Exponent of the default metric (Euclidean), in thousandths.
pub const LP_DEFAULT_MILLI: u32 = 2000;

/// `v` brought into the range of admissible exponents.
pub open spec fn clamped_lp(v: int) -> int {
    if v < LP_MIN_MILLI as int {
        LP_MIN_MILLI as int
    } else if v > LP_MAX_MILLI as int {
        LP_MAX_MILLI as int
    } else {
        v
    }
}

/// Drawing settings: the exponent `p` of the Lp metric, held in thousandths
/// (`lp_milli == 2000` is `p = 2`), and the kind of cell.
#[derive(Clone, Debug)]
pub struct Config {
    pub lp_milli: u32,
    pub voronoi_kind: VoronoiKind,
}

impl Config {
    pub open spec fn wf(self) -> bool {
        LP_MIN_MILLI <= self.lp_milli <= LP_MAX_MILLI
    }

    /// Sets the exponent, in thousandths, clamped to `[0.5, 10]`; the kind stays.
    pub fn set_lp_milli(&mut self, milli: i64)
        ensures
            final(self).lp_milli == clamped_lp(milli as int),
            final(self).voronoi_kind == old(self).voronoi_kind,
            final(self).wf(),
    {
        self.lp_milli = clamp_lp_milli(milli);
    }

    pub fn set_voronoi_kind(&mut self, kind: VoronoiKind)
        ensures
            final(self).voronoi_kind == kind,
            final(self).lp_milli == old(self).lp_milli,
    {
        self.voronoi_kind = kind;
    }
}

impl Default for Config {
    fn default() -> (r: Self)
        ensures
            r.lp_milli == LP_DEFAULT_MILLI,
            r.voronoi_kind == VoronoiKind::Near,
            r.wf(),
    {
        Config { lp_milli: LP_DEFAULT_MILLI, voronoi_kind: VoronoiKind::default() }
    }
}

/// An exponent in thousandths, clamped to the admissible range `[500, 10000]`.
pub fn clamp_lp_milli(milli: i64) -> (r: u32)
    ensures
        r as int == clamped_lp(milli as int),
        LP_MIN_MILLI <= r <= LP_MAX_MILLI,
{
    if milli < LP_MIN_MILLI as i64 {
        LP_MIN_MILLI
    } else if milli > LP_MAX_MILLI as i64 {
        LP_MAX_MILLI
    } else {
        milli as u32
    }
}

} // verus!
