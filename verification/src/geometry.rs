use vstd::prelude::*;

verus! {

/// Coordinates of data points are bounded so that every intermediate product
/// in the exact distance comparisons below fits in an `i128`.
pub const COORD_BOUND: i64 = 0x8000_0000;

/// Largest supported number of data points (and therefore of clusters).
pub const LEN_BOUND: usize = 0x8000;

/// Bound on the coordinate sums stored in a centroid:
/// `LEN_BOUND * COORD_BOUND`.
pub const SUM_BOUND: i64 = 0x4000_0000_0000;

/// Bound on the absolute difference `x * den - sx` inside a squared
/// distance: `COORD_BOUND * LEN_BOUND + SUM_BOUND`.
pub const DIFF_BOUND: i128 = 0x8000_0000_0000;

/// Bound on the numerator of a squared distance: `2 * DIFF_BOUND^2`.
pub const NUM_BOUND: i128 = 0x8000_0000_0000_0000_0000_0000;

/// Bound on the denominator of a squared distance: `LEN_BOUND^2`.
pub const DEN2_BOUND: i128 = 0x4000_0000;

/// A data point of the plane with integer coordinates; callers pick the
/// fixed-point scale that the coordinates are expressed in.
#[derive(Clone, Copy, PartialEq, Eq, Structural, Debug)]
pub struct Point {
    pub x: i64,
    pub y: i64,
}

impl Point {
    pub fn new(x: i64, y: i64) -> (p: Point)
        ensures
            p.x == x,
            p.y == y,
    {
        Point { x, y }
    }
}

/// Whether a point's coordinates are within the supported range.
pub open spec fn p_bounded(p: Point) -> bool {
    &&& -COORD_BOUND <= p.x <= COORD_BOUND
    &&& -COORD_BOUND <= p.y <= COORD_BOUND
}

/// The exact value of a centroid: the rational point `(sx/den, sy/den)`.
pub struct RCent {
    pub sx: int,
    pub sy: int,
    pub den: int,
}

/// An exact rational number `num/den` with a positive denominator.
pub struct RFrac {
    pub num: int,
    pub den: int,
}

/// A centroid, stored exactly as a pair of coordinate sums over a positive
/// count; it denotes the rational point `(sx/den, sy/den)`.  Keeping the
/// mean unreduced makes every step of the algorithm exact, with no division.
#[derive(Clone, Copy, PartialEq, Eq, Structural, Debug)]
pub struct Centroid {
    pub sx: i64,
    pub sy: i64,
    pub den: i64,
}

impl View for Centroid {
    type V = RCent;

    open spec fn view(&self) -> RCent {
        RCent { sx: self.sx as int, sy: self.sy as int, den: self.den as int }
    }
}

/// The centroid value sitting exactly on an integer point.
pub open spec fn point_cent(p: Point) -> RCent {
    RCent { sx: p.x as int, sy: p.y as int, den: 1 }
}

/// Well-formedness of a centroid value: positive bounded denominator and
/// bounded sums.
pub open spec fn c_wf(c: RCent) -> bool {
    &&& 0 < c.den <= LEN_BOUND
    &&& -SUM_BOUND <= c.sx <= SUM_BOUND
    &&& -SUM_BOUND <= c.sy <= SUM_BOUND
}

/// Exact equality of the points that two centroids denote.
pub open spec fn r_eq(a: RCent, b: RCent) -> bool {
    &&& a.sx * b.den == b.sx * a.den
    &&& a.sy * b.den == b.sy * a.den
}

/// Numerator of the exact squared Euclidean distance from `p` to the point
/// that `c` denotes; the matching denominator is `d2_den(c)`.
pub open spec fn d2n(p: Point, c: RCent) -> int {
    let dx = (p.x as int) * c.den - c.sx;
    let dy = (p.y as int) * c.den - c.sy;
    dx * dx + dy * dy
}

/// Denominator of the exact squared distance to `c`.
pub open spec fn d2_den(c: RCent) -> int {
    c.den * c.den
}

/// The exact squared distance from `p` to `c` as a fraction.
pub open spec fn d2_frac(p: Point, c: RCent) -> RFrac {
    RFrac { num: d2n(p, c), den: d2_den(c) }
}

/// Well-formedness of a stored squared distance.
pub open spec fn f_wf(f: RFrac) -> bool {
    &&& 0 <= f.num <= NUM_BOUND
    &&& 0 < f.den <= DEN2_BOUND
}

/// `a < b` as rationals, by cross-multiplication (denominators positive).
pub open spec fn frac_lt(a: RFrac, b: RFrac) -> bool {
    a.num * b.den < b.num * a.den
}

/// `a <= b` as rationals, by cross-multiplication (denominators positive).
pub open spec fn frac_le(a: RFrac, b: RFrac) -> bool {
    a.num * b.den <= b.num * a.den
}

/// An exact squared distance kept as an explicit fraction.
#[derive(Clone, Copy, PartialEq, Eq, Structural, Debug)]
pub struct Dist2 {
    pub num: i128,
    pub den: i128,
}

impl View for Dist2 {
    type V = RFrac;

    open spec fn view(&self) -> RFrac {
        RFrac { num: self.num as int, den: self.den as int }
    }
}

/// A product of bounded factors is bounded.
pub proof fn lemma_abs_mul(a: int, b: int, aa: int, bb: int)
    by (nonlinear_arith)
    requires
        -aa <= a <= aa,
        -bb <= b <= bb,
    ensures
        -(aa * bb) <= a * b <= aa * bb,
{
}

/// A square is non-negative.
pub proof fn lemma_sq_nonneg(a: int)
    by (nonlinear_arith)
    ensures
        0 <= a * a,
{
}

/// The square of a positive number is positive.
pub proof fn lemma_sq_pos(a: int)
    by (nonlinear_arith)
    requires
        0 < a,
    ensures
        0 < a * a,
{
}

/// The exact squared Euclidean distance from `p` to the point `c` denotes.
pub fn dist2(p: &Point, c: &Centroid) -> (r: Dist2)
    requires
        p_bounded(*p),
        c_wf(c@),
    ensures
        r@ == d2_frac(*p, c@),
        f_wf(r@),
{
    let px: i128 = p.x as i128;
    let py: i128 = p.y as i128;
    let sx: i128 = c.sx as i128;
    let sy: i128 = c.sy as i128;
    let den: i128 = c.den as i128;
    proof {
        lemma_abs_mul(p.x as int, c.den as int, COORD_BOUND as int, LEN_BOUND as int);
        lemma_abs_mul(p.y as int, c.den as int, COORD_BOUND as int, LEN_BOUND as int);
    }
    let dx: i128 = px * den - sx;
    let dy: i128 = py * den - sy;
    proof {
        lemma_abs_mul(dx as int, dx as int, DIFF_BOUND as int, DIFF_BOUND as int);
        lemma_abs_mul(dy as int, dy as int, DIFF_BOUND as int, DIFF_BOUND as int);
        lemma_sq_nonneg(dx as int);
        lemma_sq_nonneg(dy as int);
        lemma_abs_mul(c.den as int, c.den as int, LEN_BOUND as int, LEN_BOUND as int);
        lemma_sq_pos(c.den as int);
    }
    let num: i128 = dx * dx + dy * dy;
    let dd: i128 = den * den;
    Dist2 { num, den: dd }
}

/// Whether `a < b` as exact fractions.
pub fn frac_lt_exec(a: &Dist2, b: &Dist2) -> (r: bool)
    requires
        f_wf(a@),
        f_wf(b@),
    ensures
        r == frac_lt(a@, b@),
{
    proof {
        lemma_abs_mul(a.num as int, b.den as int, NUM_BOUND as int, DEN2_BOUND as int);
        lemma_abs_mul(b.num as int, a.den as int, NUM_BOUND as int, DEN2_BOUND as int);
    }
    a.num * b.den < b.num * a.den
}

impl Centroid {
    pub fn new(sx: i64, sy: i64, den: i64) -> (c: Centroid)
        ensures
            c.sx == sx,
            c.sy == sy,
            c.den == den,
    {
        Centroid { sx, sy, den }
    }

    /// A centroid sitting exactly on an integer point.
    pub fn from_point(p: &Point) -> (c: Centroid)
        ensures
            c@ == point_cent(*p),
    {
        Centroid { sx: p.x, sy: p.y, den: 1 }
    }

    /// Whether `self` and `other` denote the same point of the plane.
    pub fn eq_value(&self, other: &Centroid) -> (r: bool)
        requires
            c_wf(self@),
            c_wf(other@),
        ensures
            r == r_eq(self@, other@),
    {
        proof {
            lemma_abs_mul(self.sx as int, other.den as int, SUM_BOUND as int, LEN_BOUND as int);
            lemma_abs_mul(other.sx as int, self.den as int, SUM_BOUND as int, LEN_BOUND as int);
            lemma_abs_mul(self.sy as int, other.den as int, SUM_BOUND as int, LEN_BOUND as int);
            lemma_abs_mul(other.sy as int, self.den as int, SUM_BOUND as int, LEN_BOUND as int);
        }
        (self.sx as i128) * (other.den as i128) == (other.sx as i128) * (self.den as i128)
            && (self.sy as i128) * (other.den as i128) == (other.sy as i128) * (self.den as i128)
    }
}

} // verus!
