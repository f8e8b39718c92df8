//! Axis-aligned box geometry in integer sub-pixel units.
//!
//! A box is `[x1, y1, x2, y2]` in units of `1 / SUBPIXELS` pixel. Scores and
//! thresholds are integers in parts per million, and every ratio test
//! (`IoU >= t`, `IoA >= t`) is decided exactly by cross-multiplication.
use vstd::prelude::*;

verus! {

/// One pixel is this many coordinate units.
pub const SUBPIXELS: i32 = 256;

/// Scores and thresholds are fractions of this.
pub const PPM: u32 = 1_000_000;

/// An axis-aligned box, `x1 y1 x2 y2`, in sub-pixel units.
#[derive(Clone, Copy, Debug, PartialEq, Eq, Structural)]
pub struct BBox {
    pub x1: i32,
    pub y1: i32,
    pub x2: i32,
    pub y2: i32,
}

/// Length of the interval `[lo, hi]`, zero when it is empty.
pub open spec fn span(lo: int, hi: int) -> int {
    if hi > lo {
        hi - lo
    } else {
        0
    }
}

pub open spec fn min_int(a: int, b: int) -> int {
    if a <= b {
        a
    } else {
        b
    }
}

pub open spec fn max_int(a: int, b: int) -> int {
    if a >= b {
        a
    } else {
        b
    }
}

impl BBox {
    /// Width, zero for an inverted box.
    pub open spec fn width_spec(self) -> int {
        span(self.x1 as int, self.x2 as int)
    }

    /// Height, zero for an inverted box.
    pub open spec fn height_spec(self) -> int {
        span(self.y1 as int, self.y2 as int)
    }

    pub open spec fn area_spec(self) -> int {
        self.width_spec() * self.height_spec()
    }

    /// Builds a box from whole-pixel corners.
    pub fn from_pixels(x1: i32, y1: i32, x2: i32, y2: i32) -> (b: BBox)
        requires
            -8_000_000 <= x1 <= 8_000_000,
            -8_000_000 <= y1 <= 8_000_000,
            -8_000_000 <= x2 <= 8_000_000,
            -8_000_000 <= y2 <= 8_000_000,
        ensures
            b.x1 == x1 * SUBPIXELS,
            b.y1 == y1 * SUBPIXELS,
            b.x2 == x2 * SUBPIXELS,
            b.y2 == y2 * SUBPIXELS,
    {
        BBox { x1: x1 * SUBPIXELS, y1: y1 * SUBPIXELS, x2: x2 * SUBPIXELS, y2: y2 * SUBPIXELS }
    }
}

/// Area of the overlap of two boxes.
pub open spec fn intersection_spec(a: BBox, b: BBox) -> int {
    span(max_int(a.x1 as int, b.x1 as int), min_int(a.x2 as int, b.x2 as int)) * span(
        max_int(a.y1 as int, b.y1 as int),
        min_int(a.y2 as int, b.y2 as int),
    )
}

pub open spec fn union_spec(a: BBox, b: BBox) -> int {
    a.area_spec() + b.area_spec() - intersection_spec(a, b)
}

/// `num / den >= ppm / 10^6`, where a ratio with `den <= 0` counts as zero.
pub open spec fn ratio_reaches(num: int, den: int, ppm: int) -> bool {
    if den <= 0 {
        0 >= ppm
    } else {
        num * 1_000_000 >= ppm * den
    }
}

/// Intersection over union reaches `ppm`.
pub open spec fn iou_reaches(a: BBox, b: BBox, ppm: int) -> bool {
    ratio_reaches(intersection_spec(a, b), union_spec(a, b), ppm)
}

/// The share of `a`'s own area that lies inside `b` reaches `ppm`.
pub open spec fn ioa_reaches(a: BBox, b: BBox, ppm: int) -> bool {
    ratio_reaches(intersection_spec(a, b), a.area_spec(), ppm)
}

/// An exact non-negative ratio `num / den` with `den > 0`.
#[derive(Clone, Copy, Debug, PartialEq, Eq, Structural)]
pub struct Ratio {
    pub num: u128,
    pub den: u128,
}

impl Ratio {
    /// The ratio is at least `ppm` parts per million.
    pub fn reaches(&self, ppm: u32) -> (r: bool)
        requires
            self.num <= 0x1_0000_0000_0000_0000_0000,
            self.den <= 0x1_0000_0000_0000_0000_0000,
        ensures
            r == (self.num * 1_000_000 >= ppm * self.den),
    {
        assert(self.num * 1_000_000 <= 0x1_0000_0000_0000_0000_0000 * 1_000_000) by (nonlinear_arith)
            requires
                self.num <= 0x1_0000_0000_0000_0000_0000,
        ;
        assert(ppm * self.den <= 0x1_0000_0000 * 0x1_0000_0000_0000_0000_0000) by (nonlinear_arith)
            requires
                self.den <= 0x1_0000_0000_0000_0000_0000,
                ppm <= 0x1_0000_0000,
        ;
        self.num * 1_000_000 >= (ppm as u128) * self.den
    }
}

fn span_exec(lo: i32, hi: i32) -> (r: u64)
    ensures
        r == span(lo as int, hi as int),
        r <= 0x1_0000_0000,
{
    if hi > lo {
        (hi as i64 - lo as i64) as u64
    } else {
        0
    }
}

proof fn lemma_product_bound(w: int, h: int)
    requires
        0 <= w <= 0x1_0000_0000,
        0 <= h <= 0x1_0000_0000,
    ensures
        0 <= w * h <= 0x1_0000_0000_0000_0000,
{
    assert(0 <= w * h <= 0x1_0000_0000 * 0x1_0000_0000) by (nonlinear_arith)
        requires
            0 <= w <= 0x1_0000_0000,
            0 <= h <= 0x1_0000_0000,
    ;
}

/// Area of a box; zero when it is inverted.
pub fn area(b: BBox) -> (r: u128)
    ensures
        r == b.area_spec(),
        r <= 0x1_0000_0000_0000_0000,
{
    let w = span_exec(b.x1, b.x2) as u128;
    let h = span_exec(b.y1, b.y2) as u128;
    proof {
        lemma_product_bound(w as int, h as int);
    }
    w * h
}

fn min_i32(a: i32, b: i32) -> (r: i32)
    ensures
        r == min_int(a as int, b as int),
{
    if a <= b {
        a
    } else {
        b
    }
}

fn max_i32(a: i32, b: i32) -> (r: i32)
    ensures
        r == max_int(a as int, b as int),
{
    if a >= b {
        a
    } else {
        b
    }
}

/// Area of the overlap of two boxes.
pub fn intersection(a: BBox, b: BBox) -> (r: u128)
    ensures
        r == intersection_spec(a, b),
        r <= 0x1_0000_0000_0000_0000,
{
    let w = span_exec(max_i32(a.x1, b.x1), min_i32(a.x2, b.x2)) as u128;
    let h = span_exec(max_i32(a.y1, b.y1), min_i32(a.y2, b.y2)) as u128;
    proof {
        lemma_product_bound(w as int, h as int);
    }
    w * h
}

/// The overlap never exceeds either box.
pub proof fn lemma_intersection_within(a: BBox, b: BBox)
    ensures
        0 <= intersection_spec(a, b) <= a.area_spec(),
        intersection_spec(a, b) <= b.area_spec(),
        intersection_spec(a, b) == intersection_spec(b, a),
{
    let iw = span(max_int(a.x1 as int, b.x1 as int), min_int(a.x2 as int, b.x2 as int));
    let ih = span(max_int(a.y1 as int, b.y1 as int), min_int(a.y2 as int, b.y2 as int));
    assert(iw <= a.width_spec() && iw <= b.width_spec());
    assert(ih <= a.height_spec() && ih <= b.height_spec());
    assert(0 <= iw * ih <= a.width_spec() * a.height_spec()) by (nonlinear_arith)
        requires
            0 <= iw <= a.width_spec(),
            0 <= ih <= a.height_spec(),
    ;
    assert(iw * ih <= b.width_spec() * b.height_spec()) by (nonlinear_arith)
        requires
            0 <= iw <= b.width_spec(),
            0 <= ih <= b.height_spec(),
    ;
}

/// Intersection over union, `0 / 1` when the union is empty.
pub fn iou(a: BBox, b: BBox) -> (r: Ratio)
    ensures
        r.den > 0,
        r.num <= 0x1_0000_0000_0000_0000,
        r.den <= 0x2_0000_0000_0000_0000,
        union_spec(a, b) <= 0 ==> r.num == 0 && r.den == 1,
        union_spec(a, b) > 0 ==> r.num == intersection_spec(a, b) && r.den == union_spec(a, b),
        forall|ppm: int| 0 <= ppm ==> ((r.num * 1_000_000 >= ppm * r.den) <==> #[trigger] iou_reaches(a, b, ppm)),
{
    proof {
        lemma_intersection_within(a, b);
    }
    let inter = intersection(a, b);
    let union = area(a) + area(b) - inter;
    let r = if union == 0 {
        Ratio { num: 0, den: 1 }
    } else {
        Ratio { num: inter, den: union }
    };
    assert forall|ppm: int| 0 <= ppm implies ((r.num * 1_000_000 >= ppm * r.den) <==> #[trigger] iou_reaches(a, b, ppm)) by {
        if union == 0 {
            assert(ppm * r.den == ppm);
        }
    }
    r
}

/// How much of `a` lies inside `b`: `intersection / area(a)`, `0 / 1` for an
/// empty `a`.
pub fn ioa(a: BBox, b: BBox) -> (r: Ratio)
    ensures
        r.den > 0,
        r.num <= 0x1_0000_0000_0000_0000,
        r.den <= 0x1_0000_0000_0000_0000,
        a.area_spec() <= 0 ==> r.num == 0 && r.den == 1,
        a.area_spec() > 0 ==> r.num == intersection_spec(a, b) && r.den == a.area_spec(),
        forall|ppm: int| 0 <= ppm ==> ((r.num * 1_000_000 >= ppm * r.den) <==> #[trigger] ioa_reaches(a, b, ppm)),
{
    proof {
        lemma_intersection_within(a, b);
    }
    let a_area = area(a);
    if a_area == 0 {
        Ratio { num: 0, den: 1 }
    } else {
        Ratio { num: intersection(a, b), den: a_area }
    }
}

/// Exact `iou(a, b) >= ppm`.
pub fn iou_at_least(a: BBox, b: BBox, ppm: u32) -> (r: bool)
    ensures
        r == iou_reaches(a, b, ppm as int),
{
    let q = iou(a, b);
    q.reaches(ppm)
}

/// Exact `ioa(a, b) >= ppm`.
pub fn ioa_at_least(a: BBox, b: BBox, ppm: u32) -> (r: bool)
    ensures
        r == ioa_reaches(a, b, ppm as int),
{
    let q = ioa(a, b);
    q.reaches(ppm)
}

} // verus!
