//! Axis-aligned boxes in image pixels, their overlap, and intersection over union.
use vstd::prelude::*;

verus! {

/// One detection: pixel corners in the original image, the confidence as an
/// IEEE-754 single-precision bit pattern, and an index into the label list.
#[derive(Clone, Copy, Debug, PartialEq, Eq, Structural)]
pub struct TargetBox {
    pub x1: i32,
    pub y1: i32,
    pub x2: i32,
    pub y2: i32,
    pub score: u32,
    pub class: i32,
}

/// Length of the overlap of the intervals `[lo1, hi1]` and `[lo2, hi2]`, never negative.
pub open spec fn overlap_len(lo1: int, hi1: int, lo2: int, hi2: int) -> int {
    let lo = if lo1 > lo2 { lo1 } else { lo2 };
    let hi = if hi1 < hi2 { hi1 } else { hi2 };
    if hi - lo > 0 { hi - lo } else { 0 }
}

pub open spec fn intersection_spec(a: TargetBox, b: TargetBox) -> int {
    overlap_len(a.x1 as int, a.x2 as int, b.x1 as int, b.x2 as int)
        * overlap_len(a.y1 as int, a.y2 as int, b.y1 as int, b.y2 as int)
}

pub open spec fn union_spec(a: TargetBox, b: TargetBox) -> int {
    a.area_spec() + b.area_spec() - intersection_spec(a, b)
}

/// Corners in order on both axes, as consumers of boxes assume.
pub open spec fn well_formed(a: TargetBox) -> bool {
    a.x1 <= a.x2 && a.y1 <= a.y2
}

/// The boxes share no region of positive area.
pub open spec fn disjoint(a: TargetBox, b: TargetBox) -> bool {
    a.x2 <= b.x1 || b.x2 <= a.x1 || a.y2 <= b.y1 || b.y2 <= a.y1
}

impl TargetBox {
    pub open spec fn width_spec(&self) -> int {
        self.x2 - self.x1
    }

    pub open spec fn height_spec(&self) -> int {
        self.y2 - self.y1
    }

    /// Negative when exactly one side is reversed.
    pub open spec fn area_spec(&self) -> int {
        self.width_spec() * self.height_spec()
    }

    pub fn width(&self) -> (r: i64)
        ensures
            r == self.width_spec(),
    {
        self.x2 as i64 - self.x1 as i64
    }

    pub fn height(&self) -> (r: i64)
        ensures
            r == self.height_spec(),
    {
        self.y2 as i64 - self.y1 as i64
    }

    pub fn area(&self) -> (r: i128)
        ensures
            r == self.area_spec(),
            -0x1_0000_0000_0000_0000 < r < 0x1_0000_0000_0000_0000,
    {
        let w = self.width();
        let h = self.height();
        proof {
            lemma_product_bound(w as int, h as int);
        }
        w as i128 * h as i128
    }

    pub fn intersection_area(&self, other: &TargetBox) -> (r: i128)
        ensures
            r == intersection_spec(*self, *other),
    {
        intersection_area(self, other)
    }
}

/// Two side lengths of boxes with `i32` corners multiply to less than 2^64 in size.
proof fn lemma_product_bound(w: int, h: int)
    requires
        -0x1_0000_0000 < w < 0x1_0000_0000,
        -0x1_0000_0000 < h < 0x1_0000_0000,
    ensures
        -0x1_0000_0000_0000_0000 < w * h < 0x1_0000_0000_0000_0000,
{
    assert(-0x1_0000_0000_0000_0000 < w * h < 0x1_0000_0000_0000_0000) by (nonlinear_arith)
        requires
            -0x1_0000_0000 < w < 0x1_0000_0000,
            -0x1_0000_0000 < h < 0x1_0000_0000,
    ;
}

fn overlap_length(lo1: i32, hi1: i32, lo2: i32, hi2: i32) -> (r: i64)
    ensures
        r == overlap_len(lo1 as int, hi1 as int, lo2 as int, hi2 as int),
        0 <= r < 0x1_0000_0000,
{
    let lo = if lo1 > lo2 { lo1 } else { lo2 };
    let hi = if hi1 < hi2 { hi1 } else { hi2 };
    let d = hi as i64 - lo as i64;
    if d > 0 { d } else { 0 }
}

/// Area of the region that both boxes cover; 0 when they do not overlap on
/// either axis.
pub fn intersection_area(a: &TargetBox, b: &TargetBox) -> (r: i128)
    ensures
        r == intersection_spec(*a, *b),
        0 <= r < 0x1_0000_0000_0000_0000,
{
    let w = overlap_length(a.x1, a.x2, b.x1, b.x2);
    let h = overlap_length(a.y1, a.y2, b.y1, b.y2);
    proof {
        lemma_product_bound(w as int, h as int);
        assert(w * h >= 0) by (nonlinear_arith)
            requires
                w >= 0,
                h >= 0,
        ;
    }
    w as i128 * h as i128
}

/// Intersection over union as the exact fraction `intersection / union`; its
/// value is taken as 0 when `union` is 0.
#[derive(Clone, Copy, Debug, PartialEq, Eq, Structural)]
pub struct Overlap {
    pub intersection: i128,
    pub union: i128,
}

pub open spec fn overlap_spec(a: TargetBox, b: TargetBox) -> Overlap {
    Overlap { intersection: intersection_spec(a, b) as i128, union: union_spec(a, b) as i128 }
}

/// The IoU of two boxes, kept as a fraction so that nothing is rounded.
pub fn iou(a: &TargetBox, b: &TargetBox) -> (r: Overlap)
    ensures
        r.intersection == intersection_spec(*a, *b),
        r.union == union_spec(*a, *b),
        0 <= r.intersection < 0x1_0000_0000_0000_0000,
        -0x4_0000_0000_0000_0000 < r.union < 0x4_0000_0000_0000_0000,
{
    let i = intersection_area(a, b);
    let aa = a.area();
    let ba = b.area();
    Overlap { intersection: i, union: aa + ba - i }
}

/// A suppression threshold as the fraction `num / den`; `den` is positive.
#[derive(Clone, Copy, Debug, PartialEq, Eq, Structural)]
pub struct IouThreshold {
    pub num: i32,
    pub den: u32,
}

impl IouThreshold {
    pub open spec fn wf(&self) -> bool {
        self.den > 0
    }
}

/// `intersection / union > num / den`, with the IoU taken as 0 when the union is 0.
/// Both sides are multiplied by `den * |union|`, which is positive.
pub open spec fn exceeds_spec(intersection: int, union: int, t: IouThreshold) -> bool {
    if union > 0 {
        intersection * t.den > t.num * union
    } else if union < 0 {
        intersection * t.den < t.num * union
    } else {
        t.num < 0
    }
}

/// IoU of `a` and `b` strictly above the threshold.
pub open spec fn iou_gt(a: TargetBox, b: TargetBox, t: IouThreshold) -> bool {
    exceeds_spec(intersection_spec(a, b), union_spec(a, b), t)
}

/// Whether the IoU of `a` and `b` is strictly above `t`.
pub fn iou_exceeds(a: &TargetBox, b: &TargetBox, t: &IouThreshold) -> (r: bool)
    requires
        t.wf(),
    ensures
        r == iou_gt(*a, *b, *t),
{
    let o = iou(a, b);
    let i = o.intersection;
    let u = o.union;
    let den = t.den as i128;
    let num = t.num as i128;
    proof {
        assert(-0x1_0000_0000_0000_0000_0000_0000_0000 < i * den < 0x1_0000_0000_0000_0000_0000_0000_0000)
            by (nonlinear_arith)
            requires
                0 <= i < 0x1_0000_0000_0000_0000,
                0 < den < 0x1_0000_0000,
        ;
        assert(-0x1_0000_0000_0000_0000_0000_0000_0000 < num * u < 0x1_0000_0000_0000_0000_0000_0000_0000)
            by (nonlinear_arith)
            requires
                -0x8000_0000 <= num < 0x8000_0000,
                -0x4_0000_0000_0000_0000 < u < 0x4_0000_0000_0000_0000,
        ;
    }
    if u > 0 {
        i * den > num * u
    } else if u < 0 {
        i * den < num * u
    } else {
        num < 0
    }
}

/// Intersection over union does not depend on the order of the two boxes.
pub proof fn lemma_iou_symmetric(a: TargetBox, b: TargetBox)
    ensures
        overlap_spec(a, b) == overlap_spec(b, a),
        forall|t: IouThreshold| iou_gt(a, b, t) == iou_gt(b, a, t),
{
    assert(intersection_spec(a, b) == intersection_spec(b, a));
}

/// A box of positive area overlaps itself completely: intersection and union
/// are both its area, so the IoU is 1.
pub proof fn lemma_iou_self(a: TargetBox)
    requires
        well_formed(a),
        a.area_spec() > 0,
    ensures
        intersection_spec(a, a) == a.area_spec(),
        union_spec(a, a) == a.area_spec(),
{
    assert(a.width_spec() > 0) by (nonlinear_arith)
        requires
            a.width_spec() >= 0,
            a.width_spec() * a.height_spec() > 0,
    ;
    assert(a.height_spec() > 0) by (nonlinear_arith)
        requires
            a.width_spec() > 0,
            a.width_spec() * a.height_spec() > 0,
    ;
}

/// Boxes without a common region of positive area have intersection 0, and so
/// IoU 0.
pub proof fn lemma_iou_disjoint(a: TargetBox, b: TargetBox)
    requires
        disjoint(a, b),
    ensures
        intersection_spec(a, b) == 0,
{
}

} // verus!
