//! Axis-aligned rectangles and their overlap ratio (intersection over union).

use vstd::prelude::*;

verus! {

/// Fixed-point denominator for overlap-ratio thresholds: a threshold `t`
/// stands for the ratio `t / IOU_SCALE`, so valid thresholds lie in
/// `[0, IOU_SCALE]`.
pub const IOU_SCALE: u32 = 1000;

/// Axis-aligned rectangle in pixel units. A rectangle with `w <= 0` or
/// `h <= 0` is degenerate: it has area zero and overlap ratio zero with
/// everything.
#[derive(Clone, Copy, PartialEq, Eq, Structural, Debug)]
pub struct Rect {
    pub x: i32,
    pub y: i32,
    pub w: i32,
    pub h: i32,
}

/// Area of a rectangle; degenerate rectangles count as zero.
pub open spec fn rect_area(r: Rect) -> int {
    if r.w <= 0 || r.h <= 0 {
        0
    } else {
        (r.w as int) * (r.h as int)
    }
}

/// Length of the overlap of the half-open 1-D intervals `[a, a + la)` and
/// `[b, b + lb)`; zero when they are disjoint or empty.
pub open spec fn overlap_1d(a: int, la: int, b: int, lb: int) -> int {
    let lo = if a >= b {
        a
    } else {
        b
    };
    let hi = if a + la <= b + lb {
        a + la
    } else {
        b + lb
    };
    if hi >= lo {
        hi - lo
    } else {
        0
    }
}

/// Area of the intersection of two rectangles.
pub open spec fn inter_area(a: Rect, b: Rect) -> int {
    overlap_1d(a.x as int, a.w as int, b.x as int, b.w as int) * overlap_1d(
        a.y as int,
        a.h as int,
        b.y as int,
        b.h as int,
    )
}

/// Area of the union of two rectangles.
pub open spec fn union_area(a: Rect, b: Rect) -> int {
    rect_area(a) + rect_area(b) - inter_area(a, b)
}

/// Does the overlap ratio of `a` and `b` strictly exceed `t / IOU_SCALE`?
///
/// Stated without division: `inter / union > t / IOU_SCALE` is equivalent to
/// `inter * IOU_SCALE > t * union` whenever `union > 0`, and when both
/// rectangles are degenerate (`union == 0`) the comparison `0 > 0` is false,
/// which matches the convention that degenerate rectangles have overlap
/// ratio zero with everything.
pub open spec fn iou_exceeds(a: Rect, b: Rect, t: u32) -> bool {
    inter_area(a, b) * (IOU_SCALE as int) > (t as int) * union_area(a, b)
}

proof fn lemma_mul_le(a: int, b: int, ca: int, cb: int)
    requires
        0 <= a <= ca,
        0 <= b <= cb,
    ensures
        0 <= a * b <= ca * cb,
{
    assert(0 <= a * b <= ca * cb) by (nonlinear_arith)
        requires
            0 <= a <= ca,
            0 <= b <= cb,
    ;
}

/// The intersection area is non-negative and no larger than either
/// rectangle's own area.
pub proof fn lemma_inter_area_bounds(a: Rect, b: Rect)
    ensures
        0 <= inter_area(a, b),
        inter_area(a, b) <= rect_area(a),
        inter_area(a, b) <= rect_area(b),
        0 <= rect_area(a),
        0 <= rect_area(b),
{
    let ox = overlap_1d(a.x as int, a.w as int, b.x as int, b.w as int);
    let oy = overlap_1d(a.y as int, a.h as int, b.y as int, b.h as int);
    let aw = if a.w >= 0 { a.w as int } else { 0 };
    let ah = if a.h >= 0 { a.h as int } else { 0 };
    let bw = if b.w >= 0 { b.w as int } else { 0 };
    let bh = if b.h >= 0 { b.h as int } else { 0 };
    assert(0 <= ox && ox <= aw && ox <= bw);
    assert(0 <= oy && oy <= ah && oy <= bh);
    if a.w <= 0 || a.h <= 0 {
        lemma_mul_le(ox, oy, aw, ah);
        assert(aw * ah == 0) by (nonlinear_arith)
            requires
                aw == 0 || ah == 0,
                0 <= aw,
                0 <= ah,
        ;
    } else {
        lemma_mul_le(ox, oy, aw, ah);
    }
    if b.w <= 0 || b.h <= 0 {
        lemma_mul_le(ox, oy, bw, bh);
        assert(bw * bh == 0) by (nonlinear_arith)
            requires
                bw == 0 || bh == 0,
                0 <= bw,
                0 <= bh,
        ;
    } else {
        lemma_mul_le(ox, oy, bw, bh);
    }
    if !(a.w <= 0 || a.h <= 0) {
        assert(rect_area(a) >= 0) by (nonlinear_arith)
            requires
                a.w > 0,
                a.h > 0,
                rect_area(a) == (a.w as int) * (a.h as int),
        ;
    }
    if !(b.w <= 0 || b.h <= 0) {
        assert(rect_area(b) >= 0) by (nonlinear_arith)
            requires
                b.w > 0,
                b.h > 0,
                rect_area(b) == (b.w as int) * (b.h as int),
        ;
    }
}

/// Exceeding a higher overlap threshold implies exceeding any lower one.
pub proof fn lemma_iou_exceeds_monotone(a: Rect, b: Rect, t1: u32, t2: u32)
    requires
        t1 <= t2,
        iou_exceeds(a, b, t2),
    ensures
        iou_exceeds(a, b, t1),
{
    lemma_inter_area_bounds(a, b);
    assert(union_area(a, b) >= 0);
    assert((t1 as int) * union_area(a, b) <= (t2 as int) * union_area(a, b)) by (nonlinear_arith)
        requires
            0 <= union_area(a, b),
            t1 <= t2,
    ;
}

/// Overlap length of two pixel intervals, clamped at zero.
fn overlap_len(a: i32, la: i32, b: i32, lb: i32) -> (r: i64)
    ensures
        r as int == overlap_1d(a as int, la as int, b as int, lb as int),
        0 <= r < 0x8000_0000,
{
    let lo: i64 = if a >= b {
        a as i64
    } else {
        b as i64
    };
    let hi_a: i64 = a as i64 + la as i64;
    let hi_b: i64 = b as i64 + lb as i64;
    let hi: i64 = if hi_a <= hi_b {
        hi_a
    } else {
        hi_b
    };
    if hi >= lo {
        hi - lo
    } else {
        0
    }
}

/// Area of a rectangle; degenerate rectangles report zero.
fn area_of(r: &Rect) -> (a: i64)
    ensures
        a as int == rect_area(*r),
        0 <= a < 0x4000_0000_0000_0000,
{
    if r.w <= 0 || r.h <= 0 {
        0
    } else {
        proof {
            lemma_mul_le(r.w as int, r.h as int, 0x7fff_ffff, 0x7fff_ffff);
        }
        (r.w as i64) * (r.h as i64)
    }
}

/// Decide whether the overlap ratio of `a` and `b` strictly exceeds
/// `t / IOU_SCALE`.
pub fn iou_above(a: &Rect, b: &Rect, t: u32) -> (r: bool)
    ensures
        r == iou_exceeds(*a, *b, t),
{
    let ox: i64 = overlap_len(a.x, a.w, b.x, b.w);
    let oy: i64 = overlap_len(a.y, a.h, b.y, b.h);
    proof {
        lemma_mul_le(ox as int, oy as int, 0x8000_0000, 0x8000_0000);
    }
    let inter: i64 = ox * oy;
    let area_a: i64 = area_of(a);
    let area_b: i64 = area_of(b);
    proof {
        lemma_inter_area_bounds(*a, *b);
    }
    let uni: i64 = area_a + area_b - inter;
    proof {
        lemma_mul_le(inter as int, IOU_SCALE as int, 0x4000_0000_0000_0000, 0x1000);
        lemma_mul_le(t as int, uni as int, 0x1_0000_0000, 0x8000_0000_0000_0000);
    }
    (inter as i128) * (IOU_SCALE as i128) > (t as i128) * (uni as i128)
}

} // verus!
