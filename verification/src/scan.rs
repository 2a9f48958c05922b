//! Region decoder dispatch and coordinate remapping.
//!
//! Each candidate region is validated against the image bounds and its class
//! selects a decoder profile; a region that fails validation is reported for
//! that region alone and never aborts the call. Decoder hits come back in
//! region-local coordinates; they are canonicalized to an axis-aligned box
//! and translated by the region's origin into full-image coordinates, then
//! aggregated in dispatch order.

use vstd::prelude::*;
use crate::detect::{Detection, LINEAR_CLASS, MATRIX_CLASS};
use crate::geometry::Rect;

verus! {

/// Decoder family selected for a region; both families run with inversion
/// search disabled.
#[derive(Clone, Copy, PartialEq, Eq, Structural, Debug)]
pub enum DecodeProfile {
    Linear,
    Matrix,
}

/// Outcome of validating one candidate region before decoding.
#[derive(Clone, Copy, PartialEq, Eq, Structural, Debug)]
pub enum RegionPlan {
    /// The region lies inside the image and its class selects this decoder
    /// profile.
    Decode(DecodeProfile),
    /// The region does not lie inside the image: it is failed on its own and
    /// contributes no results, while the remaining regions proceed.
    RegionOutOfBounds,
    /// The class id belongs to no known decoder family: the region is
    /// skipped silently.
    UnknownClass,
}

/// Call-level failure: the pixel buffer does not match the claimed
/// dimensions, or the decode results do not pair up with the candidates.
#[derive(Clone, Copy, PartialEq, Eq, Structural, Debug)]
pub enum ScanError {
    InvalidInput,
}

/// A point in pixel coordinates.
#[derive(Clone, Copy, PartialEq, Eq, Structural, Debug)]
pub struct Point {
    pub x: i32,
    pub y: i32,
}

/// Corner points of a decoded symbol as a decoder reports them, in
/// region-local coordinates: top-left, top-right, bottom-right, bottom-left.
#[derive(Clone, Copy, PartialEq, Eq, Structural, Debug)]
pub struct Quad {
    pub tl: Point,
    pub tr: Point,
    pub br: Point,
    pub bl: Point,
}

/// One raw decoder hit inside a region: the payload text and the symbol's
/// corner points, local to the region's crop.
#[derive(Clone, PartialEq, Debug)]
pub struct LocalDecode {
    pub text: String,
    pub quad: Quad,
}

/// One decoded symbol in full-image coordinates.
#[derive(Clone, PartialEq, Debug)]
pub struct DetectionResult {
    pub x: i32,
    pub y: i32,
    pub w: i32,
    pub h: i32,
    pub class: i32,
    pub codes: String,
}

/// Does the rectangle lie inside a `width` by `height` image? Rectangles
/// without positive extent address no pixels and do not count as inside.
pub open spec fn rect_in_bounds(r: Rect, width: u32, height: u32) -> bool {
    &&& 0 <= r.x
    &&& 0 <= r.y
    &&& 0 < r.w
    &&& 0 < r.h
    &&& r.x + r.w <= width
    &&& r.y + r.h <= height
}

/// Validation and decoder selection for one candidate region: an
/// out-of-bounds region is failed on its own, a known class selects its
/// family's profile, and an unknown class is skipped.
pub open spec fn spec_plan_region(width: u32, height: u32, d: Detection) -> RegionPlan {
    if !rect_in_bounds(d.rect, width, height) {
        RegionPlan::RegionOutOfBounds
    } else if d.class_id == LINEAR_CLASS {
        RegionPlan::Decode(DecodeProfile::Linear)
    } else if d.class_id == MATRIX_CLASS {
        RegionPlan::Decode(DecodeProfile::Matrix)
    } else {
        RegionPlan::UnknownClass
    }
}

/// Left edge of the canonical box of a quadrilateral.
pub open spec fn quad_left(q: Quad) -> int {
    if q.tl.x <= q.bl.x {
        q.tl.x as int
    } else {
        q.bl.x as int
    }
}

/// Right edge of the canonical box of a quadrilateral.
pub open spec fn quad_right(q: Quad) -> int {
    if q.tr.x >= q.br.x {
        q.tr.x as int
    } else {
        q.br.x as int
    }
}

/// Top edge of the canonical box of a quadrilateral.
pub open spec fn quad_top(q: Quad) -> int {
    if q.tl.y <= q.tr.y {
        q.tl.y as int
    } else {
        q.tr.y as int
    }
}

/// Bottom edge of the canonical box of a quadrilateral.
pub open spec fn quad_bottom(q: Quad) -> int {
    if q.bl.y >= q.br.y {
        q.bl.y as int
    } else {
        q.br.y as int
    }
}

/// Is the quadrilateral a well-formed hit inside the region's crop? All
/// corners must lie inside the crop and the canonical box must not be
/// inverted; anything else is a malformed decoder result and is treated as
/// a per-result decode failure.
pub open spec fn quad_in_crop(q: Quad, r: Rect) -> bool {
    &&& 0 <= q.tl.x <= r.w
    &&& 0 <= q.tr.x <= r.w
    &&& 0 <= q.br.x <= r.w
    &&& 0 <= q.bl.x <= r.w
    &&& 0 <= q.tl.y <= r.h
    &&& 0 <= q.tr.y <= r.h
    &&& 0 <= q.br.y <= r.h
    &&& 0 <= q.bl.y <= r.h
    &&& quad_left(q) <= quad_right(q)
    &&& quad_top(q) <= quad_bottom(q)
}

/// Remap one decoder hit into full-image coordinates: the canonical box of
/// its corner points, translated by the region's origin.
pub open spec fn spec_remap_one(region: Rect, class_id: i32, d: LocalDecode) -> DetectionResult {
    DetectionResult {
        x: (region.x + quad_left(d.quad)) as i32,
        y: (region.y + quad_top(d.quad)) as i32,
        w: (quad_right(d.quad) - quad_left(d.quad)) as i32,
        h: (quad_bottom(d.quad) - quad_top(d.quad)) as i32,
        class: class_id,
        codes: d.text,
    }
}

/// Remap every well-formed hit of one region, in decoder emission order;
/// malformed hits are dropped as per-result decode failures.
pub open spec fn spec_remap_region(region: Rect, class_id: i32, ds: Seq<LocalDecode>) -> Seq<
    DetectionResult,
>
    decreases ds.len(),
{
    if ds.len() == 0 {
        Seq::empty()
    } else {
        let rest = spec_remap_region(region, class_id, ds.drop_last());
        if quad_in_crop(ds.last().quad, region) {
            rest.push(spec_remap_one(region, class_id, ds.last()))
        } else {
            rest
        }
    }
}

/// Results one candidate region contributes to the call: its remapped hits
/// when it was planned for decoding, nothing otherwise.
pub open spec fn spec_region_results(
    width: u32,
    height: u32,
    d: Detection,
    ds: Seq<LocalDecode>,
) -> Seq<DetectionResult> {
    if spec_plan_region(width, height, d) is Decode {
        spec_remap_region(d.rect, d.class_id, ds)
    } else {
        Seq::empty()
    }
}

/// Aggregation of every region's results, in candidate order.
pub open spec fn spec_scan_results(
    width: u32,
    height: u32,
    dets: Seq<Detection>,
    decoded: Seq<Seq<LocalDecode>>,
) -> Seq<DetectionResult>
    decreases dets.len(),
{
    if dets.len() == 0 {
        Seq::empty()
    } else {
        spec_scan_results(width, height, dets.drop_last(), decoded.drop_last())
            + spec_region_results(width, height, dets.last(), decoded.last())
    }
}

/// The mathematical contents of a vector of per-region decode results.
pub open spec fn views_of(s: Seq<Vec<LocalDecode>>) -> Seq<Seq<LocalDecode>> {
    s.map_values(|v: Vec<LocalDecode>| v@)
}

/// The whole call: a buffer that does not hold exactly `width * height` RGB
/// pixels, or decode results that do not pair up with the candidates, is an
/// invalid input; otherwise every region's results are aggregated in order.
pub open spec fn spec_scan(
    pixel_bytes: int,
    width: u32,
    height: u32,
    dets: Seq<Detection>,
    decoded: Seq<Seq<LocalDecode>>,
) -> Result<Seq<DetectionResult>, ScanError> {
    if pixel_bytes != 3 * (width as int) * (height as int) {
        Err(ScanError::InvalidInput)
    } else if decoded.len() != dets.len() {
        Err(ScanError::InvalidInput)
    } else {
        Ok(spec_scan_results(width, height, dets, decoded))
    }
}

/// Validate one candidate region against the image bounds and select its
/// decoder profile.
pub fn plan_region(width: u32, height: u32, d: &Detection) -> (p: RegionPlan)
    ensures
        p == spec_plan_region(width, height, *d),
{
    let r = d.rect;
    let in_bounds = r.x >= 0 && r.y >= 0 && r.w > 0 && r.h > 0 && (r.x as i64 + r.w as i64)
        <= width as i64 && (r.y as i64 + r.h as i64) <= height as i64;
    if !in_bounds {
        RegionPlan::RegionOutOfBounds
    } else if d.class_id == LINEAR_CLASS {
        RegionPlan::Decode(DecodeProfile::Linear)
    } else if d.class_id == MATRIX_CLASS {
        RegionPlan::Decode(DecodeProfile::Matrix)
    } else {
        RegionPlan::UnknownClass
    }
}

/// Validate every candidate region, in order.
pub fn plan_regions(width: u32, height: u32, dets: &Vec<Detection>) -> (plans: Vec<RegionPlan>)
    ensures
        plans@.len() == dets@.len(),
        forall|i: int|
            0 <= i < dets@.len() ==> plans@[i] == spec_plan_region(width, height, #[trigger] dets@[i]),
{
    let mut plans: Vec<RegionPlan> = Vec::new();
    let mut i: usize = 0;
    while i < dets.len()
        invariant
            i <= dets.len(),
            plans@.len() == i,
            forall|j: int|
                0 <= j < i ==> plans@[j] == spec_plan_region(width, height, #[trigger] dets@[j]),
        decreases dets.len() - i,
    {
        plans.push(plan_region(width, height, &dets[i]));
        i = i + 1;
    }
    plans
}

/// Remap every well-formed hit of one region into full-image coordinates.
/// The bounds in the requires are what keeps every translated coordinate
/// inside the machine range of a pixel coordinate.
pub fn remap_region(region: &Rect, class_id: i32, locals: Vec<LocalDecode>) -> (out: Vec<
    DetectionResult,
>)
    requires
        0 <= region.x,
        0 <= region.y,
        region.x + region.w < 0x8000_0000,
        region.y + region.h < 0x8000_0000,
    ensures
        out@ == spec_remap_region(*region, class_id, locals@),
{
    let ghost orig = locals@;
    let mut rest = locals;
    let mut out: Vec<DetectionResult> = Vec::new();
    let mut i: usize = 0;
    while i < rest.len()
        invariant
            i <= rest.len(),
            rest@ == orig,
            0 <= region.x,
            0 <= region.y,
            region.x + region.w < 0x8000_0000,
            region.y + region.h < 0x8000_0000,
            out@ == spec_remap_region(*region, class_id, orig.take(i as int)),
        decreases rest.len() - i,
    {
        proof {
            assert(orig.take(i + 1 as int).drop_last() =~= orig.take(i as int));
            assert(orig.take(i + 1 as int).last() == orig[i as int]);
        }
        let q = rest[i].quad;
        let ok = q.tl.x >= 0 && q.tl.x <= region.w && q.tr.x >= 0 && q.tr.x <= region.w && q.br.x
            >= 0 && q.br.x <= region.w && q.bl.x >= 0 && q.bl.x <= region.w && q.tl.y >= 0
            && q.tl.y <= region.h && q.tr.y >= 0 && q.tr.y <= region.h && q.br.y >= 0 && q.br.y
            <= region.h && q.bl.y >= 0 && q.bl.y <= region.h;
        if ok {
            let left: i32 = if q.tl.x <= q.bl.x {
                q.tl.x
            } else {
                q.bl.x
            };
            let right: i32 = if q.tr.x >= q.br.x {
                q.tr.x
            } else {
                q.br.x
            };
            let top: i32 = if q.tl.y <= q.tr.y {
                q.tl.y
            } else {
                q.tr.y
            };
            let bottom: i32 = if q.bl.y >= q.br.y {
                q.bl.y
            } else {
                q.br.y
            };
            if left <= right && top <= bottom {
                let text = rest[i].text.clone();
                out.push(
                    DetectionResult {
                        x: region.x + left,
                        y: region.y + top,
                        w: right - left,
                        h: bottom - top,
                        class: class_id,
                        codes: text,
                    },
                );
                proof {
                    assert(out@.last() == spec_remap_one(*region, class_id, orig[i as int]));
                    assert(out@ == spec_remap_region(*region, class_id, orig.take(i + 1 as int)));
                }
            }
        }
        i = i + 1;
    }
    proof {
        assert(orig.take(orig.len() as int) =~= orig);
    }
    out
}

/// Decode-and-aggregate for one frame. `detections` are the candidate
/// regions; `decoded` holds, for each candidate in order, the raw hits a
/// decoder reported for it (empty for a region whose decode failed). The
/// image dimensions are bounded by the machine range of a pixel coordinate.
///
/// Every region planned for decoding contributes its remapped hits in
/// order; out-of-bounds regions and unknown classes contribute nothing, and
/// a single bad region never fails the call.
pub fn scan(
    ptr: &[u8],
    width: u32,
    height: u32,
    detections: &Vec<Detection>,
    decoded: Vec<Vec<LocalDecode>>,
) -> (r: Result<Vec<DetectionResult>, ScanError>)
    requires
        width < 0x8000_0000,
        height < 0x8000_0000,
    ensures
        ({
            let s = spec_scan(ptr@.len() as int, width, height, detections@, views_of(decoded@));
            match r {
                Ok(v) => s == Ok::<Seq<DetectionResult>, ScanError>(v@),
                Err(e) => s == Err::<Seq<DetectionResult>, ScanError>(e),
            }
        }),
{
    let ghost dec0 = views_of(decoded@);
    proof {
        assert(3 * (width as int) * (height as int) < 0x1_0000_0000_0000_0000) by (nonlinear_arith)
            requires
                width < 0x8000_0000,
                height < 0x8000_0000,
        ;
    }
    let expected: u64 = 3u64 * (width as u64) * (height as u64);
    if ptr.len() as u64 != expected {
        return Err(ScanError::InvalidInput);
    }
    if decoded.len() != detections.len() {
        return Err(ScanError::InvalidInput);
    }
    let mut rest = decoded;
    let mut out: Vec<DetectionResult> = Vec::new();
    let mut i: usize = 0;
    while i < detections.len()
        invariant
            i <= detections.len(),
            rest@.len() == detections@.len() - i,
            forall|j: int| 0 <= j < rest@.len() ==> rest@[j] == decoded@[j + i],
            dec0 == views_of(decoded@),
            dec0.len() == detections@.len(),
            width < 0x8000_0000,
            height < 0x8000_0000,
            out@ == spec_scan_results(width, height, detections@.take(i as int), dec0.take(i as int)),
        decreases detections.len() - i,
    {
        proof {
            assert(detections@.take(i + 1 as int).drop_last() =~= detections@.take(i as int));
            assert(dec0.take(i + 1 as int).drop_last() =~= dec0.take(i as int));
            assert(detections@.take(i + 1 as int).last() == detections@[i as int]);
            assert(dec0.take(i + 1 as int).last() == dec0[i as int]);
        }
        let locals = rest.remove(0);
        proof {
            assert(locals@ == dec0[i as int]);
        }
        let d = detections[i];
        let plan = plan_region(width, height, &d);
        match plan {
            RegionPlan::Decode(_) => {
                let mut add = remap_region(&d.rect, d.class_id, locals);
                out.append(&mut add);
            },
            RegionPlan::RegionOutOfBounds => {
                proof {
                    assert(spec_region_results(width, height, detections@[i as int], dec0[i as int])
                        =~= Seq::<DetectionResult>::empty());
                    assert(out@ + Seq::<DetectionResult>::empty() =~= out@);
                }
            },
            RegionPlan::UnknownClass => {
                proof {
                    assert(spec_region_results(width, height, detections@[i as int], dec0[i as int])
                        =~= Seq::<DetectionResult>::empty());
                    assert(out@ + Seq::<DetectionResult>::empty() =~= out@);
                }
            },
        }
        i = i + 1;
    }
    proof {
        assert(detections@.take(detections@.len() as int) =~= detections@);
        assert(dec0.take(detections@.len() as int) =~= dec0);
    }
    Ok(out)
}

} // verus!
