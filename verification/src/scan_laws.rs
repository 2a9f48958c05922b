//! Laws of the dispatcher and remapper: exact coordinate translation, and
//! containment of a single region's decode failure.

use vstd::prelude::*;
use crate::detect::Detection;
use crate::geometry::Rect;
use crate::scan::{
    quad_bottom, quad_in_crop, quad_left, quad_right, quad_top, spec_remap_one, spec_scan,
    spec_scan_results, LocalDecode, spec_region_results,
};

verus! {

/// Coordinate remap correctness: for a region at offset `(x, y)` and a
/// well-formed decoder-local result, every edge of the reported box is the
/// local edge translated by exactly the region's origin, and the payload and
/// class pass through unchanged.
pub proof fn lemma_remap_offset(region: Rect, class_id: i32, d: LocalDecode)
    requires
        quad_in_crop(d.quad, region),
        0 <= region.x,
        0 <= region.y,
        region.x + region.w < 0x8000_0000,
        region.y + region.h < 0x8000_0000,
    ensures
        spec_remap_one(region, class_id, d).x == region.x + quad_left(d.quad),
        spec_remap_one(region, class_id, d).y == region.y + quad_top(d.quad),
        spec_remap_one(region, class_id, d).w == quad_right(d.quad) - quad_left(d.quad),
        spec_remap_one(region, class_id, d).h == quad_bottom(d.quad) - quad_top(d.quad),
        spec_remap_one(region, class_id, d).class == class_id,
        spec_remap_one(region, class_id, d).codes == d.text,
{
}

/// Partial-failure containment: when region `k` contributes no decode
/// results, the aggregated results are exactly those of the other regions,
/// in order, as if region `k` had not been dispatched at all.
pub proof fn lemma_partial_failure(
    width: u32,
    height: u32,
    dets: Seq<Detection>,
    d1: Seq<Seq<LocalDecode>>,
    d2: Seq<Seq<LocalDecode>>,
    k: int,
)
    requires
        d1.len() == dets.len(),
        d2.len() == dets.len(),
        0 <= k < dets.len(),
        forall|j: int| 0 <= j < dets.len() && j != k ==> d1[j] == d2[j],
        d2[k] == Seq::<LocalDecode>::empty(),
    ensures
        spec_scan_results(width, height, dets, d2) == spec_scan_results(
            width,
            height,
            dets.remove(k),
            d1.remove(k),
        ),
    decreases dets.len(),
{
    let last = dets.len() - 1;
    if k == last {
        assert(d2.last() == Seq::<LocalDecode>::empty());
        assert(spec_region_results(width, height, dets.last(), d2.last()) =~= Seq::<
            crate::scan::DetectionResult,
        >::empty());
        assert(d2.drop_last() =~= d1.drop_last());
        assert(dets.remove(k) =~= dets.drop_last());
        assert(d1.remove(k) =~= d1.drop_last());
        assert(spec_scan_results(width, height, dets, d2) =~= spec_scan_results(
            width,
            height,
            dets.drop_last(),
            d2.drop_last(),
        ));
    } else {
        lemma_partial_failure(width, height, dets.drop_last(), d1.drop_last(), d2.drop_last(), k);
        assert(dets.remove(k).drop_last() =~= dets.drop_last().remove(k));
        assert(d1.remove(k).drop_last() =~= d1.drop_last().remove(k));
        assert(dets.remove(k).last() == dets.last());
        assert(d1.remove(k).last() == d1.last());
        assert(d1.last() == d2.last());
        assert(dets.remove(k).len() > 0);
        assert(spec_scan_results(width, height, dets.remove(k), d1.remove(k))
            == spec_scan_results(width, height, dets.remove(k).drop_last(), d1.remove(k).drop_last())
            + spec_region_results(width, height, dets.remove(k).last(), d1.remove(k).last()));
    }
}

/// A single failed region never fails the call: whether the call succeeds
/// depends only on the buffer check and the pairing of decode results with
/// candidates, which region `k`'s failure does not change.
pub proof fn lemma_partial_failure_call_ok(
    pixel_bytes: int,
    width: u32,
    height: u32,
    dets: Seq<Detection>,
    d1: Seq<Seq<LocalDecode>>,
    d2: Seq<Seq<LocalDecode>>,
)
    requires
        d1.len() == dets.len(),
        d2.len() == dets.len(),
    ensures
        spec_scan(pixel_bytes, width, height, dets, d1) is Ok <==> spec_scan(
            pixel_bytes,
            width,
            height,
            dets,
            d2,
        ) is Ok,
{
}

} // verus!
