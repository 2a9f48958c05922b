use codescan::detect::Detection;
use codescan::geometry::Rect;
use codescan::scan::{
    plan_region, plan_regions, scan, DecodeProfile, DetectionResult, LocalDecode, Point, Quad,
    RegionPlan, ScanError,
};

fn det(x: i32, y: i32, w: i32, h: i32, score: u32, class_id: i32) -> Detection {
    Detection { rect: Rect { x, y, w, h }, score, class_id }
}

fn quad(x0: i32, y0: i32, x1: i32, y1: i32) -> Quad {
    Quad {
        tl: Point { x: x0, y: y0 },
        tr: Point { x: x1, y: y0 },
        br: Point { x: x1, y: y1 },
        bl: Point { x: x0, y: y1 },
    }
}

fn hit(text: &str, q: Quad) -> LocalDecode {
    LocalDecode { text: text.to_string(), quad: q }
}

fn rgb_buffer(width: u32, height: u32) -> Vec<u8> {
    vec![0u8; (3 * width * height) as usize]
}

#[test]
fn plan_region_selects_profile_by_class() {
    assert_eq!(
        plan_region(200, 100, &det(10, 10, 50, 50, 900, 0)),
        RegionPlan::Decode(DecodeProfile::Linear)
    );
    assert_eq!(
        plan_region(200, 100, &det(10, 10, 50, 50, 900, 1)),
        RegionPlan::Decode(DecodeProfile::Matrix)
    );
    assert_eq!(plan_region(200, 100, &det(10, 10, 50, 50, 900, 7)), RegionPlan::UnknownClass);
}

#[test]
fn plan_region_rejects_out_of_bounds() {
    // Entirely outside the image.
    assert_eq!(plan_region(200, 100, &det(500, 500, 50, 50, 900, 0)), RegionPlan::RegionOutOfBounds);
    // Partly outside.
    assert_eq!(plan_region(200, 100, &det(180, 10, 50, 20, 900, 0)), RegionPlan::RegionOutOfBounds);
    // Negative origin.
    assert_eq!(plan_region(200, 100, &det(-1, 0, 50, 50, 900, 0)), RegionPlan::RegionOutOfBounds);
    // No extent.
    assert_eq!(plan_region(200, 100, &det(10, 10, 0, 5, 900, 0)), RegionPlan::RegionOutOfBounds);
}

#[test]
fn plan_regions_validates_each_candidate() {
    let dets = vec![
        det(10, 10, 50, 50, 900, 0),
        det(500, 500, 50, 50, 900, 0),
        det(10, 10, 50, 50, 900, 3),
    ];
    let plans = plan_regions(200, 100, &dets);
    assert_eq!(
        plans,
        vec![
            RegionPlan::Decode(DecodeProfile::Linear),
            RegionPlan::RegionOutOfBounds,
            RegionPlan::UnknownClass,
        ]
    );
}

#[test]
fn scan_remaps_by_region_origin() {
    let buf = rgb_buffer(200, 100);
    let dets = vec![det(10, 20, 50, 40, 900, 1)];
    let decoded = vec![vec![hit("hello", quad(1, 2, 5, 8))]];
    let out = scan(&buf, 200, 100, &dets, decoded).unwrap();
    assert_eq!(out.len(), 1);
    assert_eq!(
        out[0],
        DetectionResult { x: 11, y: 22, w: 4, h: 6, class: 1, codes: "hello".to_string() }
    );
}

#[test]
fn scan_invalid_buffer_length() {
    let buf = vec![0u8; 17];
    let dets = vec![det(10, 20, 50, 40, 900, 1)];
    let r = scan(&buf, 200, 100, &dets, vec![Vec::new()]);
    assert_eq!(r, Err(ScanError::InvalidInput));
}

#[test]
fn scan_mismatched_decode_results() {
    let buf = rgb_buffer(200, 100);
    let dets = vec![det(10, 20, 50, 40, 900, 1)];
    let r = scan(&buf, 200, 100, &dets, Vec::new());
    assert_eq!(r, Err(ScanError::InvalidInput));
}

#[test]
fn scan_empty_detections() {
    let buf = rgb_buffer(200, 100);
    let out = scan(&buf, 200, 100, &Vec::new(), Vec::new()).unwrap();
    assert!(out.is_empty());
}

#[test]
fn scan_partial_failure_leaves_other_regions_unchanged() {
    let buf = rgb_buffer(200, 100);
    let dets = vec![det(0, 0, 50, 50, 900, 0), det(100, 0, 50, 50, 800, 1)];
    // Region 0 fails to decode (no hits); region 1 decodes one symbol.
    let with_failure = vec![Vec::new(), vec![hit("ok", quad(0, 0, 10, 10))]];
    let out = scan(&buf, 200, 100, &dets, with_failure).unwrap();
    // The same call with region 0 absent gives identical results.
    let only_second = scan(
        &buf,
        200,
        100,
        &vec![dets[1].clone()],
        vec![vec![hit("ok", quad(0, 0, 10, 10))]],
    )
    .unwrap();
    assert_eq!(out, only_second);
    assert_eq!(out.len(), 1);
    assert_eq!(out[0].codes, "ok");
    assert_eq!(out[0].x, 100);
}

#[test]
fn scan_out_of_bounds_region_fails_alone() {
    let buf = rgb_buffer(200, 100);
    let bad = det(190, 90, 50, 50, 900, 0);
    let good = det(0, 0, 50, 50, 800, 1);
    assert_eq!(plan_region(200, 100, &bad), RegionPlan::RegionOutOfBounds);
    let dets = vec![bad, good];
    let decoded = vec![
        vec![hit("ignored", quad(0, 0, 5, 5))],
        vec![hit("kept", quad(2, 3, 12, 13))],
    ];
    let out = scan(&buf, 200, 100, &dets, decoded).unwrap();
    assert_eq!(out.len(), 1);
    assert_eq!(
        out[0],
        DetectionResult { x: 2, y: 3, w: 10, h: 10, class: 1, codes: "kept".to_string() }
    );
}

#[test]
fn scan_unknown_class_contributes_nothing() {
    let buf = rgb_buffer(200, 100);
    let dets = vec![det(0, 0, 50, 50, 900, 9)];
    let decoded = vec![vec![hit("ignored", quad(0, 0, 5, 5))]];
    let out = scan(&buf, 200, 100, &dets, decoded).unwrap();
    assert!(out.is_empty());
}

#[test]
fn scan_drops_malformed_local_results() {
    let buf = rgb_buffer(200, 100);
    let dets = vec![det(0, 0, 50, 50, 900, 0)];
    // One hit reaches outside the crop, one is inverted, one is fine.
    let decoded = vec![vec![
        hit("outside", quad(10, 10, 60, 20)),
        hit(
            "inverted",
            Quad {
                tl: Point { x: 30, y: 10 },
                tr: Point { x: 5, y: 10 },
                br: Point { x: 5, y: 20 },
                bl: Point { x: 30, y: 20 },
            },
        ),
        hit("fine", quad(10, 10, 20, 20)),
    ]];
    let out = scan(&buf, 200, 100, &dets, decoded).unwrap();
    assert_eq!(out.len(), 1);
    assert_eq!(out[0].codes, "fine");
}

#[test]
fn test_scan() {
    // One barcode candidate in a large frame; the decoder reports one hit
    // covering the region, and the call succeeds.
    let width: u32 = 1646;
    let height: u32 = 1165;
    let buf = rgb_buffer(width, height);
    let region = det(796, 780, 1646 - 796, 1165 - 780, 320, 0);
    let decoded = vec![vec![hit("code", quad(0, 0, 850, 385))]];
    let ret = scan(&buf, width, height, &vec![region], decoded).unwrap();
    assert_eq!(ret.len(), 1);
    assert_eq!(ret[0].x, 796);
    assert_eq!(ret[0].y, 780);
}

#[test]
fn scan_orders_results_by_region_then_emission() {
    let buf = rgb_buffer(200, 100);
    let dets = vec![det(100, 0, 50, 50, 700, 1), det(0, 0, 50, 50, 900, 0)];
    let decoded = vec![
        vec![hit("first", quad(0, 0, 5, 5)), hit("second", quad(6, 6, 9, 9))],
        vec![hit("third", quad(0, 0, 5, 5))],
    ];
    let out = scan(&buf, 200, 100, &dets, decoded).unwrap();
    let codes: Vec<String> = out.iter().map(|r| r.codes.clone()).collect();
    assert_eq!(codes, vec!["first".to_string(), "second".to_string(), "third".to_string()]);
}
