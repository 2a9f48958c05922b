use codescan::detect::Detection;
use codescan::geometry::{iou_above, Rect};
use codescan::normalize::normalize;

fn det(x: i32, y: i32, w: i32, h: i32, score: u32, class_id: i32) -> Detection {
    Detection { rect: Rect { x, y, w, h }, score, class_id }
}

#[test]
fn normalize_example_thresholds() {
    // Two heavily overlapping class-0 boxes and one class-1 box: the lower
    // scoring class-0 box is suppressed, the class-1 box survives.
    let raw = vec![
        det(0, 0, 100, 100, 900, 0),
        det(5, 5, 100, 100, 800, 0),
        det(0, 0, 50, 50, 700, 1),
    ];
    let out = normalize(&raw, 500, 500);
    assert_eq!(out.len(), 2);
    assert_eq!(out[0], det(0, 0, 100, 100, 900, 0));
    assert_eq!(out[1], det(0, 0, 50, 50, 700, 1));
}

#[test]
fn normalize_empty_input() {
    let raw: Vec<Detection> = Vec::new();
    let out = normalize(&raw, 500, 500);
    assert!(out.is_empty());
}

#[test]
fn normalize_idempotent() {
    let raw = vec![
        det(0, 0, 100, 100, 900, 0),
        det(5, 5, 100, 100, 800, 0),
        det(0, 0, 50, 50, 700, 1),
        det(200, 200, 40, 40, 650, 1),
    ];
    let once = normalize(&raw, 500, 500);
    let twice = normalize(&once, 500, 500);
    assert_eq!(once, twice);
}

#[test]
fn normalize_keeps_full_overlap_of_different_classes() {
    // Identical rectangles (overlap ratio 1.0) of different classes are
    // both kept: suppression never crosses class boundaries.
    let raw = vec![det(10, 10, 80, 80, 900, 0), det(10, 10, 80, 80, 850, 1)];
    let out = normalize(&raw, 0, 500);
    assert_eq!(out.len(), 2);
    assert_eq!(out[0], raw[0]);
    assert_eq!(out[1], raw[1]);
}

#[test]
fn normalize_score_threshold_monotonic() {
    let raw = vec![
        det(0, 0, 100, 100, 900, 0),
        det(300, 0, 100, 100, 700, 0),
        det(0, 300, 100, 100, 400, 1),
    ];
    let lo = normalize(&raw, 300, 500);
    let mid = normalize(&raw, 600, 500);
    let hi = normalize(&raw, 950, 500);
    assert_eq!(lo.len(), 3);
    assert_eq!(mid.len(), 2);
    assert_eq!(hi.len(), 0);
    assert!(mid.len() <= lo.len());
    assert!(hi.len() <= mid.len());
}

#[test]
fn normalize_nms_threshold_monotonic_pair() {
    // Overlap ratio of the two boxes is 9025 / 10975, about 0.82: suppressed
    // at threshold 0.5, kept at threshold 0.9.
    let raw = vec![det(0, 0, 100, 100, 900, 0), det(5, 5, 100, 100, 800, 0)];
    let tight = normalize(&raw, 0, 500);
    let loose = normalize(&raw, 0, 900);
    assert_eq!(tight.len(), 1);
    assert_eq!(loose.len(), 2);
}

#[test]
fn normalize_deterministic() {
    let raw = vec![
        det(0, 0, 100, 100, 900, 0),
        det(5, 5, 100, 100, 900, 0),
        det(0, 0, 50, 50, 700, 1),
    ];
    let a = normalize(&raw, 200, 400);
    let b = normalize(&raw, 200, 400);
    assert_eq!(a, b);
}

#[test]
fn normalize_tie_break_first_seen() {
    // Equal scores, full mutual overlap: the first-seen proposal wins.
    let raw = vec![det(0, 0, 60, 60, 800, 0), det(0, 0, 60, 60, 800, 0)];
    let out = normalize(&raw, 0, 500);
    assert_eq!(out.len(), 1);
    assert_eq!(out[0], raw[0]);
}

#[test]
fn normalize_degenerate_rect_never_suppressed() {
    // A zero-area rectangle has overlap ratio zero with everything, so even
    // a threshold of zero suppresses nothing between it and a real box.
    let raw = vec![det(0, 0, 100, 100, 900, 0), det(50, 50, 0, 10, 800, 0)];
    let out = normalize(&raw, 0, 0);
    assert_eq!(out.len(), 2);
}

#[test]
fn normalize_survivors_pairwise_separated() {
    // A chain of overlapping same-class boxes: every pair of survivors must
    // sit at or below the overlap threshold.
    let raw = vec![
        det(0, 0, 100, 100, 900, 0),
        det(40, 0, 100, 100, 850, 0),
        det(80, 0, 100, 100, 800, 0),
        det(120, 0, 100, 100, 750, 0),
    ];
    let nt = 300;
    let out = normalize(&raw, 0, nt);
    assert!(!out.is_empty());
    for i in 0..out.len() {
        for j in 0..out.len() {
            if i != j {
                assert!(!iou_above(&out[i].rect, &out[j].rect, nt));
            }
        }
    }
}

#[test]
fn class_names() {
    assert_eq!(det(0, 0, 1, 1, 500, 0).class(), "barcode");
    assert_eq!(det(0, 0, 1, 1, 500, 1).class(), "qrcode");
    assert_eq!(det(0, 0, 1, 1, 500, 2).class(), "");
    assert_eq!(det(0, 0, 1, 1, 500, -1).class(), "");
}

#[test]
fn iou_above_exact_boundary() {
    // Intersection 95 * 95 = 9025, union 20000 - 9025 = 10975.
    // 9025 * 1000 = 9_025_000; 822 * 10975 = 9_021_450; 823 * 10975 = 9_032_425.
    let a = Rect { x: 0, y: 0, w: 100, h: 100 };
    let b = Rect { x: 5, y: 5, w: 100, h: 100 };
    assert!(iou_above(&a, &b, 500));
    assert!(iou_above(&a, &b, 822));
    assert!(!iou_above(&a, &b, 823));
}

#[test]
fn iou_degenerate_is_zero() {
    let a = Rect { x: 0, y: 0, w: 0, h: 100 };
    let b = Rect { x: 0, y: 0, w: 100, h: 100 };
    assert!(!iou_above(&a, &b, 0));
    assert!(!iou_above(&a, &a, 0));
}
