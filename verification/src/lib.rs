//! Detect-then-decode orchestration for barcode and QR-code scanning.
//!
//! Given raw region proposals from a detector, the library filters them by
//! confidence, runs class-aware non-maximum suppression, validates each
//! surviving region against the image bounds, selects a decoder profile per
//! class, and remaps decoder-local geometry back into full-image coordinates.

pub mod detect;
pub mod geometry;
pub mod nms_laws;
pub mod normalize;
pub mod scan;
pub mod scan_laws;
pub mod sift;

pub use detect::Detection;
pub use geometry::Rect;
pub use normalize::normalize;
pub use scan::scan;
pub use scan::DetectionResult;
