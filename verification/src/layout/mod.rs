//! Layout: saturating lengths, text measurement, line breaking, floats,
//! box-model arithmetic, a styled document's content and intrinsic sizes,
//! and the fragment tree that records the result. Lengths are app units,
//! sixty to a CSS pixel, saturating at the ends of their range rather than
//! overflowing.
pub mod block;
pub mod geom;
pub mod text;
pub mod inline;
pub mod float;
pub mod fragment;
pub mod styled;
