//! Query engine for one-dimensional curves built from chains of cubic Bezier
//! segments and shipped as compact base62-encoded strings.
//!
//! The decoder turns an encoded chain into a flat sequence of signed
//! fixed-point numbers (ten million raw units per 1.0, the same fixed-point
//! factor the encoding itself uses); the evaluator interprets that sequence
//! as a scale/offset header followed by the segment chain and answers, for a
//! given x, the y value the curve takes there. All arithmetic is exact
//! integer arithmetic on raw units; converting raw units to and from binary
//! floating point is left to callers at the boundary.

pub mod base62;
pub mod chain;
pub mod curve;
pub mod error;

pub use base62::from_base62;
pub use chain::decode;
pub use curve::get_encoded_curve_query_function;
pub use curve::query_curve;
pub use curve::query_encoded_curve;
pub use curve::BezierSegment;
pub use curve::CurveQuery;
pub use error::DecodeError;
