//! Monotonic proportion curves over a fixed-point canonical number type:
//! queries, simplification, combination, distance and a compact byte format.

pub mod canonical;
pub mod combine;
pub mod compact;
pub mod curve;
pub mod curve_set;
pub mod float_bits;
pub mod geometry;
pub mod irregular_dynamic;
pub mod merging;
pub mod regular_dynamic;
pub mod simplification;
pub mod tree;

pub use canonical::{EPSILON, ONE, X_LIMIT};
pub use combine::{distance, weighted_average, weighted_average_checked};
pub use curve::Curve;
pub use curve_set::{CurveSet, CurveSetError};
pub use irregular_dynamic::{IrregularDynamicCurve, Tup};
pub use regular_dynamic::RegularDynamicCurve;
pub use tree::{LeafData, SerdeFormat};
