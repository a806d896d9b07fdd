//! The element types that have a distance function, and those functions.

use crate::float;
use crate::model::Metric;
use arrow_array::types::{Float16Type, Float32Type, Float64Type};
use arrow_array::ArrowPrimitiveType;
use lance_linalg::distance::DistanceType;
use vstd::prelude::*;

verus! {

/// Arrow's binary16 number.
type Native16 = <Float16Type as ArrowPrimitiveType>::Native;

/// Arrow's binary32 number.
type Native32 = <Float32Type as ArrowPrimitiveType>::Native;

/// Arrow's binary64 number.
type Native64 = <Float64Type as ArrowPrimitiveType>::Native;

/// The bits of a floating-point vector element.
pub trait Element: Copy {
    /// Whether the number is neither infinite nor a NaN.
    spec fn finite(self) -> bool;

    /// Whether `distance` is a distance that the distance function can give for the two vectors.
    spec fn is_distance(metric: Metric, query: Seq<Self>, vector: Seq<Self>, distance: u32) -> bool;

    /// Whether the distance of the two vectors is known to be undefined.
    spec fn is_undefined(metric: Metric, query: Seq<Self>, vector: Seq<Self>) -> bool;

    /// Whether the number is neither infinite nor a NaN.
    fn is_finite(self) -> (finite: bool)
        ensures
            finite == self.finite(),
    ;

    /// The distance of the two vectors, as the bits of a binary32 number.
    fn distance(metric: Metric, query: &[Self], vector: &[Self]) -> (distance: u32)
        requires
            query@.len() == vector@.len(),
            metric !is Hamming,
        ensures
            Self::is_distance(metric, query@, vector@, distance),
            Self::is_undefined(metric, query@, vector@) ==> float::is_nan(distance),
    ;
}

impl Element for u16 {
    open spec fn finite(self) -> bool {
        float::is_finite_half(self)
    }

    open spec fn is_distance(
        metric: Metric,
        query: Seq<Self>,
        vector: Seq<Self>,
        distance: u32,
    ) -> bool {
        is_half_distance(metric, query, vector, distance)
    }

    open spec fn is_undefined(metric: Metric, query: Seq<Self>, vector: Seq<Self>) -> bool {
        false
    }

    fn is_finite(self) -> (finite: bool) {
        float::half_is_finite(self)
    }

    fn distance(metric: Metric, query: &[Self], vector: &[Self]) -> (distance: u32) {
        half_distance(metric, query, vector)
    }
}

impl Element for u32 {
    open spec fn finite(self) -> bool {
        float::is_finite(self)
    }

    open spec fn is_distance(
        metric: Metric,
        query: Seq<Self>,
        vector: Seq<Self>,
        distance: u32,
    ) -> bool {
        is_single_distance(metric, query, vector, distance)
    }

    open spec fn is_undefined(metric: Metric, query: Seq<Self>, vector: Seq<Self>) -> bool {
        metric is Cosine && (is_single_zero(query) || is_single_zero(vector))
    }

    fn is_finite(self) -> (finite: bool) {
        float::single_is_finite(self)
    }

    fn distance(metric: Metric, query: &[Self], vector: &[Self]) -> (distance: u32) {
        single_distance(metric, query, vector)
    }
}

impl Element for u64 {
    open spec fn finite(self) -> bool {
        float::is_finite_double(self)
    }

    open spec fn is_distance(
        metric: Metric,
        query: Seq<Self>,
        vector: Seq<Self>,
        distance: u32,
    ) -> bool {
        is_double_distance(metric, query, vector, distance)
    }

    open spec fn is_undefined(metric: Metric, query: Seq<Self>, vector: Seq<Self>) -> bool {
        metric is Cosine && (is_double_zero(query) || is_double_zero(vector))
    }

    fn is_finite(self) -> (finite: bool) {
        float::double_is_finite(self)
    }

    fn distance(metric: Metric, query: &[Self], vector: &[Self]) -> (distance: u32) {
        double_distance(metric, query, vector)
    }
}

/// Whether `distance` is among the results of `lance_linalg`'s binary16 distance function.
pub uninterp spec fn is_half_distance(
    metric: Metric,
    query: Seq<u16>,
    vector: Seq<u16>,
    distance: u32,
) -> bool;

/// Whether every element of a binary32 vector is a zero.
pub open spec fn is_single_zero(vector: Seq<u32>) -> bool {
    forall|i: int| 0 <= i < vector.len() ==> float::is_zero(#[trigger] vector[i])
}

/// Whether `distance` is among the results of `lance_linalg`'s binary32 distance function.
pub uninterp spec fn is_single_distance(
    metric: Metric,
    query: Seq<u32>,
    vector: Seq<u32>,
    distance: u32,
) -> bool;

/// Whether every element of a binary64 vector is a zero.
pub open spec fn is_double_zero(vector: Seq<u64>) -> bool {
    forall|i: int| 0 <= i < vector.len() ==> float::is_zero_double(#[trigger] vector[i])
}

/// Whether `distance` is among the results of `lance_linalg`'s binary64 distance function.
pub uninterp spec fn is_double_distance(
    metric: Metric,
    query: Seq<u64>,
    vector: Seq<u64>,
    distance: u32,
) -> bool;

/// The distance by `lance_linalg::distance::DistanceType::func` for binary16 elements.
///
/// The function picks its instructions by the processor that it runs on, and the last bits of the
/// distance follow from that choice, so the contract claims no more than which arguments the
/// distance is for. The cosine distance of a zero vector is left unsaid: the optional half-precision
/// kernels are compiled without regard to NaNs.
#[verifier::external_body]
fn half_distance(metric: Metric, query: &[u16], vector: &[u16]) -> (distance: u32)
    requires
        query@.len() == vector@.len(),
        metric !is Hamming,
    ensures
        is_half_distance(metric, query@, vector@, distance),
{
    let from: Vec<_> = query.iter().map(|bits| Native16::from_bits(*bits)).collect();
    let to: Vec<_> = vector.iter().map(|bits| Native16::from_bits(*bits)).collect();
    let metric = match metric {
        Metric::L2 => DistanceType::L2,
        Metric::Cosine => DistanceType::Cosine,
        Metric::Dot => DistanceType::Dot,
        Metric::Hamming => DistanceType::Hamming,
    };
    metric.func()(&from, &to).to_bits()
}

/// The distance by `lance_linalg::distance::DistanceType::func` for binary32 elements.
///
/// The function picks its instructions by the processor that it runs on, and the last bits of the
/// distance follow from that choice, so the contract claims which arguments the distance is for, and
/// that the cosine distance, a dot product divided by both norms, is a NaN where a vector is zero.
#[verifier::external_body]
fn single_distance(metric: Metric, query: &[u32], vector: &[u32]) -> (distance: u32)
    requires
        query@.len() == vector@.len(),
        metric !is Hamming,
    ensures
        is_single_distance(metric, query@, vector@, distance),
        metric is Cosine && (is_single_zero(query@) || is_single_zero(vector@)) ==> float::is_nan(distance),
{
    let from: Vec<_> = query.iter().map(|bits| Native32::from_bits(*bits)).collect();
    let to: Vec<_> = vector.iter().map(|bits| Native32::from_bits(*bits)).collect();
    let metric = match metric {
        Metric::L2 => DistanceType::L2,
        Metric::Cosine => DistanceType::Cosine,
        Metric::Dot => DistanceType::Dot,
        Metric::Hamming => DistanceType::Hamming,
    };
    metric.func()(&from, &to).to_bits()
}

/// The distance by `lance_linalg::distance::DistanceType::func` for binary64 elements.
///
/// The function picks its instructions by the processor that it runs on, and the last bits of the
/// distance follow from that choice, so the contract claims which arguments the distance is for, and
/// that the cosine distance, a dot product divided by both norms, is a NaN where a vector is zero.
#[verifier::external_body]
fn double_distance(metric: Metric, query: &[u64], vector: &[u64]) -> (distance: u32)
    requires
        query@.len() == vector@.len(),
        metric !is Hamming,
    ensures
        is_double_distance(metric, query@, vector@, distance),
        metric is Cosine && (is_double_zero(query@) || is_double_zero(vector@)) ==> float::is_nan(distance),
{
    let from: Vec<_> = query.iter().map(|bits| Native64::from_bits(*bits)).collect();
    let to: Vec<_> = vector.iter().map(|bits| Native64::from_bits(*bits)).collect();
    let metric = match metric {
        Metric::L2 => DistanceType::L2,
        Metric::Cosine => DistanceType::Cosine,
        Metric::Dot => DistanceType::Dot,
        Metric::Hamming => DistanceType::Hamming,
    };
    metric.func()(&from, &to).to_bits()
}

} // verus!
