//! What scoring reads of a query and of stored vectors.

use crate::element::Element;
use crate::error::ScoreError;
use vstd::prelude::*;

verus! {

/// How the distance of two vectors is measured.
#[derive(Debug, Clone, Copy, PartialEq, Eq, Structural)]
pub enum Metric {
    /// Squared Euclidean distance.
    L2,
    /// One minus the cosine similarity.
    Cosine,
    /// One minus the dot product.
    Dot,
    /// Hamming distance, which no floating-point element type supports.
    Hamming,
}

/// The elements of a primitive array, as the bits of their encodings. Slots under nulls count.
#[derive(Debug)]
pub enum Elements {
    /// IEEE 754 binary16.
    Float16(Vec<u16>),
    /// IEEE 754 binary32.
    Float32(Vec<u32>),
    /// IEEE 754 binary64.
    Float64(Vec<u64>),
    /// Any other element type.
    Other,
}

/// A primitive array: a flat query, or the elements of one row's vectors.
#[derive(Debug)]
pub struct ElementArray {
    /// The elements.
    pub elements: Elements,
    /// How many of them are null.
    pub null_count: usize,
}

/// The vectors stored in one row.
#[derive(Debug)]
pub struct SubVectors {
    /// The number of elements of each vector.
    pub dimension: usize,
    /// The number of vectors.
    pub count: usize,
    /// How many of the vectors are null.
    pub null_count: usize,
    /// The elements of all vectors, one vector after the other.
    pub values: ElementArray,
}

/// Whether every element of `elements` is finite.
pub open spec fn every_finite<T: Element>(elements: Seq<T>) -> bool {
    forall|i: int| 0 <= i < elements.len() ==> (#[trigger] elements[i]).finite()
}

impl Elements {
    /// Whether the element type is a floating-point type and every element is finite.
    pub open spec fn finite(self) -> bool {
        match self {
            Elements::Float16(values) => every_finite(values@),
            Elements::Float32(values) => every_finite(values@),
            Elements::Float64(values) => every_finite(values@),
            Elements::Other => false,
        }
    }

    /// Whether both have the same floating-point element type.
    pub open spec fn same_type(self, other: Elements) -> bool {
        ||| self is Float16 && other is Float16
        ||| self is Float32 && other is Float32
        ||| self is Float64 && other is Float64
    }

    /// The number of elements of a floating-point array.
    pub open spec fn count(self) -> nat {
        match self {
            Elements::Float16(values) => values@.len(),
            Elements::Float32(values) => values@.len(),
            Elements::Float64(values) => values@.len(),
            Elements::Other => 0,
        }
    }

    /// Whether the element type is a floating-point type and every element is finite.
    pub fn is_finite(&self) -> (finite: bool)
        ensures
            finite == self.finite(),
    {
        match self {
            Elements::Float16(values) => all_finite(values),
            Elements::Float32(values) => all_finite(values),
            Elements::Float64(values) => all_finite(values),
            Elements::Other => false,
        }
    }
}

impl SubVectors {
    /// Whether no vector and no element is null and every element is finite.
    pub open spec fn complete(self) -> bool {
        &&& self.null_count == 0
        &&& self.values.null_count == 0
        &&& self.values.elements.finite()
    }
}

/// Whether every element of `elements` is finite.
fn all_finite<T: Element>(elements: &Vec<T>) -> (finite: bool)
    ensures
        finite == every_finite(elements@),
{
    for i in 0..elements.len()
        invariant
            forall|j: int| 0 <= j < i ==> (#[trigger] elements@[j]).finite(),
    {
        if !elements[i].is_finite() {
            return false;
        }
    }
    true
}

/// Accepts a query whose elements are all finite and non-null floating-point numbers.
pub fn validate_query(values: &ElementArray) -> (result: Result<(), ScoreError>)
    ensures
        result is Ok <==> values.null_count == 0 && values.elements.finite(),
        result matches Err(error) ==> error == ScoreError::InvalidQuery,
{
    if values.null_count == 0 && values.elements.is_finite() {
        Ok(())
    } else {
        Err(ScoreError::InvalidQuery)
    }
}

} // verus!
