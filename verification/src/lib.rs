//! Late-interaction scoring of multi-vector rows.
//!
//! A multi-vector query is a list of vectors, and so is each stored row. The distance of a row sums,
//! over the query vectors, the distance to the nearest vector of the row. [`exact`] computes it from
//! the stored vectors of a batch, [`indexed`] from the candidates that an index finds for each query
//! vector, and [`plan`] says where in a query plan that happens.
//!
//! Numbers are held as the bits of their IEEE 754 encodings; [`float`] and [`rounding`] say what
//! they mean, and [`accumulator`] sums them at double precision. [`laws`], [`split`] and
//! the modules named after what they speak of state what holds of the whole.

pub mod accumulator;
pub mod batch_laws;
pub mod candidate_laws;
pub mod column;
pub mod element;
pub mod error;
pub mod exact;
pub mod float;
pub mod indexed;
pub mod laws;
pub mod limits;
pub mod model;
pub mod number_laws;
pub mod path;
pub mod path_laws;
pub mod plan;
pub mod plan_laws;
pub mod rounding;
pub mod score;
pub mod score_laws;
pub mod split;
