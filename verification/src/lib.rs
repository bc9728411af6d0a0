//! Typed columnar accessor layer: read per-document values out of a
//! compactly stored column regardless of whether a document carries exactly
//! one value, zero-or-one, or many.
//!
//! The crate mediates between a document-addressed world (`docid`) and a
//! densely packed value sequence (row id), and between ordered scalar types
//! and a canonical `u64` representation used by the shared range-query
//! machinery.

pub mod cardinality;
pub mod column;
pub mod column_index;
pub mod column_values;
pub mod distinct;
pub mod monotonic;
pub mod seqs;

pub use cardinality::{Cardinality, DecodeError};
pub use column::{Column, FirstValueWithDefault};
pub use column_index::{ColumnIndex, MultiValueIndex, OptionalIndex};
pub use column_values::{ColumnValues, MonotonicMapColumn, VecColumnValues};
pub use distinct::{DistinctAggregation, IntermediateDistinct, SegmentDistinctCollector, Type};
pub use monotonic::MonotonicallyMappableToU64;
