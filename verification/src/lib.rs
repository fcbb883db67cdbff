//! Conversion of character-offset spans between two related texts.
//!
//! A span is a half-open interval of codepoint offsets. The crate projects
//! spans through a character correspondence, thins a batch of spans down to
//! a non-overlapping selection, and lifts spans onto the indices of a sorted
//! reference partition.
use vstd::prelude::*;

pub mod lift;
pub mod overlap;
pub mod project;
pub mod recover;

pub use crate::lift::lift_span_index;
pub use crate::lift::lift_spans_index;
pub use crate::overlap::remove_span_overlaps;
pub use crate::overlap::remove_span_overlaps_idx;
pub use crate::project::align_spans_by_mapping;
pub use crate::recover::align_spans;
pub use crate::recover::get_original_spans;
pub use crate::recover::get_span_indices;

verus! {

/// A half-open interval `(start, end)` of codepoint offsets. A span whose
/// start is not below its end covers nothing.
pub type Span = (usize, usize);

} // verus!
