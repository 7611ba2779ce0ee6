//! A read-only array indexed by a sparse, strictly ordered key domain.
//!
//! Values are stored densely. Runs of consecutive keys (segments) are described by
//! the key and the storage index at which each run begins, so a lookup is a binary
//! search over the segments followed by one distance computation.
pub mod array;
pub mod builder;
pub mod index;
pub mod invariants;
pub mod iter;
pub mod render;
pub mod segments;

pub use array::NciArray;
pub use builder::{segment_data, BuildError, NciArrayBuilder};
pub use index::{distance_laws, index_laws, order_laws, NciIndex};
pub use invariants::{check_segment_data_invariants, NciArrayInvariant};
pub use iter::{NciArrayEntryIter, NciArrayIndexIter, NciArrayIndexIterData};
pub use render::{decimal_text, render_segment_data, BuildConfiguration, OutputFormat, ValueFormatting};
