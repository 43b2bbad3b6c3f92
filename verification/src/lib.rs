//! A multi-buffer: a single, logically ordered, editable view composed of
//! disjoint slices ("excerpts") drawn from one or more independently edited
//! text buffers.
//!
//! The crate keeps the excerpt set totally ordered by a frozen
//! `(initial path, buffer id, range)` key, keeps excerpts of one buffer
//! pairwise disjoint, and publishes immutable snapshots with monotonically
//! increasing counters after every mutation.

pub mod excerpt;
pub mod multi_buffer;
pub mod order;
pub mod scrollbar;
