//! An in-memory, inheritance-aware access-control engine.
//!
//! The crate is built from three layers:
//! - [`arena`]: a slab allocator with tombstoned removal, index reuse and
//!   compaction that reports the exact index moves it performed;
//! - [`cando`]: a bidirectional graph of grantees and actions with grants,
//!   inheritance edges, reachability queries and orphan-removing compaction;
//! - [`permission`]: a journalled facade that writes every mutation to an
//!   I/O sink before applying it, publishes batches atomically to a read-side
//!   copy, and poisons itself when the journal can neither flush nor clear.
//!
//! Two supporting modules round the core off: [`rebuild`] states and proves
//! what a compaction log is worth — folding it into an empty graph, in any
//! order, reconstructs the compacted graph up to the parent edges of roots —
//! and [`remap`] holds the position-rewriting machinery that arena
//! compaction requires.

pub mod arena;
pub mod cando;
pub mod model;
pub mod permission;
pub mod rebuild;
pub mod remap;
