//! Orchestration core for a seeded, bounded profile/sequence homology search.
//!
//! The crate covers the parts of the pipeline that are under this library's
//! control: reading records out of an indexed flat store, extracting consensus
//! sequences from fixed-stride records, remapping coordinates between two
//! derivations of the same profile, aggregating coarse-filter hits into
//! per-profile seed lists, and scheduling the resulting alignment jobs across
//! a worker pool. The numerical alignment steps themselves are outside
//! collaborators: the scheduler consumes their outcomes as plain data.

pub mod bytes;
pub mod coord;
pub mod extract;
pub mod format;
pub mod laws;
pub mod schedule;
pub mod seeds;
pub mod store;
