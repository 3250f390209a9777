//! Consensus core of a validator node: a DAG of signed blocks, block
//! admission with suspension of causally incomplete blocks, a threshold
//! clock that advances rounds on quorums, deterministic leader election,
//! a commit rule that linearizes the DAG into a gap-free commit sequence,
//! and the repair state machines (block synchronizer, commit-range syncer,
//! broadcaster) that keep a node caught up.

pub mod types;
pub mod dag;
pub mod block_manager;
pub mod linearizer;
pub mod consensus;
pub mod synchronizer;
pub mod commit_syncer;
pub mod broadcaster;
pub mod streamer;
