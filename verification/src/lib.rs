//! A firing-squad-style one-dimensional cellular automaton with a
//! domain-decomposed stepper: the row is cut into contiguous shards, each
//! shard advances its own cells and exchanges one boundary value per side
//! per step, and the partitioned run is proved equivalent to the
//! single-shard reference run.

pub mod color;
pub mod orchestrator;
pub mod parallel;
pub mod parse;
pub mod partition;
pub mod row;
pub mod rule;
pub mod shard;
pub mod step;
