//! Core of a parallel transaction scheduler: dependency analysis over
//! read/write hints, partitioning of the pending transactions into groups
//! that can run side by side, and validation of the speculative results
//! against the sequential order.

pub mod balance;
pub mod dependent_txs;
pub mod equivalence;
pub mod error;
pub mod graph;
pub mod hint;
pub mod location;
pub mod partition;
pub mod scheduler;
pub mod state_view;
pub mod tx_dependency;
pub mod validate;
pub mod write_index;
pub mod writer_map;

pub use error::SchedulerError;
pub use location::LocationAndType;
pub use scheduler::GrevmScheduler;
pub use tx_dependency::TxDependency;

use vstd::prelude::*;

verus! {

/// Position of a transaction in its batch; the sequential order is ascending.
pub type TxId = usize;

/// Index of a partition within one round.
pub type PartitionId = usize;

/// Number of speculative rounds tried before the rest runs sequentially.
pub const MAX_NUM_ROUND: usize = 3;

} // verus!
