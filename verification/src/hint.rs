//! Predicted reads and writes of the transactions of a batch.

use crate::location::{Address, LocationAndType};
use vstd::prelude::*;

verus! {

/// The locations that one transaction is expected to read and to write.
pub struct ExecutionHint {
    pub read_set: Vec<LocationAndType>,
    pub write_set: Vec<LocationAndType>,
}

/// One hint per transaction of the batch, in batch order.
pub struct ParallelExecutionHints {
    pub txs_hint: Vec<ExecutionHint>,
}

impl ExecutionHint {
    /// A hint with the given read and write sets.
    pub fn new(read_set: Vec<LocationAndType>, write_set: Vec<LocationAndType>) -> (h: Self)
        ensures
            h.read_set == read_set,
            h.write_set == write_set,
    {
        ExecutionHint { read_set, write_set }
    }

    /// The hint of a plain value transfer: it reads and writes the basic
    /// records of sender and receiver.
    pub fn transfer(from: Address, to: Address) -> (h: Self)
        ensures
            h.read_set@ == seq![LocationAndType::Basic(from), LocationAndType::Basic(to)],
            h.write_set@ == seq![LocationAndType::Basic(from), LocationAndType::Basic(to)],
    {
        let mut read_set: Vec<LocationAndType> = Vec::new();
        read_set.push(LocationAndType::Basic(from));
        read_set.push(LocationAndType::Basic(to));
        let mut write_set: Vec<LocationAndType> = Vec::new();
        write_set.push(LocationAndType::Basic(from));
        write_set.push(LocationAndType::Basic(to));
        ExecutionHint { read_set, write_set }
    }
}

impl ParallelExecutionHints {
    /// The hints of a batch.
    pub fn new(txs_hint: Vec<ExecutionHint>) -> (h: Self)
        ensures
            h.txs_hint == txs_hint,
    {
        ParallelExecutionHints { txs_hint }
    }

    /// The number of transactions that the hints speak of.
    pub fn len(&self) -> (n: usize)
        ensures
            n == self.txs_hint.len(),
    {
        self.txs_hint.len()
    }
}

} // verus!
