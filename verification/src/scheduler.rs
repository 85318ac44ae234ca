//! The round loop of the scheduler as a state machine: it says what is to
//! be executed next, and takes what the execution observed.

use crate::error::SchedulerError;
use crate::hint::ParallelExecutionHints;
use crate::location::{Address, LocationAndType};
use crate::partition::{chunk_partitions, is_partitioning, parts_view};
use crate::tx_dependency::{
    deps_view, generate_tail_dependency, hinted_deps, is_balanced_partitioning, keeps_dependencies_together,
    lemma_deps_of_reads_lower, no_dependencies, raw_weights, time_as_weight, TxDependency,
};
use crate::validate::{count_conflict_free, is_conflict_free_prefix};
use crate::write_index::{writers_between, MergedWriteSet};
use crate::{TxId, MAX_NUM_ROUND};
use vstd::prelude::*;

verus! {

/// How the execution of a transaction ended.
#[derive(Clone, Copy, Debug, PartialEq, Eq, Structural)]
pub enum TransactionStatus {
    /// The transaction ran to its end.
    Success,
    /// The transaction reverted; it still pays for its gas.
    Revert,
    /// The transaction could not be executed, for instance because the
    /// database failed to read a value.
    Error,
}

/// What the caller learns of one transaction.
#[derive(Clone, Copy, Debug, PartialEq, Eq, Structural)]
pub struct TxResult {
    pub status: TransactionStatus,
    pub gas_used: u64,
}

/// What is to be done next with a batch.
#[derive(Clone, Copy, Debug, PartialEq, Eq, Structural)]
pub enum SchedulerStep {
    /// Execute the partitions side by side, then call `finish_round`.
    ExecuteRound,
    /// Execute the pending transactions one after the other on the
    /// committed state, then call `finish_sequential`.
    ExecuteSequential,
    /// Every transaction is final.
    Finished,
}

/// The partitions are the best ones for the graph: contiguous chunks where
/// the graph has no edge, else the balanced partitioning by `weights`.
pub open spec fn is_best_partitioning(
    deps: Seq<Seq<usize>>,
    nf: int,
    weights: Seq<usize>,
    partition_count: int,
    parts: Seq<Seq<usize>>,
) -> bool {
    if no_dependencies(deps) {
        parts == chunk_partitions(nf, deps.len() as int, partition_count)
    } else {
        is_balanced_partitioning(deps, nf, weights, partition_count, parts)
    }
}

/// The running times of the transactions from `nf` on, as weights.
pub open spec fn tail_weights(running_time: Seq<u64>, nf: int) -> Seq<usize> {
    Seq::new((running_time.len() - nf) as nat, |i: int| time_as_weight(running_time[nf + i]))
}

/// Appends the results of the transactions `from..to` to `kept`.
fn append_results(kept: &mut Vec<TxResult>, results: &Vec<TxResult>, from: usize, to: usize)
    requires
        from <= to <= results.len(),
    ensures
        final(kept)@ == old(kept)@ + results@.subrange(from as int, to as int),
{
    let ghost before = kept@;
    let mut t: usize = from;
    assert(results@.subrange(from as int, from as int) == Seq::<TxResult>::empty());
    assert(before + Seq::<TxResult>::empty() == before);
    while t < to
        invariant
            from <= t <= to <= results.len(),
            kept@ == before + results@.subrange(from as int, t as int),
        decreases to - t,
    {
        kept.push(results[t]);
        assert(results@.subrange(from as int, t + 1) == results@.subrange(from as int, t as int).push(
            results@[t as int],
        ));
        t += 1;
    }
}

/// The running times of the transactions from `from` on.
fn tail_times(running_time: &Vec<u64>, from: usize) -> (times: Vec<u64>)
    requires
        from <= running_time.len(),
    ensures
        times@ == running_time@.subrange(from as int, running_time.len() as int),
{
    let mut times: Vec<u64> = Vec::new();
    let mut t: usize = from;
    while t < running_time.len()
        invariant
            from <= t <= running_time.len(),
            times@ == running_time@.subrange(from as int, t as int),
        decreases running_time.len() - t,
    {
        times.push(running_time[t]);
        assert(running_time@.subrange(from as int, t + 1) == running_time@.subrange(
            from as int,
            t as int,
        ).push(running_time@[t as int]));
        t += 1;
    }
    times
}

/// The scheduler of one batch of transactions.
pub struct GrevmScheduler {
    coinbase: Address,
    num_txs: usize,
    tx_dependency: TxDependency,
    // number of partitions asked for; a round may use fewer
    num_partitions: usize,
    // the pending transactions of each partition of the coming round
    partitioned_txs: Vec<Vec<TxId>>,
    // the writers of each location in the last round
    merged_write_set: MergedWriteSet,
    num_finality_txs: usize,
    // number of rounds finished
    round: usize,
    // the results of the final transactions, in batch order
    results: Vec<TxResult>,
}

impl GrevmScheduler {
    /// The account that collects the fees of the batch.
    pub closed spec fn coinbase_address(&self) -> Address {
        self.coinbase
    }

    /// The size of the batch.
    pub closed spec fn num_txs(&self) -> int {
        self.num_txs as int
    }

    /// The number of transactions that are final.
    pub closed spec fn num_finality(&self) -> int {
        self.num_finality_txs as int
    }

    /// The number of rounds finished.
    pub closed spec fn round(&self) -> int {
        self.round as int
    }

    /// The number of partitions asked for.
    pub closed spec fn partition_count(&self) -> int {
        self.num_partitions as int
    }

    /// The partitions of the coming round.
    pub closed spec fn partitions(&self) -> Seq<Seq<usize>> {
        parts_view(self.partitioned_txs@)
    }

    /// The dependency graph of the pending transactions.
    pub closed spec fn dependency(&self) -> TxDependency {
        self.tx_dependency
    }

    /// The results of the final transactions, in batch order.
    pub closed spec fn results(&self) -> Seq<TxResult> {
        self.results@
    }

    /// The writers of `loc` in the last round, ascending.
    pub closed spec fn merged_writers(&self, loc: LocationAndType) -> Seq<usize> {
        self.merged_write_set.writers(loc)
    }

    /// What is to be done next.
    pub open spec fn step(&self) -> SchedulerStep {
        if self.num_finality() == self.num_txs() {
            SchedulerStep::Finished
        } else if self.round() < MAX_NUM_ROUND {
            SchedulerStep::ExecuteRound
        } else {
            SchedulerStep::ExecuteSequential
        }
    }

    /// The greatest number of steps that the batch still needs.
    pub open spec fn steps_left(&self) -> int {
        if self.num_finality() == self.num_txs() {
            0
        } else {
            MAX_NUM_ROUND - self.round() + 1
        }
    }

    /// Graph and scheduler agree on the batch, and the results are those of
    /// the final transactions.
    pub open spec fn counts_agree(&self) -> bool {
        &&& self.dependency().wf()
        &&& self.dependency().num_finality() == self.num_finality()
        &&& self.dependency().num_txs() == self.num_txs()
        &&& 0 <= self.num_finality() <= self.num_txs() <= usize::MAX
        &&& self.partition_count() > 0
        &&& 0 <= self.round() <= MAX_NUM_ROUND
        &&& self.results().len() == self.num_finality()
    }

    /// The state is consistent: the counts agree, and before a round the
    /// partitions split the pending transactions and keep dependencies together.
    pub open spec fn wf(&self) -> bool {
        &&& self.counts_agree()
        &&& self.step() is ExecuteRound ==> {
            &&& is_partitioning(self.partitions(), self.num_finality(), self.num_txs())
            &&& keeps_dependencies_together(
                self.partitions(),
                self.dependency().deps(),
                self.num_finality(),
            )
            &&& self.partitions().len() <= self.partition_count()
        }
    }

    /// A scheduler for a batch of `num_txs` transactions that runs up to
    /// `num_partitions` partitions side by side. Until hints are given,
    /// every transaction is taken to depend on the one before it.
    pub fn new(coinbase: Address, num_txs: usize, num_partitions: usize) -> (scheduler: Self)
        requires
            num_partitions > 0,
        ensures
            scheduler.wf(),
            scheduler.coinbase_address() == coinbase,
            scheduler.num_txs() == num_txs,
            scheduler.partition_count() == num_partitions,
            scheduler.num_finality() == 0,
            scheduler.round() == 0,
            scheduler.results().len() == 0,
            scheduler.dependency().deps().len() == num_txs,
            forall|t: int|
                0 <= t < num_txs ==> #[trigger] scheduler.dependency().deps()[t] == if t == 0 {
                    Seq::<usize>::empty()
                } else {
                    seq![(t - 1) as usize]
                },
            is_best_partitioning(
                scheduler.dependency().deps(),
                0,
                raw_weights(num_txs as nat),
                num_partitions as int,
                scheduler.partitions(),
            ),
    {
        let mut tx_dependency = TxDependency::sequential(num_txs);
        let partitioned_txs = tx_dependency.fetch_best_partitions(num_partitions);
        GrevmScheduler {
            coinbase,
            num_txs,
            tx_dependency,
            num_partitions,
            partitioned_txs,
            merged_write_set: MergedWriteSet::new(),
            num_finality_txs: 0,
            round: 0,
            results: Vec::new(),
        }
    }

    /// Computes the partitions of the coming round from the dependency
    /// graph and the weights, which are used up.
    pub fn partition_transactions(&mut self)
        requires
            old(self).counts_agree(),
        ensures
            final(self).wf(),
            final(self).coinbase_address() == old(self).coinbase_address(),
            final(self).num_txs() == old(self).num_txs(),
            final(self).num_finality() == old(self).num_finality(),
            final(self).round() == old(self).round(),
            final(self).partition_count() == old(self).partition_count(),
            final(self).results() == old(self).results(),
            final(self).dependency().deps() == old(self).dependency().deps(),
            final(self).dependency().running_times() == old(self).dependency().running_times(),
            final(self).dependency().weights() == if no_dependencies(old(self).dependency().deps()) {
                old(self).dependency().weights()
            } else {
                raw_weights(old(self).dependency().deps().len())
            },
            forall|loc: LocationAndType| #[trigger]
                final(self).merged_writers(loc) == old(self).merged_writers(loc),
            is_partitioning(
                final(self).partitions(),
                old(self).num_finality(),
                old(self).num_txs(),
            ),
            keeps_dependencies_together(
                final(self).partitions(),
                old(self).dependency().deps(),
                old(self).num_finality(),
            ),
            is_best_partitioning(
                old(self).dependency().deps(),
                old(self).num_finality(),
                old(self).dependency().weights(),
                old(self).partition_count(),
                final(self).partitions(),
            ),
    {
        self.partitioned_txs = self.tx_dependency.fetch_best_partitions(self.num_partitions);
    }

    /// Takes the hints of the batch, one per transaction, builds the
    /// dependency graph from them and partitions the batch. Without hints
    /// (an empty list) every transaction is taken to depend on the one
    /// before it. Fails with `InvariantViolation`, and changes nothing,
    /// once a round has run or where the hints are for another number of
    /// transactions.
    pub fn init_dependencies(&mut self, hints: &ParallelExecutionHints) -> (res: Result<
        (),
        SchedulerError,
    >)
        requires
            old(self).wf(),
        ensures
            final(self).wf(),
            final(self).coinbase_address() == old(self).coinbase_address(),
            final(self).num_txs() == old(self).num_txs(),
            final(self).num_finality() == old(self).num_finality(),
            final(self).round() == old(self).round(),
            final(self).partition_count() == old(self).partition_count(),
            final(self).results() == old(self).results(),
            res is Ok <==> old(self).round() == 0 && old(self).num_finality() == 0 && (
            hints.txs_hint.len() == old(self).num_txs() || hints.txs_hint.len() == 0),
            res is Err ==> *final(self) == *old(self),
            res is Ok ==> final(self).dependency().deps().len() == old(self).num_txs()
                && is_best_partitioning(
                final(self).dependency().deps(),
                0,
                raw_weights(final(self).dependency().deps().len()),
                old(self).partition_count(),
                final(self).partitions(),
            ),
            res is Ok && hints.txs_hint.len() == old(self).num_txs() ==> forall|t: int|
                0 <= t < old(self).num_txs() ==> #[trigger] final(self).dependency().deps()[t]
                    == hinted_deps(hints.txs_hint@, 0, t),
            res is Ok && hints.txs_hint.len() != old(self).num_txs() ==> forall|t: int|
                0 <= t < old(self).num_txs() ==> #[trigger] final(self).dependency().deps()[t]
                    == if t == 0 {
                    Seq::<usize>::empty()
                } else {
                    seq![(t - 1) as usize]
                },
    {
        if self.round != 0 || self.num_finality_txs != 0 {
            return Err(SchedulerError::InvariantViolation);
        }
        let num_hints: usize = hints.len();
        if num_hints != self.num_txs && num_hints != 0 {
            return Err(SchedulerError::InvariantViolation);
        }
        if num_hints == self.num_txs {
            self.tx_dependency = TxDependency::new(hints);
        } else {
            self.tx_dependency = TxDependency::sequential(self.num_txs);
        }
        self.partition_transactions();
        Ok(())
    }

    /// What is to be done next.
    pub fn next_step(&self) -> (step: SchedulerStep)
        ensures
            step == self.step(),
    {
        if self.num_finality_txs == self.num_txs {
            SchedulerStep::Finished
        } else if self.round < MAX_NUM_ROUND {
            SchedulerStep::ExecuteRound
        } else {
            SchedulerStep::ExecuteSequential
        }
    }

    /// The partitions of the coming round.
    pub fn partitioned_txs(&self) -> (parts: &Vec<Vec<TxId>>)
        ensures
            parts_view(parts@) == self.partitions(),
    {
        &self.partitioned_txs
    }

    /// The number of transactions that are final.
    pub fn num_finality_txs(&self) -> (n: usize)
        ensures
            n == self.num_finality(),
    {
        self.num_finality_txs
    }

    /// The size of the batch.
    pub fn num_transactions(&self) -> (n: usize)
        ensures
            n == self.num_txs(),
    {
        self.num_txs
    }

    /// The number of rounds finished.
    pub fn rounds_finished(&self) -> (n: usize)
        ensures
            n == self.round(),
    {
        self.round
    }

    /// The account that collects the fees of the batch.
    pub fn coinbase(&self) -> (a: Address)
        ensures
            a == self.coinbase_address(),
    {
        self.coinbase
    }

    /// The results of the final transactions, in batch order.
    pub fn finalized_results(&self) -> (results: &Vec<TxResult>)
        ensures
            results@ == self.results(),
    {
        &self.results
    }

    /// The dependency graph of the pending transactions.
    pub fn tx_dependency(&self) -> (dep: &TxDependency)
        ensures
            *dep == self.dependency(),
    {
        &self.tx_dependency
    }
}

impl GrevmScheduler {
    /// Rebuilds the index of writers from what the round observed: for
    /// every location, the pending transactions that wrote it, ascending.
    /// Does nothing where `observed` is not one entry per transaction of
    /// the batch.
    pub fn merge_write_set(&mut self, observed: &ParallelExecutionHints)
        requires
            old(self).wf(),
        ensures
            final(self).wf(),
            final(self).coinbase_address() == old(self).coinbase_address(),
            final(self).num_txs() == old(self).num_txs(),
            final(self).num_finality() == old(self).num_finality(),
            final(self).round() == old(self).round(),
            final(self).partition_count() == old(self).partition_count(),
            final(self).results() == old(self).results(),
            final(self).dependency() == old(self).dependency(),
            final(self).partitions() == old(self).partitions(),
            observed.txs_hint.len() == old(self).num_txs() ==> forall|loc: LocationAndType| #[trigger]
                final(self).merged_writers(loc) == writers_between(
                    observed.txs_hint@,
                    loc,
                    old(self).num_finality(),
                    old(self).num_txs(),
                ),
            observed.txs_hint.len() != old(self).num_txs() ==> *final(self) == *old(self),
    {
        if observed.txs_hint.len() == self.num_txs {
            self.merged_write_set = MergedWriteSet::merge(observed, self.num_finality_txs);
        }
    }

    /// Rebuilds the index of writers from what the round observed and
    /// counts the transactions that the round can make final: those before
    /// the first conflicted one. Returns `None` where the scheduler is not in
    /// a round or `observed` is not one entry per transaction of the batch.
    pub fn validate_transactions(&mut self, observed: &ParallelExecutionHints) -> (delta: Option<
        usize,
    >)
        requires
            old(self).wf(),
        ensures
            final(self).wf(),
            final(self).coinbase_address() == old(self).coinbase_address(),
            final(self).num_txs() == old(self).num_txs(),
            final(self).num_finality() == old(self).num_finality(),
            final(self).round() == old(self).round(),
            final(self).partition_count() == old(self).partition_count(),
            final(self).results() == old(self).results(),
            final(self).dependency() == old(self).dependency(),
            final(self).partitions() == old(self).partitions(),
            delta is Some <==> old(self).step() is ExecuteRound && observed.txs_hint.len() == old(
                self,
            ).num_txs(),
            delta is Some ==> is_conflict_free_prefix(
                observed.txs_hint@,
                old(self).partitions(),
                old(self).num_finality(),
                delta->0 as int,
            ) && delta->0 >= 1,
            delta is Some ==> forall|loc: LocationAndType| #[trigger]
                final(self).merged_writers(loc) == writers_between(
                    observed.txs_hint@,
                    loc,
                    old(self).num_finality(),
                    old(self).num_txs(),
                ),
            delta is None ==> *final(self) == *old(self),
    {
        if self.num_finality_txs == self.num_txs || self.round >= MAX_NUM_ROUND
            || observed.txs_hint.len() != self.num_txs {
            return None;
        }
        self.merged_write_set = MergedWriteSet::merge(observed, self.num_finality_txs);
        Some(
            count_conflict_free(
                observed,
                &self.merged_write_set,
                &self.partitioned_txs,
                self.num_finality_txs,
            ),
        )
    }

    /// Takes what a round observed: for each transaction of the batch the
    /// locations it read and wrote, its result and its running time (the
    /// entries of final transactions are not looked at). Makes the longest
    /// run of pending transactions without a conflict final, at least one,
    /// keeps their results, rebuilds the dependency graph of the rest from
    /// the observed reads and writes, weighs the rest by its running times
    /// and, where another round follows, partitions it. Returns the number
    /// of transactions made final. Fails with `InvariantViolation`, and
    /// changes nothing, where no round is due or an argument is not one
    /// entry per transaction.
    pub fn finish_round(
        &mut self,
        observed: &ParallelExecutionHints,
        results: &Vec<TxResult>,
        running_time: &Vec<u64>,
    ) -> (res: Result<usize, SchedulerError>)
        requires
            old(self).wf(),
        ensures
            final(self).wf(),
            final(self).coinbase_address() == old(self).coinbase_address(),
            final(self).num_txs() == old(self).num_txs(),
            final(self).partition_count() == old(self).partition_count(),
            res is Ok <==> old(self).step() is ExecuteRound && observed.txs_hint.len() == old(
                self,
            ).num_txs() && results.len() == old(self).num_txs() && running_time.len() == old(
                self,
            ).num_txs(),
            res is Err ==> *final(self) == *old(self),
            res is Ok ==> {
                let nf = old(self).num_finality();
                let delta = res->Ok_0 as int;
                let rest = old(self).num_txs() - nf - delta;
                &&& delta >= 1
                &&& is_conflict_free_prefix(observed.txs_hint@, old(self).partitions(), nf, delta)
                &&& final(self).num_finality() == nf + delta
                &&& final(self).results() == old(self).results() + results@.subrange(nf, nf + delta)
                &&& final(self).round() == old(self).round() + 1
                &&& final(self).steps_left() < old(self).steps_left()
                &&& forall|loc: LocationAndType| #[trigger]
                    final(self).merged_writers(loc) == writers_between(
                        observed.txs_hint@,
                        loc,
                        nf,
                        old(self).num_txs(),
                    )
                &&& final(self).dependency().deps().len() == rest
                &&& final(self).dependency().running_times() == Some(
                    running_time@.subrange(nf + delta, old(self).num_txs()),
                )
                &&& forall|i: int|
                    0 <= i < rest ==> #[trigger] final(self).dependency().deps()[i] == hinted_deps(
                        observed.txs_hint@,
                        nf + delta,
                        nf + delta + i,
                    )
                &&& final(self).step() is ExecuteRound ==> is_best_partitioning(
                    final(self).dependency().deps(),
                    nf + delta,
                    tail_weights(running_time@, nf + delta),
                    old(self).partition_count(),
                    final(self).partitions(),
                )
            },
    {
        if self.num_finality_txs == self.num_txs || self.round >= MAX_NUM_ROUND {
            return Err(SchedulerError::InvariantViolation);
        }
        if observed.txs_hint.len() != self.num_txs || results.len() != self.num_txs
            || running_time.len() != self.num_txs {
            return Err(SchedulerError::InvariantViolation);
        }
        let nf: usize = self.num_finality_txs;
        let total: usize = self.num_txs;
        self.merged_write_set = MergedWriteSet::merge(observed, nf);
        let delta: usize = count_conflict_free(
            observed,
            &self.merged_write_set,
            &self.partitioned_txs,
            nf,
        );
        let new_nf: usize = nf + delta;
        append_results(&mut self.results, results, nf, new_nf);
        let times = tail_times(running_time, new_nf);
        let (tail_deps, _) = generate_tail_dependency(observed, new_nf);
        let ghost tail_view = deps_view(tail_deps@);
        let updated = self.tx_dependency.update_tx_dependency(tail_deps, new_nf);
        assert(updated is Ok);
        let weighed = self.tx_dependency.set_running_time(times);
        assert(weighed is Ok);
        self.num_finality_txs = new_nf;
        self.round = self.round + 1;
        proof {
            assert(self.tx_dependency.weights() =~= tail_weights(running_time@, new_nf as int));
            assert forall|i: int| 0 <= i < total - new_nf implies #[trigger] self.tx_dependency.deps()[i]
                == hinted_deps(observed.txs_hint@, new_nf as int, new_nf + i) by {
                assert(tail_view[i] == hinted_deps(observed.txs_hint@, new_nf as int, new_nf + i));
            }
        }
        if new_nf < total && self.round < MAX_NUM_ROUND {
            self.partition_transactions();
        }
        Ok(delta)
    }

    /// Takes the results of the sequential execution of the pending
    /// transactions, one entry per transaction of the batch (the entries of
    /// final transactions are not looked at), and makes them all final.
    /// Fails with `InvariantViolation`, and changes nothing, where
    /// sequential execution is not due or `results` is not one entry per
    /// transaction.
    pub fn finish_sequential(&mut self, results: &Vec<TxResult>) -> (res: Result<
        (),
        SchedulerError,
    >)
        requires
            old(self).wf(),
        ensures
            final(self).wf(),
            final(self).coinbase_address() == old(self).coinbase_address(),
            final(self).num_txs() == old(self).num_txs(),
            final(self).partition_count() == old(self).partition_count(),
            final(self).round() == old(self).round(),
            res is Ok <==> old(self).step() is ExecuteSequential && results.len() == old(
                self,
            ).num_txs(),
            res is Err ==> *final(self) == *old(self),
            res is Ok ==> final(self).num_finality() == old(self).num_txs() && final(self).results()
                == old(self).results() + results@.subrange(
                old(self).num_finality(),
                old(self).num_txs(),
            ) && final(self).step() is Finished && final(self).steps_left() == 0 && final(self).dependency().deps().len() == 0,
    {
        if self.num_finality_txs == self.num_txs || self.round < MAX_NUM_ROUND {
            return Err(SchedulerError::InvariantViolation);
        }
        if results.len() != self.num_txs {
            return Err(SchedulerError::InvariantViolation);
        }
        let nf: usize = self.num_finality_txs;
        let total: usize = self.num_txs;
        append_results(&mut self.results, results, nf, total);
        let updated = self.tx_dependency.update_tx_dependency(Vec::new(), total);
        assert(updated is Ok);
        self.num_finality_txs = total;
        Ok(())
    }
}

impl GrevmScheduler {
    /// A batch needs no more than `MAX_NUM_ROUND` rounds and one sequential
    /// run: the number of steps left is at most that, it is zero exactly
    /// when every transaction is final, a round is due only while fewer
    /// than `MAX_NUM_ROUND` rounds have run, and `finish_round` and
    /// `finish_sequential` each lower it.
    pub proof fn lemma_steps_are_bounded(self)
        requires
            self.wf(),
        ensures
            0 <= self.steps_left() <= MAX_NUM_ROUND + 1,
            self.steps_left() == 0 <==> self.step() is Finished,
            self.step() is Finished <==> self.num_finality() == self.num_txs(),
            self.step() is ExecuteRound ==> self.round() < MAX_NUM_ROUND,
            self.step() is ExecuteSequential ==> self.steps_left() == 1,
    {
    }
}

} // verus!
