use grevm::error::SchedulerError;
use grevm::hint::{ExecutionHint, ParallelExecutionHints};
use grevm::location::{Address, LocationAndType, U256};
use grevm::scheduler::{GrevmScheduler, SchedulerStep, TransactionStatus, TxResult};
use grevm::validate::count_conflict_free;
use grevm::write_index::MergedWriteSet;
use grevm::MAX_NUM_ROUND;

fn addr(n: u128) -> Address {
    Address { high: 0, low: n }
}

fn basic(n: u128) -> LocationAndType {
    LocationAndType::Basic(addr(n))
}

fn slot(account: u128, index: u128) -> LocationAndType {
    LocationAndType::Storage(addr(account), U256 { high: 0, low: index })
}

fn hints_of(sets: Vec<(Vec<LocationAndType>, Vec<LocationAndType>)>) -> ParallelExecutionHints {
    ParallelExecutionHints::new(
        sets.into_iter().map(|(reads, writes)| ExecutionHint::new(reads, writes)).collect(),
    )
}

fn transfers(pairs: &[(u128, u128)]) -> ParallelExecutionHints {
    ParallelExecutionHints::new(
        pairs.iter().map(|(from, to)| ExecutionHint::transfer(addr(*from), addr(*to))).collect(),
    )
}

fn blank_hints(n: usize) -> ParallelExecutionHints {
    hints_of((0..n).map(|_| (vec![], vec![])).collect())
}

fn success(n: usize) -> Vec<TxResult> {
    vec![TxResult { status: TransactionStatus::Success, gas_used: 21_000 }; n]
}

fn coinbase() -> Address {
    addr(999)
}

#[test]
fn all_independent_transfers_finish_in_one_round() {
    let pairs: Vec<(u128, u128)> = (0..8).map(|i| (1000 + i, 1100 + i)).collect();
    let hints = transfers(&pairs);
    let mut scheduler = GrevmScheduler::new(coinbase(), 8, 4);
    assert_eq!(scheduler.init_dependencies(&hints), Ok(()));
    assert_eq!(scheduler.next_step(), SchedulerStep::ExecuteRound);
    assert_eq!(
        scheduler.partitioned_txs(),
        &vec![vec![0, 1], vec![2, 3], vec![4, 5], vec![6, 7]]
    );
    assert_eq!(scheduler.finish_round(&hints, &success(8), &vec![1; 8]), Ok(8));
    assert_eq!(scheduler.next_step(), SchedulerStep::Finished);
    assert_eq!(scheduler.num_finality_txs(), 8);
    assert_eq!(scheduler.rounds_finished(), 1);
    assert_eq!(scheduler.finalized_results(), &success(8));
}

#[test]
fn chain_dependency_takes_two_rounds() {
    // nothing is known in advance, so the first round runs all five side by side
    let mut scheduler = GrevmScheduler::new(coinbase(), 5, 5);
    assert_eq!(scheduler.init_dependencies(&blank_hints(5)), Ok(()));
    assert_eq!(
        scheduler.partitioned_txs(),
        &vec![vec![0], vec![1], vec![2], vec![3], vec![4]]
    );
    // each transfer goes from account i to account i + 1
    let pairs: Vec<(u128, u128)> = (0..5).map(|i| (i, i + 1)).collect();
    let observed = transfers(&pairs);
    assert_eq!(scheduler.finish_round(&observed, &success(5), &vec![1; 5]), Ok(1));
    assert_eq!(scheduler.num_finality_txs(), 1);
    assert_eq!(scheduler.next_step(), SchedulerStep::ExecuteRound);
    // the observed accesses put the rest into one group
    assert_eq!(scheduler.tx_dependency().dependencies_at(0), Some(vec![]));
    assert_eq!(scheduler.tx_dependency().dependencies_at(1), Some(vec![1]));
    assert_eq!(scheduler.tx_dependency().dependencies_at(3), Some(vec![3]));
    assert_eq!(scheduler.partitioned_txs(), &vec![vec![1, 2, 3, 4]]);
    assert_eq!(scheduler.finish_round(&observed, &success(5), &vec![1; 5]), Ok(4));
    assert_eq!(scheduler.next_step(), SchedulerStep::Finished);
    assert_eq!(scheduler.rounds_finished(), 2);
    assert_eq!(scheduler.finalized_results().len(), 5);
}

#[test]
fn two_clusters_align_with_two_partitions() {
    let mut pairs: Vec<(u128, u128)> = (0..5).map(|_| (1, 2)).collect();
    pairs.extend((0..5).map(|_| (101, 102)));
    let hints = transfers(&pairs);
    let mut scheduler = GrevmScheduler::new(coinbase(), 10, 2);
    assert_eq!(scheduler.init_dependencies(&hints), Ok(()));
    assert_eq!(
        scheduler.partitioned_txs(),
        &vec![vec![5, 6, 7, 8, 9], vec![0, 1, 2, 3, 4]]
    );
    assert_eq!(scheduler.finish_round(&hints, &success(10), &vec![1; 10]), Ok(10));
    assert_eq!(scheduler.next_step(), SchedulerStep::Finished);
    assert_eq!(scheduler.rounds_finished(), 1);
}

#[test]
fn hint_miss_conflict_is_caught_and_repaired() {
    let mut scheduler = GrevmScheduler::new(coinbase(), 3, 3);
    assert_eq!(scheduler.init_dependencies(&blank_hints(3)), Ok(()));
    assert_eq!(scheduler.partitioned_txs(), &vec![vec![0], vec![1], vec![2]]);
    let observed = hints_of(vec![
        (vec![], vec![slot(7, 1)]),
        (vec![], vec![]),
        (vec![slot(7, 1)], vec![]),
    ]);
    assert_eq!(scheduler.finish_round(&observed, &success(3), &vec![1; 3]), Ok(2));
    assert_eq!(scheduler.num_finality_txs(), 2);
    assert_eq!(scheduler.partitioned_txs(), &vec![vec![2]]);
    assert_eq!(scheduler.finish_round(&observed, &success(3), &vec![1; 3]), Ok(1));
    assert_eq!(scheduler.next_step(), SchedulerStep::Finished);
}

#[test]
fn fallback_after_max_rounds() {
    assert_eq!(MAX_NUM_ROUND, 3);
    let mut scheduler = GrevmScheduler::new(coinbase(), 6, 6);
    assert_eq!(scheduler.init_dependencies(&blank_hints(6)), Ok(()));
    for round in 0..3usize {
        assert_eq!(scheduler.next_step(), SchedulerStep::ExecuteRound);
        let expected: Vec<Vec<usize>> = (round..6).map(|t| vec![t]).collect();
        assert_eq!(scheduler.partitioned_txs(), &expected);
        // in every round the second pending transaction reads what the first wrote
        let mut sets = vec![(vec![], vec![]); 6];
        sets[round] = (vec![], vec![slot(1, round as u128)]);
        sets[round + 1] = (vec![slot(1, round as u128)], vec![]);
        let observed = hints_of(sets);
        assert_eq!(scheduler.finish_round(&observed, &success(6), &vec![1; 6]), Ok(1));
        assert_eq!(scheduler.num_finality_txs(), round + 1);
    }
    assert_eq!(scheduler.rounds_finished(), 3);
    assert_eq!(scheduler.next_step(), SchedulerStep::ExecuteSequential);
    assert_eq!(
        scheduler.finish_round(&blank_hints(6), &success(6), &vec![1; 6]),
        Err(SchedulerError::InvariantViolation)
    );
    assert_eq!(scheduler.finish_sequential(&success(6)), Ok(()));
    assert_eq!(scheduler.next_step(), SchedulerStep::Finished);
    assert_eq!(scheduler.num_finality_txs(), 6);
    assert_eq!(scheduler.finalized_results(), &success(6));
}

#[test]
fn storage_error_stays_with_its_transaction() {
    let pairs: Vec<(u128, u128)> = (0..4).map(|i| (10 + i, 20 + i)).collect();
    let hints = transfers(&pairs);
    let mut scheduler = GrevmScheduler::new(coinbase(), 4, 2);
    assert_eq!(scheduler.init_dependencies(&hints), Ok(()));
    // transaction 2 could not read its account: error result, nothing written
    let mut observed_sets: Vec<(Vec<LocationAndType>, Vec<LocationAndType>)> = (0..4)
        .map(|i| (vec![basic(10 + i), basic(20 + i)], vec![basic(10 + i), basic(20 + i)]))
        .collect();
    observed_sets[2] = (vec![basic(12)], vec![]);
    let observed = hints_of(observed_sets);
    let mut results = success(4);
    results[2] = TxResult { status: TransactionStatus::Error, gas_used: 0 };
    assert_eq!(scheduler.finish_round(&observed, &results, &vec![1; 4]), Ok(4));
    assert_eq!(scheduler.next_step(), SchedulerStep::Finished);
    let kept = scheduler.finalized_results();
    assert_eq!(kept[2].status, TransactionStatus::Error);
    assert_eq!(kept[0].status, TransactionStatus::Success);
    assert_eq!(kept[1].status, TransactionStatus::Success);
    assert_eq!(kept[3].status, TransactionStatus::Success);
}

#[test]
fn results_of_final_transactions_do_not_change() {
    let mut scheduler = GrevmScheduler::new(coinbase(), 3, 3);
    assert_eq!(scheduler.init_dependencies(&blank_hints(3)), Ok(()));
    let observed = hints_of(vec![
        (vec![], vec![basic(1)]),
        (vec![basic(1)], vec![]),
        (vec![], vec![]),
    ]);
    let first = vec![
        TxResult { status: TransactionStatus::Success, gas_used: 1 },
        TxResult { status: TransactionStatus::Revert, gas_used: 2 },
        TxResult { status: TransactionStatus::Success, gas_used: 3 },
    ];
    assert_eq!(scheduler.finish_round(&observed, &first, &vec![1; 3]), Ok(1));
    assert_eq!(scheduler.finalized_results(), &first[..1].to_vec());
    // the second round reports other results for all three
    let second = vec![TxResult { status: TransactionStatus::Error, gas_used: 9 }; 3];
    assert_eq!(scheduler.finish_round(&observed, &second, &vec![1; 3]), Ok(2));
    assert_eq!(scheduler.num_finality_txs(), 3);
    let kept = scheduler.finalized_results();
    assert_eq!(kept[0], first[0]);
    assert_eq!(kept[1], second[1]);
    assert_eq!(kept[2], second[2]);
}

#[test]
fn a_transaction_behind_a_conflict_stays_pending() {
    let mut scheduler = GrevmScheduler::new(coinbase(), 3, 3);
    assert_eq!(scheduler.init_dependencies(&blank_hints(3)), Ok(()));
    // 1 reads from 0; 2 touches nothing that anyone wrote
    let observed = hints_of(vec![
        (vec![], vec![basic(1)]),
        (vec![basic(1)], vec![]),
        (vec![basic(5)], vec![basic(5)]),
    ]);
    assert_eq!(scheduler.finish_round(&observed, &success(3), &vec![1; 3]), Ok(1));
    assert_eq!(scheduler.num_finality_txs(), 1);
}

#[test]
fn reading_from_a_conflicted_transaction_of_the_same_partition() {
    // hints: 2 reads what 1 writes, so 1 and 2 share a partition
    let hints = hints_of(vec![
        (vec![], vec![]),
        (vec![], vec![basic(2)]),
        (vec![basic(2)], vec![]),
    ]);
    let mut scheduler = GrevmScheduler::new(coinbase(), 3, 2);
    assert_eq!(scheduler.init_dependencies(&hints), Ok(()));
    assert_eq!(scheduler.partitioned_txs(), &vec![vec![0], vec![1, 2]]);
    // observed: 1 also reads what 0 wrote
    let observed = hints_of(vec![
        (vec![], vec![basic(1)]),
        (vec![basic(1)], vec![basic(2)]),
        (vec![basic(2)], vec![]),
    ]);
    assert_eq!(scheduler.finish_round(&observed, &success(3), &vec![1; 3]), Ok(1));
    assert_eq!(scheduler.partitioned_txs(), &vec![vec![1, 2]]);
    assert_eq!(scheduler.finish_round(&observed, &success(3), &vec![1; 3]), Ok(2));
    assert_eq!(scheduler.next_step(), SchedulerStep::Finished);
}

#[test]
fn reading_within_the_partition_is_no_conflict() {
    let hints = transfers(&[(1, 2), (2, 3), (3, 4)]);
    let mut scheduler = GrevmScheduler::new(coinbase(), 3, 4);
    assert_eq!(scheduler.init_dependencies(&hints), Ok(()));
    assert_eq!(scheduler.partitioned_txs(), &vec![vec![0, 1, 2]]);
    assert_eq!(scheduler.finish_round(&hints, &success(3), &vec![1; 3]), Ok(3));
}

#[test]
fn without_hints_the_batch_runs_in_one_partition() {
    let mut scheduler = GrevmScheduler::new(coinbase(), 4, 4);
    assert_eq!(scheduler.partitioned_txs(), &vec![vec![0, 1, 2, 3]]);
    assert_eq!(scheduler.init_dependencies(&ParallelExecutionHints::new(vec![])), Ok(()));
    assert_eq!(scheduler.partitioned_txs(), &vec![vec![0, 1, 2, 3]]);
    assert_eq!(scheduler.tx_dependency().dependencies_at(0), Some(vec![]));
    assert_eq!(scheduler.tx_dependency().dependencies_at(3), Some(vec![2]));
}

#[test]
fn hints_for_another_batch_are_refused() {
    let mut scheduler = GrevmScheduler::new(coinbase(), 4, 4);
    assert_eq!(
        scheduler.init_dependencies(&blank_hints(3)),
        Err(SchedulerError::InvariantViolation)
    );
    assert_eq!(scheduler.partitioned_txs(), &vec![vec![0, 1, 2, 3]]);
}

#[test]
fn hints_after_a_round_are_refused() {
    let mut scheduler = GrevmScheduler::new(coinbase(), 2, 2);
    assert_eq!(scheduler.init_dependencies(&blank_hints(2)), Ok(()));
    let observed = hints_of(vec![(vec![], vec![basic(1)]), (vec![basic(1)], vec![])]);
    assert_eq!(scheduler.finish_round(&observed, &success(2), &vec![1; 2]), Ok(1));
    assert_eq!(
        scheduler.init_dependencies(&blank_hints(2)),
        Err(SchedulerError::InvariantViolation)
    );
    assert_eq!(scheduler.num_finality_txs(), 1);
}

#[test]
fn round_output_of_the_wrong_size_is_refused() {
    let mut scheduler = GrevmScheduler::new(coinbase(), 3, 2);
    assert_eq!(scheduler.init_dependencies(&blank_hints(3)), Ok(()));
    let err = Err(SchedulerError::InvariantViolation);
    assert_eq!(scheduler.finish_round(&blank_hints(2), &success(3), &vec![1; 3]), err);
    assert_eq!(scheduler.finish_round(&blank_hints(3), &success(4), &vec![1; 3]), err);
    assert_eq!(scheduler.finish_round(&blank_hints(3), &success(3), &vec![1; 2]), err);
    assert_eq!(scheduler.num_finality_txs(), 0);
    assert_eq!(scheduler.rounds_finished(), 0);
    assert_eq!(scheduler.finish_sequential(&success(3)), Err(SchedulerError::InvariantViolation));
    assert_eq!(scheduler.finish_round(&blank_hints(3), &success(3), &vec![1; 3]), Ok(3));
    assert_eq!(scheduler.finish_round(&blank_hints(3), &success(3), &vec![1; 3]), err);
    assert_eq!(scheduler.finish_sequential(&success(3)), Err(SchedulerError::InvariantViolation));
}

#[test]
fn empty_batch_is_finished_at_once() {
    let mut scheduler = GrevmScheduler::new(coinbase(), 0, 4);
    assert_eq!(scheduler.next_step(), SchedulerStep::Finished);
    assert_eq!(scheduler.init_dependencies(&blank_hints(0)), Ok(()));
    assert_eq!(scheduler.next_step(), SchedulerStep::Finished);
    assert!(scheduler.partitioned_txs().is_empty());
    assert_eq!(scheduler.num_transactions(), 0);
    assert_eq!(scheduler.coinbase(), coinbase());
}

#[test]
fn chunks_that_hold_their_own_chains_are_final_at_once() {
    let mut scheduler = GrevmScheduler::new(coinbase(), 6, 2);
    assert_eq!(scheduler.init_dependencies(&blank_hints(6)), Ok(()));
    assert_eq!(scheduler.partitioned_txs(), &vec![vec![0, 1, 2], vec![3, 4, 5]]);
    // 1 reads from 0 and 2 from 1 in the first partition, 4 from 3 in the second
    let observed = hints_of(vec![
        (vec![], vec![basic(1)]),
        (vec![basic(1)], vec![basic(2)]),
        (vec![basic(2)], vec![]),
        (vec![], vec![basic(3)]),
        (vec![basic(3)], vec![]),
        (vec![], vec![]),
    ]);
    assert_eq!(scheduler.finish_round(&observed, &success(6), &vec![5, 1, 1, 7, 7, 2]), Ok(6));
    assert_eq!(scheduler.next_step(), SchedulerStep::Finished);
}

#[test]
fn heavier_group_is_placed_first_in_the_next_round() {
    let mut scheduler = GrevmScheduler::new(coinbase(), 6, 6);
    assert_eq!(scheduler.init_dependencies(&blank_hints(6)), Ok(()));
    // 1 reads from 0 (conflict); 3 reads from 2; 5 reads from 4
    let observed = hints_of(vec![
        (vec![], vec![basic(1)]),
        (vec![basic(1)], vec![]),
        (vec![], vec![basic(2)]),
        (vec![basic(2)], vec![]),
        (vec![], vec![basic(3)]),
        (vec![basic(3)], vec![]),
    ]);
    assert_eq!(
        scheduler.finish_round(&observed, &success(6), &vec![1, 1, 10, 10, 1, 1]),
        Ok(1)
    );
    // pending: single 1 (partition 0, load 1), group {2,3} weight 20, group {4,5} weight 2;
    // three groups, so three partitions are in use
    assert_eq!(scheduler.partitioned_txs(), &vec![vec![1], vec![2, 3], vec![4, 5]]);
}

#[test]
fn merge_and_validate_step_by_step() {
    let mut scheduler = GrevmScheduler::new(coinbase(), 3, 3);
    assert_eq!(scheduler.init_dependencies(&blank_hints(3)), Ok(()));
    let observed = hints_of(vec![
        (vec![], vec![slot(7, 1)]),
        (vec![], vec![]),
        (vec![slot(7, 1)], vec![]),
    ]);
    scheduler.merge_write_set(&observed);
    assert_eq!(scheduler.validate_transactions(&observed), Some(2));
    assert_eq!(scheduler.validate_transactions(&blank_hints(2)), None);
    assert_eq!(scheduler.num_finality_txs(), 0);
}

#[test]
fn merged_write_set_lists_writers_in_order() {
    let observed = hints_of(vec![
        (vec![], vec![basic(1)]),
        (vec![], vec![basic(1), basic(2), basic(1)]),
        (vec![], vec![]),
        (vec![], vec![basic(1)]),
    ]);
    let merged = MergedWriteSet::merge(&observed, 1);
    assert_eq!(merged.writers_of(basic(1)), vec![1, 3]);
    assert_eq!(merged.writers_of(basic(2)), vec![1]);
    assert_eq!(merged.writers_of(basic(3)), Vec::<usize>::new());
    let mut set = MergedWriteSet::new();
    set.record(basic(1), 4);
    set.record(basic(1), 4);
    set.record(basic(1), 6);
    assert_eq!(set.writers_of(basic(1)), vec![4, 6]);
    assert!(!set.written_elsewhere_before(basic(1), 5, &vec![0, 0, 1], 4));
    assert!(set.written_elsewhere_before(basic(1), 6, &vec![0, 0, 1], 4));
}

#[test]
fn conflict_free_prefix_counts_up_to_the_first_conflict() {
    let observed = hints_of(vec![
        (vec![], vec![basic(1)]),
        (vec![basic(1)], vec![basic(2)]),
        (vec![basic(2)], vec![]),
        (vec![basic(1)], vec![]),
    ]);
    let merged = MergedWriteSet::merge(&observed, 0);
    let together = vec![vec![0, 1, 2, 3]];
    assert_eq!(count_conflict_free(&observed, &merged, &together, 0), 4);
    let split = vec![vec![0, 1, 2], vec![3]];
    assert_eq!(count_conflict_free(&observed, &merged, &split, 0), 3);
    let apart = vec![vec![0, 2], vec![1, 3]];
    assert_eq!(count_conflict_free(&observed, &merged, &apart, 0), 1);
    // writers before the round do not count
    let merged = MergedWriteSet::merge(&observed, 1);
    let tail = vec![vec![1], vec![2], vec![3]];
    assert_eq!(count_conflict_free(&observed, &merged, &tail, 1), 1);
    let tail = vec![vec![1, 2], vec![3]];
    assert_eq!(count_conflict_free(&observed, &merged, &tail, 1), 3);
}

#[test]
fn error_message_names_the_violation() {
    assert_eq!(
        SchedulerError::InvariantViolation.message(),
        "invariant violation: batch and scheduler state do not fit together"
    );
}
