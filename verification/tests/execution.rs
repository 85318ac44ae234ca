use grevm::hint::{ExecutionHint, ParallelExecutionHints};
use grevm::location::{Address, LocationAndType};
use grevm::scheduler::{GrevmScheduler, SchedulerStep, TransactionStatus, TxResult};
use grevm::state_view::{CommittedState, SpeculativeLayer};

const INITIAL_BALANCE: u64 = 100;

#[derive(Clone, Copy)]
struct Transfer {
    from: u128,
    to: u128,
    amount: u64,
}

struct Outcome {
    result: TxResult,
    writes: Vec<(LocationAndType, u64)>,
    sets: ExecutionHint,
}

fn basic(n: u128) -> LocationAndType {
    LocationAndType::Basic(Address { high: 0, low: n })
}

/// The database: every account starts with the same balance; reads of the
/// failing account end in an error.
fn database(account: u128, failing: Option<u128>) -> Result<u64, ()> {
    if Some(account) == failing {
        Err(())
    } else {
        Ok(INITIAL_BALANCE)
    }
}

fn balance(
    layer: &mut SpeculativeLayer<u64>,
    committed: &CommittedState<u64>,
    account: u128,
    failing: Option<u128>,
) -> Result<u64, ()> {
    match layer.read(committed, basic(account)) {
        Some(value) => Ok(*value),
        None => database(account, failing),
    }
}

/// A toy interpreter: moves `amount` from one balance to another.
fn execute(
    tx: &Transfer,
    layer: &mut SpeculativeLayer<u64>,
    committed: &CommittedState<u64>,
    failing: Option<u128>,
) -> Outcome {
    let mut writes = Vec::new();
    let balances = balance(layer, committed, tx.from, failing)
        .and_then(|from| balance(layer, committed, tx.to, failing).map(|to| (from, to)));
    let status = match balances {
        Err(()) => TransactionStatus::Error,
        Ok((from, _)) if from < tx.amount => TransactionStatus::Revert,
        Ok((from, to)) => {
            layer.write(basic(tx.from), from - tx.amount);
            layer.write(basic(tx.to), to + tx.amount);
            writes.push((basic(tx.from), from - tx.amount));
            writes.push((basic(tx.to), to + tx.amount));
            TransactionStatus::Success
        }
    };
    let gas_used = if status == TransactionStatus::Error { 0 } else { 21_000 };
    Outcome { result: TxResult { status, gas_used }, writes, sets: layer.finish_transaction() }
}

struct Batch {
    results: Vec<TxResult>,
    state: CommittedState<u64>,
    rounds: usize,
    finalized_per_round: Vec<usize>,
    ran_sequential: bool,
}

fn sequential_execute(txs: &[Transfer], failing: Option<u128>) -> Batch {
    let mut state = CommittedState::new();
    let mut results = Vec::new();
    for tx in txs {
        let mut layer = SpeculativeLayer::new();
        let outcome = execute(tx, &mut layer, &state, failing);
        state.commit(outcome.writes);
        results.push(outcome.result);
    }
    Batch { results, state, rounds: 0, finalized_per_round: Vec::new(), ran_sequential: true }
}

fn blank_result() -> TxResult {
    TxResult { status: TransactionStatus::Error, gas_used: 0 }
}

fn parallel_execute(
    txs: &[Transfer],
    hints: &ParallelExecutionHints,
    partitions: usize,
    failing: Option<u128>,
) -> Batch {
    let n = txs.len();
    let coinbase = Address { high: 0, low: 999 };
    let mut scheduler = GrevmScheduler::new(coinbase, n, partitions);
    assert_eq!(scheduler.init_dependencies(hints), Ok(()));
    let mut state = CommittedState::new();
    let mut finalized_per_round = Vec::new();
    let mut ran_sequential = false;
    loop {
        match scheduler.next_step() {
            SchedulerStep::ExecuteRound => {
                let mut outcomes: Vec<Option<Outcome>> = (0..n).map(|_| None).collect();
                for partition in scheduler.partitioned_txs() {
                    let mut layer = SpeculativeLayer::new();
                    for tx in partition {
                        outcomes[*tx] = Some(execute(&txs[*tx], &mut layer, &state, failing));
                    }
                }
                let mut sets = Vec::new();
                let mut results = Vec::new();
                let mut writes = Vec::new();
                for outcome in outcomes {
                    match outcome {
                        Some(o) => {
                            sets.push(o.sets);
                            results.push(o.result);
                            writes.push(o.writes);
                        }
                        None => {
                            sets.push(ExecutionHint::new(vec![], vec![]));
                            results.push(blank_result());
                            writes.push(vec![]);
                        }
                    }
                }
                let before = scheduler.num_finality_txs();
                let observed = ParallelExecutionHints::new(sets);
                let delta = scheduler.finish_round(&observed, &results, &vec![1; n]).unwrap();
                for tx in before..before + delta {
                    state.commit(writes[tx].clone());
                }
                finalized_per_round.push(delta);
            }
            SchedulerStep::ExecuteSequential => {
                let mut results: Vec<TxResult> = (0..n).map(|_| blank_result()).collect();
                for tx in scheduler.num_finality_txs()..n {
                    let mut layer = SpeculativeLayer::new();
                    let outcome = execute(&txs[tx], &mut layer, &state, failing);
                    state.commit(outcome.writes);
                    results[tx] = outcome.result;
                }
                assert_eq!(scheduler.finish_sequential(&results), Ok(()));
                ran_sequential = true;
            }
            SchedulerStep::Finished => break,
        }
    }
    Batch {
        results: scheduler.finalized_results().clone(),
        state,
        rounds: scheduler.rounds_finished(),
        finalized_per_round,
        ran_sequential,
    }
}

fn balance_of(batch: &Batch, account: u128) -> u64 {
    batch.state.get(basic(account)).copied().unwrap_or(INITIAL_BALANCE)
}

fn transfer_hints(txs: &[Transfer]) -> ParallelExecutionHints {
    ParallelExecutionHints::new(
        txs.iter()
            .map(|tx| {
                ExecutionHint::transfer(
                    Address { high: 0, low: tx.from },
                    Address { high: 0, low: tx.to },
                )
            })
            .collect(),
    )
}

fn blank_hints(n: usize) -> ParallelExecutionHints {
    ParallelExecutionHints::new((0..n).map(|_| ExecutionHint::new(vec![], vec![])).collect())
}

fn assert_same_as_sequential(txs: &[Transfer], parallel: &Batch, failing: Option<u128>, accounts: &[u128]) {
    let sequential = sequential_execute(txs, failing);
    assert_eq!(parallel.results, sequential.results);
    for account in accounts {
        assert_eq!(balance_of(parallel, *account), balance_of(&sequential, *account));
    }
}

#[test]
fn independent_transfers_move_one_wei_each() {
    let txs: Vec<Transfer> = (0..8).map(|i| Transfer { from: i, to: i + 100, amount: 1 }).collect();
    let batch = parallel_execute(&txs, &transfer_hints(&txs), 4, None);
    assert_eq!(batch.rounds, 1);
    assert_eq!(batch.finalized_per_round, vec![8]);
    assert!(!batch.ran_sequential);
    for i in 0..8 {
        assert_eq!(balance_of(&batch, i), 99);
        assert_eq!(balance_of(&batch, i + 100), 101);
    }
    assert!(batch.results.iter().all(|r| r.status == TransactionStatus::Success));
    let accounts: Vec<u128> = (0..8).chain(100..108).collect();
    assert_same_as_sequential(&txs, &batch, None, &accounts);
}

#[test]
fn chain_of_transfers_without_hints_needs_a_second_round() {
    let txs: Vec<Transfer> = (0..5).map(|i| Transfer { from: i, to: i + 1, amount: 1 }).collect();
    let batch = parallel_execute(&txs, &blank_hints(5), 5, None);
    assert_eq!(batch.finalized_per_round, vec![1, 4]);
    assert_eq!(batch.rounds, 2);
    assert_eq!(balance_of(&batch, 0), 99);
    for i in 1..5 {
        assert_eq!(balance_of(&batch, i), 100);
    }
    assert_eq!(balance_of(&batch, 5), 101);
    assert_same_as_sequential(&txs, &batch, None, &[0, 1, 2, 3, 4, 5]);
}

#[test]
fn chain_of_transfers_with_hints_runs_in_one_partition() {
    let txs: Vec<Transfer> = (0..5).map(|i| Transfer { from: i, to: i + 1, amount: 1 }).collect();
    let batch = parallel_execute(&txs, &transfer_hints(&txs), 4, None);
    assert_eq!(batch.finalized_per_round, vec![5]);
    assert_same_as_sequential(&txs, &batch, None, &[0, 1, 2, 3, 4, 5]);
}

#[test]
fn two_clusters_finish_in_one_round() {
    let mut txs: Vec<Transfer> = (0..5).map(|_| Transfer { from: 1, to: 2, amount: 3 }).collect();
    txs.extend((0..5).map(|_| Transfer { from: 11, to: 12, amount: 7 }));
    let batch = parallel_execute(&txs, &transfer_hints(&txs), 2, None);
    assert_eq!(batch.finalized_per_round, vec![10]);
    assert_eq!(balance_of(&batch, 1), 85);
    assert_eq!(balance_of(&batch, 2), 115);
    assert_eq!(balance_of(&batch, 11), 65);
    assert_eq!(balance_of(&batch, 12), 135);
    assert_same_as_sequential(&txs, &batch, None, &[1, 2, 11, 12]);
}

#[test]
fn missed_dependency_is_repaired_in_the_next_round() {
    // 0 pays 2, 1 is unrelated, 2 pays on from what it got; the hints know nothing
    let txs = vec![
        Transfer { from: 1, to: 2, amount: 100 },
        Transfer { from: 5, to: 6, amount: 1 },
        Transfer { from: 2, to: 3, amount: 150 },
    ];
    let batch = parallel_execute(&txs, &blank_hints(3), 3, None);
    assert_eq!(batch.finalized_per_round, vec![2, 1]);
    // run alone, transaction 2 would have reverted; in order it succeeds
    assert_eq!(batch.results[2].status, TransactionStatus::Success);
    assert_eq!(balance_of(&batch, 1), 0);
    assert_eq!(balance_of(&batch, 2), 50);
    assert_eq!(balance_of(&batch, 3), 250);
    assert_same_as_sequential(&txs, &batch, None, &[1, 2, 3, 5, 6]);
}

#[test]
fn wrong_hints_do_not_change_the_outcome() {
    let txs: Vec<Transfer> = vec![
        Transfer { from: 1, to: 2, amount: 60 },
        Transfer { from: 1, to: 3, amount: 60 },
        Transfer { from: 2, to: 1, amount: 30 },
        Transfer { from: 1, to: 3, amount: 60 },
        Transfer { from: 3, to: 4, amount: 500 },
        Transfer { from: 4, to: 1, amount: 10 },
    ];
    // hints that speak of other accounts altogether
    let misleading: Vec<Transfer> =
        (0..6).map(|i| Transfer { from: 50 + (i % 2), to: 60 + i, amount: 1 }).collect();
    for partitions in 1..7 {
        for hints in [transfer_hints(&txs), transfer_hints(&misleading), blank_hints(6)] {
            let batch = parallel_execute(&txs, &hints, partitions, None);
            assert_same_as_sequential(&txs, &batch, None, &[1, 2, 3, 4]);
        }
    }
    let sequential = sequential_execute(&txs, None);
    let statuses: Vec<TransactionStatus> = sequential.results.iter().map(|r| r.status).collect();
    assert_eq!(
        statuses,
        vec![
            TransactionStatus::Success,
            TransactionStatus::Revert,
            TransactionStatus::Success,
            TransactionStatus::Success,
            TransactionStatus::Revert,
            TransactionStatus::Success,
        ]
    );
}

#[test]
fn storage_error_fails_one_transaction_only() {
    let txs: Vec<Transfer> = vec![
        Transfer { from: 1, to: 2, amount: 1 },
        Transfer { from: 3, to: 4, amount: 1 },
        Transfer { from: 7, to: 5, amount: 1 },
        Transfer { from: 5, to: 6, amount: 1 },
    ];
    let batch = parallel_execute(&txs, &transfer_hints(&txs), 4, Some(7));
    assert_eq!(batch.results[2], TxResult { status: TransactionStatus::Error, gas_used: 0 });
    for i in [0, 1, 3] {
        assert_eq!(batch.results[i].status, TransactionStatus::Success);
    }
    assert_eq!(balance_of(&batch, 5), 99);
    assert_eq!(balance_of(&batch, 6), 101);
    assert_eq!(batch.state.get(basic(7)), None);
    assert_same_as_sequential(&txs, &batch, Some(7), &[1, 2, 3, 4, 5, 6]);
}

#[test]
fn hidden_chain_falls_back_to_sequential_execution() {
    // every transfer can only pay with what the one before it paid in: run
    // side by side all but the first revert and write nothing, so that each
    // round learns of one more dependency only and makes one transaction final
    let txs: Vec<Transfer> =
        (0..6).map(|i| Transfer { from: i, to: i + 1, amount: 100 + i as u64 }).collect();
    let batch = parallel_execute(&txs, &blank_hints(6), 6, None);
    assert_eq!(batch.finalized_per_round, vec![1, 1, 1]);
    assert_eq!(batch.rounds, 3);
    assert!(batch.ran_sequential);
    assert!(batch.results.iter().all(|r| r.status == TransactionStatus::Success));
    assert_eq!(balance_of(&batch, 0), 0);
    assert_eq!(balance_of(&batch, 3), 99);
    assert_eq!(balance_of(&batch, 6), 205);
    assert_same_as_sequential(&txs, &batch, None, &[0, 1, 2, 3, 4, 5, 6]);
}
