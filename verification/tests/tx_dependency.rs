use grevm::dependent_txs::DependentTxsVec;
use grevm::error::SchedulerError;
use grevm::hint::{ExecutionHint, ParallelExecutionHints};
use grevm::location::{Address, LocationAndType, U256};
use grevm::tx_dependency::{generate_tx_dependency, TxDependency};

fn addr(n: u128) -> Address {
    Address { high: 0, low: n }
}

fn transfer_hints(pairs: &[(u128, u128)]) -> ParallelExecutionHints {
    let mut hints = Vec::new();
    for (from, to) in pairs {
        hints.push(ExecutionHint::transfer(addr(*from), addr(*to)));
    }
    ParallelExecutionHints::new(hints)
}

#[test]
fn independent_transfers_split_into_even_chunks() {
    let pairs: Vec<(u128, u128)> = (0..8).map(|i| (1000 + i, 1100 + i)).collect();
    let hints = transfer_hints(&pairs);
    let mut dep = TxDependency::new(&hints);
    assert!(dep.is_all_independent());
    let parts = dep.fetch_best_partitions(4);
    assert_eq!(parts, vec![vec![0, 1], vec![2, 3], vec![4, 5], vec![6, 7]]);
}

#[test]
fn uneven_chunks_put_the_larger_first() {
    let pairs: Vec<(u128, u128)> = (0..7).map(|i| (1000 + i, 1100 + i)).collect();
    let hints = transfer_hints(&pairs);
    let mut dep = TxDependency::new(&hints);
    let parts = dep.fetch_best_partitions(3);
    assert_eq!(parts, vec![vec![0, 1, 2], vec![3, 4], vec![5, 6]]);
}

#[test]
fn more_partitions_than_transactions() {
    let hints = transfer_hints(&[(1, 2), (3, 4)]);
    let mut dep = TxDependency::new(&hints);
    let parts = dep.fetch_best_partitions(8);
    assert_eq!(parts, vec![vec![0], vec![1]]);
}

#[test]
fn empty_batch_has_no_partitions() {
    let hints = ParallelExecutionHints::new(Vec::new());
    let mut dep = TxDependency::new(&hints);
    assert_eq!(dep.num_pending_txs(), 0);
    let parts = dep.fetch_best_partitions(4);
    assert!(parts.is_empty());
}

#[test]
fn chain_of_transfers_depends_on_the_previous_writer() {
    // every transfer goes from account i to account i + 1
    let pairs: Vec<(u128, u128)> = (0..5).map(|i| (i, i + 1)).collect();
    let hints = transfer_hints(&pairs);
    let (deps, independent) = generate_tx_dependency(&hints);
    assert!(!independent);
    assert_eq!(deps[0].to_vec(), Vec::<usize>::new());
    assert_eq!(deps[1].to_vec(), vec![0]);
    assert_eq!(deps[2].to_vec(), vec![1]);
    assert_eq!(deps[3].to_vec(), vec![2]);
    assert_eq!(deps[4].to_vec(), vec![3]);
    let mut dep = TxDependency::new(&hints);
    let parts = dep.fetch_best_partitions(4);
    assert_eq!(parts, vec![vec![0, 1, 2, 3, 4]]);
}

#[test]
fn nearest_writer_wins_over_earlier_writers() {
    let a = LocationAndType::Storage(addr(7), U256 { high: 0, low: 1 });
    let hints = ParallelExecutionHints::new(vec![
        ExecutionHint::new(vec![], vec![a]),
        ExecutionHint::new(vec![], vec![a]),
        ExecutionHint::new(vec![], vec![]),
        ExecutionHint::new(vec![a], vec![]),
    ]);
    let (deps, independent) = generate_tx_dependency(&hints);
    assert!(!independent);
    assert_eq!(deps[3].to_vec(), vec![1]);
    assert!(deps[0].is_empty() && deps[1].is_empty() && deps[2].is_empty());
}

#[test]
fn a_transaction_does_not_depend_on_itself() {
    let a = LocationAndType::Basic(addr(7));
    let hints = ParallelExecutionHints::new(vec![ExecutionHint::new(vec![a], vec![a])]);
    let (deps, independent) = generate_tx_dependency(&hints);
    assert!(independent);
    assert!(deps[0].is_empty());
}

#[test]
fn locations_of_different_kind_do_not_collide() {
    let basic = LocationAndType::Basic(addr(7));
    let code = LocationAndType::Code(addr(7));
    let slot = LocationAndType::Storage(addr(7), U256 { high: 0, low: 0 });
    let hints = ParallelExecutionHints::new(vec![
        ExecutionHint::new(vec![], vec![basic]),
        ExecutionHint::new(vec![code, slot], vec![]),
    ]);
    let (_, independent) = generate_tx_dependency(&hints);
    assert!(independent);
}

#[test]
fn two_clusters_land_in_two_partitions() {
    // 0..5 chain over accounts 0..6, 5..10 chain over accounts 100..106
    let mut pairs: Vec<(u128, u128)> = (0..5).map(|i| (i, i + 1)).collect();
    pairs.extend((0..5).map(|i| (100 + i, 101 + i)));
    let hints = transfer_hints(&pairs);
    let mut dep = TxDependency::new(&hints);
    let parts = dep.fetch_best_partitions(2);
    assert_eq!(parts, vec![vec![5, 6, 7, 8, 9], vec![0, 1, 2, 3, 4]]);
}

#[test]
fn singles_are_dealt_out_in_turn_latest_first() {
    // 0 and 1 are linked; 2, 3, 4, 5 are single
    let hints = transfer_hints(&[(1, 2), (2, 3), (10, 11), (12, 13), (14, 15), (16, 17)]);
    let mut dep = TxDependency::new(&hints);
    let parts = dep.fetch_best_partitions(2);
    // singles 5, 4, 3, 2 go to partitions 0, 1, 0, 1; the group goes to
    // the first of the two equally loaded partitions
    assert_eq!(parts, vec![vec![0, 1, 3, 5], vec![2, 4]]);
}

#[test]
fn heavy_groups_go_to_the_lightest_partition() {
    // groups: {0,1,2} weight 3, {3,4} weight 2, {5,6} weight 2
    let hints = transfer_hints(&[
        (1, 2),
        (2, 3),
        (3, 4),
        (10, 11),
        (11, 12),
        (20, 21),
        (21, 22),
    ]);
    let mut dep = TxDependency::new(&hints);
    let parts = dep.fetch_best_partitions(2);
    // {0,1,2} to partition 0; {5,6} (later of the equal weights) to 1; {3,4} to 1
    assert_eq!(parts, vec![vec![0, 1, 2], vec![3, 4, 5, 6]]);
}

#[test]
fn weights_decide_the_order_of_groups() {
    let hints = transfer_hints(&[(1, 2), (2, 3), (10, 11), (11, 12), (20, 21)]);
    let mut dep = TxDependency::new(&hints);
    assert_eq!(dep.set_tx_weight(vec![1, 1, 10, 10, 5]), Ok(()));
    let parts = dep.fetch_best_partitions(2);
    // single 4 to partition 0 (load 1); group {2,3} weight 20 to partition 1;
    // group {0,1} weight 2 to partition 0
    assert_eq!(parts, vec![vec![0, 1, 4], vec![2, 3]]);
}

#[test]
fn weights_of_the_wrong_length_are_refused() {
    let hints = transfer_hints(&[(1, 2), (2, 3)]);
    let mut dep = TxDependency::new(&hints);
    assert_eq!(dep.set_tx_weight(vec![1]), Err(SchedulerError::InvariantViolation));
    assert_eq!(dep.set_running_time(vec![1, 2, 3]), Err(SchedulerError::InvariantViolation));
    assert_eq!(dep.set_running_time(vec![4, 5]), Ok(()));
}

#[test]
fn update_keeps_the_batch_size() {
    let hints = transfer_hints(&[(1, 2), (2, 3), (3, 4)]);
    let mut dep = TxDependency::new(&hints);
    let tail = vec![DependentTxsVec::from_vec(&vec![]), DependentTxsVec::from_vec(&vec![1])];
    assert_eq!(dep.update_tx_dependency(tail, 1), Ok(()));
    assert_eq!(dep.num_finality_txs(), 1);
    assert_eq!(dep.num_pending_txs(), 2);
    assert_eq!(dep.dependencies_at(1), Some(vec![1]));
    assert_eq!(dep.dependencies_at(2), None);
    let parts = dep.fetch_best_partitions(4);
    assert_eq!(parts, vec![vec![1, 2]]);
}

#[test]
fn update_with_another_size_is_an_invariant_violation() {
    let hints = transfer_hints(&[(1, 2), (2, 3), (3, 4)]);
    let mut dep = TxDependency::new(&hints);
    let tail = vec![DependentTxsVec::new()];
    assert_eq!(dep.update_tx_dependency(tail, 1), Err(SchedulerError::InvariantViolation));
    assert_eq!(dep.num_finality_txs(), 0);
    assert_eq!(dep.num_pending_txs(), 3);
    let tail = vec![DependentTxsVec::new()];
    assert_eq!(dep.update_tx_dependency(tail, 5), Err(SchedulerError::InvariantViolation));
}

#[test]
fn update_with_a_forward_edge_is_an_invariant_violation() {
    let hints = transfer_hints(&[(1, 2), (2, 3), (3, 4)]);
    let mut dep = TxDependency::new(&hints);
    let tail = vec![DependentTxsVec::from_vec(&vec![2]), DependentTxsVec::new()];
    assert_eq!(dep.update_tx_dependency(tail, 1), Err(SchedulerError::InvariantViolation));
    let tail = vec![DependentTxsVec::from_vec(&vec![1]), DependentTxsVec::new()];
    assert_eq!(dep.update_tx_dependency(tail, 1), Err(SchedulerError::InvariantViolation));
}

#[test]
fn dependencies_on_final_transactions_do_not_link() {
    let hints = transfer_hints(&[(1, 2), (2, 3), (3, 4)]);
    let mut dep = TxDependency::new(&hints);
    // both pending transactions depend on the final transaction 0 only
    let tail = vec![DependentTxsVec::from_vec(&vec![0]), DependentTxsVec::from_vec(&vec![0])];
    assert_eq!(dep.update_tx_dependency(tail, 1), Ok(()));
    let parts = dep.fetch_best_partitions(2);
    assert_eq!(parts, vec![vec![2], vec![1]]);
}

#[test]
fn clean_dependency_makes_all_independent() {
    let pairs: Vec<(u128, u128)> = (0..4).map(|i| (i, i + 1)).collect();
    let hints = transfer_hints(&pairs);
    let mut dep = TxDependency::new(&hints);
    assert!(!dep.is_all_independent());
    dep.clean_dependency();
    assert!(dep.is_all_independent());
    assert_eq!(dep.num_pending_txs(), 4);
    let parts = dep.fetch_best_partitions(2);
    assert_eq!(parts, vec![vec![0, 1], vec![2, 3]]);
}

#[test]
fn dependent_txs_round_trip() {
    let mut v = DependentTxsVec::new();
    assert!(v.is_empty());
    v.push(4);
    v.push(9);
    assert_eq!(v.len(), 2);
    assert_eq!(v.get(0), 4);
    assert_eq!(v.try_get(1), Some(9));
    assert_eq!(v.try_get(2), None);
    assert_eq!(v.to_vec(), vec![4, 9]);
    assert_eq!(DependentTxsVec::from_vec(&vec![3, 1, 2]).to_vec(), vec![3, 1, 2]);
}
