//! Why a validated round gives the results of sequential execution.
//!
//! The interpreter is taken as a function from a transaction and the state
//! that it sees to what it reads, writes and returns, whose outcome depends
//! on the values of the locations that it reads only. On that footing the
//! transactions that a round makes final have, each in its own partition,
//! the effects that they have when the whole batch runs in order.

use crate::hint::ExecutionHint;
use crate::location::LocationAndType;
use crate::scheduler::TxResult;
use crate::state_view::value_after;
use crate::validate::{conflicted, is_conflict_free_prefix, reads_from, same_partition};
use vstd::prelude::*;

verus! {

/// What the execution of a transaction does: the locations that it reads,
/// the values that it writes, in order, and its result.
pub struct TxEffect<V> {
    pub reads: Set<LocationAndType>,
    pub writes: Seq<(LocationAndType, V)>,
    pub result: TxResult,
}

/// The value of `loc` in a state held as the map of the locations written
/// so far; `None` stands for the value of the database.
pub open spec fn lookup<V>(store: Map<LocationAndType, V>, loc: LocationAndType) -> Option<V> {
    if store.contains_key(loc) {
        Some(store[loc])
    } else {
        None
    }
}

/// The two states show the same value at every location of `locs`.
pub open spec fn agree_on<V>(
    a: Map<LocationAndType, V>,
    b: Map<LocationAndType, V>,
    locs: Set<LocationAndType>,
) -> bool {
    forall|loc: LocationAndType| locs.contains(loc) ==> #[trigger] lookup(a, loc) == lookup(b, loc)
}

/// The interpreter looks at the state through its reads only: on two
/// states that agree on what a transaction reads in the first, it does the same.
pub open spec fn reads_locally<V>(
    interp: spec_fn(int, Map<LocationAndType, V>) -> TxEffect<V>,
) -> bool {
    forall|t: int, a: Map<LocationAndType, V>, b: Map<LocationAndType, V>| #[trigger]
        agree_on(a, b, interp(t, a).reads) ==> interp(t, a) == interp(t, b)
}

/// The state after the writes are applied in order.
pub open spec fn apply_writes<V>(
    store: Map<LocationAndType, V>,
    writes: Seq<(LocationAndType, V)>,
) -> Map<LocationAndType, V>
    decreases writes.len(),
{
    if writes.len() == 0 {
        store
    } else {
        apply_writes(store, writes.drop_last()).insert(writes.last().0, writes.last().1)
    }
}

/// Some write of the sequence goes to `loc`.
pub open spec fn writes_to<V>(writes: Seq<(LocationAndType, V)>, loc: LocationAndType) -> bool {
    exists|i: int| 0 <= i < writes.len() && (#[trigger] writes[i]).0 == loc
}

/// The state before transaction `nf + k` when the batch runs in order from
/// the committed state.
pub open spec fn sequential_store<V>(
    interp: spec_fn(int, Map<LocationAndType, V>) -> TxEffect<V>,
    committed: Map<LocationAndType, V>,
    nf: int,
    k: int,
) -> Map<LocationAndType, V>
    decreases k,
{
    if k <= 0 {
        committed
    } else {
        let before = sequential_store(interp, committed, nf, k - 1);
        apply_writes(before, interp(nf + k - 1, before).writes)
    }
}

/// What transaction `t` does when the batch runs in order.
pub open spec fn sequential_effect<V>(
    interp: spec_fn(int, Map<LocationAndType, V>) -> TxEffect<V>,
    committed: Map<LocationAndType, V>,
    nf: int,
    t: int,
) -> TxEffect<V> {
    interp(t, sequential_store(interp, committed, nf, t - nf))
}

/// The state that transaction `t` sees in its partition once the
/// transactions of the partition below `w` have run: their writes, in
/// order, over the committed state.
pub open spec fn speculative_store<V>(
    interp: spec_fn(int, Map<LocationAndType, V>) -> TxEffect<V>,
    committed: Map<LocationAndType, V>,
    parts: Seq<Seq<usize>>,
    nf: int,
    t: int,
    w: int,
) -> Map<LocationAndType, V>
    decreases w - nf, 0int,
{
    if w <= nf {
        committed
    } else {
        let before = speculative_store(interp, committed, parts, nf, t, w - 1);
        if same_partition(parts, t, w - 1) {
            apply_writes(before, speculative_effect(interp, committed, parts, nf, w - 1).writes)
        } else {
            before
        }
    }
}

/// What transaction `t` does in the round, on the state of its partition.
pub open spec fn speculative_effect<V>(
    interp: spec_fn(int, Map<LocationAndType, V>) -> TxEffect<V>,
    committed: Map<LocationAndType, V>,
    parts: Seq<Seq<usize>>,
    nf: int,
    t: int,
) -> TxEffect<V>
    decreases t - nf, 1int,
{
    interp(t, speculative_store(interp, committed, parts, nf, t, t))
}

/// The observed sets hold what the transactions of the round did: every
/// location read is in the read set, every location written in the write set.
pub open spec fn observes<V>(
    observed: Seq<ExecutionHint>,
    interp: spec_fn(int, Map<LocationAndType, V>) -> TxEffect<V>,
    committed: Map<LocationAndType, V>,
    parts: Seq<Seq<usize>>,
    nf: int,
) -> bool {
    forall|t: int|
        nf <= t < observed.len() ==> covers(
            #[trigger] observed[t],
            speculative_effect(interp, committed, parts, nf, t),
        )
}

/// The sets hold every location that the effect reads and writes.
pub open spec fn covers<V>(sets: ExecutionHint, effect: TxEffect<V>) -> bool {
    &&& forall|loc: LocationAndType| effect.reads.contains(loc) ==> sets.read_set@.contains(loc)
    &&& forall|i: int|
        0 <= i < effect.writes.len() ==> sets.write_set@.contains((#[trigger] effect.writes[i]).0)
}

/// Writes that do not go to a location leave its value as it is, and the
/// same writes take states that agree at a location to states that agree there.
pub proof fn lemma_apply_writes_lookup<V>(
    a: Map<LocationAndType, V>,
    b: Map<LocationAndType, V>,
    writes: Seq<(LocationAndType, V)>,
    loc: LocationAndType,
)
    ensures
        !writes_to(writes, loc) ==> lookup(apply_writes(a, writes), loc) == lookup(a, loc),
        lookup(a, loc) == lookup(b, loc) ==> lookup(apply_writes(a, writes), loc) == lookup(
            apply_writes(b, writes),
            loc,
        ),
    decreases writes.len(),
{
    if writes.len() > 0 {
        let front = writes.drop_last();
        lemma_apply_writes_lookup(a, b, front, loc);
        if !writes_to(writes, loc) {
            assert(writes[writes.len() - 1].0 != loc);
            if writes_to(front, loc) {
                let i = choose|i: int| 0 <= i < front.len() && (#[trigger] front[i]).0 == loc;
                assert(writes[i].0 == loc);
            }
        }
    }
}

/// Below a transaction that the round makes final, the state of its
/// partition and the state of sequential execution show the same value at
/// every location that the transaction was observed to read.
proof fn lemma_stores_agree<V>(
    interp: spec_fn(int, Map<LocationAndType, V>) -> TxEffect<V>,
    committed: Map<LocationAndType, V>,
    observed: Seq<ExecutionHint>,
    parts: Seq<Seq<usize>>,
    nf: int,
    delta: int,
    t: int,
    w: int,
    loc: LocationAndType,
)
    requires
        0 <= nf,
        reads_locally(interp),
        observes(observed, interp, committed, parts, nf),
        is_conflict_free_prefix(observed, parts, nf, delta),
        nf <= w <= t < nf + delta,
        observed[t].read_set@.contains(loc),
    ensures
        lookup(speculative_store(interp, committed, parts, nf, t, w), loc) == lookup(
            sequential_store(interp, committed, nf, w - nf),
            loc,
        ),
    decreases t - nf, 0int, w - nf,
{
    if w > nf {
        lemma_stores_agree(interp, committed, observed, parts, nf, delta, t, w - 1, loc);
        lemma_final_effects_are_sequential(interp, committed, observed, parts, nf, delta, w - 1);
        let effect = speculative_effect(interp, committed, parts, nf, w - 1);
        let spec_before = speculative_store(interp, committed, parts, nf, t, w - 1);
        let seq_before = sequential_store(interp, committed, nf, w - 1 - nf);
        assert(sequential_effect(interp, committed, nf, w - 1) == interp(w - 1, seq_before));
        assert(sequential_store(interp, committed, nf, w - nf) == apply_writes(
            seq_before,
            effect.writes,
        ));
        if same_partition(parts, t, w - 1) {
            lemma_apply_writes_lookup(spec_before, seq_before, effect.writes, loc);
        } else {
            if writes_to(effect.writes, loc) {
                let i = choose|i: int| 0 <= i < effect.writes.len() && (#[trigger] effect.writes[i]).0 == loc;
                assert(covers(observed[w - 1], effect));
                assert(observed[w - 1].write_set@.contains(loc));
                let k = choose|k: int|
                    0 <= k < observed[t].read_set@.len() && observed[t].read_set@[k] == loc;
                assert(observed[w - 1].write_set@.contains(observed[t].read_set@[k]));
                assert(reads_from(observed, t, w - 1));
                assert(conflicted(observed, parts, nf, t));
            }
            lemma_apply_writes_lookup(seq_before, seq_before, effect.writes, loc);
        }
    }
}

/// A transaction that a round makes final does in its partition what it
/// does when the whole batch runs in order: it reads the same values,
/// writes the same values and has the same result. This holds for an
/// interpreter that looks at the state through its reads only, and where
/// the observed sets hold everything that the transactions read and wrote.
pub proof fn lemma_final_effects_are_sequential<V>(
    interp: spec_fn(int, Map<LocationAndType, V>) -> TxEffect<V>,
    committed: Map<LocationAndType, V>,
    observed: Seq<ExecutionHint>,
    parts: Seq<Seq<usize>>,
    nf: int,
    delta: int,
    t: int,
)
    requires
        0 <= nf,
        reads_locally(interp),
        observes(observed, interp, committed, parts, nf),
        is_conflict_free_prefix(observed, parts, nf, delta),
        nf <= t < nf + delta,
    ensures
        speculative_effect(interp, committed, parts, nf, t) == sequential_effect(
            interp,
            committed,
            nf,
            t,
        ),
    decreases t - nf, 1int, 0int,
{
    let a = speculative_store(interp, committed, parts, nf, t, t);
    let b = sequential_store(interp, committed, nf, t - nf);
    let effect = speculative_effect(interp, committed, parts, nf, t);
    assert(effect == interp(t, a));
    assert forall|loc: LocationAndType| interp(t, a).reads.contains(loc) implies #[trigger] lookup(
        a,
        loc,
    ) == lookup(b, loc) by {
        assert(covers(observed[t], effect));
        lemma_stores_agree(interp, committed, observed, parts, nf, delta, t, t, loc);
    }
    assert(agree_on(a, b, interp(t, a).reads));
}

/// The committed state once the first `k` pending transactions are made
/// final: their writes of the round, applied in batch order.
pub open spec fn committed_after<V>(
    interp: spec_fn(int, Map<LocationAndType, V>) -> TxEffect<V>,
    committed: Map<LocationAndType, V>,
    parts: Seq<Seq<usize>>,
    nf: int,
    k: int,
) -> Map<LocationAndType, V>
    decreases k,
{
    if k <= 0 {
        committed
    } else {
        apply_writes(
            committed_after(interp, committed, parts, nf, k - 1),
            speculative_effect(interp, committed, parts, nf, nf + k - 1).writes,
        )
    }
}

/// Committing the transactions that a round makes final leaves the state
/// that sequential execution of these transactions leaves.
pub proof fn lemma_commit_is_sequential<V>(
    interp: spec_fn(int, Map<LocationAndType, V>) -> TxEffect<V>,
    committed: Map<LocationAndType, V>,
    observed: Seq<ExecutionHint>,
    parts: Seq<Seq<usize>>,
    nf: int,
    delta: int,
    k: int,
)
    requires
        0 <= nf,
        reads_locally(interp),
        observes(observed, interp, committed, parts, nf),
        is_conflict_free_prefix(observed, parts, nf, delta),
        0 <= k <= delta,
    ensures
        committed_after(interp, committed, parts, nf, k) == sequential_store(
            interp,
            committed,
            nf,
            k,
        ),
    decreases k,
{
    if k > 0 {
        lemma_commit_is_sequential(interp, committed, observed, parts, nf, delta, k - 1);
        lemma_final_effects_are_sequential(
            interp,
            committed,
            observed,
            parts,
            nf,
            delta,
            nf + k - 1,
        );
    }
}

/// Running `a + b` transactions in order is running `a` of them and then,
/// from the state that they leave, the next `b`.
pub proof fn lemma_sequential_store_splits<V>(
    interp: spec_fn(int, Map<LocationAndType, V>) -> TxEffect<V>,
    committed: Map<LocationAndType, V>,
    nf: int,
    a: int,
    b: int,
)
    requires
        0 <= a,
        0 <= b,
    ensures
        sequential_store(interp, committed, nf, a + b) == sequential_store(
            interp,
            sequential_store(interp, committed, nf, a),
            nf + a,
            b,
        ),
    decreases b,
{
    if b > 0 {
        lemma_sequential_store_splits(interp, committed, nf, a, b - 1);
    }
}

/// A round keeps the batch on the sequential course: where the committed
/// state before the round is the state that the first `nf` transactions
/// leave when the batch runs in order from `initial`, every transaction
/// that the round makes final has the effect that it has in that run, and
/// the committed state after the round is the state that the first
/// `nf + delta` transactions leave in it.
pub proof fn lemma_round_keeps_sequential_course<V>(
    interp: spec_fn(int, Map<LocationAndType, V>) -> TxEffect<V>,
    initial: Map<LocationAndType, V>,
    observed: Seq<ExecutionHint>,
    parts: Seq<Seq<usize>>,
    nf: int,
    delta: int,
)
    requires
        0 <= nf,
        reads_locally(interp),
        observes(observed, interp, sequential_store(interp, initial, 0, nf), parts, nf),
        is_conflict_free_prefix(observed, parts, nf, delta),
    ensures
        forall|t: int|
            nf <= t < nf + delta ==> #[trigger] speculative_effect(
                interp,
                sequential_store(interp, initial, 0, nf),
                parts,
                nf,
                t,
            ) == sequential_effect(interp, initial, 0, t),
        committed_after(interp, sequential_store(interp, initial, 0, nf), parts, nf, delta)
            == sequential_store(interp, initial, 0, nf + delta),
{
    let committed = sequential_store(interp, initial, 0, nf);
    assert forall|t: int| nf <= t < nf + delta implies #[trigger] speculative_effect(
        interp,
        committed,
        parts,
        nf,
        t,
    ) == sequential_effect(interp, initial, 0, t) by {
        lemma_final_effects_are_sequential(interp, committed, observed, parts, nf, delta, t);
        lemma_sequential_store_splits(interp, initial, 0, nf, t - nf);
    }
    lemma_commit_is_sequential(interp, committed, observed, parts, nf, delta, delta);
    lemma_sequential_store_splits(interp, initial, 0, nf, delta);
}

/// The value that a location has after writes are applied to a state is
/// the value that committing them leaves.
pub proof fn lemma_apply_writes_is_value_after<V>(
    store: Map<LocationAndType, V>,
    writes: Seq<(LocationAndType, V)>,
    loc: LocationAndType,
)
    ensures
        lookup(apply_writes(store, writes), loc) == value_after(lookup(store, loc), writes, loc),
    decreases writes.len(),
{
    if writes.len() > 0 {
        lemma_apply_writes_is_value_after(store, writes.drop_last(), loc);
    }
}

} // verus!
