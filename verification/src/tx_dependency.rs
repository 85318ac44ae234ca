//! The dependency graph of the pending transactions and its partitioning.

use crate::dependent_txs::DependentTxsVec;
use crate::error::SchedulerError;
use crate::hint::{ExecutionHint, ParallelExecutionHints};
use crate::location::{LocationAndType, LocationKey};
use crate::writer_map::{writer_entries, writers_get, writers_insert, writers_new, WriterMap};
use crate::balance::{assign_partitions, is_balanced_assignment, partitions_in_use};
use crate::graph::{
    depends_on, edges_valid, empty_lists, is_component_labeling, label_components, linked,
};
use crate::partition::{
    assemble, chunk_partitions, is_partitioning, lemma_members, members, non_empty_members,
    parts_view, split_into_chunks,
};
use crate::TxId;
use vstd::prelude::*;

verus! {

/// The weight of a transaction of which nothing else is known.
pub const RAW_TRANSFER_WEIGHT: usize = 1;

/// The greatest transaction in `[start, t)` whose hint writes `loc`, or -1
/// where none of them does.
pub open spec fn last_writer_before(
    hints: Seq<ExecutionHint>,
    loc: LocationAndType,
    start: int,
    t: int,
) -> int
    decreases t - start,
{
    if t <= start {
        -1
    } else if hints[t - 1].write_set@.contains(loc) {
        t - 1
    } else {
        last_writer_before(hints, loc, start, t - 1)
    }
}

/// The dependencies that the first `k` hinted reads of transaction `t` give
/// rise to: for each read location, in order, its last writer before `t`.
pub open spec fn deps_of_reads(hints: Seq<ExecutionHint>, start: int, t: int, k: int) -> Seq<usize>
    decreases k,
{
    if k <= 0 {
        Seq::empty()
    } else {
        let prev = deps_of_reads(hints, start, t, k - 1);
        let w = last_writer_before(hints, hints[t].read_set@[k - 1], start, t);
        if w >= 0 {
            prev.push(w as usize)
        } else {
            prev
        }
    }
}

/// The dependencies of transaction `t` under the hints: the nearest earlier
/// writer of each location that `t` is expected to read.
pub open spec fn hinted_deps(hints: Seq<ExecutionHint>, start: int, t: int) -> Seq<usize> {
    deps_of_reads(hints, start, t, hints[t].read_set@.len() as int)
}

/// `last_writer_before` is the nearest earlier writer: it writes the
/// location, lies in `[start, t)`, and no transaction between it and `t`
/// writes the location; it is -1 exactly where no transaction of `[start, t)`
/// writes the location.
pub proof fn lemma_last_writer_is_nearest(
    hints: Seq<ExecutionHint>,
    loc: LocationAndType,
    start: int,
    t: int,
)
    requires
        0 <= start,
        t <= hints.len(),
    ensures
        ({
            let w = last_writer_before(hints, loc, start, t);
            &&& w == -1 || (start <= w < t && hints[w].write_set@.contains(loc))
            &&& forall|x: int| start <= x < t && w < x ==> !(#[trigger] hints[x]).write_set@.contains(loc)
        }),
    decreases t - start,
{
    if t > start && !hints[t - 1].write_set@.contains(loc) {
        lemma_last_writer_is_nearest(hints, loc, start, t - 1);
    }
}

/// Every hinted dependency of `t` is a transaction of `[start, t)`.
pub proof fn lemma_deps_of_reads_lower(hints: Seq<ExecutionHint>, start: int, t: int, k: int)
    requires
        0 <= start <= t < hints.len() <= usize::MAX,
        k <= hints[t].read_set@.len(),
    ensures
        forall|j: int|
            0 <= j < deps_of_reads(hints, start, t, k).len() ==> start <= (#[trigger] deps_of_reads(
                hints,
                start,
                t,
                k,
            )[j]) < t,
    decreases k,
{
    if k > 0 {
        lemma_deps_of_reads_lower(hints, start, t, k - 1);
        lemma_last_writer_is_nearest(hints, hints[t].read_set@[k - 1], start, t);
        let prev = deps_of_reads(hints, start, t, k - 1);
        let cur = deps_of_reads(hints, start, t, k);
        let w = last_writer_before(hints, hints[t].read_set@[k - 1], start, t);
        assert forall|j: int| 0 <= j < cur.len() implies start <= (#[trigger] cur[j]) < t by {
            if j < prev.len() {
                assert(cur[j] == prev[j]);
            } else {
                assert(cur[j] == w);
            }
        }
    }
}

/// The map holds, for every location, its last writer among `[start, t)`.
pub open spec fn holds_last_writers(
    m: Map<LocationKey, usize>,
    hints: Seq<ExecutionHint>,
    start: int,
    t: int,
) -> bool {
    forall|loc: LocationAndType| #[trigger] entry_is_last_writer(m, hints, loc, start, t)
}

/// The map's entry for `loc` is its last writer among `[start, t)`, and
/// there is no entry where there is no such writer.
pub open spec fn entry_is_last_writer(
    m: Map<LocationKey, usize>,
    hints: Seq<ExecutionHint>,
    loc: LocationAndType,
    start: int,
    t: int,
) -> bool {
    let w = last_writer_before(hints, loc, start, t);
    if w >= 0 {
        m.contains_key(loc.spec_key()) && m[loc.spec_key()] == w
    } else {
        !m.contains_key(loc.spec_key())
    }
}

/// As `entry_is_last_writer`, once the first `k` writes of `t` itself are recorded.
pub open spec fn entry_is_last_writer_mid(
    m: Map<LocationKey, usize>,
    hints: Seq<ExecutionHint>,
    loc: LocationAndType,
    start: int,
    t: int,
    k: int,
) -> bool {
    if hints[t].write_set@.take(k).contains(loc) {
        m.contains_key(loc.spec_key()) && m[loc.spec_key()] == t
    } else {
        entry_is_last_writer(m, hints, loc, start, t)
    }
}

/// The dependencies of one transaction: the last writer before `t`, as the
/// map holds it, of each location that `t` is expected to read.
fn dependencies_of(hints: &ParallelExecutionHints, writers: &WriterMap, start: usize, t: usize) -> (deps:
    DependentTxsVec)
    requires
        start <= t < hints.txs_hint.len(),
        holds_last_writers(writer_entries(*writers), hints.txs_hint@, start as int, t as int),
    ensures
        deps@ == hinted_deps(hints.txs_hint@, start as int, t as int),
{
    let mut deps = DependentTxsVec::new();
    let reads = &hints.txs_hint[t].read_set;
    let mut k: usize = 0;
    while k < reads.len()
        invariant
            start <= t < hints.txs_hint.len(),
            reads == &hints.txs_hint@[t as int].read_set,
            k <= reads.len(),
            holds_last_writers(writer_entries(*writers), hints.txs_hint@, start as int, t as int),
            deps@ == deps_of_reads(hints.txs_hint@, start as int, t as int, k as int),
        decreases reads.len() - k,
    {
        let loc = reads[k];
        let key = loc.key();
        assert(entry_is_last_writer(
            writer_entries(*writers),
            hints.txs_hint@,
            loc,
            start as int,
            t as int,
        ));
        match writers_get(writers, &key) {
            Some(previous) => {
                deps.push(previous);
            },
            None => {},
        }
        k += 1;
    }
    deps
}

/// Records transaction `t` as the last writer of each location that it is
/// expected to write.
fn record_writes(hints: &ParallelExecutionHints, writers: &mut WriterMap, start: usize, t: usize)
    requires
        start <= t < hints.txs_hint.len(),
        holds_last_writers(writer_entries(*old(writers)), hints.txs_hint@, start as int, t as int),
    ensures
        holds_last_writers(writer_entries(*final(writers)), hints.txs_hint@, start as int, t + 1),
{
    let writes = &hints.txs_hint[t].write_set;
    let mut k: usize = 0;
    assert forall|loc: LocationAndType| #[trigger]
        entry_is_last_writer_mid(
            writer_entries(*writers),
            hints.txs_hint@,
            loc,
            start as int,
            t as int,
            0,
        ) by {
        assert(entry_is_last_writer(
            writer_entries(*writers),
            hints.txs_hint@,
            loc,
            start as int,
            t as int,
        ));
    }
    while k < writes.len()
        invariant
            start <= t < hints.txs_hint.len(),
            writes == &hints.txs_hint@[t as int].write_set,
            k <= writes.len(),
            forall|loc: LocationAndType| #[trigger]
                entry_is_last_writer_mid(
                    writer_entries(*writers),
                    hints.txs_hint@,
                    loc,
                    start as int,
                    t as int,
                    k as int,
                ),
        decreases writes.len() - k,
    {
        let written = writes[k];
        let ghost before = writer_entries(*writers);
        writers_insert(writers, written.key(), t);
        assert forall|loc: LocationAndType| #[trigger]
            entry_is_last_writer_mid(
                writer_entries(*writers),
                hints.txs_hint@,
                loc,
                start as int,
                t as int,
                k + 1,
            ) by {
            assert(entry_is_last_writer_mid(
                before,
                hints.txs_hint@,
                loc,
                start as int,
                t as int,
                k as int,
            ));
            LocationAndType::lemma_key_injective(loc, written);
            let ws = hints.txs_hint@[t as int].write_set@;
            assert(ws.take(k + 1) == ws.take(k as int).push(written));
            if loc == written {
                assert(ws.take(k + 1)[k as int] == loc);
            } else {
                if ws.take(k + 1).contains(loc) {
                    let j = choose|j: int| 0 <= j < k + 1 && #[trigger] ws.take(k + 1)[j] == loc;
                    assert(ws.take(k as int)[j] == loc);
                }
                if ws.take(k as int).contains(loc) {
                    let j = choose|j: int| 0 <= j < k && #[trigger] ws.take(k as int)[j] == loc;
                    assert(ws.take(k + 1)[j] == loc);
                }
            }
        }
        k += 1;
    }
    assert forall|loc: LocationAndType| #[trigger]
        entry_is_last_writer(writer_entries(*writers), hints.txs_hint@, loc, start as int, t + 1) by {
        let ws = hints.txs_hint@[t as int].write_set@;
        assert(ws.take(k as int) == ws);
        assert(entry_is_last_writer_mid(
            writer_entries(*writers),
            hints.txs_hint@,
            loc,
            start as int,
            t as int,
            k as int,
        ));
    }
}

/// Whether no transaction of the graph has a dependency.
pub open spec fn no_dependencies(deps: Seq<Seq<usize>>) -> bool {
    forall|i: int| 0 <= i < deps.len() ==> (#[trigger] deps[i]).len() == 0
}

/// The lists of a vector of dependency lists.
pub open spec fn deps_view(v: Seq<DependentTxsVec>) -> Seq<Seq<usize>> {
    Seq::new(v.len(), |i: int| v[i]@)
}

/// Builds the dependency graph of the transactions from `start` on: each
/// depends on the nearest earlier transaction, not before `start`, that is
/// expected to write a location that it is expected to read. The flag tells
/// whether no dependency came up at all.
pub fn generate_tail_dependency(hints: &ParallelExecutionHints, start: usize) -> (res: (
    Vec<DependentTxsVec>,
    bool,
))
    requires
        start <= hints.txs_hint.len(),
    ensures
        res.0.len() == hints.txs_hint.len() - start,
        forall|i: int|
            0 <= i < res.0.len() ==> (#[trigger] res.0[i])@ == hinted_deps(
                hints.txs_hint@,
                start as int,
                start + i,
            ),
        edges_valid(deps_view(res.0@), start as int),
        res.1 == no_dependencies(deps_view(res.0@)),
{
    let mut writers = writers_new();
    let num_txs = hints.txs_hint.len();
    let mut tx_deps: Vec<DependentTxsVec> = Vec::new();
    let mut all_independent = true;
    let mut pos: usize = start;
    assert forall|loc: LocationAndType| #[trigger]
        entry_is_last_writer(
            writer_entries(writers),
            hints.txs_hint@,
            loc,
            start as int,
            start as int,
        ) by {}
    while pos < num_txs
        invariant
            num_txs == hints.txs_hint.len(),
            start <= pos <= num_txs,
            tx_deps.len() == pos - start,
            holds_last_writers(writer_entries(writers), hints.txs_hint@, start as int, pos as int),
            forall|i: int|
                0 <= i < tx_deps.len() ==> (#[trigger] tx_deps[i])@ == hinted_deps(
                    hints.txs_hint@,
                    start as int,
                    start + i,
                ),
            all_independent == no_dependencies(deps_view(tx_deps@)),
        decreases num_txs - pos,
    {
        let dep_txs = dependencies_of(hints, &writers, start, pos);
        let ghost before = deps_view(tx_deps@);
        if !dep_txs.is_empty() {
            all_independent = false;
        }
        record_writes(hints, &mut writers, start, pos);
        tx_deps.push(dep_txs);
        proof {
            let after = deps_view(tx_deps@);
            assert(after.len() == before.len() + 1);
            assert(forall|i: int| 0 <= i < before.len() ==> after[i] == before[i]);
            if all_independent {
                assert(no_dependencies(before));
                assert forall|i: int| 0 <= i < after.len() implies (#[trigger] after[i]).len()
                    == 0 by {
                    if i < before.len() {
                        assert(before[i].len() == 0);
                    }
                }
            } else {
                if no_dependencies(after) {
                    assert(after[after.len() - 1].len() == 0);
                    assert forall|i: int| 0 <= i < before.len() implies (#[trigger] before[i]).len()
                        == 0 by {
                        assert(after[i].len() == 0);
                    }
                }
            }
        }
        pos += 1;
    }
    proof {
        let d = deps_view(tx_deps@);
        let hs = hints.txs_hint@;
        assert forall|i: int, k: int| 0 <= i < d.len() && 0 <= k < d[i].len() implies (#[trigger] d[i][k])
            < start + i by {
            assert(tx_deps[i]@ == hinted_deps(hs, start as int, start + i));
            lemma_deps_of_reads_lower(hs, start as int, start + i, hs[start + i].read_set@.len() as int);
        }
    }
    (tx_deps, all_independent)
}

/// Builds the dependency graph of a whole batch from its hints; see
/// `generate_tail_dependency`.
pub fn generate_tx_dependency(parallel_execution_hints: &ParallelExecutionHints) -> (res: (
    Vec<DependentTxsVec>,
    bool,
))
    ensures
        res.0.len() == parallel_execution_hints.txs_hint.len(),
        forall|i: int|
            0 <= i < res.0.len() ==> (#[trigger] res.0[i])@ == hinted_deps(
                parallel_execution_hints.txs_hint@,
                0,
                i,
            ),
        edges_valid(deps_view(res.0@), 0),
        res.1 == no_dependencies(deps_view(res.0@)),
{
    generate_tail_dependency(parallel_execution_hints, 0)
}

/// Whether every list names earlier transactions only, and whether all
/// lists are empty.
pub fn check_dependencies(deps: &Vec<DependentTxsVec>, nf: usize) -> (res: (bool, bool))
    requires
        nf + deps.len() <= usize::MAX,
    ensures
        res.0 == edges_valid(deps_view(deps@), nf as int),
        res.1 == no_dependencies(deps_view(deps@)),
{
    let ghost d = deps_view(deps@);
    let mut valid = true;
    let mut independent = true;
    let mut i: usize = 0;
    while i < deps.len()
        invariant
            d == deps_view(deps@),
            nf + deps.len() <= usize::MAX,
            i <= deps.len(),
            valid == (forall|a: int, k: int|
                0 <= a < i && 0 <= k < d[a].len() ==> (#[trigger] d[a][k]) < nf + a),
            independent == (forall|a: int| 0 <= a < i ==> (#[trigger] d[a]).len() == 0),
        decreases deps.len() - i,
    {
        let len: usize = deps[i].len();
        assert(d[i as int] == deps[i as int]@);
        if len > 0 {
            independent = false;
        }
        let mut k: usize = 0;
        let mut row_valid = true;
        while k < len
            invariant
                d == deps_view(deps@),
                nf + deps.len() <= usize::MAX,
                i < deps.len(),
                len == d[i as int].len(),
                d[i as int] == deps[i as int]@,
                k <= len,
                row_valid == (forall|m: int| 0 <= m < k ==> (#[trigger] d[i as int][m]) < nf + i),
            decreases len - k,
        {
            if deps[i].get(k) >= nf + i {
                row_valid = false;
            }
            k += 1;
        }
        if !row_valid {
            valid = false;
        }
        i += 1;
    }
    (valid, independent)
}

/// Every partition that holds a transaction also holds the pending
/// transactions that it depends on.
pub open spec fn keeps_dependencies_together(
    parts: Seq<Seq<usize>>,
    deps: Seq<Seq<usize>>,
    nf: int,
) -> bool {
    forall|p: int, i: int, j: int|
        0 <= p < parts.len() && #[trigger] holds(parts, p, nf, i) && #[trigger] depends_on(
            deps,
            nf,
            i,
            j,
        ) ==> holds(parts, p, nf, j)
}

/// Partition `p` holds the pending transaction at position `i` of the graph.
pub open spec fn holds(parts: Seq<Seq<usize>>, p: int, nf: int, i: int) -> bool {
    0 <= i && parts[p].contains((nf + i) as usize)
}

/// `parts` is the balanced partitioning of the graph: the connected groups
/// of transactions are assigned to the partitions in use as
/// `is_balanced_assignment` says, and the partitions that got none are left out.
pub open spec fn is_balanced_partitioning(
    deps: Seq<Seq<usize>>,
    nf: int,
    weights: Seq<usize>,
    partition_count: int,
    parts: Seq<Seq<usize>>,
) -> bool {
    exists|label: Seq<usize>, part_of: Seq<usize>|
        is_component_labeling(deps, nf, label) && #[trigger] is_balanced_assignment(
            label,
            weights,
            partitions_in_use(label, partition_count),
            part_of,
        ) && parts == non_empty_members(part_of, nf, partitions_in_use(label, partition_count))
}

/// The weights of `n` transactions of which nothing is known.
pub open spec fn raw_weights(n: nat) -> Seq<usize> {
    Seq::new(n, |i: int| RAW_TRANSFER_WEIGHT)
}

/// A measured running time as a weight: the time itself where it fits the
/// machine word, else the greatest weight.
pub open spec fn time_as_weight(time: u64) -> usize {
    if time > usize::MAX {
        usize::MAX
    } else {
        time as usize
    }
}

/// The dependency graph of the transactions that are not final yet,
/// together with what is known of their weights.
pub struct TxDependency {
    // position i lists the transactions that transaction
    // num_finality_txs + i depends on
    tx_dependency: Vec<DependentTxsVec>,
    // transactions before this one are final and have left the graph
    num_finality_txs: usize,
    // running times measured in the last round, if any
    tx_running_time: Option<Vec<u64>>,
    // weights for the next partitioning; without them every transaction
    // weighs RAW_TRANSFER_WEIGHT
    tx_weight: Option<Vec<usize>>,
    all_independent: bool,
}

impl TxDependency {
    /// The dependency lists of the pending transactions: list `i` belongs to
    /// transaction `num_finality() + i`.
    pub closed spec fn deps(&self) -> Seq<Seq<usize>> {
        deps_view(self.tx_dependency@)
    }

    /// The number of transactions that are final.
    pub closed spec fn num_finality(&self) -> int {
        self.num_finality_txs as int
    }

    /// The size of the batch.
    pub open spec fn num_txs(&self) -> int {
        self.num_finality() + self.deps().len()
    }

    /// Whether the graph is known to have no edge.
    pub closed spec fn all_independent(&self) -> bool {
        self.all_independent
    }

    /// The weights that the next partitioning goes by.
    pub closed spec fn weights(&self) -> Seq<usize> {
        match self.tx_weight {
            Some(w) => w@,
            None => raw_weights(self.tx_dependency@.len()),
        }
    }

    /// The running times measured in the last round, if any were given.
    pub closed spec fn running_times(&self) -> Option<Seq<u64>> {
        match self.tx_running_time {
            Some(t) => Some(t@),
            None => None,
        }
    }

    /// The graph is well formed: the batch fits the machine word, every
    /// dependency is an earlier transaction, the flag says whether there is
    /// an edge, and every pending transaction has a weight.
    pub open spec fn wf(&self) -> bool {
        &&& self.num_txs() <= usize::MAX
        &&& 0 <= self.num_finality()
        &&& edges_valid(self.deps(), self.num_finality())
        &&& self.all_independent() == no_dependencies(self.deps())
        &&& self.weights().len() == self.deps().len()
    }

    /// The graph that the hints give: every transaction depends on the
    /// nearest earlier writer of each location that it is expected to read.
    pub fn new(parallel_execution_hints: &ParallelExecutionHints) -> (dep: Self)
        ensures
            dep.wf(),
            dep.num_finality() == 0,
            dep.deps().len() == parallel_execution_hints.txs_hint.len(),
            forall|t: int|
                0 <= t < dep.deps().len() ==> #[trigger] dep.deps()[t] == hinted_deps(
                    parallel_execution_hints.txs_hint@,
                    0,
                    t,
                ),
            dep.weights() == raw_weights(dep.deps().len()),
            dep.running_times() is None,
    {
        let (tx_dependency, all_independent) = generate_tx_dependency(parallel_execution_hints);
        let dep = TxDependency {
            tx_dependency,
            num_finality_txs: 0,
            tx_running_time: None,
            tx_weight: None,
            all_independent,
        };
        dep
    }

    /// The graph of a batch of which nothing is known: every transaction
    /// depends on the one before it, so that all run in order.
    pub fn sequential(num_txs: usize) -> (dep: Self)
        ensures
            dep.wf(),
            dep.num_finality() == 0,
            dep.deps().len() == num_txs,
            forall|t: int|
                0 <= t < num_txs ==> #[trigger] dep.deps()[t] == if t == 0 {
                    Seq::<usize>::empty()
                } else {
                    seq![(t - 1) as usize]
                },
            dep.weights() == raw_weights(num_txs as nat),
            dep.running_times() is None,
    {
        let mut tx_dependency: Vec<DependentTxsVec> = Vec::new();
        let mut t: usize = 0;
        while t < num_txs
            invariant
                t <= num_txs,
                tx_dependency.len() == t,
                forall|i: int|
                    0 <= i < t ==> (#[trigger] tx_dependency[i])@ == if i == 0 {
                        Seq::<usize>::empty()
                    } else {
                        seq![(i - 1) as usize]
                    },
            decreases num_txs - t,
        {
            let mut list = DependentTxsVec::new();
            if t > 0 {
                list.push(t - 1);
            }
            tx_dependency.push(list);
            t += 1;
        }
        let dep = TxDependency {
            tx_dependency,
            num_finality_txs: 0,
            tx_running_time: None,
            tx_weight: None,
            all_independent: num_txs <= 1,
        };
        proof {
            let d = dep.deps();
            assert forall|i: int| 0 <= i < d.len() implies (#[trigger] d[i]) == if i == 0 {
                Seq::<usize>::empty()
            } else {
                seq![(i - 1) as usize]
            } by {
                assert(d[i] == dep.tx_dependency[i]@);
            }
            if num_txs > 1 {
                assert(d[1].len() == 1);
            }
        }
        dep
    }

    /// Forgets every dependency: all pending transactions become independent.
    pub fn clean_dependency(&mut self)
        requires
            old(self).wf(),
        ensures
            final(self).wf(),
            final(self).num_finality() == old(self).num_finality(),
            final(self).deps().len() == old(self).deps().len(),
            no_dependencies(final(self).deps()),
            final(self).weights() == old(self).weights(),
            final(self).running_times() == old(self).running_times(),
    {
        let len: usize = self.tx_dependency.len();
        self.tx_dependency = empty_lists(len);
        self.all_independent = true;
    }

    /// The number of transactions that are final.
    pub fn num_finality_txs(&self) -> (n: usize)
        ensures
            n == self.num_finality(),
    {
        self.num_finality_txs
    }

    /// The number of pending transactions.
    pub fn num_pending_txs(&self) -> (n: usize)
        ensures
            n == self.deps().len(),
    {
        self.tx_dependency.len()
    }

    /// Whether no pending transaction has a dependency.
    pub fn is_all_independent(&self) -> (b: bool)
        requires
            self.wf(),
        ensures
            b == no_dependencies(self.deps()),
    {
        self.all_independent
    }

    /// The transactions that the pending transaction at position `index` depends on.
    pub fn dependencies_at(&self, index: usize) -> (deps: Option<Vec<TxId>>)
        ensures
            index < self.deps().len() ==> deps is Some && deps->0@ == self.deps()[index as int],
            index >= self.deps().len() ==> deps is None,
    {
        if index < self.tx_dependency.len() {
            Some(self.tx_dependency[index].to_vec())
        } else {
            None
        }
    }
}

impl TxDependency {
    /// Sets the weights that the next partitioning goes by, one per pending
    /// transaction. Fails, and changes nothing, where their number is not
    /// that of the pending transactions.
    pub fn set_tx_weight(&mut self, weights: Vec<usize>) -> (res: Result<(), SchedulerError>)
        requires
            old(self).wf(),
        ensures
            final(self).wf(),
            final(self).deps() == old(self).deps(),
            final(self).num_finality() == old(self).num_finality(),
            final(self).running_times() == old(self).running_times(),
            res is Ok <==> weights@.len() == old(self).deps().len(),
            res is Ok ==> final(self).weights() == weights@,
            res is Err ==> final(self).weights() == old(self).weights(),
    {
        if weights.len() != self.tx_dependency.len() {
            return Err(SchedulerError::InvariantViolation);
        }
        self.tx_weight = Some(weights);
        Ok(())
    }

    /// Records the running times measured in the last round, one per pending
    /// transaction, and makes them the weights of the next partitioning.
    /// Fails, and changes nothing, where their number is not that of the
    /// pending transactions.
    pub fn set_running_time(&mut self, times: Vec<u64>) -> (res: Result<(), SchedulerError>)
        requires
            old(self).wf(),
        ensures
            final(self).wf(),
            final(self).deps() == old(self).deps(),
            final(self).num_finality() == old(self).num_finality(),
            res is Ok <==> times@.len() == old(self).deps().len(),
            res is Ok ==> final(self).running_times() == Some(times@) && final(self).weights()
                == times@.map_values(|t: u64| time_as_weight(t)),
            res is Err ==> final(self).weights() == old(self).weights() && final(self).running_times() == old(self).running_times(),
    {
        if times.len() != self.tx_dependency.len() {
            return Err(SchedulerError::InvariantViolation);
        }
        let mut weights: Vec<usize> = Vec::new();
        let mut i: usize = 0;
        while i < times.len()
            invariant
                i <= times.len(),
                weights.len() == i,
                forall|k: int| 0 <= k < i ==> (#[trigger] weights[k]) == time_as_weight(times[k]),
            decreases times.len() - i,
        {
            let time: u64 = times[i];
            let weight: usize = if time > usize::MAX as u64 {
                usize::MAX
            } else {
                time as usize
            };
            weights.push(weight);
            i += 1;
        }
        assert(weights@ == times@.map_values(|t: u64| time_as_weight(t)));
        self.tx_weight = Some(weights);
        self.tx_running_time = Some(times);
        Ok(())
    }

    /// Replaces the graph after a round: `tx_dependency` holds the lists of
    /// the transactions from `num_finality_txs` on. Fails with
    /// `InvariantViolation`, and changes nothing, where the size of the
    /// batch would change or a list names a transaction that is not an
    /// earlier one. The weights fall back to `RAW_TRANSFER_WEIGHT`.
    pub fn update_tx_dependency(
        &mut self,
        tx_dependency: Vec<DependentTxsVec>,
        num_finality_txs: usize,
    ) -> (res: Result<(), SchedulerError>)
        requires
            old(self).wf(),
        ensures
            final(self).wf(),
            res is Ok <==> (old(self).num_txs() == tx_dependency@.len() + num_finality_txs
                && edges_valid(deps_view(tx_dependency@), num_finality_txs as int)),
            res is Ok ==> final(self).deps() == deps_view(tx_dependency@) && final(self).num_finality() == num_finality_txs && final(self).weights() == raw_weights(
                tx_dependency@.len(),
            ) && final(self).running_times() is None,
            res is Err ==> final(self).deps() == old(self).deps() && final(self).num_finality()
                == old(self).num_finality() && final(self).weights() == old(self).weights()
                && final(self).running_times() == old(self).running_times(),
    {
        let total: usize = self.tx_dependency.len() + self.num_finality_txs;
        if num_finality_txs > total || total - num_finality_txs != tx_dependency.len() {
            return Err(SchedulerError::InvariantViolation);
        }
        let (valid, independent) = check_dependencies(&tx_dependency, num_finality_txs);
        if !valid {
            return Err(SchedulerError::InvariantViolation);
        }
        self.tx_dependency = tx_dependency;
        self.num_finality_txs = num_finality_txs;
        self.tx_weight = None;
        self.tx_running_time = None;
        self.all_independent = independent;
        Ok(())
    }

    /// The partitions of a graph without edges: the pending transactions cut
    /// into `min(partition_count, n)` contiguous chunks whose sizes differ by
    /// at most one.
    pub fn all_independent_partitions(&mut self, partition_count: usize) -> (parts: Vec<Vec<TxId>>)
        requires
            old(self).wf(),
            partition_count > 0,
        ensures
            *final(self) == *old(self),
            parts_view(parts@) == chunk_partitions(
                old(self).num_finality(),
                old(self).deps().len() as int,
                partition_count as int,
            ),
            is_partitioning(parts_view(parts@), old(self).num_finality(), old(self).num_txs()),
            parts.len() <= partition_count,
    {
        split_into_chunks(self.num_finality_txs, self.tx_dependency.len(), partition_count)
    }

    /// Splits the pending transactions into at most `partition_count`
    /// partitions that can run side by side. A transaction and the pending
    /// transactions that it depends on share a partition. Without any
    /// dependency the partitions are contiguous chunks; else the connected
    /// groups are balanced over the partitions by weight. The weights are
    /// used up: afterwards every transaction weighs `RAW_TRANSFER_WEIGHT`.
    pub fn fetch_best_partitions(&mut self, partition_count: usize) -> (parts: Vec<Vec<TxId>>)
        requires
            old(self).wf(),
            partition_count > 0,
        ensures
            final(self).wf(),
            final(self).deps() == old(self).deps(),
            final(self).num_finality() == old(self).num_finality(),
            final(self).running_times() == old(self).running_times(),
            final(self).weights() == if old(self).all_independent() {
                old(self).weights()
            } else {
                raw_weights(old(self).deps().len())
            },
            is_partitioning(parts_view(parts@), old(self).num_finality(), old(self).num_txs()),
            keeps_dependencies_together(
                parts_view(parts@),
                old(self).deps(),
                old(self).num_finality(),
            ),
            parts.len() <= partition_count,
            old(self).all_independent() ==> parts_view(parts@) == chunk_partitions(
                old(self).num_finality(),
                old(self).deps().len() as int,
                partition_count as int,
            ),
            !old(self).all_independent() ==> is_balanced_partitioning(
                old(self).deps(),
                old(self).num_finality(),
                old(self).weights(),
                partition_count as int,
                parts_view(parts@),
            ),
    {
        let ghost d = self.deps();
        let ghost nf = self.num_finality();
        if self.all_independent {
            let parts = self.all_independent_partitions(partition_count);
            proof {
                let pv = parts_view(parts@);
                assert forall|p: int, i: int, j: int|
                    0 <= p < pv.len() && #[trigger] holds(pv, p, nf, i) && #[trigger] depends_on(
                        d,
                        nf,
                        i,
                        j,
                    ) implies holds(pv, p, nf, j) by {
                    let k = choose|k: int| 0 <= k < d[i].len() && #[trigger] d[i][k] == nf + j;
                    assert(d[i].len() == 0);
                }
            }
            return parts;
        }
        let n: usize = self.tx_dependency.len();
        let taken: Option<Vec<usize>> = self.tx_weight.take();
        let tx_weight: Vec<usize> = match taken {
            Some(w) => w,
            None => {
                let mut w: Vec<usize> = Vec::new();
                let mut i: usize = 0;
                while i < n
                    invariant
                        i <= n,
                        w.len() == i,
                        forall|k: int| 0 <= k < i ==> (#[trigger] w[k]) == RAW_TRANSFER_WEIGHT,
                    decreases n - i,
                {
                    w.push(RAW_TRANSFER_WEIGHT);
                    i += 1;
                }
                assert(w@ == raw_weights(n as nat));
                w
            },
        };
        let label = label_components(&self.tx_dependency, self.num_finality_txs);
        let (part_of, count) = assign_partitions(&label, &tx_weight, partition_count);
        let parts = assemble(&part_of, count, self.num_finality_txs);
        proof {
            let pv = parts_view(parts@);
            assert forall|p: int, i: int, j: int|
                0 <= p < pv.len() && #[trigger] holds(pv, p, nf, i) && #[trigger] depends_on(
                    d,
                    nf,
                    i,
                    j,
                ) implies holds(pv, p, nf, j) by {
                let q = choose|q: int|
                    0 <= q < count && parts[p]@ == members(part_of@, q, nf, part_of.len() as int);
                lemma_members(part_of@, q, nf, part_of.len() as int);
                let m = members(part_of@, q, nf, part_of.len() as int);
                let a = choose|a: int| 0 <= a < m.len() && m[a] == (nf + i) as usize;
                assert(nf <= m[a] < nf + n);
                assert(part_of@[i] == q);
                assert(linked(d, nf, i, j));
                assert(label@[i] == label@[j]);
                assert(part_of@[i] == part_of@[label@[i] as int]);
                assert(part_of@[j] == part_of@[label@[j] as int]);
                assert(m.contains((nf + j) as usize));
            }
            assert(is_balanced_assignment(
                label@,
                tx_weight@,
                partitions_in_use(label@, partition_count as int),
                part_of@,
            ));
        }
        parts
    }
}

} // verus!
