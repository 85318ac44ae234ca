//! Validation of a round: which transactions read what sequential
//! execution would have shown them, and how many of them can be made final.

use crate::hint::{ExecutionHint, ParallelExecutionHints};
use crate::tx_dependency::{last_writer_before, lemma_last_writer_is_nearest};
use crate::location::LocationAndType;
use crate::partition::{covered, is_partitioning, parts_view};
use crate::write_index::{lemma_writers_between, writers_between, MergedWriteSet};
use crate::TxId;
use vstd::prelude::*;

verus! {

/// Some partition holds both transactions.
pub open spec fn same_partition(parts: Seq<Seq<usize>>, a: int, b: int) -> bool {
    exists|p: int|
        0 <= p < parts.len() && #[trigger] parts[p].contains(a as usize) && parts[p].contains(
            b as usize,
        )
}

/// Transaction `t` read a location that transaction `w` wrote.
pub open spec fn reads_from(observed: Seq<ExecutionHint>, t: int, w: int) -> bool {
    exists|k: int|
        0 <= k < observed[t].read_set@.len() && observed[w].write_set@.contains(
            #[trigger] observed[t].read_set@[k],
        )
}

/// Transaction `t` is conflicted in a round that started at `nf`: it read a
/// location that an earlier transaction of the round wrote, and that writer
/// ran in another partition or is itself conflicted.
pub open spec fn conflicted(
    observed: Seq<ExecutionHint>,
    parts: Seq<Seq<usize>>,
    nf: int,
    t: int,
) -> bool
    decreases t - nf,
{
    nf <= t && exists|w: int|
        nf <= w < t && #[trigger] reads_from(observed, t, w) && (!same_partition(parts, t, w)
            || conflicted(observed, parts, nf, w))
}

/// `delta` is the length of the longest run of transactions from `nf` on
/// none of which is conflicted.
pub open spec fn is_conflict_free_prefix(
    observed: Seq<ExecutionHint>,
    parts: Seq<Seq<usize>>,
    nf: int,
    delta: int,
) -> bool {
    &&& 0 <= delta <= observed.len() - nf
    &&& forall|t: int| nf <= t < nf + delta ==> !#[trigger] conflicted(observed, parts, nf, t)
    &&& nf + delta < observed.len() ==> conflicted(observed, parts, nf, nf + delta)
}

/// The partition of every pending transaction, by its position after `nf`.
pub fn partition_index(parts: &Vec<Vec<TxId>>, nf: usize, n: usize) -> (part_of: Vec<usize>)
    requires
        nf + n <= usize::MAX,
        is_partitioning(parts_view(parts@), nf as int, nf + n),
    ensures
        part_of.len() == n,
        forall|p: int, a: int|
            0 <= p < parts.len() && 0 <= a < parts[p].len() ==> part_of[(#[trigger] parts[p][a]) - nf]
                == p,
{
    let ghost pv = parts_view(parts@);
    let mut part_of: Vec<usize> = Vec::new();
    let mut i: usize = 0;
    while i < n
        invariant
            i <= n,
            part_of.len() == i,
        decreases n - i,
    {
        part_of.push(0);
        i += 1;
    }
    let mut p: usize = 0;
    while p < parts.len()
        invariant
            pv == parts_view(parts@),
            is_partitioning(pv, nf as int, nf + n),
            p <= parts.len(),
            part_of.len() == n,
            forall|x: int, a: int|
                0 <= x < p && 0 <= a < parts[x].len() ==> part_of[(#[trigger] parts[x][a]) - nf] == x,
        decreases parts.len() - p,
    {
        let part = &parts[p];
        assert(pv[p as int] == part@);
        let mut a: usize = 0;
        while a < part.len()
            invariant
                pv == parts_view(parts@),
                is_partitioning(pv, nf as int, nf + n),
                p < parts.len(),
                part == &parts[p as int],
                pv[p as int] == part@,
                a <= part.len(),
                part_of.len() == n,
                forall|x: int, b: int|
                    0 <= x < p && 0 <= b < parts[x].len() ==> part_of[(#[trigger] parts[x][b]) - nf]
                        == x,
                forall|b: int| 0 <= b < a ==> part_of[(#[trigger] part[b]) - nf] == p,
            decreases part.len() - a,
        {
            let tx: usize = part[a];
            assert(pv[p as int][a as int] == tx);
            part_of.set(tx - nf, p);
            proof {
                assert forall|x: int, b: int| 0 <= x < p && 0 <= b < parts[x].len() implies part_of[(
                #[trigger] parts[x][b]) - nf] == x by {
                    assert(pv[x][b] == parts[x][b]);
                    assert(pv[x][b] != pv[p as int][a as int]);
                }
                assert forall|b: int| 0 <= b < a implies part_of[(#[trigger] part[b]) - nf] == p by {
                    assert(pv[p as int][b] == part[b]);
                    assert(pv[p as int][b] < pv[p as int][a as int]);
                }
            }
            a += 1;
        }
        p += 1;
    }
    part_of
}

/// With the index of partitions at hand, two pending transactions share a
/// partition exactly when the index gives them the same one.
pub proof fn lemma_same_partition(
    parts: Seq<Seq<usize>>,
    part_of: Seq<usize>,
    nf: int,
    n: int,
    a: int,
    b: int,
)
    requires
        0 <= nf,
        nf + n <= usize::MAX,
        is_partitioning(parts, nf, nf + n),
        part_of.len() == n,
        forall|p: int, x: int|
            0 <= p < parts.len() && 0 <= x < parts[p].len() ==> part_of[(#[trigger] parts[p][x]) - nf]
                == p,
        nf <= a < nf + n,
        nf <= b < nf + n,
    ensures
        same_partition(parts, a, b) <==> part_of[a - nf] == part_of[b - nf],
{
    assert(covered(parts, a));
    assert(covered(parts, b));
    let (pa, xa) = choose|p: int, x: int|
        0 <= p < parts.len() && 0 <= x < parts[p].len() && #[trigger] parts[p][x] == a;
    let (pb, xb) = choose|p: int, x: int|
        0 <= p < parts.len() && 0 <= x < parts[p].len() && #[trigger] parts[p][x] == b;
    assert(part_of[a - nf] == pa);
    assert(part_of[b - nf] == pb);
    if pa == pb {
        assert(parts[pa].contains(a as usize));
        assert(parts[pa].contains(b as usize));
    }
    if same_partition(parts, a, b) {
        let p = choose|p: int|
            0 <= p < parts.len() && #[trigger] parts[p].contains(a as usize) && parts[p].contains(
                b as usize,
            );
        let x = choose|x: int| 0 <= x < parts[p].len() && parts[p][x] == a as usize;
        let y = choose|y: int| 0 <= y < parts[p].len() && parts[p][y] == b as usize;
        assert(part_of[parts[p][x] - nf] == p);
        assert(part_of[parts[p][y] - nf] == p);
    }
}

/// Whether transaction `t` read a location that an earlier transaction of
/// the round wrote in another partition.
pub fn reads_foreign_write(
    observed: &ParallelExecutionHints,
    merged: &MergedWriteSet,
    part_of: &Vec<usize>,
    nf: usize,
    t: usize,
) -> (found: bool)
    requires
        nf <= t < observed.txs_hint.len(),
        part_of.len() == observed.txs_hint.len() - nf,
        forall|loc: LocationAndType| #[trigger]
            merged.writers(loc) == writers_between(
                observed.txs_hint@,
                loc,
                nf as int,
                observed.txs_hint.len() as int,
            ),
    ensures
        found == exists|w: int|
            nf <= w < t && #[trigger] reads_from(observed.txs_hint@, t as int, w) && part_of[w - nf]
                != part_of[t - nf],
{
    let ghost obs = observed.txs_hint@;
    let ghost total = obs.len() as int;
    let reads = &observed.txs_hint[t].read_set;
    let mut k: usize = 0;
    while k < reads.len()
        invariant
            obs == observed.txs_hint@,
            total == obs.len(),
            total == observed.txs_hint.len(),
            nf <= t < total,
            part_of.len() == total - nf,
            reads == &obs[t as int].read_set,
            k <= reads.len(),
            forall|loc: LocationAndType| #[trigger]
                merged.writers(loc) == writers_between(obs, loc, nf as int, total),
            forall|j: int, w: int|
                0 <= j < k && nf <= w < t && (#[trigger] obs[w]).write_set@.contains(
                    #[trigger] reads[j],
                ) ==> part_of[w - nf] == part_of[t - nf],
        decreases reads.len() - k,
    {
        let loc = reads[k];
        proof {
            lemma_writers_between(obs, loc, nf as int, total);
            assert(merged.writers(loc) == writers_between(obs, loc, nf as int, total));
        }
        if merged.written_elsewhere_before(loc, t, part_of, nf) {
            proof {
                let ws = merged.writers(loc);
                let a = choose|a: int|
                    0 <= a < ws.len() && #[trigger] ws[a] < t && part_of[ws[a] - nf] != part_of[t
                        - nf];
                let w = ws[a] as int;
                assert(obs[w].write_set@.contains(obs[t as int].read_set@[k as int]));
                assert(reads_from(obs, t as int, w));
            }
            return true;
        }
        proof {
            let ws = merged.writers(loc);
            assert forall|w: int|
                nf <= w < t && (#[trigger] obs[w]).write_set@.contains(loc) implies part_of[w - nf]
                == part_of[t - nf] by {
                assert(ws.contains(w as usize));
                let a = choose|a: int| 0 <= a < ws.len() && ws[a] == w as usize;
                assert(ws[a] < t);
            }
        }
        k += 1;
    }
    proof {
        assert forall|w: int| nf <= w < t && #[trigger] reads_from(obs, t as int, w) implies part_of[w
            - nf] == part_of[t - nf] by {
            let j = choose|j: int|
                0 <= j < obs[t as int].read_set@.len() && obs[w].write_set@.contains(
                    #[trigger] obs[t as int].read_set@[j],
                );
            assert(obs[w].write_set@.contains(reads[j]));
        }
    }
    false
}

/// Walks the transactions of the round in order and counts those before the
/// first conflicted one: they are the ones that can be made final.
pub fn count_conflict_free(
    observed: &ParallelExecutionHints,
    merged: &MergedWriteSet,
    parts: &Vec<Vec<TxId>>,
    nf: usize,
) -> (delta: usize)
    requires
        nf <= observed.txs_hint.len(),
        is_partitioning(parts_view(parts@), nf as int, observed.txs_hint.len() as int),
        forall|loc: LocationAndType| #[trigger]
            merged.writers(loc) == writers_between(
                observed.txs_hint@,
                loc,
                nf as int,
                observed.txs_hint.len() as int,
            ),
    ensures
        is_conflict_free_prefix(observed.txs_hint@, parts_view(parts@), nf as int, delta as int),
        nf < observed.txs_hint.len() ==> delta >= 1,
{
    let total: usize = observed.txs_hint.len();
    let ghost obs = observed.txs_hint@;
    let ghost pv = parts_view(parts@);
    let part_of = partition_index(parts, nf, total - nf);
    assert forall|p: int, x: int| 0 <= p < pv.len() && 0 <= x < pv[p].len() implies part_of[(
    #[trigger] pv[p][x]) - nf] == p by {
        assert(pv[p][x] == parts[p][x]);
    }
    let mut t: usize = nf;
    while t < total
        invariant
            obs == observed.txs_hint@,
            pv == parts_view(parts@),
            total == observed.txs_hint.len(),
            nf <= t <= total,
            is_partitioning(pv, nf as int, total as int),
            part_of.len() == total - nf,
            forall|p: int, x: int|
                0 <= p < pv.len() && 0 <= x < pv[p].len() ==> part_of[(#[trigger] pv[p][x]) - nf]
                    == p,
            forall|loc: LocationAndType| #[trigger]
                merged.writers(loc) == writers_between(obs, loc, nf as int, total as int),
            forall|x: int| nf <= x < t ==> !#[trigger] conflicted(obs, pv, nf as int, x),
        decreases total - t,
    {
        let found = reads_foreign_write(observed, merged, &part_of, nf, t);
        proof {
            if found {
                let w = choose|w: int|
                    nf <= w < t && #[trigger] reads_from(obs, t as int, w) && part_of[w - nf]
                        != part_of[t - nf];
                lemma_same_partition(pv, part_of@, nf as int, total - nf, t as int, w);
                assert(conflicted(obs, pv, nf as int, t as int));
            } else {
                if conflicted(obs, pv, nf as int, t as int) {
                    let w = choose|w: int|
                        nf <= w < t && #[trigger] reads_from(obs, t as int, w) && (!same_partition(
                            pv,
                            t as int,
                            w,
                        ) || conflicted(obs, pv, nf as int, w));
                    lemma_same_partition(pv, part_of@, nf as int, total - nf, t as int, w);
                    assert(!conflicted(obs, pv, nf as int, w));
                }
            }
        }
        if found {
            return t - nf;
        }
        t += 1;
    }
    total - nf
}

/// A transaction that a round makes final read every location from where
/// sequential execution reads it: all the earlier transactions of the round
/// that wrote a location it read ran before it in its own partition and are
/// made final as well, so the nearest earlier writer of the location in the
/// whole round is the nearest earlier writer in the partition; where the
/// round has no earlier writer, the value comes from the committed state in
/// both cases.
pub proof fn lemma_final_reads_have_local_writers(
    observed: Seq<ExecutionHint>,
    parts: Seq<Seq<usize>>,
    nf: int,
    delta: int,
    t: int,
    k: int,
)
    requires
        0 <= nf,
        is_conflict_free_prefix(observed, parts, nf, delta),
        nf <= t < nf + delta,
        0 <= k < observed[t].read_set@.len(),
    ensures
        forall|w: int|
            nf <= w < t && (#[trigger] observed[w]).write_set@.contains(observed[t].read_set@[k])
                ==> same_partition(parts, t, w) && !conflicted(observed, parts, nf, w),
        ({
            let w = last_writer_before(observed, observed[t].read_set@[k], nf, t);
            w >= 0 ==> same_partition(parts, t, w) && nf <= w < nf + delta
        }),
{
    let loc = observed[t].read_set@[k];
    assert(!conflicted(observed, parts, nf, t));
    assert forall|w: int| nf <= w < t && (#[trigger] observed[w]).write_set@.contains(loc) implies same_partition(
        parts,
        t,
        w,
    ) && !conflicted(observed, parts, nf, w) by {
        assert(reads_from(observed, t, w));
    }
    lemma_last_writer_is_nearest(observed, loc, nf, t);
}

} // verus!
