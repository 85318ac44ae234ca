//! The writers of every location in one round, in transaction order.

use crate::hint::{ExecutionHint, ParallelExecutionHints};
use crate::location::{LocationAndType, LocationKey};
use crate::TxId;
use std::collections::BTreeMap;
use vstd::prelude::*;

verus! {

/// The transactions of `lo..hi` that wrote `loc`, ascending, each once.
pub open spec fn writers_between(
    observed: Seq<ExecutionHint>,
    loc: LocationAndType,
    lo: int,
    hi: int,
) -> Seq<usize>
    decreases hi - lo,
{
    if hi <= lo {
        Seq::empty()
    } else if observed[hi - 1].write_set@.contains(loc) {
        writers_between(observed, loc, lo, hi - 1).push((hi - 1) as usize)
    } else {
        writers_between(observed, loc, lo, hi - 1)
    }
}

/// `writers_between` lists exactly the writers of the location, in
/// ascending order.
pub proof fn lemma_writers_between(
    observed: Seq<ExecutionHint>,
    loc: LocationAndType,
    lo: int,
    hi: int,
)
    requires
        0 <= lo <= hi <= observed.len() <= usize::MAX,
    ensures
        forall|a: int|
            0 <= a < writers_between(observed, loc, lo, hi).len() ==> lo <= #[trigger] writers_between(
                observed,
                loc,
                lo,
                hi,
            )[a] < hi && observed[writers_between(observed, loc, lo, hi)[a] as int].write_set@.contains(
                loc,
            ),
        forall|a: int, b: int|
            0 <= a < b < writers_between(observed, loc, lo, hi).len() ==> #[trigger] writers_between(
                observed,
                loc,
                lo,
                hi,
            )[a] < #[trigger] writers_between(observed, loc, lo, hi)[b],
        forall|w: int|
            lo <= w < hi && (#[trigger] observed[w]).write_set@.contains(loc) ==> writers_between(
                observed,
                loc,
                lo,
                hi,
            ).contains(w as usize),
    decreases hi - lo,
{
    if hi > lo {
        lemma_writers_between(observed, loc, lo, hi - 1);
        let prev = writers_between(observed, loc, lo, hi - 1);
        let cur = writers_between(observed, loc, lo, hi);
        assert forall|a: int| 0 <= a < cur.len() implies lo <= #[trigger] cur[a] < hi
            && observed[cur[a] as int].write_set@.contains(loc) by {
            if a < prev.len() {
                assert(cur[a] == prev[a]);
            }
        }
        assert forall|a: int, b: int| 0 <= a < b < cur.len() implies #[trigger] cur[a]
            < #[trigger] cur[b] by {
            assert(cur[a] == prev[a]);
            if b < prev.len() {
                assert(cur[b] == prev[b]);
            }
        }
        assert forall|w: int|
            lo <= w < hi && (#[trigger] observed[w]).write_set@.contains(loc) implies cur.contains(
            w as usize,
        ) by {
            if w < hi - 1 {
                assert(prev.contains(w as usize));
                let a = choose|a: int| 0 <= a < prev.len() && prev[a] == w as usize;
                assert(cur[a] == w as usize);
            } else {
                assert(cur[cur.len() - 1] == w as usize);
            }
        }
    }
}

/// For every location, the transactions that wrote it in the round.
pub struct MergedWriteSet {
    index: BTreeMap<LocationKey, Vec<TxId>>,
}

impl MergedWriteSet {
    /// The transactions recorded as writers of `loc`, in the order recorded.
    pub closed spec fn writers(&self, loc: LocationAndType) -> Seq<usize> {
        if self.index@.contains_key(loc.spec_key()) {
            self.index@[loc.spec_key()]@
        } else {
            Seq::empty()
        }
    }

    /// An index without writers.
    pub fn new() -> (set: Self)
        ensures
            forall|loc: LocationAndType| (#[trigger] set.writers(loc)).len() == 0,
    {
        MergedWriteSet { index: BTreeMap::new() }
    }

    /// Records `tx` as a writer of `loc`, behind the writers recorded
    /// before; a transaction that is the last writer already is not
    /// recorded twice.
    pub fn record(&mut self, loc: LocationAndType, tx: TxId)
        ensures
            final(self).writers(loc) == if old(self).writers(loc).len() > 0 && old(self).writers(
                loc,
            ).last() == tx {
                old(self).writers(loc)
            } else {
                old(self).writers(loc).push(tx)
            },
            forall|other: LocationAndType|
                other != loc ==> #[trigger] final(self).writers(other) == old(self).writers(other),
    {
        let key = loc.key();
        let mut list: Vec<TxId> = match self.index.remove(&key) {
            Some(list) => list,
            None => Vec::new(),
        };
        if list.len() == 0 || list[list.len() - 1] != tx {
            list.push(tx);
        }
        self.index.insert(key, list);
        proof {
            assert forall|other: LocationAndType| other != loc implies #[trigger] self.writers(
                other,
            ) == old(self).writers(other) by {
                LocationAndType::lemma_key_injective(other, loc);
            }
        }
    }

    /// The writers of `loc`, in the order recorded.
    pub fn writers_of(&self, loc: LocationAndType) -> (list: Vec<TxId>)
        ensures
            list@ == self.writers(loc),
    {
        let key = loc.key();
        match self.index.get(&key) {
            Some(list) => list.clone(),
            None => Vec::new(),
        }
    }

    /// Whether `loc` has a writer before `tx` that runs in another
    /// partition than `tx`; `part_of` gives the partition of each pending
    /// transaction, by its position after `nf`.
    pub fn written_elsewhere_before(
        &self,
        loc: LocationAndType,
        tx: TxId,
        part_of: &Vec<usize>,
        nf: usize,
    ) -> (found: bool)
        requires
            nf <= tx,
            tx - nf < part_of.len(),
            forall|a: int, b: int|
                0 <= a < b < self.writers(loc).len() ==> #[trigger] self.writers(loc)[a]
                    < #[trigger] self.writers(loc)[b],
            forall|a: int| 0 <= a < self.writers(loc).len() ==> nf <= #[trigger] self.writers(loc)[a],
        ensures
            found == exists|a: int|
                0 <= a < self.writers(loc).len() && #[trigger] self.writers(loc)[a] < tx
                    && part_of[self.writers(loc)[a] - nf] != part_of[tx - nf],
    {
        let key = loc.key();
        match self.index.get(&key) {
            Some(list) => {
                let mine: usize = part_of[tx - nf];
                let mut a: usize = 0;
                proof {
                    let w = self.writers(loc);
                    assert(list@ == w);
                    assert forall|x: int, y: int| 0 <= x < y < list.len() implies #[trigger] list[x]
                        < #[trigger] list[y] by {
                        assert(w[x] < w[y]);
                    }
                    assert forall|x: int| 0 <= x < list.len() implies nf <= #[trigger] list[x] by {
                        assert(nf <= w[x]);
                    }
                }
                while a < list.len() && list[a] < tx
                    invariant
                        list@ == self.writers(loc),
                        nf <= tx,
                        tx - nf < part_of.len(),
                        mine == part_of[tx - nf],
                        a <= list.len(),
                        forall|x: int, y: int|
                            0 <= x < y < list.len() ==> #[trigger] list[x] < #[trigger] list[y],
                        forall|x: int| 0 <= x < list.len() ==> nf <= #[trigger] list[x],
                        forall|x: int| 0 <= x < a ==> (#[trigger] list[x]) < tx && part_of[list[x] - nf] == mine,
                    decreases list.len() - a,
                {
                    if part_of[list[a] - nf] != mine {
                        return true;
                    }
                    a += 1;
                }
                proof {
                    assert forall|x: int| 0 <= x < list.len() && #[trigger] list[x] < tx implies part_of[list[x]
                        - nf] == mine by {
                        if x >= a {
                            if x > a {
                                assert(list[a as int] < list[x]);
                            }
                        }
                    }
                }
                false
            },
            None => false,
        }
    }

    /// The index of a round: for every location, the transactions from `nf`
    /// on that wrote it, ascending.
    pub fn merge(observed: &ParallelExecutionHints, nf: usize) -> (set: Self)
        requires
            nf <= observed.txs_hint.len(),
        ensures
            forall|loc: LocationAndType| #[trigger]
                set.writers(loc) == writers_between(
                    observed.txs_hint@,
                    loc,
                    nf as int,
                    observed.txs_hint.len() as int,
                ),
    {
        let mut set = MergedWriteSet::new();
        let ghost obs = observed.txs_hint@;
        let mut t: usize = nf;
        assert forall|loc: LocationAndType| #[trigger]
            set.writers(loc) == writers_between(obs, loc, nf as int, nf as int) by {
            assert(set.writers(loc).len() == 0);
        }
        while t < observed.txs_hint.len()
            invariant
                obs == observed.txs_hint@,
                nf <= t <= obs.len(),
                forall|loc: LocationAndType| #[trigger]
                    set.writers(loc) == writers_between(obs, loc, nf as int, t as int),
            decreases observed.txs_hint.len() - t,
        {
            let writes = &observed.txs_hint[t].write_set;
            let mut k: usize = 0;
            while k < writes.len()
                invariant
                    obs == observed.txs_hint@,
                    obs.len() == observed.txs_hint.len(),
                    nf <= t < obs.len(),
                    writes == &obs[t as int].write_set,
                    k <= writes.len(),
                    forall|loc: LocationAndType| #[trigger]
                        set.writers(loc) == if writes@.take(k as int).contains(loc) {
                            writers_between(obs, loc, nf as int, t as int).push(t)
                        } else {
                            writers_between(obs, loc, nf as int, t as int)
                        },
                decreases writes.len() - k,
            {
                let written = writes[k];
                let ghost before = set;
                set.record(written, t);
                proof {
                    let ws = writes@;
                    assert(ws.take(k + 1) == ws.take(k as int).push(written));
                    assert forall|loc: LocationAndType| #[trigger]
                        set.writers(loc) == if ws.take(k + 1).contains(loc) {
                            writers_between(obs, loc, nf as int, t as int).push(t)
                        } else {
                            writers_between(obs, loc, nf as int, t as int)
                        } by {
                        let base = writers_between(obs, loc, nf as int, t as int);
                        lemma_writers_between(obs, loc, nf as int, t as int);
                        if loc == written {
                            assert(ws.take(k + 1)[k as int] == loc);
                            if ws.take(k as int).contains(loc) {
                                assert(before.writers(loc) == base.push(t));
                                assert(base.push(t).last() == t);
                            } else {
                                assert(before.writers(loc) == base);
                                if base.len() > 0 {
                                    assert(base[base.len() - 1] < t);
                                }
                            }
                        } else {
                            assert(set.writers(loc) == before.writers(loc));
                            if ws.take(k + 1).contains(loc) {
                                let j = choose|j: int|
                                    0 <= j < k + 1 && #[trigger] ws.take(k + 1)[j] == loc;
                                assert(ws.take(k as int)[j] == loc);
                            }
                            if ws.take(k as int).contains(loc) {
                                let j = choose|j: int|
                                    0 <= j < k && #[trigger] ws.take(k as int)[j] == loc;
                                assert(ws.take(k + 1)[j] == loc);
                            }
                        }
                    }
                }
                k += 1;
            }
            proof {
                assert(writes@.take(k as int) == writes@);
            }
            t += 1;
        }
        set
    }
}

} // verus!
