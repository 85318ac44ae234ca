//! The state as a partition sees it while it executes: its own writes over
//! the writes of the final transactions, and below both the database.

use crate::hint::ExecutionHint;
use crate::location::{LocationAndType, LocationKey};
use std::collections::BTreeMap;
use vstd::prelude::*;

verus! {

/// The value of `loc` after the writes are applied in order to a state in
/// which `loc` has the value `before` (`None`: the value of the database).
pub open spec fn value_after<V>(
    before: Option<V>,
    writes: Seq<(LocationAndType, V)>,
    loc: LocationAndType,
) -> Option<V>
    decreases writes.len(),
{
    if writes.len() == 0 {
        before
    } else if writes.last().0 == loc {
        Some(writes.last().1)
    } else {
        value_after(before, writes.drop_last(), loc)
    }
}

/// Whether `loc` is among the locations of `list`.
pub fn contains_location(list: &Vec<LocationAndType>, loc: LocationAndType) -> (found: bool)
    ensures
        found == list@.contains(loc),
{
    let mut i: usize = 0;
    while i < list.len()
        invariant
            i <= list.len(),
            forall|k: int| 0 <= k < i ==> list[k] != loc,
        decreases list.len() - i,
    {
        if list[i] == loc {
            return true;
        }
        i += 1;
    }
    false
}

/// The writes of the final transactions, over the database.
pub struct CommittedState<V> {
    values: BTreeMap<LocationKey, V>,
}

impl<V> CommittedState<V> {
    /// The value that the final transactions left at `loc`; `None` where
    /// none of them wrote it, so that the database holds its value.
    pub closed spec fn value(&self, loc: LocationAndType) -> Option<V> {
        if self.values@.contains_key(loc.spec_key()) {
            Some(self.values@[loc.spec_key()])
        } else {
            None
        }
    }

    /// The state before any transaction is final.
    pub fn new() -> (state: Self)
        ensures
            forall|loc: LocationAndType| (#[trigger] state.value(loc)) is None,
    {
        CommittedState { values: BTreeMap::new() }
    }

    /// The committed value of `loc`, if a final transaction wrote it.
    pub fn get(&self, loc: LocationAndType) -> (value: Option<&V>)
        ensures
            match value {
                Some(v) => self.value(loc) == Some(*v),
                None => self.value(loc) is None,
            },
    {
        let key = loc.key();
        self.values.get(&key)
    }

    /// Applies the writes of a transaction that became final, in order.
    pub fn commit(&mut self, writes: Vec<(LocationAndType, V)>)
        ensures
            forall|loc: LocationAndType| #[trigger]
                final(self).value(loc) == value_after(old(self).value(loc), writes@, loc),
    {
        let ghost all = writes@;
        let ghost before = *self;
        assert(all.take(0) == Seq::<(LocationAndType, V)>::empty());
        for item in it: writes.into_iter()
            invariant
                it.seq() == all,
                forall|loc: LocationAndType| #[trigger]
                    self.value(loc) == value_after(before.value(loc), all.take(it.index()), loc),
        {
            let ghost done = it.index();
            let ghost previous = *self;
            let (written, value) = item;
            self.values.insert(written.key(), value);
            proof {
                let next = all.take(done + 1);
                assert(next.drop_last() == all.take(done));
                assert(next.last() == all[done]);
                assert forall|loc: LocationAndType| #[trigger]
                    self.value(loc) == value_after(before.value(loc), next, loc) by {
                    LocationAndType::lemma_key_injective(loc, written);
                    assert(previous.value(loc) == value_after(
                        before.value(loc),
                        all.take(done),
                        loc,
                    ));
                }
            }
        }
        assert(all.take(all.len() as int) == all);
    }
}

/// The writes of one partition during a round, and what the transaction
/// that is executing has read and written so far.
pub struct SpeculativeLayer<V> {
    values: BTreeMap<LocationKey, V>,
    read_set: Vec<LocationAndType>,
    write_set: Vec<LocationAndType>,
}

impl<V> SpeculativeLayer<V> {
    /// The value that the partition wrote last to `loc`, if it wrote any.
    pub closed spec fn written(&self, loc: LocationAndType) -> Option<V> {
        if self.values@.contains_key(loc.spec_key()) {
            Some(self.values@[loc.spec_key()])
        } else {
            None
        }
    }

    /// The locations that the executing transaction has read, each once,
    /// in order of first access.
    pub closed spec fn reads(&self) -> Seq<LocationAndType> {
        self.read_set@
    }

    /// The locations that the executing transaction has written, each
    /// once, in order of first access.
    pub closed spec fn writes(&self) -> Seq<LocationAndType> {
        self.write_set@
    }

    /// The value that a read of `loc` shows: the partition's own last
    /// write, else the committed value, else (`None`) that of the database.
    pub open spec fn visible(&self, committed: &CommittedState<V>, loc: LocationAndType) -> Option<V> {
        match self.written(loc) {
            Some(v) => Some(v),
            None => committed.value(loc),
        }
    }

    /// The layer of a partition that has not executed anything yet.
    pub fn new() -> (layer: Self)
        ensures
            forall|loc: LocationAndType| (#[trigger] layer.written(loc)) is None,
            layer.reads().len() == 0,
            layer.writes().len() == 0,
    {
        SpeculativeLayer { values: BTreeMap::new(), read_set: Vec::new(), write_set: Vec::new() }
    }

    /// Reads `loc` for the executing transaction: returns the visible
    /// value, or `None` where the database holds it, and notes the
    /// location in the read set on first access.
    pub fn read<'a>(&'a mut self, committed: &'a CommittedState<V>, loc: LocationAndType) -> (value:
        Option<&'a V>)
        ensures
            match value {
                Some(v) => old(self).visible(committed, loc) == Some(*v),
                None => old(self).visible(committed, loc) is None,
            },
            forall|l: LocationAndType| #[trigger] final(self).written(l) == old(self).written(l),
            final(self).writes() == old(self).writes(),
            final(self).reads() == if old(self).reads().contains(loc) {
                old(self).reads()
            } else {
                old(self).reads().push(loc)
            },
    {
        if !contains_location(&self.read_set, loc) {
            self.read_set.push(loc);
        }
        let key = loc.key();
        match self.values.get(&key) {
            Some(v) => Some(v),
            None => committed.get(loc),
        }
    }

    /// Writes `value` to `loc` for the executing transaction: later reads
    /// of the partition see it, and the location is noted in the write set
    /// on first access.
    pub fn write(&mut self, loc: LocationAndType, value: V)
        ensures
            final(self).written(loc) == Some(value),
            forall|l: LocationAndType| l != loc ==> #[trigger] final(self).written(l) == old(self).written(l),
            final(self).reads() == old(self).reads(),
            final(self).writes() == if old(self).writes().contains(loc) {
                old(self).writes()
            } else {
                old(self).writes().push(loc)
            },
    {
        if !contains_location(&self.write_set, loc) {
            self.write_set.push(loc);
        }
        self.values.insert(loc.key(), value);
        proof {
            assert forall|l: LocationAndType| l != loc implies #[trigger] self.written(l) == old(
                self,
            ).written(l) by {
                LocationAndType::lemma_key_injective(l, loc);
            }
        }
    }

    /// Ends the executing transaction: hands out what it read and wrote
    /// and starts the next one with empty sets. The values written stay
    /// visible to the transactions that follow in the partition.
    pub fn finish_transaction(&mut self) -> (observed: ExecutionHint)
        ensures
            observed.read_set@ == old(self).reads(),
            observed.write_set@ == old(self).writes(),
            final(self).reads().len() == 0,
            final(self).writes().len() == 0,
            forall|l: LocationAndType| #[trigger] final(self).written(l) == old(self).written(l),
    {
        let mut read_set: Vec<LocationAndType> = Vec::new();
        let mut write_set: Vec<LocationAndType> = Vec::new();
        std::mem::swap(&mut read_set, &mut self.read_set);
        std::mem::swap(&mut write_set, &mut self.write_set);
        ExecutionHint::new(read_set, write_set)
    }
}

} // verus!
