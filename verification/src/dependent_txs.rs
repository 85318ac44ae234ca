//! The short lists of transaction ids that the dependency graph is made of.

use smallvec::SmallVec;
use vstd::prelude::*;

verus! {

/// A list of transaction ids, stored inline while it holds a single id: a
/// `smallvec::SmallVec` with room for one item. The list is opaque to the
/// verifier; what it holds is known through `dependent_txs` only, and the
/// four functions below say, without proof, what the methods of `SmallVec` do.
#[verifier::external_body]
pub struct DependentTxsVec {
    inner: SmallVec<[usize; 1]>,
}

/// The transaction ids that a `DependentTxsVec` holds, in order of insertion.
pub uninterp spec fn dependent_txs(v: DependentTxsVec) -> Seq<usize>;

/// `SmallVec::new`: the new list holds nothing.
#[verifier::external_body]
fn txs_new() -> (v: DependentTxsVec)
    ensures
        dependent_txs(v) == Seq::<usize>::empty(),
{
    DependentTxsVec { inner: SmallVec::new() }
}

/// `SmallVec::push`: the value is appended behind the items already held.
#[verifier::external_body]
fn txs_push(v: &mut DependentTxsVec, tx: usize)
    ensures
        dependent_txs(*final(v)) == dependent_txs(*old(v)).push(tx),
{
    v.inner.push(tx)
}

/// `SmallVec::len`: the number of items held.
#[verifier::external_body]
fn txs_len(v: &DependentTxsVec) -> (n: usize)
    ensures
        n == dependent_txs(*v).len(),
{
    v.inner.len()
}

/// `SmallVec`'s `Index::index` with a position: the item at position `i`.
/// It panics beyond the length, which the precondition rules out.
#[verifier::external_body]
fn txs_get(v: &DependentTxsVec, i: usize) -> (tx: usize)
    requires
        i < dependent_txs(*v).len(),
    ensures
        tx == dependent_txs(*v)[i as int],
{
    v.inner[i]
}

impl View for DependentTxsVec {
    type V = Seq<usize>;

    open spec fn view(&self) -> Seq<usize> {
        dependent_txs(*self)
    }
}

impl DependentTxsVec {
    /// An empty list.
    pub fn new() -> (v: Self)
        ensures
            v@ == Seq::<usize>::empty(),
    {
        txs_new()
    }

    /// Appends `tx` behind the ids already held.
    pub fn push(&mut self, tx: usize)
        ensures
            final(self)@ == old(self)@.push(tx),
    {
        txs_push(self, tx)
    }

    /// The number of ids held.
    pub fn len(&self) -> (n: usize)
        ensures
            n == self@.len(),
    {
        txs_len(self)
    }

    /// Whether the list holds no id.
    pub fn is_empty(&self) -> (b: bool)
        ensures
            b == (self@.len() == 0),
    {
        txs_len(self) == 0
    }

    /// The id at position `i`.
    pub fn get(&self, i: usize) -> (tx: usize)
        requires
            i < self@.len(),
        ensures
            tx == self@[i as int],
    {
        txs_get(self, i)
    }

    /// The id at position `i`, or `None` where the list is shorter.
    pub fn try_get(&self, i: usize) -> (tx: Option<usize>)
        ensures
            tx == (if i < self@.len() {
                Some(self@[i as int])
            } else {
                None
            }),
    {
        if i < txs_len(self) {
            Some(txs_get(self, i))
        } else {
            None
        }
    }

    /// A list with the ids of `txs`, in the same order.
    pub fn from_vec(txs: &Vec<usize>) -> (v: Self)
        ensures
            v@ == txs@,
    {
        let mut v = txs_new();
        let mut i: usize = 0;
        while i < txs.len()
            invariant
                i <= txs.len(),
                v@ == txs@.take(i as int),
            decreases txs.len() - i,
        {
            txs_push(&mut v, txs[i]);
            assert(txs@.take(i + 1) == txs@.take(i as int).push(txs@[i as int]));
            i += 1;
        }
        assert(txs@.take(txs.len() as int) == txs@);
        v
    }

    /// The ids held, in order, as a vector.
    pub fn to_vec(&self) -> (txs: Vec<usize>)
        ensures
            txs@ == self@,
    {
        let mut txs: Vec<usize> = Vec::new();
        let n = txs_len(self);
        let mut i: usize = 0;
        while i < n
            invariant
                n == self@.len(),
                i <= n,
                txs@ == self@.take(i as int),
            decreases n - i,
        {
            txs.push(txs_get(self, i));
            assert(self@.take(i + 1) == self@.take(i as int).push(self@[i as int]));
            i += 1;
        }
        assert(self@.take(n as int) == self@);
        txs
    }
}

} // verus!
