//! The dependency graph over the pending transactions: its edges, its
//! connected components, and the search that finds them.

use crate::dependent_txs::DependentTxsVec;
use crate::tx_dependency::deps_view;
use vstd::prelude::*;

verus! {

/// Every dependency of a pending transaction is an earlier transaction:
/// position `i` of the graph stands for transaction `nf + i`.
pub open spec fn edges_valid(deps: Seq<Seq<usize>>, nf: int) -> bool {
    forall|i: int, k: int|
        0 <= i < deps.len() && 0 <= k < deps[i].len() ==> (#[trigger] deps[i][k]) < nf + i
}

/// Pending transaction `nf + i` depends on pending transaction `nf + j`.
pub open spec fn depends_on(deps: Seq<Seq<usize>>, nf: int, i: int, j: int) -> bool {
    &&& 0 <= i < deps.len()
    &&& 0 <= j < deps.len()
    &&& exists|k: int| 0 <= k < deps[i].len() && #[trigger] deps[i][k] == nf + j
}

/// One of the two pending transactions depends on the other.
pub open spec fn linked(deps: Seq<Seq<usize>>, nf: int, i: int, j: int) -> bool {
    depends_on(deps, nf, i, j) || depends_on(deps, nf, j, i)
}

/// A walk through the graph: each position is linked to the next.
pub open spec fn is_path(deps: Seq<Seq<usize>>, nf: int, p: Seq<int>) -> bool {
    &&& p.len() > 0
    &&& forall|k: int| 0 <= k < p.len() ==> 0 <= #[trigger] p[k] < deps.len()
    &&& forall|k: int| 0 <= k < p.len() - 1 ==> linked(deps, nf, #[trigger] p[k], p[k + 1])
}

/// Some walk leads from `i` to `j`.
pub open spec fn connected(deps: Seq<Seq<usize>>, nf: int, i: int, j: int) -> bool {
    exists|p: Seq<int>| #[trigger] is_path(deps, nf, p) && p[0] == i && p[p.len() - 1] == j
}

/// A position of the graph is connected to itself.
pub proof fn lemma_connected_refl(deps: Seq<Seq<usize>>, nf: int, i: int)
    requires
        0 <= i < deps.len(),
    ensures
        connected(deps, nf, i, i),
{
    let p = seq![i];
    assert(is_path(deps, nf, p));
    assert(p[0] == i && p[p.len() - 1] == i);
}

/// A position linked to one that is connected to `s` is connected to `s`.
pub proof fn lemma_connected_step(deps: Seq<Seq<usize>>, nf: int, j: int, u: int, s: int)
    requires
        linked(deps, nf, j, u),
        connected(deps, nf, u, s),
    ensures
        connected(deps, nf, j, s),
{
    let p = choose|p: Seq<int>| #[trigger] is_path(deps, nf, p) && p[0] == u && p[p.len() - 1] == s;
    let q = seq![j] + p;
    assert forall|k: int| 0 <= k < q.len() implies 0 <= #[trigger] q[k] < deps.len() by {
        if k > 0 {
            assert(q[k] == p[k - 1]);
        }
    }
    assert forall|k: int| 0 <= k < q.len() - 1 implies linked(deps, nf, #[trigger] q[k], q[k + 1]) by {
        if k > 0 {
            assert(q[k] == p[k - 1]);
            assert(q[k + 1] == p[k]);
        } else {
            assert(q[1] == p[0]);
        }
    }
    assert(is_path(deps, nf, q));
    assert(q[0] == j && q[q.len() - 1] == s);
}

/// `label` names the connected components: every position carries the
/// greatest position of its component.
pub open spec fn is_component_labeling(deps: Seq<Seq<usize>>, nf: int, label: Seq<usize>) -> bool {
    &&& label.len() == deps.len()
    &&& forall|i: int|
        0 <= i < label.len() ==> i <= #[trigger] label[i] < label.len() && label[label[i] as int]
            == label[i]
    &&& forall|i: int, j: int| #[trigger]
        linked(deps, nf, i, j) ==> label[i] == label[j]
    &&& forall|i: int| 0 <= i < label.len() ==> connected(deps, nf, i, #[trigger] label[i] as int)
}

/// Along a walk the label does not change.
pub proof fn lemma_path_keeps_label(deps: Seq<Seq<usize>>, nf: int, label: Seq<usize>, p: Seq<int>, k: int)
    requires
        is_component_labeling(deps, nf, label),
        is_path(deps, nf, p),
        0 <= k < p.len(),
    ensures
        label[p[k]] == label[p[0]],
    decreases k,
{
    if k > 0 {
        lemma_path_keeps_label(deps, nf, label, p, k - 1);
        assert(linked(deps, nf, p[k - 1], p[k - 1 + 1]));
    }
}

/// Under a component labeling two positions carry the same label exactly
/// when they are connected, and the label is the greatest position
/// connected to them.
pub proof fn lemma_labeling_is_components(
    deps: Seq<Seq<usize>>,
    nf: int,
    label: Seq<usize>,
    i: int,
    j: int,
)
    requires
        is_component_labeling(deps, nf, label),
        0 <= i < deps.len(),
        0 <= j < deps.len(),
    ensures
        connected(deps, nf, i, j) ==> label[i] == label[j] && j <= label[i],
        label[i] == label[j] ==> connected(deps, nf, i, j),
{
    if connected(deps, nf, i, j) {
        let p = choose|p: Seq<int>| #[trigger]
            is_path(deps, nf, p) && p[0] == i && p[p.len() - 1] == j;
        lemma_path_keeps_label(deps, nf, label, p, p.len() - 1);
    }
    if label[i] == label[j] {
        let s = label[i] as int;
        lemma_connected_sym(deps, nf, j, s);
        lemma_connected_trans(deps, nf, i, s, j);
    }
}

/// A walk can be walked backwards.
pub proof fn lemma_connected_sym(deps: Seq<Seq<usize>>, nf: int, i: int, j: int)
    requires
        connected(deps, nf, i, j),
    ensures
        connected(deps, nf, j, i),
{
    let p = choose|p: Seq<int>| #[trigger] is_path(deps, nf, p) && p[0] == i && p[p.len() - 1] == j;
    let q = p.reverse();
    assert forall|k: int| 0 <= k < q.len() - 1 implies linked(deps, nf, #[trigger] q[k], q[k + 1]) by {
        let m = p.len() - 2 - k;
        assert(q[k] == p[m + 1]);
        assert(q[k + 1] == p[m]);
        assert(linked(deps, nf, p[m], p[m + 1]));
    }
    assert forall|k: int| 0 <= k < q.len() implies 0 <= #[trigger] q[k] < deps.len() by {
        assert(q[k] == p[p.len() - 1 - k]);
    }
    assert(is_path(deps, nf, q));
    assert(q[0] == j && q[q.len() - 1] == i);
}

/// Two walks that meet make one walk.
pub proof fn lemma_connected_trans(deps: Seq<Seq<usize>>, nf: int, i: int, m: int, j: int)
    requires
        connected(deps, nf, i, m),
        connected(deps, nf, m, j),
    ensures
        connected(deps, nf, i, j),
{
    let p = choose|p: Seq<int>| #[trigger] is_path(deps, nf, p) && p[0] == i && p[p.len() - 1] == m;
    let r = choose|r: Seq<int>| #[trigger] is_path(deps, nf, r) && r[0] == m && r[r.len() - 1] == j;
    lemma_path_end_connected(deps, nf, p, r, p.len() - 1);
}

/// Every position of a walk that ends where another begins is connected to
/// the end of the other.
proof fn lemma_path_end_connected(deps: Seq<Seq<usize>>, nf: int, p: Seq<int>, r: Seq<int>, k: int)
    requires
        is_path(deps, nf, p),
        is_path(deps, nf, r),
        p[p.len() - 1] == r[0],
        0 <= k < p.len(),
    ensures
        connected(deps, nf, p[p.len() - 1 - k], r[r.len() - 1]),
    decreases k,
{
    if k == 0 {
        assert(is_path(deps, nf, r) && r[0] == p[p.len() - 1] && r[r.len() - 1] == r[r.len() - 1]);
    } else {
        lemma_path_end_connected(deps, nf, p, r, k - 1);
        let a = p.len() - 1 - k;
        assert(linked(deps, nf, p[a], p[a + 1]));
        lemma_connected_step(deps, nf, p[a], p[a + 1], r[r.len() - 1]);
    }
}

/// `rdeps` turns the edges of `deps` round: position `j` lists exactly the
/// pending transactions that depend on transaction `nf + j`.
pub open spec fn is_reverse_of(rdeps: Seq<Seq<usize>>, deps: Seq<Seq<usize>>, nf: int) -> bool {
    &&& rdeps.len() == deps.len()
    &&& forall|j: int, k: int|
        0 <= j < rdeps.len() && 0 <= k < rdeps[j].len() ==> nf <= #[trigger] rdeps[j][k]
            && depends_on(deps, nf, rdeps[j][k] - nf, j)
    &&& forall|i: int, k: int|
        0 <= i < deps.len() && 0 <= k < deps[i].len() && nf <= #[trigger] deps[i][k]
            ==> lists(rdeps, deps[i][k] - nf, nf + i)
}

/// List `j` of `lists` holds the value `x`.
pub open spec fn lists(all: Seq<Seq<usize>>, j: int, x: int) -> bool {
    0 <= j < all.len() && exists|m: int| 0 <= m < all[j].len() && #[trigger] all[j][m] == x
}

/// A vector of `n` empty lists.
pub fn empty_lists(n: usize) -> (v: Vec<DependentTxsVec>)
    ensures
        v.len() == n,
        forall|i: int| 0 <= i < n ==> (#[trigger] v[i])@.len() == 0,
{
    let mut v: Vec<DependentTxsVec> = Vec::new();
    let mut i: usize = 0;
    while i < n
        invariant
            i <= n,
            v.len() == i,
            forall|j: int| 0 <= j < i ==> (#[trigger] v[j])@.len() == 0,
        decreases n - i,
    {
        v.push(DependentTxsVec::new());
        i += 1;
    }
    v
}

/// The reverse adjacency of the graph: for each pending transaction, the
/// pending transactions that depend on it. Dependencies on transactions
/// before `nf` are left out.
pub(crate) fn reverse_dependency(deps: &Vec<DependentTxsVec>, nf: usize) -> (rdeps: Vec<DependentTxsVec>)
    requires
        nf + deps.len() <= usize::MAX,
        edges_valid(deps_view(deps@), nf as int),
    ensures
        is_reverse_of(deps_view(rdeps@), deps_view(deps@), nf as int),
{
    let n = deps.len();
    let mut rdeps = empty_lists(n);
    let ghost d = deps_view(deps@);
    let mut i: usize = 0;
    while i < n
        invariant
            n == deps.len(),
            d == deps_view(deps@),
            nf + n <= usize::MAX,
            edges_valid(d, nf as int),
            i <= n,
            rdeps.len() == n,
            forall|j: int, k: int|
                0 <= j < n && 0 <= k < deps_view(rdeps@)[j].len() ==> nf <= #[trigger] deps_view(
                    rdeps@,
                )[j][k] && depends_on(d, nf as int, deps_view(rdeps@)[j][k] - nf, j),
            forall|a: int, k: int|
                0 <= a < i && 0 <= k < d[a].len() && nf <= #[trigger] d[a][k] ==> lists(
                    deps_view(rdeps@),
                    d[a][k] - nf,
                    nf + a,
                ),
        decreases n - i,
    {
        let len_i = deps[i].len();
        let mut k: usize = 0;
        while k < len_i
            invariant
                n == deps.len(),
                d == deps_view(deps@),
                nf + n <= usize::MAX,
                edges_valid(d, nf as int),
                i < n,
                len_i == d[i as int].len(),
                k <= len_i,
                rdeps.len() == n,
                forall|j: int, m: int|
                    0 <= j < n && 0 <= m < deps_view(rdeps@)[j].len() ==> nf
                        <= #[trigger] deps_view(rdeps@)[j][m] && depends_on(
                        d,
                        nf as int,
                        deps_view(rdeps@)[j][m] - nf,
                        j,
                    ),
                forall|a: int, m: int|
                    0 <= a < i && 0 <= m < d[a].len() && nf <= #[trigger] d[a][m] ==> lists(
                        deps_view(rdeps@),
                        d[a][m] - nf,
                        nf + a,
                    ),
                forall|m: int|
                    0 <= m < k && nf <= #[trigger] d[i as int][m] ==> lists(
                        deps_view(rdeps@),
                        d[i as int][m] - nf,
                        nf + i,
                    ),
            decreases len_i - k,
        {
            let dep = deps[i].get(k);
            assert(dep == d[i as int][k as int]);
            if dep >= nf {
                let j: usize = dep - nf;
                let ghost before = deps_view(rdeps@);
                rdeps[j].push(nf + i);
                proof {
                    let after = deps_view(rdeps@);
                    assert(after[j as int] == before[j as int].push((nf + i) as usize));
                    assert(forall|x: int| 0 <= x < n && x != j ==> after[x] == before[x]);
                    assert(depends_on(d, nf as int, i as int, j as int));
                    assert forall|x: int, m: int|
                        0 <= x < n && 0 <= m < after[x].len() implies nf <= #[trigger] after[x][m]
                        && depends_on(d, nf as int, after[x][m] - nf, x) by {
                        if x == j && m == before[j as int].len() {
                        } else {
                            assert(after[x][m] == before[x][m]);
                        }
                    }
                    assert forall|x: int, y: int| lists(before, x, y) implies lists(after, x, y) by {
                        let m = choose|m: int| 0 <= m < before[x].len() && #[trigger] before[x][m] == y;
                        assert(after[x][m] == y);
                    }
                    assert(after[j as int][before[j as int].len() as int] == nf + i);
                    assert(lists(after, j as int, nf + i));
                }
            }
            k += 1;
        }
        i += 1;
    }
    rdeps
}

/// The number of positions that the search has not reached yet.
pub open spec fn count_false(v: Seq<bool>) -> nat
    decreases v.len(),
{
    if v.len() == 0 {
        0
    } else {
        count_false(v.drop_last()) + if v.last() {
            0nat
        } else {
            1nat
        }
    }
}

proof fn lemma_count_false_update(v: Seq<bool>, i: int)
    requires
        0 <= i < v.len(),
        !v[i],
    ensures
        count_false(v.update(i, true)) + 1 == count_false(v),
    decreases v.len(),
{
    let w = v.update(i, true);
    if i == v.len() - 1 {
        assert(w.drop_last() == v.drop_last());
    } else {
        lemma_count_false_update(v.drop_last(), i);
        assert(w.drop_last() == v.drop_last().update(i, true));
    }
}

/// Every position reached so far carries the label of a reached position
/// that labels itself, lies at or above it, and is connected to it.
pub open spec fn labels_ok(deps: Seq<Seq<usize>>, nf: int, visited: Seq<bool>, label: Seq<usize>) -> bool {
    forall|i: int|
        0 <= i < visited.len() && #[trigger] visited[i] ==> {
            &&& i <= label[i] < visited.len()
            &&& visited[label[i] as int]
            &&& label[label[i] as int] == label[i]
            &&& connected(deps, nf, i, label[i] as int)
        }
}

/// Every reached position that is not pending has all its neighbours
/// reached, under its own label.
pub open spec fn closed_except(
    deps: Seq<Seq<usize>>,
    nf: int,
    visited: Seq<bool>,
    label: Seq<usize>,
    pending: Seq<usize>,
) -> bool {
    forall|i: int, j: int|
        0 <= i < visited.len() && visited[i] && #[trigger] linked(deps, nf, i, j)
            && !pending.contains(i as usize) ==> visited[j] && label[j] == label[i]
}

/// The state of the search while the component of `seed` is explored:
/// `queue` from `head` on holds the positions reached and not yet expanded.
pub open spec fn search_inv(
    deps: Seq<Seq<usize>>,
    nf: int,
    visited: Seq<bool>,
    label: Seq<usize>,
    queue: Seq<usize>,
    head: int,
    seed: int,
) -> bool {
    &&& visited.len() == deps.len()
    &&& label.len() == deps.len()
    &&& 0 <= head <= queue.len()
    &&& 0 <= seed < deps.len()
    &&& forall|i: int| seed <= i < deps.len() ==> #[trigger] visited[i]
    &&& label[seed] == seed
    &&& labels_ok(deps, nf, visited, label)
    &&& closed_except(deps, nf, visited, label, queue.skip(head))
    &&& forall|k: int|
        head <= k < queue.len() ==> (#[trigger] queue[k]) < deps.len() && visited[queue[k] as int]
            && label[queue[k] as int] == seed
}

/// Reaches position `j`, a neighbour of the position `u` that is being
/// expanded: where it was not reached before, it gets the label of the seed
/// and joins the queue.
fn visit(
    Ghost(deps): Ghost<Seq<Seq<usize>>>,
    Ghost(nf): Ghost<int>,
    visited: &mut Vec<bool>,
    label: &mut Vec<usize>,
    queue: &mut Vec<usize>,
    Ghost(head): Ghost<int>,
    seed: usize,
    j: usize,
)
    requires
        search_inv(deps, nf, old(visited)@, old(label)@, old(queue)@, head, seed as int),
        head < old(queue).len(),
        linked(deps, nf, j as int, old(queue)[head] as int),
        j < deps.len(),
    ensures
        search_inv(deps, nf, final(visited)@, final(label)@, final(queue)@, head, seed as int),
        final(visited)[j as int],
        final(label)[j as int] == seed,
        final(queue).len() >= old(queue).len(),
        final(queue)@.take(old(queue).len() as int) == old(queue)@,
        count_false(final(visited)@) + final(queue).len() == count_false(old(visited)@) + old(
            queue,
        ).len(),
        forall|i: int|
            0 <= i < deps.len() && old(visited)[i] ==> final(visited)[i] && final(label)[i] == old(
                label,
            )[i],
{
    let ghost v0 = visited@;
    let ghost l0 = label@;
    let ghost q0 = queue@;
    let ghost u = q0[head] as int;
    assert(q0.skip(head)[0] == q0[head]);
    if visited[j] {
        proof {
            if q0.skip(head).contains(j) {
                let m = choose|m: int| 0 <= m < q0.skip(head).len() && q0.skip(head)[m] == j;
                assert(q0[head + m] == j);
            } else {
                assert(linked(deps, nf, j as int, u));
            }
            assert(q0.take(q0.len() as int) == q0);
        }
    } else {
        proof {
            lemma_count_false_update(v0, j as int);
            lemma_connected_step(deps, nf, j as int, u, seed as int);
        }
        visited.set(j, true);
        label.set(j, seed);
        queue.push(j);
        proof {
            let v1 = visited@;
            let l1 = label@;
            let q1 = queue@;
            assert(q1.take(q0.len() as int) == q0);
            assert(j < seed);
            assert forall|i: int| 0 <= i < v1.len() && #[trigger] v1[i] implies {
                &&& i <= l1[i] < v1.len()
                &&& v1[l1[i] as int]
                &&& l1[l1[i] as int] == l1[i]
                &&& connected(deps, nf, i, l1[i] as int)
            } by {
                if i != j {
                    assert(v0[i]);
                    assert(l0[i] != j);
                }
            }
            assert forall|i: int, x: int|
                0 <= i < v1.len() && v1[i] && #[trigger] linked(deps, nf, i, x) && !q1.skip(
                    head,
                ).contains(i as usize) implies v1[x] && l1[x] == l1[i] by {
                assert(q1.skip(head)[q0.len() - head] == j);
                assert(i != j);
                if q0.skip(head).contains(i as usize) {
                    let m = choose|m: int|
                        0 <= m < q0.skip(head).len() && q0.skip(head)[m] == i as usize;
                    assert(q1.skip(head)[m] == i as usize);
                }
                assert(v0[x] && l0[x] == l0[i]);
            }
            assert forall|k: int| head <= k < q1.len() implies (#[trigger] q1[k]) < deps.len()
                && v1[q1[k] as int] && l1[q1[k] as int] == seed by {
                if k < q0.len() {
                    assert(q1[k] == q0[k]);
                }
            }
        }
    }
}

/// Reaches every pending transaction that `list` names; each of them is a
/// neighbour of the position that is being expanded.
fn visit_all(
    Ghost(deps): Ghost<Seq<Seq<usize>>>,
    list: &DependentTxsVec,
    nf: usize,
    visited: &mut Vec<bool>,
    label: &mut Vec<usize>,
    queue: &mut Vec<usize>,
    Ghost(head): Ghost<int>,
    seed: usize,
)
    requires
        search_inv(deps, nf as int, old(visited)@, old(label)@, old(queue)@, head, seed as int),
        head < old(queue).len(),
        forall|m: int|
            0 <= m < list@.len() && nf <= #[trigger] list@[m] ==> list@[m] - nf < deps.len()
                && linked(deps, nf as int, list@[m] - nf, old(queue)[head] as int),
    ensures
        search_inv(deps, nf as int, final(visited)@, final(label)@, final(queue)@, head, seed as int),
        final(queue).len() >= old(queue).len(),
        final(queue)@.take(old(queue).len() as int) == old(queue)@,
        count_false(final(visited)@) + final(queue).len() == count_false(old(visited)@) + old(
            queue,
        ).len(),
        forall|i: int|
            0 <= i < deps.len() && old(visited)[i] ==> final(visited)[i] && final(label)[i] == old(
                label,
            )[i],
        forall|m: int|
            0 <= m < list@.len() && nf <= #[trigger] list@[m] ==> final(visited)[list@[m] - nf]
                && final(label)[list@[m] - nf] == seed,
{
    let ghost v0 = visited@;
    let ghost l0 = label@;
    let ghost q0 = queue@;
    let len: usize = list.len();
    let mut k: usize = 0;
    assert(q0.take(q0.len() as int) == q0);
    while k < len
        invariant
            len == list@.len(),
            k <= len,
            search_inv(deps, nf as int, v0, l0, q0, head, seed as int),
            search_inv(deps, nf as int, visited@, label@, queue@, head, seed as int),
            head < q0.len(),
            forall|m: int|
                0 <= m < list@.len() && nf <= #[trigger] list@[m] ==> list@[m] - nf < deps.len()
                    && linked(deps, nf as int, list@[m] - nf, q0[head] as int),
            queue.len() >= q0.len(),
            queue@.take(q0.len() as int) == q0,
            count_false(visited@) + queue.len() == count_false(v0) + q0.len(),
            forall|i: int| 0 <= i < deps.len() && v0[i] ==> visited[i] && label[i] == l0[i],
            forall|m: int|
                0 <= m < k && nf <= #[trigger] list@[m] ==> visited[list@[m] - nf] && label[list@[m]
                    - nf] == seed,
        decreases len - k,
    {
        let x = list.get(k);
        if x >= nf {
            let ghost v1 = visited@;
            let ghost l1 = label@;
            let ghost q1 = queue@;
            assert(q1[head] == q1.take(q0.len() as int)[head]);
            visit(Ghost(deps), Ghost(nf as int), visited, label, queue, Ghost(head), seed, x - nf);
            proof {
                assert(queue@.take(q0.len() as int) == queue@.take(q1.len() as int).take(
                    q0.len() as int,
                ));
                assert forall|m: int| 0 <= m < k + 1 && nf <= #[trigger] list@[m] implies visited[list@[m]
                    - nf] && label[list@[m] - nf] == seed by {
                    if m < k {
                        assert(v1[list@[m] - nf]);
                    }
                }
            }
        }
        k += 1;
    }
}

/// Expands the position at the head of the queue: reaches the transactions
/// that it depends on and those that depend on it.
fn expand(
    deps: &Vec<DependentTxsVec>,
    rdeps: &Vec<DependentTxsVec>,
    nf: usize,
    visited: &mut Vec<bool>,
    label: &mut Vec<usize>,
    queue: &mut Vec<usize>,
    head: usize,
    seed: usize,
)
    requires
        nf + deps.len() <= usize::MAX,
        edges_valid(deps_view(deps@), nf as int),
        is_reverse_of(deps_view(rdeps@), deps_view(deps@), nf as int),
        search_inv(
            deps_view(deps@),
            nf as int,
            old(visited)@,
            old(label)@,
            old(queue)@,
            head as int,
            seed as int,
        ),
        head < old(queue).len(),
    ensures
        search_inv(
            deps_view(deps@),
            nf as int,
            final(visited)@,
            final(label)@,
            final(queue)@,
            head + 1,
            seed as int,
        ),
        final(queue).len() >= old(queue).len(),
        count_false(final(visited)@) + final(queue).len() == count_false(old(visited)@) + old(
            queue,
        ).len(),
{
    let ghost d = deps_view(deps@);
    let ghost rd = deps_view(rdeps@);
    let ghost q0 = queue@;
    let u: usize = queue[head];
    assert(q0.skip(head as int)[0] == u);
    assert(visited[u as int]);
    assert(d[u as int] == deps@[u as int]@);
    assert forall|m: int| 0 <= m < d[u as int].len() && nf <= #[trigger] d[u as int][m] implies d[u as int][m]
        - nf < d.len() && linked(d, nf as int, d[u as int][m] - nf, u as int) by {
        assert(depends_on(d, nf as int, u as int, d[u as int][m] - nf));
    }
    visit_all(Ghost(d), &deps[u], nf, visited, label, queue, Ghost(head as int), seed);
    let ghost q1 = queue@;
    assert(q1[head as int] == q1.take(q0.len() as int)[head as int]);
    assert(rd[u as int] == rdeps@[u as int]@);
    assert forall|m: int| 0 <= m < rd[u as int].len() && nf <= #[trigger] rd[u as int][m] implies rd[u as int][m]
        - nf < d.len() && linked(d, nf as int, rd[u as int][m] - nf, u as int) by {
        assert(depends_on(d, nf as int, rd[u as int][m] - nf, u as int));
    }
    visit_all(Ghost(d), &rdeps[u], nf, visited, label, queue, Ghost(head as int), seed);
    proof {
        let q2 = queue@;
        assert(q2[head as int] == q2.take(q1.len() as int)[head as int]);
        assert(d[u as int] == deps@[u as int]@);
        lemma_expanded(d, rd, nf as int, visited@, label@, q2, head as int, seed as int);
    }
}

/// Once all neighbours of the position at the head of the queue are
/// reached under the label of the seed, that position is done.
proof fn lemma_expanded(
    d: Seq<Seq<usize>>,
    rd: Seq<Seq<usize>>,
    nf: int,
    v: Seq<bool>,
    l: Seq<usize>,
    q: Seq<usize>,
    head: int,
    seed: int,
)
    requires
        is_reverse_of(rd, d, nf),
        search_inv(d, nf, v, l, q, head, seed),
        head < q.len(),
        forall|m: int|
            0 <= m < d[q[head] as int].len() && nf <= #[trigger] d[q[head] as int][m] ==> v[d[q[head] as int][m]
                - nf] && l[d[q[head] as int][m] - nf] == seed,
        forall|m: int|
            0 <= m < rd[q[head] as int].len() && nf <= #[trigger] rd[q[head] as int][m] ==> v[rd[q[head] as int][m]
                - nf] && l[rd[q[head] as int][m] - nf] == seed,
    ensures
        search_inv(d, nf, v, l, q, head + 1, seed),
{
    let u = q[head] as int;
    assert(l[u] == seed);
    assert forall|i: int, x: int|
        0 <= i < v.len() && v[i] && #[trigger] linked(d, nf, i, x) && !q.skip(head + 1).contains(
            i as usize,
        ) implies v[x] && l[x] == l[i] by {
        if i == u {
            if depends_on(d, nf, u, x) {
                let k = choose|k: int| 0 <= k < d[u].len() && #[trigger] d[u][k] == nf + x;
                assert(nf <= d[u][k]);
            } else {
                assert(depends_on(d, nf, x, u));
                let k = choose|k: int| 0 <= k < d[x].len() && #[trigger] d[x][k] == nf + u;
                assert(nf <= d[x][k]);
                assert(lists(rd, u, nf + x));
                let m = choose|m: int| 0 <= m < rd[u].len() && #[trigger] rd[u][m] == nf + x;
                assert(nf <= rd[u][m]);
            }
        } else {
            if q.skip(head).contains(i as usize) {
                let m = choose|m: int| 0 <= m < q.skip(head).len() && q.skip(head)[m] == i as usize;
                assert(m > 0);
                assert(q.skip(head + 1)[m - 1] == i as usize);
            }
        }
    }
}

/// Labels every pending transaction with the greatest position of its
/// connected component. The search starts at the highest position and floods
/// along dependencies in both directions, breadth first.
pub fn label_components(deps: &Vec<DependentTxsVec>, nf: usize) -> (label: Vec<usize>)
    requires
        nf + deps.len() <= usize::MAX,
        edges_valid(deps_view(deps@), nf as int),
    ensures
        is_component_labeling(deps_view(deps@), nf as int, label@),
{
    let n: usize = deps.len();
    let rdeps = reverse_dependency(deps, nf);
    let ghost d = deps_view(deps@);
    let mut visited: Vec<bool> = Vec::new();
    let mut label: Vec<usize> = Vec::new();
    let mut i: usize = 0;
    while i < n
        invariant
            i <= n,
            visited.len() == i,
            label.len() == i,
            forall|k: int| 0 <= k < i ==> !(#[trigger] visited[k]),
        decreases n - i,
    {
        visited.push(false);
        label.push(0);
        i += 1;
    }
    let mut queue: Vec<usize> = Vec::new();
    let mut s: usize = n;
    while s > 0
        invariant
            n == deps.len(),
            d == deps_view(deps@),
            nf + n <= usize::MAX,
            edges_valid(d, nf as int),
            is_reverse_of(deps_view(rdeps@), d, nf as int),
            s <= n,
            visited.len() == n,
            label.len() == n,
            forall|k: int| s <= k < n ==> #[trigger] visited[k],
            labels_ok(d, nf as int, visited@, label@),
            closed_except(d, nf as int, visited@, label@, Seq::<usize>::empty()),
        decreases s,
    {
        let seed: usize = s - 1;
        if !visited[seed] {
            let ghost v0 = visited@;
            let ghost l0 = label@;
            visited.set(seed, true);
            label.set(seed, seed);
            queue.clear();
            queue.push(seed);
            let mut head: usize = 0;
            proof {
                let v1 = visited@;
                let l1 = label@;
                lemma_connected_refl(d, nf as int, seed as int);
                assert forall|a: int| 0 <= a < v1.len() && #[trigger] v1[a] implies {
                    &&& a <= l1[a] < v1.len()
                    &&& v1[l1[a] as int]
                    &&& l1[l1[a] as int] == l1[a]
                    &&& connected(d, nf as int, a, l1[a] as int)
                } by {
                    if a != seed {
                        assert(v0[a]);
                        assert(v0[l0[a] as int]);
                    }
                }
                assert(queue@.skip(0)[0] == seed);
                assert forall|a: int, x: int|
                    0 <= a < v1.len() && v1[a] && #[trigger] linked(d, nf as int, a, x)
                        && !queue@.skip(0).contains(a as usize) implies v1[x] && l1[x] == l1[a] by {
                    assert(a != seed);
                    assert(v0[a]);
                    assert(!Seq::<usize>::empty().contains(a as usize));
                    assert(v0[x] && l0[x] == l0[a]);
                }
            }
            while head < queue.len()
                invariant
                    n == deps.len(),
                    d == deps_view(deps@),
                    nf + n <= usize::MAX,
                    edges_valid(d, nf as int),
                    is_reverse_of(deps_view(rdeps@), d, nf as int),
                    seed == s - 1,
                    search_inv(d, nf as int, visited@, label@, queue@, head as int, seed as int),
                decreases count_false(visited@) + queue.len() - head,
            {
                expand(deps, &rdeps, nf, &mut visited, &mut label, &mut queue, head, seed);
                head += 1;
            }
            assert(queue@.skip(head as int) == Seq::<usize>::empty());
        }
        s -= 1;
    }
    proof {
        assert forall|a: int, b: int| #[trigger] linked(d, nf as int, a, b) implies label@[a]
            == label@[b] by {
            if depends_on(d, nf as int, a, b) {
            } else {
                assert(depends_on(d, nf as int, b, a));
            }
            assert(visited@[a]);
            assert(!Seq::<usize>::empty().contains(a as usize));
        }
        assert forall|a: int| 0 <= a < label@.len() implies a <= #[trigger] label@[a] < label@.len()
            && label@[label@[a] as int] == label@[a] by {
            assert(visited@[a]);
        }
        assert forall|a: int| 0 <= a < label@.len() implies connected(
            d,
            nf as int,
            a,
            #[trigger] label@[a] as int,
        ) by {
            assert(visited@[a]);
        }
    }
    label
}

} // verus!
