//! Balancing the connected groups of transactions over the partitions.

use vstd::prelude::*;

verus! {

/// The number of positions below `k` that carry the label `s`.
pub open spec fn group_size(label: Seq<usize>, s: int, k: int) -> int
    decreases k,
{
    if k <= 0 {
        0
    } else {
        group_size(label, s, k - 1) + if label[k - 1] == s {
            1int
        } else {
            0int
        }
    }
}

/// The summed weight of the positions below `k` that carry the label `s`.
pub open spec fn group_weight(label: Seq<usize>, weights: Seq<usize>, s: int, k: int) -> int
    decreases k,
{
    if k <= 0 {
        0
    } else {
        group_weight(label, weights, s, k - 1) + if label[k - 1] == s {
            weights[k - 1] as int
        } else {
            0int
        }
    }
}

/// A sum cut off at the greatest value that fits the machine word.
pub open spec fn saturate(x: int) -> usize {
    if x > usize::MAX {
        usize::MAX
    } else if x < 0 {
        0
    } else {
        x as usize
    }
}

/// The sum of two weights, cut off where it would not fit.
pub fn add_weight(a: usize, b: usize) -> (c: usize)
    ensures
        c == saturate(a + b),
{
    if a > usize::MAX - b {
        usize::MAX
    } else {
        a + b
    }
}

pub proof fn lemma_group_size_bounds(label: Seq<usize>, s: int, k: int)
    requires
        0 <= k,
    ensures
        0 <= group_size(label, s, k) <= k,
    decreases k,
{
    if k > 0 {
        lemma_group_size_bounds(label, s, k - 1);
    }
}

pub proof fn lemma_group_weight_nonnegative(label: Seq<usize>, weights: Seq<usize>, s: int, k: int)
    ensures
        0 <= group_weight(label, weights, s, k),
    decreases k,
{
    if k > 0 {
        lemma_group_weight_nonnegative(label, weights, s, k - 1);
    }
}

/// The size and the weight of every group: position `s` of the results
/// speaks of the transactions labelled `s`. Weights that would overflow are
/// cut off at the greatest value.
pub fn group_totals(label: &Vec<usize>, weights: &Vec<usize>) -> (res: (Vec<usize>, Vec<usize>))
    requires
        label.len() == weights.len(),
        forall|i: int| 0 <= i < label.len() ==> (#[trigger] label[i]) < label.len(),
    ensures
        res.0.len() == label.len(),
        res.1.len() == label.len(),
        forall|s: int|
            0 <= s < label.len() ==> (#[trigger] res.0[s]) == group_size(label@, s, label.len() as int),
        forall|s: int|
            0 <= s < label.len() ==> (#[trigger] res.1[s]) == saturate(
                group_weight(label@, weights@, s, label.len() as int),
            ),
{
    let n: usize = label.len();
    let mut sizes: Vec<usize> = Vec::new();
    let mut totals: Vec<usize> = Vec::new();
    let mut i: usize = 0;
    while i < n
        invariant
            i <= n,
            sizes.len() == i,
            totals.len() == i,
            forall|s: int| 0 <= s < i ==> (#[trigger] sizes[s]) == 0,
            forall|s: int| 0 <= s < i ==> (#[trigger] totals[s]) == 0,
        decreases n - i,
    {
        sizes.push(0);
        totals.push(0);
        i += 1;
    }
    let mut k: usize = 0;
    while k < n
        invariant
            n == label.len(),
            n == weights.len(),
            forall|i: int| 0 <= i < n ==> (#[trigger] label[i]) < n,
            k <= n,
            sizes.len() == n,
            totals.len() == n,
            forall|s: int| 0 <= s < n ==> (#[trigger] sizes[s]) == group_size(label@, s, k as int),
            forall|s: int|
                0 <= s < n ==> (#[trigger] totals[s]) == saturate(
                    group_weight(label@, weights@, s, k as int),
                ),
        decreases n - k,
    {
        let s: usize = label[k];
        proof {
            lemma_group_size_bounds(label@, s as int, k as int);
            lemma_group_weight_nonnegative(label@, weights@, s as int, k as int);
        }
        let size: usize = sizes[s] + 1;
        let total: usize = add_weight(totals[s], weights[k]);
        sizes.set(s, size);
        totals.set(s, total);
        k += 1;
    }
    (sizes, totals)
}

/// Group `a` comes before group `b`: it weighs more, or it weighs the same
/// and its greatest transaction is the later one. A group is a pair of its
/// weight and the position of its greatest transaction.
pub open spec fn heavier(a: (usize, usize), b: (usize, usize)) -> bool {
    a.0 > b.0 || (a.0 == b.0 && a.1 > b.1)
}

/// Every group of the sequence comes before all that follow it.
pub open spec fn heaviest_first(order: Seq<(usize, usize)>) -> bool {
    forall|i: int, j: int| 0 <= i < j < order.len() ==> heavier(#[trigger] order[i], #[trigger] order[j])
}

/// Whether group `a` comes before group `b`.
pub fn is_heavier(a: (usize, usize), b: (usize, usize)) -> (r: bool)
    ensures
        r == heavier(a, b),
{
    a.0 > b.0 || (a.0 == b.0 && a.1 > b.1)
}

/// Sorts the groups so that the heaviest comes first; among groups of one
/// weight the one with the later transaction comes first.
pub fn sort_heaviest_first(groups: &Vec<(usize, usize)>) -> (sorted: Vec<(usize, usize)>)
    requires
        forall|i: int, j: int|
            0 <= i < j < groups.len() ==> #[trigger] groups[i] != #[trigger] groups[j],
    ensures
        heaviest_first(sorted@),
        sorted.len() == groups.len(),
        forall|x: (usize, usize)| sorted@.contains(x) <==> groups@.contains(x),
{
    let mut sorted: Vec<(usize, usize)> = Vec::new();
    let mut i: usize = 0;
    while i < groups.len()
        invariant
            i <= groups.len(),
            forall|a: int, b: int|
                0 <= a < b < groups.len() ==> #[trigger] groups[a] != #[trigger] groups[b],
            heaviest_first(sorted@),
            sorted.len() == i,
            forall|x: (usize, usize)| sorted@.contains(x) <==> groups@.take(i as int).contains(x),
        decreases groups.len() - i,
    {
        let item = groups[i];
        let mut pos: usize = 0;
        while pos < sorted.len() && is_heavier(sorted[pos], item)
            invariant
                pos <= sorted.len(),
                forall|a: int| 0 <= a < pos ==> heavier(#[trigger] sorted[a], item),
            decreases sorted.len() - pos,
        {
            pos += 1;
        }
        let ghost before = sorted@;
        proof {
            assert(!groups@.take(i as int).contains(item)) by {
                if groups@.take(i as int).contains(item) {
                    let a = choose|a: int|
                        0 <= a < groups@.take(i as int).len() && groups@.take(i as int)[a] == item;
                    assert(groups[a] == groups[i as int]);
                }
            }
            assert(!before.contains(item));
            assert forall|b: int| pos <= b < before.len() implies heavier(item, #[trigger] before[b]) by {
                assert(before.contains(before[pos as int]));
                assert(before.contains(before[b]));
                if b > pos {
                    assert(heavier(before[pos as int], before[b]));
                }
            }
        }
        sorted.insert(pos, item);
        proof {
            let after = sorted@;
            assert(after == before.insert(pos as int, item));
            assert forall|a: int, b: int| 0 <= a < b < after.len() implies heavier(
                #[trigger] after[a],
                #[trigger] after[b],
            ) by {
                if b < pos {
                    assert(after[a] == before[a] && after[b] == before[b]);
                } else if b == pos {
                    assert(after[a] == before[a]);
                } else if a < pos {
                    assert(after[a] == before[a] && after[b] == before[b - 1]);
                } else if a == pos {
                    assert(after[b] == before[b - 1]);
                } else {
                    assert(after[a] == before[a - 1] && after[b] == before[b - 1]);
                }
            }
            let taken = groups@.take(i as int);
            let taken_next = groups@.take(i + 1);
            assert(taken_next == taken.push(item));
            assert forall|x: (usize, usize)| after.contains(x) <==> taken_next.contains(x) by {
                if after.contains(x) {
                    let a = choose|a: int| 0 <= a < after.len() && after[a] == x;
                    if a < pos {
                        assert(before[a] == x);
                        assert(before.contains(x));
                    } else if a > pos {
                        assert(before[a - 1] == x);
                        assert(before.contains(x));
                    }
                    if x == item {
                        assert(taken_next[i as int] == x);
                    } else {
                        assert(taken.contains(x));
                        let b = choose|b: int| 0 <= b < taken.len() && taken[b] == x;
                        assert(taken_next[b] == x);
                    }
                }
                if taken_next.contains(x) {
                    let b = choose|b: int| 0 <= b < taken_next.len() && taken_next[b] == x;
                    if b < i {
                        assert(taken[b] == x);
                        assert(taken.contains(x));
                        assert(before.contains(x));
                        let a = choose|a: int| 0 <= a < before.len() && before[a] == x;
                        if a < pos {
                            assert(after[a] == x);
                        } else {
                            assert(after[a + 1] == x);
                        }
                    } else {
                        assert(after[pos as int] == x);
                    }
                }
            }
        }
        i += 1;
    }
    assert(groups@.take(groups.len() as int) == groups@);
    sorted
}

/// The partition with the least load; among partitions of equal load the
/// one with the lowest index.
pub open spec fn lightest(loads: Seq<usize>) -> int
    decreases loads.len(),
{
    if loads.len() <= 1 {
        0
    } else {
        let best = lightest(loads.drop_last());
        if loads.last() < loads[best] {
            loads.len() - 1
        } else {
            best
        }
    }
}

/// `lightest` names a partition of least load, and every partition before
/// it carries more.
pub proof fn lemma_lightest(loads: Seq<usize>)
    requires
        loads.len() > 0,
    ensures
        0 <= lightest(loads) < loads.len(),
        forall|q: int| 0 <= q < loads.len() ==> loads[lightest(loads)] <= #[trigger] loads[q],
        forall|q: int| 0 <= q < lightest(loads) ==> loads[lightest(loads)] < #[trigger] loads[q],
    decreases loads.len(),
{
    if loads.len() > 1 {
        let front = loads.drop_last();
        lemma_lightest(front);
        let best = lightest(front);
        assert(front[best] == loads[best]);
        assert forall|q: int| 0 <= q < loads.len() implies loads[lightest(loads)] <= #[trigger] loads[q] by {
            if q < front.len() {
                assert(front[q] == loads[q]);
            }
        }
        assert forall|q: int| 0 <= q < lightest(loads) implies loads[lightest(loads)] < #[trigger] loads[q] by {
            if q < front.len() {
                assert(front[q] == loads[q]);
            }
        }
    }
}

/// Finds the partition with the least load, the first of them on a tie.
pub fn find_lightest(loads: &Vec<usize>) -> (best: usize)
    requires
        loads.len() > 0,
    ensures
        best == lightest(loads@),
        best < loads.len(),
{
    let mut best: usize = 0;
    let mut q: usize = 1;
    assert(loads@.take(1).len() == 1);
    while q < loads.len()
        invariant
            1 <= q <= loads.len(),
            best < q,
            best == lightest(loads@.take(q as int)),
        decreases loads.len() - q,
    {
        assert(loads@.take(q + 1).drop_last() == loads@.take(q as int));
        if loads[q] < loads[best] {
            best = q;
        }
        q += 1;
    }
    assert(loads@.take(loads.len() as int) == loads@);
    best
}

/// The loads of the partitions once the first `k` groups of `order` are
/// placed, each on the partition that was lightest when its turn came.
pub open spec fn loads_after(loads: Seq<usize>, order: Seq<(usize, usize)>, k: int) -> Seq<usize>
    decreases k,
{
    if k <= 0 {
        loads
    } else {
        let prev = loads_after(loads, order, k - 1);
        let q = lightest(prev);
        prev.update(q, saturate(prev[q] + order[k - 1].0))
    }
}

/// The partition that group `k` of `order` is placed on.
pub open spec fn placement(loads: Seq<usize>, order: Seq<(usize, usize)>, k: int) -> int {
    lightest(loads_after(loads, order, k))
}

pub proof fn lemma_loads_after_len(loads: Seq<usize>, order: Seq<(usize, usize)>, k: int)
    requires
        loads.len() > 0,
    ensures
        loads_after(loads, order, k).len() == loads.len(),
    decreases k,
{
    if k > 0 {
        lemma_loads_after_len(loads, order, k - 1);
        lemma_lightest(loads_after(loads, order, k - 1));
    }
}

/// Places the groups one after the other, each on the partition that is
/// lightest at that moment, and notes the partition at the position of the
/// group's greatest transaction.
pub fn place_groups(loads: &mut Vec<usize>, order: &Vec<(usize, usize)>, group_part: &mut Vec<usize>)
    requires
        old(loads).len() > 0,
        forall|k: int| 0 <= k < order.len() ==> (#[trigger] order[k]).1 < old(group_part).len(),
        forall|i: int, j: int|
            0 <= i < j < order.len() ==> (#[trigger] order[i]).1 != (#[trigger] order[j]).1,
    ensures
        final(loads)@ == loads_after(old(loads)@, order@, order.len() as int),
        final(group_part).len() == old(group_part).len(),
        forall|k: int|
            0 <= k < order.len() ==> final(group_part)[(#[trigger] order[k]).1 as int] == placement(
                old(loads)@,
                order@,
                k,
            ),
        forall|k: int|
            0 <= k < order.len() ==> final(group_part)[(#[trigger] order[k]).1 as int] < old(
                loads,
            ).len(),
        forall|s: int|
            0 <= s < old(group_part).len() && (forall|k: int|
                0 <= k < order.len() ==> (#[trigger] order[k]).1 != s) ==> final(group_part)[s]
                == old(group_part)[s],
{
    let ghost loads0 = loads@;
    let ghost part0 = group_part@;
    let mut k: usize = 0;
    while k < order.len()
        invariant
            k <= order.len(),
            loads0.len() > 0,
            loads@ == loads_after(loads0, order@, k as int),
            loads.len() == loads0.len(),
            group_part.len() == part0.len(),
            forall|a: int| 0 <= a < order.len() ==> (#[trigger] order[a]).1 < part0.len(),
            forall|i: int, j: int|
                0 <= i < j < order.len() ==> (#[trigger] order[i]).1 != (#[trigger] order[j]).1,
            forall|a: int|
                0 <= a < k ==> group_part[(#[trigger] order[a]).1 as int] == placement(
                    loads0,
                    order@,
                    a,
                ) && group_part[order[a].1 as int] < loads0.len(),
            forall|s: int|
                0 <= s < part0.len() && (forall|a: int|
                    0 <= a < k ==> (#[trigger] order[a]).1 != s) ==> group_part[s] == part0[s],
        decreases order.len() - k,
    {
        let q: usize = find_lightest(loads);
        let weight: usize = order[k].0;
        let seed: usize = order[k].1;
        let load: usize = add_weight(loads[q], weight);
        let ghost part_before = group_part@;
        loads.set(q, load);
        group_part.set(seed, q);
        proof {
            assert forall|a: int| 0 <= a < k + 1 implies group_part[(#[trigger] order[a]).1 as int]
                == placement(loads0, order@, a) && group_part[order[a].1 as int] < loads0.len() by {
                if a < k {
                    assert(order[a].1 != order[k as int].1);
                    assert(group_part[order[a].1 as int] == part_before[order[a].1 as int]);
                }
            }
            assert forall|s: int|
                0 <= s < part0.len() && (forall|a: int|
                    0 <= a < k + 1 ==> (#[trigger] order[a]).1 != s) implies group_part[s]
                == part0[s] by {
                assert(order[k as int].1 != s);
                assert(group_part[s] == part_before[s]);
            }
        }
        k += 1;
    }
}

/// Position `s` is the greatest of its group, which is named after it.
pub open spec fn is_seed(label: Seq<usize>, s: int) -> bool {
    0 <= s < label.len() && label[s] == s
}

/// Position `s` is a group of its own: a transaction that is linked to no other.
pub open spec fn is_single(label: Seq<usize>, s: int) -> bool {
    is_seed(label, s) && group_size(label, s, label.len() as int) == 1
}

/// The number of groups whose greatest position is `lo` or above.
pub open spec fn seeds_from(label: Seq<usize>, lo: int) -> int
    decreases label.len() - lo,
{
    if lo >= label.len() {
        0
    } else {
        seeds_from(label, lo + 1) + if is_seed(label, lo) {
            1int
        } else {
            0int
        }
    }
}

/// The number of single transactions at position `lo` or above.
pub open spec fn singles_from(label: Seq<usize>, lo: int) -> int
    decreases label.len() - lo,
{
    if lo >= label.len() {
        0
    } else {
        singles_from(label, lo + 1) + if is_single(label, lo) {
            1int
        } else {
            0int
        }
    }
}

/// How many of the first `singles` items partition `q` gets when they are
/// dealt out in turn to `count` partitions.
pub open spec fn round_robin_load(singles: int, count: int, q: int) -> int
    decreases singles,
{
    if singles <= 0 {
        0
    } else {
        round_robin_load(singles - 1, count, q) + if (singles - 1) % count == q {
            1int
        } else {
            0int
        }
    }
}

pub proof fn lemma_round_robin_load_bounds(singles: int, count: int, q: int)
    requires
        0 <= singles,
    ensures
        0 <= round_robin_load(singles, count, q) <= singles,
    decreases singles,
{
    if singles > 0 {
        lemma_round_robin_load_bounds(singles - 1, count, q);
    }
}

pub proof fn lemma_seeds_from_bounds(label: Seq<usize>, lo: int)
    requires
        0 <= lo <= label.len(),
    ensures
        0 <= singles_from(label, lo) <= seeds_from(label, lo) <= label.len() - lo,
    decreases label.len() - lo,
{
    if lo < label.len() {
        lemma_seeds_from_bounds(label, lo + 1);
    }
}

/// The number of groups of a labeling.
pub fn count_seeds(label: &Vec<usize>) -> (count: usize)
    ensures
        count == seeds_from(label@, 0),
{
    let n: usize = label.len();
    let mut count: usize = 0;
    let mut s: usize = n;
    while s > 0
        invariant
            n == label.len(),
            s <= n,
            count == seeds_from(label@, s as int),
            count <= n - s,
        decreases s,
    {
        s -= 1;
        proof {
            lemma_seeds_from_bounds(label@, s + 1);
        }
        if label[s] == s {
            count += 1;
        }
    }
    count
}

/// Whether `x` is the weight and the greatest position of a group of
/// several transactions.
pub open spec fn is_linked_group(label: Seq<usize>, totals: Seq<usize>, x: (usize, usize)) -> bool {
    is_seed(label, x.1 as int) && !is_single(label, x.1 as int) && x.0 == totals[x.1 as int]
}

/// Deals the single transactions out to the partitions in turn, the latest
/// transaction first, and lists the groups of several transactions, each
/// with its weight. Returns the partition of each single (at its position),
/// the load of each partition, counting one per single, and the groups.
pub fn place_singles(label: &Vec<usize>, sizes: &Vec<usize>, totals: &Vec<usize>, count: usize) -> (res: (
    Vec<usize>,
    Vec<usize>,
    Vec<(usize, usize)>,
))
    requires
        count > 0,
        sizes.len() == label.len(),
        totals.len() == label.len(),
        forall|s: int|
            0 <= s < label.len() ==> (#[trigger] sizes[s]) == group_size(label@, s, label.len() as int),
    ensures
        res.0.len() == label.len(),
        res.1.len() == count,
        forall|s: int| 0 <= s < label.len() ==> (#[trigger] res.0[s]) < count,
        forall|s: int|
            #[trigger] is_single(label@, s) ==> res.0[s] == singles_from(label@, s + 1) % (count as int),
        forall|s: int| 0 <= s < label.len() && !is_single(label@, s) ==> (#[trigger] res.0[s]) == 0,
        forall|q: int|
            0 <= q < count ==> (#[trigger] res.1[q]) == round_robin_load(
                singles_from(label@, 0),
                count as int,
                q,
            ),
        forall|i: int, j: int|
            0 <= i < j < res.2.len() ==> (#[trigger] res.2[i]).1 > (#[trigger] res.2[j]).1,
        forall|x: (usize, usize)| res.2@.contains(x) <==> is_linked_group(label@, totals@, x),
        res.2.len() + singles_from(label@, 0) == seeds_from(label@, 0),
{
    let n: usize = label.len();
    let mut group_part: Vec<usize> = Vec::new();
    let mut i: usize = 0;
    while i < n
        invariant
            i <= n,
            group_part.len() == i,
            count > 0,
            forall|s: int| 0 <= s < i ==> (#[trigger] group_part[s]) == 0,
        decreases n - i,
    {
        group_part.push(0);
        i += 1;
    }
    let mut loads: Vec<usize> = Vec::new();
    let mut q: usize = 0;
    while q < count
        invariant
            q <= count,
            loads.len() == q,
            forall|x: int| 0 <= x < q ==> (#[trigger] loads[x]) == 0,
        decreases count - q,
    {
        loads.push(0);
        q += 1;
    }
    let mut groups: Vec<(usize, usize)> = Vec::new();
    let mut rank: usize = 0;
    let mut s: usize = n;
    while s > 0
        invariant
            n == label.len(),
            sizes.len() == n,
            totals.len() == n,
            count > 0,
            forall|x: int| 0 <= x < n ==> (#[trigger] sizes[x]) == group_size(label@, x, n as int),
            s <= n,
            group_part.len() == n,
            loads.len() == count,
            forall|x: int| 0 <= x < n ==> (#[trigger] group_part[x]) < count,
            forall|x: int|
                0 <= x < n && !(s <= x && is_single(label@, x)) ==> (#[trigger] group_part[x]) == 0,
            rank == singles_from(label@, s as int),
            groups.len() + rank == seeds_from(label@, s as int),
            forall|x: int|
                s <= x && #[trigger] is_single(label@, x) ==> group_part[x] == singles_from(
                    label@,
                    x + 1,
                ) % (count as int),
            forall|x: int|
                0 <= x < count ==> (#[trigger] loads[x]) == round_robin_load(
                    rank as int,
                    count as int,
                    x,
                ),
            forall|a: int, b: int|
                0 <= a < b < groups.len() ==> (#[trigger] groups[a]).1 > (#[trigger] groups[b]).1,
            forall|a: int| 0 <= a < groups.len() ==> (#[trigger] groups[a]).1 >= s,
            forall|x: (usize, usize)|
                groups@.contains(x) <==> (s <= x.1 && is_linked_group(label@, totals@, x)),
        decreases s,
    {
        s -= 1;
        proof {
            lemma_seeds_from_bounds(label@, s + 1);
            lemma_seeds_from_bounds(label@, s as int);
        }
        let ghost groups_before = groups@;
        if label[s] == s {
            if sizes[s] == 1 {
                let target: usize = rank % count;
                proof {
                    lemma_round_robin_load_bounds(rank as int, count as int, target as int);
                }
                let load: usize = loads[target] + 1;
                loads.set(target, load);
                group_part.set(s, target);
                rank += 1;
            } else {
                groups.push((totals[s], s));
                proof {
                    let added = (totals[s as int], s);
                    assert(groups@ == groups_before.push(added));
                    assert forall|x: (usize, usize)|
                        groups@.contains(x) <==> (s <= x.1 && is_linked_group(
                            label@,
                            totals@,
                            x,
                        )) by {
                        if groups@.contains(x) {
                            let a = choose|a: int| 0 <= a < groups@.len() && groups@[a] == x;
                            if a < groups_before.len() {
                                assert(groups_before[a] == x);
                                assert(groups_before.contains(x));
                            }
                        }
                        if s <= x.1 && is_linked_group(label@, totals@, x) {
                            if x.1 == s {
                                assert(groups@[groups_before.len() as int] == x);
                            } else {
                                assert(groups_before.contains(x));
                                let a = choose|a: int|
                                    0 <= a < groups_before.len() && groups_before[a] == x;
                                assert(groups@[a] == x);
                            }
                        }
                    }
                }
            }
        }
        proof {
            if !(label[s as int] == s && sizes[s as int] != 1) {
                assert forall|x: (usize, usize)|
                    groups@.contains(x) <==> (s <= x.1 && is_linked_group(label@, totals@, x)) by {
                    if s <= x.1 && is_linked_group(label@, totals@, x) {
                        assert(x.1 != s);
                    }
                }
            }
        }
    }
    (group_part, loads, groups)
}

/// The weight of every group, at the position of its greatest transaction.
pub open spec fn group_weights(label: Seq<usize>, weights: Seq<usize>) -> Seq<usize> {
    Seq::new(label.len(), |s: int| saturate(group_weight(label, weights, s, label.len() as int)))
}

/// The loads that the partitions start with: one for each single
/// transaction dealt to them.
pub open spec fn initial_loads(label: Seq<usize>, count: int) -> Seq<usize> {
    Seq::new(count as nat, |q: int| round_robin_load(singles_from(label, 0), count, q) as usize)
}

/// `order` lists the groups of several transactions, each once, the
/// heaviest first.
pub open spec fn is_placement_order(
    label: Seq<usize>,
    weights: Seq<usize>,
    order: Seq<(usize, usize)>,
) -> bool {
    &&& heaviest_first(order)
    &&& forall|x: (usize, usize)|
        order.contains(x) <==> is_linked_group(label, group_weights(label, weights), x)
}

/// Every group of `order` lies on the partition that was lightest when its
/// turn came.
pub open spec fn follows_order(
    label: Seq<usize>,
    count: int,
    part_of: Seq<usize>,
    order: Seq<(usize, usize)>,
) -> bool {
    forall|k: int|
        0 <= k < order.len() ==> part_of[(#[trigger] order[k]).1 as int] == placement(
            initial_loads(label, count),
            order,
            k,
        )
}

/// `part_of` is the balanced assignment of the transactions to `count`
/// partitions: a group stays together; the single transactions are dealt
/// out in turn, the latest first; then the groups of several transactions
/// follow, the heaviest first, each to the partition that is lightest at
/// that moment (the first of them on a tie).
pub open spec fn is_balanced_assignment(
    label: Seq<usize>,
    weights: Seq<usize>,
    count: int,
    part_of: Seq<usize>,
) -> bool {
    &&& part_of.len() == label.len()
    &&& forall|i: int| 0 <= i < label.len() ==> 0 <= #[trigger] part_of[i] < count
    &&& forall|i: int| 0 <= i < label.len() ==> #[trigger] part_of[i] == part_of[label[i] as int]
    &&& forall|s: int| #[trigger] is_single(label, s) ==> part_of[s] == singles_from(label, s + 1) % count
    &&& exists|order: Seq<(usize, usize)>| #[trigger]
        is_placement_order(label, weights, order) && follows_order(label, count, part_of, order)
}

/// The number of partitions in use: one per group, up to the number asked for.
pub open spec fn partitions_in_use(label: Seq<usize>, partition_count: int) -> int {
    if partition_count < seeds_from(label, 0) {
        partition_count
    } else {
        seeds_from(label, 0)
    }
}

proof fn lemma_last_is_seed(label: Seq<usize>, lo: int)
    requires
        0 <= lo < label.len(),
        is_seed(label, label.len() - 1),
    ensures
        seeds_from(label, lo) >= 1,
    decreases label.len() - lo,
{
    if lo < label.len() - 1 {
        lemma_last_is_seed(label, lo + 1);
        lemma_seeds_from_bounds(label, lo + 1);
    } else {
        lemma_seeds_from_bounds(label, lo + 1);
    }
}

/// Assigns every pending transaction to a partition, given the label of its
/// group and its weight. Returns the assignment and the number of
/// partitions in use.
pub fn assign_partitions(label: &Vec<usize>, weights: &Vec<usize>, partition_count: usize) -> (res: (
    Vec<usize>,
    usize,
))
    requires
        partition_count > 0,
        label.len() == weights.len(),
        forall|i: int|
            0 <= i < label.len() ==> i <= #[trigger] label[i] < label.len() && label[label[i] as int]
                == label[i],
    ensures
        res.1 == partitions_in_use(label@, partition_count as int),
        is_balanced_assignment(label@, weights@, res.1 as int, res.0@),
{
    let n: usize = label.len();
    if n == 0 {
        let part_of: Vec<usize> = Vec::new();
        proof {
            let order = Seq::<(usize, usize)>::empty();
            assert(is_placement_order(label@, weights@, order));
            assert(follows_order(label@, 0, part_of@, order));
        }
        return (part_of, 0);
    }
    let (sizes, totals) = group_totals(label, weights);
    let num_group: usize = count_seeds(label);
    proof {
        assert(is_seed(label@, n - 1));
        lemma_last_is_seed(label@, 0);
    }
    let count: usize = if partition_count < num_group {
        partition_count
    } else {
        num_group
    };
    let (mut group_part, mut loads, groups) = place_singles(label, &sizes, &totals, count);
    let order = sort_heaviest_first(&groups);
    let ghost loads0 = loads@;
    let ghost part0 = group_part@;
    proof {
        assert(totals@ == group_weights(label@, weights@));
        assert forall|x: (usize, usize)| order@.contains(x) <==> is_linked_group(
            label@,
            totals@,
            x,
        ) by {
            assert(order@.contains(x) <==> groups@.contains(x));
        }
        assert forall|i: int, j: int| 0 <= i < j < order.len() implies (#[trigger] order[i]).1 != (
        #[trigger] order[j]).1 by {
            assert(order@.contains(order[i]));
            assert(order@.contains(order[j]));
            assert(heavier(order[i], order[j]));
        }
        assert forall|k: int| 0 <= k < order.len() implies (#[trigger] order[k]).1
            < group_part.len() by {
            assert(order@.contains(order[k]));
        }
        assert(loads0 == initial_loads(label@, count as int)) by {
            assert forall|q: int| 0 <= q < count implies loads0[q] == initial_loads(
                label@,
                count as int,
            )[q] by {
                lemma_seeds_from_bounds(label@, 0);
                lemma_round_robin_load_bounds(singles_from(label@, 0), count as int, q);
            }
        }
    }
    place_groups(&mut loads, &order, &mut group_part);
    let mut part_of: Vec<usize> = Vec::new();
    let mut i: usize = 0;
    proof {
        assert forall|s: int| 0 <= s < n implies (#[trigger] group_part[s]) < count by {
            if forall|k: int| 0 <= k < order.len() ==> (#[trigger] order[k]).1 != s {
                assert(group_part[s] == part0[s]);
            } else {
                let k = choose|k: int| 0 <= k < order.len() && (#[trigger] order[k]).1 == s;
                assert(group_part[order[k].1 as int] < loads0.len());
            }
        }
    }
    while i < n
        invariant
            n == label.len(),
            group_part.len() == n,
            forall|x: int| 0 <= x < n ==> (#[trigger] label[x]) < n,
            i <= n,
            part_of.len() == i,
            forall|x: int| 0 <= x < i ==> (#[trigger] part_of[x]) == group_part[label[x] as int],
        decreases n - i,
    {
        part_of.push(group_part[label[i]]);
        i += 1;
    }
    proof {
        assert forall|x: int| 0 <= x < n implies #[trigger] part_of[x] == part_of[label[x] as int] by {
            assert(label[label[x] as int] == label[x]);
        }
        assert forall|s: int| #[trigger] is_single(label@, s) implies part_of[s] == singles_from(
            label@,
            s + 1,
        ) % (count as int) by {
            assert forall|k: int| 0 <= k < order.len() implies (#[trigger] order[k]).1 != s by {
                assert(order@.contains(order[k]));
            }
            assert(group_part[s] == part0[s]);
        }
        assert forall|k: int| 0 <= k < order.len() implies part_of[(#[trigger] order[k]).1 as int]
            == placement(initial_loads(label@, count as int), order@, k) by {
            assert(order@.contains(order[k]));
            let s = order[k].1 as int;
            assert(label[s] == s);
        }
        assert(is_placement_order(label@, weights@, order@));
        assert(follows_order(label@, count as int, part_of@, order@));
    }
    (part_of, count)
}

} // verus!
