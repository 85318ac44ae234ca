//! Partitions of the pending transactions: what makes one, the split into
//! contiguous chunks, and the assembly from an assignment.

use vstd::prelude::*;

verus! {

/// The partitions as sequences of transaction ids.
pub open spec fn parts_view(v: Seq<Vec<usize>>) -> Seq<Seq<usize>> {
    Seq::new(v.len(), |i: int| v[i]@)
}

/// `parts` splits the transactions `lo..hi`: no partition is empty, each
/// ascends, each holds transactions of `lo..hi` only, every transaction of
/// `lo..hi` is in some partition, and no two partitions share one.
pub open spec fn is_partitioning(parts: Seq<Seq<usize>>, lo: int, hi: int) -> bool {
    &&& forall|p: int| 0 <= p < parts.len() ==> (#[trigger] parts[p]).len() > 0
    &&& forall|p: int, a: int, b: int|
        0 <= p < parts.len() && 0 <= a < b < parts[p].len() ==> #[trigger] parts[p][a]
            < #[trigger] parts[p][b]
    &&& forall|p: int, a: int|
        0 <= p < parts.len() && 0 <= a < parts[p].len() ==> lo <= #[trigger] parts[p][a] < hi
    &&& forall|t: int| lo <= t < hi ==> #[trigger] covered(parts, t)
    &&& forall|p: int, q: int, a: int, b: int|
        0 <= p < q < parts.len() && 0 <= a < parts[p].len() && 0 <= b < parts[q].len()
            ==> #[trigger] parts[p][a] != #[trigger] parts[q][b]
}

/// Some partition holds transaction `t`.
pub open spec fn covered(parts: Seq<Seq<usize>>, t: int) -> bool {
    exists|p: int, a: int| 0 <= p < parts.len() && 0 <= a < parts[p].len() && #[trigger] parts[p][a] == t
}

/// Where chunk `index` begins when `n` items are cut into `parts` chunks
/// whose sizes differ by at most one, the larger ones first.
pub open spec fn chunk_start(n: int, parts: int, index: int) -> int {
    (n / parts) * index + if index < n % parts {
        index
    } else {
        n % parts
    }
}

/// The number of items in chunk `index`.
pub open spec fn chunk_len(n: int, parts: int, index: int) -> int {
    n / parts + if index < n % parts {
        1int
    } else {
        0int
    }
}

/// The transactions `first..first + len`, ascending.
pub open spec fn id_range(first: int, len: int) -> Seq<usize> {
    Seq::new(len as nat, |j: int| (first + j) as usize)
}

/// The split of the `n` transactions from `nf` on into `min(count, n)`
/// contiguous chunks.
pub open spec fn chunk_partitions(nf: int, n: int, count: int) -> Seq<Seq<usize>> {
    let parts = if count < n {
        count
    } else {
        n
    };
    Seq::new(
        parts as nat,
        |p: int| id_range(nf + chunk_start(n, parts, p), chunk_len(n, parts, p)),
    )
}

/// Each chunk begins where the one before it ends, and the last ends at `n`.
pub proof fn lemma_chunk_start(n: int, parts: int, index: int)
    requires
        0 < parts,
        0 <= n,
        0 <= index < parts,
    ensures
        chunk_start(n, parts, 0) == 0,
        chunk_start(n, parts, index + 1) == chunk_start(n, parts, index) + chunk_len(n, parts, index),
        chunk_start(n, parts, parts) == n,
        chunk_start(n, parts, index) + chunk_len(n, parts, index) <= n,
        0 <= chunk_start(n, parts, index),
{
    let c = n / parts;
    let r = n % parts;
    assert(c * (index + 1) == c * index + c) by (nonlinear_arith);
    assert(c * 0 == 0) by (nonlinear_arith);
    assert(n == c * parts + r && 0 <= r < parts && 0 <= c) by (nonlinear_arith)
        requires
            0 < parts,
            0 <= n,
            c == n / parts,
            r == n % parts,
    ;
    assert(c * (index + 1) <= c * parts && 0 <= c * index) by (nonlinear_arith)
        requires
            0 <= c,
            0 <= index < parts,
    ;
}

/// Appending the ascending run `mid..hi` to a split of `lo..mid` gives a
/// split of `lo..hi`.
pub proof fn lemma_partitioning_push_range(parts: Seq<Seq<usize>>, lo: int, mid: int, hi: int)
    requires
        is_partitioning(parts, lo, mid),
        0 <= lo <= mid < hi <= usize::MAX,
    ensures
        is_partitioning(parts.push(id_range(mid, hi - mid)), lo, hi),
{
    let run = id_range(mid, hi - mid);
    let next = parts.push(run);
    let last = parts.len() as int;
    assert forall|t: int| lo <= t < hi implies #[trigger] covered(next, t) by {
        if t < mid {
            assert(covered(parts, t));
            let (p, a) = choose|p: int, a: int|
                0 <= p < parts.len() && 0 <= a < parts[p].len() && #[trigger] parts[p][a] == t;
            assert(next[p][a] == t);
        } else {
            assert(next[last][t - mid] == t);
        }
    }
    assert forall|p: int, a: int| 0 <= p < next.len() && 0 <= a < next[p].len() implies lo
        <= #[trigger] next[p][a] < hi by {
        if p < last {
            assert(next[p][a] == parts[p][a]);
        }
    }
    assert forall|p: int, q: int, a: int, b: int|
        0 <= p < q < next.len() && 0 <= a < next[p].len() && 0 <= b < next[q].len()
        implies #[trigger] next[p][a] != #[trigger] next[q][b] by {
        assert(next[p][a] == parts[p][a]);
        if q < last {
            assert(next[q][b] == parts[q][b]);
        }
    }
    assert forall|p: int, a: int, b: int|
        0 <= p < next.len() && 0 <= a < b < next[p].len() implies #[trigger] next[p][a]
        < #[trigger] next[p][b] by {
        if p < last {
            assert(next[p][a] == parts[p][a]);
            assert(next[p][b] == parts[p][b]);
        }
    }
    assert forall|p: int| 0 <= p < next.len() implies (#[trigger] next[p]).len() > 0 by {
        if p < last {
            assert(next[p] == parts[p]);
        }
    }
}

/// The transactions `first..first + len` as a vector.
pub fn range_vec(first: usize, len: usize) -> (v: Vec<usize>)
    requires
        first + len <= usize::MAX,
    ensures
        v@ == id_range(first as int, len as int),
{
    let mut v: Vec<usize> = Vec::new();
    let mut j: usize = 0;
    while j < len
        invariant
            first + len <= usize::MAX,
            j <= len,
            v@ == id_range(first as int, j as int),
        decreases len - j,
    {
        v.push(first + j);
        assert(v@ == id_range(first as int, j + 1));
        j += 1;
    }
    v
}

/// Cuts the `n` transactions from `nf` on into `min(count, n)` contiguous
/// chunks whose sizes differ by at most one.
pub fn split_into_chunks(nf: usize, n: usize, count: usize) -> (parts: Vec<Vec<usize>>)
    requires
        nf + n <= usize::MAX,
        count > 0,
    ensures
        parts_view(parts@) == chunk_partitions(nf as int, n as int, count as int),
        is_partitioning(parts_view(parts@), nf as int, nf + n),
        parts.len() == if count < n {
            count
        } else {
            n
        },
{
    let num_partitions: usize = if count < n {
        count
    } else {
        n
    };
    let mut parts: Vec<Vec<usize>> = Vec::new();
    if num_partitions == 0 {
        assert(parts_view(parts@) == chunk_partitions(nf as int, n as int, count as int));
        return parts;
    }
    let remaining: usize = n % num_partitions;
    let chunk_size: usize = n / num_partitions;
    assert(chunk_size >= 1) by (nonlinear_arith)
        requires
            0 < num_partitions <= n,
            chunk_size == n / num_partitions,
    ;
    let mut index: usize = 0;
    let mut start: usize = 0;
    proof {
        lemma_chunk_start(n as int, num_partitions as int, 0);
    }
    while index < num_partitions
        invariant
            nf + n <= usize::MAX,
            0 < num_partitions <= n,
            remaining == n % num_partitions,
            chunk_size == n / num_partitions,
            chunk_size >= 1,
            index <= num_partitions,
            start == chunk_start(n as int, num_partitions as int, index as int),
            start <= n,
            parts.len() == index,
            is_partitioning(parts_view(parts@), nf as int, nf + start),
            forall|p: int|
                0 <= p < index ==> (#[trigger] parts[p])@ == id_range(
                    nf + chunk_start(n as int, num_partitions as int, p),
                    chunk_len(n as int, num_partitions as int, p),
                ),
        decreases num_partitions - index,
    {
        proof {
            lemma_chunk_start(n as int, num_partitions as int, index as int);
        }
        let len: usize = if index < remaining {
            chunk_size + 1
        } else {
            chunk_size
        };
        let ghost before = parts_view(parts@);
        let chunk = range_vec(nf + start, len);
        parts.push(chunk);
        proof {
            lemma_partitioning_push_range(before, nf as int, nf + start, nf + start + len);
            assert(parts_view(parts@) == before.push(id_range(nf + start, len as int)));
        }
        start = start + len;
        index += 1;
    }
    proof {
        lemma_chunk_start(n as int, num_partitions as int, num_partitions - 1);
        assert(parts_view(parts@) == chunk_partitions(nf as int, n as int, count as int));
    }
    parts
}

/// The transactions `nf + i`, `i < k`, that `part_of` assigns to partition
/// `q`, ascending.
pub open spec fn members(part_of: Seq<usize>, q: int, nf: int, k: int) -> Seq<usize>
    decreases k,
{
    if k <= 0 {
        Seq::empty()
    } else if part_of[k - 1] == q {
        members(part_of, q, nf, k - 1).push((nf + k - 1) as usize)
    } else {
        members(part_of, q, nf, k - 1)
    }
}

/// The non-empty ones among the first `k` partitions of an assignment, in
/// order of their index.
pub open spec fn non_empty_members(part_of: Seq<usize>, nf: int, k: int) -> Seq<Seq<usize>>
    decreases k,
{
    if k <= 0 {
        Seq::empty()
    } else {
        let rest = non_empty_members(part_of, nf, k - 1);
        let m = members(part_of, k - 1, nf, part_of.len() as int);
        if m.len() > 0 {
            rest.push(m)
        } else {
            rest
        }
    }
}

/// `members` holds exactly the transactions assigned to `q`, in ascending order.
pub proof fn lemma_members(part_of: Seq<usize>, q: int, nf: int, k: int)
    requires
        0 <= nf,
        0 <= k <= part_of.len(),
        nf + part_of.len() <= usize::MAX,
    ensures
        forall|a: int|
            0 <= a < members(part_of, q, nf, k).len() ==> nf <= #[trigger] members(
                part_of,
                q,
                nf,
                k,
            )[a] < nf + k && part_of[members(part_of, q, nf, k)[a] - nf] == q,
        forall|a: int, b: int|
            0 <= a < b < members(part_of, q, nf, k).len() ==> #[trigger] members(part_of, q, nf, k)[a]
                < #[trigger] members(part_of, q, nf, k)[b],
        forall|i: int|
            0 <= i < k && #[trigger] part_of[i] == q ==> members(part_of, q, nf, k).contains(
                (nf + i) as usize,
            ),
    decreases k,
{
    if k > 0 {
        lemma_members(part_of, q, nf, k - 1);
        let prev = members(part_of, q, nf, k - 1);
        let cur = members(part_of, q, nf, k);
        assert forall|a: int| 0 <= a < cur.len() implies nf <= #[trigger] cur[a] < nf + k
            && part_of[cur[a] - nf] == q by {
            if a < prev.len() {
                assert(cur[a] == prev[a]);
            }
        }
        assert forall|a: int, b: int| 0 <= a < b < cur.len() implies #[trigger] cur[a]
            < #[trigger] cur[b] by {
            assert(cur[a] == prev[a]);
            if b < prev.len() {
                assert(cur[b] == prev[b]);
            }
        }
        assert forall|i: int| 0 <= i < k && #[trigger] part_of[i] == q implies cur.contains(
            (nf + i) as usize,
        ) by {
            if i < k - 1 {
                assert(prev.contains((nf + i) as usize));
                let a = choose|a: int| 0 <= a < prev.len() && prev[a] == (nf + i) as usize;
                assert(cur[a] == (nf + i) as usize);
            } else {
                assert(cur[cur.len() - 1] == (nf + i) as usize);
            }
        }
    }
}

/// Turns an assignment of the pending transactions to `count` partitions
/// into the partitions themselves: each lists its transactions in ascending
/// order, and partitions that got none are left out.
pub fn assemble(part_of: &Vec<usize>, count: usize, nf: usize) -> (parts: Vec<Vec<usize>>)
    requires
        nf + part_of.len() <= usize::MAX,
        forall|i: int| 0 <= i < part_of.len() ==> (#[trigger] part_of[i]) < count,
    ensures
        parts_view(parts@) == non_empty_members(part_of@, nf as int, count as int),
        is_partitioning(parts_view(parts@), nf as int, nf + part_of.len()),
        parts.len() <= count,
        forall|r: int|
            0 <= r < parts.len() ==> exists|q: int|
                0 <= q < count && (#[trigger] parts[r])@ == members(
                    part_of@,
                    q,
                    nf as int,
                    part_of.len() as int,
                ),
{
    let n: usize = part_of.len();
    let mut raw: Vec<Vec<usize>> = Vec::new();
    let mut q: usize = 0;
    while q < count
        invariant
            q <= count,
            raw.len() == q,
            forall|x: int| 0 <= x < q ==> (#[trigger] raw[x])@ == Seq::<usize>::empty(),
        decreases count - q,
    {
        raw.push(Vec::new());
        q += 1;
    }
    let mut i: usize = 0;
    while i < n
        invariant
            n == part_of.len(),
            nf + n <= usize::MAX,
            i <= n,
            raw.len() == count,
            forall|x: int| 0 <= x < n ==> (#[trigger] part_of[x]) < count,
            forall|x: int|
                0 <= x < count ==> (#[trigger] raw[x])@ == members(part_of@, x, nf as int, i as int),
        decreases n - i,
    {
        let target: usize = part_of[i];
        let ghost before = raw@;
        raw[target].push(nf + i);
        assert forall|x: int| 0 <= x < count implies (#[trigger] raw[x])@ == members(
            part_of@,
            x,
            nf as int,
            i + 1,
        ) by {
            if x != target {
                assert(raw[x] == before[x]);
            }
        }
        i += 1;
    }
    let mut parts: Vec<Vec<usize>> = Vec::new();
    let ghost mut src: Seq<int> = Seq::empty();
    let mut q: usize = 0;
    while q < count
        invariant
            n == part_of.len(),
            nf + n <= usize::MAX,
            q <= count,
            raw.len() == count,
            forall|x: int| 0 <= x < n ==> (#[trigger] part_of[x]) < count,
            forall|x: int|
                q <= x < count ==> (#[trigger] raw[x])@ == members(part_of@, x, nf as int, n as int),
            parts_view(parts@) == non_empty_members(part_of@, nf as int, q as int),
            src.len() == parts.len(),
            parts.len() <= q,
            forall|r: int|
                0 <= r < src.len() ==> 0 <= #[trigger] src[r] < q && parts[r]@ == members(
                    part_of@,
                    src[r],
                    nf as int,
                    n as int,
                ) && parts[r]@.len() > 0,
            forall|r: int, t: int| 0 <= r < t < src.len() ==> #[trigger] src[r] < #[trigger] src[t],
            forall|x: int|
                0 <= x < q && members(part_of@, x, nf as int, n as int).len() > 0
                    ==> #[trigger] src.contains(x),
        decreases count - q,
    {
        if raw[q].len() > 0 {
            let mut taken: Vec<usize> = Vec::new();
            let ghost before = raw@;
            let ghost parts_before = parts_view(parts@);
            std::mem::swap(&mut taken, &mut raw[q]);
            assert(forall|x: int| q < x < count ==> raw[x] == before[x]);
            let ghost old_src = src;
            parts.push(taken);
            proof {
                src = src.push(q as int);
                assert(parts_view(parts@) == parts_before.push(
                    members(part_of@, q as int, nf as int, n as int),
                ));
                assert forall|x: int|
                    0 <= x < q + 1 && members(part_of@, x, nf as int, n as int).len()
                        > 0 implies #[trigger] src.contains(x) by {
                    if x < q {
                        assert(old_src.contains(x));
                        let r = choose|r: int| 0 <= r < old_src.len() && old_src[r] == x;
                        assert(src[r] == x);
                    } else {
                        assert(src[src.len() - 1] == x);
                    }
                }
                assert forall|r: int| 0 <= r < src.len() implies 0 <= #[trigger] src[r] < q + 1
                    && parts[r]@ == members(part_of@, src[r], nf as int, n as int) && parts[r]@.len()
                    > 0 by {
                    if r < old_src.len() {
                        assert(src[r] == old_src[r]);
                        assert(parts[r]@ == parts_before[r]);
                    }
                }
            }
        } else {
            proof {
                assert(members(part_of@, q as int, nf as int, n as int).len() == 0);
            }
        }
        q += 1;
    }
    proof {
        let pv = parts_view(parts@);
        assert forall|r: int| 0 <= r < pv.len() implies {
            &&& (#[trigger] pv[r]).len() > 0
            &&& pv[r] == members(part_of@, src[r], nf as int, n as int)
        } by {
            assert(0 <= src[r] < count);
        }
        assert forall|r: int, a: int| 0 <= r < pv.len() && 0 <= a < pv[r].len() implies nf
            <= #[trigger] pv[r][a] < nf + n && part_of@[pv[r][a] - nf] == src[r] by {
            assert(pv[r].len() > 0);
            lemma_members(part_of@, src[r], nf as int, n as int);
        }
        assert forall|r: int, a: int, b: int|
            0 <= r < pv.len() && 0 <= a < b < pv[r].len() implies #[trigger] pv[r][a]
            < #[trigger] pv[r][b] by {
            assert(pv[r].len() > 0);
            lemma_members(part_of@, src[r], nf as int, n as int);
        }
        assert forall|t: int| nf <= t < nf + n implies #[trigger] covered(pv, t) by {
            let x = part_of@[t - nf] as int;
            lemma_members(part_of@, x, nf as int, n as int);
            let m = members(part_of@, x, nf as int, n as int);
            assert(m.contains((nf + (t - nf)) as usize));
            let a = choose|a: int| 0 <= a < m.len() && m[a] == t as usize;
            assert(src.contains(x));
            let r = choose|r: int| 0 <= r < src.len() && src[r] == x;
            assert(pv[r].len() > 0);
            assert(pv[r][a] == t);
        }
        assert forall|p: int, q2: int, a: int, b: int|
            0 <= p < q2 < pv.len() && 0 <= a < pv[p].len() && 0 <= b < pv[q2].len()
            implies #[trigger] pv[p][a] != #[trigger] pv[q2][b] by {
            assert(pv[p].len() > 0);
            assert(pv[q2].len() > 0);
            assert(src[p] < src[q2]);
        }
        assert forall|p: int, a: int| 0 <= p < pv.len() && 0 <= a < pv[p].len() implies nf
            <= #[trigger] pv[p][a] < nf + n by {
            assert(pv[p].len() > 0);
        }
        assert forall|p: int, a: int, b: int|
            0 <= p < pv.len() && 0 <= a < b < pv[p].len() implies #[trigger] pv[p][a]
            < #[trigger] pv[p][b] by {
            assert(pv[p].len() > 0);
        }
        assert forall|r: int| 0 <= r < parts.len() implies exists|q: int|
            0 <= q < count && (#[trigger] parts[r])@ == members(part_of@, q, nf as int, n as int) by {
            assert(pv[r].len() > 0);
            assert(0 <= src[r] < count);
        }
    }
    parts
}

} // verus!
