use vstd::prelude::*;

verus! {

/// The number of sectors in each group when `sector_count` sectors are shared
/// out among `threads` threads.
pub open spec fn group_size(sector_count: nat, threads: nat) -> nat {
    sector_count / threads
}

/// The group of index `i` when `len` sectors are cut into consecutive groups
/// of `size`, the last group holding what is left: its first sector and the
/// sector after its last.
pub open spec fn chunk_bounds(len: nat, size: nat, i: nat) -> (nat, nat) {
    let start = i * size;
    let end = if (i + 1) * size <= len {
        (i + 1) * size
    } else {
        len
    };
    (start, end)
}

/// The number of groups of `size` that `len` sectors make, the last one
/// possibly short.
pub open spec fn chunk_count(len: nat, size: nat) -> nat {
    ((len + size - 1) / (size as int)) as nat
}

proof fn lemma_chunk_count(len: int, size: int, k: int)
    requires
        size > 0,
        k >= 0,
        len >= 0,
        len <= k * size,
        k == 0 || (k - 1) * size < len,
    ensures
        (len + size - 1) / size == k,
{
    let q = (len + size - 1) / size;
    let rem = (len + size - 1) % size;
    assert(len + size - 1 == q * size + rem && 0 <= rem < size) by (nonlinear_arith)
        requires
            size > 0,
            q == (len + size - 1) / size,
            rem == (len + size - 1) % size,
    ;
    if k == 0 {
        assert(len == 0);
        assert(q * size + rem == len + size - 1);
        assert(q == 0) by (nonlinear_arith)
            requires
                size > 0,
                q * size + rem == len + size - 1,
                0 <= rem < size,
                len == 0,
        {
            if q > 0 {
                assert(q * size >= size);
            }
            if q < 0 {
                assert(q * size <= -size);
            }
        }
    } else {
        assert(k <= q) by (nonlinear_arith)
            requires
                size > 0,
                (k - 1) * size < len,
                q * size + rem == len + size - 1,
                0 <= rem < size,
        {
            assert(k * size <= len + size - 1);
            assert(k * size < (q + 1) * size);
            if k > q {
                assert(k >= q + 1);
                assert(k * size >= (q + 1) * size);
            }
        }
        assert(q <= k) by (nonlinear_arith)
            requires
                size > 0,
                len <= k * size,
                q * size + rem == len + size - 1,
                0 <= rem < size,
        {
            assert(q * size <= k * size + size - 1);
            if q > k {
                assert(q >= k + 1);
                assert(q * size >= (k + 1) * size);
            }
        }
    }
}

/// Cuts `len` sectors into consecutive groups of `size`, the last group
/// holding what is left, as `chunks_mut(size)` does: the bounds of each group.
pub fn chunk_ranges(len: usize, size: usize) -> (ranges: Vec<(usize, usize)>)
    requires
        size > 0,
    ensures
        ranges@.len() == chunk_count(len as nat, size as nat),
        forall|i: int|
            0 <= i < ranges@.len() ==> (#[trigger] ranges@[i]).0 == chunk_bounds(
                len as nat,
                size as nat,
                i as nat,
            ).0 && ranges@[i].1 == chunk_bounds(len as nat, size as nat, i as nat).1,
        ranges@.len() == 0 <==> len == 0,
        ranges@.len() > 0 ==> ranges@[0].0 == 0 && ranges@.last().1 == len,
        forall|i: int|
            0 <= i < ranges@.len() ==> 0 < (#[trigger] ranges@[i]).1 - ranges@[i].0 <= size,
        forall|i: int|
            0 <= i < ranges@.len() - 1 ==> (#[trigger] ranges@[i]).1 == ranges@[i + 1].0 && ranges@[i].1 - ranges@[i].0 == size,
{
    let mut ranges: Vec<(usize, usize)> = Vec::new();
    let mut start: usize = 0;
    let ghost mut k: int = 0;
    while start < len
        invariant
            size > 0,
            start <= len,
            k == ranges@.len(),
            start as int == if k * size <= len { k * size } else { len as int },
            k == 0 || (k - 1) * size < len,
            start < len ==> k * size == start,
            k == 0 ==> start == 0,
            k > 0 ==> ranges@[0].0 == 0 && ranges@[k - 1].1 == start,
            forall|i: int|
                0 <= i < ranges@.len() ==> 0 < (#[trigger] ranges@[i]).1 - ranges@[i].0 <= size,
            forall|i: int|
                0 <= i < ranges@.len() ==> (#[trigger] ranges@[i]).1 < len ==> ranges@[i].1
                    - ranges@[i].0 == size,
            forall|i: int|
                0 <= i < ranges@.len() - 1 ==> (#[trigger] ranges@[i]).1 == ranges@[i + 1].0,
            forall|i: int|
                0 <= i < ranges@.len() ==> (#[trigger] ranges@[i]).0 == chunk_bounds(
                    len as nat,
                    size as nat,
                    i as nat,
                ).0 && ranges@[i].1 == chunk_bounds(len as nat, size as nat, i as nat).1,
        decreases len - start,
    {
        let end: usize = if len - start > size {
            start + size
        } else {
            len
        };
        proof {
            assert((k + 1) * size == k * size + size) by (nonlinear_arith);
            assert(k >= 0);
            assert(chunk_bounds(len as nat, size as nat, k as nat).0 == start);
            assert(chunk_bounds(len as nat, size as nat, k as nat).1 == end);
        }
        ranges.push((start, end));
        start = end;
        proof {
            k = k + 1;
            assert(k * size == (k - 1) * size + size) by (nonlinear_arith);
        }
    }
    proof {
        assert(k >= 0);
        lemma_chunk_count(len as int, size as int, k);
        assert forall|i: int| 0 <= i < ranges@.len() - 1 implies (#[trigger] ranges@[i]).1
            == ranges@[i + 1].0 && ranges@[i].1 - ranges@[i].0 == size by {
            assert(ranges@[i + 1].0 < ranges@[i + 1].1);
        }
    }
    ranges
}

/// Shares `sector_count` sectors out among `threads` threads: groups of
/// `sector_count / threads` consecutive sectors, the last group holding what
/// is left.
pub fn thread_groups(sector_count: usize, threads: usize) -> (groups: Vec<(usize, usize)>)
    requires
        threads > 0,
        sector_count >= threads,
    ensures
        group_size(sector_count as nat, threads as nat) > 0,
        groups@.len() == chunk_count(
            sector_count as nat,
            group_size(sector_count as nat, threads as nat),
        ),
        forall|i: int|
            0 <= i < groups@.len() ==> (#[trigger] groups@[i]).0 == chunk_bounds(
                sector_count as nat,
                group_size(sector_count as nat, threads as nat),
                i as nat,
            ).0 && groups@[i].1 == chunk_bounds(
                sector_count as nat,
                group_size(sector_count as nat, threads as nat),
                i as nat,
            ).1,
        groups@.len() == 0 <==> sector_count == 0,
        groups@.len() > 0 ==> groups@[0].0 == 0 && groups@.last().1 == sector_count,
        forall|i: int|
            0 <= i < groups@.len() ==> 0 < (#[trigger] groups@[i]).1 - groups@[i].0 <= sector_count / threads,
        forall|i: int|
            0 <= i < groups@.len() - 1 ==> (#[trigger] groups@[i]).1 == groups@[i + 1].0 && groups@[i].1 - groups@[i].0 == sector_count / threads,
{
    let size = sector_count / threads;
    assert(size > 0) by (nonlinear_arith)
        requires
            threads > 0,
            sector_count >= threads,
            size == sector_count / threads,
    ;
    chunk_ranges(sector_count, size)
}

/// Every sector falls in exactly one group, the group of index `k / size`.
pub proof fn lemma_groups_cover(len: nat, size: nat, k: nat)
    requires
        size > 0,
        k < len,
    ensures
        k / size < chunk_count(len, size),
        chunk_bounds(len, size, k / size).0 <= k < chunk_bounds(len, size, k / size).1,
        forall|i: nat|
            i < chunk_count(len, size) && #[trigger] chunk_bounds(len, size, i).0 <= k
                < chunk_bounds(len, size, i).1 ==> i == k / size,
{
    let q = (k / size) as int;
    let r = (k % size) as int;
    let c = chunk_count(len, size) as int;
    let r2 = ((len + size - 1) % (size as int)) as int;
    assert(k == q * size + r && 0 <= r < size) by (nonlinear_arith)
        requires
            size > 0,
            q == k / size,
            r == k % size,
    ;
    assert(len + size - 1 == c * size + r2 && 0 <= r2 < size) by (nonlinear_arith)
        requires
            size > 0,
            c == (len + size - 1) / (size as int),
            r2 == (len + size - 1) % (size as int),
    ;
    assert(q < c) by (nonlinear_arith)
        requires
            size > 0,
            k == q * size + r,
            0 <= r,
            k < len,
            len + size - 1 == c * size + r2,
            r2 < size,
    {
        assert(q * size + size <= c * size + r2);
        if q >= c {
            assert(q * size >= c * size);
        }
    }
    assert((q + 1) * size == q * size + size) by (nonlinear_arith);
    assert forall|i: nat|
        i < chunk_count(len, size) && #[trigger] chunk_bounds(len, size, i).0 <= k < chunk_bounds(
            len,
            size,
            i,
        ).1 implies i == k / size by {
        assert(i * size <= k);
        assert(k < (i + 1) * size);
        assert(i == q) by (nonlinear_arith)
            requires
                size > 0,
                i * size <= k,
                k < (i + 1) * size,
                k == q * size + r,
                0 <= r < size,
        {
            if i < q {
                assert(i + 1 <= q);
                assert((i + 1) * size <= q * size);
            }
            if i > q {
                assert(q + 1 <= i);
                assert((q + 1) * size <= i * size);
            }
        }
    }
}

/// Every group holds at least one sector.
pub proof fn lemma_groups_nonempty(len: nat, size: nat, i: nat)
    requires
        size > 0,
        i < chunk_count(len, size),
    ensures
        chunk_bounds(len, size, i).0 < chunk_bounds(len, size, i).1,
{
    let c = chunk_count(len, size) as int;
    let r2 = ((len + size - 1) % (size as int)) as int;
    assert(len + size - 1 == c * size + r2 && 0 <= r2 < size) by (nonlinear_arith)
        requires
            size > 0,
            c == (len + size - 1) / (size as int),
            r2 == (len + size - 1) % (size as int),
    ;
    assert(i * size < len) by (nonlinear_arith)
        requires
            size > 0,
            i < c,
            len + size - 1 == c * size + r2,
            0 <= r2 < size,
    {
        assert(i + 1 <= c);
        assert((i + 1) * size <= c * size);
    }
    assert((i + 1) * size > i * size) by (nonlinear_arith)
        requires
            size > 0,
    ;
}

} // verus!
