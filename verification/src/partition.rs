//! Sharing columns out among workers.
//!
//! Columns rather than rows because the shape that matters most -- decode, M=1 -- has exactly one
//! row to give out.
use crate::math::div_ceil;
use vstd::prelude::*;

verus! {

/// How many workers share `total` columns when `threads` are asked for: at least one, and no more
/// than there are columns.
pub open spec fn workers(total: int, threads: int) -> int {
    let wanted = if threads > 1 {
        threads
    } else {
        1
    };
    let most = if total > 1 {
        total
    } else {
        1
    };
    if wanted < most {
        wanted
    } else {
        most
    }
}

/// The number of columns in every range but the last, which may be shorter.
pub open spec fn chunk(total: int, threads: int) -> int {
    (total + workers(total, threads) - 1) / workers(total, threads)
}

/// The number of ranges: as many chunks as start before `total`, or one for a single worker.
pub open spec fn range_count(total: int, threads: int) -> int {
    if workers(total, threads) == 1 {
        1
    } else {
        (total + chunk(total, threads) - 1) / chunk(total, threads)
    }
}

/// The end of range `t`.
pub open spec fn range_end(total: int, threads: int, t: int) -> int {
    let end = (t + 1) * chunk(total, threads);
    if end < total {
        end
    } else {
        total
    }
}

/// The ranges follow one another from 0 to `total`.
pub open spec fn is_partition(ranges: Seq<(usize, usize)>, total: int) -> bool {
    &&& ranges.len() > 0
    &&& ranges[0].0 == 0
    &&& ranges[ranges.len() - 1].1 == total
    &&& forall|t: int| 0 <= t < ranges.len() ==> (#[trigger] ranges[t]).0 <= ranges[t].1
    &&& forall|t: int, u: int|
        0 <= t && u == t + 1 && u < ranges.len() ==> (#[trigger] ranges[t]).1 == (
        #[trigger] ranges[u]).0
}

/// Chunk `t` starts before `total` exactly when `t` is below the number of chunks.
pub proof fn lemma_chunk_starts(total: int, size: int, t: int)
    requires
        0 < size,
        0 <= t,
    ensures
        t * size < total <==> t < (total + size - 1) / size,
{
    let q = (total + size - 1) / size;
    vstd::arithmetic::div_mod::lemma_fundamental_div_mod(total + size - 1, size);
    let r = (total + size - 1) % size;
    assert(t * size < total <==> t < q) by (nonlinear_arith)
        requires
            0 < size,
            total + size - 1 == size * q + r,
            0 <= r < size,
    ;
}

/// The chunks of `w` workers are not empty and reach `total`.
pub proof fn lemma_chunks_reach(total: int, w: int)
    requires
        1 <= w <= total,
    ensures
        1 <= (total + w - 1) / w <= total,
        w * ((total + w - 1) / w) >= total,
{
    let size = (total + w - 1) / w;
    vstd::arithmetic::div_mod::lemma_fundamental_div_mod(total + w - 1, w);
    let r = (total + w - 1) % w;
    assert(w * size >= total && size >= 1 && size <= total) by (nonlinear_arith)
        requires
            1 <= w <= total,
            total + w - 1 == w * size + r,
            0 <= r < w,
    ;
}

/// The column ranges, one to a worker, that share out `total` columns among `threads` workers.
///
/// The ranges follow one another, so that no column is in two of them and none is left out.
pub fn column_ranges(total: usize, threads: usize) -> (ranges: Vec<(usize, usize)>)
    ensures
        ranges@.len() == range_count(total as int, threads as int),
        forall|t: int|
            0 <= t < ranges@.len() ==> (#[trigger] ranges@[t]).0 == t * chunk(
                total as int,
                threads as int,
            ) && ranges@[t].1 == range_end(total as int, threads as int, t),
        is_partition(ranges@, total as int),
        total > 0 ==> forall|t: int|
            0 <= t < ranges@.len() ==> (#[trigger] ranges@[t]).0 < ranges@[t].1,
        ranges@.len() <= workers(total as int, threads as int),
        ({
            let wanted = if threads > 1 {
                threads as int
            } else {
                1
            };
            let most = if total > 1 {
                total as int
            } else {
                1
            };
            let w = if wanted < most {
                wanted
            } else {
                most
            };
            let size = (total + w - 1) / w;
            &&& 1 <= ranges@.len() <= w
            &&& total > 0 ==> (ranges@.len() - 1) * size < total <= ranges@.len() * size
            &&& forall|t: int|
                0 <= t < ranges@.len() ==> (#[trigger] ranges@[t]).0 == t * size && ranges@[t].1
                    == (if (t + 1) * size < total {
                    (t + 1) * size
                } else {
                    total as int
                })
        }),
{
    let wanted = if threads > 1 {
        threads
    } else {
        1
    };
    let most = if total > 1 {
        total
    } else {
        1
    };
    let nthreads = if wanted < most {
        wanted
    } else {
        most
    };
    let mut ranges: Vec<(usize, usize)> = Vec::new();
    if nthreads == 1 {
        ranges.push((0, total));
        proof {
            assert(workers(total as int, threads as int) == 1);
            vstd::arithmetic::div_mod::lemma_div_basics(total as int);
            assert(chunk(total as int, threads as int) == total);
            assert(range_end(total as int, threads as int, 0) == total);
            assert(0 * chunk(total as int, threads as int) == 0);
        }
        return ranges;
    }
    let size = div_ceil(total, nthreads);
    proof {
        lemma_chunks_reach(total as int, nthreads as int);
    }
    let ghost count = range_count(total as int, threads as int);
    let mut start: usize = 0;
    let mut t: usize = 0;
    proof {
        assert(0 * size == 0) by (nonlinear_arith);
        lemma_chunk_starts(total as int, size as int, nthreads as int);
    }
    while start < total
        invariant
            nthreads == workers(total as int, threads as int),
            nthreads > 1,
            1 <= size <= total,
            size == chunk(total as int, threads as int),
            count == range_count(total as int, threads as int),
            count <= nthreads,
            start <= total,
            t <= count,
            start == t * size || start == total,
            start < total ==> start == t * size,
            t * size >= start,
            ranges@.len() == t,
            start == 0 <==> t == 0,
            t > 0 ==> ranges@[t - 1].1 == start,
            forall|u: int|
                0 <= u < t ==> (#[trigger] ranges@[u]).0 == u * size && ranges@[u].1 == range_end(
                    total as int,
                    threads as int,
                    u,
                ) && ranges@[u].0 < ranges@[u].1,
        decreases total - start,
    {
        proof {
            lemma_chunk_starts(total as int, size as int, t as int);
            assert((t + 1) * size == t * size + size) by (nonlinear_arith);
        }
        let end = if total - start > size {
            start + size
        } else {
            total
        };
        ranges.push((start, end));
        start = end;
        t += 1;
    }
    proof {
        lemma_chunk_starts(total as int, size as int, t as int);
        assert(t == count);
        assert forall|u: int, v: int|
            0 <= u && v == u + 1 && v < ranges@.len() implies (#[trigger] ranges@[u]).1 == (
        #[trigger] ranges@[v]).0 by {
            lemma_chunk_starts(total as int, size as int, v);
        }
    }
    ranges
}

} // verus!
