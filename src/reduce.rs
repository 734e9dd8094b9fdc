use vstd::prelude::*;
use crate::accumulate::count_rows;
use crate::model::{
    Point, block_count, cell, counts_match, labels_below, lemma_block_count_bound, lemma_block_split,
    non_increasing,
};
use rayon::iter::{IntoParallelIterator, ParallelIterator};

verus! {

/// First source of chunk `c` when the table of `n` points is cut into chunks of `cs`.
pub open spec fn chunk_lo(c: int, cs: int, n: int) -> int {
    if c * cs < n {
        c * cs
    } else {
        n
    }
}

/// One past the last source of chunk `c`.
pub open spec fn chunk_hi(c: int, cs: int, n: int) -> int {
    chunk_lo(c + 1, cs, n)
}

/// Number of chunks of `cs` points that cover a table of `n` points.
pub open spec fn chunk_total(n: int, cs: int) -> int {
    (n + cs - 1) / cs
}

/// Preconditions shared by the counting functions.
pub open spec fn count_ready(points: Seq<Point>, k: int, sq: Seq<u128>) -> bool {
    &&& points.len() <= 0xffff_ffff
    &&& k * k * sq.len() <= usize::MAX
    &&& labels_below(points, k)
    &&& non_increasing(sq)
}

/// Adds a partial buffer into the running total, cell by cell; cells that the
/// partial buffer leaves at zero are skipped.
pub fn merge_into(total: &mut Vec<u64>, part: &Vec<u64>)
    requires
        old(total)@.len() == part@.len(),
        forall|i: int| 0 <= i < part@.len() ==> old(total)@[i] + part@[i] <= u64::MAX,
    ensures
        final(total)@.len() == old(total)@.len(),
        forall|i: int|
            0 <= i < part@.len() ==> #[trigger] final(total)@[i] == old(total)@[i] + part@[i],
{
    let ghost start = total@;
    let mut i: usize = 0;
    while i < part.len()
        invariant
            i <= part@.len(),
            total@.len() == part@.len(),
            start.len() == part@.len(),
            forall|q: int| 0 <= q < part@.len() ==> start[q] + part@[q] <= u64::MAX,
            forall|q: int| 0 <= q < i ==> #[trigger] total@[q] == start[q] + part@[q],
            forall|q: int| i <= q < part@.len() ==> #[trigger] total@[q] == start[q],
        decreases part@.len() - i,
    {
        let p = part[i];
        if p != 0 {
            let v = total[i] + p;
            total.set(i, v);
        }
        i += 1;
    }
}

/// Counts the pairs whose source lies in chunk `c` of size `cs`.
pub fn count_chunk(points: &Vec<Point>, k: usize, sq: &Vec<u128>, c: usize, cs: usize) -> (out:
    Vec<u64>)
    requires
        count_ready(points@, k as int, sq@),
        cs > 0,
        c * cs < points.len(),
    ensures
        counts_match(
            out@,
            points@,
            k as int,
            sq@,
            chunk_lo(c as int, cs as int, points.len() as int),
            chunk_hi(c as int, cs as int, points.len() as int),
        ),
{
    let n = points.len();
    let lo = c * cs;
    let hi = if cs >= n - lo {
        n
    } else {
        lo + cs
    };
    assert((c + 1) * cs == c * cs + cs) by (nonlinear_arith);
    count_rows(points, k, sq, lo, hi)
}

/// Relies on rayon's `IntoParallelIterator` for `Range<usize>`, `map` and
/// `collect` into a `Vec`: every index in `0..n_chunks` is mapped exactly once,
/// and the results come back in the order of the indices.
#[verifier::external_body]
fn par_count_chunks(points: &Vec<Point>, k: usize, sq: &Vec<u128>, cs: usize, n_chunks: usize) -> (parts:
    Vec<Vec<u64>>)
    requires
        count_ready(points@, k as int, sq@),
        cs > 0,
        forall|c: int| 0 <= c < n_chunks ==> #[trigger] (c * cs) < points.len(),
    ensures
        parts@.len() == n_chunks,
        forall|c: int|
            0 <= c < n_chunks ==> counts_match(
                #[trigger] parts@[c]@,
                points@,
                k as int,
                sq@,
                chunk_lo(c, cs as int, points.len() as int),
                chunk_hi(c, cs as int, points.len() as int),
            ),
{
    (0..n_chunks).into_par_iter().map(|c| count_chunk(points, k, sq, c, cs)).collect()
}

/// Counts every pair of the table: the sources are cut into chunks of `cs`
/// points, the chunks are counted in parallel into buffers of their own, and the
/// buffers are then added into one total.
pub fn count_pairs(points: &Vec<Point>, k: usize, sq: &Vec<u128>, cs: usize) -> (out: Vec<u64>)
    requires
        count_ready(points@, k as int, sq@),
        cs > 0,
    ensures
        counts_match(out@, points@, k as int, sq@, 0, points.len() as int),
{
    let n = points.len();
    let l = sq.len();
    proof {
        vstd::arithmetic::div_mod::lemma_fundamental_div_mod(n as int, cs as int);
        assert(n / cs < n || n % cs == 0) by (nonlinear_arith)
            requires
                n == cs * (n / cs) + n % cs,
                0 <= n % cs < cs,
                0 <= n / cs,
        ;
    }
    let n_chunks: usize = n / cs + if n % cs == 0 {
        0
    } else {
        1
    };
    proof {
        vstd::arithmetic::div_mod::lemma_fundamental_div_mod(n as int, cs as int);
        assert forall|c: int| 0 <= c < n_chunks implies #[trigger] (c * cs) < n by {
            assert(c * cs < n) by (nonlinear_arith)
                requires
                    0 <= c < n_chunks,
                    n_chunks == n / cs + if n % cs == 0 { 0int } else { 1int },
                    n == cs * (n / cs) + n % cs,
                    0 <= n % cs < cs,
            ;
        }
        assert(n_chunks * cs >= n) by (nonlinear_arith)
            requires
                n_chunks == n / cs + if n % cs == 0 { 0int } else { 1int },
                n == cs * (n / cs) + n % cs,
                0 <= n % cs < cs,
        ;
        assert(k * l <= k * k * l) by (nonlinear_arith)
            requires
                k * k * l <= usize::MAX,
        ;
        assert(k * (k * l) == k * k * l) by (nonlinear_arith);
    }
    let parts = par_count_chunks(points, k, sq, cs, n_chunks);
    let mut total: Vec<u64> = vec![0u64; k * (k * l)];
    let ghost pts = points@;
    let ghost nn = n as int;
    let ghost kk = k as int;
    let ghost ll = l as int;
    proof {
        assert forall|a: int, b: int, r: int|
            0 <= a < k && 0 <= b < k && 0 <= r < l implies #[trigger] total@[cell(kk, ll, a, b, r)]
                == block_count(pts, sq@[r] as int, a, b, 0, chunk_lo(0, cs as int, nn), nn) by {
            crate::model::lemma_cell(kk, ll, a, b, r, a, b, r);
        }
    }
    let mut c: usize = 0;
    while c < n_chunks
        invariant
            c <= n_chunks,
            n_chunks * cs >= n,
            cs > 0,
            n == points.len(),
            pts == points@,
            nn == n,
            kk == k,
            ll == l,
            l == sq.len(),
            count_ready(pts, kk, sq@),
            parts@.len() == n_chunks,
            forall|q: int|
                0 <= q < n_chunks ==> counts_match(
                    #[trigger] parts@[q]@,
                    pts,
                    kk,
                    sq@,
                    chunk_lo(q, cs as int, nn),
                    chunk_hi(q, cs as int, nn),
                ),
            counts_match(total@, pts, kk, sq@, 0, chunk_lo(c as int, cs as int, nn)),
        decreases n_chunks - c,
    {
        let ghost mid = chunk_lo(c as int, cs as int, nn);
        let ghost hi = chunk_hi(c as int, cs as int, nn);
        assert(counts_match(parts@[c as int]@, pts, kk, sq@, mid, hi));
        proof {
            assert(0 <= mid <= hi <= nn) by (nonlinear_arith)
                requires
                    mid == chunk_lo(c as int, cs as int, nn),
                    hi == chunk_lo(c + 1, cs as int, nn),
                    0 <= c,
                    0 < cs,
                    0 <= nn,
            ;
            assert forall|i: int| 0 <= i < parts@[c as int]@.len() implies total@[i]
                + parts@[c as int]@[i] <= u64::MAX by {
                let (a, b, r) = crate::model::lemma_cell_cover(kk, ll, i);
                let t = sq@[r] as int;
                assert(total@[cell(kk, ll, a, b, r)] == block_count(pts, t, a, b, 0, mid, nn));
                assert(parts@[c as int]@[cell(kk, ll, a, b, r)] == block_count(
                    pts,
                    t,
                    a,
                    b,
                    mid,
                    hi,
                    nn,
                ));
                lemma_block_split(pts, t, a, b, 0, mid, hi, nn);
                lemma_block_count_bound(pts, t, a, b, 0, hi, nn);
                assert(hi * nn <= 0xffff_ffff * 0xffff_ffff) by (nonlinear_arith)
                    requires
                        0 <= hi <= nn <= 0xffff_ffff,
                ;
            }
        }
        merge_into(&mut total, &parts[c]);
        proof {
            assert forall|a: int, b: int, r: int|
                0 <= a < k && 0 <= b < k && 0 <= r < l implies #[trigger] total@[cell(
                    kk,
                    ll,
                    a,
                    b,
                    r,
                )] == block_count(pts, sq@[r] as int, a, b, 0, hi, nn) by {
                crate::model::lemma_cell(kk, ll, a, b, r, a, b, r);
                lemma_block_split(pts, sq@[r] as int, a, b, 0, mid, hi, nn);
            }
        }
        c += 1;
    }
    proof {
        assert(chunk_lo(n_chunks as int, cs as int, nn) == nn);
    }
    total
}

} // verus!
