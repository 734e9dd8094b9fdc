use vstd::prelude::*;
use crate::model::{
    Point, block_count, cell, counts_match, dist_sq, hit, labels_below, lemma_block_count_bound, lemma_cell,
    lemma_row_count_bound, non_increasing, row_count,
};

verus! {

/// Squared distance of two grid points, exact.
pub fn squared_distance(p: Point, q: Point) -> (d: u128)
    ensures
        d as int == dist_sq(p, q),
{
    let dx: i64 = p.x as i64 - q.x as i64;
    let dy: i64 = p.y as i64 - q.y as i64;
    let ax: u128 = if dx < 0 { (-dx) as u128 } else { dx as u128 };
    let ay: u128 = if dy < 0 { (-dy) as u128 } else { dy as u128 };
    assert(ax * ax <= 0x1_0000_0000_0000_0000) by (nonlinear_arith)
        requires ax <= 0x1_0000_0000,
    ;
    assert(ay * ay <= 0x1_0000_0000_0000_0000) by (nonlinear_arith)
        requires ay <= 0x1_0000_0000,
    ;
    assert(ax * ax == dx * dx) by (nonlinear_arith)
        requires ax == dx || ax == -dx,
    ;
    assert(ay * ay == dy * dy) by (nonlinear_arith)
        requires ay == dy || ay == -dy,
    ;
    ax * ax + ay * ay
}

/// Position of the cell `(a, b, r)` in a flat buffer of `k * k * l` counts.
pub fn cell_index(k: usize, l: usize, a: usize, b: usize, r: usize) -> (idx: usize)
    requires
        a < k,
        b < k,
        r < l,
        k * k * l <= usize::MAX,
    ensures
        idx as int == cell(k as int, l as int, a as int, b as int, r as int),
        idx < k * k * l,
{
    proof {
        lemma_cell(k as int, l as int, a as int, b as int, r as int, a as int, b as int, r as int);
        assert(a * k + b < k * k) by (nonlinear_arith)
            requires
                a < k,
                b < k,
        ;
        assert(k * k <= k * k * l) by (nonlinear_arith)
            requires
                1 <= l,
        ;
        assert((a * k + b) * l <= (a * k + b) * l + r) by (nonlinear_arith);
    }
    (a * k + b) * l + r
}

/// Counts, for the sources `lo <= i < hi` against every target of the table,
/// the pairs within each squared threshold of `sq`, into a fresh flat buffer of
/// `k * k * sq.len()` cells. The thresholds are walked from the largest down and
/// the walk stops at the first one that a pair exceeds.
pub fn count_rows(points: &Vec<Point>, k: usize, sq: &Vec<u128>, lo: usize, hi: usize) -> (out:
    Vec<u64>)
    requires
        lo <= hi <= points.len(),
        points.len() <= 0xffff_ffff,
        k * k * sq.len() <= usize::MAX,
        labels_below(points@, k as int),
        non_increasing(sq@),
    ensures
        counts_match(out@, points@, k as int, sq@, lo as int, hi as int),
{
    let n = points.len();
    let l = sq.len();
    proof {
        assert(k * l <= k * k * l) by (nonlinear_arith)
            requires
                k * k * l <= usize::MAX,
        ;
        assert(k * (k * l) == k * k * l) by (nonlinear_arith);
    }
    let size: usize = k * (k * l);
    let mut out: Vec<u64> = vec![0u64; size];
    let ghost pts = points@;
    let ghost kk = k as int;
    let ghost ll = l as int;
    let ghost nn = n as int;
    proof {
        assert forall|a: int, b: int, r: int|
            0 <= a < k && 0 <= b < k && 0 <= r < l implies #[trigger] out@[cell(kk, ll, a, b, r)]
                == block_count(pts, sq@[r] as int, a, b, lo as int, lo as int, nn) by {
            lemma_cell(kk, ll, a, b, r, a, b, r);
        }
    }
    let mut i: usize = lo;
    while i < hi
        invariant
            lo <= i <= hi <= n,
            n == points.len(),
            kk == k,
            ll == l,
            nn == n,
            pts == points@,
            l == sq.len(),
            n <= 0xffff_ffff,
            k * k * l <= usize::MAX,
            labels_below(pts, kk),
            non_increasing(sq@),
            out@.len() == size,
            size == k * k * l,
            forall|a: int, b: int, r: int|
                0 <= a < k && 0 <= b < k && 0 <= r < l ==> #[trigger] out@[cell(kk, ll, a, b, r)]
                    == block_count(pts, sq@[r] as int, a, b, lo as int, i as int, nn),
        decreases hi - i,
    {
        let pi = points[i];
        let mut j: usize = 0;
        while j < n
            invariant
                lo <= i < hi <= n,
                j <= n,
                n == points.len(),
                kk == k,
                ll == l,
                nn == n,
                pts == points@,
                pi == pts[i as int],
                l == sq.len(),
                n <= 0xffff_ffff,
                k * k * l <= usize::MAX,
                labels_below(pts, kk),
                non_increasing(sq@),
                out@.len() == size,
                size == k * k * l,
                forall|a: int, b: int, r: int|
                    0 <= a < k && 0 <= b < k && 0 <= r < l ==> #[trigger] out@[cell(
                        kk,
                        ll,
                        a,
                        b,
                        r,
                    )] == block_count(pts, sq@[r] as int, a, b, lo as int, i as int, nn)
                        + row_count(pts, sq@[r] as int, a, b, i as int, j as int),
            decreases n - j,
        {
            let ghost before = out@;
            if i != j {
                let pj = points[j];
                let d = squared_distance(pi, pj);
                let mut r: usize = 0;
                while r < l && d <= sq[r]
                    invariant
                        lo <= i < hi <= n,
                        j < n,
                        i != j,
                        n == points.len(),
                        kk == k,
                        ll == l,
                        nn == n,
                kk == k,
                ll == l,
                nn == n,
                        pts == points@,
                        pi == pts[i as int],
                        pj == pts[j as int],
                        d == dist_sq(pi, pj),
                        r <= l,
                        l == sq.len(),
                        n <= 0xffff_ffff,
                        k * k * l <= usize::MAX,
                        labels_below(pts, kk),
                        out@.len() == size,
                        size == k * k * l,
                        forall|rr: int| 0 <= rr < r ==> d <= #[trigger] sq@[rr],
                        forall|a: int, b: int, rr: int|
                            0 <= a < k && 0 <= b < k && 0 <= rr < l ==> #[trigger] out@[cell(
                                kk,
                                ll,
                                a,
                                b,
                                rr,
                            )] == before[cell(kk, ll, a, b, rr)] + if a == pi.label && b
                                == pj.label && rr < r {
                                1int
                            } else {
                                0int
                            },
                        forall|a: int, b: int, rr: int|
                            0 <= a < k && 0 <= b < k && 0 <= rr < l ==> #[trigger] before[cell(
                                kk,
                                ll,
                                a,
                                b,
                                rr,
                            )] == block_count(pts, sq@[rr] as int, a, b, lo as int, i as int, nn)
                                + row_count(pts, sq@[rr] as int, a, b, i as int, j as int),
                    decreases l - r,
                {
                    let idx = cell_index(k, l, pi.label, pj.label, r);
                    proof {
                        let a0 = pi.label as int;
                        let b0 = pj.label as int;
                        let t = sq@[r as int] as int;
                        lemma_block_count_bound(pts, t, a0, b0, lo as int, i as int, nn);
                        lemma_row_count_bound(pts, t, a0, b0, i as int, j as int);
                        assert(before[idx as int] == out@[idx as int]);
                        assert((i - lo) * nn + j + 1 <= nn * nn) by (nonlinear_arith)
                            requires
                                lo <= i < nn,
                                j < nn,
                        ;
                        assert(nn * nn <= 0xffff_ffff * 0xffff_ffff) by (nonlinear_arith)
                            requires
                                0 <= nn <= 0xffff_ffff,
                        ;
                    }
                    out.set(idx, out[idx] + 1);
                    proof {
                        assert forall|a: int, b: int, rr: int|
                            0 <= a < k && 0 <= b < k && 0 <= rr < l implies #[trigger] out@[cell(
                                kk,
                                ll,
                                a,
                                b,
                                rr,
                            )] == before[cell(kk, ll, a, b, rr)] + if a == pi.label && b
                                == pj.label && rr < r + 1 {
                                1int
                            } else {
                                0int
                            } by {
                            lemma_cell(
                                kk,
                                ll,
                                a,
                                b,
                                rr,
                                pi.label as int,
                                pj.label as int,
                                r as int,
                            );
                        }
                    }
                    r += 1;
                }
                proof {
                    assert forall|a: int, b: int, rr: int|
                        0 <= a < k && 0 <= b < k && 0 <= rr < l implies #[trigger] out@[cell(
                            kk,
                            ll,
                            a,
                            b,
                            rr,
                        )] == block_count(pts, sq@[rr] as int, a, b, lo as int, i as int, nn)
                            + row_count(pts, sq@[rr] as int, a, b, i as int, j + 1) by {
                        if rr >= r {
                            assert(sq@[rr] <= sq@[r as int]);
                        }
                        assert(hit(pts, sq@[rr] as int, a, b, i as int, j as int) <==> (a
                            == pi.label && b == pj.label && rr < r));
                    }
                }
            } else {
                proof {
                    assert forall|a: int, b: int, rr: int|
                        0 <= a < k && 0 <= b < k && 0 <= rr < l implies #[trigger] out@[cell(
                            kk,
                            ll,
                            a,
                            b,
                            rr,
                        )] == block_count(pts, sq@[rr] as int, a, b, lo as int, i as int, nn)
                            + row_count(pts, sq@[rr] as int, a, b, i as int, j + 1) by {
                        assert(!hit(pts, sq@[rr] as int, a, b, i as int, j as int));
                    }
                }
            }
            j += 1;
        }
        i += 1;
    }
    out
}

} // verus!
