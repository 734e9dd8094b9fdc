use vstd::prelude::*;
use vstd::relations::sorted_by;
use crate::cooccur::counts_tensor;
use crate::labels::label_order;
use crate::model::{Point, block_count, col_count, dist_sq, hit, pair_count, row_count};
use crate::radii::{desc, lemma_desc_total, sorted_squares, squares};
use crate::table::table_of;

verus! {

/// Distance does not depend on which point comes first.
pub proof fn lemma_dist_sq_symmetric(p: Point, q: Point)
    ensures
        dist_sq(p, q) == dist_sq(q, p),
{
    assert((p.x - q.x) * (p.x - q.x) == (q.x - p.x) * (q.x - p.x)) by (nonlinear_arith);
    assert((p.y - q.y) * (p.y - q.y) == (q.y - p.y) * (q.y - p.y)) by (nonlinear_arith);
}

proof fn lemma_row_is_col(pts: Seq<Point>, t: int, a: int, i: int, m: int)
    ensures
        row_count(pts, t, a, a, i, m) == col_count(pts, t, a, a, i, m),
    decreases m,
{
    if m > 0 {
        lemma_row_is_col(pts, t, a, i, m - 1);
        lemma_dist_sq_symmetric(pts[i], pts[m - 1]);
        assert(hit(pts, t, a, a, i, m - 1) == hit(pts, t, a, a, m - 1, i));
    }
}

proof fn lemma_block_widen(pts: Seq<Point>, t: int, a: int, b: int, h: int, m: int)
    requires
        0 <= h,
        0 <= m,
    ensures
        block_count(pts, t, a, b, 0, h, m + 1) == block_count(pts, t, a, b, 0, h, m) + col_count(
            pts,
            t,
            a,
            b,
            m,
            h,
        ),
    decreases h,
{
    if h > 0 {
        lemma_block_widen(pts, t, a, b, h - 1, m);
        assert(row_count(pts, t, a, b, h - 1, m + 1) == row_count(pts, t, a, b, h - 1, m) + if hit(
            pts,
            t,
            a,
            b,
            h - 1,
            m,
        ) {
            1nat
        } else {
            0nat
        });
        assert(block_count(pts, t, a, b, 0, h, m + 1) == block_count(pts, t, a, b, 0, h - 1, m + 1)
            + row_count(pts, t, a, b, h - 1, m + 1));
        assert(block_count(pts, t, a, b, 0, h, m) == block_count(pts, t, a, b, 0, h - 1, m)
            + row_count(pts, t, a, b, h - 1, m));
    }
}

proof fn lemma_square_even(pts: Seq<Point>, t: int, a: int, m: int)
    requires
        0 <= m,
    ensures
        block_count(pts, t, a, a, 0, m, m) % 2 == 0,
    decreases m,
{
    if m > 0 {
        let h = m - 1;
        lemma_square_even(pts, t, a, h);
        lemma_block_widen(pts, t, a, a, h, h);
        lemma_row_is_col(pts, t, a, h, h);
        assert(!hit(pts, t, a, a, h, h));
        assert(row_count(pts, t, a, a, h, m) == row_count(pts, t, a, a, h, h));
    }
}

/// Pairs within one label class come in twos: `(i, j)` counts exactly when
/// `(j, i)` does, so the count of a label with itself is even.
pub proof fn lemma_self_pairs_even(pts: Seq<Point>, t: int, a: int)
    ensures
        pair_count(pts, t, a, a) % 2 == 0,
{
    lemma_square_even(pts, t, a, pts.len() as int);
}

proof fn lemma_row_monotone(pts: Seq<Point>, t1: int, t2: int, a: int, b: int, i: int, m: int)
    requires
        t1 <= t2,
    ensures
        row_count(pts, t1, a, b, i, m) <= row_count(pts, t2, a, b, i, m),
    decreases m,
{
    if m > 0 {
        lemma_row_monotone(pts, t1, t2, a, b, i, m - 1);
    }
}

proof fn lemma_block_monotone(
    pts: Seq<Point>,
    t1: int,
    t2: int,
    a: int,
    b: int,
    lo: int,
    hi: int,
    m: int,
)
    requires
        t1 <= t2,
    ensures
        block_count(pts, t1, a, b, lo, hi, m) <= block_count(pts, t2, a, b, lo, hi, m),
    decreases hi - lo,
{
    if hi > lo {
        lemma_block_monotone(pts, t1, t2, a, b, lo, hi - 1, m);
        lemma_row_monotone(pts, t1, t2, a, b, hi - 1, m);
    }
}

/// A larger threshold never counts fewer pairs.
pub proof fn lemma_count_monotone(pts: Seq<Point>, t1: int, t2: int, a: int, b: int)
    requires
        t1 <= t2,
    ensures
        pair_count(pts, t1, a, b) <= pair_count(pts, t2, a, b),
{
    lemma_block_monotone(pts, t1, t2, a, b, 0, pts.len() as int, pts.len() as int);
}

/// Along the radius axis, which runs from the largest radius to the smallest,
/// the counts of every label pair never increase.
pub proof fn lemma_tensor_monotone(
    t: Vec<Vec<Vec<u64>>>,
    xs: Seq<i32>,
    ys: Seq<i32>,
    radii: Seq<i64>,
    labels: Seq<i32>,
    a: int,
    b: int,
    r1: int,
    r2: int,
)
    requires
        counts_tensor(t, xs, ys, radii, labels),
        0 <= a < label_order(labels).len(),
        0 <= b < label_order(labels).len(),
        0 <= r1 <= r2 < radii.len(),
    ensures
        t@[a]@[b]@[r2] <= t@[a]@[b]@[r1],
{
    let leq = |x: u128, y: u128| desc(x, y);
    lemma_desc_total();
    squares(radii).lemma_sort_by_ensures(leq);
    let sq = sorted_squares(radii);
    vstd::seq_lib::to_multiset_len(sq);
    vstd::seq_lib::to_multiset_len(squares(radii));
    assert(sorted_by(sq, leq));
    if r1 < r2 {
        assert(leq(sq[r1], sq[r2]));
    }
    assert(t@[a]@[b]@[r1] == pair_count(table_of(xs, ys, labels), sq[r1] as int, a, b));
    assert(t@[a]@[b]@[r2] == pair_count(table_of(xs, ys, labels), sq[r2] as int, a, b));
    lemma_count_monotone(table_of(xs, ys, labels), sq[r2] as int, sq[r1] as int, a, b);
}

/// A single point has no partner: every count is zero.
pub proof fn lemma_single_point(pts: Seq<Point>, t: int, a: int, b: int)
    requires
        pts.len() == 1,
    ensures
        pair_count(pts, t, a, b) == 0,
{
    assert(!hit(pts, t, a, b, 0, 0));
    assert(row_count(pts, t, a, b, 0, 0) == 0);
    assert(row_count(pts, t, a, b, 0, 1) == 0);
    assert(block_count(pts, t, a, b, 0, 1, 1) == block_count(pts, t, a, b, 0, 0, 1) + row_count(
        pts,
        t,
        a,
        b,
        0,
        1,
    ));
}

/// Every cell of a count table is an even number when source and target label
/// coincide.
pub proof fn lemma_tensor_self_even(
    t: Vec<Vec<Vec<u64>>>,
    xs: Seq<i32>,
    ys: Seq<i32>,
    radii: Seq<i64>,
    labels: Seq<i32>,
    a: int,
    r: int,
)
    requires
        counts_tensor(t, xs, ys, radii, labels),
        0 <= a < label_order(labels).len(),
        0 <= r < radii.len(),
    ensures
        t@[a]@[a]@[r] % 2 == 0,
{
    let sq = sorted_squares(radii);
    assert(t@[a]@[a]@[r] == pair_count(table_of(xs, ys, labels), sq[r] as int, a, a));
    lemma_self_pairs_even(table_of(xs, ys, labels), sq[r] as int, a);
}

/// With a single point, every cell of the count table is zero.
pub proof fn lemma_tensor_single_point(
    t: Vec<Vec<Vec<u64>>>,
    xs: Seq<i32>,
    ys: Seq<i32>,
    radii: Seq<i64>,
    labels: Seq<i32>,
    a: int,
    b: int,
    r: int,
)
    requires
        counts_tensor(t, xs, ys, radii, labels),
        xs.len() == 1,
        0 <= a < label_order(labels).len(),
        0 <= b < label_order(labels).len(),
        0 <= r < radii.len(),
    ensures
        t@[a]@[b]@[r] == 0,
{
    let sq = sorted_squares(radii);
    assert(t@[a]@[b]@[r] == pair_count(table_of(xs, ys, labels), sq[r] as int, a, b));
    lemma_single_point(table_of(xs, ys, labels), sq[r] as int, a, b);
}

/// The count table is determined by the input alone: any two tables that meet
/// the contract on the same input, however the work was cut into chunks, agree
/// in shape and in every cell.
pub proof fn lemma_tensor_determined(
    t1: Vec<Vec<Vec<u64>>>,
    t2: Vec<Vec<Vec<u64>>>,
    xs: Seq<i32>,
    ys: Seq<i32>,
    radii: Seq<i64>,
    labels: Seq<i32>,
)
    requires
        counts_tensor(t1, xs, ys, radii, labels),
        counts_tensor(t2, xs, ys, radii, labels),
    ensures
        t1@.len() == t2@.len(),
        forall|a: int|
            0 <= a < t1@.len() ==> (#[trigger] t1@[a])@.len() == t2@[a]@.len() && forall|b: int|
                0 <= b < t1@[a]@.len() ==> (#[trigger] t1@[a]@[b])@ == t2@[a]@[b]@,
{
    let k = label_order(labels).len() as int;
    assert forall|a: int| 0 <= a < t1@.len() implies (#[trigger] t1@[a])@.len() == t2@[a]@.len()
        && forall|b: int|
        0 <= b < t1@[a]@.len() ==> (#[trigger] t1@[a]@[b])@ == t2@[a]@[b]@ by {
        assert forall|b: int| 0 <= b < t1@[a]@.len() implies (#[trigger] t1@[a]@[b])@
            == t2@[a]@[b]@ by {
            assert(t1@[a]@[b]@ =~= t2@[a]@[b]@);
        }
    }
}

} // verus!
