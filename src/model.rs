use vstd::prelude::*;

verus! {

/// One row of the point table: grid coordinates and the dense index of the label.
#[derive(Clone, Copy, Debug, PartialEq, Eq, Structural)]
pub struct Point {
    pub x: i32,
    pub y: i32,
    pub label: usize,
}

/// Squared Euclidean distance between two points.
pub open spec fn dist_sq(p: Point, q: Point) -> int {
    (p.x - q.x) * (p.x - q.x) + (p.y - q.y) * (p.y - q.y)
}

/// Whether the ordered pair `(i, j)` counts for the label pair `(a, b)` under the
/// squared threshold `t`.
pub open spec fn hit(pts: Seq<Point>, t: int, a: int, b: int, i: int, j: int) -> bool {
    &&& i != j
    &&& pts[i].label == a
    &&& pts[j].label == b
    &&& dist_sq(pts[i], pts[j]) <= t
}

/// Number of targets `j < m` that count with source `i`.
pub open spec fn row_count(pts: Seq<Point>, t: int, a: int, b: int, i: int, m: int) -> nat
    decreases m,
{
    if m <= 0 {
        0
    } else {
        row_count(pts, t, a, b, i, m - 1) + if hit(pts, t, a, b, i, m - 1) {
            1nat
        } else {
            0nat
        }
    }
}

/// Number of sources `i < m` that count with target `j`.
pub open spec fn col_count(pts: Seq<Point>, t: int, a: int, b: int, j: int, m: int) -> nat
    decreases m,
{
    if m <= 0 {
        0
    } else {
        col_count(pts, t, a, b, j, m - 1) + if hit(pts, t, a, b, m - 1, j) {
            1nat
        } else {
            0nat
        }
    }
}

/// Number of counting pairs `(i, j)` with `lo <= i < hi` and `j < m`.
pub open spec fn block_count(
    pts: Seq<Point>,
    t: int,
    a: int,
    b: int,
    lo: int,
    hi: int,
    m: int,
) -> nat
    decreases hi - lo,
{
    if hi <= lo {
        0
    } else {
        block_count(pts, t, a, b, lo, hi - 1, m) + row_count(pts, t, a, b, hi - 1, m)
    }
}

/// Number of ordered pairs of distinct points, the source labelled `a` and the
/// target labelled `b`, whose squared distance is at most `t`.
pub open spec fn pair_count(pts: Seq<Point>, t: int, a: int, b: int) -> nat {
    block_count(pts, t, a, b, 0, pts.len() as int, pts.len() as int)
}

/// Position of the cell `(a, b, r)` in a flat buffer of `k * k * l` counts.
pub open spec fn cell(k: int, l: int, a: int, b: int, r: int) -> int {
    (a * k + b) * l + r
}

/// The thresholds are in non-increasing order.
pub open spec fn non_increasing(s: Seq<u128>) -> bool {
    forall|p: int, q: int| 0 <= p <= q < s.len() ==> s[q] <= s[p]
}

/// Every label index of the table is below `k`.
pub open spec fn labels_below(pts: Seq<Point>, k: int) -> bool {
    forall|i: int| 0 <= i < pts.len() ==> pts[i].label < k
}

pub proof fn lemma_row_count_bound(pts: Seq<Point>, t: int, a: int, b: int, i: int, m: int)
    requires
        0 <= m,
    ensures
        row_count(pts, t, a, b, i, m) <= m,
    decreases m,
{
    if m > 0 {
        lemma_row_count_bound(pts, t, a, b, i, m - 1);
    }
}

pub proof fn lemma_block_count_bound(
    pts: Seq<Point>,
    t: int,
    a: int,
    b: int,
    lo: int,
    hi: int,
    m: int,
)
    requires
        lo <= hi,
        0 <= m,
    ensures
        block_count(pts, t, a, b, lo, hi, m) <= (hi - lo) * m,
    decreases hi - lo,
{
    if hi > lo {
        lemma_block_count_bound(pts, t, a, b, lo, hi - 1, m);
        lemma_row_count_bound(pts, t, a, b, hi - 1, m);
        assert((hi - 1 - lo) * m + m == (hi - lo) * m) by (nonlinear_arith);
    }
}

/// Distinct cells of a `k * k * l` buffer have distinct positions inside it.
pub proof fn lemma_cell(k: int, l: int, a: int, b: int, r: int, a2: int, b2: int, r2: int)
    requires
        0 <= a < k,
        0 <= b < k,
        0 <= r < l,
        0 <= a2 < k,
        0 <= b2 < k,
        0 <= r2 < l,
    ensures
        0 <= cell(k, l, a, b, r) < k * k * l,
        cell(k, l, a, b, r) == cell(k, l, a2, b2, r2) ==> (a == a2 && b == b2 && r == r2),
{
    assert(0 <= a * k + b < k * k) by (nonlinear_arith)
        requires
            0 <= a < k,
            0 <= b < k,
    ;
    let ab = a * k + b;
    let ab2 = a2 * k + b2;
    assert(0 <= ab2 < k * k) by (nonlinear_arith)
        requires
            0 <= a2 < k,
            0 <= b2 < k,
            ab2 == a2 * k + b2,
    ;
    assert(0 <= ab * l + r < k * k * l) by (nonlinear_arith)
        requires
            0 <= ab < k * k,
            0 <= r < l,
    ;
    if cell(k, l, a, b, r) == cell(k, l, a2, b2, r2) {
        assert(ab == ab2 && r == r2) by (nonlinear_arith)
            requires
                ab * l + r == ab2 * l + r2,
                0 <= r < l,
                0 <= r2 < l,
                0 <= ab,
                0 <= ab2,
        ;
        assert(a == a2 && b == b2) by (nonlinear_arith)
            requires
                a * k + b == a2 * k + b2,
                0 <= b < k,
                0 <= b2 < k,
                0 <= a,
                0 <= a2,
        ;
    }
}

/// The flat buffer `out` holds, for every cell `(a, b, r)`, the number of counting
/// pairs whose source lies in `[lo, hi)`, under the threshold `sq[r]`.
pub open spec fn counts_match(
    out: Seq<u64>,
    pts: Seq<Point>,
    k: int,
    sq: Seq<u128>,
    lo: int,
    hi: int,
) -> bool {
    &&& out.len() == k * k * sq.len()
    &&& forall|a: int, b: int, r: int|
        0 <= a < k && 0 <= b < k && 0 <= r < sq.len() ==> #[trigger] out[cell(
            k,
            sq.len() as int,
            a,
            b,
            r,
        )] == block_count(pts, sq[r] as int, a, b, lo, hi, pts.len() as int)
}

/// Every position of a `k * k * l` buffer is the position of some cell.
pub proof fn lemma_cell_cover(k: int, l: int, i: int) -> (abr: (int, int, int))
    requires
        0 <= k,
        0 <= l,
        0 <= i < k * k * l,
    ensures
        0 <= abr.0 < k,
        0 <= abr.1 < k,
        0 <= abr.2 < l,
        i == cell(k, l, abr.0, abr.1, abr.2),
{
    assert(l > 0 && k > 0) by (nonlinear_arith)
        requires
            0 <= k,
            0 <= l,
            0 <= i < k * k * l,
    ;
    let q = i / l;
    let r = i % l;
    vstd::arithmetic::div_mod::lemma_fundamental_div_mod(i, l);
    vstd::arithmetic::div_mod::lemma_mod_bound(i, l);
    assert(0 <= q < k * k) by (nonlinear_arith)
        requires
            i == l * q + r,
            0 <= r < l,
            0 <= i < k * k * l,
    ;
    let a = q / k;
    let b = q % k;
    vstd::arithmetic::div_mod::lemma_fundamental_div_mod(q, k);
    vstd::arithmetic::div_mod::lemma_mod_bound(q, k);
    assert(0 <= a < k) by (nonlinear_arith)
        requires
            q == k * a + b,
            0 <= b < k,
            0 <= q < k * k,
    ;
    assert(i == (a * k + b) * l + r) by (nonlinear_arith)
        requires
            q == k * a + b,
            i == l * q + r,
    ;
    (a, b, r)
}

/// Splitting the sources at any point in between and adding the two counts gives
/// the count over the whole range.
pub proof fn lemma_block_split(
    pts: Seq<Point>,
    t: int,
    a: int,
    b: int,
    lo: int,
    mid: int,
    hi: int,
    m: int,
)
    requires
        lo <= mid <= hi,
    ensures
        block_count(pts, t, a, b, lo, mid, m) + block_count(pts, t, a, b, mid, hi, m)
            == block_count(pts, t, a, b, lo, hi, m),
    decreases hi - mid,
{
    if hi > mid {
        lemma_block_split(pts, t, a, b, lo, mid, hi - 1, m);
    }
}

} // verus!
