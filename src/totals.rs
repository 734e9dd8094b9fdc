use vstd::prelude::*;
use crate::cooccur::counts_tensor;
use crate::labels::label_order;
use crate::model::{Point, block_count, dist_sq, hit, labels_below, pair_count, row_count};
use crate::radii::sorted_squares;
use crate::table::table_of;

verus! {

/// `f(0) + f(1) + ... + f(k - 1)`.
pub open spec fn label_sum(f: spec_fn(int) -> nat, k: int) -> nat
    decreases k,
{
    if k <= 0 {
        0
    } else {
        label_sum(f, k - 1) + f(k - 1)
    }
}

/// Whether `(i, j)` is an ordered pair of distinct points within `t`, whatever
/// their labels.
pub open spec fn any_hit(pts: Seq<Point>, t: int, i: int, j: int) -> bool {
    i != j && dist_sq(pts[i], pts[j]) <= t
}

/// Number of targets `j < m` within `t` of source `i`, whatever the labels.
pub open spec fn any_row(pts: Seq<Point>, t: int, i: int, m: int) -> nat
    decreases m,
{
    if m <= 0 {
        0
    } else {
        any_row(pts, t, i, m - 1) + if any_hit(pts, t, i, m - 1) {
            1nat
        } else {
            0nat
        }
    }
}

/// Number of pairs with source below `h` within `t`, whatever the labels.
pub open spec fn any_block(pts: Seq<Point>, t: int, h: int) -> nat
    decreases h,
{
    if h <= 0 {
        0
    } else {
        any_block(pts, t, h - 1) + any_row(pts, t, h - 1, pts.len() as int)
    }
}

/// Number of ordered pairs of distinct points within the squared threshold `t`.
pub open spec fn total_pairs(pts: Seq<Point>, t: int) -> nat {
    any_block(pts, t, pts.len() as int)
}

/// The counts under threshold `t`, added over every label pair below `k`.
pub open spec fn label_pair_total(pts: Seq<Point>, t: int, k: int) -> nat {
    label_sum(|a: int| label_sum(|b: int| pair_count(pts, t, a, b), k), k)
}

spec fn row_b(pts: Seq<Point>, t: int, a: int, i: int, m: int) -> spec_fn(int) -> nat {
    |b: int| row_count(pts, t, a, b, i, m)
}

spec fn hit_b(pts: Seq<Point>, t: int, a: int, i: int, j: int) -> spec_fn(int) -> nat {
    |b: int|
        if hit(pts, t, a, b, i, j) {
            1nat
        } else {
            0nat
        }
}

spec fn row_a(pts: Seq<Point>, t: int, k: int, i: int, m: int) -> spec_fn(int) -> nat {
    |a: int| label_sum(row_b(pts, t, a, i, m), k)
}

spec fn src_a(pts: Seq<Point>, t: int, i: int, j: int) -> spec_fn(int) -> nat {
    |a: int|
        if a == pts[i].label && any_hit(pts, t, i, j) {
            1nat
        } else {
            0nat
        }
}

spec fn block_b(pts: Seq<Point>, t: int, a: int, h: int) -> spec_fn(int) -> nat {
    |b: int| block_count(pts, t, a, b, 0, h, pts.len() as int)
}

spec fn block_a(pts: Seq<Point>, t: int, k: int, h: int) -> spec_fn(int) -> nat {
    |a: int| label_sum(block_b(pts, t, a, h), k)
}

proof fn lemma_sum_add(f: spec_fn(int) -> nat, g: spec_fn(int) -> nat, h: spec_fn(int) -> nat, k: int)
    requires
        forall|x: int| 0 <= x < k ==> #[trigger] h(x) == f(x) + g(x),
    ensures
        label_sum(h, k) == label_sum(f, k) + label_sum(g, k),
    decreases k,
{
    if k > 0 {
        lemma_sum_add(f, g, h, k - 1);
    }
}

proof fn lemma_sum_eq(f: spec_fn(int) -> nat, g: spec_fn(int) -> nat, k: int)
    requires
        forall|x: int| 0 <= x < k ==> #[trigger] f(x) == g(x),
    ensures
        label_sum(f, k) == label_sum(g, k),
    decreases k,
{
    if k > 0 {
        lemma_sum_eq(f, g, k - 1);
    }
}

proof fn lemma_sum_one(g: spec_fn(int) -> nat, c: int, v: nat, k: int)
    requires
        forall|x: int|
            0 <= x < k ==> #[trigger] g(x) == if x == c {
                v
            } else {
                0nat
            },
    ensures
        label_sum(g, k) == if 0 <= c < k {
            v
        } else {
            0nat
        },
    decreases k,
{
    if k > 0 {
        lemma_sum_one(g, c, v, k - 1);
    }
}

proof fn lemma_row_labels(pts: Seq<Point>, t: int, k: int, i: int, m: int)
    requires
        0 <= m <= pts.len(),
        0 <= i < pts.len(),
        labels_below(pts, k),
    ensures
        label_sum(row_a(pts, t, k, i, m), k) == any_row(pts, t, i, m),
    decreases m,
{
    if m > 0 {
        let j = m - 1;
        lemma_row_labels(pts, t, k, i, j);
        let li = pts[i].label as int;
        let lj = pts[j].label as int;
        assert forall|a: int| 0 <= a < k implies #[trigger] row_a(pts, t, k, i, m)(a) == row_a(
            pts,
            t,
            k,
            i,
            j,
        )(a) + src_a(pts, t, i, j)(a) by {
            let v: nat = if a == li && any_hit(pts, t, i, j) {
                1
            } else {
                0
            };
            lemma_sum_one(hit_b(pts, t, a, i, j), lj, v, k);
            lemma_sum_add(row_b(pts, t, a, i, j), hit_b(pts, t, a, i, j), row_b(pts, t, a, i, m), k);
        }
        lemma_sum_add(row_a(pts, t, k, i, j), src_a(pts, t, i, j), row_a(pts, t, k, i, m), k);
        lemma_sum_one(
            src_a(pts, t, i, j),
            li,
            if any_hit(pts, t, i, j) {
                1nat
            } else {
                0nat
            },
            k,
        );
    } else {
        assert forall|a: int| 0 <= a < k implies #[trigger] row_a(pts, t, k, i, m)(a) == 0 by {
            lemma_sum_one(row_b(pts, t, a, i, m), -1, 0, k);
        }
        lemma_sum_one(row_a(pts, t, k, i, m), -1, 0, k);
    }
}

proof fn lemma_block_labels(pts: Seq<Point>, t: int, k: int, h: int)
    requires
        0 <= h <= pts.len(),
        labels_below(pts, k),
    ensures
        label_sum(block_a(pts, t, k, h), k) == any_block(pts, t, h),
    decreases h,
{
    if h > 0 {
        let i = h - 1;
        let n = pts.len() as int;
        lemma_block_labels(pts, t, k, i);
        lemma_row_labels(pts, t, k, i, n);
        assert forall|a: int| 0 <= a < k implies #[trigger] block_a(pts, t, k, h)(a) == block_a(
            pts,
            t,
            k,
            i,
        )(a) + row_a(pts, t, k, i, n)(a) by {
            lemma_sum_add(block_b(pts, t, a, i), row_b(pts, t, a, i, n), block_b(pts, t, a, h), k);
        }
        lemma_sum_add(block_a(pts, t, k, i), row_a(pts, t, k, i, n), block_a(pts, t, k, h), k);
    } else {
        assert forall|a: int| 0 <= a < k implies #[trigger] block_a(pts, t, k, h)(a) == 0 by {
            lemma_sum_one(block_b(pts, t, a, h), -1, 0, k);
        }
        lemma_sum_one(block_a(pts, t, k, h), -1, 0, k);
    }
}

/// Adding the counts of every label pair gives the number of ordered pairs of
/// distinct points within the threshold, whatever labels the points carry.
pub proof fn lemma_label_pairs_cover_all(pts: Seq<Point>, t: int, k: int)
    requires
        labels_below(pts, k),
    ensures
        label_pair_total(pts, t, k) == total_pairs(pts, t),
{
    let n = pts.len() as int;
    lemma_block_labels(pts, t, k, n);
    let f = |a: int| label_sum(|b: int| pair_count(pts, t, a, b), k);
    assert forall|a: int| 0 <= a < k implies #[trigger] f(a) == block_a(pts, t, k, n)(a) by {
        lemma_sum_eq(|b: int| pair_count(pts, t, a, b), block_b(pts, t, a, n), k);
    }
    lemma_sum_eq(f, block_a(pts, t, k, n), k);
}

/// In a count table, the cells of one radius added over every label pair give
/// the number of ordered pairs of distinct points within that radius.
pub proof fn lemma_tensor_total(
    t: Vec<Vec<Vec<u64>>>,
    xs: Seq<i32>,
    ys: Seq<i32>,
    radii: Seq<i64>,
    labels: Seq<i32>,
    r: int,
)
    requires
        counts_tensor(t, xs, ys, radii, labels),
        0 <= r < radii.len(),
    ensures
        label_sum(
            |a: int| label_sum(|b: int| t@[a]@[b]@[r] as nat, label_order(labels).len() as int),
            label_order(labels).len() as int,
        ) == total_pairs(table_of(xs, ys, labels), sorted_squares(radii)[r] as int),
{
    let k = label_order(labels).len() as int;
    let pts = table_of(xs, ys, labels);
    let u = label_order(labels);
    let th = sorted_squares(radii)[r] as int;
    assert forall|i: int| 0 <= i < pts.len() implies pts[i].label < k by {
        assert(labels.contains(labels[i]));
        assert(u.contains(labels[i]));
    }
    lemma_label_pairs_cover_all(pts, th, k);
    let f = |a: int| label_sum(|b: int| t@[a]@[b]@[r] as nat, k);
    let g = |a: int| label_sum(|b: int| pair_count(pts, th, a, b), k);
    assert forall|a: int| 0 <= a < k implies #[trigger] f(a) == g(a) by {
        lemma_sum_eq(|b: int| t@[a]@[b]@[r] as nat, |b: int| pair_count(pts, th, a, b), k);
    }
    lemma_sum_eq(f, g, k);
}

} // verus!
