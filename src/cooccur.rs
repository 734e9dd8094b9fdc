use vstd::prelude::*;
use crate::assemble::reshape;
use crate::error::CoOccurError;
use crate::labels::{is_label_order, label_order, unique_sorted_labels};
use crate::model::pair_count;
use crate::radii::{has_non_positive, prepare_radii, sorted_squares};
use crate::reduce::count_pairs;
use crate::table::{build_table, table_of};

verus! {

/// Number of sources that one unit of parallel work takes.
pub const CHUNK_SIZE: usize = 1000;

/// The coordinate and label sequences have one entry per point.
pub open spec fn same_lengths(xs: Seq<i32>, ys: Seq<i32>, labels: Seq<i32>) -> bool {
    xs.len() == ys.len() && xs.len() == labels.len()
}

/// `t[a][b][r]` is the number of ordered pairs of distinct points, the source
/// with the `a`-th smallest label and the target with the `b`-th smallest, whose
/// distance is at most the `r`-th largest radius.
pub open spec fn counts_tensor(
    t: Vec<Vec<Vec<u64>>>,
    xs: Seq<i32>,
    ys: Seq<i32>,
    radii: Seq<i64>,
    labels: Seq<i32>,
) -> bool {
    let pts = table_of(xs, ys, labels);
    let sq = sorted_squares(radii);
    let k = label_order(labels).len() as int;
    &&& same_lengths(xs, ys, labels)
    &&& is_label_order(label_order(labels), labels)
    &&& t@.len() == k
    &&& forall|a: int|
        0 <= a < k ==> {
            &&& (#[trigger] t@[a])@.len() == k
            &&& forall|b: int|
                0 <= b < k ==> {
                    &&& (#[trigger] t@[a]@[b])@.len() == radii.len()
                    &&& forall|r: int|
                        0 <= r < radii.len() ==> #[trigger] t@[a]@[b]@[r] == pair_count(
                            pts,
                            sq[r] as int,
                            a,
                            b,
                        )
                }
        }
}

/// Counts, for every ordered pair of labels and every radius, the ordered pairs
/// of distinct points with those labels that lie within that radius, cutting the
/// work into chunks of `chunk_size` sources.
pub fn co_occur_count_chunked(
    v_x: &Vec<i32>,
    v_y: &Vec<i32>,
    v_radius: &Vec<i64>,
    v_label: &Vec<i32>,
    chunk_size: usize,
) -> (res: Result<Vec<Vec<Vec<u64>>>, CoOccurError>)
    requires
        chunk_size > 0,
        v_x@.len() <= 0xffff_ffff,
        v_x@.len() * v_x@.len() * v_radius@.len() <= usize::MAX,
    ensures
        res is Err <==> !same_lengths(v_x@, v_y@, v_label@) || has_non_positive(v_radius@),
        res matches Err(e) ==> (e == CoOccurError::DimensionMismatch <==> !same_lengths(
            v_x@,
            v_y@,
            v_label@,
        )),
        res matches Ok(t) ==> counts_tensor(t, v_x@, v_y@, v_radius@, v_label@),
{
    if v_x.len() != v_y.len() || v_x.len() != v_label.len() {
        return Err(CoOccurError::DimensionMismatch);
    }
    let sq = match prepare_radii(v_radius) {
        Ok(sq) => sq,
        Err(e) => {
            return Err(e);
        },
    };
    let order = unique_sorted_labels(v_label);
    let k = order.len();
    let l = sq.len();
    let points = build_table(v_x, v_y, v_label, &order);
    proof {
        let n = v_x@.len();
        assert(k * k * l <= n * n * l) by (nonlinear_arith)
            requires
                0 <= k <= n,
                0 <= l,
        ;
    }
    let flat = count_pairs(&points, k, &sq, chunk_size);
    let t = reshape(&flat, k, l);
    proof {
        let kk = k as int;
        let ll = l as int;
        assert forall|a: int|
            0 <= a < kk implies (#[trigger] t@[a])@.len() == kk && forall|b: int|
                0 <= b < kk ==> {
                    &&& (#[trigger] t@[a]@[b])@.len() == ll
                    &&& forall|r: int|
                        0 <= r < ll ==> #[trigger] t@[a]@[b]@[r] == pair_count(
                            points@,
                            sq@[r] as int,
                            a,
                            b,
                        )
                } by {
            assert forall|b: int| 0 <= b < kk implies {
                &&& (#[trigger] t@[a]@[b])@.len() == ll
                &&& forall|r: int|
                    0 <= r < ll ==> #[trigger] t@[a]@[b]@[r] == pair_count(
                        points@,
                        sq@[r] as int,
                        a,
                        b,
                    )
            } by {
                assert forall|r: int| 0 <= r < ll implies #[trigger] t@[a]@[b]@[r] == pair_count(
                    points@,
                    sq@[r] as int,
                    a,
                    b,
                ) by {
                    assert(t@[a]@[b]@[r] == flat@[crate::model::cell(kk, ll, a, b, r)]);
                }
            }
        }
    }
    Ok(t)
}

/// Counts, for every ordered pair of labels and every radius, the ordered pairs
/// of distinct points with those labels that lie within that radius.
pub fn co_occur_count(
    v_x: &Vec<i32>,
    v_y: &Vec<i32>,
    v_radius: &Vec<i64>,
    v_label: &Vec<i32>,
) -> (res: Result<Vec<Vec<Vec<u64>>>, CoOccurError>)
    requires
        v_x@.len() <= 0xffff_ffff,
        v_x@.len() * v_x@.len() * v_radius@.len() <= usize::MAX,
    ensures
        res is Err <==> !same_lengths(v_x@, v_y@, v_label@) || has_non_positive(v_radius@),
        res matches Err(e) ==> (e == CoOccurError::DimensionMismatch <==> !same_lengths(
            v_x@,
            v_y@,
            v_label@,
        )),
        res matches Ok(t) ==> counts_tensor(t, v_x@, v_y@, v_radius@, v_label@),
{
    co_occur_count_chunked(v_x, v_y, v_radius, v_label, CHUNK_SIZE)
}

} // verus!
