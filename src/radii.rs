use vstd::prelude::*;
use vstd::relations::{sorted_by, total_ordering};
use crate::error::CoOccurError;
use crate::model::non_increasing;

verus! {

/// The order in which thresholds are walked: largest first.
pub open spec fn desc(x: u128, y: u128) -> bool {
    x >= y
}

/// The squares of the radii, in input order.
pub open spec fn squares(radii: Seq<i64>) -> Seq<u128> {
    radii.map_values(|r: i64| (r * r) as u128)
}

/// The squares of the radii, largest first: the order of the radius axis.
pub open spec fn sorted_squares(radii: Seq<i64>) -> Seq<u128> {
    squares(radii).sort_by(|x: u128, y: u128| desc(x, y))
}

/// Some radius is zero or negative.
pub open spec fn has_non_positive(radii: Seq<i64>) -> bool {
    exists|r: int| 0 <= r < radii.len() && radii[r] <= 0
}

pub proof fn lemma_desc_total()
    ensures
        total_ordering(|x: u128, y: u128| desc(x, y)),
{
}

/// Position of the first threshold of `sq` (largest first) that is below `v`.
fn first_below(sq: &Vec<u128>, v: u128) -> (p: usize)
    requires
        non_increasing(sq@),
    ensures
        p <= sq@.len(),
        forall|q: int| 0 <= q < p ==> v <= #[trigger] sq@[q],
        forall|q: int| p <= q < sq@.len() ==> #[trigger] sq@[q] < v,
{
    let mut lo: usize = 0;
    let mut hi: usize = sq.len();
    while lo < hi
        invariant
            lo <= hi <= sq@.len(),
            non_increasing(sq@),
            forall|q: int| 0 <= q < lo ==> v <= #[trigger] sq@[q],
            forall|q: int| hi <= q < sq@.len() ==> #[trigger] sq@[q] < v,
        decreases hi - lo,
    {
        let mid = lo + (hi - lo) / 2;
        if sq[mid] >= v {
            proof {
                assert forall|q: int| 0 <= q < mid + 1 implies v <= #[trigger] sq@[q] by {
                    if q < mid {
                        assert(sq@[mid as int] <= sq@[q]);
                    }
                }
            }
            lo = mid + 1;
        } else {
            proof {
                assert forall|q: int| mid <= q < sq@.len() implies #[trigger] sq@[q] < v by {
                    if q > mid {
                        assert(sq@[q] <= sq@[mid as int]);
                    }
                }
            }
            hi = mid;
        }
    }
    lo
}

/// Checks the radii and squares them, largest first: the order in which the
/// counting walks the thresholds, and the order of the radius axis.
pub fn prepare_radii(radii: &Vec<i64>) -> (res: Result<Vec<u128>, CoOccurError>)
    ensures
        res is Err <==> has_non_positive(radii@),
        res matches Err(e) ==> e == CoOccurError::NonPositiveRadius,
        res matches Ok(sq) ==> sq@ == sorted_squares(radii@) && non_increasing(sq@) && sq@.len()
            == radii@.len(),
{
    let n = radii.len();
    let mut i: usize = 0;
    while i < n
        invariant
            i <= n == radii@.len(),
            forall|q: int| 0 <= q < i ==> #[trigger] radii@[q] > 0,
        decreases n - i,
    {
        if radii[i] <= 0 {
            return Err(CoOccurError::NonPositiveRadius);
        }
        i += 1;
    }
    let mut sq: Vec<u128> = Vec::new();
    assert(squares(radii@.subrange(0, 0)) =~= sq@);
    let mut i: usize = 0;
    while i < n
        invariant
            i <= n == radii@.len(),
            forall|q: int| 0 <= q < n ==> #[trigger] radii@[q] > 0,
            non_increasing(sq@),
            sq@.len() == i,
            sq@.to_multiset() == squares(radii@.subrange(0, i as int)).to_multiset(),
        decreases n - i,
    {
        let r = radii[i];
        assert((r as int) * (r as int) <= 0x7fff_ffff_ffff_ffff * 0x7fff_ffff_ffff_ffff)
            by (nonlinear_arith)
            requires
                0 < r <= 0x7fff_ffff_ffff_ffff,
        ;
        let v: u128 = (r as u128) * (r as u128);
        let p = first_below(&sq, v);
        let ghost old_sq = sq@;
        sq.insert(p, v);
        proof {
            vstd::seq_lib::to_multiset_insert(old_sq, p as int, v);
            let pre = radii@.subrange(0, i as int);
            let next = radii@.subrange(0, i + 1);
            assert(squares(next) =~= squares(pre).push(v));
            vstd::seq_lib::to_multiset_build(squares(pre), v);
            assert forall|x: int, y: int| 0 <= x <= y < sq@.len() implies sq@[y] <= sq@[x] by {
                if y < p {
                    assert(old_sq[y] <= old_sq[x]);
                } else if y == p {
                } else if x < p {
                    assert(old_sq[y - 1] <= old_sq[x]);
                } else if x == p {
                } else {
                    assert(old_sq[y - 1] <= old_sq[x - 1]);
                }
            }
        }
        i += 1;
    }
    proof {
        assert(radii@.subrange(0, n as int) =~= radii@);
        lemma_desc_total();
        let leq = |x: u128, y: u128| desc(x, y);
        assert forall|x: int, y: int| 0 <= x < y < sq@.len() implies #[trigger] leq(
            sq@[x],
            sq@[y],
        ) by {
            assert(sq@[y] <= sq@[x]);
        }
        assert(sorted_by(sq@, leq));
        squares(radii@).lemma_sort_by_ensures(leq);
        vstd::seq_lib::lemma_sorted_unique(sq@, sorted_squares(radii@), leq);
    }
    Ok(sq)
}

} // verus!
