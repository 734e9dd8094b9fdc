use vstd::prelude::*;
use crate::model::{cell, lemma_cell};

verus! {

/// The nested buffer holds, at `[a][b][r]`, the flat buffer's cell `(a, b, r)`.
pub open spec fn nested_from_flat(t: Vec<Vec<Vec<u64>>>, flat: Seq<u64>, k: int, l: int) -> bool {
    &&& t@.len() == k
    &&& forall|a: int|
        0 <= a < k ==> {
            &&& (#[trigger] t@[a])@.len() == k
            &&& forall|b: int|
                0 <= b < k ==> {
                    &&& (#[trigger] t@[a]@[b])@.len() == l
                    &&& forall|r: int| 0 <= r < l ==> #[trigger] t@[a]@[b]@[r] == flat[cell(k, l, a, b, r)]
                }
        }
}

/// Reshapes a flat buffer of `k * k * l` counts into the `[source][target][radius]`
/// layout.
pub fn reshape(flat: &Vec<u64>, k: usize, l: usize) -> (t: Vec<Vec<Vec<u64>>>)
    requires
        flat@.len() == k * k * l,
        k * k * l <= usize::MAX,
    ensures
        nested_from_flat(t, flat@, k as int, l as int),
{
    let mut t: Vec<Vec<Vec<u64>>> = Vec::new();
    let mut a: usize = 0;
    while a < k
        invariant
            a <= k,
            flat@.len() == k * k * l,
            k * k * l <= usize::MAX,
            t@.len() == a,
            forall|a2: int|
                0 <= a2 < a ==> {
                    &&& (#[trigger] t@[a2])@.len() == k
                    &&& forall|b: int|
                        0 <= b < k ==> {
                            &&& (#[trigger] t@[a2]@[b])@.len() == l
                            &&& forall|r: int|
                                0 <= r < l ==> #[trigger] t@[a2]@[b]@[r] == flat@[cell(
                                    k as int,
                                    l as int,
                                    a2,
                                    b,
                                    r,
                                )]
                        }
                },
        decreases k - a,
    {
        let mut plane: Vec<Vec<u64>> = Vec::new();
        let mut b: usize = 0;
        while b < k
            invariant
                a < k,
                b <= k,
                flat@.len() == k * k * l,
                k * k * l <= usize::MAX,
                plane@.len() == b,
                forall|b2: int|
                    0 <= b2 < b ==> {
                        &&& (#[trigger] plane@[b2])@.len() == l
                        &&& forall|r: int|
                            0 <= r < l ==> #[trigger] plane@[b2]@[r] == flat@[cell(
                                k as int,
                                l as int,
                                a as int,
                                b2,
                                r,
                            )]
                    },
            decreases k - b,
        {
            let mut row: Vec<u64> = Vec::new();
            let mut r: usize = 0;
            while r < l
                invariant
                    a < k,
                    b < k,
                    r <= l,
                    flat@.len() == k * k * l,
                    k * k * l <= usize::MAX,
                    row@.len() == r,
                    forall|r2: int|
                        0 <= r2 < r ==> #[trigger] row@[r2] == flat@[cell(
                            k as int,
                            l as int,
                            a as int,
                            b as int,
                            r2,
                        )],
                decreases l - r,
            {
                proof {
                    lemma_cell(
                        k as int,
                        l as int,
                        a as int,
                        b as int,
                        r as int,
                        a as int,
                        b as int,
                        r as int,
                    );
                }
                let idx = crate::accumulate::cell_index(k, l, a, b, r);
                row.push(flat[idx]);
                r += 1;
            }
            plane.push(row);
            b += 1;
        }
        t.push(plane);
        a += 1;
    }
    t
}

} // verus!
