use vstd::prelude::*;

verus! {

/// Each label value is smaller than the next.
pub open spec fn strictly_increasing(u: Seq<i32>) -> bool {
    forall|p: int, q: int| 0 <= p < q < u.len() ==> u[p] < u[q]
}

/// `u` lists the distinct values of `labels` in ascending order.
pub open spec fn is_label_order(u: Seq<i32>, labels: Seq<i32>) -> bool {
    &&& strictly_increasing(u)
    &&& forall|v: i32| u.contains(v) <==> labels.contains(v)
}

/// The distinct label values in ascending order; the position of a value here
/// is its label index.
pub open spec fn label_order(labels: Seq<i32>) -> Seq<i32> {
    choose|u: Seq<i32>| is_label_order(u, labels)
}

/// The position of `v` in `u`.
pub open spec fn rank_in(u: Seq<i32>, v: i32) -> int {
    choose|p: int| 0 <= p < u.len() && u[p] == v
}

/// Two ascending sequences without repeats that hold the same values are equal.
pub proof fn lemma_increasing_unique(u1: Seq<i32>, u2: Seq<i32>)
    requires
        strictly_increasing(u1),
        strictly_increasing(u2),
        forall|v: i32| u1.contains(v) <==> u2.contains(v),
    ensures
        u1 == u2,
    decreases u1.len(),
{
    if u1.len() == 0 {
        if u2.len() > 0 {
            assert(u2.contains(u2[0]));
        }
        assert(u1 =~= u2);
    } else {
        if u2.len() == 0 {
            assert(u1.contains(u1[0]));
        }
        let n1 = u1.len() - 1;
        let n2 = u2.len() - 1;
        let m1 = u1[n1];
        let m2 = u2[n2];
        assert(u1.contains(m1));
        assert(u2.contains(m2));
        let w2 = choose|p: int| 0 <= p < u2.len() && u2[p] == m1;
        if w2 < n2 {
            assert(u2[w2] < u2[n2]);
        }
        let w1 = choose|p: int| 0 <= p < u1.len() && u1[p] == m2;
        if w1 < n1 {
            assert(u1[w1] < u1[n1]);
        }
        assert(m1 == m2);
        let d1 = u1.drop_last();
        let d2 = u2.drop_last();
        assert forall|v: i32| d1.contains(v) <==> d2.contains(v) by {
            if d1.contains(v) {
                let p = choose|p: int| 0 <= p < d1.len() && d1[p] == v;
                assert(u1[p] == v && u1[p] < u1[n1]);
                assert(u1.contains(v));
                let q = choose|q: int| 0 <= q < u2.len() && u2[q] == v;
                assert(q != n2);
                assert(d2[q] == v);
            }
            if d2.contains(v) {
                let p = choose|p: int| 0 <= p < d2.len() && d2[p] == v;
                assert(u2[p] == v && u2[p] < u2[n2]);
                assert(u2.contains(v));
                let q = choose|q: int| 0 <= q < u1.len() && u1[q] == v;
                assert(q != n1);
                assert(d1[q] == v);
            }
        }
        lemma_increasing_unique(d1, d2);
        assert(u1 =~= d1.push(m1));
        assert(u2 =~= d2.push(m2));
    }
}

/// Any ascending list of the distinct labels is the label order.
pub proof fn lemma_label_order(u: Seq<i32>, labels: Seq<i32>)
    requires
        is_label_order(u, labels),
    ensures
        label_order(labels) == u,
        is_label_order(label_order(labels), labels),
{
    lemma_increasing_unique(u, label_order(labels));
}

/// Position of the first value of `u` that is at least `v`.
fn first_at_least(u: &Vec<i32>, v: i32) -> (p: usize)
    requires
        strictly_increasing(u@),
    ensures
        p <= u@.len(),
        forall|q: int| 0 <= q < p ==> #[trigger] u@[q] < v,
        forall|q: int| p <= q < u@.len() ==> v <= #[trigger] u@[q],
{
    let mut lo: usize = 0;
    let mut hi: usize = u.len();
    while lo < hi
        invariant
            lo <= hi <= u@.len(),
            strictly_increasing(u@),
            forall|q: int| 0 <= q < lo ==> #[trigger] u@[q] < v,
            forall|q: int| hi <= q < u@.len() ==> v <= #[trigger] u@[q],
        decreases hi - lo,
    {
        let mid = lo + (hi - lo) / 2;
        if u[mid] < v {
            proof {
                assert forall|q: int| 0 <= q < mid + 1 implies #[trigger] u@[q] < v by {
                    if q < mid {
                        assert(u@[q] < u@[mid as int]);
                    }
                }
            }
            lo = mid + 1;
        } else {
            proof {
                assert forall|q: int| mid <= q < u@.len() implies v <= #[trigger] u@[q] by {
                    if q > mid {
                        assert(u@[mid as int] < u@[q]);
                    }
                }
            }
            hi = mid;
        }
    }
    lo
}

/// The distinct label values, in ascending order.
pub fn unique_sorted_labels(labels: &Vec<i32>) -> (u: Vec<i32>)
    ensures
        u@ == label_order(labels@),
        is_label_order(u@, labels@),
        u@.len() <= labels@.len(),
{
    let mut u: Vec<i32> = Vec::new();
    let n = labels.len();
    let mut i: usize = 0;
    while i < n
        invariant
            i <= n == labels@.len(),
            u@.len() <= i,
            is_label_order(u@, labels@.subrange(0, i as int)),
        decreases n - i,
    {
        let x = labels[i];
        let p = first_at_least(&u, x);
        let ghost pre = labels@.subrange(0, i as int);
        let ghost next = labels@.subrange(0, i + 1);
        proof {
            assert(next =~= pre.push(x));
            assert forall|v: i32| next.contains(v) <==> (pre.contains(v) || v == x) by {
                if next.contains(v) && v != x {
                    let q = choose|q: int| 0 <= q < next.len() && next[q] == v;
                    assert(pre[q] == v);
                }
                if pre.contains(v) {
                    let q = choose|q: int| 0 <= q < pre.len() && pre[q] == v;
                    assert(next[q] == v);
                }
                if v == x {
                    assert(next[i as int] == v);
                }
            }
        }
        if p < u.len() && u[p] == x {
            proof {
                assert(u@.contains(x));
            }
        } else {
            let ghost old_u = u@;
            u.insert(p, x);
            proof {
                assert forall|v: i32| u@.contains(v) <==> (old_u.contains(v) || v == x) by {
                    if u@.contains(v) && v != x {
                        let q = choose|q: int| 0 <= q < u@.len() && u@[q] == v;
                        if q < p {
                            assert(old_u[q] == v);
                        } else {
                            assert(old_u[q - 1] == v);
                        }
                    }
                    if old_u.contains(v) {
                        let q = choose|q: int| 0 <= q < old_u.len() && old_u[q] == v;
                        if q < p {
                            assert(u@[q] == v);
                        } else {
                            assert(u@[q + 1] == v);
                        }
                    }
                    if v == x {
                        assert(u@[p as int] == v);
                    }
                }
                assert forall|a: int, b: int| 0 <= a < b < u@.len() implies u@[a] < u@[b] by {
                    if b < p {
                    } else if b == p {
                    } else if a < p {
                        assert(old_u[a] < x);
                    } else if a == p {
                        assert(x <= old_u[b - 1]);
                    } else {
                    }
                }
            }
        }
        i += 1;
    }
    proof {
        assert(labels@.subrange(0, n as int) =~= labels@);
        lemma_label_order(u@, labels@);
    }
    u
}

/// The label index of `v`: its position in the ascending list of distinct labels.
pub fn label_index(u: &Vec<i32>, v: i32) -> (p: usize)
    requires
        strictly_increasing(u@),
        u@.contains(v),
    ensures
        p < u@.len(),
        u@[p as int] == v,
        p == rank_in(u@, v),
{
    let p = first_at_least(u, v);
    proof {
        let w = choose|q: int| 0 <= q < u@.len() && u@[q] == v;
        assert(w >= p);
        assert(w == p) by {
            if w > p {
                assert(u@[p as int] < u@[w]);
            }
        }
        let c = rank_in(u@, v);
        assert(c == p) by {
            if c < p {
                assert(u@[c] < u@[p as int]);
            }
            if c > p {
                assert(u@[p as int] < u@[c]);
            }
        }
    }
    p
}

} // verus!
