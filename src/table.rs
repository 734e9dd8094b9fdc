use vstd::prelude::*;
use crate::labels::{is_label_order, label_index, label_order, rank_in};
use crate::model::{Point, labels_below};

verus! {

/// The point table of the input: coordinates in input order, each label replaced
/// by its label index.
pub open spec fn table_of(xs: Seq<i32>, ys: Seq<i32>, labels: Seq<i32>) -> Seq<Point> {
    Seq::new(
        xs.len(),
        |i: int|
            Point { x: xs[i], y: ys[i], label: rank_in(label_order(labels), labels[i]) as usize },
    )
}

/// Zips the coordinates and the label indices into one table of points.
pub fn build_table(xs: &Vec<i32>, ys: &Vec<i32>, labels: &Vec<i32>, order: &Vec<i32>) -> (t: Vec<
    Point,
>)
    requires
        xs@.len() == ys@.len(),
        xs@.len() == labels@.len(),
        order@ == label_order(labels@),
        is_label_order(order@, labels@),
    ensures
        t@ == table_of(xs@, ys@, labels@),
        labels_below(t@, order@.len() as int),
{
    let n = xs.len();
    let mut t: Vec<Point> = Vec::new();
    let mut i: usize = 0;
    while i < n
        invariant
            i <= n == xs@.len() == ys@.len() == labels@.len(),
            order@ == label_order(labels@),
            is_label_order(order@, labels@),
            t@.len() == i,
            forall|q: int| 0 <= q < i ==> #[trigger] t@[q] == table_of(xs@, ys@, labels@)[q],
            labels_below(t@, order@.len() as int),
        decreases n - i,
    {
        assert(labels@.contains(labels@[i as int]));
        let c = label_index(order, labels[i]);
        t.push(Point { x: xs[i], y: ys[i], label: c });
        i += 1;
    }
    assert(t@ =~= table_of(xs@, ys@, labels@));
    t
}

} // verus!
