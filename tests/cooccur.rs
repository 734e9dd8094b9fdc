use scstat_rs::accumulate::{count_rows, squared_distance};
use scstat_rs::assemble::reshape;
use scstat_rs::labels::{label_index, unique_sorted_labels};
use scstat_rs::model::Point;
use scstat_rs::radii::prepare_radii;
use scstat_rs::reduce::{count_pairs, merge_into};
use scstat_rs::table::build_table;
use scstat_rs::{co_occur_count, co_occur_count_chunked, CoOccurError};

fn brute_total(xs: &[i32], ys: &[i32], radius: i64) -> u64 {
    let mut n = 0u64;
    for i in 0..xs.len() {
        for j in 0..xs.len() {
            if i != j {
                let dx = xs[i] as i128 - xs[j] as i128;
                let dy = ys[i] as i128 - ys[j] as i128;
                if dx * dx + dy * dy <= (radius as i128) * (radius as i128) {
                    n += 1;
                }
            }
        }
    }
    n
}

fn sample_cloud(n: usize) -> (Vec<i32>, Vec<i32>, Vec<i32>) {
    let mut xs = Vec::new();
    let mut ys = Vec::new();
    let mut labels = Vec::new();
    let mut s: u64 = 12345;
    for _ in 0..n {
        s = s.wrapping_mul(6364136223846793005).wrapping_add(1442695040888963407);
        xs.push(((s >> 33) % 200) as i32 - 100);
        s = s.wrapping_mul(6364136223846793005).wrapping_add(1442695040888963407);
        ys.push(((s >> 33) % 200) as i32 - 100);
        s = s.wrapping_mul(6364136223846793005).wrapping_add(1442695040888963407);
        labels.push(((s >> 33) % 4) as i32 * 7 - 5);
    }
    (xs, ys, labels)
}

#[test]
fn three_points_two_labels() {
    // One grid unit is a tenth: points (0,0), (1,0), (10,10); radii 1.5 and 20.
    let xs = vec![0, 10, 100];
    let ys = vec![0, 0, 100];
    let labels = vec![1, 1, 2];
    let radii = vec![15, 200];
    let t = co_occur_count(&xs, &ys, &radii, &labels).unwrap();
    // Radius axis: largest radius first.
    assert_eq!(t, vec![vec![vec![2, 2], vec![2, 0]], vec![vec![2, 0], vec![0, 0]]]);
    let total: u64 = t.iter().flat_map(|p| p.iter().map(|row| row[0])).sum();
    assert_eq!(total, 6);
}

#[test]
fn radius_order_of_input_does_not_matter() {
    let xs = vec![0, 10, 100];
    let ys = vec![0, 0, 100];
    let labels = vec![1, 1, 2];
    let a = co_occur_count(&xs, &ys, &vec![15, 200], &labels).unwrap();
    let b = co_occur_count(&xs, &ys, &vec![200, 15], &labels).unwrap();
    assert_eq!(a, b);
}

#[test]
fn cumulative_thresholds() {
    // distance 2 with radii 1, 3, 5: counted at 5 and 3, not at 1.
    let t = co_occur_count(&vec![0, 2], &vec![0, 0], &vec![1, 3, 5], &vec![0, 0]).unwrap();
    assert_eq!(t, vec![vec![vec![2, 2, 0]]]);
}

#[test]
fn boundary_distance_counts() {
    // a 3-4-5 triangle: distance exactly 5 is within radius 5.
    let t = co_occur_count(&vec![0, 3], &vec![0, 4], &vec![5, 4], &vec![1, 2]).unwrap();
    assert_eq!(t, vec![vec![vec![0, 0], vec![1, 0]], vec![vec![1, 0], vec![0, 0]]]);
}

#[test]
fn dimension_mismatch_is_refused() {
    let r = co_occur_count(&vec![0, 1], &vec![0], &vec![3], &vec![1, 1]);
    assert_eq!(r, Err(CoOccurError::DimensionMismatch));
    let r = co_occur_count(&vec![0, 1], &vec![0, 1], &vec![3], &vec![1]);
    assert_eq!(r, Err(CoOccurError::DimensionMismatch));
    // a length mismatch is reported before a bad radius
    let r = co_occur_count(&vec![0, 1], &vec![0], &vec![-3], &vec![1, 1]);
    assert_eq!(r, Err(CoOccurError::DimensionMismatch));
}

#[test]
fn non_positive_radius_is_refused() {
    let r = co_occur_count(&vec![0, 1], &vec![0, 1], &vec![3, 0], &vec![1, 1]);
    assert_eq!(r, Err(CoOccurError::NonPositiveRadius));
    let r = co_occur_count(&vec![0, 1], &vec![0, 1], &vec![-2], &vec![1, 1]);
    assert_eq!(r, Err(CoOccurError::NonPositiveRadius));
}

#[test]
fn empty_input_gives_empty_tensor() {
    let t = co_occur_count(&vec![], &vec![], &vec![5, 1], &vec![]).unwrap();
    assert!(t.is_empty());
}

#[test]
fn no_radii_gives_zero_width_axis() {
    let t = co_occur_count(&vec![0, 1, 2], &vec![0, 0, 0], &vec![], &vec![4, 9, 4]).unwrap();
    assert_eq!(t, vec![vec![vec![], vec![]], vec![vec![], vec![]]]);
}

#[test]
fn single_point_gives_zeros() {
    let t = co_occur_count(&vec![7], &vec![-3], &vec![1, 100, 1000], &vec![42]).unwrap();
    assert_eq!(t, vec![vec![vec![0, 0, 0]]]);
}

#[test]
fn self_label_counts_are_even() {
    let (xs, ys, labels) = sample_cloud(120);
    let t = co_occur_count(&xs, &ys, &vec![10, 40, 90], &labels).unwrap();
    for a in 0..t.len() {
        for r in 0..3 {
            assert_eq!(t[a][a][r] % 2, 0);
        }
    }
}

#[test]
fn counts_shrink_along_radius_axis() {
    let (xs, ys, labels) = sample_cloud(120);
    let t = co_occur_count(&xs, &ys, &vec![5, 60, 25, 120], &labels).unwrap();
    for plane in &t {
        for row in plane {
            for r in 1..row.len() {
                assert!(row[r] <= row[r - 1]);
            }
        }
    }
}

#[test]
fn total_matches_brute_force() {
    let (xs, ys, labels) = sample_cloud(150);
    let radii = vec![30, 8, 75];
    let t = co_occur_count(&xs, &ys, &radii, &labels).unwrap();
    for (r, radius) in [75i64, 30, 8].iter().enumerate() {
        let total: u64 = t.iter().flat_map(|p| p.iter().map(|row| row[r])).sum();
        assert_eq!(total, brute_total(&xs, &ys, *radius));
    }
}

#[test]
fn chunk_size_does_not_change_result() {
    let (xs, ys, labels) = sample_cloud(90);
    let radii = vec![20, 50];
    let base = co_occur_count(&xs, &ys, &radii, &labels).unwrap();
    for cs in [1usize, 2, 7, 89, 90, 91, 5000] {
        let t = co_occur_count_chunked(&xs, &ys, &radii, &labels, cs).unwrap();
        assert_eq!(t, base);
    }
    let again = co_occur_count(&xs, &ys, &radii, &labels).unwrap();
    assert_eq!(again, base);
}

#[test]
fn more_points_than_one_chunk() {
    let (xs, ys, labels) = sample_cloud(1300);
    let radii = vec![6];
    let t = co_occur_count(&xs, &ys, &radii, &labels).unwrap();
    let total: u64 = t.iter().flat_map(|p| p.iter().map(|row| row[0])).sum();
    assert_eq!(total, brute_total(&xs, &ys, 6));
}

#[test]
fn extreme_coordinates_do_not_overflow() {
    let xs = vec![i32::MIN, i32::MAX];
    let ys = vec![i32::MIN, i32::MAX];
    // squared distance 2 * (2^32 - 1)^2 lies strictly between 6074000998^2 and 6074000999^2
    let t = co_occur_count(&xs, &ys, &vec![6_074_000_999, 6_074_000_998], &vec![0, 1]).unwrap();
    assert_eq!(t[0][1][0], 1);
    assert_eq!(t[1][0][0], 1);
    assert_eq!(t[0][1][1], 0);
    assert_eq!(
        squared_distance(Point { x: i32::MIN, y: 0, label: 0 }, Point { x: i32::MAX, y: 0, label: 0 }),
        (u32::MAX as u128) * (u32::MAX as u128)
    );
}

#[test]
fn labels_sorted_and_deduplicated() {
    let u = unique_sorted_labels(&vec![5, -3, 5, 12, -3, 0]);
    assert_eq!(u, vec![-3, 0, 5, 12]);
    assert_eq!(label_index(&u, 5), 2);
    assert_eq!(label_index(&u, -3), 0);
    assert_eq!(label_index(&u, 12), 3);
}

#[test]
fn label_axis_follows_ascending_label_value() {
    // label 9 is listed first but has the larger value, so it takes index 1.
    let t = co_occur_count(&vec![0, 1], &vec![0, 0], &vec![2], &vec![9, -1]).unwrap();
    assert_eq!(t, vec![vec![vec![0], vec![1]], vec![vec![1], vec![0]]]);
    let t = co_occur_count(&vec![0, 1, 50], &vec![0, 0, 0], &vec![2], &vec![9, 9, -1]).unwrap();
    assert_eq!(t, vec![vec![vec![0], vec![0]], vec![vec![0], vec![2]]]);
}

#[test]
fn radii_squared_largest_first() {
    assert_eq!(prepare_radii(&vec![3, 10, 1, 3]), Ok(vec![100u128, 9, 9, 1]));
    assert_eq!(prepare_radii(&vec![]), Ok(vec![]));
    assert_eq!(prepare_radii(&vec![4, -1]), Err(CoOccurError::NonPositiveRadius));
}

#[test]
fn table_holds_label_indices() {
    let u = unique_sorted_labels(&vec![7, 3, 7]);
    let t = build_table(&vec![1, 2, 3], &vec![4, 5, 6], &vec![7, 3, 7], &u);
    assert_eq!(
        t,
        vec![
            Point { x: 1, y: 4, label: 1 },
            Point { x: 2, y: 5, label: 0 },
            Point { x: 3, y: 6, label: 1 },
        ]
    );
}

#[test]
fn partial_rows_and_merge() {
    let pts = vec![
        Point { x: 0, y: 0, label: 0 },
        Point { x: 1, y: 0, label: 1 },
        Point { x: 0, y: 3, label: 0 },
    ];
    let sq = vec![9u128, 1];
    // sources 0..1 only: (0,1) at d2=1, (0,2) at d2=9
    let first = count_rows(&pts, 2, &sq, 0, 1);
    // layout (a * k + b) * l + r
    assert_eq!(first, vec![1, 0, 1, 1, 0, 0, 0, 0]);
    let rest = count_rows(&pts, 2, &sq, 1, 3);
    let mut total = first.clone();
    merge_into(&mut total, &rest);
    assert_eq!(total, count_rows(&pts, 2, &sq, 0, 3));
    assert_eq!(total, count_pairs(&pts, 2, &sq, 2));
    let t = reshape(&total, 2, 2);
    assert_eq!(t[0][1], vec![total[2], total[3]]);
    assert_eq!(t[1][0], vec![total[4], total[5]]);
}
