use chain_demo::inter::{build_inter_index, predict_range, variant_binary_search};

#[test]
fn five_blocks_one_segment() {
    let points: Vec<(u64, u64)> = vec![(10, 0), (20, 1), (30, 2), (40, 3), (50, 4)];
    let segs = build_inter_index(&points, 0, 1).unwrap();
    assert_eq!(segs.len(), 1);
    let s = segs[0];
    assert_eq!(s.start_timestamp, 10);
    // The fitted line is a = 1/10, b = -1 as an exact rational.
    assert_eq!(s.a_num * 10, s.den);
    assert_eq!(s.b_num, -s.den);
    // At timestamp 35 the line predicts exactly 2.5, so the floored
    // and ceiled window under zero error spans the two candidates.
    let (lo, hi) = predict_range(&s, 35, 0, 1, 0, 4);
    assert_eq!((lo, hi), (2, 3));
    // At timestamp 30 the prediction is exact and the window is tight.
    let (lo2, hi2) = predict_range(&s, 30, 0, 1, 0, 4);
    assert_eq!((lo2, hi2), (2, 2));
}

#[test]
fn eleven_blocks_two_segments() {
    let points: Vec<(u64, u64)> = vec![
        (10, 0), (20, 1), (30, 2), (40, 3), (50, 4), (60, 5), (70, 6), (80, 7),
        (1000, 8), (1010, 9), (1020, 10),
    ];
    let segs = build_inter_index(&points, 1, 2).unwrap();
    assert_eq!(segs.len(), 2);
    assert_eq!(segs[0].start_timestamp, 10);
    assert_eq!(segs[1].start_timestamp, 1000);
}

#[test]
fn out_of_order_points_are_refused() {
    let points: Vec<(u64, u64)> = vec![(10, 0), (10, 1)];
    assert_eq!(
        build_inter_index(&points, 0, 1).unwrap_err(),
        chain_demo::errors::ChainError::OutOfOrder
    );
}

#[test]
fn zero_denominator_is_refused() {
    let points: Vec<(u64, u64)> = vec![(10, 0)];
    assert_eq!(
        build_inter_index(&points, 0, 0).unwrap_err(),
        chain_demo::errors::ChainError::InvalidParameter
    );
}

#[test]
fn binary_search_picks_covering_start() {
    let starts: Vec<u64> = vec![10, 100, 1000];
    assert_eq!(variant_binary_search(&starts, 5), 10);
    assert_eq!(variant_binary_search(&starts, 10), 10);
    assert_eq!(variant_binary_search(&starts, 99), 10);
    assert_eq!(variant_binary_search(&starts, 100), 100);
    assert_eq!(variant_binary_search(&starts, 5000), 1000);
}

#[test]
fn every_training_point_is_within_bound() {
    let points: Vec<(u64, u64)> = vec![(10, 0), (25, 1), (34, 2), (47, 3), (90, 4), (95, 9)];
    let segs = build_inter_index(&points, 1, 2).unwrap();
    for &(t, y) in points.iter() {
        let mut covering = segs[0];
        for s in segs.iter() {
            if s.start_timestamp <= t {
                covering = *s;
            }
        }
        // |a t + b - y| <= eps, scaled by the common denominator.
        let err = covering.a_num * t as i128 + covering.b_num - y as i128 * covering.den;
        assert!(err.abs() * 2 <= covering.den);
    }
}
