use aoc25::day5::{
    construct_interval_node, find_pivot, overlap_any_point, read_input, solve, union, Bound,
    Interval, IntervalError, SolveError,
};
use aoc25::text::Malformed;

fn iv(start: u64, end: u64) -> Interval {
    Interval::new(start, end).unwrap()
}

fn ivs(bounds: &[(u64, u64)]) -> Vec<Interval> {
    bounds.iter().map(|&(a, b)| iv(a, b)).collect()
}

fn bounds(intervals: &[Interval]) -> Vec<(u64, u64)> {
    intervals.iter().map(|i| (i.start(), i.end())).collect()
}

fn coverage(intervals: &[Interval]) -> u64 {
    intervals.iter().map(|i| i.size()).sum()
}

fn brute(intervals: &[Interval], p: u64) -> bool {
    intervals.iter().any(|i| i.intersects(p))
}

/// A small deterministic generator for the exhaustive comparisons below.
fn next(seed: &mut u64) -> u64 {
    *seed = seed.wrapping_mul(6364136223846793005).wrapping_add(1442695040888963407);
    *seed >> 33
}

fn random_intervals(seed: &mut u64, max_len: u64, span: u64) -> Vec<Interval> {
    let n = next(seed) % (max_len + 1);
    (0..n)
        .map(|_| {
            let a = next(seed) % span;
            let b = a + next(seed) % (span / 4 + 1);
            iv(a, b)
        })
        .collect()
}

#[test]
fn test_intervals() {
    let intervals: Vec<Interval> = ["0-4", "2-5", "3-6", "1-7"]
        .iter()
        .map(|s| Interval::from_str(s).unwrap())
        .collect();

    let root = construct_interval_node(intervals).unwrap();
    assert!(overlap_any_point(Some(&root), 1));
    assert!(overlap_any_point(Some(&root), 2));
    assert!(overlap_any_point(Some(&root), 4));
}

#[test]
fn interval_new_rejects_reversed_bounds() {
    assert!(Interval::new(5, 3).is_none());
    let one = Interval::new(10, 10).unwrap();
    assert_eq!((one.start(), one.end()), (10, 10));
    assert_eq!(one.size(), 1);
}

#[test]
fn size_counts_both_bounds() {
    assert_eq!(iv(3, 17).size(), 15);
    assert_eq!(iv(0, 0).size(), 1);
    assert_eq!(iv(1, u64::MAX).size(), u64::MAX);
    assert_eq!(iv(0, u64::MAX - 1).size(), u64::MAX);
}

#[test]
fn bound_picks_start_or_end() {
    assert_eq!(iv(3, 17).bound(Bound::Start), 3);
    assert_eq!(iv(3, 17).bound(Bound::End), 17);
}

#[test]
fn intersects_is_inclusive() {
    let i = iv(3, 5);
    assert!(!i.intersects(2));
    assert!(i.intersects(3));
    assert!(i.intersects(4));
    assert!(i.intersects(5));
    assert!(!i.intersects(6));
}

#[test]
fn from_str_reads_two_bounds() {
    assert_eq!(Interval::from_str("3-17"), Ok(iv(3, 17)));
    assert_eq!(Interval::from_str("+3-+17"), Ok(iv(3, 17)));
    assert_eq!(Interval::from_str("007-7"), Ok(iv(7, 7)));
    assert_eq!(Interval::from_str("1-2-garbage"), Ok(iv(1, 2)));
    assert_eq!(
        Interval::from_str("0-18446744073709551615"),
        Ok(iv(0, u64::MAX))
    );
}

#[test]
fn from_str_says_what_is_wrong() {
    assert_eq!(Interval::from_str("5"), Err(IntervalError::Format));
    assert_eq!(Interval::from_str(""), Err(IntervalError::Number));
    assert_eq!(Interval::from_str("abc"), Err(IntervalError::Number));
    assert_eq!(Interval::from_str("-5"), Err(IntervalError::Number));
    assert_eq!(Interval::from_str("5-"), Err(IntervalError::Number));
    assert_eq!(Interval::from_str("5-x"), Err(IntervalError::Number));
    assert_eq!(Interval::from_str("5 - 6"), Err(IntervalError::Number));
    assert_eq!(
        Interval::from_str("1-18446744073709551616"),
        Err(IntervalError::Number)
    );
    assert_eq!(Interval::from_str("5-3"), Err(IntervalError::Reversed));
}

#[test]
fn pivot_is_upper_median_of_all_bounds() {
    // bounds sorted: 0 1 2 3 4 5 6 7 -> index 4
    assert_eq!(find_pivot(&ivs(&[(0, 4), (2, 5), (3, 6), (1, 7)])), 4);
    // bounds sorted: 10 10 -> index 1
    assert_eq!(find_pivot(&ivs(&[(10, 10)])), 10);
    // bounds sorted: 1 2 3 4 5 8 -> index 3
    assert_eq!(find_pivot(&ivs(&[(1, 3), (5, 8), (2, 4)])), 4);
    // bounds sorted: 1 9 -> index 1
    assert_eq!(find_pivot(&ivs(&[(1, 9)])), 9);
}

#[test]
fn nested_intervals_merge_into_one() {
    let s = ivs(&[(0, 4), (2, 5), (3, 6), (1, 7)]);
    let root = construct_interval_node(s.clone());
    for p in [1, 2, 4] {
        assert!(overlap_any_point(root.as_deref(), p));
    }
    assert!(overlap_any_point(root.as_deref(), 0));
    assert!(overlap_any_point(root.as_deref(), 7));
    assert!(!overlap_any_point(root.as_deref(), 8));
    let merged = union(s);
    assert_eq!(bounds(&merged), vec![(0, 7)]);
    assert_eq!(coverage(&merged), 8);
}

#[test]
fn neighbouring_pieces_stay_apart() {
    let merged = union(ivs(&[(1, 3), (5, 8), (2, 4)]));
    assert_eq!(bounds(&merged), vec![(1, 4), (5, 8)]);
    assert_eq!(coverage(&merged), 8);
}

#[test]
fn no_intervals_cover_nothing() {
    let root = construct_interval_node(vec![]);
    assert!(root.is_none());
    for p in [0, 1, 10, u64::MAX] {
        assert!(!overlap_any_point(root.as_deref(), p));
        assert!(!overlap_any_point(None, p));
    }
    assert!(union(vec![]).is_empty());
}

#[test]
fn single_point_interval() {
    let s = ivs(&[(10, 10)]);
    let root = construct_interval_node(s.clone());
    assert!(!overlap_any_point(root.as_deref(), 9));
    assert!(overlap_any_point(root.as_deref(), 10));
    assert!(!overlap_any_point(root.as_deref(), 11));
    let merged = union(s);
    assert_eq!(bounds(&merged), vec![(10, 10)]);
    assert_eq!(coverage(&merged), 1);
}

#[test]
fn union_sorts_its_input() {
    // Would fail if the sort left the vector as it was.
    let merged = union(ivs(&[(20, 30), (1, 2), (25, 40), (0, 1)]));
    assert_eq!(bounds(&merged), vec![(0, 2), (20, 40)]);
}

#[test]
fn tree_with_equal_keys_and_both_sides() {
    // Would fail if either sort left its vector as it was: the scans stop early.
    let s = ivs(&[(9, 12), (1, 30), (5, 20), (10, 11), (0, 2), (25, 26), (10, 40), (3, 10)]);
    let root = construct_interval_node(s.clone());
    for p in 0..45 {
        assert_eq!(overlap_any_point(root.as_deref(), p), brute(&s, p), "point {}", p);
    }
}

#[test]
fn query_agrees_with_scan() {
    let mut seed = 7;
    for _ in 0..300 {
        let s = random_intervals(&mut seed, 12, 60);
        let root = construct_interval_node(s.clone());
        for p in 0..80 {
            assert_eq!(overlap_any_point(root.as_deref(), p), brute(&s, p));
        }
    }
}

#[test]
fn merge_covers_the_same_points() {
    let mut seed = 11;
    for _ in 0..300 {
        let s = random_intervals(&mut seed, 12, 60);
        let merged = union(s.clone());
        for p in 0..80 {
            assert_eq!(brute(&merged, p), brute(&s, p));
        }
    }
}

#[test]
fn merge_is_sorted_and_disjoint() {
    let mut seed = 13;
    for _ in 0..300 {
        let merged = union(random_intervals(&mut seed, 12, 60));
        for pair in merged.windows(2) {
            assert!(pair[0].end() < pair[1].start());
        }
    }
}

#[test]
fn merge_is_idempotent() {
    let mut seed = 17;
    for _ in 0..300 {
        let once = union(random_intervals(&mut seed, 12, 60));
        let twice = union(once.clone());
        assert_eq!(twice, once);
    }
}

#[test]
fn merged_sizes_count_distinct_points() {
    let mut seed = 19;
    for _ in 0..300 {
        let s = random_intervals(&mut seed, 12, 60);
        let distinct = (0..80).filter(|&p| brute(&s, p)).count() as u64;
        assert_eq!(coverage(&union(s)), distinct);
    }
}

#[test]
fn intervals_read_input_splits_at_the_blank_line() {
    let (intervals, ids) = read_input("3-5\n10-14\r\n16-20\n12-18\n\n1\n5\n\n8\n11\n").unwrap();
    assert_eq!(bounds(&intervals), vec![(3, 5), (10, 14), (16, 20), (12, 18)]);
    assert_eq!(ids, vec![1, 5, 8, 11]);

    let (intervals, ids) = read_input("1-2").unwrap();
    assert_eq!(bounds(&intervals), vec![(1, 2)]);
    assert!(ids.is_empty());

    let (intervals, ids) = read_input("\n7").unwrap();
    assert!(intervals.is_empty());
    assert_eq!(ids, vec![7]);

    let (intervals, ids) = read_input("").unwrap();
    assert!(intervals.is_empty() && ids.is_empty());
}

#[test]
fn intervals_read_input_names_the_first_bad_line() {
    assert_eq!(read_input("1-2\n3\n\n4").err(), Some(Malformed { at: 1 }));
    assert_eq!(read_input("1-2\n9-3\n\n4").err(), Some(Malformed { at: 1 }));
    assert_eq!(read_input("1-2\n\n4\n5-6\n7").err(), Some(Malformed { at: 3 }));
    assert_eq!(read_input("1-2\n\nx").err(), Some(Malformed { at: 2 }));
}

#[test]
fn intervals_solve_counts_fresh_points_and_coverage() {
    let (intervals, ids) = read_input("3-5\n10-14\n16-20\n12-18\n\n1\n5\n8\n11\n17\n32\n").unwrap();
    assert_eq!(solve(intervals, ids), Ok((3, 14)));
}

#[test]
fn intervals_solve_fails_without_intervals_or_room() {
    assert_eq!(solve(vec![], vec![1, 2]), Err(SolveError::NoIntervals));
    assert_eq!(solve(ivs(&[(0, u64::MAX)]), vec![1]), Err(SolveError::TooLarge));
    assert_eq!(
        solve(ivs(&[(6, u64::MAX), (0, 5)]), vec![1]),
        Err(SolveError::TooLarge)
    );
    assert_eq!(
        solve(ivs(&[(1, u64::MAX)]), vec![0, 1]),
        Ok((1, u64::MAX))
    );
}
