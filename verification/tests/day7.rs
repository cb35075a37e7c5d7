use aoc25::day7::{read_input, solve, split_beams, timeline_count, Manifold};
use aoc25::text::Malformed;
use std::collections::HashSet;

const SAMPLE: &str = "\
.......S.......
...............
.......^.......
...............
......^.^......
...............
.....^.^.^.....
...............
....^.^...^....
...............
...^.^...^.^...
...............
..^...^.....^..
...............
.^.^.^.^.^...^.
...............
";

fn set(items: &[i32]) -> HashSet<i32> {
    items.iter().copied().collect()
}

fn manifold(start: i32, levels: &[&[i32]]) -> Manifold {
    Manifold::new(start, levels.iter().map(|l| set(l)).collect()).unwrap()
}

#[test]
fn manifold_sample_splits_and_timelines() {
    let m = read_input(SAMPLE).unwrap();
    let mut beams = set(&[7]);
    let mut splits = 0;
    split_beams(&mut beams, &m, 0, &mut splits);
    assert_eq!(splits, 21);
    assert_eq!(beams, set(&[0, 2, 4, 6, 8, 10, 11, 12, 14]));
    assert_eq!(timeline_count(&m), Some(40));
    assert_eq!(solve(&m), Some((21, 40)));
}

#[test]
fn manifold_split_beams_starts_at_the_given_level() {
    let m = manifold(5, &[&[5], &[4, 6], &[3]]);
    let mut beams = set(&[4]);
    let mut splits = 10;
    split_beams(&mut beams, &m, 1, &mut splits);
    // Level 1 splits 4 into 3 and 5; level 2 splits 3 into 2 and 4.
    assert_eq!(splits, 12);
    assert_eq!(beams, set(&[2, 4, 5]));

    let mut beams = set(&[1, 2]);
    let mut splits = 3;
    split_beams(&mut beams, &m, 3, &mut splits);
    assert_eq!((splits, beams), (3, set(&[1, 2])));
    let mut beams = set(&[1, 2]);
    split_beams(&mut beams, &m, 7, &mut splits);
    assert_eq!((splits, beams), (3, set(&[1, 2])));
}

#[test]
fn manifold_beams_merge_but_timelines_do_not() {
    // Two splitters send a beam each to column 5.
    let m = manifold(5, &[&[5], &[4, 6]]);
    let mut beams = set(&[5]);
    let mut splits = 0;
    split_beams(&mut beams, &m, 0, &mut splits);
    assert_eq!(splits, 3);
    assert_eq!(beams, set(&[3, 5, 7]));
    assert_eq!(timeline_count(&m), Some(4));
}

#[test]
fn manifold_without_splitters() {
    let m = manifold(3, &[]);
    assert_eq!(solve(&m), Some((0, 1)));
    let m = manifold(3, &[&[1, 2, 4]]);
    assert_eq!(solve(&m), Some((0, 1)));
}

#[test]
fn manifold_timelines_double_on_every_hit() {
    // A full triangle of splitters under the start: every particle hits one on each level.
    let levels: Vec<Vec<i32>> = (0..10).map(|l| (-l..=l).map(|c| 100 + c).collect()).collect();
    let refs: Vec<&[i32]> = levels.iter().map(|l| l.as_slice()).collect();
    assert_eq!(timeline_count(&manifold(100, &refs)), Some(1 << 10));
}

#[test]
fn manifold_timelines_that_do_not_fit() {
    let levels: Vec<Vec<i32>> = (0..64).map(|l| (-l..=l).map(|c| 100 + c).collect()).collect();
    let refs: Vec<&[i32]> = levels.iter().map(|l| l.as_slice()).collect();
    let m = manifold(100, &refs);
    assert_eq!(timeline_count(&m), None);
    assert_eq!(solve(&m), None);
    let m = manifold(100, &refs[..63]);
    assert_eq!(timeline_count(&m), Some(1 << 63));
}

#[test]
fn manifold_needs_room_beside_every_splitter() {
    assert!(Manifold::new(0, vec![set(&[1]), set(&[i32::MAX])]).is_none());
    assert!(Manifold::new(0, vec![set(&[i32::MIN, 4])]).is_none());
    assert!(Manifold::new(0, vec![set(&[i32::MIN + 1, i32::MAX - 1])]).is_some());
}

#[test]
fn manifold_is_read_from_its_drawing() {
    // Lines without a splitter are no level; the last start mark counts.
    let m = read_input("S..\n...\n.^.\r\n\n^.^\n..S").unwrap();
    let mut beams = set(&[1]);
    let mut splits = 0;
    split_beams(&mut beams, &m, 0, &mut splits);
    assert_eq!((splits, beams), (3, set(&[-1, 1, 3])));
    // The beam enters at column 2: it meets the splitter of the second level only.
    assert_eq!(solve(&m), Some((1, 2)));
    assert_eq!(solve(&read_input("").unwrap()), Some((0, 1)));
    assert_eq!(solve(&read_input("^").unwrap()), Some((1, 2)));
}

#[test]
fn manifold_read_input_names_the_first_bad_line() {
    assert_eq!(read_input("S..\n.x.\n.y.").err(), Some(Malformed { at: 1 }));
    assert_eq!(read_input("S..\n.^.\n. .").err(), Some(Malformed { at: 2 }));
    assert_eq!(read_input("s").err(), Some(Malformed { at: 0 }));
}
