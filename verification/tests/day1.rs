use aoc25::day1::{read_input, solve, Dial, DialRotation};
use aoc25::text::Malformed;

fn dial_at(position: u32) -> Dial {
    Dial::with_position(position).unwrap()
}

#[test]
fn test_basic_right_rotation() {
    let mut dial = Dial::new(); // Starts at 50

    // 50 -> 60 (No zero crossing)
    let count = dial.rotate_and_count(DialRotation::Right(10));
    assert_eq!(dial.at(), 60);
    assert_eq!(count, 0, "Right 10 from 50 should not hit zero");
}

#[test]
fn test_right_crossing_zero() {
    let mut dial = dial_at(90);

    // 90 -> 10 (Crosses 0)
    let count = dial.rotate_and_count(DialRotation::Right(20));
    assert_eq!(dial.at(), 10);
    assert_eq!(count, 1, "Right 20 from 90 should hit zero once");
}

#[test]
fn test_right_landing_on_zero() {
    let mut dial = dial_at(90);

    // 90 -> 0 (Lands on 0)
    let count = dial.rotate_and_count(DialRotation::Right(10));
    assert_eq!(dial.at(), 0);
    assert_eq!(count, 1, "Landing on zero from right should count");
}

#[test]
fn test_basic_left_rotation() {
    let mut dial = dial_at(20);

    // 20 -> 10 (No zero crossing)
    let count = dial.rotate_and_count(DialRotation::Left(10));
    assert_eq!(dial.at(), 10);
    assert_eq!(count, 0);
}

#[test]
fn test_left_crossing_zero() {
    let mut dial = dial_at(10);

    // 10 -> 90 (Crosses 0 going backwards)
    let count = dial.rotate_and_count(DialRotation::Left(20));
    assert_eq!(dial.at(), 90);
    assert_eq!(count, 1, "Left 20 from 10 should hit zero once");
}

#[test]
fn test_left_landing_on_zero() {
    let mut dial = dial_at(10);

    // 10 -> 0
    let count = dial.rotate_and_count(DialRotation::Left(10));
    assert_eq!(dial.at(), 0);
    assert_eq!(count, 1, "Landing on zero from left should count");
}

#[test]
fn test_left_from_zero_boundary() {
    let mut dial = dial_at(0);

    // 0 -> 90 (Moves AWAY from zero)
    let count = dial.rotate_and_count(DialRotation::Left(10));
    assert_eq!(dial.at(), 90);
    assert_eq!(count, 0, "Moving Left FROM zero should NOT count as hitting it");
}

#[test]
fn test_right_from_zero_boundary() {
    let mut dial = dial_at(0);

    // 0 -> 10 (Moves AWAY from zero)
    let count = dial.rotate_and_count(DialRotation::Right(10));
    assert_eq!(dial.at(), 10);
    assert_eq!(count, 0, "Moving Right FROM zero should NOT count");
}

#[test]
fn test_full_tours() {
    let mut dial = dial_at(50);

    // Right 250 (2 full circles + 50) -> Lands on 0 (50 + 50 = 100%100 = 0)
    // 2 full tours = 2 counts.
    // Landing on zero = 1 count.
    // Total = 3.
    let count = dial.rotate_and_count(DialRotation::Right(250));
    assert_eq!(dial.at(), 0);
    assert_eq!(count, 3);
}

#[test]
fn test_full_tours_left() {
    let mut dial = dial_at(10);

    // Left 110 (1 full circle + 10) -> Lands on 0
    // 1 full tour = 1 count.
    // Landing on zero = 1 count.
    // Total = 2.
    let count = dial.rotate_and_count(DialRotation::Left(110));
    assert_eq!(dial.at(), 0);
    assert_eq!(count, 2);
}

#[test]
fn dial_starts_at_fifty_and_has_a_hundred_positions() {
    assert_eq!(Dial::new().at(), 50);
    assert!(Dial::with_position(99).is_some());
    assert!(Dial::with_position(100).is_none());
}

#[test]
fn rotation_count_is_its_clicks() {
    assert_eq!(DialRotation::Left(7).count(), 7);
    assert_eq!(DialRotation::Right(250).count(), 250);
}

#[test]
fn rotate_wraps_both_ways() {
    let mut dial = dial_at(5);
    dial.rotate(DialRotation::Left(10));
    assert_eq!(dial.at(), 95);
    dial.rotate(DialRotation::Right(305));
    assert_eq!(dial.at(), 0);
    dial.rotate(DialRotation::Left(u32::MAX));
    assert_eq!(dial.at(), 5);
}

#[test]
fn rotate_and_count_agrees_with_click_by_click() {
    for start in [0u32, 1, 37, 50, 99] {
        for n in [0u32, 1, 49, 50, 99, 100, 101, 250, 1000] {
            for left in [false, true] {
                let mut hits = 0;
                let mut pos = start;
                for _ in 0..n {
                    pos = if left { (pos + 99) % 100 } else { (pos + 1) % 100 };
                    if pos == 0 {
                        hits += 1;
                    }
                }
                let rotation = if left { DialRotation::Left(n) } else { DialRotation::Right(n) };
                let mut dial = dial_at(start);
                assert_eq!(dial.rotate_and_count(rotation), hits);
                assert_eq!(dial.at(), pos);
            }
        }
    }
}

#[test]
fn rotations_read_input_reads_one_rotation_per_line() {
    let rotations = read_input("L68\nL30\r\nR48\nX+5").unwrap();
    assert_eq!(
        rotations,
        vec![
            DialRotation::Left(68),
            DialRotation::Left(30),
            DialRotation::Right(48),
            DialRotation::Left(5)
        ]
    );
    assert_eq!(read_input("").unwrap(), vec![]);
}

#[test]
fn rotations_read_input_names_the_first_bad_line() {
    assert_eq!(read_input("L1\n\nR2"), Err(Malformed { at: 1 }));
    assert_eq!(read_input("L1\nR\nR2"), Err(Malformed { at: 1 }));
    assert_eq!(read_input("Rx"), Err(Malformed { at: 0 }));
    assert_eq!(read_input("L1\nR2\nR4294967296"), Err(Malformed { at: 2 }));
    assert_eq!(read_input("R4294967295").unwrap(), vec![DialRotation::Right(4294967295)]);
}

#[test]
fn rotations_solve_counts_stops_and_passes() {
    let rotations = read_input("L68\nL30\nR48\nL5\nR60\nL55\nL1\nL99\nR14\nL82\n").unwrap();
    assert_eq!(solve(&rotations), Some((3, 6)));
    assert_eq!(solve(&vec![]), Some((0, 0)));
}
