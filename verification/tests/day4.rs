use aoc25::day4::{read_input, solve, Roll};
use aoc25::text::Malformed;

const FLOOR: &str = "\
..@@.@@@@.
@@@.@.@.@@
@@@@@.@.@@
@.@@@@..@.
@@.@@@@.@@
.@@@@@@@.@
.@.@.@.@@@
@.@@@.@@@@
.@@@@@@@@.
@.@.@@@.@.
";

/// Takes away every roll with fewer than four neighbours, over and over; slow but plain.
fn peel(drawing: &str) -> (usize, usize) {
    let mut rolls: Vec<(i32, i32)> = Vec::new();
    for (y, line) in drawing.lines().enumerate() {
        for (x, c) in line.chars().enumerate() {
            if c == '@' {
                rolls.push((x as i32, y as i32));
            }
        }
    }
    let crowd = |rolls: &Vec<(i32, i32)>, p: (i32, i32)| {
        rolls
            .iter()
            .filter(|q| **q != p && (q.0 - p.0).abs() <= 1 && (q.1 - p.1).abs() <= 1)
            .count()
    };
    let first = rolls.iter().filter(|p| crowd(&rolls, **p) < 4).count();
    let before = rolls.len();
    loop {
        let keep: Vec<(i32, i32)> =
            rolls.iter().copied().filter(|p| crowd(&rolls, *p) >= 4).collect();
        if keep.len() == rolls.len() {
            break;
        }
        rolls = keep;
    }
    (first, before - rolls.len())
}

#[test]
fn rolls_neighbors_come_row_by_row() {
    let around = Roll { pos: (5, 7) }.neighbors();
    let places: Vec<(i32, i32)> = around.iter().map(|r| r.pos).collect();
    assert_eq!(
        places,
        vec![(4, 6), (5, 6), (6, 6), (4, 7), (6, 7), (4, 8), (5, 8), (6, 8)]
    );
    let around = Roll { pos: (0, 0) }.neighbors();
    assert_eq!(around[0], Roll { pos: (-1, -1) });
    assert_eq!(around.len(), 8);
}

#[test]
fn rolls_count_neighbors_counts_all_eight_sides() {
    let grid = read_input("@@@\n@.@\n@@@\n").unwrap();
    assert_eq!(grid.count_neighbors(&Roll { pos: (1, 1) }), 8);
    assert_eq!(grid.count_neighbors(&Roll { pos: (0, 0) }), 2);
    assert_eq!(grid.count_neighbors(&Roll { pos: (1, 0) }), 4);
    assert_eq!(grid.count_neighbors(&Roll { pos: (3, 1) }), 3);
    assert_eq!(grid.count_neighbors(&Roll { pos: (9, 9) }), 0);
}

#[test]
fn rolls_sample_floor() {
    let grid = read_input(FLOOR).unwrap();
    assert_eq!(grid.accessible_rolls(), 13);
    assert_eq!(solve(grid), (13, 43));
}

#[test]
fn rolls_removal_cascades_in_one_call() {
    let mut grid = read_input(FLOOR).unwrap();
    assert_eq!(grid.remove_accesibles(), 43);
    assert_eq!(grid.accessible_rolls(), 0);
    assert_eq!(grid.remove_accesibles(), 0);
    // The rolls that are gone no longer count as neighbours.
    assert_eq!(grid.count_neighbors(&Roll { pos: (0, 0) }), 0);
}

#[test]
fn rolls_block_loses_its_corners_only() {
    // In a 4 by 4 block only the corners have fewer than four neighbours, and without them
    // every roll of the rim still has four.
    let mut grid = read_input("@@@@\n@@@@\n@@@@\n@@@@\n").unwrap();
    assert_eq!(grid.accessible_rolls(), 4);
    assert_eq!(grid.remove_accesibles(), 4);
    assert_eq!(grid.accessible_rolls(), 0);
    assert_eq!(grid.count_neighbors(&Roll { pos: (1, 0) }), 4);
    // A row of rolls unravels from both ends.
    assert_eq!(solve(read_input("@@@@@@@@@").unwrap()), (9, 9));
    // A 3 by 3 block goes whole: once the corners are gone the rest has too few neighbours.
    assert_eq!(solve(read_input("@@@\n@@@\n@@@").unwrap()), (4, 9));
}

#[test]
fn rolls_agree_with_plain_peeling() {
    let mut seed = 3u64;
    for _ in 0..60 {
        let mut drawing = String::new();
        for _ in 0..9 {
            for _ in 0..9 {
                seed = seed.wrapping_mul(6364136223846793005).wrapping_add(1442695040888963407);
                drawing.push(if (seed >> 33) % 10 < 7 { '@' } else { '.' });
            }
            drawing.push('\n');
        }
        assert_eq!(solve(read_input(&drawing).unwrap()), peel(&drawing), "{}", drawing);
    }
}

#[test]
fn rolls_empty_floor() {
    assert_eq!(solve(read_input("").unwrap()), (0, 0));
    assert_eq!(solve(read_input("...\n...\n").unwrap()), (0, 0));
    assert_eq!(solve(read_input("@").unwrap()), (1, 1));
}

#[test]
fn rolls_read_input_names_the_first_bad_line() {
    assert_eq!(read_input("@.@\n.x.\n.y.").err(), Some(Malformed { at: 1 }));
    assert_eq!(read_input("@ ").err(), Some(Malformed { at: 0 }));
    assert_eq!(read_input("@.\r\n.@\n\n#").err(), Some(Malformed { at: 3 }));
    assert!(read_input("@.\r\n.@\n\n").is_ok());
}
