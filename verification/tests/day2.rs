use aoc25::day2::{parse_ranges, read_input, solve, sum_invalid, Id, IdRange, Rule};
use aoc25::text::Malformed;

fn collect(mut range: IdRange) -> Vec<u64> {
    let mut out = Vec::new();
    while let Some(id) = range.next() {
        out.push(id.0);
    }
    out
}

fn written_twice(n: u64) -> bool {
    let s = n.to_string();
    n == 0 || (s.len() % 2 == 0 && s[..s.len() / 2] == s[s.len() / 2..])
}

fn written_over_and_over(n: u64) -> bool {
    let s = n.to_string();
    (1..s.len()).any(|w| s.len() % w == 0 && s.as_bytes().chunks(w).all(|c| c == &s.as_bytes()[..w]))
}

#[test]
fn test_id_validity() {
    let ids = [11, 22, 1010, 123123, 1188511885, 38593859, 446446, 222222];
    for id in ids {
        let x = Id(id);
        assert!(!x.is_valid(), "id: {} is not valid but got valid=true", id);
    }
    let ids = [111, 222, 1231234, 43, 101, 23523];
    for id in ids {
        let x = Id(id);
        assert!(x.is_valid(), "id: {} is valid but got valid=false", id);
    }
}

#[test]
fn test_id_validity_p2() {
    // all invalid
    let ids = [1188511885, 999, 11, 22, 565656, 2121212121, 446446, 222222];
    for id in ids {
        let x = Id(id);
        assert!(!x.is_valid_p2(), "id: {} is not valid for part 2 but got valid=true", id);
    }

    let ids = [1231234, 1, 101, 10001001, 90990999];
    for id in ids {
        let x = Id(id);
        assert!(x.is_valid_p2(), "id: {} is valid for part 2 but got valid=false", id);
    }
}

#[test]
fn validity_agrees_with_the_written_form() {
    for n in 0..20000u64 {
        assert_eq!(Id(n).is_valid(), !written_twice(n), "first rule, {}", n);
        assert_eq!(Id(n).is_valid_p2(), !written_over_and_over(n), "second rule, {}", n);
    }
    for n in [u64::MAX, 1844674418446744, 9999999999, 99999999999, 10000000001000000000] {
        assert_eq!(Id(n).is_valid(), !written_twice(n), "first rule, {}", n);
        assert_eq!(Id(n).is_valid_p2(), !written_over_and_over(n), "second rule, {}", n);
    }
}

#[test]
fn zero_breaks_the_first_rule_only() {
    assert!(!Id(0).is_valid());
    assert!(Id(0).is_valid_p2());
}

#[test]
fn range_hands_out_its_ids_in_order() {
    assert_eq!(collect(IdRange::new(Id(11), Id(14))), vec![11, 12, 13, 14]);
    assert_eq!(collect(IdRange::new(Id(7), Id(7))), vec![7]);
    assert_eq!(
        collect(IdRange::new(Id(u64::MAX - 1), Id(u64::MAX))),
        vec![u64::MAX - 1, u64::MAX]
    );
    let mut range = IdRange::new(Id(1), Id(1));
    assert_eq!(range.next(), Some(Id(1)));
    assert_eq!(range.next(), None);
    assert_eq!(range.next(), None);
}

#[test]
fn ranges_are_read_between_commas() {
    let ranges = parse_ranges("11-22,95-115,7-7").unwrap();
    assert_eq!(ranges.len(), 3);
    assert_eq!(collect(ranges[0]), (11..=22).collect::<Vec<_>>());
    assert_eq!(collect(ranges[1]), (95..=115).collect::<Vec<_>>());
    assert_eq!(collect(ranges[2]), vec![7]);
    let ranges = parse_ranges("1-3-x").unwrap();
    assert_eq!(collect(ranges[0]), vec![1, 2, 3]);
}

#[test]
fn ranges_name_the_first_bad_entry() {
    assert_eq!(parse_ranges("").err(), Some(Malformed { at: 0 }));
    assert_eq!(parse_ranges("1-2,").err(), Some(Malformed { at: 1 }));
    assert_eq!(parse_ranges("1-2,5,7-8").err(), Some(Malformed { at: 1 }));
    assert_eq!(parse_ranges("1-2,3-4,9-8").err(), Some(Malformed { at: 2 }));
    assert_eq!(parse_ranges("a-2").err(), Some(Malformed { at: 0 }));
    assert_eq!(parse_ranges("1-2 ,3-4").err(), Some(Malformed { at: 0 }));
    assert_eq!(parse_ranges("1-18446744073709551616").err(), Some(Malformed { at: 0 }));
}

#[test]
fn ranges_input_is_trimmed_first() {
    // Would fail if the text were handed on untrimmed.
    let ranges = read_input("  \n11-22,95-115\r\n\t ").unwrap();
    assert_eq!(ranges.len(), 2);
    assert_eq!(collect(ranges[1]), (95..=115).collect::<Vec<_>>());
    assert_eq!(read_input("\u{a0}1-2\u{2003}").unwrap().len(), 1);
    assert_eq!(read_input("1-2, 3-4").err(), Some(Malformed { at: 1 }));
}

#[test]
fn ranges_solve_adds_up_invalid_ids() {
    let ranges = read_input(
        "11-22,95-115,998-1012,1188511880-1188511890,222220-222224,\
         1698522-1698528,446443-446449,38593856-38593862,565653-565659,\
         824824821-824824827,2121212118-2121212124\n",
    )
    .unwrap();
    assert_eq!(sum_invalid(&ranges, Rule::First), Some(1227775554));
    assert_eq!(sum_invalid(&ranges, Rule::Second), Some(4174379265));
    assert_eq!(solve(&ranges), Some((1227775554, 4174379265)));
    assert_eq!(solve(&vec![]), Some((0, 0)));
}

#[test]
fn ranges_solve_gives_up_on_overflow() {
    // 1212121 is written over and over with no digit string written twice.
    let ranges = vec![
        IdRange::new(Id(9999999999999999), Id(9999999999999999)),
        IdRange::new(Id(121212), Id(121212)),
    ];
    assert_eq!(solve(&ranges), Some((9999999999999999, 10000000000121211)));
    // Nineteen digits: never written twice, but written over and over.
    let over = 1111111111111111111u64;
    let ranges = vec![IdRange::new(Id(over), Id(over)); 17];
    assert_eq!(sum_invalid(&ranges, Rule::First), Some(0));
    assert_eq!(sum_invalid(&ranges, Rule::Second), None);
    assert_eq!(solve(&ranges), None);
    let ranges = vec![IdRange::new(Id(over), Id(over)); 16];
    assert_eq!(sum_invalid(&ranges, Rule::Second), Some(16 * over));
}
