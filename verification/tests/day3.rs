use aoc25::day3::{find_first_max, read_input, solve, Bank, BankError, SolveError};
use aoc25::text::Malformed;

fn bank(line: &str) -> Bank {
    Bank::from_str(line).unwrap()
}

fn best_of(digits: &[u8], k: usize) -> u64 {
    // Every way of taking k digits from left to right.
    fn go(digits: &[u8], k: usize, acc: u64, best: &mut u64) {
        if k == 0 {
            *best = (*best).max(acc);
            return;
        }
        for i in 0..digits.len() {
            if digits.len() - i >= k {
                go(&digits[i + 1..], k - 1, acc * 10 + (digits[i] - b'0') as u64, best);
            }
        }
    }
    let mut best = 0;
    go(digits, k, 0, &mut best);
    best
}

#[test]
fn test_joltage() {
    let bank: Bank = Bank::from_str("987654321111111").unwrap();
    assert_eq!(bank.max_joltage_part1(), 98);
    let bank: Bank = Bank::from_str("811111111111119").unwrap();
    assert_eq!(bank.max_joltage_part1(), 89);
    let bank: Bank = Bank::from_str("234234234234278").unwrap();
    assert_eq!(bank.max_joltage_part1(), 78);
    let bank: Bank = Bank::from_str("111111111111111").unwrap();
    assert_eq!(bank.max_joltage_part1(), 11);
    let bank: Bank = Bank::from_str("123456789").unwrap();
    assert_eq!(bank.max_joltage_part1(), 89);
    let bank: Bank = Bank::from_str("9191").unwrap();
    assert_eq!(bank.max_joltage_part1(), 99);
    let bank: Bank = Bank::from_str("12").unwrap();
    assert_eq!(bank.max_joltage_part1(), 12);
    let bank: Bank = Bank::from_str("1").unwrap();
    assert_eq!(bank.max_joltage_part1(), 1);
    let bank: Bank = Bank::from_str("").unwrap();
    assert_eq!(bank.max_joltage_part1(), 0);
}

#[test]
fn test_joltage_p2() {
    let bank: Bank = Bank::from_str("987654321111111").unwrap();
    assert_eq!(bank.max_joltage_part2(), 987654321111);

    let bank: Bank = Bank::from_str("811111111111119").unwrap();
    assert_eq!(bank.max_joltage_part2(), 811111111119);

    let bank: Bank = Bank::from_str("234234234234278").unwrap();
    assert_eq!(bank.max_joltage_part2(), 434234234278);

    let bank: Bank = Bank::from_str("818181911112111").unwrap();
    assert_eq!(bank.max_joltage_part2(), 888911112111);
}

#[test]
fn first_max_is_the_leftmost_largest() {
    assert_eq!(find_first_max(&[]), None);
    assert_eq!(find_first_max(&[4]), Some((0, &4)));
    assert_eq!(find_first_max(&[1, 9, 3, 9, 2]), Some((1, &9)));
    assert_eq!(find_first_max(&[5, 5, 5]), Some((0, &5)));
    assert_eq!(find_first_max(&[1, 2, 3]), Some((2, &3)));
}

#[test]
fn bank_rejects_other_bytes() {
    assert_eq!(Bank::from_str("12a4").err(), Some(BankError::InvalidDigit(b'a')));
    assert_eq!(Bank::from_str("1204").err(), Some(BankError::InvalidDigit(b'0')));
    assert_eq!(Bank::from_str("x0").err(), Some(BankError::InvalidDigit(b'x')));
    assert_eq!(Bank::from_str("12 ").err(), Some(BankError::InvalidDigit(b' ')));
    assert_eq!(Bank::from_str("123456789").unwrap().len(), 9);
}

#[test]
fn ratings_are_the_best_of_all_choices() {
    let mut seed = 5u64;
    for _ in 0..60 {
        let mut line = String::new();
        seed = seed.wrapping_mul(6364136223846793005).wrapping_add(1442695040888963407);
        let len = 13 + (seed >> 33) % 4;
        for _ in 0..len {
            seed = seed.wrapping_mul(6364136223846793005).wrapping_add(1442695040888963407);
            line.push((b'1' + ((seed >> 33) % 9) as u8) as char);
        }
        let b = bank(&line);
        assert_eq!(b.max_joltage_part1() as u64, best_of(line.as_bytes(), 2), "{}", line);
        assert_eq!(b.max_joltage_part2(), best_of(line.as_bytes(), 12), "{}", line);
    }
}

#[test]
fn banks_are_read_line_by_line() {
    let banks = read_input("987654321111111\r\n811111111111119\n").unwrap();
    assert_eq!(banks.len(), 2);
    assert_eq!(banks[1].max_joltage_part1(), 89);
    assert_eq!(read_input("").unwrap().len(), 0);
    assert_eq!(read_input("12\n\n34").unwrap().len(), 3);
    assert_eq!(read_input("12\n1x\n3y").err(), Some(Malformed { at: 1 }));
    assert_eq!(read_input("12\n34\n30").err(), Some(Malformed { at: 2 }));
}

#[test]
fn banks_solve_adds_up_both_ratings() {
    let banks = read_input(
        "987654321111111\n811111111111119\n234234234234278\n818181911112111\n",
    )
    .unwrap();
    assert_eq!(solve(&banks), Ok((357, 3121910778619)));
    assert_eq!(solve(&vec![]), Ok((0, 0)));
}

#[test]
fn banks_solve_names_the_first_short_bank() {
    let banks = read_input("987654321111111\n123456789123\n12\n").unwrap();
    assert_eq!(solve(&banks), Err(SolveError::ShortBank(1)));
}
