use aoc25::day6::{
    calculate, execute_as_columns, execute_as_rows, read_input_as_columns, read_input_as_rows,
    solve, Op, SheetError, Unreadable,
};
use aoc25::text::Malformed;

const SHEET: &str = "123 328  51 64 \n 45 64  387 23 \n  6 98  215 314\n*   +   *   +  \n";

#[test]
fn calculate_adds_or_multiplies() {
    assert_eq!(calculate(vec![123, 45, 6], Op::Multiply), Some(33210));
    assert_eq!(calculate(vec![328, 64, 98], Op::Add), Some(490));
    assert_eq!(calculate(vec![], Op::Add), Some(0));
    assert_eq!(calculate(vec![], Op::Multiply), Some(1));
    assert_eq!(calculate(vec![7], Op::Multiply), Some(7));
}

#[test]
fn calculate_knows_what_fits() {
    assert_eq!(calculate(vec![u64::MAX, 1], Op::Add), None);
    assert_eq!(calculate(vec![u64::MAX - 1, 1], Op::Add), Some(u64::MAX));
    assert_eq!(calculate(vec![1 << 32, 1 << 32], Op::Multiply), None);
    assert_eq!(calculate(vec![1 << 32, (1 << 32) - 1], Op::Multiply), Some(u64::MAX - (1 << 32) + 1));
    assert_eq!(calculate(vec![1 << 63, 4, 0, 9], Op::Multiply), Some(0));
    assert_eq!(calculate(vec![1 << 63, 4, 1, 9], Op::Multiply), None);
}

#[test]
fn rows_are_read_up_to_the_operators() {
    let (rows, ops) = read_input_as_rows(SHEET).unwrap();
    assert_eq!(
        rows,
        vec![vec![123, 328, 51, 64], vec![45, 64, 387, 23], vec![6, 98, 215, 314]]
    );
    assert_eq!(ops, vec![Op::Multiply, Op::Add, Op::Multiply, Op::Add]);
    let (rows, ops) = read_input_as_rows("1 2\n\n+ *\nignored ~").unwrap();
    assert_eq!(rows, vec![vec![1, 2], vec![]]);
    assert_eq!(ops, vec![Op::Add, Op::Multiply]);
}

#[test]
fn rows_name_the_first_bad_line() {
    assert_eq!(read_input_as_rows("1 2\n3 x\n+ *").err(), Some(Malformed { at: 1 }));
    assert_eq!(read_input_as_rows("1 2\n+ * -").err(), Some(Malformed { at: 1 }));
    assert_eq!(read_input_as_rows("1 2\n+5 3\n+ *").err(), Some(Malformed { at: 1 }));
    assert_eq!(read_input_as_rows("1 2\n3 4\n").err(), Some(Malformed { at: 2 }));
    assert_eq!(read_input_as_rows("").err(), Some(Malformed { at: 0 }));
    assert_eq!(
        read_input_as_rows("1 18446744073709551616\n+ *").err(),
        Some(Malformed { at: 0 })
    );
}

#[test]
fn columns_are_read_top_down() {
    let (problems, ops) = read_input_as_columns(SHEET).unwrap();
    assert_eq!(
        problems,
        vec![vec![1, 24, 356], vec![369, 248, 8], vec![32, 581, 175], vec![623, 431, 4]]
    );
    assert_eq!(ops, vec![Op::Multiply, Op::Add, Op::Multiply, Op::Add]);
}

#[test]
fn columns_follow_the_blanks_of_the_operator_line() {
    // Fewer than two blanks close no problem; the last problem is one wider than its blanks.
    let (problems, ops) = read_input_as_columns("12\n34\n+ ").unwrap();
    assert_eq!(problems, vec![vec![13, 24]]);
    assert_eq!(ops, vec![Op::Add]);
    let (problems, ops) = read_input_as_columns("1 9\n* +").unwrap();
    assert_eq!(problems, vec![vec![1, 0]]);
    assert_eq!(ops, vec![Op::Multiply, Op::Add]);
    let (problems, ops) = read_input_as_columns("+").unwrap();
    assert_eq!(problems, vec![vec![0]]);
    assert_eq!(ops, vec![Op::Add]);
}

#[test]
fn columns_reject_what_is_no_worksheet() {
    assert_eq!(read_input_as_columns("").err(), Some(Unreadable));
    assert_eq!(read_input_as_columns("12\n  ").err(), Some(Unreadable));
    assert_eq!(read_input_as_columns("12\n+-").err(), Some(Unreadable));
    assert_eq!(read_input_as_columns("1\n+ ").err(), Some(Unreadable));
    assert_eq!(read_input_as_columns("1a\n+ ").err(), Some(Unreadable));
    let tall = "9\n".repeat(20) + "+";
    assert_eq!(read_input_as_columns(&tall).err(), Some(Unreadable));
    let tall = "9\n".repeat(19) + "+";
    assert_eq!(read_input_as_columns(&tall).unwrap().0, vec![vec![9999999999999999999]]);
}

#[test]
fn grand_totals_of_the_sample() {
    let (rows, ops) = read_input_as_rows(SHEET).unwrap();
    assert_eq!(execute_as_rows(rows, ops), Ok(4277556));
    let (problems, ops) = read_input_as_columns(SHEET).unwrap();
    assert_eq!(execute_as_columns(problems, ops), Ok(3263827));
    assert_eq!(
        solve(read_input_as_rows(SHEET).unwrap(), read_input_as_columns(SHEET).unwrap()),
        Ok((4277556, 3263827))
    );
}

#[test]
fn grand_totals_fail_on_gaps_and_overflow() {
    assert_eq!(
        execute_as_rows(vec![vec![1, 2], vec![3]], vec![Op::Add, Op::Add]),
        Err(SheetError::Incomplete)
    );
    assert_eq!(execute_as_rows(vec![vec![1, 2], vec![3]], vec![Op::Add]), Ok(4));
    assert_eq!(execute_as_rows(vec![], vec![Op::Add, Op::Multiply]), Ok(1));
    assert_eq!(
        execute_as_rows(vec![vec![u64::MAX, 1]], vec![Op::Add, Op::Multiply]),
        Err(SheetError::TooLarge)
    );
    assert_eq!(
        execute_as_columns(vec![vec![1], vec![2]], vec![Op::Add]),
        Err(SheetError::Incomplete)
    );
    assert_eq!(execute_as_columns(vec![vec![2, 3]], vec![Op::Multiply, Op::Add]), Ok(6));
    assert_eq!(
        execute_as_columns(vec![vec![u64::MAX], vec![1]], vec![Op::Add, Op::Add]),
        Err(SheetError::TooLarge)
    );
    assert_eq!(
        solve((vec![vec![1]], vec![Op::Add]), (vec![vec![1]], vec![])),
        Err(SheetError::Incomplete)
    );
}
