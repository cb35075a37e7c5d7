//! A worksheet of sums and products, read row by row or in columns.

use vstd::prelude::*;
use vstd::string::StringSliceAdditionalSpecFns;
use crate::decimal::number;
use crate::text::{
    contents,
    digit_values,
    is_digit,
    is_unsigned,
    lines,
    lines_of,
    parse_unsigned,
    unsigned_value,
    words,
    words_of,
    Malformed,
    SPACE,
};

verus! {

/// What a worksheet problem does with its operands.
#[derive(Debug, Clone, Copy, PartialEq, Eq, Structural)]
pub enum Op {
    Add,
    Multiply,
}

/// Why a worksheet has no grand total.
#[derive(Debug, Clone, Copy, PartialEq, Eq, Structural)]
pub enum SheetError {
    /// A problem lacks an operand or its operator.
    Incomplete,
    /// The grand total does not fit in 64 bits.
    TooLarge,
}

/// The sum of the numbers of `s`.
pub open spec fn sum_of(s: Seq<u64>) -> nat
    decreases s.len(),
{
    if s.len() == 0 {
        0
    } else {
        sum_of(s.drop_last()) + s.last() as nat
    }
}

/// The product of the numbers of `s`.
pub open spec fn product_of(s: Seq<u64>) -> nat
    decreases s.len(),
{
    if s.len() == 0 {
        1
    } else {
        product_of(s.drop_last()) * s.last() as nat
    }
}

/// What `op` makes of `operands`.
pub open spec fn result_of(operands: Seq<u64>, op: Op) -> nat {
    match op {
        Op::Add => sum_of(operands),
        Op::Multiply => product_of(operands),
    }
}

/// A product with a zero among its factors is zero.
proof fn lemma_product_with_zero(s: Seq<u64>, at: int)
    requires
        0 <= at < s.len(),
        s[at] == 0,
    ensures
        product_of(s) == 0,
    decreases s.len(),
{
    if at < s.len() - 1 {
        lemma_product_with_zero(s.drop_last(), at);
        assert(0 * s.last() as nat == 0);
    }
}

/// Without a zero from position `k` on, the whole product is no smaller than the product of
/// the first `k` factors.
proof fn lemma_product_grows(s: Seq<u64>, k: int)
    requires
        0 <= k <= s.len(),
        forall|i: int| k <= i < s.len() ==> #[trigger] s[i] != 0,
    ensures
        product_of(s.take(k)) <= product_of(s),
    decreases s.len() - k,
{
    if k < s.len() {
        lemma_product_grows(s.drop_last(), k);
        assert(s.drop_last().take(k) == s.take(k));
        assert(product_of(s.drop_last()) <= product_of(s.drop_last()) * s.last() as nat)
            by (nonlinear_arith)
            requires
                s.last() >= 1,
        ;
    } else {
        assert(s.take(k) == s);
    }
}

/// A sum is no smaller than the sum of its first terms.
proof fn lemma_sum_grows(s: Seq<u64>, k: int)
    requires
        0 <= k <= s.len(),
    ensures
        sum_of(s.take(k)) <= sum_of(s),
    decreases s.len() - k,
{
    if k < s.len() {
        lemma_sum_grows(s.drop_last(), k);
        assert(s.drop_last().take(k) == s.take(k));
    } else {
        assert(s.take(k) == s);
    }
}

/// Whether one of the numbers of `s` from position `from` on is zero.
fn has_zero_from(s: &[u64], from: usize) -> (found: bool)
    requires
        from <= s@.len(),
    ensures
        found <==> exists|i: int| from <= i < s@.len() && s@[i] == 0,
{
    let mut i = from;
    while i < s.len()
        invariant
            from <= i <= s@.len(),
            forall|j: int| from <= j < i ==> s@[j] != 0,
        decreases s@.len() - i,
    {
        if s[i] == 0 {
            return true;
        }
        i += 1;
    }
    false
}

/// What `op` makes of `operands`, or nothing when that does not fit in 64 bits.
fn evaluate(operands: &[u64], op: Op) -> (value: Option<u64>)
    ensures
        result_of(operands@, op) <= u64::MAX ==> value == Some(result_of(operands@, op) as u64),
        result_of(operands@, op) > u64::MAX ==> value.is_none(),
{
    let ghost s = operands@;
    let mut i: usize = 0;
    match op {
        Op::Add => {
            let mut acc: u64 = 0;
            while i < operands.len()
                invariant
                    i <= s.len(),
                    s == operands@,
                    acc == sum_of(s.take(i as int)),
                    op == Op::Add,
                decreases s.len() - i,
            {
                proof {
                    assert(s.take(i + 1).drop_last() == s.take(i as int));
                    lemma_sum_grows(s, i + 1);
                }
                match acc.checked_add(operands[i]) {
                    Some(next) => {
                        acc = next;
                    },
                    None => {
                        return None;
                    },
                }
                i += 1;
            }
            assert(s.take(i as int) == s);
            Some(acc)
        },
        Op::Multiply => {
            let mut acc: u64 = 1;
            while i < operands.len()
                invariant
                    i <= s.len(),
                    s == operands@,
                    acc == product_of(s.take(i as int)),
                    op == Op::Multiply,
                decreases s.len() - i,
            {
                proof {
                    assert(s.take(i + 1).drop_last() == s.take(i as int));
                }
                match acc.checked_mul(operands[i]) {
                    Some(next) => {
                        acc = next;
                    },
                    None => {
                        let zero_ahead = has_zero_from(operands, i + 1);
                        proof {
                            if zero_ahead {
                                let at = choose|at: int| i + 1 <= at < s.len() && s[at] == 0;
                                lemma_product_with_zero(s, at);
                            } else {
                                lemma_product_grows(s, i + 1);
                            }
                        }
                        return if zero_ahead {
                            Some(0)
                        } else {
                            None
                        };
                    },
                }
                i += 1;
            }
            assert(s.take(i as int) == s);
            Some(acc)
        },
    }
}

/// What `op` makes of `operands`: their sum or their product, or nothing when that does not
/// fit in 64 bits.
pub fn calculate(operands: Vec<u64>, op: Op) -> (value: Option<u64>)
    ensures
        result_of(operands@, op) <= u64::MAX ==> value == Some(result_of(operands@, op) as u64),
        result_of(operands@, op) > u64::MAX ==> value.is_none(),
{
    evaluate(operands.as_slice(), op)
}

/// The operands of problem `c` on a worksheet whose rows each hold one operand of every
/// problem.
pub open spec fn column(rows: Seq<Vec<u64>>, c: int) -> Seq<u64> {
    Seq::new(rows.len(), |r: int| rows[r]@[c])
}

/// The results of the first `n` problems added up, on a worksheet read row by row.
pub open spec fn total_by_rows(rows: Seq<Vec<u64>>, ops: Seq<Op>, n: nat) -> nat
    decreases n,
{
    if n == 0 {
        0
    } else {
        total_by_rows(rows, ops, (n - 1) as nat) + result_of(column(rows, n - 1), ops[n - 1])
    }
}

/// The results of the first `n` problems added up, on a worksheet read problem by problem.
pub open spec fn total_by_columns(problems: Seq<Vec<u64>>, ops: Seq<Op>, n: nat) -> nat
    decreases n,
{
    if n == 0 {
        0
    } else {
        total_by_columns(problems, ops, (n - 1) as nat) + result_of(problems[n - 1]@, ops[n - 1])
    }
}

/// The total of more problems is no smaller.
proof fn lemma_total_by_rows_grows(rows: Seq<Vec<u64>>, ops: Seq<Op>, k: nat, n: nat)
    requires
        k <= n,
    ensures
        total_by_rows(rows, ops, k) <= total_by_rows(rows, ops, n),
    decreases n - k,
{
    if k < n {
        lemma_total_by_rows_grows(rows, ops, k, (n - 1) as nat);
    }
}

/// The total of more problems is no smaller.
proof fn lemma_total_by_columns_grows(problems: Seq<Vec<u64>>, ops: Seq<Op>, k: nat, n: nat)
    requires
        k <= n,
    ensures
        total_by_columns(problems, ops, k) <= total_by_columns(problems, ops, n),
    decreases n - k,
{
    if k < n {
        lemma_total_by_columns_grows(problems, ops, k, (n - 1) as nat);
    }
}

/// What a worksheet read row by row comes to: its grand total, unless a row lacks an operand
/// for one of the operators or the total does not fit in 64 bits.
pub open spec fn rows_outcome(rows: Seq<Vec<u64>>, ops: Seq<Op>) -> Result<u64, SheetError> {
    if exists|r: int| 0 <= r < rows.len() && (#[trigger] rows[r])@.len() < ops.len() {
        Err(SheetError::Incomplete)
    } else if total_by_rows(rows, ops, ops.len()) > u64::MAX {
        Err(SheetError::TooLarge)
    } else {
        Ok(total_by_rows(rows, ops, ops.len()) as u64)
    }
}

/// What a worksheet read problem by problem comes to: its grand total, unless a problem lacks
/// its operator or the total does not fit in 64 bits.
pub open spec fn columns_outcome(problems: Seq<Vec<u64>>, ops: Seq<Op>) -> Result<u64, SheetError> {
    if problems.len() > ops.len() {
        Err(SheetError::Incomplete)
    } else if total_by_columns(problems, ops, problems.len()) > u64::MAX {
        Err(SheetError::TooLarge)
    } else {
        Ok(total_by_columns(problems, ops, problems.len()) as u64)
    }
}

/// The grand total of a worksheet whose rows each hold one operand of every problem: problem
/// `c` applies `ops[c]` to the `c`-th number of every row.
pub fn execute_as_rows(all_operands: Vec<Vec<u64>>, ops: Vec<Op>) -> (total: Result<
    u64,
    SheetError,
>)
    ensures
        total == rows_outcome(all_operands@, ops@),
{
    let len = ops.len();
    let mut r: usize = 0;
    while r < all_operands.len()
        invariant
            r <= all_operands@.len(),
            len == ops@.len(),
            forall|k: int| 0 <= k < r ==> (#[trigger] all_operands@[k])@.len() >= len,
        decreases all_operands@.len() - r,
    {
        if all_operands[r].len() < len {
            return Err(SheetError::Incomplete);
        }
        r += 1;
    }
    let mut curr: usize = 0;
    let mut grand_total: u64 = 0;
    while curr < len
        invariant
            curr <= len,
            len == ops@.len(),
            forall|k: int| 0 <= k < all_operands@.len() ==> (#[trigger] all_operands@[k])@.len() >= len,
            grand_total == total_by_rows(all_operands@, ops@, curr as nat),
        decreases len - curr,
    {
        let mut operands: Vec<u64> = Vec::new();
        let mut r: usize = 0;
        while r < all_operands.len()
            invariant
                r <= all_operands@.len(),
                curr < len,
                forall|k: int| 0 <= k < all_operands@.len() ==> (#[trigger] all_operands@[k])@.len() >= len,
                operands@.len() == r,
                forall|k: int| 0 <= k < r ==> operands@[k] == all_operands@[k]@[curr as int],
            decreases all_operands@.len() - r,
        {
            operands.push(all_operands[r][curr]);
            r += 1;
        }
        assert(operands@ =~= column(all_operands@, curr as int));
        let op = ops[curr];
        proof {
            lemma_total_by_rows_grows(all_operands@, ops@, (curr + 1) as nat, len as nat);
        }
        let value = match evaluate(operands.as_slice(), op) {
            Some(value) => value,
            None => {
                return Err(SheetError::TooLarge);
            },
        };
        grand_total = match grand_total.checked_add(value) {
            Some(sum) => sum,
            None => {
                return Err(SheetError::TooLarge);
            },
        };
        curr += 1;
    }
    Ok(grand_total)
}

/// The grand total of a worksheet given problem by problem: problem `i` applies `ops[i]` to
/// the numbers of `all_operands[i]`.
pub fn execute_as_columns(all_operands: Vec<Vec<u64>>, ops: Vec<Op>) -> (total: Result<
    u64,
    SheetError,
>)
    ensures
        total == columns_outcome(all_operands@, ops@),
{
    if all_operands.len() > ops.len() {
        return Err(SheetError::Incomplete);
    }
    let len = all_operands.len();
    let mut grand_total: u64 = 0;
    let mut i: usize = 0;
    while i < len
        invariant
            i <= len,
            len == all_operands@.len(),
            len <= ops@.len(),
            grand_total == total_by_columns(all_operands@, ops@, i as nat),
        decreases len - i,
    {
        proof {
            lemma_total_by_columns_grows(all_operands@, ops@, (i + 1) as nat, len as nat);
        }
        let value = match evaluate(all_operands[i].as_slice(), ops[i]) {
            Some(value) => value,
            None => {
                return Err(SheetError::TooLarge);
            },
        };
        grand_total = match grand_total.checked_add(value) {
            Some(sum) => sum,
            None => {
                return Err(SheetError::TooLarge);
            },
        };
        i += 1;
    }
    Ok(grand_total)
}

/// The byte `*`, which stands for multiplication.
pub const STAR: u8 = 0x2a;

/// The byte `+`, which stands for addition.
pub const PLUS: u8 = 0x2b;

/// Whether `line` is the line of operators: it starts with one.
pub open spec fn is_ops_line(line: Seq<u8>) -> bool {
    line.len() > 0 && (line[0] == STAR || line[0] == PLUS)
}

/// The operator that `word` names.
pub open spec fn op_of(word: Seq<u8>) -> Option<Op> {
    if word == seq![STAR] {
        Some(Op::Multiply)
    } else if word == seq![PLUS] {
        Some(Op::Add)
    } else {
        None
    }
}

/// Whether `word` is an unsigned number in base ten that fits in 64 bits.
pub open spec fn is_operand(word: Seq<u8>) -> bool {
    is_unsigned(word) && unsigned_value(word) <= u64::MAX
}

/// Whether every word of `line` is an operand.
pub open spec fn is_numbers_line(line: Seq<u8>) -> bool {
    forall|i: int| 0 <= i < words_of(line).len() ==> is_operand(#[trigger] words_of(line)[i])
}

/// The operands that the words of `line` name.
pub open spec fn numbers_of(line: Seq<u8>) -> Seq<u64> {
    Seq::new(words_of(line).len(), |i: int| unsigned_value(words_of(line)[i]) as u64)
}

/// Whether every word of `line` is an operator.
pub open spec fn is_operators_line(line: Seq<u8>) -> bool {
    forall|i: int| 0 <= i < words_of(line).len() ==> op_of(#[trigger] words_of(line)[i]).is_some()
}

/// The operators that the words of `line` name.
pub open spec fn ops_of(line: Seq<u8>) -> Seq<Op> {
    Seq::new(words_of(line).len(), |i: int| op_of(words_of(line)[i]).unwrap())
}

/// Reads the operands of a line.
fn parse_numbers(line: &[u8]) -> (parsed: Option<Vec<u64>>)
    ensures
        match parsed {
            Some(numbers) => is_numbers_line(line@) && numbers@ == numbers_of(line@),
            None => !is_numbers_line(line@),
        },
{
    let parts = words(line);
    let mut numbers: Vec<u64> = Vec::new();
    let mut i: usize = 0;
    while i < parts.len()
        invariant
            i <= parts@.len(),
            contents(parts@) == words_of(line@),
            numbers@.len() == i,
            forall|k: int|
                0 <= k < i ==> is_operand(#[trigger] words_of(line@)[k]) && numbers@[k]
                    == unsigned_value(words_of(line@)[k]) as u64,
        decreases parts@.len() - i,
    {
        assert(words_of(line@)[i as int] == parts@[i as int]@);
        match parse_unsigned(parts[i], u64::MAX) {
            Some(number) => {
                numbers.push(number);
            },
            None => {
                return None;
            },
        }
        i += 1;
    }
    Some(numbers)
}

/// Reads the operators of a line.
fn parse_ops(line: &[u8]) -> (parsed: Option<Vec<Op>>)
    ensures
        match parsed {
            Some(ops) => is_operators_line(line@) && ops@ == ops_of(line@),
            None => !is_operators_line(line@),
        },
{
    let parts = words(line);
    let mut ops: Vec<Op> = Vec::new();
    let mut i: usize = 0;
    while i < parts.len()
        invariant
            i <= parts@.len(),
            contents(parts@) == words_of(line@),
            ops@.len() == i,
            forall|k: int|
                0 <= k < i ==> op_of(#[trigger] words_of(line@)[k]) == Some(ops@[k]),
        decreases parts@.len() - i,
    {
        let word = parts[i];
        assert(words_of(line@)[i as int] == word@);
        if word.len() == 1 && word[0] == STAR {
            assert(word@ =~= seq![STAR]);
            ops.push(Op::Multiply);
        } else if word.len() == 1 && word[0] == PLUS {
            assert(word@ =~= seq![PLUS]);
            ops.push(Op::Add);
        } else {
            return None;
        }
        i += 1;
    }
    Some(ops)
}

/// Reads a worksheet whose rows each hold one operand of every problem. The lines of operands
/// come first, their words being the operands; the first line that starts with an operator ends
/// the worksheet, its words being the operators. An error names the first line that is not of
/// the form its place asks for, or the line after the last one when no line starts with an
/// operator.
pub fn read_input_as_rows(content: &str) -> (parsed: Result<(Vec<Vec<u64>>, Vec<Op>), Malformed>)
    ensures
        match parsed {
            Ok((rows, ops)) => {
                let all = lines_of(content.spec_bytes());
                let last = rows@.len() as int;
                &&& last < all.len()
                &&& forall|k: int|
                    0 <= k < last ==> !is_ops_line(#[trigger] all[k]) && is_numbers_line(all[k])
                        && rows@[k]@ == numbers_of(all[k])
                &&& is_ops_line(all[last])
                &&& is_operators_line(all[last])
                &&& ops@ == ops_of(all[last])
            },
            Err(Malformed { at }) => {
                let all = lines_of(content.spec_bytes());
                &&& at <= all.len()
                &&& forall|k: int|
                    0 <= k < at ==> !is_ops_line(#[trigger] all[k]) && is_numbers_line(all[k])
                &&& at < all.len() ==> if is_ops_line(all[at as int]) {
                    !is_operators_line(all[at as int])
                } else {
                    !is_numbers_line(all[at as int])
                }
            },
        },
{
    let found = lines(content.as_bytes());
    let ghost all = lines_of(content.spec_bytes());
    let mut numbers_v: Vec<Vec<u64>> = Vec::new();
    let mut i: usize = 0;
    while i < found.len()
        invariant
            i <= found@.len(),
            contents(found@) == all,
            all == lines_of(content.spec_bytes()),
            numbers_v@.len() == i,
            forall|k: int|
                0 <= k < i ==> !is_ops_line(#[trigger] all[k]) && is_numbers_line(all[k])
                    && numbers_v@[k]@ == numbers_of(all[k]),
        decreases found@.len() - i,
    {
        let line = found[i];
        if line.len() > 0 && (line[0] == STAR || line[0] == PLUS) {
            return match parse_ops(line) {
                Some(ops) => Ok((numbers_v, ops)),
                None => Err(Malformed { at: i }),
            };
        }
        match parse_numbers(line) {
            Some(numbers) => {
                numbers_v.push(numbers);
            },
            None => {
                return Err(Malformed { at: i });
            },
        }
        i += 1;
    }
    Err(Malformed { at: i })
}

/// Why a text is not a worksheet written in columns.
#[derive(Debug, Clone, Copy, PartialEq, Eq, Structural)]
pub struct Unreadable;

/// What the line of operators says after its bytes have been read one by one: the operators
/// met, the widths of the problems closed so far, and the blanks counted since. A blank is
/// counted; an operator is noted, and closes a problem as wide as the blanks counted when these
/// are more than one; any other byte leaves nothing.
pub open spec fn scan(line: Seq<u8>) -> Option<(Seq<Op>, Seq<nat>, nat)>
    decreases line.len(),
{
    if line.len() == 0 {
        Some((Seq::empty(), Seq::empty(), 0nat))
    } else {
        match scan(line.drop_last()) {
            None => None,
            Some((ops, widths, blanks)) => {
                let b = line.last();
                if b == SPACE {
                    Some((ops, widths, blanks + 1))
                } else if b == STAR || b == PLUS {
                    let op = if b == STAR {
                        Op::Multiply
                    } else {
                        Op::Add
                    };
                    if blanks > 1 {
                        Some((ops.push(op), widths.push(blanks), 0nat))
                    } else {
                        Some((ops.push(op), widths, blanks))
                    }
                } else {
                    None
                }
            },
        }
    }
}

/// The operators of the line of operators and the widths of its problems; the last problem is
/// one wider than the blanks counted at the end of the line. Nothing when the line holds a byte
/// that is neither a blank nor an operator, or no operator at all.
pub open spec fn layout(line: Seq<u8>) -> Option<(Seq<Op>, Seq<nat>)> {
    match scan(line) {
        Some((ops, widths, blanks)) => if ops.len() > 0 {
            Some((ops, widths.push(blanks + 1)))
        } else {
            None
        },
        None => None,
    }
}

/// The column at which problem `p` starts: each problem before it takes its width and one
/// column more.
pub open spec fn start_of(widths: Seq<nat>, p: nat) -> nat
    decreases p,
{
    if p == 0 {
        0
    } else {
        start_of(widths, (p - 1) as nat) + widths[p - 1] + 1
    }
}

/// Whether every line of `grid` has a blank or a digit at column `c`.
pub open spec fn column_ok(grid: Seq<Seq<u8>>, c: int) -> bool {
    forall|r: int|
        0 <= r < grid.len() ==> c < (#[trigger] grid[r]).len() && (grid[r][c] == SPACE || is_digit(
            grid[r][c],
        ))
}

/// The bytes that the lines of `grid` have at column `c`, from the top down, blanks left out.
pub open spec fn column_digits(grid: Seq<Seq<u8>>, c: int) -> Seq<u8>
    decreases grid.len(),
{
    if grid.len() == 0 {
        Seq::empty()
    } else if grid.last()[c] == SPACE {
        column_digits(grid.drop_last(), c)
    } else {
        column_digits(grid.drop_last(), c).push(grid.last()[c])
    }
}

/// The number that the digits of column `c` spell from the top down.
pub open spec fn operand_at(grid: Seq<Seq<u8>>, c: int) -> nat {
    number(digit_values(column_digits(grid, c)))
}

/// Whether `grid` holds an operand that fits in 64 bits in column `c` of problem `p`.
pub open spec fn operand_ok(grid: Seq<Seq<u8>>, widths: Seq<nat>, p: int, c: int) -> bool {
    &&& column_ok(grid, start_of(widths, p as nat) + c)
    &&& operand_at(grid, start_of(widths, p as nat) + c) <= u64::MAX
}

/// Whether `grid` holds an operand that fits in 64 bits in every column of every problem.
pub open spec fn grid_ok(grid: Seq<Seq<u8>>, widths: Seq<nat>) -> bool {
    forall|p: int, c: int|
        0 <= p < widths.len() && 0 <= c < widths[p] ==> #[trigger] operand_ok(grid, widths, p, c)
}

/// Whether `all` are the lines of a worksheet written in columns: some lines of digits and
/// blanks, then the line of operators.
pub open spec fn is_columns_sheet(all: Seq<Seq<u8>>) -> bool {
    &&& all.len() > 0
    &&& layout(all.last()).is_some()
    &&& grid_ok(all.drop_last(), layout(all.last()).unwrap().1)
}

/// A byte that is neither a blank nor an operator spoils the line whatever follows it.
proof fn lemma_scan_spoiled(line: Seq<u8>, k: int)
    requires
        0 <= k <= line.len(),
        scan(line.take(k)).is_none(),
    ensures
        scan(line).is_none(),
    decreases line.len() - k,
{
    if k < line.len() {
        assert(line.drop_last().take(k) == line.take(k));
        lemma_scan_spoiled(line.drop_last(), k);
    } else {
        assert(line.take(k) == line);
    }
}

/// Problems start further right the later they come.
proof fn lemma_start_of_grows(widths: Seq<nat>, p: nat, q: nat)
    requires
        p <= q,
    ensures
        start_of(widths, p) <= start_of(widths, q),
    decreases q - p,
{
    if p < q {
        lemma_start_of_grows(widths, p, (q - 1) as nat);
    }
}

/// The start of a problem depends only on the widths of those before it.
proof fn lemma_start_of_prefix(widths: Seq<nat>, more: Seq<nat>, p: nat)
    requires
        p <= widths.len() <= more.len(),
        forall|q: int| 0 <= q < widths.len() ==> widths[q] == more[q],
    ensures
        start_of(widths, p) == start_of(more, p),
    decreases p,
{
    if p > 0 {
        lemma_start_of_prefix(widths, more, (p - 1) as nat);
    }
}

/// Reads the operand in column `col` of the first `rows` lines of `found`.
fn read_column(found: &Vec<&[u8]>, rows: usize, col: u128) -> (operand: Option<u64>)
    requires
        rows <= found@.len(),
    ensures
        ({
            let grid = contents(found@).take(rows as int);
            operand == if column_ok(grid, col as int) && operand_at(grid, col as int) <= u64::MAX {
                Some(operand_at(grid, col as int) as u64)
            } else {
                None
            }
        }),
{
    let ghost grid = contents(found@).take(rows as int);
    let ghost c = col as int;
    let mut r: usize = 0;
    while r < rows
        invariant
            r <= rows <= found@.len(),
            grid == contents(found@).take(rows as int),
            c == col,
            column_ok(grid.take(r as int), c),
        decreases rows - r,
    {
        let line = found[r];
        assert(grid[r as int] == line@);
        if col >= line.len() as u128 {
            return None;
        }
        let b = line[col as usize];
        if b != SPACE && (b < 0x30 || b > 0x39) {
            return None;
        }
        r += 1;
    }
    assert(grid.take(rows as int) == grid);
    let mut acc: u64 = 0;
    let mut r: usize = 0;
    while r < rows
        invariant
            r <= rows <= found@.len(),
            grid == contents(found@).take(rows as int),
            grid.len() == rows,
            c == col,
            column_ok(grid, c),
            acc == operand_at(grid.take(r as int), c),
            operand_at(grid.take(r as int), c) <= operand_at(grid, c),
        decreases rows - r,
    {
        let line = found[r];
        assert(grid[r as int] == line@);
        let b = line[col as usize];
        proof {
            let seen = grid.take(r as int);
            let next = grid.take(r + 1);
            assert(next.drop_last() == seen);
            if b != SPACE {
                let digits = column_digits(next, c);
                assert(digit_values(digits).drop_last() == digit_values(column_digits(seen, c)));
            }
            lemma_operand_grows(grid, c, r + 1);
        }
        if b != SPACE {
            let tenfold = match acc.checked_mul(10) {
                Some(tenfold) => tenfold,
                None => {
                    return None;
                },
            };
            acc = match tenfold.checked_add((b - 0x30) as u64) {
                Some(sum) => sum,
                None => {
                    return None;
                },
            };
        }
        r += 1;
    }
    Some(acc)
}

/// The digits of the upper lines of a column spell no more than those of all its lines.
proof fn lemma_operand_grows(grid: Seq<Seq<u8>>, c: int, k: int)
    requires
        0 <= k <= grid.len(),
    ensures
        operand_at(grid.take(k), c) <= operand_at(grid, c),
    decreases grid.len() - k,
{
    if k < grid.len() {
        lemma_operand_grows(grid.drop_last(), c, k);
        assert(grid.drop_last().take(k) == grid.take(k));
        let upper = column_digits(grid.drop_last(), c);
        if grid.last()[c] != SPACE {
            let all = column_digits(grid, c);
            assert(digit_values(all).drop_last() == digit_values(upper));
        }
    } else {
        assert(grid.take(k) == grid);
    }
}

/// Reads a worksheet written in columns. The last line holds the operators; each stands over
/// the first column of its problem and the blanks after it give the width of the problem. In
/// the lines above, every column of a problem holds one operand, its digits written from the
/// top down.
pub fn read_input_as_columns(content: &str) -> (parsed: Result<(Vec<Vec<u64>>, Vec<Op>), Unreadable>)
    ensures
        match parsed {
            Ok((all_operands, ops)) => {
                let all = lines_of(content.spec_bytes());
                let grid = all.drop_last();
                let widths = layout(all.last()).unwrap().1;
                &&& is_columns_sheet(all)
                &&& ops@ == layout(all.last()).unwrap().0
                &&& all_operands@.len() == widths.len()
                &&& forall|p: int|
                    0 <= p < widths.len() ==> (#[trigger] all_operands@[p])@.len() == widths[p]
                &&& forall|p: int, c: int|
                    0 <= p < widths.len() && 0 <= c < widths[p] ==> #[trigger] all_operands@[p]@[c]
                        == operand_at(grid, start_of(widths, p as nat) + c)
            },
            Err(_) => !is_columns_sheet(lines_of(content.spec_bytes())),
        },
{
    let found = lines(content.as_bytes());
    let ghost all = lines_of(content.spec_bytes());
    if found.len() == 0 {
        return Err(Unreadable);
    }
    let rows = found.len() - 1;
    let op_line = found[rows];
    let ghost line = all.last();
    let ghost grid = all.drop_last();

    let mut ops: Vec<Op> = Vec::new();
    let mut op_lens: Vec<usize> = Vec::new();
    let ghost mut closed: Seq<nat> = Seq::empty();
    let mut curr_len: usize = 0;
    let mut i: usize = 0;
    while i < op_line.len()
        invariant
            i <= line.len(),
            line == op_line@,
            all == lines_of(content.spec_bytes()),
            all.len() > 0,
            line == all.last(),
            scan(line.take(i as int)) == Some((ops@, closed, curr_len as nat)),
            op_lens@.len() == closed.len(),
            forall|q: int| 0 <= q < closed.len() ==> #[trigger] op_lens@[q] == closed[q],
            curr_len + ops@.len() <= i,
            start_of(closed, closed.len()) + curr_len <= 2 * i,
        decreases line.len() - i,
    {
        let b = op_line[i];
        proof {
            assert(line.take(i + 1).drop_last() == line.take(i as int));
        }
        if b == STAR || b == PLUS {
            if curr_len > 1 {
                proof {
                    let more = closed.push(curr_len as nat);
                    lemma_start_of_prefix(closed, more, closed.len());
                    closed = more;
                }
                op_lens.push(curr_len);
                curr_len = 0;
            }
            ops.push(
                if b == STAR {
                    Op::Multiply
                } else {
                    Op::Add
                },
            );
        } else if b == SPACE {
            curr_len += 1;
        } else {
            proof {
                lemma_scan_spoiled(line, i + 1);
            }
            return Err(Unreadable);
        }
        i += 1;
    }
    assert(line.take(i as int) == line);
    if ops.len() == 0 {
        return Err(Unreadable);
    }
    op_lens.push(curr_len + 1);
    let ghost widths = closed.push((curr_len + 1) as nat);
    proof {
        lemma_start_of_prefix(closed, widths, closed.len());
    }

    let mut all_operands: Vec<Vec<u64>> = Vec::new();
    let mut start: u128 = 0;
    let mut p: usize = 0;
    while p < op_lens.len()
        invariant
            p <= widths.len(),
            rows < found@.len(),
            grid == contents(found@).take(rows as int),
            grid == all.drop_last(),
            all == lines_of(content.spec_bytes()),
            all.len() > 0,
            layout(all.last()) == Some((ops@, widths)),
            op_lens@.len() == widths.len(),
            forall|q: int| 0 <= q < widths.len() ==> #[trigger] op_lens@[q] == widths[q],
            start_of(widths, widths.len()) <= 2 * usize::MAX + 2,
            start == start_of(widths, p as nat),
            all_operands@.len() == p,
            forall|q: int| 0 <= q < p ==> (#[trigger] all_operands@[q])@.len() == widths[q],
            forall|q: int, c: int|
                0 <= q < p && 0 <= c < widths[q] ==> #[trigger] operand_ok(grid, widths, q, c),
            forall|q: int, c: int|
                0 <= q < p && 0 <= c < widths[q] ==> #[trigger] all_operands@[q]@[c] == operand_at(
                    grid,
                    start_of(widths, q as nat) + c,
                ),
        decreases widths.len() - p,
    {
        let op_len = op_lens[p];
        let mut operands: Vec<u64> = Vec::new();
        let mut c: usize = 0;
        proof {
            lemma_start_of_grows(widths, (p + 1) as nat, widths.len());
        }
        while c < op_len
            invariant
                c <= op_len,
                p < widths.len(),
                op_len == widths[p as int],
                rows < found@.len(),
                grid == contents(found@).take(rows as int),
                grid == all.drop_last(),
                all == lines_of(content.spec_bytes()),
                all.len() > 0,
                layout(all.last()) == Some((ops@, widths)),
                start == start_of(widths, p as nat),
                start + op_len + 1 <= 2 * usize::MAX + 2,
                operands@.len() == c,
                forall|k: int| 0 <= k < c ==> #[trigger] operand_ok(grid, widths, p as int, k),
                forall|k: int| 0 <= k < c ==> #[trigger] operands@[k] == operand_at(grid, start + k),
            decreases op_len - c,
        {
            let col = start + c as u128;
            match read_column(&found, rows, col) {
                Some(operand) => {
                    operands.push(operand);
                },
                None => {
                    proof {
                        assert(!operand_ok(grid, widths, p as int, c as int));
                    }
                    return Err(Unreadable);
                },
            }
            c += 1;
        }
        all_operands.push(operands);
        start = start + op_len as u128 + 1;
        p += 1;
    }
    Ok((all_operands, ops))
}

/// The two grand totals of a worksheet: of its reading row by row, and of its reading in
/// columns. The first failure is reported.
pub fn solve(
    by_rows: (Vec<Vec<u64>>, Vec<Op>),
    by_columns: (Vec<Vec<u64>>, Vec<Op>),
) -> (totals: Result<(u64, u64), SheetError>)
    ensures
        totals == match rows_outcome(by_rows.0@, by_rows.1@) {
            Err(why) => Err::<(u64, u64), SheetError>(why),
            Ok(first) => match columns_outcome(by_columns.0@, by_columns.1@) {
                Err(why) => Err::<(u64, u64), SheetError>(why),
                Ok(second) => Ok::<(u64, u64), SheetError>((first, second)),
            },
        },
{
    let first = match execute_as_rows(by_rows.0, by_rows.1) {
        Ok(first) => first,
        Err(why) => {
            return Err(why);
        },
    };
    let second = match execute_as_columns(by_columns.0, by_columns.1) {
        Ok(second) => second,
        Err(why) => {
            return Err(why);
        },
    };
    Ok((first, second))
}

} // verus!
