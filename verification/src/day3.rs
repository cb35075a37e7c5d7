//! Banks of batteries, and the largest numbers that their ratings spell.

use vstd::prelude::*;
use vstd::slice::slice_subrange;
use crate::decimal::{lemma_number_bound, number, ten_to};
use crate::text::{contents, lines, lines_of, Malformed};
use vstd::string::StringSliceAdditionalSpecFns;

verus! {

/// How many batteries the second rating switches on.
pub const CHOSEN: usize = 12;

/// Why a line of text is not a bank of batteries.
#[derive(Debug, Clone, Copy, PartialEq, Eq, Structural)]
pub enum BankError {
    /// The line holds this byte, which is not one of the digits `1` to `9`.
    InvalidDigit(u8),
}

/// Whether `b` is one of the ASCII digits `1` to `9`.
pub open spec fn is_battery_digit(b: u8) -> bool {
    0x31 <= b <= 0x39
}

/// Whether `line` is made of the digits `1` to `9` alone.
pub open spec fn is_bank_line(line: Seq<u8>) -> bool {
    forall|i: int| 0 <= i < line.len() ==> is_battery_digit(#[trigger] line[i])
}

/// Whether `parsed` is what reading `line` as a bank gives: the bank whose ratings are the
/// digits of the line, or the first byte of the line that is not a digit from `1` to `9`.
pub open spec fn reads_as_bank(line: Seq<u8>, parsed: Result<Bank, BankError>) -> bool {
    match parsed {
        Ok(bank) => {
            &&& is_bank_line(line)
            &&& bank@.len() == line.len()
            &&& forall|i: int| 0 <= i < line.len() ==> #[trigger] bank@[i] == line[i] - 0x30
        },
        Err(BankError::InvalidDigit(b)) => exists|i: int|
            {
                &&& 0 <= i < line.len()
                &&& #[trigger] line[i] == b
                &&& !is_battery_digit(b)
                &&& forall|j: int| 0 <= j < i ==> is_battery_digit(#[trigger] line[j])
            },
    }
}

/// A line of batteries, each with a rating from 1 to 9.
pub struct Bank {
    batteries: Vec<u8>,
    len: usize,
}

impl View for Bank {
    type V = Seq<u8>;

    /// The ratings of the batteries, in line order.
    closed spec fn view(&self) -> Seq<u8> {
        self.batteries@
    }
}

/// Every rating of `d` is from 1 to 9.
pub open spec fn all_rated(d: Seq<u8>) -> bool {
    forall|i: int| 0 <= i < d.len() ==> 1 <= #[trigger] d[i] <= 9
}

/// `v` is the largest two-digit number that two batteries of `d` spell, the first standing
/// before the second in the line.
pub open spec fn is_best_pair(v: int, d: Seq<u8>) -> bool {
    &&& exists|i: int, j: int| 0 <= i < j < d.len() && v == #[trigger] (10 * d[i] + d[j])
    &&& forall|i: int, j: int| 0 <= i < j < d.len() ==> #[trigger] (10 * d[i] + d[j]) <= v
}

/// `idx` names `k` positions of a line of `n` batteries, from left to right.
pub open spec fn is_choice(idx: Seq<int>, n: nat, k: nat) -> bool {
    &&& idx.len() == k
    &&& forall|t: int| 0 <= t < k ==> 0 <= #[trigger] idx[t] < n
    &&& forall|t: int, u: int| 0 <= t < u < k ==> idx[t] < idx[u]
}

/// The ratings of `d` at the positions `idx`.
pub open spec fn picked(d: Seq<u8>, idx: Seq<int>) -> Seq<u8> {
    Seq::new(idx.len(), |t: int| d[idx[t]])
}

/// `v` is the largest number that `k` batteries of `d` spell when taken from left to right.
pub open spec fn is_best_choice(v: nat, d: Seq<u8>, k: nat) -> bool {
    &&& exists|idx: Seq<int>| #[trigger] is_choice(idx, d.len(), k) && number(picked(d, idx)) == v
    &&& forall|idx: Seq<int>| #[trigger] is_choice(idx, d.len(), k) ==> number(picked(d, idx)) <= v
}

/// The first position of the largest value of `slice`, with that value; nothing for an empty
/// slice.
pub fn find_first_max(slice: &[u8]) -> (found: Option<(usize, &u8)>)
    ensures
        slice@.len() == 0 <==> found.is_none(),
        found matches Some((pos, max)) ==> {
            &&& pos < slice@.len()
            &&& slice@[pos as int] == *max
            &&& forall|i: int| 0 <= i < slice@.len() ==> slice@[i] <= *max
            &&& forall|i: int| 0 <= i < pos ==> slice@[i] < *max
        },
{
    if slice.len() == 0 {
        return None;
    }
    let mut pos: usize = 0;
    let mut i: usize = 1;
    while i < slice.len()
        invariant
            1 <= i <= slice@.len(),
            pos < i,
            forall|k: int| 0 <= k < i ==> slice@[k] <= slice@[pos as int],
            forall|k: int| 0 <= k < pos ==> slice@[k] < slice@[pos as int],
        decreases slice@.len() - i,
    {
        if slice[i] > slice[pos] {
            pos = i;
        }
        i += 1;
    }
    Some((pos, &slice[pos]))
}

/// Positions that ascend are at least as far apart as their ranks.
proof fn lemma_choice_spread(idx: Seq<int>, n: nat, k: nat, t: int, u: int)
    requires
        is_choice(idx, n, k),
        0 <= t <= u < k,
    ensures
        idx[u] - idx[t] >= u - t,
    decreases u - t,
{
    if t < u {
        lemma_choice_spread(idx, n, k, t, u - 1);
    }
}

/// Whether the first `t` positions of `idx` spell less than `greedy` does, or spell the same
/// and have not fallen behind it.
spec fn keeps_up(d: Seq<u8>, idx: Seq<int>, greedy: Seq<int>, t: int) -> bool {
    let mine = number(picked(d, idx.take(t)));
    let best = number(picked(d, greedy));
    mine < best || (mine == best && (t > 0 ==> idx[t - 1] >= greedy[t - 1]))
}

/// Taking the first largest rating of the window that still leaves enough batteries keeps
/// `greedy` ahead of any other choice.
proof fn lemma_greedy_step(d: Seq<u8>, idx: Seq<int>, greedy: Seq<int>, k: nat, next: int)
    requires
        all_rated(d),
        is_choice(idx, d.len(), k),
        greedy.len() < k,
        keeps_up(d, idx, greedy, greedy.len() as int),
        forall|t: int| 0 <= t < greedy.len() ==> 0 <= #[trigger] greedy[t] < d.len(),
        ({
            let t = greedy.len() as int;
            let start = if t == 0 {
                0
            } else {
                greedy[t - 1] + 1
            };
            let end = d.len() - (k - 1 - t);
            &&& start <= next < end
            &&& forall|i: int| start <= i < end ==> d[i] <= d[next]
            &&& forall|i: int| start <= i < next ==> d[i] < d[next]
        }),
    ensures
        keeps_up(d, idx, greedy.push(next), greedy.len() as int + 1),
{
    let t = greedy.len() as int;
    let mine = picked(d, idx.take(t + 1));
    let best = picked(d, greedy.push(next));
    assert(mine.drop_last() == picked(d, idx.take(t)));
    assert(best.drop_last() == picked(d, greedy));
    lemma_choice_spread(idx, d.len(), k, t, k - 1);
}

/// As many digits as `CHOSEN` spell a number that fits in 64 bits.
proof fn lemma_ten_to_small(k: nat)
    requires
        k <= CHOSEN,
    ensures
        ten_to(k) <= 1_000_000_000_000,
{
    reveal_with_fuel(ten_to, 13);
}

impl Bank {
    /// The number of batteries that the bank keeps on record.
    pub closed spec fn count(&self) -> usize {
        self.len
    }

    /// Every bank that exists at run time has ratings from 1 to 9, and has their number on
    /// record.
    #[verifier::type_invariant]
    pub open spec fn wf(&self) -> bool {
        &&& self.count() == self@.len()
        &&& all_rated(self@)
    }

    /// Reads a bank from a line of the digits `1` to `9`. Any other byte is an error, and the
    /// first such byte is reported.
    pub fn from_str(s: &str) -> (parsed: Result<Bank, BankError>)
        ensures
            reads_as_bank(s.spec_bytes(), parsed),
    {
        Bank::parse(s.as_bytes())
    }

    /// Reads a bank from the bytes of a line.
    pub fn parse(bytes: &[u8]) -> (parsed: Result<Bank, BankError>)
        ensures
            reads_as_bank(bytes@, parsed),
    {
        let mut batteries: Vec<u8> = Vec::new();
        let mut i: usize = 0;
        while i < bytes.len()
            invariant
                i <= bytes@.len(),
                batteries@.len() == i,
                forall|j: int|
                    0 <= j < i ==> is_battery_digit(#[trigger] bytes@[j]) && batteries@[j]
                        == bytes@[j] - 0x30,
            decreases bytes@.len() - i,
        {
            let b = bytes[i];
            if b >= 0x31 && b <= 0x39 {
                batteries.push(b - 0x30);
            } else {
                return Err(BankError::InvalidDigit(b));
            }
            i += 1;
        }
        let len = batteries.len();
        assert forall|j: int| 0 <= j < batteries@.len() implies 1 <= #[trigger] batteries@[j]
            <= 9 by {
            assert(is_battery_digit(bytes@[j]));
        }
        Ok(Self { batteries, len })
    }

    /// The number of batteries in the bank.
    pub fn len(&self) -> (n: usize)
        ensures
            n == self@.len(),
    {
        proof {
            use_type_invariant(self);
        }
        self.len
    }

    /// The largest number that two batteries spell, the first standing before the second: the
    /// rating itself for a single battery, zero for none.
    pub fn max_joltage_part1(&self) -> (jolts: u32)
        ensures
            self@.len() == 0 ==> jolts == 0,
            self@.len() == 1 ==> jolts == self@[0],
            self@.len() >= 2 ==> is_best_pair(jolts as int, self@),
    {
        proof {
            use_type_invariant(self);
        }
        if self.len == 1 {
            return self.batteries[0] as u32;
        }
        if self.len == 0 {
            return 0;
        }
        let all = self.batteries.as_slice();
        let (pos, max_left) = find_first_max(slice_subrange(all, 0, self.len - 1)).unwrap();
        let (at, max_right) = find_first_max(slice_subrange(all, pos + 1, self.len)).unwrap();
        let ghost d = self@;
        proof {
            assert forall|i: int, j: int| 0 <= i < j < d.len() implies #[trigger] (10 * d[i]
                + d[j]) <= 10 * *max_left + *max_right by {
                assert(d.subrange(0, d.len() - 1)[i] == d[i]);
                if d[i] == *max_left {
                    assert(d.subrange(pos + 1, d.len() as int)[j - (pos + 1)] == d[j]);
                }
            }
        }
        (*max_left as u32) * 10 + (*max_right as u32)
    }

    /// The largest number that `CHOSEN` batteries spell when taken from left to right.
    pub fn max_joltage_part2(&self) -> (jolts: u64)
        requires
            self@.len() > CHOSEN,
        ensures
            is_best_choice(jolts as nat, self@, CHOSEN as nat),
    {
        proof {
            use_type_invariant(self);
        }
        let all = self.batteries.as_slice();
        let ghost d = self@;
        let mut bats: Vec<u64> = Vec::new();
        let mut pos: Option<usize> = None;
        let ghost mut greedy: Seq<int> = Seq::empty();
        let mut t: usize = 0;
        while t < CHOSEN
            invariant
                t <= CHOSEN,
                d == self@,
                d.len() > CHOSEN,
                d.len() == self.len,
                all_rated(d),
                all@ == d,
                bats@.len() == t,
                forall|i: int| 0 <= i < t ==> #[trigger] bats@[i] == d[greedy[i]],
                is_choice(greedy, d.len(), t as nat),
                t == 0 ==> pos.is_none(),
                t > 0 ==> pos == Some(greedy[t - 1] as usize) && greedy[t - 1] < d.len() - (CHOSEN
                    - t),
                forall|idx: Seq<int>| #[trigger]
                    is_choice(idx, d.len(), CHOSEN as nat) ==> keeps_up(d, idx, greedy, t as int),
            decreases CHOSEN - t,
        {
            let offset = CHOSEN - 1 - t;
            let start = match pos {
                Some(p) => p + 1,
                None => 0,
            };
            let slice = slice_subrange(all, start, self.len - offset);
            let (max_pos, max_val) = find_first_max(slice).unwrap();
            bats.push(*max_val as u64);
            pos = Some(max_pos + start);
            proof {
                let next = (max_pos + start) as int;
                let end = d.len() - offset;
                assert forall|i: int| start <= i < end implies d[i] <= d[next] by {
                    assert(d.subrange(start as int, end)[i - start] == d[i]);
                }
                assert forall|i: int| start <= i < next implies d[i] < d[next] by {
                    assert(d.subrange(start as int, end)[i - start] == d[i]);
                }
                assert forall|idx: Seq<int>| #[trigger]
                    is_choice(idx, d.len(), CHOSEN as nat) implies keeps_up(
                    d,
                    idx,
                    greedy.push(next),
                    t + 1,
                ) by {
                    lemma_greedy_step(d, idx, greedy, CHOSEN as nat, next);
                }
                greedy = greedy.push(next);
            }
            t += 1;
        }
        let ghost best = picked(d, greedy);
        let mut acc: u64 = 0;
        let mut i: usize = 0;
        while i < bats.len()
            invariant
                i <= bats@.len(),
                bats@.len() == CHOSEN,
                best.len() == CHOSEN,
                forall|j: int| 0 <= j < CHOSEN ==> #[trigger] bats@[j] == best[j],
                forall|j: int| 0 <= j < CHOSEN ==> #[trigger] best[j] <= 9,
                acc == number(best.take(i as int)),
            decreases bats@.len() - i,
        {
            proof {
                lemma_number_bound(best.take(i as int));
                lemma_ten_to_small(i as nat);
                assert(best.take(i + 1).drop_last() == best.take(i as int));
            }
            acc = acc * 10 + bats[i];
            i += 1;
        }
        proof {
            assert(best.take(i as int) == best);
            assert forall|idx: Seq<int>| #[trigger]
                is_choice(idx, d.len(), CHOSEN as nat) implies number(picked(d, idx))
                <= acc by {
                assert(idx.take(CHOSEN as int) == idx);
            }
        }
        acc
    }
}

/// The largest number that two batteries of `d` spell, the first standing before the second;
/// the rating itself for a single battery, zero for none.
pub open spec fn best_pair(d: Seq<u8>) -> int {
    if d.len() == 0 {
        0
    } else if d.len() == 1 {
        d[0] as int
    } else {
        choose|v: int| is_best_pair(v, d)
    }
}

/// The largest number that `k` batteries of `d` spell when taken from left to right.
pub open spec fn best_choice(d: Seq<u8>, k: nat) -> nat {
    choose|v: nat| is_best_choice(v, d, k)
}

/// There is only one largest number.
proof fn lemma_best_pair_is(v: int, d: Seq<u8>)
    requires
        d.len() >= 2,
        is_best_pair(v, d),
    ensures
        best_pair(d) == v,
{
    // Both are spelt by two batteries and neither is exceeded, so each is at most the other.
    let w = best_pair(d);
    let (i, j) = choose|i: int, j: int| 0 <= i < j < d.len() && v == #[trigger] (10 * d[i] + d[j]);
    let (i2, j2) = choose|i: int, j: int| 0 <= i < j < d.len() && w == #[trigger] (10 * d[i] + d[j]);
    assert(10 * d[i] + d[j] <= w);
    assert(10 * d[i2] + d[j2] <= v);
}

/// There is only one largest number.
proof fn lemma_best_choice_is(v: nat, d: Seq<u8>, k: nat)
    requires
        is_best_choice(v, d, k),
    ensures
        best_choice(d, k) == v,
{
}

/// Digits from 1 to 9 spell a number of as many digits.
proof fn lemma_number_at_least(d: Seq<u8>)
    requires
        all_rated(d),
        d.len() >= 1,
    ensures
        number(d) >= ten_to((d.len() - 1) as nat),
    decreases d.len(),
{
    if d.len() >= 2 {
        lemma_number_at_least(d.drop_last());
    }
}

/// Two batteries never spell more than `CHOSEN` of them do.
proof fn lemma_pair_below_choice(d: Seq<u8>, pair: int, choice: nat)
    requires
        all_rated(d),
        d.len() >= 2,
        is_best_pair(pair, d),
        is_best_choice(choice, d, CHOSEN as nat),
    ensures
        pair <= 99 <= choice,
{
    // Two ratings spell at most 99, and twelve ratings at least a number of twelve digits.
    let (i, j) = choose|i: int, j: int| 0 <= i < j < d.len() && pair == #[trigger] (10 * d[i] + d[j]);
    assert(d[i] <= 9 && d[j] <= 9);
    let idx = choose|idx: Seq<int>| #[trigger]
        is_choice(idx, d.len(), CHOSEN as nat) && number(picked(d, idx)) == choice;
    let taken = picked(d, idx);
    lemma_number_at_least(taken);
    assert(ten_to(11) >= 99) by {
        reveal_with_fuel(ten_to, 12);
    }
}

/// Why a list of banks has no answers.
#[derive(Debug, Clone, Copy, PartialEq, Eq, Structural)]
pub enum SolveError {
    /// The bank at this position has no more than `CHOSEN` batteries.
    ShortBank(usize),
    /// A total does not fit in 64 bits.
    TooLarge,
}

/// The first ratings of the first `n` banks added up.
pub open spec fn total_pairs(banks: Seq<Bank>, n: nat) -> nat
    decreases n,
{
    if n == 0 {
        0
    } else {
        total_pairs(banks, (n - 1) as nat) + best_pair(banks[n - 1]@) as nat
    }
}

/// The second ratings of the first `n` banks added up.
pub open spec fn total_choices(banks: Seq<Bank>, n: nat) -> nat
    decreases n,
{
    if n == 0 {
        0
    } else {
        total_choices(banks, (n - 1) as nat) + best_choice(banks[n - 1]@, CHOSEN as nat)
    }
}

/// The ratings of more banks add up to no less.
proof fn lemma_total_choices_grows(banks: Seq<Bank>, k: nat, n: nat)
    requires
        k <= n,
    ensures
        total_choices(banks, k) <= total_choices(banks, n),
    decreases n - k,
{
    if k < n {
        lemma_total_choices_grows(banks, k, (n - 1) as nat);
    }
}

/// Reads the banks that `content` lists, one on each line.
pub fn read_input(content: &str) -> (parsed: Result<Vec<Bank>, Malformed>)
    ensures
        match parsed {
            Ok(banks) => {
                &&& banks@.len() == lines_of(content.spec_bytes()).len()
                &&& forall|k: int|
                    0 <= k < banks@.len() ==> reads_as_bank(
                        #[trigger] lines_of(content.spec_bytes())[k],
                        Ok::<Bank, BankError>(banks@[k]),
                    )
            },
            Err(Malformed { at }) => {
                &&& at < lines_of(content.spec_bytes()).len()
                &&& !is_bank_line(lines_of(content.spec_bytes())[at as int])
                &&& forall|k: int|
                    0 <= k < at ==> is_bank_line(#[trigger] lines_of(content.spec_bytes())[k])
            },
        },
{
    let all = lines(content.as_bytes());
    let ghost texts = lines_of(content.spec_bytes());
    let mut banks: Vec<Bank> = Vec::new();
    let mut i: usize = 0;
    while i < all.len()
        invariant
            i <= all@.len(),
            contents(all@) == texts,
            texts == lines_of(content.spec_bytes()),
            banks@.len() == i,
            forall|k: int|
                0 <= k < i ==> reads_as_bank(#[trigger] texts[k], Ok::<Bank, BankError>(banks@[k])),
        decreases all@.len() - i,
    {
        match Bank::parse(all[i]) {
            Ok(bank) => {
                banks.push(bank);
            },
            Err(_) => {
                return Err(Malformed { at: i });
            },
        }
        i += 1;
    }
    Ok(banks)
}

/// The two answers for `banks`: their first ratings added up, and their second ratings added
/// up. The second rating asks for more than `CHOSEN` batteries in every bank.
pub fn solve(banks: &Vec<Bank>) -> (answers: Result<(u64, u64), SolveError>)
    ensures
        match answers {
            Ok((pairs, choices)) => {
                &&& forall|k: int| 0 <= k < banks@.len() ==> (#[trigger] banks@[k])@.len() > CHOSEN
                &&& pairs == total_pairs(banks@, banks@.len())
                &&& choices == total_choices(banks@, banks@.len())
            },
            Err(SolveError::ShortBank(at)) => {
                &&& at < banks@.len()
                &&& banks@[at as int]@.len() <= CHOSEN
                &&& forall|k: int| 0 <= k < at ==> (#[trigger] banks@[k])@.len() > CHOSEN
            },
            Err(SolveError::TooLarge) => {
                &&& forall|k: int| 0 <= k < banks@.len() ==> (#[trigger] banks@[k])@.len() > CHOSEN
                &&& total_choices(banks@, banks@.len()) > u64::MAX
            },
        },
{
    let ghost all = banks@;
    let mut i: usize = 0;
    while i < banks.len()
        invariant
            i <= all.len(),
            all == banks@,
            forall|k: int| 0 <= k < i ==> (#[trigger] all[k])@.len() > CHOSEN,
        decreases all.len() - i,
    {
        if banks[i].len() <= CHOSEN {
            return Err(SolveError::ShortBank(i));
        }
        i += 1;
    }
    let mut total_pairs_sum: u64 = 0;
    let mut total_joltage: u64 = 0;
    let mut i: usize = 0;
    while i < banks.len()
        invariant
            i <= all.len(),
            all == banks@,
            forall|k: int| 0 <= k < all.len() ==> (#[trigger] all[k])@.len() > CHOSEN,
            total_pairs_sum == total_pairs(all, i as nat),
            total_joltage == total_choices(all, i as nat),
            total_pairs_sum <= total_joltage,
        decreases all.len() - i,
    {
        let bank = &banks[i];
        let pair = bank.max_joltage_part1();
        let choice = bank.max_joltage_part2();
        proof {
            use_type_invariant(bank);
            lemma_best_pair_is(pair as int, bank@);
            lemma_best_choice_is(choice as nat, bank@, CHOSEN as nat);
            lemma_total_choices_grows(all, (i + 1) as nat, all.len());
            lemma_pair_below_choice(bank@, pair as int, choice as nat);
        }
        total_joltage = match total_joltage.checked_add(choice) {
            Some(sum) => sum,
            None => {
                return Err(SolveError::TooLarge);
            },
        };
        total_pairs_sum = total_pairs_sum + pair as u64;
        i += 1;
    }
    Ok((total_pairs_sum, total_joltage))
}

} // verus!
