//! Product identifiers that repeat a digit string, and the ranges they are looked for in.

use vstd::prelude::*;
use vstd::string::StringSliceAdditionalSpecFns;
use vstd::utf8::encode_utf8;
use crate::text::{contents, is_unsigned, parse_unsigned, split, split_on, unsigned_value, Malformed};
use vstd::arithmetic::div_mod::{lemma_fundamental_div_mod, lemma_fundamental_div_mod_converse};
use crate::decimal::{
    digit_count,
    digits_of,
    lemma_digit_count_bounds,
    lemma_digit_count_is,
    lemma_ten_to_adds,
    lemma_ten_to_grows,
    lemma_ten_to_positive,
    pow10,
    ten_to,
};

verus! {

/// A product identifier.
#[derive(Debug, PartialEq, Eq, Clone, Copy, PartialOrd, Ord)]
pub struct Id(pub u64);

/// The number that reads as the digits of `h` written twice in a row.
pub open spec fn doubled(h: nat) -> nat {
    h * ten_to(digit_count(h)) + h
}

/// Whether `n` reads as some digit string written twice in a row.
pub open spec fn is_doubled(n: nat) -> bool {
    exists|h: nat| #[trigger] doubled(h) == n
}

/// How `n` is written in base ten: its digits, most significant first, and a single zero for
/// zero.
pub open spec fn written(n: nat) -> Seq<u8> {
    if n == 0 {
        seq![0u8]
    } else {
        digits_of(n)
    }
}

/// Whether `s` is its first `w` digits written at least twice in a row.
pub open spec fn repeats_every(s: Seq<u8>, w: int) -> bool {
    &&& 0 < w < s.len()
    &&& s.len() as int % w == 0
    &&& forall|i: int| 0 <= i < s.len() ==> #[trigger] s[i] == s[i % w]
}

/// Whether `n` reads as some digit string written at least twice in a row.
pub open spec fn is_repeated(n: nat) -> bool {
    exists|w: int| repeats_every(written(n), w)
}

/// A number written twice has twice as many digits.
proof fn lemma_doubled_digits(h: nat)
    ensures
        digit_count(doubled(h)) == 2 * digit_count(h),
{
    if h > 0 {
        let k = digit_count(h);
        let t = ten_to(k) as int;
        let low = ten_to((k - 1) as nat) as int;
        lemma_digit_count_bounds(h);
        lemma_ten_to_adds((k - 1) as nat, k);
        lemma_ten_to_adds(k, k);
        assert(h * t + h >= low * t) by (nonlinear_arith)
            requires
                h >= low,
                t >= 0,
                h >= 0,
        ;
        assert(h * t + h < t * t) by (nonlinear_arith)
            requires
                0 <= h < t,
        ;
        lemma_digit_count_is(doubled(h), 2 * k);
    }
}

/// No 64-bit number has more than twenty digits.
proof fn lemma_digit_count_u64(n: u64)
    ensures
        digit_count(n as nat) <= 20,
{
    if n > 0 && digit_count(n as nat) > 20 {
        lemma_digit_count_bounds(n as nat);
        lemma_ten_to_grows(20, (digit_count(n as nat) - 1) as nat);
        assert(ten_to(20) == 100_000_000_000_000_000_000) by {
            reveal_with_fuel(ten_to, 21);
        }
    }
}

/// A number of `2k` digits reads as a digit string written twice exactly when its upper `k`
/// digits and its lower `k` digits spell the same number.
proof fn lemma_doubled_halves(n: nat, k: nat)
    requires
        digit_count(n) == 2 * k,
    ensures
        is_doubled(n) <==> n / ten_to(k) == n % ten_to(k),
{
    let t = ten_to(k) as int;
    lemma_ten_to_positive(k);
    lemma_fundamental_div_mod(n as int, t);
    let left = (n as int) / t;
    let right = (n as int) % t;
    if left == right {
        let h = left as nat;
        if k == 0 {
            assert(doubled(0) == 0);
        } else {
            lemma_digit_count_bounds(n);
            lemma_ten_to_adds((k - 1) as nat, k);
            lemma_ten_to_adds(k, k);
            let low = ten_to((k - 1) as nat) as int;
            assert(left < t) by (nonlinear_arith)
                requires
                    n == t * left + right,
                    0 <= right,
                    n < t * t,
                    t > 0,
            ;
            assert(left >= low) by (nonlinear_arith)
                requires
                    n == t * left + right,
                    0 <= right < t,
                    n >= low * t,
                    t > 0,
            ;
            lemma_digit_count_is(h, k);
            assert(h * t == t * h) by (nonlinear_arith);
            assert(doubled(h) == n);
        }
    }
    if is_doubled(n) {
        let h = choose|h: nat| #[trigger] doubled(h) == n;
        lemma_doubled_digits(h);
        if h > 0 {
            lemma_digit_count_bounds(h);
        }
        lemma_fundamental_div_mod_converse(n as int, t, h as int, h as int);
    }
}

/// The digits of `n`, least significant first; none for zero.
fn digits_reversed(n: u64) -> (rev: Vec<u8>)
    ensures
        rev@.reverse() == digits_of(n as nat),
{
    let mut rev: Vec<u8> = Vec::new();
    let mut v = n;
    while v > 0
        invariant
            digits_of(n as nat) == digits_of(v as nat) + rev@.reverse(),
        decreases v,
    {
        let d = (v % 10) as u8;
        proof {
            assert(digits_of((v / 10) as nat).push(d) + rev@.reverse() =~= digits_of(
                (v / 10) as nat,
            ) + (seq![d] + rev@.reverse()));
        }
        rev.push(d);
        v = v / 10;
    }
    rev
}

/// How `n` is written in base ten.
fn decimal_digits(n: u64) -> (digits: Vec<u8>)
    ensures
        digits@ == written(n as nat),
{
    if n == 0 {
        let mut digits: Vec<u8> = Vec::new();
        digits.push(0);
        return digits;
    }
    let rev = digits_reversed(n);
    let mut digits: Vec<u8> = Vec::new();
    let mut i: usize = rev.len();
    while i > 0
        invariant
            i <= rev@.len(),
            digits@.len() == rev@.len() - i,
            forall|j: int| 0 <= j < digits@.len() ==> #[trigger] digits@[j] == rev@[rev@.len() - 1 - j],
        decreases i,
    {
        i -= 1;
        digits.push(rev[i]);
    }
    digits
}

/// The remainder of the next number is the next remainder, or zero after the last one.
proof fn lemma_mod_step(i: int, w: int)
    requires
        0 <= i,
        0 < w,
    ensures
        (i + 1) % w == if i % w + 1 == w {
            0
        } else {
            i % w + 1
        },
        0 <= i % w < w,
{
    lemma_fundamental_div_mod(i, w);
    let q = i / w;
    let r = i % w;
    if r + 1 == w {
        assert(i + 1 == (q + 1) * w + 0) by (nonlinear_arith)
            requires
                i == w * q + r,
                r + 1 == w,
        ;
        lemma_fundamental_div_mod_converse(i + 1, w, q + 1, 0);
    } else {
        assert(i + 1 == q * w + (r + 1)) by (nonlinear_arith)
            requires
                i == w * q + r,
        ;
        lemma_fundamental_div_mod_converse(i + 1, w, q, r + 1);
    }
}

/// Whether `s` is its first `w` digits written over and over.
fn is_made_of_blocks(s: &Vec<u8>, w: usize) -> (yes: bool)
    requires
        0 < w < s@.len(),
    ensures
        yes == repeats_every(s@, w as int),
{
    let n = s.len();
    if n % w != 0 {
        return false;
    }
    let mut i: usize = w;
    let mut at: usize = 0;
    proof {
        lemma_fundamental_div_mod_converse(w as int, w as int, 1, 0);
        assert forall|j: int| 0 <= j < w implies #[trigger] s@[j] == s@[j % (w as int)] by {
            vstd::arithmetic::div_mod::lemma_small_mod(j as nat, w as nat);
        }
    }
    while i < n
        invariant
            w <= i <= n,
            n == s@.len(),
            0 < w,
            at < w,
            at as int == i as int % w as int,
            forall|j: int| 0 <= j < i ==> #[trigger] s@[j] == s@[j % (w as int)],
        decreases n - i,
    {
        if s[i] != s[at] {
            return false;
        }
        proof {
            lemma_mod_step(i as int, w as int);
        }
        i += 1;
        at += 1;
        if at == w {
            at = 0;
        }
    }
    true
}

impl Id {
    /// Whether the identifier is valid under the first rule: it does not read as a digit
    /// string written twice in a row.
    pub fn is_valid(&self) -> (valid: bool)
        ensures
            valid == !is_doubled(self.0 as nat),
    {
        let mut v = self.0;
        let mut dc: u32 = 0;
        proof {
            lemma_digit_count_u64(self.0);
        }
        while v > 0
            invariant
                dc + digit_count(v as nat) == digit_count(self.0 as nat),
                digit_count(self.0 as nat) <= 20,
            decreases v,
        {
            v /= 10;
            dc += 1;
        }
        if dc % 2 != 0 {
            proof {
                if is_doubled(self.0 as nat) {
                    let h = choose|h: nat| #[trigger] doubled(h) == self.0 as nat;
                    lemma_doubled_digits(h);
                }
            }
            return true;
        }
        let patlen = dc / 2;
        let pow = pow10(patlen);
        proof {
            lemma_ten_to_positive(patlen as nat);
            lemma_doubled_halves(self.0 as nat, patlen as nat);
        }
        let left_pat = self.0 / pow;
        let right_pat = self.0 % pow;
        left_pat != right_pat
    }

    /// Whether the identifier is valid under the second rule: it does not read as a digit
    /// string written at least twice in a row.
    pub fn is_valid_p2(&self) -> (valid: bool)
        ensures
            valid == !is_repeated(self.0 as nat),
    {
        let s = decimal_digits(self.0);
        let n = s.len();
        let mut w: usize = 1;
        while w < n
            invariant
                1 <= w,
                n == s@.len(),
                s@ == written(self.0 as nat),
                forall|v: int| 0 < v < w ==> !repeats_every(s@, v),
            decreases n - w,
        {
            if is_made_of_blocks(&s, w) {
                return false;
            }
            w += 1;
        }
        true
    }
}

/// The identifiers from `first` to `last`, both included.
pub open spec fn ids_between(first: u64, last: u64) -> Seq<u64> {
    if first <= last {
        Seq::new((last - first + 1) as nat, |i: int| (first + i) as u64)
    } else {
        Seq::empty()
    }
}

/// A range of identifiers that hands them out in ascending order, such as `11-22`.
#[derive(Debug, Clone, Copy)]
pub struct IdRange {
    first: Id,
    last: Id,
}

impl View for IdRange {
    type V = Seq<u64>;

    /// The identifiers that the range has yet to hand out, in order.
    closed spec fn view(&self) -> Seq<u64> {
        ids_between(self.first.0, self.last.0)
    }
}

impl IdRange {
    /// The range from `first` to `last`, both included.
    pub fn new(first: Id, last: Id) -> (range: Self)
        requires
            first.0 <= last.0,
        ensures
            range@ == ids_between(first.0, last.0),
    {
        Self { first, last }
    }

    /// Hands out the next identifier of the range, or nothing once they are all out.
    pub fn next(&mut self) -> (item: Option<Id>)
        ensures
            old(self)@.len() == 0 ==> item.is_none() && final(self)@ == old(self)@,
            old(self)@.len() > 0 ==> item == Some(Id(old(self)@[0])) && final(self)@ == old(
                self,
            )@.skip(1),
    {
        if self.first.0 > self.last.0 {
            None
        } else {
            let id = self.first;
            if self.first.0 == u64::MAX {
                self.first = Id(1);
                self.last = Id(0);
            } else {
                self.first = Id(self.first.0 + 1);
            }
            Some(id)
        }
    }
}

/// The byte `,`, which stands between two ranges.
pub const COMMA: u8 = 0x2c;

/// The byte `-`, which stands between the two ends of a range.
pub const DASH: u8 = 0x2d;

/// Whether `text` is an unsigned number in base ten that fits in 64 bits.
pub open spec fn is_id(text: Seq<u8>) -> bool {
    is_unsigned(text) && unsigned_value(text) <= u64::MAX
}

/// The two ends of the range that `text` names: what stands before the first dash and what
/// stands between it and the next one, if any, both of them identifiers and the first no
/// larger than the second. Nothing when `text` is not of that form.
pub open spec fn range_of(text: Seq<u8>) -> Option<(u64, u64)> {
    let parts = split_on(text, DASH);
    if parts.len() >= 2 && is_id(parts[0]) && is_id(parts[1]) && unsigned_value(parts[0])
        <= unsigned_value(parts[1]) {
        Some((unsigned_value(parts[0]) as u64, unsigned_value(parts[1]) as u64))
    } else {
        None
    }
}

/// Whether `parsed` is what reading the entries `entries` as ranges gives: the ranges, one for
/// each entry, or the position of the first entry that is not a range.
pub open spec fn reads_as(entries: Seq<Seq<u8>>, parsed: Result<Vec<IdRange>, Malformed>) -> bool {
    match parsed {
        Ok(ranges) => {
            &&& ranges@.len() == entries.len()
            &&& forall|k: int|
                0 <= k < entries.len() ==> range_of(#[trigger] entries[k]).is_some()
                    && ranges@[k]@ == ids_between(
                    range_of(entries[k]).unwrap().0,
                    range_of(entries[k]).unwrap().1,
                )
        },
        Err(Malformed { at }) => {
            &&& at < entries.len()
            &&& range_of(entries[at as int]).is_none()
            &&& forall|k: int| 0 <= k < at ==> range_of(#[trigger] entries[k]).is_some()
        },
    }
}

/// What `str::trim` makes of a text: the text without the white space at its two ends.
pub uninterp spec fn trimmed(text: Seq<char>) -> Seq<char>;

/// `str::trim` from std, which returns the part of the text that is left when the white space
/// at its start and at its end is taken away. The result is a function of the text alone.
#[verifier::external_body]
fn trim(text: &str) -> (inner: &str)
    ensures
        inner@ == trimmed(text@),
{
    text.trim()
}

/// Reads one range.
fn parse_range(text: &[u8]) -> (parsed: Option<IdRange>)
    ensures
        match parsed {
            Some(range) => range_of(text@).is_some() && range@ == ids_between(
                range_of(text@).unwrap().0,
                range_of(text@).unwrap().1,
            ),
            None => range_of(text@).is_none(),
        },
{
    let parts = split(text, DASH);
    let first = match parse_unsigned(parts[0], u64::MAX) {
        Some(first) => first,
        None => {
            return None;
        },
    };
    if parts.len() < 2 {
        return None;
    }
    let last = match parse_unsigned(parts[1], u64::MAX) {
        Some(last) => last,
        None => {
            return None;
        },
    };
    if first > last {
        return None;
    }
    Some(IdRange::new(Id(first), Id(last)))
}

/// Reads the ranges that `text` lists with commas between them.
pub fn parse_ranges(text: &str) -> (parsed: Result<Vec<IdRange>, Malformed>)
    ensures
        reads_as(split_on(text.spec_bytes(), COMMA), parsed),
{
    let entries = split(text.as_bytes(), COMMA);
    let ghost texts = split_on(text.spec_bytes(), COMMA);
    let mut ranges: Vec<IdRange> = Vec::new();
    let mut i: usize = 0;
    while i < entries.len()
        invariant
            i <= entries@.len(),
            contents(entries@) == texts,
            texts == split_on(text.spec_bytes(), COMMA),
            ranges@.len() == i,
            forall|k: int|
                0 <= k < i ==> range_of(#[trigger] texts[k]).is_some() && ranges@[k]@
                    == ids_between(range_of(texts[k]).unwrap().0, range_of(texts[k]).unwrap().1),
        decreases entries@.len() - i,
    {
        match parse_range(entries[i]) {
            Some(range) => {
                ranges.push(range);
            },
            None => {
                return Err(Malformed { at: i });
            },
        }
        i += 1;
    }
    Ok(ranges)
}

/// Reads the ranges that `content` lists with commas between them, after the white space at
/// the two ends of `content` is taken away.
pub fn read_input(content: &str) -> (parsed: Result<Vec<IdRange>, Malformed>)
    ensures
        reads_as(split_on(encode_utf8(trimmed(content@)), COMMA), parsed),
{
    parse_ranges(trim(content))
}

/// The rule that an identifier is held to.
#[derive(Debug, Clone, Copy, PartialEq, Eq, Structural)]
pub enum Rule {
    /// No digit string written twice in a row.
    First,
    /// No digit string written at least twice in a row.
    Second,
}

/// Whether `id` breaks `rule`.
pub open spec fn breaks(rule: Rule, id: u64) -> bool {
    match rule {
        Rule::First => is_doubled(id as nat),
        Rule::Second => is_repeated(id as nat),
    }
}

/// The sum of the identifiers of `ids` that break `rule`.
pub open spec fn invalid_sum(ids: Seq<u64>, rule: Rule) -> nat
    decreases ids.len(),
{
    if ids.len() == 0 {
        0
    } else {
        invalid_sum(ids.drop_last(), rule) + if breaks(rule, ids.last()) {
            ids.last() as nat
        } else {
            0nat
        }
    }
}

/// The sum of the identifiers of all of `ranges` that break `rule`.
pub open spec fn invalid_total(ranges: Seq<IdRange>, rule: Rule) -> nat
    decreases ranges.len(),
{
    if ranges.len() == 0 {
        0
    } else {
        invalid_total(ranges.drop_last(), rule) + invalid_sum(ranges.last()@, rule)
    }
}

/// More identifiers add up to no less.
proof fn lemma_invalid_sum_grows(ids: Seq<u64>, rule: Rule, k: int)
    requires
        0 <= k <= ids.len(),
    ensures
        invalid_sum(ids.take(k), rule) <= invalid_sum(ids, rule),
    decreases ids.len() - k,
{
    if k < ids.len() {
        lemma_invalid_sum_grows(ids.drop_last(), rule, k);
        assert(ids.drop_last().take(k) == ids.take(k));
    } else {
        assert(ids.take(k) == ids);
    }
}

/// More ranges add up to no less.
proof fn lemma_invalid_total_grows(ranges: Seq<IdRange>, rule: Rule, k: int)
    requires
        0 <= k <= ranges.len(),
    ensures
        invalid_total(ranges.take(k), rule) <= invalid_total(ranges, rule),
    decreases ranges.len() - k,
{
    if k < ranges.len() {
        lemma_invalid_total_grows(ranges.drop_last(), rule, k);
        assert(ranges.drop_last().take(k) == ranges.take(k));
    } else {
        assert(ranges.take(k) == ranges);
    }
}

/// The sum of the identifiers of `ranges` that break `rule`, or nothing when it does not fit in
/// 64 bits.
pub fn sum_invalid(ranges: &Vec<IdRange>, rule: Rule) -> (total: Option<u64>)
    ensures
        total == if invalid_total(ranges@, rule) <= u64::MAX {
            Some(invalid_total(ranges@, rule) as u64)
        } else {
            None
        },
{
    let ghost all = ranges@;
    let mut total_invalid_ids: u64 = 0;
    let mut i: usize = 0;
    while i < ranges.len()
        invariant
            i <= all.len(),
            all == ranges@,
            total_invalid_ids == invalid_total(all.take(i as int), rule),
        decreases all.len() - i,
    {
        let mut range = ranges[i];
        let ghost ids = range@;
        let ghost before = total_invalid_ids;
        let ghost mut seen: int = 0;
        proof {
            assert(all.take(i + 1).drop_last() == all.take(i as int));
            lemma_invalid_total_grows(all, rule, i + 1);
        }
        loop
            invariant
                0 <= seen <= ids.len(),
                range@ == ids.skip(seen),
                total_invalid_ids == before + invalid_sum(ids.take(seen), rule),
                before + invalid_sum(ids, rule) == invalid_total(all.take(i + 1), rule),
                invalid_total(all.take(i + 1), rule) <= invalid_total(all, rule),
                all == ranges@,
            ensures
                total_invalid_ids == invalid_total(all.take(i + 1), rule),
            decreases ids.len() - seen,
        {
            let id = match range.next() {
                Some(id) => id,
                None => {
                    assert(ids.take(seen) == ids);
                    break ;
                },
            };
            proof {
                assert(ids.take(seen + 1).drop_last() == ids.take(seen));
                lemma_invalid_sum_grows(ids, rule, seen + 1);
                seen = seen + 1;
            }
            let valid = match rule {
                Rule::First => id.is_valid(),
                Rule::Second => id.is_valid_p2(),
            };
            if !valid {
                total_invalid_ids = match total_invalid_ids.checked_add(id.0) {
                    Some(sum) => sum,
                    None => {
                        return None;
                    },
                };
            }
        }
        i += 1;
    }
    assert(all.take(i as int) == all);
    Some(total_invalid_ids)
}

/// The two answers for `ranges`: the sum of their identifiers that break the first rule, and
/// the sum of those that break the second. Nothing when either does not fit in 64 bits.
pub fn solve(ranges: &Vec<IdRange>) -> (answers: Option<(u64, u64)>)
    ensures
        answers == if invalid_total(ranges@, Rule::First) <= u64::MAX && invalid_total(
            ranges@,
            Rule::Second,
        ) <= u64::MAX {
            Some(
                (
                    invalid_total(ranges@, Rule::First) as u64,
                    invalid_total(ranges@, Rule::Second) as u64,
                ),
            )
        } else {
            None
        },
{
    let first = sum_invalid(ranges, Rule::First);
    let second = sum_invalid(ranges, Rule::Second);
    match (first, second) {
        (Some(first), Some(second)) => Some((first, second)),
        _ => None,
    }
}

} // verus!
