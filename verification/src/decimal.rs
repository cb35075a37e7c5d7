//! Numbers in base ten: powers of ten, digits and what they spell.

use vstd::prelude::*;

verus! {

/// Ten to the power `k`.
pub open spec fn ten_to(k: nat) -> nat
    decreases k,
{
    if k == 0 {
        1
    } else {
        10 * ten_to((k - 1) as nat)
    }
}

/// The number that the digits `d` spell in base ten, most significant digit first.
pub open spec fn number(d: Seq<u8>) -> nat
    decreases d.len(),
{
    if d.len() == 0 {
        0
    } else {
        number(d.drop_last()) * 10 + d.last() as nat
    }
}

/// How many digits it takes to write `n` in base ten; none for zero.
pub open spec fn digit_count(n: nat) -> nat
    decreases n,
{
    if n == 0 {
        0
    } else {
        1 + digit_count(n / 10)
    }
}

/// The digits of `n` in base ten, most significant first; none for zero.
pub open spec fn digits_of(n: nat) -> Seq<u8>
    decreases n,
{
    if n == 0 {
        Seq::empty()
    } else {
        digits_of(n / 10).push((n % 10) as u8)
    }
}

/// Digits spell a number below the power of ten of their count.
pub proof fn lemma_number_bound(d: Seq<u8>)
    requires
        forall|i: int| 0 <= i < d.len() ==> #[trigger] d[i] <= 9,
    ensures
        number(d) < ten_to(d.len()),
    decreases d.len(),
{
    if d.len() > 0 {
        lemma_number_bound(d.drop_last());
    }
}

/// Powers of ten are positive.
pub proof fn lemma_ten_to_positive(k: nat)
    ensures
        ten_to(k) >= 1,
    decreases k,
{
    if k > 0 {
        lemma_ten_to_positive((k - 1) as nat);
    }
}

/// The power of a sum is the product of the powers.
pub proof fn lemma_ten_to_adds(a: nat, b: nat)
    ensures
        ten_to(a + b) == ten_to(a) * ten_to(b),
    decreases b,
{
    if b == 0 {
        assert(ten_to(a) * 1 == ten_to(a));
    } else {
        lemma_ten_to_adds(a, (b - 1) as nat);
        assert(ten_to(a) * (10 * ten_to((b - 1) as nat)) == 10 * (ten_to(a) * ten_to(
            (b - 1) as nat,
        ))) by (nonlinear_arith);
    }
}

/// Powers of ten grow with the exponent.
pub proof fn lemma_ten_to_grows(a: nat, b: nat)
    requires
        a <= b,
    ensures
        ten_to(a) <= ten_to(b),
    decreases b - a,
{
    if a < b {
        lemma_ten_to_grows(a, (b - 1) as nat);
    }
}

/// A positive number lies between the two powers of ten that its digit count names.
pub proof fn lemma_digit_count_bounds(n: nat)
    requires
        n > 0,
    ensures
        digit_count(n) >= 1,
        ten_to((digit_count(n) - 1) as nat) <= n < ten_to(digit_count(n)),
    decreases n,
{
    reveal_with_fuel(digit_count, 2);
    reveal_with_fuel(ten_to, 2);
    if n >= 10 {
        lemma_digit_count_bounds(n / 10);
    }
}

/// A number between two neighbouring powers of ten has as many digits as the upper one names.
pub proof fn lemma_digit_count_is(n: nat, k: nat)
    requires
        k >= 1,
        ten_to((k - 1) as nat) <= n < ten_to(k),
    ensures
        digit_count(n) == k,
    decreases k,
{
    lemma_ten_to_positive((k - 1) as nat);
    if k == 1 {
        assert(ten_to(1) == 10) by {
            reveal_with_fuel(ten_to, 2);
        }
        assert(digit_count(n / 10) == 0);
    } else {
        lemma_digit_count_is(n / 10, (k - 1) as nat);
    }
}

/// The power of ten with exponent `e`.
pub fn pow10(e: u32) -> (p: u64)
    requires
        e <= 19,
    ensures
        p == ten_to(e as nat),
{
    let mut p: u64 = 1;
    let mut i: u32 = 0;
    while i < e
        invariant
            i <= e <= 19,
            p == ten_to(i as nat),
        decreases e - i,
    {
        proof {
            lemma_ten_to_grows((i + 1) as nat, 19);
            assert(ten_to(19) == 10_000_000_000_000_000_000) by {
                reveal_with_fuel(ten_to, 20);
            }
        }
        p = p * 10;
        i += 1;
    }
    p
}

} // verus!
