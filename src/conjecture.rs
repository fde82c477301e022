use num::bigint::{BigInt, Sign};
use vstd::arithmetic::div_mod::*;
use vstd::arithmetic::power2::*;
use vstd::prelude::*;

verus! {

/// The number of integers checked by one job.
pub const BATCH_SIZE: u128 = 10000;

/// The first integer checked.
pub const FIRST_NUMBER: u128 = 1;

/// The value of little-endian base 2^32 digits.
pub open spec fn digits_value(d: Seq<u32>) -> nat
    decreases d.len(),
{
    if d.len() == 0 {
        0
    } else {
        (d[0] + 4294967296 * digits_value(d.drop_first())) as nat
    }
}

/// The binomial coefficient "n choose k", by Pascal's rule.
pub open spec fn binom(n: nat, k: nat) -> nat
    decreases n,
{
    if k == 0 {
        1
    } else if n == 0 {
        0
    } else {
        binom((n - 1) as nat, (k - 1) as nat) + binom((n - 1) as nat, k)
    }
}

/// How many times 2 divides `v`; zero for zero.
pub open spec fn factors_of_two(v: nat) -> nat
    decreases v,
{
    if v == 0 || v % 2 != 0 {
        0
    } else {
        1 + factors_of_two(v / 2)
    }
}

/// The number of ones in the binary representation of `v`.
pub open spec fn ones(v: nat) -> nat
    decreases v,
{
    if v == 0 {
        0
    } else {
        v % 2 + ones(v / 2)
    }
}

/// Whether `k` satisfies the checked property: 2 divides the central binomial
/// coefficient C(2k, k) exactly as many times as `k` has ones in binary.
pub open spec fn conjecture_holds(k: nat) -> bool {
    factors_of_two(binom(2 * k, k)) == ones(k)
}

/// A non-negative integer of any size, as little-endian base 2^32 digits.
/// Leading zero digits are allowed and do not change the value.
pub struct BigNat {
    pub digits: Vec<u32>,
}

impl BigNat {
    pub open spec fn value(&self) -> nat {
        digits_value(self.digits@)
    }

    pub fn zero() -> (r: BigNat)
        ensures
            r.value() == 0,
    {
        BigNat { digits: Vec::new() }
    }

    pub fn one() -> (r: BigNat)
        ensures
            r.value() == 1,
    {
        let r = BigNat { digits: vec![1u32] };
        proof {
            reveal_with_fuel(digits_value, 2);
        }
        r
    }
}

/// Relies on num's `From<u128> for BigInt` and `BigInt::to_u32_digits`: the
/// digits of `n`.
#[verifier::external_body]
fn big_from_u128(n: u128) -> (r: BigNat)
    ensures
        r.value() == n,
{
    BigNat { digits: BigInt::from(n).to_u32_digits().1 }
}

/// Relies on num's `Mul for BigInt`: the exact product.
#[verifier::external_body]
fn big_mul(a: &BigNat, b: &BigNat) -> (r: BigNat)
    ensures
        r.value() == a.value() * b.value(),
{
    let x = BigInt::from_slice(Sign::Plus, &a.digits);
    let y = BigInt::from_slice(Sign::Plus, &b.digits);
    BigNat { digits: (x * y).to_u32_digits().1 }
}

/// Relies on num's `Div for BigInt`: the quotient, which for non-negative
/// operands is the floor; it panics on a zero divisor.
#[verifier::external_body]
fn big_div(a: &BigNat, b: &BigNat) -> (r: BigNat)
    requires
        b.value() != 0,
    ensures
        r.value() == a.value() / b.value(),
{
    let x = BigInt::from_slice(Sign::Plus, &a.digits);
    let y = BigInt::from_slice(Sign::Plus, &b.digits);
    BigNat { digits: (x / y).to_u32_digits().1 }
}

/// Relies on num's `Rem for BigInt`: the remainder, which for non-negative
/// operands lies in `0..b`; it panics on a zero divisor.
#[verifier::external_body]
fn big_rem(a: &BigNat, b: &BigNat) -> (r: BigNat)
    requires
        b.value() != 0,
    ensures
        r.value() == a.value() % b.value(),
{
    let x = BigInt::from_slice(Sign::Plus, &a.digits);
    let y = BigInt::from_slice(Sign::Plus, &b.digits);
    BigNat { digits: (x % y).to_u32_digits().1 }
}

/// Relies on num's `PartialEq for BigInt`: equal exactly when the values are.
#[verifier::external_body]
fn big_eq(a: &BigNat, b: &BigNat) -> (r: bool)
    ensures
        r == (a.value() == b.value()),
{
    BigInt::from_slice(Sign::Plus, &a.digits) == BigInt::from_slice(Sign::Plus, &b.digits)
}

/// Whether `num` is even.
pub fn is_even(num: &BigNat) -> (r: bool)
    ensures
        r == (num.value() % 2 == 0),
{
    let two = big_from_u128(2);
    let rest = big_rem(num, &two);
    big_eq(&rest, &BigNat::zero())
}

proof fn lemma_digits_value_bound(d: Seq<u32>)
    ensures
        digits_value(d) < pow2(32 * d.len()),
    decreases d.len(),
{
    lemma2_to64();
    if d.len() > 0 {
        let rest = d.drop_first();
        lemma_digits_value_bound(rest);
        lemma_pow2_adds(32, 32 * rest.len());
        assert(32 + 32 * rest.len() == 32 * d.len());
        let p = pow2(32 * rest.len());
        let v = digits_value(rest);
        assert(d[0] + 4294967296 * v < 4294967296 * p) by (nonlinear_arith)
            requires
                v < p,
                d[0] < 4294967296,
        ;
    }
}

proof fn lemma_factors_of_two_bound(v: nat)
    requires
        v > 0,
    ensures
        pow2(factors_of_two(v)) <= v,
    decreases v,
{
    if v % 2 == 0 {
        lemma_factors_of_two_bound(v / 2);
        lemma_pow2_unfold(factors_of_two(v));
    } else {
        lemma2_to64();
    }
}

/// How many times 2 divides `num`; zero for zero.
pub fn count_factors_of_2(num: BigNat) -> (r: u128)
    ensures
        r == factors_of_two(num.value()),
{
    let n_digits = num.digits.len();
    proof {
        let v = num.value();
        if v > 0 {
            lemma_digits_value_bound(num.digits@);
            lemma_factors_of_two_bound(v);
            if factors_of_two(v) >= 32 * n_digits {
                if factors_of_two(v) > 32 * n_digits {
                    lemma_pow2_strictly_increases(32 * n_digits as nat, factors_of_two(v));
                }
            }
        }
    }
    let ghost total = factors_of_two(num.value());
    let zero = BigNat::zero();
    let two = big_from_u128(2);
    let mut count: u128 = 0;
    let mut div_num = num;
    while is_even(&div_num) && !big_eq(&div_num, &zero)
        invariant
            count + factors_of_two(div_num.value()) == total,
            total < 32 * (n_digits as nat) + 1,
            two.value() == 2,
            zero.value() == 0,
        decreases div_num.value(),
    {
        count = count + 1;
        div_num = big_div(&div_num, &two);
    }
    count
}

/// The multiplicative step between neighbouring binomial coefficients:
/// C(n, i) * (n - i) == C(n, i + 1) * (i + 1).
pub proof fn lemma_binom_step(n: nat, i: nat)
    ensures
        binom(n, i) * (n - i) == binom(n, i + 1) * (i + 1),
    decreases n,
{
    if n > 0 {
        let m = (n - 1) as nat;
        lemma_binom_step(m, i);
        let a = binom(m, i);
        let b = binom(m, i + 1);
        assert(binom(n, i + 1) == a + b);
        assert(binom(n, i + 1) * (i + 1) == (m + 1) * a) by (nonlinear_arith)
            requires
                binom(n, i + 1) == a + b,
                a * (m - i) == b * (i + 1),
        ;
        if i > 0 {
            lemma_binom_step(m, (i - 1) as nat);
            let c = binom(m, (i - 1) as nat);
            assert(binom(n, i) == c + a);
            assert(binom(n, i) * (n - i) == (m + 1) * a) by (nonlinear_arith)
                requires
                    binom(n, i) == c + a,
                    c * (m - (i - 1)) == a * i,
                    n == m + 1,
            ;
            assert(binom(n, i) * (n - i) == binom(n, i + 1) * (i + 1));
        } else {
            assert(binom(n, 0) == 1 && a == 1);
            assert(binom(n, 0) * (n - 0) == n);
            assert((m + 1) * a == n) by (nonlinear_arith)
                requires
                    a == 1,
                    n == m + 1,
            ;
        }
    } else {
        assert(binom(0, i + 1) == 0);
        if i == 0 {
            assert(binom(0, 0) * (0 - 0) == 0);
        } else {
            assert(binom(0, i) == 0);
            assert(binom(0, i) * (0 - i) == 0);
        }
    }
}

/// The binomial coefficient "n choose k", computed as
/// C(n, i + 1) = C(n, i) * (n - i) / (i + 1), each division exact.
pub fn n_c_k(n: u128, k: u128) -> (r: BigNat)
    requires
        k <= n as int + 1,
    ensures
        r.value() == binom(n as nat, k as nat),
{
    let mut res = BigNat::one();
    let mut i: u128 = 0;
    while i < k
        invariant
            i <= k <= n as int + 1,
            res.value() == binom(n as nat, i as nat),
        decreases k - i,
    {
        let factor = big_from_u128(n - i);
        let divisor = big_from_u128(i + 1);
        let product = big_mul(&res, &factor);
        proof {
            lemma_binom_step(n as nat, i as nat);
            lemma_div_multiples_vanish(binom(n as nat, (i + 1) as nat) as int, (i + 1) as int);
            assert(product.value() == binom(n as nat, (i + 1) as nat) * (i + 1));
        }
        res = big_div(&product, &divisor);
        i = i + 1;
    }
    res
}

proof fn lemma_ones_bound(v: nat)
    ensures
        ones(v) <= v,
    decreases v,
{
    if v > 0 {
        lemma_ones_bound(v / 2);
    }
}

/// The number of ones in the binary representation of `num`.
pub fn count_1s(num: u128) -> (r: u128)
    ensures
        r == ones(num as nat),
{
    let mut count: u128 = 0;
    let mut rest: u128 = num;
    proof {
        lemma_ones_bound(num as nat);
    }
    while rest > 0
        invariant
            count + ones(rest as nat) == ones(num as nat),
            ones(num as nat) <= num,
        decreases rest,
    {
        count = count + rest % 2;
        rest = rest / 2;
    }
    count
}

/// Whether `num` satisfies the checked property: the number of factors of two in
/// C(2 num, num) equals the number of ones of `num` in binary.
pub fn test_num(num: u128) -> (r: bool)
    requires
        num <= u128::MAX / 2,
    ensures
        r == conjecture_holds(num as nat),
{
    let choose = n_c_k(2 * num, num);
    let factors_of_2 = count_factors_of_2(choose);
    factors_of_2 == count_1s(num)
}

/// Checks `begin..end` in increasing order and stops at the first integer that
/// fails the property: that integer, or `None` when the whole range holds.
pub fn process_batch(begin: u128, end: u128) -> (r: Option<u128>)
    requires
        begin >= end || end - 1 <= u128::MAX / 2,
    ensures
        match r {
            None => forall|k: nat| begin <= k < end ==> conjecture_holds(k),
            Some(k) => {
                &&& begin <= k < end
                &&& !conjecture_holds(k as nat)
                &&& forall|j: nat| begin <= j < k ==> conjecture_holds(j)
            },
        },
{
    let mut k: u128 = begin;
    while k < end
        invariant
            begin <= k,
            begin < end ==> k <= end,
            begin >= end || end - 1 <= u128::MAX / 2,
            forall|j: nat| begin <= j < k ==> conjecture_holds(j),
        decreases end - k,
    {
        if !test_num(k) {
            return Some(k);
        }
        k = k + 1;
    }
    None
}

/// The end of the batch that follows the one ending at `end`: `BATCH_SIZE` further,
/// saturating at `u128::MAX` instead of wrapping.
pub fn next_batch_end(end: u128) -> (r: u128)
    ensures
        r == if end + BATCH_SIZE <= u128::MAX {
            end + BATCH_SIZE
        } else {
            u128::MAX as int
        },
{
    if u128::MAX - end >= BATCH_SIZE {
        end + BATCH_SIZE
    } else {
        u128::MAX
    }
}

} // verus!
