use vstd::prelude::*;

verus! {

/// Where a number stands against the sum of its proper divisors.
#[derive(Debug, PartialEq, Eq, Structural)]
pub enum Classification {
    Abundant,
    Perfect,
    Deficient,
}

/// The sum of the divisors of `n` among 1 to `k`.
pub open spec fn divisor_sum(n: nat, k: nat) -> nat
    decreases k,
{
    if k == 0 {
        0
    } else {
        divisor_sum(n, (k - 1) as nat) + if n % k == 0 {
            k
        } else {
            0
        }
    }
}

/// The sum of the proper divisors of `n`, for `n` at least 1.
pub open spec fn aliquot_sum(n: nat) -> nat {
    divisor_sum(n, n / 2)
}

/// The class of a positive number; none for zero.
pub open spec fn class_of(n: nat) -> Option<Classification> {
    if n == 0 {
        None
    } else if aliquot_sum(n) < n {
        Some(Classification::Deficient)
    } else if aliquot_sum(n) > n {
        Some(Classification::Abundant)
    } else {
        Some(Classification::Perfect)
    }
}

/// Classifies `num` by the sum of its proper divisors.
pub fn classify(num: u64) -> (r: Option<Classification>)
    ensures
        r == class_of(num as nat),
{
    if num == 0 {
        return None;
    }
    let half = num / 2;
    let mut sum: u128 = 0;
    let mut a: u64 = 1;
    while a <= half
        invariant
            1 <= a <= half + 1,
            half == num / 2,
            sum as nat == divisor_sum(num as nat, (a - 1) as nat),
            sum <= (a - 1) as int * num as int,
        decreases half + 1 - a,
    {
        assert((a - 1) as int * num as int + a <= 0xffff_ffff_ffff_ffff * 0xffff_ffff_ffff_ffff) by (nonlinear_arith)
            requires
                1 <= a <= num,
                num <= 0xffff_ffff_ffff_ffff,
        ;
        if num % a == 0 {
            sum = sum + a as u128;
        }
        assert(sum <= a as int * num as int) by (nonlinear_arith)
            requires
                sum <= (a - 1) as int * num as int + a,
                a <= num,
        ;
        a = a + 1;
    }
    let total = sum;
    if total < num as u128 {
        return Some(Classification::Deficient);
    }
    if total > num as u128 {
        return Some(Classification::Abundant);
    }
    Some(Classification::Perfect)
}

} // verus!
