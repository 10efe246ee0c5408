//! The binary operators of a formula and what each of them computes.
//!
//! Every operation is exact: where the mathematical result is not an integer
//! that fits in 64 signed bits, there is no result.

use vstd::arithmetic::power::{lemma0_pow, lemma1_pow, lemma_pow0, pow};
use vstd::prelude::*;

verus! {

/// A value on the evaluation stack: the number, and whether it was pushed as
/// a digit of the formula (`true`) or computed by an operator (`false`).
pub type Slot = (i64, bool);

/// `v` as a machine integer, if it fits.
pub open spec fn exact(v: int) -> Option<i64> {
    if i64::MIN <= v <= i64::MAX {
        Some(v as i64)
    } else {
        None
    }
}

/// The distance of `v` from zero.
pub open spec fn magnitude(v: int) -> int {
    if v < 0 {
        -v
    } else {
        v
    }
}

/// `base^exponent`, if the exponent is not negative and the power fits.
pub open spec fn power_result(base: i64, exponent: i64) -> Option<i64> {
    if exponent < 0 {
        None
    } else {
        exact(pow(base as int, exponent as nat))
    }
}

/// Powers of minus one alternate between one and minus one.
proof fn lemma_pow_minus_one(e: nat)
    ensures
        pow(-1, e) == if e % 2 == 0 {
            1int
        } else {
            -1int
        },
    decreases e,
{
    reveal(pow);
    if e > 0 {
        lemma_pow_minus_one((e - 1) as nat);
    }
}

/// With a base of magnitude two or more, a higher power is at least twice as
/// far from zero as a lower one.
proof fn lemma_pow_doubles(b: int, k: nat, m: nat)
    requires
        b >= 2 || b <= -2,
        k < m,
    ensures
        magnitude(pow(b, k)) >= 1,
        magnitude(pow(b, m)) >= 2 * magnitude(pow(b, k)),
    decreases m,
{
    reveal(pow);
    let below = pow(b, (m - 1) as nat);
    assert(pow(b, m) == b * below);
    if k == 0 {
        lemma_pow0(b);
    }
    if m - 1 > k {
        lemma_pow_doubles(b, k, (m - 1) as nat);
    } else if k > 0 {
        lemma_pow_doubles(b, (k - 1) as nat, k);
    }
    assert(magnitude(b * below) >= 2 * magnitude(below)) by (nonlinear_arith)
        requires
            b >= 2 || b <= -2,
    ;
}

/// Exact exponentiation: `base^exponent`, or `None` where the exponent is
/// negative or the power does not fit.
pub fn checked_power(base: i64, exponent: i64) -> (result: Option<i64>)
    ensures
        result == power_result(base, exponent),
{
    if exponent < 0 {
        return None;
    }
    if base == 0 {
        proof {
            lemma_pow0(0);
            if exponent > 0 {
                lemma0_pow(exponent as nat);
            }
        }
        return Some(if exponent == 0 { 1 } else { 0 });
    }
    if base == 1 {
        proof {
            lemma1_pow(exponent as nat);
        }
        return Some(1);
    }
    if base == -1 {
        proof {
            lemma_pow_minus_one(exponent as nat);
        }
        return Some(if exponent % 2 == 0 { 1 } else { -1 });
    }
    let mut acc: i64 = 1;
    let mut n: i64 = 0;
    proof {
        lemma_pow0(base as int);
    }
    while n < exponent
        invariant
            0 <= n <= exponent,
            base >= 2 || base <= -2,
            acc == pow(base as int, n as nat),
        decreases exponent - n,
    {
        proof {
            reveal(pow);
            assert(pow(base as int, (n + 1) as nat) == base * pow(base as int, n as nat));
            assert(acc * base == base * acc) by (nonlinear_arith);
        }
        match acc.checked_mul(base) {
            Some(next) => {
                acc = next;
            },
            None => {
                proof {
                    if n + 1 < exponent {
                        lemma_pow_doubles(base as int, (n + 1) as nat, exponent as nat);
                    }
                }
                return None;
            },
        }
        n += 1;
    }
    Some(acc)
}

/// The number of decimal digits of `n`; zero has one.
pub open spec fn decimal_len(n: nat) -> nat
    decreases n,
{
    if n < 10 {
        1
    } else {
        1 + decimal_len(n / 10)
    }
}

/// The number written by the decimal digits of `a` followed by those of `b`.
pub open spec fn concat_decimal(a: nat, b: nat) -> nat {
    (a * pow(10, decimal_len(b)) + b) as nat
}

/// The concatenation of two numbers, if neither is negative and it fits.
pub open spec fn concat_result(a: i64, b: i64) -> Option<i64> {
    if a >= 0 && b >= 0 {
        exact(concat_decimal(a as nat, b as nat) as int)
    } else {
        None
    }
}

/// Exact decimal concatenation: the digits of `a` followed by those of `b`,
/// or `None` where one of them is negative or the number does not fit.
pub fn checked_concat(a: i64, b: i64) -> (result: Option<i64>)
    ensures
        result == concat_result(a, b),
{
    if a < 0 || b < 0 {
        return None;
    }
    let mut shift: u128 = 10;
    let mut rest: i64 = b;
    let ghost mut k: nat = 0;
    proof {
        reveal(pow);
        lemma_pow0(10);
    }
    while rest >= 10
        invariant
            0 <= rest <= b,
            shift == pow(10, k + 1),
            decimal_len(b as nat) == k + decimal_len(rest as nat),
            shift * rest <= 10 * b || (rest < 10 && shift == 10),
            shift >= 10,
        decreases rest,
    {
        proof {
            reveal(pow);
            assert(pow(10, k + 2) == 10 * pow(10, (k + 1) as nat));
            assert(shift * 10 <= shift * rest) by (nonlinear_arith)
                requires
                    rest >= 10,
                    shift >= 0,
            ;
            assert((shift * 10) * (rest / 10) <= shift * rest) by (nonlinear_arith)
                requires
                    rest >= 0,
                    shift >= 0,
            ;
            k = k + 1;
        }
        rest = rest / 10;
        shift = shift * 10;
    }
    assert(shift == pow(10, decimal_len(b as nat)));
    if a == 0 {
        assert(0 * shift == 0);
        return Some(b);
    }
    if shift > 0x7fff_ffff_ffff_ffff {
        assert(a * shift > i64::MAX) by (nonlinear_arith)
            requires
                a >= 1,
                shift > i64::MAX,
        ;
        return None;
    }
    assert(a * shift <= 0x7fff_ffff_ffff_ffff * 0x7fff_ffff_ffff_ffff) by (nonlinear_arith)
        requires
            0 <= a <= 0x7fff_ffff_ffff_ffff,
            0 <= shift <= 0x7fff_ffff_ffff_ffff,
    ;
    let total: u128 = (a as u128) * shift + (b as u128);
    if total > 0x7fff_ffff_ffff_ffff {
        None
    } else {
        Some(total as i64)
    }
}

/// What operator `op` makes of `lhs` and `rhs`, the operand pushed first and
/// the operand pushed last.
///
/// `+`, `-`, `*` are exact integer arithmetic; `/` is defined where the
/// divisor is not zero and leaves no remainder; `^` where the exponent is not
/// negative; `&` joins the decimal digits of two digits of the formula that
/// are not negative. Any other symbol has no result.
pub open spec fn operator_result(op: char, lhs: Slot, rhs: Slot) -> Option<i64> {
    let a = lhs.0;
    let b = rhs.0;
    if op == '+' {
        exact(a + b)
    } else if op == '-' {
        exact(a - b)
    } else if op == '*' {
        exact(a * b)
    } else if op == '/' {
        if b != 0 && a as int % b as int == 0 {
            exact(a as int / b as int)
        } else {
            None
        }
    } else if op == '^' {
        power_result(a, b)
    } else if op == '&' {
        if lhs.1 && rhs.1 {
            concat_result(a, b)
        } else {
            None
        }
    } else {
        None
    }
}

/// Applies operator `op` to `lhs` and `rhs`.
pub fn apply_operator(op: char, lhs: Slot, rhs: Slot) -> (result: Option<i64>)
    ensures
        result == operator_result(op, lhs, rhs),
{
    let a = lhs.0;
    let b = rhs.0;
    if op == '+' {
        a.checked_add(b)
    } else if op == '-' {
        a.checked_sub(b)
    } else if op == '*' {
        a.checked_mul(b)
    } else if op == '/' {
        match a.checked_rem_euclid(b) {
            Some(r) => {
                if r == 0 {
                    a.checked_div_euclid(b)
                } else {
                    None
                }
            },
            None => None,
        }
    } else if op == '^' {
        checked_power(a, b)
    } else if op == '&' {
        if lhs.1 && rhs.1 {
            checked_concat(a, b)
        } else {
            None
        }
    } else {
        None
    }
}

} // verus!
