//! Fixed-length positional notation: the digits of a number in a given base,
//! least significant first, and the number that a digit sequence stands for.

use vstd::arithmetic::div_mod::{
    lemma_div_denominator, lemma_fundamental_div_mod, lemma_fundamental_div_mod_converse,
};
use vstd::arithmetic::power::{lemma_pow0, lemma_pow1, lemma_pow_adds, lemma_pow_positive, pow};
use vstd::prelude::*;

verus! {

/// The digit of weight `base^i` of `value`: `floor(value / base^i) mod base`.
pub open spec fn digit_at(value: nat, base: nat, i: nat) -> nat
    recommends
        base > 0,
{
    ((value as int / pow(base as int, i)) % (base as int)) as nat
}

/// The `length` lowest digits of `value` in base `base`, least significant
/// first. Base zero has no digits: the sequence is empty.
pub open spec fn digits_of(value: nat, base: nat, length: nat) -> Seq<nat> {
    if base == 0 {
        Seq::empty()
    } else {
        Seq::new(length, |i: int| digit_at(value, base, i as nat))
    }
}

/// The number that `digits` stands for in base `base`, least significant
/// digit first: the sum of `digits[i] * base^i`.
pub open spec fn encode(digits: Seq<nat>, base: nat) -> nat
    decreases digits.len(),
{
    if digits.len() == 0 {
        0
    } else {
        digits[0] + base * encode(digits.drop_first(), base)
    }
}

/// The machine digits of a sequence as natural numbers.
pub open spec fn as_nats(digits: Seq<usize>) -> Seq<nat> {
    digits.map_values(|d: usize| d as nat)
}

/// Every digit is below the base.
pub proof fn lemma_digit_below_base(value: nat, base: nat, i: nat)
    requires
        base > 0,
    ensures
        digit_at(value, base, i) < base,
{
    lemma_pow_positive(base as int, i);
}

/// Dropping the lowest digit is dividing by the base.
pub proof fn lemma_digits_shift(value: nat, base: nat, length: nat)
    requires
        base > 0,
        length > 0,
    ensures
        digits_of(value, base, length)[0] == value % base,
        digits_of(value, base, length).drop_first() == digits_of(
            value / base,
            (base),
            (length - 1) as nat,
        ),
{
    lemma_pow0(base as int);
    let all = digits_of(value, base, length);
    let rest = digits_of(value / base, base, (length - 1) as nat);
    assert forall|j: int| 0 <= j < rest.len() implies all.drop_first()[j] == rest[j] by {
        lemma_digit_shift(value, base, j as nat);
    }
    assert(all.drop_first() =~= rest);
}

/// The digit of weight `base^(i+1)` of `value` is the digit of weight
/// `base^i` of `value / base`.
pub proof fn lemma_digit_shift(value: nat, base: nat, i: nat)
    requires
        base > 0,
    ensures
        digit_at(value, base, i + 1) == digit_at(value / base, base, i),
{
    let b = base as int;
    lemma_pow_positive(b, i);
    lemma_pow_adds(b, 1, i);
    lemma_pow1(b);
    assert(pow(b, i + 1) == b * pow(b, i));
    lemma_div_denominator(value as int, b, pow(b, i));
}

/// Decoding then encoding gives the number back, for every number that
/// `length` digits can hold.
pub proof fn lemma_encode_digits(value: nat, base: nat, length: nat)
    requires
        value < pow(base as int, length),
    ensures
        encode(digits_of(value, base, length), base) == value,
    decreases length,
{
    let b = base as int;
    if length == 0 {
        lemma_pow0(b);
        assert(digits_of(value, base, length).len() == 0);
    } else {
        lemma_pow_adds(b, 1, (length - 1) as nat);
        lemma_pow1(b);
        assert(pow(b, length) == b * pow(b, (length - 1) as nat));
        if base == 0 {
            assert(pow(b, length) == 0);
        } else {
            lemma_fundamental_div_mod(value as int, b);
            lemma_pow_positive(b, (length - 1) as nat);
            let p = pow(b, (length - 1) as nat);
            assert(value / base < p) by (nonlinear_arith)
                requires
                    value < b * p,
                    b > 0,
                    b == base,
            ;
            lemma_digits_shift(value, base, length);
            lemma_encode_digits(value / base, base, (length - 1) as nat);
        }
    }
}

/// Two different numbers below `base^length` never have the same digits.
pub proof fn lemma_digits_injective(i: nat, j: nat, base: nat, length: nat)
    requires
        i < pow(base as int, length),
        j < pow(base as int, length),
        i != j,
    ensures
        digits_of(i, base, length) != digits_of(j, base, length),
{
    lemma_encode_digits(i, base, length);
    lemma_encode_digits(j, base, length);
}

/// A sequence of `length` digits, each below the base, stands for a number
/// below `base^length`, and that number has exactly these digits.
pub proof fn lemma_digits_of_encode(digits: Seq<nat>, base: nat)
    requires
        base > 0,
        forall|i: int| 0 <= i < digits.len() ==> digits[i] < base,
    ensures
        encode(digits, base) < pow(base as int, digits.len()),
        digits_of(encode(digits, base), base, digits.len()) == digits,
    decreases digits.len(),
{
    let b = base as int;
    let n = digits.len();
    if n == 0 {
        lemma_pow0(b);
        assert(digits_of(encode(digits, base), base, n) =~= digits);
    } else {
        let rest = digits.drop_first();
        let high = encode(rest, base);
        let p = pow(b, (n - 1) as nat);
        lemma_digits_of_encode(rest, base);
        lemma_pow_adds(b, 1, (n - 1) as nat);
        lemma_pow1(b);
        assert(pow(b, n) == b * p);
        assert(digits[0] + b * high < b * p) by (nonlinear_arith)
            requires
                digits[0] < b,
                high < p,
                0 <= high,
        ;
        assert(b * high == high * b) by (nonlinear_arith);
        lemma_fundamental_div_mod_converse(
            encode(digits, base) as int,
            b,
            high as int,
            digits[0] as int,
        );
        lemma_digits_shift(encode(digits, base), base, n);
        let found = digits_of(encode(digits, base), base, n);
        assert(found.drop_first() == rest);
        assert forall|i: int| 0 <= i < n implies found[i] == digits[i] by {
            if i > 0 {
                assert(found[i] == found.drop_first()[i - 1]);
                assert(digits[i] == rest[i - 1]);
            }
        }
        assert(found =~= digits);
    }
}

} // verus!
