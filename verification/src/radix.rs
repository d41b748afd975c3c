//! Digit strings as numbers. A sequence of digits in a radix spells a
//! number, the most significant digit first. Zero digits in front add
//! nothing to the number, yet they are kept when a string is carried from
//! one radix to another: each stays one zero digit.

use vstd::arithmetic::div_mod::lemma_fundamental_div_mod;
use vstd::arithmetic::div_mod::lemma_fundamental_div_mod_converse;
use vstd::prelude::*;

verus! {

/// Whether every digit is below the radix.
pub open spec fn digits_in(digits: Seq<nat>, radix: nat) -> bool {
    forall|i: int| 0 <= i < digits.len() ==> digits[i] < radix
}

/// The number that the digits spell in the radix.
pub open spec fn digits_value(digits: Seq<nat>, radix: nat) -> nat
    decreases digits.len(),
{
    if digits.len() == 0 {
        0
    } else {
        digits_value(digits.drop_last(), radix) * radix + digits.last()
    }
}

/// The digits of a number in a radix of 2 or more, without a zero in front;
/// zero has no digits.
pub open spec fn canonical_digits(n: nat, radix: nat) -> Seq<nat>
    decreases n,
    via canonical_digits_decreases
{
    if n == 0 || radix < 2 {
        Seq::empty()
    } else {
        canonical_digits(n / radix, radix).push(n % radix)
    }
}

#[via_fn]
proof fn canonical_digits_decreases(n: nat, radix: nat) {
    if n != 0 && radix >= 2 {
        lemma_quotient_smaller(n, radix);
    }
}

proof fn lemma_quotient_smaller(n: nat, radix: nat)
    requires
        n > 0,
        radix >= 2,
    ensures
        n / radix < n,
{
    lemma_fundamental_div_mod(n as int, radix as int);
    assert(n / radix < n) by (nonlinear_arith)
        requires
            n > 0,
            radix >= 2,
            n == radix * (n / radix) + (n % radix),
            0 <= n % radix,
            0 <= n / radix,
    ;
}

/// How many zero digits stand in front.
pub open spec fn leading_zeros(digits: Seq<nat>) -> nat
    decreases digits.len(),
{
    if digits.len() > 0 && digits[0] == 0 {
        1 + leading_zeros(digits.drop_first())
    } else {
        0
    }
}

/// So many zero digits.
pub open spec fn zeros(count: nat) -> Seq<nat> {
    Seq::new(count, |i: int| 0nat)
}

/// The digits in radix `to` that stand for the digits given in radix `from`:
/// as many zero digits as stood in front, then the digits of the number
/// that was spelt.
pub open spec fn convert(digits: Seq<nat>, from: nat, to: nat) -> Seq<nat> {
    zeros(leading_zeros(digits)) + canonical_digits(digits_value(digits, from), to)
}

/// The digits of a number lie below the radix, are there unless the number
/// is zero, and begin with a digit that is not zero.
pub proof fn lemma_canonical_digits_shape(n: nat, radix: nat)
    requires
        radix >= 2,
    ensures
        digits_in(canonical_digits(n, radix), radix),
        canonical_digits(n, radix).len() == 0 <==> n == 0,
        n > 0 ==> canonical_digits(n, radix)[0] != 0,
    decreases n,
{
    if n > 0 {
        lemma_quotient_smaller(n, radix);
        lemma_canonical_digits_shape(n / radix, radix);
        lemma_fundamental_div_mod(n as int, radix as int);
        let high = canonical_digits(n / radix, radix);
        if n / radix == 0 {
            assert(n % radix != 0) by (nonlinear_arith)
                requires
                    n > 0,
                    n / radix == 0,
                    n == radix * (n / radix) + (n % radix),
            ;
        }
    }
}

/// The digits of a number spell the number.
pub proof fn lemma_value_of_canonical(n: nat, radix: nat)
    requires
        radix >= 2,
    ensures
        digits_value(canonical_digits(n, radix), radix) == n,
    decreases n,
{
    if n > 0 {
        lemma_quotient_smaller(n, radix);
        lemma_value_of_canonical(n / radix, radix);
        let high = canonical_digits(n / radix, radix);
        assert(high.push(n % radix).drop_last() =~= high);
        lemma_fundamental_div_mod(n as int, radix as int);
        assert((n / radix) * radix + n % radix == n) by (nonlinear_arith)
            requires
                n == radix * (n / radix) + (n % radix),
        ;
    }
}

/// Zero digits spell zero.
pub proof fn lemma_value_of_zeros(count: nat, radix: nat)
    ensures
        digits_value(zeros(count), radix) == 0,
    decreases count,
{
    if count > 0 {
        assert(zeros(count).drop_last() =~= zeros((count - 1) as nat));
        lemma_value_of_zeros((count - 1) as nat, radix);
        assert(0 * radix == 0) by (nonlinear_arith);
    }
}

/// Zero digits in front add nothing to the number.
pub proof fn lemma_value_ignores_zeros(count: nat, digits: Seq<nat>, radix: nat)
    ensures
        digits_value(zeros(count) + digits, radix) == digits_value(digits, radix),
    decreases digits.len(),
{
    if digits.len() == 0 {
        assert(zeros(count) + digits =~= zeros(count));
        lemma_value_of_zeros(count, radix);
    } else {
        assert((zeros(count) + digits).drop_last() =~= zeros(count) + digits.drop_last());
        lemma_value_ignores_zeros(count, digits.drop_last(), radix);
    }
}

/// Digits that begin with a digit that is not zero spell a number that is
/// not zero.
pub proof fn lemma_value_positive(digits: Seq<nat>, radix: nat)
    requires
        radix >= 1,
        digits.len() > 0,
        digits[0] != 0,
    ensures
        digits_value(digits, radix) > 0,
    decreases digits.len(),
{
    if digits.len() > 1 {
        lemma_value_positive(digits.drop_last(), radix);
        let high = digits_value(digits.drop_last(), radix);
        assert(high * radix > 0) by (nonlinear_arith)
            requires
                high > 0,
                radix >= 1,
        ;
    } else {
        assert(digits.drop_last().len() == 0);
        assert(0 * radix == 0) by (nonlinear_arith);
    }
}

/// Digits below the radix that do not begin with a zero are the digits of
/// the number they spell.
pub proof fn lemma_canonical_of_value(digits: Seq<nat>, radix: nat)
    requires
        radix >= 2,
        digits_in(digits, radix),
        digits.len() > 0 ==> digits[0] != 0,
    ensures
        canonical_digits(digits_value(digits, radix), radix) == digits,
    decreases digits.len(),
{
    if digits.len() == 0 {
        assert(canonical_digits(0, radix) =~= digits);
    } else {
        let front = digits.drop_last();
        let high = digits_value(front, radix);
        let last = digits.last();
        let n = high * radix + last;
        lemma_canonical_of_value(front, radix);
        lemma_value_positive(digits, radix);
        lemma_fundamental_div_mod_converse(n as int, radix as int, high as int, last as int);
        assert(canonical_digits(n, radix) =~= digits);
    }
}

/// The zero digits in front can be counted off, and what follows them does
/// not begin with a zero.
pub proof fn lemma_leading_zeros_split(digits: Seq<nat>)
    ensures
        leading_zeros(digits) <= digits.len(),
        digits == zeros(leading_zeros(digits)) + digits.skip(leading_zeros(digits) as int),
        leading_zeros(digits) < digits.len() ==> digits[leading_zeros(digits) as int] != 0,
    decreases digits.len(),
{
    if digits.len() > 0 && digits[0] == 0 {
        let others = digits.drop_first();
        lemma_leading_zeros_split(others);
        let k = leading_zeros(others);
        let split = zeros(k + 1) + digits.skip(k + 1 as int);
        assert(split.len() == digits.len());
        assert forall|i: int| 0 <= i < digits.len() implies digits[i] == split[i] by {
            if i > 0 {
                assert(digits[i] == others[i - 1]);
                assert(others[i - 1] == (zeros(k) + others.skip(k as int))[i - 1]);
            }
        }
        assert(digits =~= split);
    } else {
        assert(digits =~= zeros(0) + digits.skip(0));
    }
}

/// Zero digits put in front of digits that do not begin with a zero are
/// all the zero digits in front.
pub proof fn lemma_leading_zeros_of_padded(count: nat, digits: Seq<nat>)
    requires
        digits.len() > 0 ==> digits[0] != 0,
    ensures
        leading_zeros(zeros(count) + digits) == count,
    decreases count,
{
    let all = zeros(count) + digits;
    if count > 0 {
        assert(all.drop_first() =~= zeros((count - 1) as nat) + digits);
        lemma_leading_zeros_of_padded((count - 1) as nat, digits);
    } else {
        assert(all =~= digits);
    }
}

/// Carrying digits to another radix gives digits of that radix, and
/// carrying those back gives the first digits again.
pub proof fn lemma_convert_round_trip(digits: Seq<nat>, from: nat, to: nat)
    requires
        from >= 2,
        to >= 2,
        digits_in(digits, from),
    ensures
        digits_in(convert(digits, from, to), to),
        convert(convert(digits, from, to), to, from) == digits,
{
    let count = leading_zeros(digits);
    let n = digits_value(digits, from);
    let body = canonical_digits(n, to);
    let there = convert(digits, from, to);
    lemma_canonical_digits_shape(n, to);
    assert(digits_in(there, to));
    lemma_leading_zeros_of_padded(count, body);
    lemma_value_ignores_zeros(count, body, to);
    lemma_value_of_canonical(n, to);
    assert(convert(there, to, from) == zeros(count) + canonical_digits(n, from));
    lemma_leading_zeros_split(digits);
    let tail = digits.skip(count as int);
    lemma_value_ignores_zeros(count, tail, from);
    lemma_canonical_of_value(tail, from);
}

} // verus!
