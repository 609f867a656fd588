//! What holds of scientific notation as a whole.

use crate::decimal;
use crate::decimal::power_of_ten;
use crate::scientific;
use crate::scientific::{
    exponent,
    exponent_up_to,
    least_with_exponent,
    nearest_double,
    nearest_even,
    notation,
    rounded,
    sci_notation,
    spacing,
    text_of,
    units_per_one,
};
use vstd::prelude::*;

verus! {

/// A number is never written longer than its digits.
pub proof fn law_never_longer_than_digits(n: nat)
    ensures
        sci_notation(n).len() <= decimal::decimal(n).len(),
{
}

proof fn lemma_decimal_len(n: nat)
    ensures
        decimal::decimal(n).len() >= 1,
        n < 1000 ==> decimal::decimal(n).len() <= 3,
        n >= 3 ==> decimal::decimal(n).len() + 2 <= n,
        n >= 10 ==> decimal::decimal(n).len() + 8 <= n,
    decreases n,
{
    reveal_with_fuel(decimal::decimal, 4);
    if n >= 100 {
        lemma_decimal_len(n / 10);
    }
}

/// A number below a thousand stays as it is.
pub proof fn law_small_numbers_stay(n: nat)
    requires
        n < 1000,
    ensures
        sci_notation(n) == decimal::decimal(n),
{
    let w = notation(n);
    lemma_decimal_len(n);
    lemma_decimal_len(w.exponent);
    lemma_decimal_len((w.hundredths / 100) as nat);
}

proof fn lemma_exact(a: int, b: int)
    requires
        b > 0,
    ensures
        nearest_even(a * b, b) == a,
{
    vstd::arithmetic::div_mod::lemma_fundamental_div_mod_converse(a * b, b, a, 0);
}

proof fn lemma_exponent_of_multiple(n: int, k: nat, from: nat)
    requires
        k <= from <= 19,
        power_of_ten(k) <= n <= 9 * power_of_ten(k),
    ensures
        exponent_up_to(n, from) == k,
    decreases from,
{
    reveal_with_fuel(power_of_ten, 20);
    if k < from {
        lemma_exponent_of_multiple(n, k, (from - 1) as nat);
    }
}

proof fn lemma_digits_of_multiple(c: nat, k: nat)
    requires
        1 <= c <= 9,
    ensures
        decimal::decimal(c * power_of_ten(k)).len() == k + 1,
        power_of_ten(k) <= c * power_of_ten(k) <= 9 * power_of_ten(k),
        power_of_ten(k) >= 1,
    decreases k,
{
    if k == 0 {
        assert(c * 1 == c) by (nonlinear_arith);
        assert(power_of_ten(0) == 1);
    } else {
        let p = power_of_ten((k - 1) as nat);
        lemma_digits_of_multiple(c, (k - 1) as nat);
        assert(c * (10 * p) == 10 * (c * p)) by (nonlinear_arith);
    }
}

#[verifier::spinoff_prover]
#[verifier::rlimit(40)]
proof fn lemma_multiple_is_double(c: nat, k: nat)
    requires
        1 <= c <= 9,
        c * power_of_ten(k) <= u64::MAX,
    ensures
        nearest_double(c * power_of_ten(k)) == c * power_of_ten(k),
        k <= 19,
{
    let n = c * power_of_ten(k);
    lemma_digits_of_multiple(c, k);
    if k >= 20 {
        lemma_power_grows(20, k);
        reveal_with_fuel(power_of_ten, 21);
    }
    reveal_with_fuel(power_of_ten, 20);
    reveal_with_fuel(spacing, 13);
    let gap = spacing(n);
    let p = power_of_ten(k);
    if k == 16 {
        assert(n == c * 10_000_000_000_000_000) by (nonlinear_arith)
            requires
                n == c * p,
                p == 10_000_000_000_000_000,
        ;
        assert(gap == 2 || gap == 4 || gap == 8 || gap == 16);
        assert(n % 2 == 0 && n % 4 == 0 && n % 8 == 0 && n % 16 == 0);
    } else if k == 17 {
        assert(n == c * 100_000_000_000_000_000) by (nonlinear_arith)
            requires
                n == c * p,
                p == 100_000_000_000_000_000,
        ;
        assert(gap == 16 || gap == 32 || gap == 64 || gap == 128);
        assert(n % 16 == 0 && n % 32 == 0 && n % 64 == 0 && n % 128 == 0);
    } else if k == 18 {
        assert(n == c * 1_000_000_000_000_000_000) by (nonlinear_arith)
            requires
                n == c * p,
                p == 1_000_000_000_000_000_000,
        ;
        assert(gap == 128 || gap == 256 || gap == 512 || gap == 1024);
        assert(n % 128 == 0 && n % 256 == 0 && n % 512 == 0 && n % 1024 == 0);
    } else if k == 19 {
        assert(n == c * 10_000_000_000_000_000_000) by (nonlinear_arith)
            requires
                n == c * p,
                p == 10_000_000_000_000_000_000,
        ;
        assert(gap == 2048);
        assert(n % 2048 == 0);
    } else {
        assert(gap == 1 && n % 1 == 0);
    }
    assert((n / gap) * gap == n) by (nonlinear_arith)
        requires
            n % gap == 0,
            gap > 0,
    ;
    assert(nearest_even(n as int, gap as int) == n / gap);
}

proof fn lemma_power_grows(j: nat, k: nat)
    requires
        j <= k,
    ensures
        1 <= power_of_ten(j) <= power_of_ten(k),
    decreases k,
{
    if j < k {
        lemma_power_grows(j, (k - 1) as nat);
    } else if k > 0 {
        lemma_power_grows((k - 1) as nat, (k - 1) as nat);
    }
}

/// A single digit times a power of ten, from a thousand up, is written as that digit, an
/// `e`, and the power.
pub proof fn law_a_digit_and_zeros(c: nat, k: nat)
    requires
        1 <= c <= 9,
        3 <= k,
    ensures
        sci_notation(c * power_of_ten(k)) == seq![decimal::digit(c as int), 'e']
            + decimal::decimal(k),
{
    let d = power_of_ten(k) as int;
    let n = c * power_of_ten(k);
    lemma_digits_of_multiple(c, k);
    lemma_decimal_len(k);
    if n <= u64::MAX {
        lemma_multiple_is_double(c, k);
        lemma_exponent_of_multiple(n as int, k, 19);
        let one = units_per_one(n as int, d);
        assert(n * one == (c * one) * d) by (nonlinear_arith)
            requires
                n == c * d,
        ;
        lemma_exact(c * one, d);
        lemma_exact(c as int, one);
    } else {
        lemma_exact(c as int, d);
    }
    let w = notation(n);
    assert(w.hundredths == 100 * c && w.is_whole && w.exponent == k);
    assert(decimal::decimal(c) == seq![decimal::digit(c as int)]);
    assert(text_of(w) == seq![decimal::digit(c as int), 'e'] + decimal::decimal(k));
}

/// A power of ten from a thousand up is written as one with the power as its exponent.
pub proof fn law_powers_of_ten(k: nat)
    requires
        3 <= k,
    ensures
        sci_notation(power_of_ten(k)) == seq!['1', 'e'] + decimal::decimal(k),
{
    law_a_digit_and_zeros(1, k);
    assert(1 * power_of_ten(k) == power_of_ten(k)) by (nonlinear_arith);
}

proof fn lemma_exponent_bound(x: int, from: nat)
    requires
        from <= 19,
        from < 19 ==> x < least_with_exponent(from + 1),
        x <= 0x2_0000_0000_0000_0000,
    ensures
        exponent_up_to(x, from) <= 19,
        x < 10 * power_of_ten(exponent_up_to(x, from)),
    decreases from,
{
    reveal_with_fuel(power_of_ten, 20);
    if from > 0 && x < least_with_exponent(from) {
        lemma_exponent_bound(x, (from - 1) as nat);
    }
}

proof fn lemma_nearest_double(n: nat)
    requires
        n <= u64::MAX,
    ensures
        -n <= (nearest_double(n) - n) * 0x20_0000_0000_0000 <= n,
{
    scientific::lemma_spacing(n);
    let gap = spacing(n) as int;
    scientific::lemma_nearest(n as int, gap);
    if gap == 1 {
        lemma_exact(n as int, 1);
        assert(n * 1 == n) by (nonlinear_arith);
        assert(nearest_double(n) == n) by {
            assert(nearest_even(n as int, 1) * 1 == nearest_even(n as int, 1)) by (nonlinear_arith);
        }
    }
}

/// What the errors of three roundings amount to.
proof fn lemma_errors(n: int, x: int, mantissa: int, hundredths: int, one: int, d: int)
    requires
        d >= 1,
        one >= 0x2_0000_0000_0000,
        -n <= (x - n) * 0x20_0000_0000_0000 <= n,
        0 <= n <= 20 * d,
        -d <= 2 * (mantissa * d - x * one) <= d,
        -one <= 2 * (hundredths * one - 100 * mantissa) <= one,
    ensures
        -501 * d <= 1000 * (hundredths * d - 100 * n) <= 501 * d,
{
    let e1 = x - n;
    let e2 = mantissa * d - x * one;
    let e3 = hundredths * one - 100 * mantissa;
    let p = d * one;
    let a = hundredths * d - 100 * n;
    assert(a * one == d * e3 + 100 * e2 + 100 * (one * e1)) by (nonlinear_arith)
        requires
            a == hundredths * d - 100 * n,
            e1 == x - n,
            e2 == mantissa * d - x * one,
            e3 == hundredths * one - 100 * mantissa,
    ;
    assert(-p <= 2 * (d * e3) <= p) by (nonlinear_arith)
        requires
            p == d * one,
            -one <= 2 * e3 <= one,
            d >= 1,
    ;
    assert(-20 * p <= (one * e1) * 0x20_0000_0000_0000 <= 20 * p) by (nonlinear_arith)
        requires
            p == d * one,
            -20 * d <= e1 * 0x20_0000_0000_0000 <= 20 * d,
            one >= 1,
    ;
    assert(d * 0x2_0000_0000_0000 <= p) by (nonlinear_arith)
        requires
            p == d * one,
            one >= 0x2_0000_0000_0000,
            d >= 1,
    ;
    assert(-501 * p <= 1000 * (a * one) <= 501 * p);
    assert(-501 * d <= 1000 * a <= 501 * d) by (nonlinear_arith)
        requires
            -501 * p <= 1000 * (a * one) <= 501 * p,
            p == d * one,
            one >= 1,
    ;
}

proof fn lemma_rounded(mantissa: int, one: int, k: nat)
    requires
        one > 0,
    ensures
        -one <= 2 * (rounded(mantissa, one, k).hundredths * one - 100 * mantissa) <= one,
{
    let whole = nearest_even(mantissa, one);
    scientific::lemma_nearest(100 * mantissa, one);
    assert((100 * whole) * one == 100 * (whole * one)) by (nonlinear_arith);
}

/// The mantissa that is written, times its power of ten, is within 0.00501 of that power
/// from the number.
pub proof fn law_what_is_written_is_near(n: nat)
    requires
        n > 0,
    ensures
        ({
            let w = notation(n);
            let d = power_of_ten(w.exponent);
            -501 * d <= 1000 * (w.hundredths * d - 100 * n) <= 501 * d
        }),
{
    let w = notation(n);
    let d = power_of_ten(w.exponent) as int;
    lemma_power_grows(0, w.exponent);
    if n <= u64::MAX {
        let x = nearest_double(n);
        lemma_nearest_double(n);
        lemma_exponent_bound(x, 19);
        let one = units_per_one(x, d);
        let mantissa = nearest_even(x * one, d);
        scientific::lemma_nearest(x * one, d);
        lemma_rounded(mantissa, one, w.exponent);
        lemma_errors(n as int, x, mantissa, w.hundredths, one, d);
    } else {
        lemma_rounded(n as int, d, w.exponent);
    }
}

/// A number of more than 64 bits is always written in scientific notation.
pub proof fn law_more_than_64_bits_are_in_scientific_notation(n: nat)
    requires
        n > u64::MAX,
    ensures
        sci_notation(n) == text_of(notation(n)),
{
    let w = notation(n);
    let digits = decimal::decimal(n);
    let d = power_of_ten(w.exponent) as int;
    let h = w.hundredths;
    decimal::law_digits_read_back(n);
    decimal::lemma_value_bound(digits);
    lemma_decimal_len(n);
    if digits.len() <= 19 {
        lemma_power_grows(digits.len(), 19);
        reveal_with_fuel(power_of_ten, 20);
    }
    lemma_power_grows(0, w.exponent);
    law_what_is_written_is_near(n);
    assert(n < 10 * d);
    assert(-1 < h < 1001) by (nonlinear_arith)
        requires
            -501 * d <= 1000 * (h * d - 100 * n) <= 501 * d,
            0 <= n < 10 * d,
            d >= 1,
    ;
    lemma_decimal_len(w.exponent);
    reveal_with_fuel(decimal::decimal, 2);
    assert(decimal::decimal((h / 100) as nat).len() <= 2);
}

proof fn lemma_exponent_reached(x: int, from: nat)
    requires
        from <= 19,
        x >= 1,
    ensures
        1000 * x >= 999 * power_of_ten(exponent_up_to(x, from)),
    decreases from,
{
    reveal_with_fuel(power_of_ten, 20);
    if from > 0 && x < least_with_exponent(from) {
        lemma_exponent_reached(x, (from - 1) as nat);
    }
}

proof fn lemma_as_many_digits(n: nat)
    requires
        n > 0,
    ensures
        power_of_ten((decimal::decimal(n).len() - 1) as nat) <= n < power_of_ten(
            decimal::decimal(n).len(),
        ),
    decreases n,
{
    reveal_with_fuel(power_of_ten, 2);
    if n >= 10 {
        lemma_as_many_digits(n / 10);
        assert(decimal::decimal(n).len() == decimal::decimal(n / 10).len() + 1);
    }
}

proof fn lemma_hundredths(n: int, h: int, d: int)
    requires
        d >= 1,
        -501 * d <= 1000 * (h * d - 100 * n) <= 501 * d,
        998 * d <= 1000 * n < 10001 * d,
    ensures
        100 <= h <= 1000,
{
    if h <= 99 {
        assert(h * d <= 99 * d) by (nonlinear_arith)
            requires
                h <= 99,
                d >= 1,
        ;
    }
    if h >= 1001 {
        assert(h * d >= 1001 * d) by (nonlinear_arith)
            requires
                h >= 1001,
                d >= 1,
        ;
    }
}

/// How far a number is from a whole mantissa, by how far its rounded mantissa is from it.
proof fn lemma_off(n: int, x: int, mantissa: int, whole: int, one: int, d: int)
    requires
        d >= 1,
        one >= 0x2_0000_0000_0000,
        -n <= (x - n) * 0x20_0000_0000_0000 <= n,
        0 <= n <= 20 * d,
        -d <= 2 * (mantissa * d - x * one) <= d,
    ensures
        -one < (whole * one - mantissa) * 1_000_000_000 < one ==> -101 * d <= 100_000_000_000 * (
        whole * d - n) <= 101 * d,
        (whole * one - mantissa) * 1_000_000_000 >= one ==> 100_000_000_000 * (whole * d - n) >= 99
            * d,
        (whole * one - mantissa) * 1_000_000_000 <= -one ==> 100_000_000_000 * (whole * d - n)
            <= -99 * d,
{
    let e1 = x - n;
    let e2 = mantissa * d - x * one;
    let q = whole * one - mantissa;
    let p = d * one;
    let a = whole * d - n;
    assert(a * one == d * q + e2 + one * e1) by (nonlinear_arith)
        requires
            a == whole * d - n,
            e1 == x - n,
            e2 == mantissa * d - x * one,
            q == whole * one - mantissa,
    ;
    assert(-20 * p <= (one * e1) * 0x20_0000_0000_0000 <= 20 * p) by (nonlinear_arith)
        requires
            p == d * one,
            -20 * d <= e1 * 0x20_0000_0000_0000 <= 20 * d,
            one >= 1,
    ;
    assert(d * 0x2_0000_0000_0000 <= p) by (nonlinear_arith)
        requires
            p == d * one,
            one >= 0x2_0000_0000_0000,
            d >= 1,
    ;
    if -one < q * 1_000_000_000 < one {
        assert(-p <= (d * q) * 1_000_000_000 <= p) by (nonlinear_arith)
            requires
                p == d * one,
                -one < q * 1_000_000_000 < one,
                d >= 1,
        ;
        assert(-101 * p <= 100_000_000_000 * (a * one) <= 101 * p);
        assert(-101 * d <= 100_000_000_000 * a <= 101 * d) by (nonlinear_arith)
            requires
                -101 * p <= 100_000_000_000 * (a * one) <= 101 * p,
                p == d * one,
                one >= 1,
        ;
    } else if q * 1_000_000_000 >= one {
        assert((d * q) * 1_000_000_000 >= p) by (nonlinear_arith)
            requires
                p == d * one,
                q * 1_000_000_000 >= one,
                d >= 1,
        ;
        assert(100_000_000_000 * (a * one) >= 99 * p);
        assert(100_000_000_000 * a >= 99 * d) by (nonlinear_arith)
            requires
                100_000_000_000 * (a * one) >= 99 * p,
                p == d * one,
                one >= 1,
        ;
    } else {
        assert((d * q) * 1_000_000_000 <= -p) by (nonlinear_arith)
            requires
                p == d * one,
                q * 1_000_000_000 <= -one,
                d >= 1,
        ;
        assert(100_000_000_000 * (a * one) <= -99 * p);
        assert(100_000_000_000 * a <= -99 * d) by (nonlinear_arith)
            requires
                100_000_000_000 * (a * one) <= -99 * p,
                p == d * one,
                one >= 1,
        ;
    }
}

/// A mantissa whose hundredths make a whole number is rounded to that number.
proof fn lemma_whole_hundredths(mantissa: int, one: int, k: nat)
    requires
        one > 0,
        rounded(mantissa, one, k).hundredths % 100 == 0,
    ensures
        rounded(mantissa, one, k).hundredths == 100 * nearest_even(mantissa, one),
{
    let w = rounded(mantissa, one, k);
    let whole = nearest_even(mantissa, one);
    let c = w.hundredths / 100;
    scientific::lemma_nearest(mantissa, one);
    lemma_rounded(mantissa, one, k);
    assert((100 * c) * one == 100 * (c * one)) by (nonlinear_arith);
    if c > whole {
        assert(c * one >= whole * one + one) by (nonlinear_arith)
            requires
                c >= whole + 1,
                one > 0,
        ;
    } else if c < whole {
        assert(c * one <= whole * one - one) by (nonlinear_arith)
            requires
                c <= whole - 1,
                one > 0,
        ;
    }
}

/// A number is written with a mantissa from one to ten, an `e`, and an exponent, where that
/// is shorter than its digits, and else by its digits. The mantissa is the nearest with two
/// decimal places, up to a thousandth of the last place. It is written without them if and
/// only if the number is within a thousand-millionth of the power of ten, up to a hundredth
/// of that, from a whole mantissa.
pub proof fn law_how_a_number_is_written(n: nat) -> (res: (nat, nat, bool))
    requires
        n > 0,
    ensures
        ({
            let (hundredths, exponent, whole) = res;
            let d = power_of_ten(exponent);
            let short = decimal::decimal(hundredths / 100) + seq!['e'] + decimal::decimal(exponent);
            let long = decimal::decimal(hundredths / 100) + seq![
                '.',
                (0x30 + hundredths / 10 % 10) as char,
                (0x30 + hundredths % 10) as char,
                'e',
            ] + decimal::decimal(exponent);
            let text = if whole {
                short
            } else {
                long
            };
            &&& sci_notation(n) == (if text.len() < decimal::decimal(n).len() {
                text
            } else {
                decimal::decimal(n)
            })
            &&& 100 <= hundredths <= 1000
            &&& -501 * d <= 1000 * (hundredths * d - 100 * n) <= 501 * d
            &&& whole ==> hundredths % 100 == 0 && -101 * d <= 1_000_000_000 * (hundredths * d - 100
                * n) <= 101 * d
            &&& !whole && hundredths % 100 == 0 ==> 1_000_000_000 * (hundredths * d - 100 * n) >= 99
                * d || 1_000_000_000 * (hundredths * d - 100 * n) <= -99 * d
        }),
{
    let w = notation(n);
    let h = w.hundredths;
    let d = power_of_ten(w.exponent) as int;
    law_what_is_written_is_near(n);
    lemma_power_grows(0, w.exponent);
    if n <= u64::MAX {
        let x = nearest_double(n);
        lemma_nearest_double(n);
        lemma_exponent_bound(x, 19);
        lemma_exponent_reached(x, 19);
        let one = units_per_one(x, d);
        let mantissa = nearest_even(x * one, d);
        scientific::lemma_nearest(x * one, d);
        lemma_hundredths(n as int, h, d);
        lemma_rounded_off(n as int, x, mantissa, one, d, w.exponent);
    } else {
        lemma_as_many_digits(n);
        lemma_hundredths(n as int, h, d);
        if h % 100 == 0 {
            lemma_whole_hundredths(n as int, d, w.exponent);
            let whole = nearest_even(n as int, d);
            assert((100 * whole) * d == 100 * (whole * d)) by (nonlinear_arith);
        }
    }
    assert(scientific::mantissa_text(w) + seq!['e'] + decimal::decimal(w.exponent) == text_of(w));
    let tens = decimal::digit(h / 10 % 10);
    let ones = decimal::digit(h % 10);
    let front = decimal::decimal((h / 100) as nat);
    assert(front + seq!['.', tens, ones] + seq!['e'] + decimal::decimal(w.exponent) == front + seq![
        '.',
        tens,
        ones,
        'e',
    ] + decimal::decimal(w.exponent));
    (h as nat, w.exponent, w.is_whole)
}

proof fn lemma_rounded_off(n: int, x: int, mantissa: int, one: int, d: int, k: nat)
    requires
        d >= 1,
        one >= 0x2_0000_0000_0000,
        -n <= (x - n) * 0x20_0000_0000_0000 <= n,
        0 <= n <= 20 * d,
        -d <= 2 * (mantissa * d - x * one) <= d,
    ensures
        ({
            let w = rounded(mantissa, one, k);
            &&& w.is_whole ==> w.hundredths % 100 == 0 && -101 * d <= 1_000_000_000 * (w.hundredths
                * d - 100 * n) <= 101 * d
            &&& !w.is_whole && w.hundredths % 100 == 0 ==> 1_000_000_000 * (w.hundredths * d - 100
                * n) >= 99 * d || 1_000_000_000 * (w.hundredths * d - 100 * n) <= -99 * d
        }),
{
    let w = rounded(mantissa, one, k);
    let whole = nearest_even(mantissa, one);
    lemma_off(n, x, mantissa, whole, one, d);
    if w.hundredths % 100 == 0 {
        lemma_whole_hundredths(mantissa, one, k);
        assert((100 * whole) * d == 100 * (whole * d)) by (nonlinear_arith);
    }
}

/// A number of eight digits or more is always written in scientific notation.
pub proof fn law_eight_digits_are_in_scientific_notation(n: nat)
    requires
        n >= 10_000_000,
    ensures
        sci_notation(n).contains('e'),
        sci_notation(n).len() < decimal::decimal(n).len(),
{
    let (h, k, whole) = law_how_a_number_is_written(n);
    let d = power_of_ten(k) as int;
    let digits = decimal::decimal(n).len();
    lemma_as_many_digits(n);
    lemma_power_grows(0, k);
    assert(digits >= 8) by {
        reveal_with_fuel(decimal::decimal, 8);
    }
    reveal_with_fuel(decimal::decimal, 2);
    let front = decimal::decimal(h / 100);
    assert(front.len() <= 2);
    // The exponent has no more digits than there is room for.
    assert(1000 * (h * d) <= 100000 * n + 501 * d);
    assert(100 * d <= h * d) by (nonlinear_arith)
        requires
            h >= 100,
            d >= 1,
    ;
    assert(d <= 2 * n);
    if k > digits {
        lemma_power_grows(digits + 1, k);
        assert(power_of_ten(digits + 1) == 10 * power_of_ten(digits));
    }
    assert(k <= digits);
    lemma_decimal_len(k);
    assert(decimal::decimal(k).len() + 6 < digits) by {
        if k < 10 {
            assert(decimal::decimal(k).len() == 1);
        }
    }
    let s = sci_notation(n);
    let short = front + seq!['e'] + decimal::decimal(k);
    let long = front + seq![
        '.',
        (0x30 + h / 10 % 10) as char,
        (0x30 + h % 10) as char,
        'e',
    ] + decimal::decimal(k);
    assert(short[front.len() as int] == 'e');
    assert(long[front.len() as int + 3] == 'e');
}

} // verus!
