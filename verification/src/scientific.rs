//! Scientific notation for large integers.
//!
//! Up to 64 bits the mantissa is a quotient of binary floating-point numbers with 53
//! significant bits. It is held here as a whole number of units, a unit being a negative
//! power of two. The mantissa of a greater number is exact before it is rounded.

use crate::decimal;
use crate::decimal::power_of_ten;
use crate::text;
use vstd::prelude::*;

verus! {

/// The whole number nearest to `num / den`; of two equally near, the even one.
pub open spec fn nearest_even(num: int, den: int) -> int {
    let below = num / den;
    let twice_rest = 2 * (num % den);
    if twice_rest < den || (twice_rest == den && below % 2 == 0) {
        below
    } else {
        below + 1
    }
}

/// The distance between neighbouring numbers of 53 significant bits at `n`.
pub open spec fn spacing(n: nat) -> nat
    decreases n,
{
    if n < 0x20_0000_0000_0000 {
        1
    } else {
        2 * spacing(n / 2)
    }
}

/// The number of 53 significant bits that is nearest to `n`.
pub open spec fn nearest_double(n: nat) -> int {
    nearest_even(n as int, spacing(n) as int) * spacing(n)
}

/// The least number of 53 significant bits whose logarithm to the base ten comes out no
/// less than `k`. Below ten to the fifteenth that is the power of ten itself; from there on
/// a logarithm of 53 significant bits is too coarse for a few numbers below it, and comes
/// out as `k`. The table is observed, not derived: it is what version 2.36 of the GNU C
/// library gives. For 18 and 19 a logarithm rounded to the nearest would give 3968 and
/// 38912; another C library may differ on those few numbers.
pub open spec fn least_with_exponent(k: nat) -> int {
    power_of_ten(k) - if k == 15 {
        2int
    } else if k == 16 {
        20
    } else if k == 17 {
        400
    } else if k == 18 {
        4096
    } else if k == 19 {
        40960
    } else {
        0
    }
}

/// The greatest exponent up to `k` that `x` reaches.
pub open spec fn exponent_up_to(x: int, k: nat) -> nat
    decreases k,
{
    if k == 0 || x >= least_with_exponent(k) {
        k
    } else {
        exponent_up_to(x, (k - 1) as nat)
    }
}

/// The whole part of the logarithm of `x` to the base ten as it comes out in 53 significant
/// bits. That is the exact whole part, except just below ten to the fifteenth and just below
/// each greater power of ten, where it is one more.
pub open spec fn exponent(x: int) -> nat {
    exponent_up_to(x, 19)
}

/// How many units make one in a quotient `x / d` that is less than sixteen.
pub open spec fn units_per_one(x: int, d: int) -> int {
    if x < d {
        0x20_0000_0000_0000
    } else if x < 2 * d {
        0x10_0000_0000_0000
    } else if x < 4 * d {
        0x8_0000_0000_0000
    } else if x < 8 * d {
        0x4_0000_0000_0000
    } else {
        0x2_0000_0000_0000
    }
}

/// A number as it is written: a mantissa in hundredths, shown with two decimal places or
/// as a whole number, and the power of ten that goes with it.
pub struct Notation {
    pub hundredths: int,
    pub is_whole: bool,
    pub exponent: nat,
}

/// The mantissa `mantissa / one`: whole where it is within a thousand-millionth of a whole
/// number, else rounded to two decimal places.
pub open spec fn rounded(mantissa: int, one: int, exponent: nat) -> Notation {
    let whole = nearest_even(mantissa, one);
    let off = if mantissa < whole * one {
        whole * one - mantissa
    } else {
        mantissa - whole * one
    };
    if off * 1_000_000_000 < one {
        Notation { hundredths: 100 * whole, is_whole: true, exponent }
    } else {
        Notation { hundredths: nearest_even(100 * mantissa, one), is_whole: false, exponent }
    }
}

/// How `n` is written. Up to 64 bits the mantissa is the quotient of two numbers of 53
/// significant bits; above, it is exact.
pub open spec fn notation(n: nat) -> Notation {
    if n <= u64::MAX {
        let x = nearest_double(n);
        let k = exponent(x);
        let d = power_of_ten(k) as int;
        let one = units_per_one(x, d);
        rounded(nearest_even(x * one, d), one, k)
    } else {
        let k = (decimal::decimal(n).len() - 1) as nat;
        rounded(n as int, power_of_ten(k) as int, k)
    }
}

/// The mantissa in words.
pub open spec fn mantissa_text(w: Notation) -> Seq<char> {
    let whole = decimal::decimal((w.hundredths / 100) as nat);
    if w.is_whole {
        whole
    } else {
        whole + seq![
            '.',
            decimal::digit(w.hundredths / 10 % 10),
            decimal::digit(w.hundredths % 10),
        ]
    }
}

/// The mantissa, an `e`, and the exponent.
pub open spec fn text_of(w: Notation) -> Seq<char> {
    mantissa_text(w) + seq!['e'] + decimal::decimal(w.exponent)
}

/// A number in scientific notation where that is shorter than its digits, else its digits.
pub open spec fn sci_notation(n: nat) -> Seq<char> {
    if n > 0 && text_of(notation(n)).len() < decimal::decimal(n).len() {
        text_of(notation(n))
    } else {
        decimal::decimal(n)
    }
}

fn round_to_even(num: u128, den: u128) -> (res: u128)
    requires
        0 < den <= 0x1_0000_0000_0000_0000,
        num <= 0x4000_0000_0000_0000_0000_0000_0000_0000,
    ensures
        res == nearest_even(num as int, den as int),
        res <= num + 1,
        res * den <= num + den,
{
    let below: u128 = num / den;
    let rest: u128 = num % den;
    proof {
        assert(num == below * den + rest && rest < den && below <= num) by (nonlinear_arith)
            requires
                0 < den,
                below == num / den,
                rest == num % den,
        ;
        assert((below + 1) * den == below * den + den) by (nonlinear_arith);
    }
    if 2 * rest < den || (2 * rest == den && below % 2 == 0) {
        below
    } else {
        below + 1
    }
}

/// Numbers of 53 significant bits are apart by one, or by a small part of themselves.
pub proof fn lemma_spacing(n: nat)
    ensures
        1 <= spacing(n),
        spacing(n) == 1 || spacing(n) * 0x10_0000_0000_0000 <= n,
    decreases n,
{
    if n >= 0x20_0000_0000_0000 {
        lemma_spacing(n / 2);
    }
}

fn to_nearest_double(n: u64) -> (res: u128)
    ensures
        res == nearest_double(n as nat),
        res <= 0x2_0000_0000_0000_0000,
{
    let mut rest: u64 = n;
    let mut gap: u128 = 1;
    while rest >= 0x20_0000_0000_0000
        invariant
            gap * spacing(rest as nat) == spacing(n as nat),
            gap * rest <= n,
            0 < gap,
        decreases rest,
    {
        proof {
            let half = rest / 2;
            assert(gap * (2 * spacing(half as nat)) == (gap * 2) * spacing(half as nat))
                by (nonlinear_arith);
            assert((gap * 2) * half <= gap * rest) by (nonlinear_arith)
                requires
                    2 * half <= rest,
            ;
            assert(gap <= n) by (nonlinear_arith)
                requires
                    gap * rest <= n,
                    rest >= 1,
            ;
        }
        rest = rest / 2;
        gap = gap * 2;
    }
    proof {
        assert(gap * 1 == gap);
        lemma_spacing(n as nat);
    }
    let units = round_to_even(n as u128, gap);
    units * gap
}

proof fn lemma_power_of_ten(k: nat)
    requires
        k <= 19,
    ensures
        1 <= power_of_ten(k) <= 10_000_000_000_000_000_000,
{
    reveal_with_fuel(power_of_ten, 20);
}

fn ten_to(k: u8) -> (res: u128)
    requires
        k <= 19,
    ensures
        res == power_of_ten(k as nat),
        1 <= res <= 10_000_000_000_000_000_000,
{
    let mut res: u128 = 1;
    let mut i: u8 = 0;
    while i < k
        invariant
            i <= k <= 19,
            res == power_of_ten(i as nat),
        decreases k - i,
    {
        proof {
            lemma_power_of_ten(i as nat);
        }
        res = 10 * res;
        i = i + 1;
    }
    proof {
        lemma_power_of_ten(k as nat);
    }
    res
}

fn exponent_of(x: u128) -> (res: u8)
    requires
        x <= 0x2_0000_0000_0000_0000,
    ensures
        res == exponent(x as int),
        res <= 19,
{
    let mut k: u8 = 19;
    while k > 0
        invariant
            k <= 19,
            x <= 0x2_0000_0000_0000_0000,
            exponent(x as int) == exponent_up_to(x as int, k as nat),
        decreases k,
    {
        let slack: u128 = match k {
            15 => 2,
            16 => 20,
            17 => 400,
            18 => 4096,
            19 => 40960,
            _ => 0,
        };
        if x + slack >= ten_to(k) {
            return k;
        }
        k = k - 1;
    }
    0
}

/// Converts an integer to scientific notation, where that is shorter than its digits.
pub fn to_sci_notation(n: u64) -> (res: String)
    ensures
        res@ == sci_notation(n as nat),
{
    let raw = decimal::decimal_text(n as u128);
    if n == 0 {
        return raw;
    }
    let x = to_nearest_double(n);
    let k = exponent_of(x);
    let d = ten_to(k);
    let one: u128 = if x < d {
        0x20_0000_0000_0000
    } else if x < 2 * d {
        0x10_0000_0000_0000
    } else if x < 4 * d {
        0x8_0000_0000_0000
    } else if x < 8 * d {
        0x4_0000_0000_0000
    } else {
        0x2_0000_0000_0000
    };
    proof {
        assert(x * one <= 0x2_0000_0000_0000_0000 * 0x20_0000_0000_0000) by (nonlinear_arith)
            requires
                x <= 0x2_0000_0000_0000_0000,
                one <= 0x20_0000_0000_0000,
        ;
    }
    let mantissa = round_to_even(x * one, d);
    let sci = notation_text(mantissa, one, k as u128);
    if sci.as_str().unicode_len() < raw.as_str().unicode_len() {
        sci
    } else {
        raw
    }
}

proof fn lemma_scaled(num: int, den: int)
    requires
        den > 0,
    ensures
        nearest_even(100 * num, 100 * den) == nearest_even(num, den),
{
    let below = num / den;
    let rest = num % den;
    assert(num == below * den + rest && 0 <= rest < den) by (nonlinear_arith)
        requires
            den > 0,
            below == num / den,
            rest == num % den,
    ;
    assert(100 * num == below * (100 * den) + 100 * rest) by (nonlinear_arith)
        requires
            num == below * den + rest,
    ;
    vstd::arithmetic::div_mod::lemma_fundamental_div_mod_converse(
        100 * num,
        100 * den,
        below,
        100 * rest,
    );
}

/// Where a number stands between multiples of `q` does not matter for rounding it to a
/// multiple of an even multiple of `q`, but for whether it is one of them.
proof fn lemma_head_decides(head: int, tail: int, q: int, half: int)
    requires
        0 <= head,
        0 <= tail < q,
        half > 0,
    ensures
        nearest_even(head * q + tail, 2 * half * q) == nearest_even(
            2 * head + (if tail > 0 {
                1int
            } else {
                0
            }),
            4 * half,
        ),
{
    let c = 2 * half;
    let s: int = if tail > 0 {
        1
    } else {
        0
    };
    let below = head / c;
    let t = head % c;
    assert(head == below * c + t && 0 <= t < c) by (nonlinear_arith)
        requires
            c > 0,
            below == head / c,
            t == head % c,
    ;
    assert(head * q + tail == below * (c * q) + (t * q + tail)) by (nonlinear_arith)
        requires
            head == below * c + t,
    ;
    assert(0 <= t * q + tail < c * q) by (nonlinear_arith)
        requires
            0 <= t <= c - 1,
            0 <= tail < q,
    ;
    vstd::arithmetic::div_mod::lemma_fundamental_div_mod_converse(
        head * q + tail,
        c * q,
        below,
        t * q + tail,
    );
    assert(2 * head + s == below * (2 * c) + (2 * t + s)) by (nonlinear_arith)
        requires
            head == below * c + t,
    ;
    vstd::arithmetic::div_mod::lemma_fundamental_div_mod_converse(
        2 * head + s,
        2 * c,
        below,
        2 * t + s,
    );
    if t < half {
        assert(2 * (t * q + tail) < c * q) by (nonlinear_arith)
            requires
                t <= half - 1,
                0 <= tail < q,
                c == 2 * half,
        ;
    } else if t > half {
        assert(2 * (t * q + tail) > c * q) by (nonlinear_arith)
            requires
                t >= half + 1,
                0 <= tail < q,
                c == 2 * half,
        ;
    } else {
        assert(2 * (t * q + tail) == c * q + 2 * tail) by (nonlinear_arith)
            requires
                t == half,
                c == 2 * half,
        ;
    }
}

/// The first ten digits of a number decide how it is written, but for whether anything
/// follows them.
proof fn lemma_ten_digits_decide(head: int, tail: int, q: int, k: nat)
    requires
        0 <= head,
        0 <= tail < q,
    ensures
        rounded(head * q + tail, 1_000_000_000 * q, k) == rounded(
            2 * head + (if tail > 0 {
                1int
            } else {
                0
            }),
            2_000_000_000,
            k,
        ),
{
    let n = head * q + tail;
    let one = 1_000_000_000 * q;
    let s: int = if tail > 0 {
        1
    } else {
        0
    };
    lemma_head_decides(head, tail, q, 500_000_000);
    lemma_head_decides(head, tail, q, 5_000_000);
    lemma_scaled(n, 10_000_000 * q);
    lemma_scaled(2 * head + s, 20_000_000);
    let whole = nearest_even(n, one);
    let u = head - 1_000_000_000 * whole;
    assert(n - whole * one == u * q + tail) by (nonlinear_arith)
        requires
            n == head * q + tail,
            one == 1_000_000_000 * q,
            u == head - 1_000_000_000 * whole,
    ;
    if u >= 1 {
        assert(u * q >= q) by (nonlinear_arith)
            requires
                u >= 1,
                q > 0,
        ;
    } else if u <= -2 {
        assert(u * q <= -2 * q) by (nonlinear_arith)
            requires
                u <= -2,
                q > 0,
        ;
    } else if u == 0 {
        assert(u * q == 0) by (nonlinear_arith)
            requires
                u == 0,
        ;
    } else {
        assert(u * q == -q) by (nonlinear_arith)
            requires
                u == -1,
        ;
    }
}

/// Writes the mantissa `mantissa / one` with an exponent.
fn notation_text(mantissa: u128, one: u128, exponent: u128) -> (res: String)
    requires
        0 < one <= 0x20_0000_0000_0000,
        mantissa <= 0x80_0000_0000_0000_0000_0000_0000_0000,
    ensures
        res@ == text_of(rounded(mantissa as int, one as int, exponent as nat)),
{
    let whole = round_to_even(mantissa, one);
    let off: u128 = if mantissa < whole * one {
        whole * one - mantissa
    } else {
        mantissa - whole * one
    };
    let mut out = String::new();
    proof {
        lemma_nearest(mantissa as int, one as int);
    }
    if off * 1_000_000_000 < one {
        decimal::push_decimal(&mut out, whole);
    } else {
        let hundredths = round_to_even(100 * mantissa, one);
        decimal::push_decimal(&mut out, hundredths / 100);
        out.push('.');
        decimal::push_digit(&mut out, (hundredths / 10 % 10) as u8);
        decimal::push_digit(&mut out, (hundredths % 10) as u8);
    }
    proof {
        assert(out@ == mantissa_text(rounded(mantissa as int, one as int, exponent as nat)));
    }
    out.push('e');
    decimal::push_decimal(&mut out, exponent);
    out
}

/// Rounding to a whole number moves a quotient by no more than a half.
pub proof fn lemma_nearest(num: int, den: int)
    requires
        den > 0,
    ensures
        -den <= 2 * (nearest_even(num, den) * den - num) <= den,
{
    let below = num / den;
    let rest = num % den;
    assert(num == below * den + rest && 0 <= rest < den) by (nonlinear_arith)
        requires
            den > 0,
            below == num / den,
            rest == num % den,
    ;
    assert((below + 1) * den == below * den + den) by (nonlinear_arith);
}

/// Writes a number of more than 64 bits in scientific notation.
fn sci_notation_of_many_digits(digits: &str) -> (res: String)
    requires
        decimal::all_digits(digits@),
        decimal::value(digits@) > u64::MAX,
    ensures
        res@ == sci_notation(decimal::value(digits@)),
{
    let chars = text::chars_of(digits);
    let ghost n = decimal::value(digits@);
    let mut zeros: usize = 0;
    proof {
        assert(chars@.skip(0) == chars@);
    }
    while zeros < chars.len() && chars[zeros] == '0'
        invariant
            zeros <= chars@.len(),
            decimal::value(chars@.skip(zeros as int)) == n,
        decreases chars@.len() - zeros,
    {
        proof {
            let rest = chars@.skip(zeros as int);
            assert(rest == seq!['0'] + chars@.skip(zeros + 1));
            decimal::lemma_value_concat(seq!['0'], chars@.skip(zeros + 1));
            reveal_with_fuel(decimal::value, 2);
            assert(seq!['0'].drop_last() == Seq::<char>::empty());
            let p = power_of_ten(chars@.skip(zeros + 1).len());
            assert(0 * p == 0) by (nonlinear_arith);
        }
        zeros = zeros + 1;
    }
    let ghost s = chars@.skip(zeros as int);
    let len: usize = chars.len() - zeros;
    let ghost k = (len - 1) as nat;
    proof {
        assert forall|i: int| 0 <= i < s.len() implies decimal::is_ascii_digit(#[trigger] s[i]) by {
            assert(s[i] == digits@[zeros + i]);
        }
        decimal::lemma_value_bound(s);
        if len <= 19 {
            lemma_power_of_ten(len as nat);
        }
        assert(s[0] == chars@[zeros as int]);
        decimal::law_digits_are_those_of_their_value(s);
    }
    let first = text::slice_of(&chars, zeros, zeros + 10);
    let ghost front = s.take(10);
    let ghost back = s.skip(10);
    proof {
        assert(first@ == front);
        assert(s == front + back);
        assert(decimal::all_digits(front));
        assert(decimal::all_digits(back));
        decimal::lemma_value_bound(front);
        decimal::lemma_value_bound(back);
        lemma_power_of_ten(10);
        decimal::lemma_value_concat(front, back);
    }
    let head: u64 = decimal::read(first.as_str()).unwrap();
    let mut more: u128 = 0;
    let mut i: usize = zeros + 10;
    while i < chars.len()
        invariant
            zeros + 10 <= i <= chars@.len(),
            decimal::all_digits(chars@),
            more == 0 || more == 1,
            more == 1 <==> decimal::value(chars@.subrange(zeros + 10, i as int)) > 0,
        decreases chars@.len() - i,
    {
        proof {
            let next = chars@.subrange(zeros + 10, i + 1);
            assert(next.drop_last() == chars@.subrange(zeros + 10, i as int));
            assert(next.last() == chars@[i as int]);
            assert(decimal::is_ascii_digit(chars@[i as int]));
        }
        if chars[i] != '0' {
            more = 1;
        }
        i = i + 1;
    }
    let sci = notation_text(2 * (head as u128) + more, 2_000_000_000, (len - 1) as u128);
    proof {
        assert(back == chars@.subrange(zeros + 10, chars@.len() as int));
        let q = power_of_ten(back.len()) as int;
        lemma_ten_digits_decide(head as int, decimal::value(back) as int, q, k);
        lemma_power_sum(9, back.len());
        assert(power_of_ten(9) == 1_000_000_000) by {
            reveal_with_fuel(power_of_ten, 10);
        }
        assert(decimal::decimal(n) == s);
        assert(sci@ == text_of(notation(n)));
    }
    if sci.as_str().unicode_len() < len {
        sci
    } else {
        proof {
            assert(s == chars@.subrange(zeros as int, chars@.len() as int));
        }
        text::slice_of(&chars, zeros, chars.len())
    }
}

proof fn lemma_power_sum(a: nat, b: nat)
    ensures
        power_of_ten(a + b) == power_of_ten(a) * power_of_ten(b),
    decreases a,
{
    if a > 0 {
        let less = (a - 1) as nat;
        lemma_power_sum(less, b);
        assert(a + b - 1 == less + b);
        assert(10 * (power_of_ten(less) * power_of_ten(b)) == (10 * power_of_ten(less))
            * power_of_ten(b)) by (nonlinear_arith);
    } else {
        assert(power_of_ten(0) == 1);
        assert(1 * power_of_ten(b) == power_of_ten(b)) by (nonlinear_arith);
    }
}

/// Converts the integer that the digits stand for to scientific notation, where that is
/// shorter than its digits.
pub fn sci_notation_of_digits(digits: &str) -> (res: String)
    requires
        digits@.len() > 0,
        decimal::all_digits(digits@),
    ensures
        res@ == sci_notation(decimal::value(digits@)),
{
    match decimal::read(digits) {
        Some(n) => to_sci_notation(n),
        None => sci_notation_of_many_digits(digits),
    }
}

} // verus!
