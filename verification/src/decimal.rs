//! Whole numbers in decimal digits.

use crate::text;
use vstd::prelude::*;

verus! {

/// The character of a digit below ten.
pub open spec fn digit(d: int) -> char {
    (d + 0x30) as char
}

/// The decimal digits of a number, without leading zeros.
pub open spec fn decimal(n: nat) -> Seq<char>
    decreases n,
{
    if n < 10 {
        seq![digit(n as int)]
    } else {
        decimal(n / 10).push(digit((n % 10) as int))
    }
}

/// Appends the digit `d`.
pub fn push_digit(out: &mut String, d: u8)
    requires
        d < 10,
    ensures
        final(out)@ == old(out)@.push(digit(d as int)),
{
    out.push((d + 0x30) as char);
}

/// Appends the decimal digits of `n`.
pub fn push_decimal(out: &mut String, n: u128)
    ensures
        final(out)@ == old(out)@ + decimal(n as nat),
    decreases n,
{
    if n >= 10 {
        push_decimal(out, n / 10);
    }
    push_digit(out, (n % 10) as u8);
}

/// The decimal digits of `n`.
pub fn decimal_text(n: u128) -> (res: String)
    ensures
        res@ == decimal(n as nat),
{
    let mut out = String::new();
    push_decimal(&mut out, n);
    out
}

/// Whether `c` is one of the ten ASCII digits.
pub open spec fn is_ascii_digit(c: char) -> bool {
    '0' <= c <= '9'
}

/// Whether `s` holds ASCII digits alone.
pub open spec fn all_digits(s: Seq<char>) -> bool {
    forall|i: int| 0 <= i < s.len() ==> is_ascii_digit(#[trigger] s[i])
}

/// The number that a sequence of ASCII digits stands for.
pub open spec fn value(s: Seq<char>) -> nat
    decreases s.len(),
{
    if s.len() == 0 {
        0
    } else {
        10 * value(s.drop_last()) + (s.last() as nat - 0x30) as nat
    }
}

/// A power of ten.
pub open spec fn power_of_ten(k: nat) -> nat
    decreases k,
{
    if k == 0 {
        1
    } else {
        10 * power_of_ten((k - 1) as nat)
    }
}

/// The number that `s` stands for, where it holds ASCII digits, nothing else, and the
/// number fits in 64 bits.
pub open spec fn value_in_64_bits(s: Seq<char>) -> Option<u64> {
    if s.len() > 0 && all_digits(s) && value(s) <= u64::MAX {
        Some(value(s) as u64)
    } else {
        None
    }
}

proof fn lemma_value_grows(s: Seq<char>, i: int)
    requires
        0 <= i <= s.len(),
    ensures
        value(s.take(i)) <= value(s),
    decreases s.len(),
{
    if i == s.len() {
        assert(s.take(i) == s);
    } else {
        lemma_value_grows(s.drop_last(), i);
        assert(s.drop_last().take(i) == s.take(i));
    }
}

/// Reads a number of at most 64 bits.
pub fn read(digits: &str) -> (res: Option<u64>)
    ensures
        res == value_in_64_bits(digits@),
{
    let chars = text::chars_of(digits);
    if chars.len() == 0 {
        return None;
    }
    let mut total: u64 = 0;
    let mut i: usize = 0;
    while i < chars.len()
        invariant
            i <= chars@.len(),
            chars@ == digits@,
            all_digits(chars@.take(i as int)),
            total == value(chars@.take(i as int)),
        decreases chars@.len() - i,
    {
        let c = chars[i];
        let ghost next = chars@.take(i + 1);
        proof {
            assert(next.drop_last() == chars@.take(i as int));
            assert(next.last() == c);
        }
        if c < '0' || '9' < c {
            assert(!is_ascii_digit(chars@[i as int]));
            return None;
        }
        let grown: u128 = 10 * (total as u128) + (c as u32 - 0x30) as u128;
        proof {
            assert(grown == value(next));
            lemma_value_grows(chars@, i + 1);
            assert forall|j: int| 0 <= j < next.len() implies is_ascii_digit(#[trigger] next[j]) by {
                if j < i {
                    assert(next[j] == chars@.take(i as int)[j]);
                }
            }
        }
        if grown > u64::MAX as u128 {
            return None;
        }
        total = grown as u64;
        i = i + 1;
    }
    proof {
        assert(chars@.take(i as int) == chars@);
    }
    Some(total)
}

/// Whether a text holds ASCII digits alone.
pub fn is_all_digits(digits: &str) -> (res: bool)
    ensures
        res == all_digits(digits@),
{
    let chars = text::chars_of(digits);
    let mut i: usize = 0;
    while i < chars.len()
        invariant
            i <= chars@.len(),
            chars@ == digits@,
            forall|j: int| 0 <= j < i ==> is_ascii_digit(#[trigger] chars@[j]),
        decreases chars@.len() - i,
    {
        if chars[i] < '0' || '9' < chars[i] {
            assert(!is_ascii_digit(digits@[i as int]));
            return false;
        }
        i = i + 1;
    }
    true
}

/// The decimal digits of a number stand for it.
pub proof fn law_digits_read_back(n: nat)
    ensures
        all_digits(decimal(n)),
        value(decimal(n)) == n,
        n <= u64::MAX ==> value_in_64_bits(decimal(n)) == Some(n as u64),
    decreases n,
{
    reveal_with_fuel(value, 2);
    if n < 10 {
        assert(decimal(n).drop_last() == Seq::<char>::empty());
    } else {
        law_digits_read_back(n / 10);
        assert(decimal(n).drop_last() == decimal(n / 10));
    }
}

/// A text is read if and only if it holds ASCII digits, at least one and nothing else, that
/// stand for a number of at most 64 bits.
pub proof fn law_what_is_read(s: Seq<char>)
    ensures
        value_in_64_bits(s) is Some <==> s.len() > 0 && (forall|i: int|
            0 <= i < s.len() ==> '0' <= #[trigger] s[i] <= '9') && value(s) <= u64::MAX,
        value_in_64_bits(s) matches Some(n) ==> n == value(s),
{
    if forall|i: int| 0 <= i < s.len() ==> '0' <= #[trigger] s[i] <= '9' {
        assert(all_digits(s));
    }
    if all_digits(s) {
        assert forall|i: int| 0 <= i < s.len() implies '0' <= #[trigger] s[i] <= '9' by {
            assert(is_ascii_digit(s[i]));
        }
    }
}

/// One more digit behind the digits of a number makes it ten times as great, and adds that
/// digit.
pub proof fn law_a_digit_behind(n: nat, d: nat)
    requires
        d < 10,
    ensures
        decimal(d) == seq![(0x30 + d) as char],
        n > 0 ==> decimal(10 * n + d) == decimal(n).push((0x30 + d) as char),
{
    if n > 0 {
        assert((10 * n + d) / 10 == n && (10 * n + d) % 10 == d);
    }
}

/// Each power of ten is ten times the one before it.
pub proof fn law_powers_grow_tenfold(k: nat)
    ensures
        power_of_ten(0) == 1,
        power_of_ten(k + 1) == 10 * power_of_ten(k),
{
}

/// A digit stands for what it is worth, and the digits before it for ten times as much.
pub proof fn law_digits_are_worth(front: Seq<char>, d: nat)
    requires
        d < 10,
    ensures
        value(seq![]) == 0,
        value(front.push((0x30 + d) as char)) == 10 * value(front) + d,
{
    let c = (0x30 + d) as char;
    assert(front.push(c).drop_last() == front);
}

/// Digits without leading zeros are the decimal digits of the number they stand for.
pub proof fn law_digits_are_those_of_their_value(s: Seq<char>)
    requires
        s.len() > 0,
        all_digits(s),
        s[0] != '0',
    ensures
        decimal(value(s)) == s,
        value(s) > 0,
    decreases s.len(),
{
    let init = s.drop_last();
    let d = s.last();
    assert(is_ascii_digit(s[s.len() - 1]));
    assert(s == init.push(d));
    if s.len() == 1 {
        assert(value(init) == 0);
        assert(decimal(value(s)) == seq![d]);
    } else {
        assert forall|i: int| 0 <= i < init.len() implies is_ascii_digit(#[trigger] init[i]) by {
            assert(init[i] == s[i]);
        }
        law_digits_are_those_of_their_value(init);
        assert(value(s) / 10 == value(init));
        assert(value(s) % 10 == d as nat - 0x30);
    }
}

/// What digits stand for, by those in front and those behind.
pub proof fn lemma_value_concat(a: Seq<char>, b: Seq<char>)
    ensures
        value(a + b) == value(a) * power_of_ten(b.len()) + value(b),
    decreases b.len(),
{
    if b.len() == 0 {
        assert(a + b == a);
        assert(value(a) * 1 == value(a)) by (nonlinear_arith);
        assert(power_of_ten(0) == 1);
    } else {
        let all = a + b;
        lemma_value_concat(a, b.drop_last());
        assert(all.drop_last() == a + b.drop_last());
        assert(all.last() == b.last());
        let p = power_of_ten((b.len() - 1) as nat);
        assert(10 * (value(a) * p) == value(a) * (10 * p)) by (nonlinear_arith);
    }
}

/// How much digits can stand for.
pub proof fn lemma_value_bound(s: Seq<char>)
    requires
        all_digits(s),
    ensures
        value(s) < power_of_ten(s.len()),
    decreases s.len(),
{
    if s.len() > 0 {
        assert forall|i: int| 0 <= i < s.drop_last().len() implies is_ascii_digit(
            #[trigger] s.drop_last()[i],
        ) by {
            assert(s.drop_last()[i] == s[i]);
        }
        lemma_value_bound(s.drop_last());
        assert(is_ascii_digit(s[s.len() - 1]));
    }
}

} // verus!
