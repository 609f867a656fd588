//! What holds of the patterns that rewrite traces.

use crate::decimal;
use crate::pattern;
use crate::pattern::{Class, Pattern};
use crate::scientific;
use vstd::prelude::*;

verus! {

/// Whether `c` is an ASCII character that stands in no word and is no bracket: no match
/// goes across it.
pub open spec fn separates(c: char) -> bool {
    c <= '\u{7f}' && !('0' <= c <= '9') && !('A' <= c <= 'Z') && !('a' <= c <= 'z') && c != '_' && c
        != '[' && c != ']'
}

/// Whether `s` holds an amount of gas, or may hold one, in front of the closing bracket at
/// `k`, where an opening bracket stands in front of it: nothing but digits stands there.
pub open spec fn may_be_an_amount(s: Seq<char>, k: int) -> bool {
    0 < k <= s.len() && forall|j: int|
        0 <= j < k ==> ('0' <= #[trigger] s[j] <= '9') || s[j] > '\u{7f}'
}

/// Whether no match of a pattern goes across `c` between these two texts. That is so of a
/// separator, and of a bracket that is none of gas.
pub open spec fn parts(p: Pattern, front: Seq<char>, c: char, tail: Seq<char>) -> bool {
    ||| separates(c)
    ||| (c == '[' || c == ']') && !(p is Gas)
    ||| c == '[' && forall|k: int|
        0 <= k < tail.len() && #[trigger] tail[k] == ']' ==> !may_be_an_amount(tail, k)
    ||| c == ']' && forall|i: int|
        0 <= i < front.len() && #[trigger] front[i] == '[' ==> !may_be_an_amount(
            front.skip(i + 1),
            front.len() - i - 1,
        )
}

/// Of the ASCII characters, the digits are those from zero to nine, and words are made of
/// letters, digits and underscores.
pub proof fn law_ascii_classes(c: char)
    requires
        c <= '\u{7f}',
    ensures
        pattern::is_digit(c) <==> '0' <= c <= '9',
        pattern::is_word(c) <==> ('0' <= c <= '9') || ('A' <= c <= 'Z') || ('a' <= c <= 'z') || c
            == '_',
{
}

/// A run ends where the class does.
pub proof fn lemma_run_is(front: Seq<char>, tail: Seq<char>, class: Class)
    requires
        forall|i: int| 0 <= i < front.len() ==> pattern::in_class(class, #[trigger] front[i]),
        tail.len() > 0 ==> !pattern::in_class(class, tail.first()),
    ensures
        pattern::run(front + tail, class) == front.len(),
    decreases front.len(),
{
    if front.len() == 0 {
        assert(front + tail == tail);
    } else {
        let rest = front.drop_first();
        assert(pattern::in_class(class, front[0]));
        assert forall|i: int| 0 <= i < rest.len() implies pattern::in_class(
            class,
            #[trigger] rest[i],
        ) by {
            assert(rest[i] == front[i + 1]);
        }
        lemma_run_is(rest, tail, class);
        assert((front + tail).drop_first() == rest + tail);
    }
}

/// What a run is made of, and where it ends.
pub proof fn lemma_run_parts(s: Seq<char>, class: Class)
    ensures
        0 <= pattern::run(s, class) <= s.len(),
        forall|i: int|
            0 <= i < pattern::run(s, class) ==> pattern::in_class(class, #[trigger] s[i]),
        pattern::run(s, class) < s.len() ==> !pattern::in_class(class, s[pattern::run(s, class)]),
    decreases s.len(),
{
    if s.len() > 0 && pattern::in_class(class, s.first()) {
        let rest = s.drop_first();
        lemma_run_parts(rest, class);
        assert forall|i: int| 0 <= i < pattern::run(s, class) implies pattern::in_class(
            class,
            #[trigger] s[i],
        ) by {
            if i > 0 {
                assert(rest[i - 1] == s[i]);
            }
        }
        if pattern::run(s, class) < s.len() {
            assert(rest[pattern::run(rest, class)] == s[pattern::run(s, class)]);
        }
    }
}

proof fn lemma_run_stops(front: Seq<char>, c: char, tail: Seq<char>, class: Class)
    requires
        !pattern::in_class(class, c),
    ensures
        pattern::run(front + seq![c] + tail, class) == pattern::run(front, class),
    decreases front.len(),
{
    let s = front + seq![c] + tail;
    if front.len() > 0 {
        lemma_run_stops(front.drop_first(), c, tail, class);
        assert(s.drop_first() == front.drop_first() + seq![c] + tail);
        assert(s.first() == front.first());
    } else {
        assert(s.first() == c);
    }
}

proof fn lemma_match_in_front(p: Pattern, front: Seq<char>, c: char, tail: Seq<char>, i: int)
    requires
        pattern::rewrites(p),
        parts(p, front, c, tail),
        0 <= i < front.len(),
    ensures
        pattern::match_end(p, front + seq![c] + tail, i) == pattern::match_end(p, front, i),
        pattern::match_end(p, front, i) matches Some(end) ==> i < end <= front.len(),
{
    let s = front + seq![c] + tail;
    assert(s.skip(i) == front.skip(i) + seq![c] + tail);
    assert(s.skip(i + 1) == front.skip(i + 1) + seq![c] + tail);
    lemma_run_stops(front.skip(i), c, tail, Class::Digit);
    lemma_run_stops(front.skip(i), c, tail, Class::Box);
    lemma_run_stops(front.skip(i + 1), c, tail, Class::Digit);
    lemma_run_parts(front.skip(i), Class::Digit);
    lemma_run_parts(front.skip(i), Class::Box);
    lemma_run_parts(front.skip(i + 1), Class::Digit);
    assert(forall|j: int| 0 <= j < front.len() ==> s[j] == front[j]);
    assert(s[front.len() as int] == c);
    if p is Gas {
        let rest = front.skip(i + 1);
        let amount = pattern::run(rest, Class::Digit);
        if c == ']' && s[i] == '[' && amount > 0 && i + 1 + amount == front.len() {
            assert forall|j: int| 0 <= j < amount implies ('0' <= #[trigger] rest[j] <= '9')
                || rest[j] > '\u{7f}' by {
                assert(pattern::in_class(Class::Digit, rest[j]));
            }
            assert(may_be_an_amount(rest, front.len() - i - 1));
            assert(front[i] == '[');
            assert(false);
        }
    }
    if p is Address {
        if i + 42 <= front.len() {
            assert(forall|j: int| i + 2 <= j < i + 42 ==> s[j] == front[j]);
        } else if i + 42 <= s.len() {
            assert(!pattern::is_hex(s[front.len() as int]));
        }
    }
}

/// What is rewritten from some place on does not depend on what stands before it, but for a
/// character of a word right before a number.
pub proof fn lemma_replaced_behind(p: Pattern, s: Seq<char>, k: int, i: int)
    requires
        0 <= k <= i <= s.len(),
        k > 0 && p is LargeInt ==> !pattern::is_word(s[k - 1]),
    ensures
        pattern::replaced_from(p, s, i) == pattern::replaced_from(p, s.skip(k), i - k),
    decreases s.len() - i,
{
    let rest = s.skip(k);
    if i < s.len() {
        assert(rest.skip(i - k) == s.skip(i));
        assert(rest.skip(i - k + 1) == s.skip(i + 1));
        assert(rest[i - k] == s[i]);
        lemma_run_parts(s.skip(i), Class::Digit);
        lemma_run_parts(s.skip(i + 1), Class::Digit);
        if p is LargeInt && i > k {
            assert(rest[i - k - 1] == s[i - 1]);
        }
        if p is Address && i + 42 <= s.len() {
            assert(rest[i - k + 1] == s[i + 1]);
            assert(forall|j: int| i + 2 <= j < i + 42 ==> rest[j - k] == s[j]);
            assert((forall|j: int| i + 2 <= j < i + 42 ==> pattern::is_hex(#[trigger] s[j])) <==> (
            forall|j: int| i - k + 2 <= j < i - k + 42 ==> pattern::is_hex(#[trigger] rest[j]))) by {
                if forall|j: int| i + 2 <= j < i + 42 ==> pattern::is_hex(#[trigger] s[j]) {
                    assert forall|j: int| i - k + 2 <= j < i - k + 42 implies pattern::is_hex(
                        #[trigger] rest[j],
                    ) by {
                        assert(rest[j] == s[j + k]);
                    }
                }
                if forall|j: int|
                    i - k + 2 <= j < i - k + 42 ==> pattern::is_hex(#[trigger] rest[j]) {
                    assert forall|j: int| i + 2 <= j < i + 42 implies pattern::is_hex(
                        #[trigger] s[j],
                    ) by {
                        assert(rest[j - k] == s[j]);
                    }
                }
            }
        }
        assert(pattern::match_end(p, s, i) is Some <==> pattern::match_end(p, rest, i - k) is Some);
        match pattern::match_end(p, s, i) {
            Some(end) => {
                assert(pattern::match_end(p, rest, i - k) == Some(end - k));
                if i < end && end <= s.len() {
                    lemma_replaced_behind(p, s, k, end);
                    assert(rest.subrange(i - k, end - k) == s.subrange(i, end));
                } else {
                    lemma_replaced_behind(p, s, k, i + 1);
                }
            },
            None => {
                lemma_replaced_behind(p, s, k, i + 1);
            },
        }
    }
}

proof fn lemma_replaced_apart(p: Pattern, front: Seq<char>, c: char, tail: Seq<char>, i: int)
    requires
        pattern::rewrites(p),
        parts(p, front, c, tail),
        0 <= i <= front.len(),
    ensures
        pattern::replaced_from(p, front + seq![c] + tail, i) == pattern::replaced_from(p, front, i)
            + seq![c] + pattern::replaced(p, tail),
    decreases front.len() - i,
{
    let s = front + seq![c] + tail;
    if i < front.len() {
        lemma_match_in_front(p, front, c, tail, i);
        match pattern::match_end(p, front, i) {
            Some(end) => {
                lemma_replaced_apart(p, front, c, tail, end);
                assert(s.subrange(i, end) == front.subrange(i, end));
                let new = pattern::rewritten(p, front.subrange(i, end));
                assert(new + (pattern::replaced_from(p, front, end) + seq![c] + pattern::replaced(
                    p,
                    tail,
                )) == new + pattern::replaced_from(p, front, end) + seq![c] + pattern::replaced(
                    p,
                    tail,
                ));
            },
            None => {
                lemma_replaced_apart(p, front, c, tail, i + 1);
                assert(s[i] == front[i]);
                assert(seq![s[i]] + (pattern::replaced_from(p, front, i + 1) + seq![c]
                    + pattern::replaced(p, tail)) == seq![front[i]] + pattern::replaced_from(
                    p,
                    front,
                    i + 1,
                ) + seq![c] + pattern::replaced(p, tail));
            },
        }
    } else {
        assert(s[i] == c);
        assert(s.skip(i).first() == c);
        assert(s.skip(i + 1) == tail);
        if p is Gas && c == '[' {
            let amount = pattern::run(tail, Class::Digit);
            lemma_run_parts(tail, Class::Digit);
            if amount > 0 && amount < tail.len() && tail[amount] == ']' {
                assert forall|j: int| 0 <= j < amount implies ('0' <= #[trigger] tail[j] <= '9')
                    || tail[j] > '\u{7f}' by {
                    assert(pattern::in_class(Class::Digit, tail[j]));
                }
                assert(may_be_an_amount(tail, amount));
                assert(false);
            }
            assert(i + 1 + amount < s.len() ==> s[i + 1 + amount] == tail[amount]);
        }
        assert(pattern::match_end(p, s, i) is None);
        lemma_replaced_behind(p, s, i + 1, i + 1);
        assert(s.skip(i + 1) == tail);
        assert(pattern::replaced_from(p, front, i) + seq![c] + pattern::replaced(p, tail)
            == seq![c] + pattern::replaced(p, tail));
    }
}

/// No match goes across a bracket that is none of gas: what stands before it and what stands
/// behind it are rewritten apart.
pub proof fn law_matches_end_at_brackets(p: Pattern, front: Seq<char>, c: char, tail: Seq<char>)
    requires
        pattern::rewrites(p),
        parts(p, front, c, tail),
    ensures
        pattern::replaced(p, front + seq![c] + tail) == pattern::replaced(p, front) + seq![c]
            + pattern::replaced(p, tail),
{
    lemma_replaced_apart(p, front, c, tail, 0);
}

/// No match goes across a separator: what stands before it and what stands behind it are
/// rewritten apart.
pub proof fn law_matches_end_at_separators(p: Pattern, front: Seq<char>, c: char, tail: Seq<char>)
    requires
        pattern::rewrites(p),
        separates(c),
    ensures
        pattern::replaced(p, front + seq![c] + tail) == pattern::replaced(p, front) + seq![c]
            + pattern::replaced(p, tail),
{
    lemma_replaced_apart(p, front, c, tail, 0);
}

/// All characters that draw the tree are dropped, and no others.
pub proof fn law_the_tree_is_dropped(s: Seq<char>)
    ensures
        pattern::replaced(Pattern::BoxDrawing, s) == s.filter(
            |c: char| !(c == '├' || c == '└' || c == '│' || c == '─'),
        ),
{
    lemma_tree_dropped_from(s, 0);
    assert(s.skip(0) == s);
}

proof fn lemma_tree_dropped_from(s: Seq<char>, i: int)
    requires
        0 <= i <= s.len(),
    ensures
        pattern::replaced_from(Pattern::BoxDrawing, s, i) == s.skip(i).filter(
            |c: char| !(c == '├' || c == '└' || c == '│' || c == '─'),
        ),
    decreases s.len() - i,
{
    let plain = |c: char| !(c == '├' || c == '└' || c == '│' || c == '─');
    let n = pattern::run(s.skip(i), Class::Box);
    lemma_run_parts(s.skip(i), Class::Box);
    if i == s.len() {
        reveal(Seq::filter);
        assert(s.skip(i) == Seq::<char>::empty());
    } else if n > 0 {
        let drawn = s.subrange(i, i + n);
        lemma_tree_dropped_from(s, i + n);
        assert(s.skip(i) == drawn + s.skip(i + n));
        Seq::filter_distributes_over_add(drawn, s.skip(i + n), plain);
        assert forall|j: int| 0 <= j < drawn.len() implies !plain(#[trigger] drawn[j]) by {
            assert(drawn[j] == s.skip(i)[j]);
            assert(pattern::in_class(Class::Box, s.skip(i)[j]));
        }
        lemma_filter_none(drawn, plain);
        assert(Seq::<char>::empty() + s.skip(i + n).filter(plain) == s.skip(i + n).filter(plain));
    } else {
        lemma_tree_dropped_from(s, i + 1);
        assert(s.skip(i) == seq![s[i]] + s.skip(i + 1));
        Seq::filter_distributes_over_add(seq![s[i]], s.skip(i + 1), plain);
        assert(s.skip(i).first() == s[i]);
        assert(plain(s[i]));
        lemma_filter_all(seq![s[i]], plain);
    }
}

/// Filtering drops all where nothing is wanted.
pub proof fn lemma_filter_none(s: Seq<char>, wanted: spec_fn(char) -> bool)
    requires
        forall|i: int| 0 <= i < s.len() ==> !wanted(#[trigger] s[i]),
    ensures
        s.filter(wanted) == Seq::<char>::empty(),
    decreases s.len(),
{
    reveal(Seq::filter);
    if s.len() > 0 {
        assert(!wanted(s[s.len() - 1]));
        assert forall|i: int| 0 <= i < s.drop_last().len() implies !wanted(
            #[trigger] s.drop_last()[i],
        ) by {
            assert(s.drop_last()[i] == s[i]);
        }
        lemma_filter_none(s.drop_last(), wanted);
    }
}

/// Filtering keeps all where everything is wanted.
pub proof fn lemma_filter_all(s: Seq<char>, wanted: spec_fn(char) -> bool)
    requires
        forall|i: int| 0 <= i < s.len() ==> wanted(#[trigger] s[i]),
    ensures
        s.filter(wanted) == s,
    decreases s.len(),
{
    reveal(Seq::filter);
    if s.len() > 0 {
        assert(wanted(s[s.len() - 1]));
        assert forall|i: int| 0 <= i < s.drop_last().len() implies wanted(
            #[trigger] s.drop_last()[i],
        ) by {
            assert(s.drop_last()[i] == s[i]);
        }
        lemma_filter_all(s.drop_last(), wanted);
        assert(s == s.drop_last().push(s.last()));
    }
}

proof fn lemma_kept_up_to(p: Pattern, s: Seq<char>, i: int, k: int)
    requires
        0 <= i <= k <= s.len(),
        forall|j: int| i <= j < k ==> #[trigger] pattern::match_end(p, s, j) is None,
    ensures
        pattern::replaced_from(p, s, i) == s.subrange(i, k) + pattern::replaced_from(p, s, k),
    decreases k - i,
{
    if i < k {
        assert(pattern::match_end(p, s, i) is None);
        lemma_kept_up_to(p, s, i + 1, k);
        assert(s.subrange(i, k) == seq![s[i]] + s.subrange(i + 1, k));
        assert(seq![s[i]] + (s.subrange(i + 1, k) + pattern::replaced_from(p, s, k)) == seq![s[i]]
            + s.subrange(i + 1, k) + pattern::replaced_from(p, s, k));
    } else {
        assert(s.subrange(i, k) + pattern::replaced_from(p, s, k) == pattern::replaced_from(p, s, k));
    }
}

/// An amount of gas in brackets is dropped, whatever stands around it and however many
/// digits it has. Where no digit follows a bracket, text stays.
pub proof fn law_gas_is_dropped(front: Seq<char>, amount: Seq<char>, tail: Seq<char>)
    requires
        forall|i: int, j: int|
            0 <= i && j == i + 1 && j < front.len() && #[trigger] front[i] == '['
                ==> #[trigger] front[j] <= '\u{7f}' && !('0' <= front[j] <= '9'),
        amount.len() > 0,
        forall|i: int| 0 <= i < amount.len() ==> '0' <= #[trigger] amount[i] <= '9',
    ensures
        pattern::replaced(Pattern::Gas, front + seq!['['] + amount + seq![']'] + tail) == front
            + pattern::replaced(Pattern::Gas, tail),
        pattern::replaced(Pattern::Gas, front) == front,
{
    let p = Pattern::Gas;
    let s = front + seq!['['] + amount + seq![']'] + tail;
    let k = front.len() as int;
    assert forall|i: int| 0 <= i < k implies #[trigger] pattern::match_end(p, s, i) is None by {
        let rest = s.skip(i + 1);
        lemma_run_parts(rest, Class::Digit);
        assert(s[i] == front[i]);
        assert(rest[0] == s[i + 1]);
        if i + 1 < k {
            assert(s[i + 1] == front[i + 1]);
        }
        assert(s[i] == '[' ==> !pattern::in_class(Class::Digit, rest[0]));
    }
    assert forall|i: int| 0 <= i < k implies #[trigger] pattern::match_end(p, front, i) is None by {
        let rest = front.skip(i + 1);
        lemma_run_parts(rest, Class::Digit);
        if i + 1 < k {
            assert(rest[0] == front[i + 1]);
        }
    }
    lemma_kept_up_to(p, s, 0, k);
    lemma_kept_up_to(p, front, 0, k);
    assert(s.subrange(0, k) == front);
    assert(front.subrange(0, k) == front);
    assert(s.skip(k + 1) == amount + (seq![']'] + tail));
    lemma_run_is(amount, seq![']'] + tail, Class::Digit);
    let end = k + amount.len() + 2;
    assert(pattern::match_end(p, s, k) == Some(end));
    lemma_replaced_behind(p, s, end, end);
    assert(s.skip(end) == tail);
    assert(front + (Seq::<char>::empty() + pattern::replaced(p, tail)) == front + pattern::replaced(
        p,
        tail,
    ));
    assert(pattern::replaced(p, front) == front + Seq::<char>::empty());
}

/// Whether a text begins with an address.
pub open spec fn begins_with_address(s: Seq<char>) -> bool {
    s.len() >= 42 && s[0] == '0' && s[1] == 'x' && forall|j: int|
        2 <= j < 42 ==> ('0' <= #[trigger] s[j] <= '9') || ('a' <= s[j] <= 'f') || ('A' <= s[j]
            <= 'F')
}

/// Where an address matches, it stands.
pub proof fn lemma_address_at(s: Seq<char>, i: int, same: Seq<char>)
    requires
        0 <= i,
        i + 42 <= s.len(),
        i + 42 <= same.len(),
        forall|j: int| i <= j < i + 42 ==> s[j] == same[j],
        pattern::match_end(Pattern::Address, s, i) is Some,
    ensures
        begins_with_address(same.skip(i)),
{
    let rest = same.skip(i);
    assert(rest[0] == s[i] && rest[1] == s[i + 1]);
    assert forall|j: int| 2 <= j < 42 implies ('0' <= #[trigger] rest[j] <= '9') || ('a' <= rest[j]
        <= 'f') || ('A' <= rest[j] <= 'F') by {
        assert(rest[j] == same[i + j] && same[i + j] == s[i + j]);
        assert(pattern::is_hex(s[i + j]));
    }
}

/// An address keeps its prefix, its first four digits and its last four, whatever stands
/// around it. Where there is none, text stays.
pub proof fn law_an_address_is_shortened(front: Seq<char>, digits: Seq<char>, tail: Seq<char>)
    requires
        forall|i: int| 0 <= i < front.len() ==> !begins_with_address(#[trigger] front.push('0').skip(i)),
        digits.len() == 40,
        forall|i: int|
            0 <= i < 40 ==> ('0' <= #[trigger] digits[i] <= '9') || ('a' <= digits[i] <= 'f') || ('A'
                <= digits[i] <= 'F'),
    ensures
        pattern::replaced(Pattern::Address, front + seq!['0', 'x'] + digits + tail) == front + seq![
            '0',
            'x',
        ] + digits.subrange(0, 4) + seq!['.', '.'] + digits.subrange(36, 40) + pattern::replaced(
            Pattern::Address,
            tail,
        ),
        pattern::replaced(Pattern::Address, front) == front,
{
    let p = Pattern::Address;
    let s = front + seq!['0', 'x'] + digits + tail;
    let k = front.len() as int;
    assert(s[k] == '0' && s[k + 1] == 'x');
    assert forall|i: int| 0 <= i < k implies #[trigger] pattern::match_end(p, s, i) is None by {
        if pattern::match_end(p, s, i) is Some {
            if i + 42 > k + 1 {
                if i + 1 == k {
                    assert(s[i + 1] == '0');
                } else {
                    assert(pattern::is_hex(s[k + 1]));
                }
            } else {
                lemma_address_at(s, i, front.push('0'));
            }
        }
    }
    assert forall|i: int| 0 <= i < k implies #[trigger] pattern::match_end(p, front, i) is None by {
        if pattern::match_end(p, front, i) is Some {
            lemma_address_at(front, i, front.push('0'));
        }
    }
    lemma_kept_up_to(p, s, 0, k);
    lemma_kept_up_to(p, front, 0, k);
    assert(s.subrange(0, k) == front);
    assert(front.subrange(0, k) == front);
    let end = k + 42;
    assert(s[k] == '0' && s[k + 1] == 'x');
    assert forall|j: int| k + 2 <= j < k + 42 implies pattern::is_hex(#[trigger] s[j]) by {
        assert(s[j] == digits[j - k - 2]);
    }
    assert(pattern::match_end(p, s, k) == Some(end));
    lemma_replaced_behind(p, s, end, end);
    assert(s.skip(end) == tail);
    let found = s.subrange(k, end);
    reveal_strlit("..");
    let short = seq!['0', 'x'] + digits.subrange(0, 4) + seq!['.', '.'] + digits.subrange(36, 40);
    assert(found.take(6) == seq!['0', 'x'] + digits.subrange(0, 4));
    assert(found.skip(38) == digits.subrange(36, 40));
    assert(".."@ == seq!['.', '.']);
    assert(pattern::rewritten(p, found) == short);
    assert(front + (short + pattern::replaced(p, tail)) == front + seq!['0', 'x'] + digits.subrange(
        0,
        4,
    ) + seq!['.', '.'] + digits.subrange(36, 40) + pattern::replaced(p, tail));
    assert(pattern::replaced(p, front) == front + Seq::<char>::empty());
}

/// A run of seven ASCII digits or more that stands alone is put in scientific notation by
/// its value, and each number of seven digits or more by itself.
pub proof fn law_integers_are_put_in_scientific_notation(digits: Seq<char>)
    requires
        digits.len() >= 7,
        forall|i: int| 0 <= i < digits.len() ==> '0' <= #[trigger] digits[i] <= '9',
    ensures
        pattern::rewritten(Pattern::LargeInt, digits) == scientific::sci_notation(
            decimal::value(digits),
        ),
        pattern::replaced(Pattern::LargeInt, digits) == scientific::sci_notation(
            decimal::value(digits),
        ),
{
    let p = Pattern::LargeInt;
    assert(decimal::all_digits(digits));
    assert(digits.skip(0) == digits + Seq::<char>::empty());
    lemma_run_is(digits, seq![], Class::Digit);
    assert(pattern::match_end(p, digits, 0) == Some(digits.len() as int));
    assert(digits.subrange(0, digits.len() as int) == digits);
    let new = pattern::rewritten(p, digits);
    assert(pattern::replaced_from(p, digits, digits.len() as int) == Seq::<char>::empty());
    assert(new + Seq::<char>::empty() == new);
}

/// A number is put in scientific notation where its digits are a match.
pub proof fn law_a_number_is_put_in_scientific_notation(n: nat)
    ensures
        pattern::rewritten(Pattern::LargeInt, decimal::decimal(n)) == scientific::sci_notation(n),
        n >= 1_000_000 ==> pattern::replaced(Pattern::LargeInt, decimal::decimal(n))
            == scientific::sci_notation(n),
{
    decimal::law_digits_read_back(n);
    let digits = decimal::decimal(n);
    assert forall|i: int| 0 <= i < digits.len() implies '0' <= #[trigger] digits[i] <= '9' by {
        assert(decimal::is_ascii_digit(digits[i]));
    }
    if n >= 1_000_000 {
        reveal_with_fuel(decimal::decimal, 7);
        law_integers_are_put_in_scientific_notation(digits);
    }
}

/// Digits that are not all ASCII are not read: they count as zero.
pub proof fn law_other_digits_count_as_zero(digits: Seq<char>, i: int)
    requires
        0 <= i < digits.len(),
        !('0' <= digits[i] <= '9'),
    ensures
        pattern::rewritten(Pattern::LargeInt, digits) == seq!['0'],
{
    assert(!decimal::is_ascii_digit(digits[i]));
    assert(decimal::decimal(0) == seq!['0']);
}

} // verus!
