//! What holds of the content of compressed trace lines.

use crate::decimal;
use crate::pattern;
use crate::pattern::{Class, Pattern};
use crate::pattern_laws;
use crate::pattern_laws::{begins_with_address, may_be_an_amount, separates};
use crate::scientific;
use crate::text;
use crate::text_laws;
use crate::trace;
use crate::trace_laws;
use vstd::prelude::*;
use vstd::utf8;

verus! {

/// Gas dropped, addresses shortened, and large integers in scientific notation.
spec fn rewritten_all(s: Seq<char>) -> Seq<char> {
    pattern::replaced(
        Pattern::LargeInt,
        pattern::replaced(Pattern::Address, pattern::replaced(Pattern::Gas, s)),
    )
}

spec fn tidy(s: Seq<char>) -> Seq<char> {
    text::trimmed(text::single_spaced(s))
}

spec fn none(s: Seq<char>, unwanted: spec_fn(char) -> bool) -> bool {
    forall|i: int| 0 <= i < s.len() ==> !unwanted(#[trigger] s[i])
}

spec fn plain(unwanted: spec_fn(char) -> bool) -> bool {
    !unwanted('.') && !unwanted('e') && forall|c: char| '0' <= c <= '9' ==> !#[trigger] unwanted(c)
}

proof fn lemma_none_in_number(n: nat, unwanted: spec_fn(char) -> bool)
    requires
        plain(unwanted),
    ensures
        none(decimal::decimal(n), unwanted),
{
    decimal::law_digits_read_back(n);
    let digits = decimal::decimal(n);
    assert forall|i: int| 0 <= i < digits.len() implies !unwanted(#[trigger] digits[i]) by {
        assert(decimal::is_ascii_digit(digits[i]));
    }
}

proof fn lemma_none_in_notation(n: nat, unwanted: spec_fn(char) -> bool)
    requires
        plain(unwanted),
    ensures
        none(scientific::sci_notation(n), unwanted),
{
    let w = scientific::notation(n);
    lemma_none_in_number(n, unwanted);
    lemma_none_in_number(w.exponent, unwanted);
    lemma_none_in_number((w.hundredths / 100) as nat, unwanted);
    assert('0' <= decimal::digit(w.hundredths / 10 % 10) <= '9');
    assert('0' <= decimal::digit(w.hundredths % 10) <= '9');
    assert(none(scientific::mantissa_text(w), unwanted));
    assert(none(scientific::text_of(w), unwanted));
}

proof fn lemma_none_in_replaced(
    p: Pattern,
    s: Seq<char>,
    i: int,
    unwanted: spec_fn(char) -> bool,
)
    requires
        pattern::rewrites(p),
        plain(unwanted),
        none(s, unwanted),
    ensures
        none(pattern::replaced_from(p, s, i), unwanted),
    decreases s.len() - i,
{
    if 0 <= i < s.len() {
        match pattern::match_end(p, s, i) {
            Some(end) if i < end && end <= s.len() => {
                lemma_none_in_replaced(p, s, end, unwanted);
                let found = s.subrange(i, end);
                if p is Address {
                    reveal_strlit("..");
                    assert(found.len() == 42);
                    assert(forall|j: int| 0 <= j < found.len() ==> found[j] == s[i + j]);
                } else if p is LargeInt {
                    lemma_none_in_notation(pattern::integer_read(found), unwanted);
                }
                assert(none(pattern::rewritten(p, found), unwanted));
            },
            _ => {
                lemma_none_in_replaced(p, s, i + 1, unwanted);
            },
        }
    }
}

proof fn lemma_none_in_rewritten_all(s: Seq<char>, unwanted: spec_fn(char) -> bool)
    requires
        plain(unwanted),
        none(s, unwanted),
    ensures
        none(rewritten_all(s), unwanted),
        none(pattern::replaced(Pattern::BoxDrawing, s), unwanted),
{
    lemma_none_in_replaced(Pattern::BoxDrawing, s, 0, unwanted);
    lemma_none_in_replaced(Pattern::Gas, s, 0, unwanted);
    let no_gas = pattern::replaced(Pattern::Gas, s);
    lemma_none_in_replaced(Pattern::Address, no_gas, 0, unwanted);
    let short = pattern::replaced(Pattern::Address, no_gas);
    lemma_none_in_replaced(Pattern::LargeInt, short, 0, unwanted);
}

proof fn lemma_rewritten_all_apart(front: Seq<char>, c: char, tail: Seq<char>)
    requires
        separates(c),
    ensures
        rewritten_all(front + seq![c] + tail) == rewritten_all(front) + seq![c] + rewritten_all(
            tail,
        ),
{
    pattern_laws::law_matches_end_at_separators(Pattern::Gas, front, c, tail);
    let front1 = pattern::replaced(Pattern::Gas, front);
    let tail1 = pattern::replaced(Pattern::Gas, tail);
    pattern_laws::law_matches_end_at_separators(Pattern::Address, front1, c, tail1);
    let front2 = pattern::replaced(Pattern::Address, front1);
    let tail2 = pattern::replaced(Pattern::Address, tail1);
    pattern_laws::law_matches_end_at_separators(Pattern::LargeInt, front2, c, tail2);
}

proof fn lemma_rewritten_all_empty()
    ensures
        rewritten_all(seq![]) == Seq::<char>::empty(),
{
    assert(pattern::replaced(Pattern::Gas, seq![]) == Seq::<char>::empty());
    assert(pattern::replaced(Pattern::Address, seq![]) == Seq::<char>::empty());
    assert(pattern::replaced(Pattern::LargeInt, seq![]) == Seq::<char>::empty());
}

proof fn lemma_separators_in_front(white: Seq<char>, s: Seq<char>)
    requires
        forall|i: int| 0 <= i < white.len() ==> separates(#[trigger] white[i]),
    ensures
        rewritten_all(white + s) == white + rewritten_all(s),
    decreases white.len(),
{
    if white.len() == 0 {
        assert(white + s == s);
        assert(white + rewritten_all(s) == rewritten_all(s));
    } else {
        let c = white[0];
        let rest = white.drop_first();
        assert forall|i: int| 0 <= i < rest.len() implies separates(#[trigger] rest[i]) by {
            assert(rest[i] == white[i + 1]);
        }
        lemma_separators_in_front(rest, s);
        lemma_rewritten_all_apart(seq![], c, rest + s);
        lemma_rewritten_all_empty();
        assert(white + s == Seq::<char>::empty() + seq![c] + (rest + s));
        assert(white + rewritten_all(s) == Seq::<char>::empty() + seq![c] + (rest + rewritten_all(
            s,
        )));
    }
}

proof fn lemma_separators_behind(s: Seq<char>, white: Seq<char>)
    requires
        forall|i: int| 0 <= i < white.len() ==> separates(#[trigger] white[i]),
    ensures
        rewritten_all(s + white) == rewritten_all(s) + white,
    decreases white.len(),
{
    if white.len() == 0 {
        assert(s + white == s);
        assert(rewritten_all(s) + white == rewritten_all(s));
    } else {
        let c = white.last();
        assert(separates(white[white.len() - 1]));
        let rest = white.drop_last();
        assert forall|i: int| 0 <= i < rest.len() implies separates(#[trigger] rest[i]) by {
            assert(rest[i] == white[i]);
        }
        lemma_separators_behind(s, rest);
        lemma_rewritten_all_apart(s + rest, c, seq![]);
        lemma_rewritten_all_empty();
        assert(s + white == s + rest + seq![c] + Seq::<char>::empty());
        assert(rewritten_all(s) + white == rewritten_all(s) + rest + seq![c]
            + Seq::<char>::empty());
    }
}

proof fn lemma_spaced_apart(front: Seq<char>, tail: Seq<char>)
    requires
        front.len() == 0 || tail.len() == 0 || front.last() != ' ' || tail.first() != ' ',
    ensures
        text::single_spaced(front + tail) == text::single_spaced(front) + text::single_spaced(tail),
    decreases tail.len(),
{
    let s = front + tail;
    if tail.len() == 0 {
        assert(s == front);
        assert(text::single_spaced(front) + text::single_spaced(tail) == text::single_spaced(front));
    } else if front.len() == 0 {
        assert(s == tail);
        assert(text::single_spaced(front) + text::single_spaced(tail) == text::single_spaced(tail));
    } else {
        let init = tail.drop_last();
        lemma_spaced_apart(front, init);
        assert(s.drop_last() == front + init);
        assert(s.last() == tail.last());
        if init.len() == 0 {
            assert(s[s.len() - 2] == front.last());
            assert(front + init == front);
            assert(text::single_spaced(s) == text::single_spaced(front).push(tail.last()));
            assert(text::single_spaced(tail) == seq![tail.last()]);
        } else {
            assert(s[s.len() - 2] == tail[tail.len() - 2]);
            assert((text::single_spaced(front) + text::single_spaced(init)).push(tail.last())
                == text::single_spaced(front) + text::single_spaced(init).push(tail.last()));
        }
    }
}

proof fn lemma_spaced_white(s: Seq<char>)
    requires
        forall|i: int| 0 <= i < s.len() ==> text::is_white(#[trigger] s[i]),
    ensures
        forall|i: int|
            0 <= i < text::single_spaced(s).len() ==> text::is_white(
                #[trigger] text::single_spaced(s)[i],
            ),
    decreases s.len(),
{
    if s.len() >= 2 {
        let init = s.drop_last();
        assert forall|i: int| 0 <= i < init.len() implies text::is_white(#[trigger] init[i]) by {
            assert(init[i] == s[i]);
        }
        lemma_spaced_white(init);
        assert(text::is_white(s[s.len() - 1]));
        let out = text::single_spaced(s);
        assert forall|i: int| 0 <= i < out.len() implies text::is_white(#[trigger] out[i]) by {
            if i < text::single_spaced(init).len() {
                assert(out[i] == text::single_spaced(init)[i]);
            }
        }
    }
}

proof fn lemma_spaced_spaces(s: Seq<char>)
    requires
        s.len() > 0,
        forall|i: int| 0 <= i < s.len() ==> #[trigger] s[i] == ' ',
    ensures
        text::single_spaced(s) == seq![' '],
    decreases s.len(),
{
    if s.len() >= 2 {
        assert(s[s.len() - 1] == ' ' && s[s.len() - 2] == ' ');
        lemma_spaced_spaces(s.drop_last());
    } else {
        assert(s[0] == ' ');
        assert(s == seq![' ']);
    }
}

proof fn lemma_spaced_first(s: Seq<char>)
    ensures
        s.len() > 0 ==> text::single_spaced(s).len() > 0 && text::single_spaced(s).first()
            == s.first(),
    decreases s.len(),
{
    if s.len() >= 2 {
        lemma_spaced_first(s.drop_last());
    }
}

proof fn lemma_tidy(s: Seq<char>)
    ensures
        tidy(s) == text::single_spaced(text::trimmed(s)),
{
    let (before, after) = text_laws::lemma_core(s);
    let core = text::trimmed(s);
    text::lemma_trimmed(s);
    lemma_spaced_white(before);
    lemma_spaced_white(after);
    let spaced = text::single_spaced(core);
    if core.len() > 0 {
        lemma_spaced_apart(before + core, after);
        lemma_spaced_apart(before, core);
        lemma_spaced_first(core);
        trace_laws::lemma_single_spaced(core);
        text_laws::law_trimming_drops_white_space_alone(
            text::single_spaced(before),
            spaced,
            text::single_spaced(after),
        );
    } else {
        assert(before + core + after == before + after);
        let white = before + after;
        assert forall|i: int| 0 <= i < white.len() implies text::is_white(#[trigger] white[i]) by {
            if i < before.len() {
                assert(white[i] == before[i]);
            } else {
                assert(white[i] == after[i - before.len()]);
            }
        }
        lemma_spaced_white(white);
        let empty = Seq::<char>::empty();
        text_laws::law_trimming_drops_white_space_alone(text::single_spaced(white), empty, empty);
        assert(text::single_spaced(white) + empty + empty == text::single_spaced(white));
        assert(core == empty);
    }
}

proof fn lemma_tidy_around(before: Seq<char>, s: Seq<char>, after: Seq<char>)
    requires
        forall|i: int| 0 <= i < before.len() ==> text::is_white(#[trigger] before[i]),
        forall|i: int| 0 <= i < after.len() ==> text::is_white(#[trigger] after[i]),
    ensures
        tidy(before + s + after) == tidy(s),
{
    lemma_tidy(s);
    lemma_tidy(before + s + after);
    text_laws::lemma_white_behind(before + s, after);
    text_laws::lemma_white_in_front(before, s);
}

/// White space around a line adds nothing to its content.
pub proof fn law_white_space_around_adds_nothing(
    before: Seq<char>,
    line: Seq<char>,
    after: Seq<char>,
)
    requires
        forall|i: int| 0 <= i < before.len() ==> text::is_white(#[trigger] before[i]),
        forall|i: int| 0 <= i < after.len() ==> text::is_white(#[trigger] after[i]),
    ensures
        trace::content(before + line + after) == trace::content(line),
{
    text_laws::lemma_white_behind(before + line, after);
    text_laws::lemma_white_in_front(before, line);
}

proof fn lemma_white_filtered(white: Seq<char>, wanted: spec_fn(char) -> bool)
    requires
        forall|i: int| 0 <= i < white.len() ==> text::is_white(#[trigger] white[i]),
        wanted == (|c: char| !(c == '├' || c == '└' || c == '│' || c == '─')),
    ensures
        white.filter(wanted) == white,
{
    pattern_laws::lemma_filter_all(white, wanted);
}

proof fn lemma_trimmed_filtered(line: Seq<char>, wanted: spec_fn(char) -> bool)
    requires
        wanted == (|c: char| !(c == '├' || c == '└' || c == '│' || c == '─')),
    ensures
        text::trimmed(text::trimmed(line).filter(wanted)) == text::trimmed(line.filter(wanted)),
{
    let (before, after) = text_laws::lemma_core(line);
    let core = text::trimmed(line);
    lemma_white_filtered(before, wanted);
    lemma_white_filtered(after, wanted);
    Seq::filter_distributes_over_add(before + core, after, wanted);
    Seq::filter_distributes_over_add(before, core, wanted);
    text_laws::lemma_white_behind(before + core.filter(wanted), after);
    text_laws::lemma_white_in_front(before, core.filter(wanted));
}

/// What draws the tree adds nothing to the content of a line, wherever it stands.
pub proof fn law_the_tree_adds_nothing(line: Seq<char>)
    ensures
        trace::content(line) == trace::content(
            line.filter(|c: char| !(c == '├' || c == '└' || c == '│' || c == '─')),
        ),
{
    let wanted = |c: char| !(c == '├' || c == '└' || c == '│' || c == '─');
    let without = line.filter(wanted);
    pattern_laws::law_the_tree_is_dropped(text::trimmed(line));
    pattern_laws::law_the_tree_is_dropped(text::trimmed(without));
    lemma_trimmed_filtered(line, wanted);
    lemma_trimmed_filtered(without, wanted);
    broadcast use vstd::seq_lib::group_filter_ensures;

    pattern_laws::lemma_filter_all(without, wanted);
}

proof fn lemma_ascii_white(line: Seq<char>)
    requires
        forall|i: int|
            0 <= i < line.len() && #[trigger] text::is_white(line[i]) ==> line[i] <= '\u{7f}',
    ensures
        trace::content(line) == tidy(
            rewritten_all(pattern::replaced(Pattern::BoxDrawing, line)),
        ),
{
    let wanted = |c: char| !(c == '├' || c == '└' || c == '│' || c == '─');
    let odd = |c: char| text::is_white(c) && c > '\u{7f}';
    pattern_laws::law_the_tree_is_dropped(line);
    pattern_laws::law_the_tree_is_dropped(text::trimmed(line));
    lemma_trimmed_filtered(line, wanted);
    let all = line.filter(wanted);
    let core = text::trimmed(all);
    assert(none(line, odd));
    lemma_none_in_rewritten_all(line, odd);
    let (before, after) = text_laws::lemma_core(all);
    assert forall|i: int| 0 <= i < before.len() implies separates(#[trigger] before[i]) by {
        assert(before[i] == all[i]);
        assert(!odd(all[i]));
    }
    assert forall|i: int| 0 <= i < after.len() implies separates(#[trigger] after[i]) by {
        let j = before.len() + core.len() + i;
        assert(after[i] == all[j]);
        assert(!odd(all[j]));
    }
    lemma_separators_behind(before + core, after);
    lemma_separators_in_front(before, core);
    lemma_tidy_around(before, rewritten_all(core), after);
}

#[verifier::spinoff_prover]
#[verifier::rlimit(40)]
proof fn lemma_tidy_apart(front: Seq<char>, tail: Seq<char>)
    requires
        forall|i: int|
            0 <= i < front.len() && #[trigger] text::is_white(front[i]) ==> front[i] == ' ',
        forall|i: int| 0 <= i < tail.len() && #[trigger] text::is_white(tail[i]) ==> tail[i] == ' ',
    ensures
        tidy(front + seq![' '] + tail) == (if tidy(front).len() == 0 {
            tidy(tail)
        } else if tidy(tail).len() == 0 {
            tidy(front)
        } else {
            tidy(front) + seq![' '] + tidy(tail)
        }),
{
    let s = front + seq![' '] + tail;
    lemma_tidy(s);
    lemma_tidy(front);
    lemma_tidy(tail);
    let (b1, a1) = text_laws::lemma_core(front);
    let (b2, a2) = text_laws::lemma_core(tail);
    let c1 = text::trimmed(front);
    let c2 = text::trimmed(tail);
    text::lemma_trimmed(front);
    text::lemma_trimmed(tail);
    lemma_spaced_first(c1);
    lemma_spaced_first(c2);
    if c1.len() == 0 {
        assert(front == b1 + a1);
        let white = front + seq![' '];
        assert forall|i: int| 0 <= i < white.len() implies text::is_white(#[trigger] white[i]) by {
            if i < b1.len() {
                assert(white[i] == b1[i]);
            } else if i < front.len() {
                assert(white[i] == a1[i - b1.len()]);
            }
        }
        text_laws::lemma_white_in_front(white, tail);
        assert(text::single_spaced(c1).len() == 0);
    } else if c2.len() == 0 {
        assert(tail == b2 + a2);
        let white = seq![' '] + tail;
        assert forall|i: int| 0 <= i < white.len() implies text::is_white(#[trigger] white[i]) by {
            if i > 0 {
                assert(white[i] == tail[i - 1]);
                if i - 1 < b2.len() {
                    assert(white[i] == b2[i - 1]);
                } else {
                    assert(white[i] == a2[i - 1 - b2.len()]);
                }
            }
        }
        text_laws::lemma_white_behind(front, white);
        assert(s == front + white);
        assert(text::single_spaced(c2).len() == 0);
    } else {
        assert forall|i: int| 0 <= i < a1.len() implies #[trigger] a1[i] == ' ' by {
            assert(a1[i] == front[b1.len() + c1.len() + i]);
            assert(text::is_white(front[b1.len() + c1.len() + i]));
        }
        assert forall|i: int| 0 <= i < b2.len() implies #[trigger] b2[i] == ' ' by {
            assert(b2[i] == tail[i]);
            assert(text::is_white(tail[i]));
        }
        let gap = a1 + seq![' '] + b2;
        assert(s == b1 + (c1 + gap + c2) + a2);
        lemma_tidy_around(b1, c1 + gap + c2, a2);
        lemma_gap(c1, a1, b2, c2);
    }
}

proof fn lemma_gap(front: Seq<char>, before: Seq<char>, after: Seq<char>, tail: Seq<char>)
    requires
        front.len() > 0,
        tail.len() > 0,
        !text::is_white(front.first()),
        !text::is_white(front.last()),
        !text::is_white(tail.first()),
        !text::is_white(tail.last()),
        forall|i: int| 0 <= i < before.len() ==> #[trigger] before[i] == ' ',
        forall|i: int| 0 <= i < after.len() ==> #[trigger] after[i] == ' ',
    ensures
        tidy(front + (before + seq![' '] + after) + tail) == text::single_spaced(front) + seq![' ']
            + text::single_spaced(tail),
{
    let gap = before + seq![' '] + after;
    assert forall|i: int| 0 <= i < gap.len() implies #[trigger] gap[i] == ' ' by {
        if i < before.len() {
            assert(gap[i] == before[i]);
        } else if i > before.len() {
            assert(gap[i] == after[i - before.len() - 1]);
        }
    }
    lemma_spaced_spaces(gap);
    let core = front + gap + tail;
    lemma_tidy(core);
    lemma_trimmed_stays(core);
    lemma_spaced_apart(front + gap, tail);
    lemma_spaced_apart(front, gap);
}

/// The parts of a line before and behind a space are compressed apart, where it holds no
/// white space but spaces: no content goes across a space.
pub proof fn law_words_are_compressed_apart(front: Seq<char>, tail: Seq<char>)
    requires
        forall|i: int|
            0 <= i < front.len() && #[trigger] text::is_white(front[i]) ==> front[i] == ' ',
        forall|i: int| 0 <= i < tail.len() && #[trigger] text::is_white(tail[i]) ==> tail[i] == ' ',
    ensures
        trace::content(front + seq![' '] + tail) == (if trace::content(front).len() == 0 {
            trace::content(tail)
        } else if trace::content(tail).len() == 0 {
            trace::content(front)
        } else {
            trace::content(front) + seq![' '] + trace::content(tail)
        }),
{
    let s = front + seq![' '] + tail;
    assert forall|i: int| 0 <= i < s.len() && #[trigger] text::is_white(s[i]) implies s[i] == ' ' by {
        if i < front.len() {
            assert(s[i] == front[i]);
            assert(text::is_white(front[i]));
        } else if i > front.len() {
            assert(s[i] == tail[i - front.len() - 1]);
            assert(text::is_white(tail[i - front.len() - 1]));
        }
    }
    lemma_ascii_white(front);
    lemma_ascii_white(tail);
    lemma_ascii_white(s);
    let odd = |c: char| text::is_white(c) && c != ' ';
    assert(none(front, odd) && none(tail, odd));
    lemma_none_in_rewritten_all(front, odd);
    lemma_none_in_rewritten_all(tail, odd);
    let front1 = pattern::replaced(Pattern::BoxDrawing, front);
    let tail1 = pattern::replaced(Pattern::BoxDrawing, tail);
    lemma_none_in_rewritten_all(front1, odd);
    lemma_none_in_rewritten_all(tail1, odd);
    pattern_laws::law_matches_end_at_separators(Pattern::BoxDrawing, front, ' ', tail);
    lemma_rewritten_all_apart(front1, ' ', tail1);
    let front2 = rewritten_all(front1);
    let tail2 = rewritten_all(tail1);
    assert forall|i: int|
        0 <= i < front2.len() && #[trigger] text::is_white(front2[i]) implies front2[i] == ' ' by {
        assert(!odd(front2[i]));
    }
    assert forall|i: int|
        0 <= i < tail2.len() && #[trigger] text::is_white(tail2[i]) implies tail2[i] == ' ' by {
        assert(!odd(tail2[i]));
    }
    lemma_tidy_apart(front2, tail2);
}

proof fn lemma_no_white(word: Seq<char>)
    requires
        forall|i: int| 0 <= i < word.len() ==> !text::is_white(#[trigger] word[i]),
    ensures
        trace::content(word) == rewritten_all(pattern::replaced(Pattern::BoxDrawing, word)),
{
    let white = |c: char| text::is_white(c);
    assert(none(word, white));
    assert forall|i: int| 0 <= i < word.len() && #[trigger] text::is_white(word[i]) implies word[i]
        == ' ' by {
        assert(!text::is_white(word[i]));
    }
    lemma_ascii_white(word);
    lemma_none_in_rewritten_all(word, white);
    let drawn = pattern::replaced(Pattern::BoxDrawing, word);
    lemma_none_in_rewritten_all(drawn, white);
    lemma_tidy_of_word(rewritten_all(drawn));
}

proof fn lemma_tidy_of_word(s: Seq<char>)
    requires
        none(s, |c: char| text::is_white(c)),
    ensures
        tidy(s) == s,
{
    let white = |c: char| text::is_white(c);
    assert forall|i: int| 0 <= i < s.len() implies #[trigger] s[i] != ' ' by {
        assert(!white(s[i]));
    }
    text_laws::law_single_spaces_stay(s);
    let empty = Seq::<char>::empty();
    if s.len() > 0 {
        assert(!white(s[0]) && !white(s[s.len() - 1]));
    }
    text_laws::law_trimming_drops_white_space_alone(empty, s, empty);
    assert(empty + s + empty == s);
}

/// Two words with a single character of ASCII white space between them stay apart by it. Where
/// nothing is left of one of them, the other is left alone.
pub proof fn law_white_space_between_words_stays(front: Seq<char>, c: char, tail: Seq<char>)
    requires
        forall|i: int| 0 <= i < front.len() ==> !text::is_white(#[trigger] front[i]),
        forall|i: int| 0 <= i < tail.len() ==> !text::is_white(#[trigger] tail[i]),
        c == ' ' || ('\t' <= c <= '\r'),
    ensures
        trace::content(front + seq![c] + tail) == (if trace::content(front).len() == 0 {
            trace::content(tail)
        } else if trace::content(tail).len() == 0 {
            trace::content(front)
        } else {
            trace::content(front) + seq![c] + trace::content(tail)
        }),
{
    let s = front + seq![c] + tail;
    assert forall|i: int| 0 <= i < s.len() && #[trigger] text::is_white(s[i]) implies s[i]
        <= '\u{7f}' by {
        if i < front.len() {
            assert(s[i] == front[i]);
        } else if i > front.len() {
            assert(s[i] == tail[i - front.len() - 1]);
        }
    }
    lemma_ascii_white(s);
    lemma_no_white(front);
    lemma_no_white(tail);
    let front1 = pattern::replaced(Pattern::BoxDrawing, front);
    let tail1 = pattern::replaced(Pattern::BoxDrawing, tail);
    pattern_laws::law_matches_end_at_separators(Pattern::BoxDrawing, front, c, tail);
    lemma_rewritten_all_apart(front1, c, tail1);
    let white = |c: char| text::is_white(c);
    assert(none(front, white) && none(tail, white));
    lemma_none_in_rewritten_all(front, white);
    lemma_none_in_rewritten_all(tail, white);
    lemma_none_in_rewritten_all(front1, white);
    lemma_none_in_rewritten_all(tail1, white);
    lemma_tidy_of_words(rewritten_all(front1), c, rewritten_all(tail1));
}

proof fn lemma_tidy_of_words(front: Seq<char>, c: char, tail: Seq<char>)
    requires
        none(front, |c: char| text::is_white(c)),
        none(tail, |c: char| text::is_white(c)),
        text::is_white(c),
    ensures
        tidy(front + seq![c] + tail) == (if front.len() == 0 {
            tail
        } else if tail.len() == 0 {
            front
        } else {
            front + seq![c] + tail
        }),
{
    let white = |c: char| text::is_white(c);
    let s = front + seq![c] + tail;
    let empty = Seq::<char>::empty();
    lemma_tidy_of_word(front);
    lemma_tidy_of_word(tail);
    if front.len() == 0 {
        lemma_tidy_around(seq![c], tail, empty);
        assert(s == seq![c] + tail + empty);
    } else if tail.len() == 0 {
        lemma_tidy_around(empty, front, seq![c]);
        assert(s == empty + front + seq![c]);
    } else {
        assert(!white(front[0]) && !white(tail[tail.len() - 1]));
        lemma_tidy(s);
        lemma_trimmed_stays(s);
        assert forall|i: int, j: int|
            0 <= i && j == i + 1 && j < s.len() && #[trigger] s[i] == ' ' implies #[trigger] s[j]
            != ' ' by {
            if i < front.len() {
                assert(s[i] == front[i]);
                assert(!white(front[i]));
            } else if i > front.len() {
                assert(s[i] == tail[i - front.len() - 1]);
                assert(!white(tail[i - front.len() - 1]));
            } else {
                assert(s[j] == tail[0]);
                assert(!white(tail[0]));
            }
        }
        text_laws::law_single_spaces_stay(s);
    }
}

/// The parts of a word before and behind a separator, such as a bracket of a call, a comma
/// or a colon, are compressed apart.
pub proof fn law_parts_of_words_are_compressed_apart(front: Seq<char>, c: char, tail: Seq<char>)
    requires
        forall|i: int| 0 <= i < front.len() ==> !text::is_white(#[trigger] front[i]),
        forall|i: int| 0 <= i < tail.len() ==> !text::is_white(#[trigger] tail[i]),
        separates(c),
        !text::is_white(c),
    ensures
        trace::content(front + seq![c] + tail) == trace::content(front) + seq![c] + trace::content(
            tail,
        ),
{
    let s = front + seq![c] + tail;
    assert forall|i: int| 0 <= i < s.len() implies !text::is_white(#[trigger] s[i]) by {
        if i < front.len() {
            assert(s[i] == front[i]);
        } else if i > front.len() {
            assert(s[i] == tail[i - front.len() - 1]);
        }
    }
    lemma_no_white(front);
    lemma_no_white(tail);
    lemma_no_white(s);
    pattern_laws::law_matches_end_at_separators(Pattern::BoxDrawing, front, c, tail);
    lemma_rewritten_all_apart(
        pattern::replaced(Pattern::BoxDrawing, front),
        c,
        pattern::replaced(Pattern::BoxDrawing, tail),
    );
}

proof fn lemma_no_gas(s: Seq<char>)
    requires
        forall|i: int, j: int|
            0 <= i && j == i + 1 && j < s.len() && #[trigger] s[i] == '[' ==> #[trigger] s[j]
                <= '\u{7f}' && !('0' <= s[j] <= '9'),
    ensures
        pattern::replaced(Pattern::Gas, s) == s,
{
    let p = Pattern::Gas;
    assert forall|i: int| 0 <= i < s.len() implies #[trigger] pattern::match_end(p, s, i) is None by {
        pattern_laws::lemma_run_parts(s.skip(i + 1), Class::Digit);
        if s[i] == '[' && i + 1 < s.len() {
            assert(s.skip(i + 1)[0] == s[i + 1]);
        }
    }
    trace_laws::law_without_a_match_nothing_changes(p, s);
}

/// Whether a text begins with seven characters that may be digits: no other ASCII characters
/// are among them.
pub open spec fn may_begin_with_seven_digits(s: Seq<char>) -> bool {
    s.len() >= 7 && forall|j: int|
        0 <= j < 7 ==> ('0' <= #[trigger] s[j] <= '9') || s[j] > '\u{7f}'
}

proof fn lemma_no_address(s: Seq<char>)
    requires
        forall|i: int| 0 <= i < s.len() ==> !begins_with_address(#[trigger] s.skip(i)),
    ensures
        pattern::replaced(Pattern::Address, s) == s,
{
    let p = Pattern::Address;
    assert forall|i: int| 0 <= i < s.len() implies #[trigger] pattern::match_end(p, s, i) is None by {
        if pattern::match_end(p, s, i) is Some {
            pattern_laws::lemma_address_at(s, i, s);
            assert(!begins_with_address(s.skip(i)));
        }
    }
    trace_laws::law_without_a_match_nothing_changes(p, s);
}

proof fn lemma_no_large_int(s: Seq<char>)
    requires
        forall|i: int| 0 <= i < s.len() ==> !may_begin_with_seven_digits(#[trigger] s.skip(i)),
    ensures
        pattern::replaced(Pattern::LargeInt, s) == s,
{
    let p = Pattern::LargeInt;
    assert forall|i: int| 0 <= i < s.len() implies #[trigger] pattern::match_end(p, s, i) is None by {
        let rest = s.skip(i);
        pattern_laws::lemma_run_parts(rest, Class::Digit);
        if pattern::run(rest, Class::Digit) >= 7 {
            assert forall|j: int| 0 <= j < 7 implies ('0' <= #[trigger] rest[j] <= '9') || rest[j]
                > '\u{7f}' by {
                assert(pattern::in_class(Class::Digit, rest[j]));
            }
            assert(may_begin_with_seven_digits(rest));
        }
    }
    trace_laws::law_without_a_match_nothing_changes(p, s);
}

proof fn lemma_no_tree(s: Seq<char>)
    requires
        forall|i: int|
            0 <= i < s.len() ==> !(#[trigger] s[i] == '├' || s[i] == '└' || s[i] == '│' || s[i]
                == '─'),
    ensures
        pattern::replaced(Pattern::BoxDrawing, s) == s,
{
    let wanted = |c: char| !(c == '├' || c == '└' || c == '│' || c == '─');
    pattern_laws::law_the_tree_is_dropped(s);
    pattern_laws::lemma_filter_all(s, wanted);
}

proof fn lemma_trimmed_stays(s: Seq<char>)
    requires
        s.len() > 0 ==> !text::is_white(s.first()) && !text::is_white(s.last()),
    ensures
        text::trimmed(s) == s,
{
    let empty = Seq::<char>::empty();
    text_laws::law_trimming_drops_white_space_alone(empty, s, empty);
    assert(empty + s + empty == s);
}

/// A line stays as it is where it holds nothing of the tree, no bracket that a digit follows,
/// no address and no seven digits side by side, no two spaces side by side, and no white
/// space at either end.
pub proof fn law_plain_text_stays(line: Seq<char>)
    requires
        forall|i: int|
            0 <= i < line.len() ==> !(#[trigger] line[i] == '├' || line[i] == '└' || line[i] == '│'
                || line[i] == '─'),
        forall|i: int, j: int|
            0 <= i && j == i + 1 && j < line.len() && #[trigger] line[i] == '['
                ==> #[trigger] line[j] <= '\u{7f}' && !('0' <= line[j] <= '9'),
        forall|i: int|
            0 <= i < line.len() ==> !begins_with_address(#[trigger] line.skip(i))
                && !may_begin_with_seven_digits(line.skip(i)),
        forall|i: int, j: int|
            0 <= i && j == i + 1 && j < line.len() && #[trigger] line[i] == ' '
                ==> #[trigger] line[j] != ' ',
        line.len() > 0 ==> !text::is_white(line.first()) && !text::is_white(line.last()),
    ensures
        trace::content(line) == line,
{
    lemma_trimmed_stays(line);
    lemma_no_tree(line);
    lemma_no_gas(line);
    lemma_no_address(line);
    lemma_no_large_int(line);
    text_laws::law_single_spaces_stay(line);
}

/// An amount of gas at the front of a line leaves nothing behind, however many digits it
/// has.
pub proof fn law_gas_leaves_nothing_behind(amount: Seq<char>, gap: Seq<char>, rest: Seq<char>)
    requires
        amount.len() > 0,
        forall|i: int| 0 <= i < amount.len() ==> '0' <= #[trigger] amount[i] <= '9',
        forall|i: int| 0 <= i < gap.len() ==> #[trigger] gap[i] == ' ' || ('\t' <= gap[i] <= '\r'),
        forall|i: int|
            0 <= i < rest.len() ==> !(#[trigger] rest[i] == '├' || rest[i] == '└' || rest[i] == '│'
                || rest[i] == '─'),
        rest.len() > 0 ==> !text::is_white(rest.first()),
    ensures
        trace::content(seq!['['] + amount + seq![']'] + gap + rest) == trace::content(rest),
{
    let gas = seq!['['] + amount + seq![']'];
    let empty = Seq::<char>::empty();
    let core = text::trimmed(rest);
    let white = lemma_core_in_front(rest);
    // With nothing behind it, the gap is dropped too.
    if core.len() > 0 {
        assert(gas + gap + rest == gas + (gap + core) + white);
        lemma_white_behind_adds_nothing(gas + (gap + core), white);
        lemma_gas_and_gap(amount, gap, core);
    } else {
        let all = gap + white;
        assert forall|i: int| 0 <= i < all.len() implies text::is_white(#[trigger] all[i]) by {
            if i < gap.len() {
                assert(all[i] == gap[i]);
            } else {
                assert(all[i] == white[i - gap.len()]);
            }
        }
        assert(rest == white);
        assert(gas + gap + rest == gas + empty + all);
        lemma_white_behind_adds_nothing(gas + empty, all);
        lemma_gas_before(amount, empty);
        assert(core == empty);
    }
}

/// A gas amount in brackets and a space in front of a text add nothing to its content, where
/// the white space in the text is ASCII.
pub proof fn law_gas_in_front_of_a_text(amount: Seq<char>, rest: Seq<char>)
    requires
        amount.len() > 0,
        forall|i: int| 0 <= i < amount.len() ==> '0' <= #[trigger] amount[i] <= '9',
        forall|i: int|
            0 <= i < rest.len() ==> !(#[trigger] rest[i] == '├' || rest[i] == '└' || rest[i] == '│'
                || rest[i] == '─'),
        forall|i: int|
            0 <= i < rest.len() && #[trigger] text::is_white(rest[i]) ==> rest[i] <= '\u{7f}',
    ensures
        trace::content(seq!['['] + amount + seq![']', ' '] + rest) == trace::content(rest),
{
    let empty = Seq::<char>::empty();
    let white = text_laws::lemma_front(rest);
    let core = text::trim_start(rest);
    text::lemma_trim_start(rest);
    let gap = seq![' '] + white;
    assert forall|i: int| 0 <= i < gap.len() implies #[trigger] gap[i] == ' ' || ('\t' <= gap[i]
        <= '\r') by {
        if i > 0 {
            assert(gap[i] == white[i - 1]);
            assert(white[i - 1] == rest[i - 1]);
            assert(text::is_white(rest[i - 1]));
        }
    }
    assert forall|i: int| 0 <= i < core.len() implies !(#[trigger] core[i] == '├' || core[i] == '└'
        || core[i] == '│' || core[i] == '─') by {
        assert(core[i] == rest[white.len() + i]);
    }
    law_gas_leaves_nothing_behind(amount, gap, core);
    assert(seq!['['] + amount + seq![']'] + gap + core == seq!['['] + amount + seq![']', ' ']
        + rest);
    law_white_space_around_adds_nothing(white, core, empty);
    assert(white + core + empty == rest);
}

proof fn lemma_white_behind_adds_nothing(line: Seq<char>, white: Seq<char>)
    requires
        forall|i: int| 0 <= i < white.len() ==> text::is_white(#[trigger] white[i]),
    ensures
        trace::content(line + white) == trace::content(line),
{
    text_laws::lemma_white_behind(line, white);
}

proof fn lemma_core_in_front(rest: Seq<char>) -> (white: Seq<char>)
    requires
        forall|i: int|
            0 <= i < rest.len() ==> !(#[trigger] rest[i] == '├' || rest[i] == '└' || rest[i] == '│'
                || rest[i] == '─'),
        rest.len() > 0 ==> !text::is_white(rest.first()),
    ensures
        rest == text::trimmed(rest) + white,
        forall|i: int| 0 <= i < white.len() ==> text::is_white(#[trigger] white[i]),
        text::trimmed(rest).len() > 0 ==> !text::is_white(text::trimmed(rest).last()),
        forall|i: int|
            0 <= i < text::trimmed(rest).len() ==> !(#[trigger] text::trimmed(rest)[i] == '├'
                || text::trimmed(rest)[i] == '└' || text::trimmed(rest)[i] == '│' || text::trimmed(
                rest,
            )[i] == '─'),
        trace::content(rest) == tidy(rewritten_all(text::trimmed(rest))),
{
    let (before, white) = text_laws::lemma_core(rest);
    let core = text::trimmed(rest);
    text::lemma_trimmed(rest);
    if before.len() > 0 {
        assert(rest.first() == before[0]);
    }
    assert(rest == core + white);
    assert forall|i: int| 0 <= i < core.len() implies !(#[trigger] core[i] == '├' || core[i] == '└'
        || core[i] == '│' || core[i] == '─') by {
        assert(core[i] == rest[i]);
    }
    lemma_no_tree(core);
    lemma_trimmed_stays(core);
    white
}

proof fn lemma_gas_and_gap(amount: Seq<char>, gap: Seq<char>, core: Seq<char>)
    requires
        amount.len() > 0,
        forall|i: int| 0 <= i < amount.len() ==> '0' <= #[trigger] amount[i] <= '9',
        forall|i: int| 0 <= i < gap.len() ==> #[trigger] gap[i] == ' ' || ('\t' <= gap[i] <= '\r'),
        forall|i: int|
            0 <= i < core.len() ==> !(#[trigger] core[i] == '├' || core[i] == '└' || core[i] == '│'
                || core[i] == '─'),
        core.len() > 0,
        !text::is_white(core.last()),
    ensures
        trace::content(seq!['['] + amount + seq![']'] + (gap + core)) == tidy(rewritten_all(core)),
{
    let empty = Seq::<char>::empty();
    let kept = gap + core;
    assert(kept.last() == core.last());
    assert forall|i: int| 0 <= i < kept.len() implies !(#[trigger] kept[i] == '├' || kept[i] == '└'
        || kept[i] == '│' || kept[i] == '─') by {
        if i < gap.len() {
            assert(kept[i] == gap[i]);
        } else {
            assert(kept[i] == core[i - gap.len()]);
        }
    }
    lemma_gas_before(amount, kept);
    assert forall|i: int| 0 <= i < gap.len() implies separates(#[trigger] gap[i])
        && text::is_white(gap[i]) by {}
    lemma_separators_in_front(gap, core);
    lemma_tidy_around(gap, rewritten_all(core), empty);
    assert(gap + rewritten_all(core) + empty == gap + rewritten_all(core));
}

proof fn lemma_gas_before(amount: Seq<char>, kept: Seq<char>)
    requires
        amount.len() > 0,
        forall|i: int| 0 <= i < amount.len() ==> '0' <= #[trigger] amount[i] <= '9',
        forall|i: int|
            0 <= i < kept.len() ==> !(#[trigger] kept[i] == '├' || kept[i] == '└' || kept[i] == '│'
                || kept[i] == '─'),
        kept.len() > 0 ==> !text::is_white(kept.last()),
    ensures
        trace::content(seq!['['] + amount + seq![']'] + kept) == tidy(rewritten_all(kept)),
{
    let empty = Seq::<char>::empty();
    let line = seq!['['] + amount + seq![']'] + kept;
    if kept.len() > 0 {
        assert(line.last() == kept.last());
    }
    lemma_trimmed_stays(line);
    assert forall|i: int| 0 <= i < line.len() implies !(#[trigger] line[i] == '├' || line[i] == '└'
        || line[i] == '│' || line[i] == '─') by {
        if 1 <= i < 1 + amount.len() {
            assert(line[i] == amount[i - 1]);
        } else if 2 + amount.len() <= i {
            assert(line[i] == kept[i - 2 - amount.len()]);
        }
    }
    lemma_no_tree(line);
    pattern_laws::law_gas_is_dropped(empty, amount, kept);
    assert(empty + seq!['['] + amount + seq![']'] + kept == line);
    assert(empty + pattern::replaced(Pattern::Gas, kept) == pattern::replaced(Pattern::Gas, kept));
}

/// The tree and the white space at the front of a line add nothing to its content.
pub proof fn law_the_tree_in_front_adds_nothing(tree: Seq<char>, rest: Seq<char>)
    requires
        forall|i: int|
            0 <= i < tree.len() ==> text::is_white(#[trigger] tree[i]) || tree[i] == '├' || tree[i]
                == '└' || tree[i] == '│' || tree[i] == '─',
    ensures
        trace::content(tree + rest) == trace::content(rest),
{
    let wanted = |c: char| !(c == '├' || c == '└' || c == '│' || c == '─');
    let empty = Seq::<char>::empty();
    law_the_tree_adds_nothing(tree + rest);
    law_the_tree_adds_nothing(rest);
    Seq::filter_distributes_over_add(tree, rest, wanted);
    let white = tree.filter(wanted);
    assert forall|i: int| 0 <= i < white.len() implies text::is_white(#[trigger] white[i]) by {
        lemma_filtered_char(tree, wanted, i);
    }
    law_white_space_around_adds_nothing(white, rest.filter(wanted), empty);
    assert(white + rest.filter(wanted) + empty == white + rest.filter(wanted));
}

proof fn lemma_filtered_char(s: Seq<char>, wanted: spec_fn(char) -> bool, i: int) -> (j: int)
    requires
        0 <= i < s.filter(wanted).len(),
    ensures
        0 <= j < s.len(),
        s[j] == s.filter(wanted)[i],
        wanted(s[j]),
    decreases s.len(),
{
    reveal(Seq::filter);
    let init = s.drop_last();
    if i < init.filter(wanted).len() {
        let j = lemma_filtered_char(init, wanted, i);
        assert(init[j] == s[j]);
        j
    } else {
        s.len() - 1
    }
}

/// Seven ASCII digits or more that stand alone are put in scientific notation by their
/// value.
pub proof fn law_an_integer_is_put_in_scientific_notation(digits: Seq<char>)
    requires
        digits.len() >= 7,
        forall|i: int| 0 <= i < digits.len() ==> '0' <= #[trigger] digits[i] <= '9',
    ensures
        trace::content(digits) == scientific::sci_notation(decimal::value(digits)),
{
    lemma_no_white(digits);
    lemma_no_tree(digits);
    lemma_no_gas(digits);
    assert forall|i: int| 0 <= i < digits.len() implies !begins_with_address(
        #[trigger] digits.skip(i),
    ) by {
        if i + 1 < digits.len() {
            assert(digits.skip(i)[1] == digits[i + 1]);
        }
    }
    lemma_no_address(digits);
    pattern_laws::law_integers_are_put_in_scientific_notation(digits);
}

/// Each number of seven digits or more is put in scientific notation wherever separators
/// stand around it, and nothing else is changed for it.
pub proof fn law_a_large_number_in_a_word(front: Seq<char>, b: char, n: nat, e: char, tail: Seq<char>)
    requires
        n >= 1_000_000,
        forall|i: int| 0 <= i < front.len() ==> !text::is_white(#[trigger] front[i]),
        forall|i: int| 0 <= i < tail.len() ==> !text::is_white(#[trigger] tail[i]),
        separates(b) && !text::is_white(b),
        separates(e) && !text::is_white(e),
    ensures
        trace::content(decimal::decimal(n)) == scientific::sci_notation(n),
        trace::content(front + seq![b] + (decimal::decimal(n) + seq![e] + tail)) == trace::content(
            front,
        ) + seq![b] + (scientific::sci_notation(n) + seq![e] + trace::content(tail)),
{
    let digits = decimal::decimal(n);
    decimal::law_digits_read_back(n);
    assert forall|i: int| 0 <= i < digits.len() implies '0' <= #[trigger] digits[i] <= '9' by {
        assert(decimal::is_ascii_digit(digits[i]));
    }
    reveal_with_fuel(decimal::decimal, 7);
    law_an_integer_is_put_in_scientific_notation(digits);
    law_parts_of_words_are_compressed_apart(digits, e, tail);
    let rest = digits + seq![e] + tail;
    assert forall|i: int| 0 <= i < rest.len() implies !text::is_white(#[trigger] rest[i]) by {
        if i < digits.len() {
            assert(rest[i] == digits[i]);
        } else if i > digits.len() {
            assert(rest[i] == tail[i - digits.len() - 1]);
        }
    }
    law_parts_of_words_are_compressed_apart(front, b, rest);
}

/// A number handed to a call is put in scientific notation.
pub proof fn law_a_large_argument(n: nat)
    requires
        n >= 1_000_000,
    ensures
        trace::content(seq!['f', '('] + decimal::decimal(n) + seq![')']) == seq!['f', '(']
            + scientific::sci_notation(n) + seq![')'],
{
    let empty = Seq::<char>::empty();
    let f = seq!['f'];
    law_a_large_number_in_a_word(f, '(', n, ')', empty);
    law_plain_text_stays(f);
    law_plain_text_stays(empty);
    assert(f + seq!['('] + (decimal::decimal(n) + seq![')'] + empty) == seq!['f', '(']
        + decimal::decimal(n) + seq![')']);
    assert(f + seq!['('] + (scientific::sci_notation(n) + seq![')'] + empty) == seq!['f', '(']
        + scientific::sci_notation(n) + seq![')']);
}

/// Digits that letters stand right before or right behind are no number, and stay.
pub proof fn law_digits_in_a_name_stay(before: Seq<char>, digits: Seq<char>, after: Seq<char>)
    requires
        before.len() + after.len() > 0,
        after.len() <= 40,
        forall|i: int|
            0 <= i < before.len() ==> ('a' <= #[trigger] before[i] <= 'z') || ('A' <= before[i]
                <= 'Z') || before[i] == '_',
        forall|i: int|
            0 <= i < after.len() ==> ('a' <= #[trigger] after[i] <= 'z') || ('A' <= after[i] <= 'Z')
                || after[i] == '_',
        forall|i: int| 0 <= i < digits.len() ==> '0' <= #[trigger] digits[i] <= '9',
    ensures
        trace::content(before + digits + after) == before + digits + after,
{
    let s = before + digits + after;
    let k = before.len() as int;
    let m = k + digits.len();
    assert forall|i: int| 0 <= i < s.len() implies (k <= i < m ==> '0' <= #[trigger] s[i] <= '9')
        && (!(k <= i < m) ==> ('a' <= s[i] <= 'z') || ('A' <= s[i] <= 'Z') || s[i] == '_') by {
        if i < k {
            assert(s[i] == before[i]);
        } else if i < m {
            assert(s[i] == digits[i - k]);
        } else {
            assert(s[i] == after[i - m]);
        }
    }
    lemma_no_white(s);
    lemma_no_tree(s);
    lemma_no_gas(s);
    assert(pattern::replaced(Pattern::Address, s) == s) by {
        let p = Pattern::Address;
        assert forall|i: int| 0 <= i < s.len() implies #[trigger] pattern::match_end(
            p,
            s,
            i,
        ) is None by {
            if i + 42 <= s.len() && s[i] == '0' && s[i + 1] == 'x' {
                assert(k <= i < m);
                assert(!(k <= i + 1 < m));
                assert(false);
            }
        }
        trace_laws::law_without_a_match_nothing_changes(p, s);
    }
    let p = Pattern::LargeInt;
    assert forall|i: int| 0 <= i < s.len() implies #[trigger] pattern::match_end(p, s, i) is None by {
        let n = pattern::run(s.skip(i), Class::Digit);
        pattern_laws::lemma_run_parts(s.skip(i), Class::Digit);
        if n >= 7 {
            assert(s.skip(i)[0] == s[i]);
            assert(pattern::in_class(Class::Digit, s.skip(i)[0]));
            assert(k <= i < m);
            if i > 0 {
                assert(s[i - 1] <= '\u{7f}');
                assert(pattern::is_word(s[i - 1]));
            } else {
                assert(s.skip(i) == digits + after);
                pattern_laws::lemma_run_is(digits, after, Class::Digit);
                assert(s[i + n] == after[0]);
                assert(pattern::is_word(s[i + n]));
            }
        }
    }
    trace_laws::law_without_a_match_nothing_changes(p, s);
}

/// An address that stands alone keeps its prefix, its first four digits and its last four.
pub proof fn law_an_address_keeps_its_ends(digits: Seq<char>)
    requires
        digits.len() == 40,
        forall|i: int|
            0 <= i < 40 ==> ('0' <= #[trigger] digits[i] <= '9') || ('a' <= digits[i] <= 'f') || ('A'
                <= digits[i] <= 'F'),
    ensures
        trace::content(seq!['0', 'x'] + digits) == seq!['0', 'x'] + digits.subrange(0, 4) + seq![
            '.',
            '.',
        ] + digits.subrange(36, 40),
{
    let empty = Seq::<char>::empty();
    let s = seq!['0', 'x'] + digits;
    assert forall|i: int| 0 <= i < s.len() implies ('0' <= #[trigger] s[i] <= '9') || ('A' <= s[i]
        <= 'F') || ('a' <= s[i] <= 'z') by {
        if i >= 2 {
            assert(s[i] == digits[i - 2]);
        }
    }
    lemma_no_white(s);
    lemma_no_tree(s);
    lemma_no_gas(s);
    pattern_laws::law_an_address_is_shortened(empty, digits, empty);
    assert(empty + seq!['0', 'x'] + digits + empty == s);
    let short = seq!['0', 'x'] + digits.subrange(0, 4) + seq!['.', '.'] + digits.subrange(36, 40);
    assert(pattern::replaced(Pattern::Address, empty) == empty);
    assert(empty + seq!['0', 'x'] + digits.subrange(0, 4) + seq!['.', '.'] + digits.subrange(36, 40)
        + empty == short);
    assert forall|i: int| 0 <= i < short.len() implies !may_begin_with_seven_digits(
        #[trigger] short.skip(i),
    ) by {
        if i + 7 <= short.len() {
            assert(short[6] == '.');
            assert(short.skip(i)[6 - i] == short[6]);
        }
    }
    lemma_no_large_int(short);
}

/// Brackets in a word that hold more than digits are kept, and what stands before and behind
/// each of them is compressed apart.
pub proof fn law_brackets_are_kept(front: Seq<char>, c: char, tail: Seq<char>)
    requires
        forall|i: int|
            0 <= i < front.len() ==> !text::is_white(#[trigger] front[i]) && !(front[i] == '├'
                || front[i] == '└' || front[i] == '│' || front[i] == '─'),
        forall|i: int|
            0 <= i < tail.len() ==> !text::is_white(#[trigger] tail[i]) && !(tail[i] == '├'
                || tail[i] == '└' || tail[i] == '│' || tail[i] == '─'),
        c == '[' || c == ']',
        c == '[' ==> forall|k: int|
            0 <= k < tail.len() && #[trigger] tail[k] == ']' ==> !may_be_an_amount(tail, k),
        c == ']' ==> forall|i: int|
            0 <= i < front.len() && #[trigger] front[i] == '[' ==> !may_be_an_amount(
                front.skip(i + 1),
                front.len() - i - 1,
            ),
    ensures
        trace::content(front + seq![c] + tail) == trace::content(front) + seq![c] + trace::content(
            tail,
        ),
{
    let s = front + seq![c] + tail;
    assert forall|i: int| 0 <= i < s.len() implies !text::is_white(#[trigger] s[i]) && !(s[i] == '├'
        || s[i] == '└' || s[i] == '│' || s[i] == '─') by {
        if i < front.len() {
            assert(s[i] == front[i]);
        } else if i > front.len() {
            assert(s[i] == tail[i - front.len() - 1]);
        }
    }
    lemma_no_white(front);
    lemma_no_white(tail);
    lemma_no_white(s);
    lemma_no_tree(front);
    lemma_no_tree(tail);
    lemma_no_tree(s);
    pattern_laws::law_matches_end_at_brackets(Pattern::Gas, front, c, tail);
    let front1 = pattern::replaced(Pattern::Gas, front);
    let tail1 = pattern::replaced(Pattern::Gas, tail);
    pattern_laws::law_matches_end_at_brackets(Pattern::Address, front1, c, tail1);
    let front2 = pattern::replaced(Pattern::Address, front1);
    let tail2 = pattern::replaced(Pattern::Address, tail1);
    pattern_laws::law_matches_end_at_brackets(Pattern::LargeInt, front2, c, tail2);
}

spec fn letters(s: Seq<char>) -> bool {
    forall|i: int|
        0 <= i < s.len() ==> ('a' <= #[trigger] s[i] <= 'z') || ('A' <= s[i] <= 'Z')
}

proof fn lemma_letters_stay(s: Seq<char>)
    requires
        letters(s),
    ensures
        trace::content(s) == s,
        rewritten_all(s) == s,
        pattern::replaced(Pattern::Gas, s) == s,
        pattern::replaced(Pattern::Address, s) == s,
{
    lemma_no_white(s);
    lemma_no_tree(s);
    lemma_no_gas(s);
    assert forall|i: int| 0 <= i < s.len() implies !begins_with_address(#[trigger] s.skip(i))
        && !may_begin_with_seven_digits(s.skip(i)) by {
        assert(s.skip(i)[0] == s[i]);
    }
    lemma_no_address(s);
    lemma_no_large_int(s);
}

/// Gas is dropped between letters, too.
pub proof fn law_gas_is_dropped_between_letters(
    front: Seq<char>,
    amount: Seq<char>,
    tail: Seq<char>,
)
    requires
        forall|i: int|
            0 <= i < front.len() ==> ('a' <= #[trigger] front[i] <= 'z') || ('A' <= front[i] <= 'Z'),
        forall|i: int|
            0 <= i < tail.len() ==> ('a' <= #[trigger] tail[i] <= 'z') || ('A' <= tail[i] <= 'Z'),
        amount.len() > 0,
        forall|i: int| 0 <= i < amount.len() ==> '0' <= #[trigger] amount[i] <= '9',
    ensures
        trace::content(front + seq!['['] + amount + seq![']'] + tail) == front + tail,
{
    let s = front + seq!['['] + amount + seq![']'] + tail;
    assert forall|i: int| 0 <= i < s.len() implies s[i] <= '\u{7f}' && !text::is_white(
        #[trigger] s[i],
    ) by {
        if i < front.len() {
            assert(s[i] == front[i]);
        } else if front.len() < i < front.len() + 1 + amount.len() {
            assert(s[i] == amount[i - front.len() - 1]);
        } else if i > front.len() + 1 + amount.len() {
            assert(s[i] == tail[i - front.len() - 2 - amount.len()]);
        }
    }
    lemma_no_white(s);
    lemma_no_tree(s);
    pattern_laws::law_gas_is_dropped(front, amount, tail);
    lemma_letters_stay(tail);
    let both = front + tail;
    assert forall|i: int| 0 <= i < both.len() implies ('a' <= #[trigger] both[i] <= 'z') || ('A'
        <= both[i] <= 'Z') by {
        if i < front.len() {
            assert(both[i] == front[i]);
        } else {
            assert(both[i] == tail[i - front.len()]);
        }
    }
    lemma_letters_stay(both);
}

/// An address is shortened between letters, too.
pub proof fn law_an_address_between_letters(front: Seq<char>, digits: Seq<char>, tail: Seq<char>)
    requires
        forall|i: int|
            0 <= i < front.len() ==> ('a' <= #[trigger] front[i] <= 'z') || ('A' <= front[i] <= 'Z'),
        forall|i: int|
            0 <= i < tail.len() ==> ('a' <= #[trigger] tail[i] <= 'z') || ('A' <= tail[i] <= 'Z'),
        digits.len() == 40,
        forall|i: int|
            0 <= i < 40 ==> ('0' <= #[trigger] digits[i] <= '9') || ('a' <= digits[i] <= 'f') || ('A'
                <= digits[i] <= 'F'),
    ensures
        trace::content(front + seq!['0', 'x'] + digits + tail) == front + seq!['0', 'x']
            + digits.subrange(0, 4) + seq!['.', '.'] + digits.subrange(36, 40) + tail,
{
    let s = front + seq!['0', 'x'] + digits + tail;
    let k = front.len() as int;
    assert forall|i: int| 0 <= i < s.len() implies ('0' <= #[trigger] s[i] <= '9') || ('A' <= s[i]
        <= 'Z') || ('a' <= s[i] <= 'z') by {
        if i < k {
            assert(s[i] == front[i]);
        } else if k + 2 <= i < k + 42 {
            assert(s[i] == digits[i - k - 2]);
        } else if k + 42 <= i {
            assert(s[i] == tail[i - k - 42]);
        }
    }
    lemma_no_white(s);
    lemma_no_tree(s);
    lemma_no_gas(s);
    assert forall|i: int| 0 <= i < front.len() implies !begins_with_address(
        #[trigger] front.push('0').skip(i),
    ) by {
        assert(front.push('0').skip(i)[0] == front[i]);
    }
    pattern_laws::law_an_address_is_shortened(front, digits, tail);
    lemma_letters_stay(tail);
    let short = front + seq!['0', 'x'] + digits.subrange(0, 4) + seq!['.', '.'] + digits.subrange(
        36,
        40,
    ) + tail;
    assert forall|i: int| 0 <= i < short.len() implies !may_begin_with_seven_digits(
        #[trigger] short.skip(i),
    ) by {
        let rest = short.skip(i);
        if i + 7 <= short.len() {
            if i < k {
                assert(rest[0] == front[i]);
            } else if i <= k + 6 {
                assert(short[k + 6] == '.');
                assert(rest[k + 6 - i] == short[k + 6]);
            } else if i <= k + 7 {
                assert(rest[0] == short[k + 7]);
            } else if i <= k + 11 {
                assert(rest[k + 12 - i] == short[k + 12]);
                assert(short[k + 12] == tail[0]);
            } else {
                assert(rest[0] == tail[i - k - 12]);
            }
        }
    }
    lemma_no_large_int(short);
}

/// The white space that a line begins with is shown in tabs, one for each two bytes of it,
/// and its content behind them.
pub proof fn law_indentation_becomes_tabs(white: Seq<char>, rest: Seq<char>)
    requires
        forall|i: int| 0 <= i < white.len() ==> text::is_white(#[trigger] white[i]),
        rest.len() > 0 ==> !text::is_white(rest.first()),
    ensures
        trace::compressed(white + rest) == Seq::new(
            utf8::encode_utf8(white).len() / 2,
            |i: int| '\t',
        ) + trace::content(rest),
{
    let line = white + rest;
    text_laws::lemma_white_in_front(white, rest);
    assert(text::trim_start(rest) == rest);
    assert(line.take(line.len() - rest.len()) == white);
}

} // verus!
