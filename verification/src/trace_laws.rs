//! What holds of the compression of trace lines as a whole.

use crate::decimal;
use crate::pattern;
use crate::pattern::Pattern;
use crate::scientific;
use crate::text;
use crate::trace;
use vstd::prelude::*;

verus! {

/// Whether a text holds none of the characters that draw a trace's tree.
pub open spec fn holds_no_box(s: Seq<char>) -> bool {
    forall|i: int| 0 <= i < s.len() ==> !pattern::is_box(#[trigger] s[i])
}

/// Whether no two spaces stand side by side in a text.
pub open spec fn spaces_stand_alone(s: Seq<char>) -> bool {
    forall|i: int| #![trigger s[i]] 0 <= i < s.len() - 1 ==> s[i] != ' ' || s[i + 1] != ' '
}

/// Single spacing leaves no two spaces side by side, and the last character in its place.
pub proof fn lemma_single_spaced(s: Seq<char>)
    ensures
        spaces_stand_alone(text::single_spaced(s)),
        s.len() > 0 ==> text::single_spaced(s).len() > 0 && text::single_spaced(s).last()
            == s.last(),
        holds_no_box(s) ==> holds_no_box(text::single_spaced(s)),
    decreases s.len(),
{
    if s.len() >= 2 {
        let init = s.drop_last();
        lemma_single_spaced(init);
        assert(holds_no_box(s) ==> holds_no_box(init)) by {
            assert(forall|i: int| 0 <= i < init.len() ==> init[i] == s[i]);
        }
        let before = text::single_spaced(init);
        let after = text::single_spaced(s);
        if after != before {
            assert(after == before.push(s.last()));
            assert(before.last() == s[s.len() - 2]);
            assert forall|i: int| #![trigger after[i]] 0 <= i < after.len() - 1 implies after[i]
                != ' ' || after[i + 1] != ' ' by {
                if i < before.len() - 1 {
                    assert(after[i] == before[i] && after[i + 1] == before[i + 1]);
                }
            }
        }
    }
}

proof fn lemma_no_box_in_number(n: nat)
    ensures
        holds_no_box(decimal::decimal(n)),
    decreases n,
{
    if n >= 10 {
        lemma_no_box_in_number(n / 10);
    }
}

proof fn lemma_no_box_in_notation(n: nat)
    ensures
        holds_no_box(scientific::sci_notation(n)),
{
    let w = scientific::notation(n);
    lemma_no_box_in_number(n);
    lemma_no_box_in_number(w.exponent);
    lemma_no_box_in_number((w.hundredths / 100) as nat);
}

proof fn lemma_replaced_holds_no_box(p: Pattern, s: Seq<char>, i: int)
    requires
        pattern::rewrites(p),
        p is BoxDrawing || holds_no_box(s),
    ensures
        holds_no_box(pattern::replaced_from(p, s, i)),
    decreases s.len() - i,
{
    if 0 <= i < s.len() {
        match pattern::match_end(p, s, i) {
            Some(end) if i < end && end <= s.len() => {
                lemma_replaced_holds_no_box(p, s, end);
                let found = s.subrange(i, end);
                if p is Address {
                    reveal_strlit("..");
                    assert(found.len() == 42);
                    assert(forall|j: int| 0 <= j < found.len() ==> found[j] == s[i + j]);
                } else if p is LargeInt {
                    lemma_no_box_in_notation(pattern::integer_read(found));
                }
                assert(holds_no_box(pattern::rewritten(p, found)));
            },
            _ => {
                lemma_replaced_holds_no_box(p, s, i + 1);
                if p is BoxDrawing && pattern::is_box(s[i]) {
                    lemma_run(s.skip(i), pattern::Class::Box);
                    assert(s.skip(i).first() == s[i]);
                    assert(false);
                }
            },
        }
    }
}

proof fn lemma_run(s: Seq<char>, class: pattern::Class)
    ensures
        0 <= pattern::run(s, class) <= s.len(),
        s.len() > 0 && pattern::in_class(class, s.first()) ==> pattern::run(s, class) > 0,
    decreases s.len(),
{
    if s.len() > 0 {
        lemma_run(s.drop_first(), class);
    }
}

proof fn lemma_trimmed_holds_no_box(s: Seq<char>)
    requires
        holds_no_box(s),
    ensures
        holds_no_box(text::trimmed(s)),
{
    let from = text::lemma_trimmed(s);
    let out = text::trimmed(s);
    assert forall|i: int| 0 <= i < out.len() implies !pattern::is_box(#[trigger] out[i]) by {
        assert(out[i] == s[from + i]);
    }
}

/// The content of a compressed line holds nothing of the tree, no two spaces side by side,
/// and no white space at either end.
pub proof fn law_content_is_tidy(line: Seq<char>)
    ensures
        holds_no_box(trace::content(line)),
        spaces_stand_alone(trace::content(line)),
        trace::content(line).len() > 0 ==> !text::is_white(trace::content(line).first())
            && !text::is_white(trace::content(line).last()),
{
    let no_tree = pattern::replaced(Pattern::BoxDrawing, text::trimmed(line));
    let bare = text::trimmed(no_tree);
    let no_gas = pattern::replaced(Pattern::Gas, bare);
    let short = pattern::replaced(Pattern::Address, no_gas);
    let scientific = pattern::replaced(Pattern::LargeInt, short);
    let spaced = text::single_spaced(scientific);
    lemma_replaced_holds_no_box(Pattern::BoxDrawing, text::trimmed(line), 0);
    lemma_trimmed_holds_no_box(no_tree);
    lemma_replaced_holds_no_box(Pattern::Gas, bare, 0);
    lemma_replaced_holds_no_box(Pattern::Address, no_gas, 0);
    lemma_replaced_holds_no_box(Pattern::LargeInt, short, 0);
    lemma_single_spaced(scientific);
    lemma_trimmed_holds_no_box(spaced);
    let from = text::lemma_trimmed(spaced);
    let out = trace::content(line);
    assert forall|i: int| #![trigger out[i]] 0 <= i < out.len() - 1 implies out[i] != ' ' || out[i
        + 1] != ' ' by {
        assert(out[i] == spaced[from + i] && out[i + 1] == spaced[from + i + 1]);
    }
}

/// A compressed line begins with as many tabs as it stands deep in the tree, and no more.
pub proof fn law_depth_is_shown_in_tabs(line: Seq<char>)
    ensures
        trace::compressed(line).len() >= trace::depth(line),
        forall|i: int|
            0 <= i < trace::depth(line) ==> #[trigger] trace::compressed(line)[i] == '\t',
        trace::compressed(line).len() > trace::depth(line) ==> trace::compressed(
            line,
        )[trace::depth(line) as int] != '\t',
{
    law_content_is_tidy(line);
    if trace::content(line).len() > 0 {
        assert(trace::compressed(line)[trace::depth(line) as int] == trace::content(line).first());
    }
}

/// A text that holds no match of a pattern is left as it is.
pub proof fn law_without_a_match_nothing_changes(p: Pattern, s: Seq<char>)
    requires
        forall|i: int| 0 <= i < s.len() ==> #[trigger] pattern::match_end(p, s, i) is None,
    ensures
        pattern::replaced(p, s) == s,
{
    lemma_unchanged_from(p, s, 0);
    assert(s.skip(0) == s);
}

proof fn lemma_unchanged_from(p: Pattern, s: Seq<char>, i: int)
    requires
        0 <= i <= s.len(),
        forall|j: int| 0 <= j < s.len() ==> #[trigger] pattern::match_end(p, s, j) is None,
    ensures
        pattern::replaced_from(p, s, i) == s.skip(i),
    decreases s.len() - i,
{
    if i < s.len() {
        assert(pattern::match_end(p, s, i) is None);
        lemma_unchanged_from(p, s, i + 1);
        assert(seq![s[i]] + s.skip(i + 1) == s.skip(i));
    }
}

/// An address keeps its prefix, its first four digits and its last four.
pub proof fn law_addresses_are_shortened(s: Seq<char>, i: int)
    requires
        0 <= i < s.len(),
        pattern::match_end(Pattern::Address, s, i) is Some,
    ensures
        pattern::rewritten(Pattern::Address, s.subrange(i, i + 42)) == s.subrange(i, i + 6) + ".."@
            + s.subrange(i + 38, i + 42),
        pattern::rewritten(Pattern::Address, s.subrange(i, i + 42)).len() == 12,
{
    reveal_strlit("..");
    let found = s.subrange(i, i + 42);
    assert(found.take(6) == s.subrange(i, i + 6));
    assert(found.skip(38) == s.subrange(i + 38, i + 42));
}

} // verus!
