//! What holds of the filter for `forge test` as a whole.

use crate::decimal;
use crate::pattern;
use crate::stream;
use crate::test_output;
use crate::test_output::State;
use crate::text;
use crate::trace;
use vstd::prelude::*;

verus! {

/// The result on a line, or whatever else stands there, without the white space around it.
pub open spec fn at(lines: Seq<Seq<char>>, i: int) -> Seq<char> {
    text::trimmed(lines[i])
}

/// The lines with the results of passed tests.
pub open spec fn passes(lines: Seq<Seq<char>>) -> Seq<Seq<char>> {
    lines.filter(|line: Seq<char>| test_output::is_passed(text::trimmed(line)))
}

/// Whether the result of a failed test stands on one of the lines.
pub open spec fn fails(lines: Seq<Seq<char>>, result: Seq<char>) -> bool {
    test_output::is_failed(result) && exists|i: int|
        0 <= i < lines.len() && #[trigger] at(lines, i) == result
}

/// Whether a line holds the result of a failed test that stands on no line before it.
pub open spec fn is_new_fail(lines: Seq<Seq<char>>, i: int) -> bool {
    test_output::is_failed(at(lines, i)) && !fails(lines.take(i), at(lines, i))
}

/// The last of the lines that ends a trace, or less than zero where none does.
pub open spec fn heading(lines: Seq<Seq<char>>) -> int
    decreases lines.len(),
{
    if lines.len() == 0 {
        -1
    } else if test_output::ends_trace(text::trimmed(lines.last())) {
        lines.len() - 1
    } else {
        heading(lines.drop_last())
    }
}

/// What is shown for a line: a failed test that is new, or, with traces, a line of the
/// trace below one.
pub open spec fn shown_for(lines: Seq<Seq<char>>, i: int, verbose: bool) -> Option<Seq<char>> {
    let h = heading(lines.take(i));
    if is_new_fail(lines, i) {
        Some(at(lines, i))
    } else if verbose && h >= 0 && is_new_fail(lines, h) && !test_output::ends_trace(at(lines, i))
        && at(lines, i).len() > 0 {
        Some(trace::compressed(lines[i]))
    } else {
        None
    }
}

/// What is shown for all lines.
pub open spec fn all_shown(lines: Seq<Seq<char>>, verbose: bool) -> Seq<Seq<char>>
    decreases lines.len(),
{
    if lines.len() == 0 {
        seq![]
    } else {
        let before = all_shown(lines.drop_last(), verbose);
        match shown_for(lines, lines.len() - 1, verbose) {
            Some(shown) => before.push(shown),
            None => before,
        }
    }
}

proof fn lemma_prefix_first(prefix: Seq<char>, s: Seq<char>)
    requires
        prefix.len() > 0,
    ensures
        prefix.is_prefix_of(s) ==> s.len() > 0 && s[0] == prefix[0],
{
    if prefix.is_prefix_of(s) {
        assert(s.subrange(0, prefix.len() as int)[0] == s[0]);
    }
}

proof fn lemma_kinds_of_lines(trimmed: Seq<char>)
    ensures
        pattern::is_test_result(trimmed) ==> !test_output::is_section(trimmed)
            && !pattern::is_traces_header(trimmed),
{
    reveal_strlit("[PASS");
    reveal_strlit("[FAIL");
    reveal_strlit("Traces:");
    reveal_strlit("Test result:");
    reveal_strlit("Ran ");
    reveal_strlit("Suite result:");
    reveal_strlit("Encountered");
    reveal_strlit("Failing tests:");
    lemma_prefix_first("[PASS"@, trimmed);
    lemma_prefix_first("[FAIL"@, trimmed);
    lemma_prefix_first("Traces:"@, trimmed);
    lemma_prefix_first("Test result:"@, trimmed);
    lemma_prefix_first("Ran "@, trimmed);
    lemma_prefix_first("Suite result:"@, trimmed);
    lemma_prefix_first("Encountered"@, trimmed);
    if pattern::is_test_result(trimmed) {
        let form = seq![
            pattern::Piece::Text("Ran "@),
            pattern::Piece::Run(pattern::Class::Digit),
            pattern::Piece::Text(" test"@),
        ];
        assert(form.first() == pattern::Piece::Text("Ran "@));
        assert(!pattern::begins(trimmed, form));
    }
}

/// Every result of a passed test is counted; of the results of failed tests, those that
/// are alike count as one.
pub proof fn law_counts(lines: Seq<Seq<char>>, verbose: bool)
    ensures
        test_output::scanned(lines, verbose).passed == passes(lines).len(),
        forall|result: Seq<char>| #[trigger]
            test_output::scanned(lines, verbose).fails.contains(result) <==> fails(lines, result),
        test_output::scanned(lines, verbose).fails.finite(),
        test_output::scanned(lines, verbose).failed == test_output::scanned(
            lines,
            verbose,
        ).fails.len(),
    decreases lines.len(),
{
    reveal(Seq::filter);
    if lines.len() > 0 {
        let init = lines.drop_last();
        law_counts(init, verbose);
        let before = test_output::scanned(init, verbose);
        let scan = test_output::scanned(lines, verbose);
        let last = text::trimmed(lines.last());
        lemma_kinds_of_lines(last);
        assert(at(lines, lines.len() - 1) == last);
        assert forall|result: Seq<char>| #[trigger] scan.fails.contains(result) <==> fails(
            lines,
            result,
        ) by {
            assert(before.fails.contains(result) <==> fails(init, result));
            lemma_fails_grow(lines, result);
        }
    }
}

proof fn lemma_fails_grow(lines: Seq<Seq<char>>, result: Seq<char>)
    requires
        lines.len() > 0,
    ensures
        fails(lines, result) <==> fails(lines.drop_last(), result) || (test_output::is_failed(
            result,
        ) && text::trimmed(lines.last()) == result),
{
    let init = lines.drop_last();
    if fails(init, result) {
        let i = choose|i: int| 0 <= i < init.len() && #[trigger] at(init, i) == result;
        assert(at(lines, i) == result);
    }
    if fails(lines, result) {
        let i = choose|i: int| 0 <= i < lines.len() && #[trigger] at(lines, i) == result;
        if i < init.len() {
            assert(at(init, i) == result);
        }
    }
    assert(at(lines, lines.len() - 1) == text::trimmed(lines.last()));
}

proof fn lemma_heading(lines: Seq<Seq<char>>)
    ensures
        -1 <= heading(lines) < lines.len(),
        heading(lines) >= 0 ==> test_output::ends_trace(at(lines, heading(lines))),
    decreases lines.len(),
{
    if lines.len() > 0 {
        lemma_heading(lines.drop_last());
    }
}

/// With traces, a line stands in the trace of the last result above it, where nothing has
/// ended that trace and, for a failed test, no result like it stands further above.
/// Without traces, no line stands in one.
pub proof fn law_which_trace_a_line_stands_in(lines: Seq<Seq<char>>, verbose: bool)
    ensures
        test_output::scanned(lines, verbose).state == (if !verbose || heading(lines) < 0 {
            State::Scanning
        } else if test_output::is_passed(at(lines, heading(lines))) {
            State::InPassTrace
        } else if is_new_fail(lines, heading(lines)) {
            State::InFailTrace
        } else {
            State::Scanning
        }),
    decreases lines.len(),
{
    if lines.len() > 0 {
        let init = lines.drop_last();
        let last = text::trimmed(lines.last());
        law_which_trace_a_line_stands_in(init, verbose);
        law_counts(init, verbose);
        lemma_kinds_of_lines(last);
        lemma_heading(init);
        let h = heading(init);
        if h >= 0 {
            assert(at(lines, h) == at(init, h));
            assert(lines.take(h) == init.take(h));
        }
        assert(lines.take(lines.len() - 1) == init);
        assert(test_output::scanned(init, verbose).fails.contains(last) <==> fails(init, last));
    }
}

/// What is shown: each failed test where it first stands, and, with traces, the lines below
/// it that are not blank, compressed, up to the next line that ends a trace. Nothing is
/// shown of passed tests.
pub proof fn law_what_is_shown(lines: Seq<Seq<char>>, verbose: bool)
    ensures
        test_output::scanned(lines, verbose).shown == all_shown(lines, verbose),
    decreases lines.len(),
{
    if lines.len() > 0 {
        let init = lines.drop_last();
        let n = lines.len() - 1;
        let last = text::trimmed(lines.last());
        law_what_is_shown(init, verbose);
        law_which_trace_a_line_stands_in(init, verbose);
        law_counts(init, verbose);
        lemma_kinds_of_lines(last);
        lemma_heading(init);
        let h = heading(init);
        assert(lines.take(n) == init);
        assert(at(lines, n) == last);
        if h >= 0 {
            assert(at(lines, h) == at(init, h));
            assert(lines.take(h) == init.take(h));
        }
        assert(test_output::scanned(init, verbose).fails.contains(last) <==> fails(init, last));
    }
}

/// Neither the result of a passed test nor any line of its trace is shown.
pub proof fn law_passed_tests_are_hidden(lines: Seq<Seq<char>>, i: int, verbose: bool)
    requires
        0 <= i < lines.len(),
        test_output::is_passed(at(lines, i)) || (heading(lines.take(i)) >= 0
            && test_output::is_passed(at(lines, heading(lines.take(i))))
            && !test_output::ends_trace(at(lines, i))),
    ensures
        shown_for(lines, i, verbose) is None,
        test_output::scanned(lines.take(i + 1), verbose).shown == test_output::scanned(
            lines.take(i),
            verbose,
        ).shown,
{
    let with = lines.take(i + 1);
    assert(with.drop_last() == lines.take(i));
    assert(with.take(i) == lines.take(i));
    assert(at(with, i) == at(lines, i));
    lemma_heading(lines.take(i));
    let h = heading(lines.take(i));
    if h >= 0 {
        assert(at(with, h) == at(lines, h));
        assert(with.take(h) == lines.take(h));
    }
    law_what_is_shown(with, verbose);
    law_what_is_shown(lines.take(i), verbose);
}

/// A failed test that has been shown is neither counted nor shown again, and no trace
/// below it is shown.
pub proof fn law_a_failed_test_is_shown_once(
    lines: Seq<Seq<char>>,
    again: Seq<char>,
    verbose: bool,
)
    requires
        fails(lines, text::trimmed(again)),
    ensures
        test_output::scanned(lines.push(again), verbose) == (test_output::Scan {
            state: State::Scanning,
            ..test_output::scanned(lines, verbose)
        }),
{
    let trimmed = text::trimmed(again);
    assert(lines.push(again).drop_last() == lines);
    law_counts(lines, verbose);
    assert(test_output::scanned(lines, verbose).fails.contains(trimmed));
    lemma_kinds_of_lines(trimmed);
}

/// Without traces, the lines shown are the failed tests, no two of them alike.
pub proof fn law_without_traces_failed_tests_alone_are_shown(lines: Seq<Seq<char>>)
    ensures
        forall|result: Seq<char>| #[trigger]
            test_output::scanned(lines, false).shown.contains(result) <==> fails(lines, result),
        test_output::scanned(lines, false).shown.no_duplicates(),
        test_output::scanned(lines, false).shown.len() == test_output::scanned(lines, false).failed,
    decreases lines.len(),
{
    if lines.len() > 0 {
        let init = lines.drop_last();
        let before = test_output::scanned(init, false);
        let scan = test_output::scanned(lines, false);
        let last = text::trimmed(lines.last());
        law_without_traces_failed_tests_alone_are_shown(init);
        law_counts(init, false);
        law_which_trace_a_line_stands_in(init, false);
        lemma_kinds_of_lines(last);
        assert(before.fails.contains(last) <==> fails(init, last));
        assert(before.shown.contains(last) <==> fails(init, last));
        assert forall|result: Seq<char>| #[trigger] scan.shown.contains(result) <==> fails(
            lines,
            result,
        ) by {
            lemma_fails_grow(lines, result);
            assert(before.shown.contains(result) <==> fails(init, result));
            if scan.shown.len() > before.shown.len() {
                assert(scan.shown == before.shown.push(last));
                if before.shown.contains(result) {
                    let i = choose|i: int|
                        0 <= i < before.shown.len() && before.shown[i] == result;
                    assert(scan.shown[i] == result);
                }
                assert(scan.shown[before.shown.len() as int] == last);
            }
        }
        if scan.shown.len() > before.shown.len() {
            assert(scan.shown == before.shown.push(last));
            assert forall|i: int, j: int|
                0 <= i < scan.shown.len() && 0 <= j < scan.shown.len() && i
                    != j implies scan.shown[i] != scan.shown[j] by {
                if i == before.shown.len() {
                    assert(before.shown.contains(before.shown[j]));
                } else if j == before.shown.len() {
                    assert(before.shown.contains(before.shown[i]));
                }
            }
        }
    }
}

/// Where no line holds the result of a test, nothing is left of the output.
pub proof fn law_no_tests_leave_nothing(output: Seq<char>, verbose: bool)
    requires
        forall|i: int|
            0 <= i < text::lines_of(output).len() ==> !pattern::is_test_result(
                #[trigger] at(text::lines_of(output), i),
            ),
    ensures
        test_output::filtered_test(output, verbose) == Seq::<char>::empty(),
{
    lemma_no_tests(text::lines_of(output), verbose);
}

proof fn lemma_no_tests(lines: Seq<Seq<char>>, verbose: bool)
    requires
        forall|i: int|
            0 <= i < lines.len() ==> !pattern::is_test_result(#[trigger] at(lines, i)),
    ensures
        test_output::scanned(lines, verbose) == test_output::initial(),
    decreases lines.len(),
{
    if lines.len() > 0 {
        let init = lines.drop_last();
        assert forall|i: int| 0 <= i < init.len() implies !pattern::is_test_result(
            #[trigger] at(init, i),
        ) by {
            assert(at(lines, i) == at(init, i));
        }
        lemma_no_tests(init, verbose);
        assert(at(lines, lines.len() - 1) == text::trimmed(lines.last()));
    }
}

/// Lines put below each other, each with its newline.
pub open spec fn each_ended(lines: Seq<Seq<char>>) -> Seq<char>
    decreases lines.len(),
{
    if lines.len() == 0 {
        seq![]
    } else {
        each_ended(lines.drop_last()) + lines.last() + seq!['\n']
    }
}

proof fn lemma_each_ended(lines: Seq<Seq<char>>)
    requires
        lines.len() > 0,
    ensures
        each_ended(lines) == text::joined(lines, seq!['\n']) + seq!['\n'],
    decreases lines.len(),
{
    let init = lines.drop_last();
    if init.len() > 0 {
        lemma_each_ended(init);
    } else {
        assert(each_ended(init) + lines.last() == lines.last());
        assert(lines.last() == lines[0]);
    }
}

proof fn lemma_shown_begins_with_a_failed_test(lines: Seq<Seq<char>>, verbose: bool)
    ensures
        ({
            let scan = test_output::scanned(lines, verbose);
            &&& scan.failed == 0 <==> scan.shown.len() == 0
            &&& scan.state is InFailTrace ==> scan.shown.len() > 0
            &&& scan.shown.len() > 0 ==> test_output::is_failed(scan.shown[0])
        }),
    decreases lines.len(),
{
    if lines.len() > 0 {
        lemma_shown_begins_with_a_failed_test(lines.drop_last(), verbose);
    }
}

proof fn lemma_summary_is_not_empty(passed: nat, failed: nat)
    ensures
        test_output::summarized(passed, failed).len() == 0 <==> passed == 0 && failed == 0,
{
    assert(decimal::decimal(passed).len() > 0);
    assert(decimal::decimal(failed).len() > 0);
}

/// What is left is the lines shown, each with its newline, and the summary below them: what
/// comes out when each line is shown as it is found, and the summary at the end.
pub proof fn law_lines_shown_and_the_summary_are_the_whole(output: Seq<char>, verbose: bool)
    ensures
        ({
            let streamed = stream::streamed(text::lines_of(output), verbose).scan;
            test_output::filtered_test(output, verbose) == each_ended(streamed.shown)
                + test_output::summarized(streamed.passed, streamed.failed)
        }),
{
    let lines = text::lines_of(output);
    law_streaming_is_filtering(lines, verbose);
    let scan = test_output::scanned(lines, verbose);
    let summary = test_output::summarized(scan.passed, scan.failed);
    lemma_shown_begins_with_a_failed_test(lines, verbose);
    lemma_summary_is_not_empty(scan.passed, scan.failed);
    if scan.shown.len() > 0 {
        reveal_strlit("[FAIL");
        lemma_prefix_first("[FAIL"@, scan.shown[0]);
        lemma_each_ended(scan.shown);
    }
}

/// The summary stands at the bottom of what is left, on a line of its own, and says how many
/// tests passed and how many failed. Nothing at all is left if and only if no test ran.
pub proof fn law_summary_at_the_bottom(output: Seq<char>, verbose: bool)
    ensures
        ({
            let lines = text::lines_of(output);
            let passed = passes(lines).len();
            let failed = test_output::scanned(lines, verbose).fails.len();
            let summary = test_output::summarized(passed, failed);
            let left = test_output::filtered_test(output, verbose);
            &&& left.len() == 0 <==> passed == 0 && failed == 0
            &&& passed == 0 && failed == 0 <==> forall|i: int|
                0 <= i < lines.len() ==> !pattern::is_test_result(#[trigger] at(lines, i))
            &&& summary.is_suffix_of(left)
            &&& left == summary || (seq!['\n'] + summary).is_suffix_of(left)
        }),
{
    let lines = text::lines_of(output);
    law_counts(lines, verbose);
    let scan = test_output::scanned(lines, verbose);
    let summary = test_output::summarized(scan.passed, scan.failed);
    let left = test_output::filtered_test(output, verbose);
    law_lines_shown_and_the_summary_are_the_whole(output, verbose);
    law_streaming_is_filtering(lines, verbose);
    lemma_shown_begins_with_a_failed_test(lines, verbose);
    lemma_summary_is_not_empty(scan.passed, scan.failed);
    lemma_a_test_is_counted(lines, verbose);
    if forall|i: int| 0 <= i < lines.len() ==> !pattern::is_test_result(#[trigger] at(lines, i)) {
        lemma_no_tests(lines, verbose);
    }
    assert(summary == left.subrange(left.len() - summary.len(), left.len() as int));
    if scan.shown.len() > 0 {
        let last_line = seq!['\n'] + summary;
        assert(left == each_ended(scan.shown.drop_last()) + scan.shown.last() + last_line);
        assert(last_line == left.subrange(left.len() - last_line.len(), left.len() as int));
    }
}

proof fn lemma_a_test_is_counted(lines: Seq<Seq<char>>, verbose: bool)
    ensures
        ({
            let scan = test_output::scanned(lines, verbose);
            scan.passed == 0 && scan.failed == 0 ==> forall|i: int|
                0 <= i < lines.len() ==> !pattern::is_test_result(#[trigger] at(lines, i))
        }),
    decreases lines.len(),
{
    if lines.len() > 0 {
        let init = lines.drop_last();
        lemma_a_test_is_counted(init, verbose);
        law_counts(init, verbose);
        lemma_kinds_of_lines(at(lines, lines.len() - 1));
        assert(forall|i: int| 0 <= i < init.len() ==> #[trigger] at(lines, i) == at(init, i));
    }
}

/// Whether `all` holds the lines of `some`, in their order, with others added.
pub open spec fn adds_to(some: Seq<Seq<char>>, all: Seq<Seq<char>>) -> bool
    decreases all.len(),
{
    if some.len() == 0 {
        true
    } else if all.len() == 0 {
        false
    } else {
        ||| adds_to(some, all.drop_last())
        ||| some.last() == all.last() && adds_to(some.drop_last(), all.drop_last())
    }
}

/// Traces change neither what is counted nor which lines are shown without them: they only
/// add lines. So the summary is the same.
pub proof fn law_traces_only_add_lines(lines: Seq<Seq<char>>)
    ensures
        test_output::scanned(lines, true).passed == test_output::scanned(lines, false).passed,
        test_output::scanned(lines, true).failed == test_output::scanned(lines, false).failed,
        test_output::scanned(lines, true).fails == test_output::scanned(lines, false).fails,
        adds_to(
            test_output::scanned(lines, false).shown,
            test_output::scanned(lines, true).shown,
        ),
    decreases lines.len(),
{
    if lines.len() > 0 {
        let init = lines.drop_last();
        law_traces_only_add_lines(init);
        law_which_trace_a_line_stands_in(init, false);
        lemma_kinds_of_lines(text::trimmed(lines.last()));
        let few = test_output::scanned(init, false).shown;
        let many = test_output::scanned(init, true).shown;
        let last = text::trimmed(lines.last());
        assert(few.push(last).drop_last() == few);
        assert(many.push(last).drop_last() == many);
        assert(many.push(trace::compressed(lines.last())).drop_last() == many);
    }
}

/// What is left of an output with traces is what is left of it without them, with lines added
/// above the same summary.
pub proof fn law_with_traces_more_is_left(output: Seq<char>)
    ensures
        ({
            let few = test_output::scanned(text::lines_of(output), false);
            let many = test_output::scanned(text::lines_of(output), true);
            let summary = test_output::summarized(few.passed, few.failed);
            &&& test_output::filtered_test(output, false) == each_ended(few.shown) + summary
            &&& test_output::filtered_test(output, true) == each_ended(many.shown) + summary
            &&& adds_to(few.shown, many.shown)
        }),
{
    let lines = text::lines_of(output);
    law_traces_only_add_lines(lines);
    law_streaming_is_filtering(lines, false);
    law_streaming_is_filtering(lines, true);
    law_lines_shown_and_the_summary_are_the_whole(output, false);
    law_lines_shown_and_the_summary_are_the_whole(output, true);
}

/// How many bytes the lines take up, each with its newline.
pub open spec fn bytes_of_all(lines: Seq<Seq<char>>) -> nat
    decreases lines.len(),
{
    if lines.len() == 0 {
        0
    } else {
        bytes_of_all(lines.drop_last()) + stream::bytes_of(lines.last())
    }
}

/// Reading lines as they arrive counts and shows the same as filtering all of them at once,
/// and counts their bytes; fewer than ten tests have run since the last report of progress.
pub proof fn law_streaming_is_filtering(lines: Seq<Seq<char>>, verbose: bool)
    ensures
        stream::streamed(lines, verbose).scan == test_output::scanned(lines, verbose),
        stream::streamed(lines, verbose).raw_len == bytes_of_all(lines),
        stream::streamed(lines, verbose).reported <= stream::total(
            test_output::scanned(lines, verbose),
        ) < stream::streamed(lines, verbose).reported + stream::REPORT_EVERY,
    decreases lines.len(),
{
    if lines.len() > 0 {
        law_streaming_is_filtering(lines.drop_last(), verbose);
    }
}

} // verus!
