//! What holds of the lines of `forge test`, one by one, by the characters on them.

use crate::decimal;
use crate::pattern;
use crate::pattern::{Class, Piece};
use crate::pattern_laws;
use crate::stream;
use crate::test_output;
use crate::test_output::{Scan, State};
use crate::text;
use crate::text_laws;
use crate::trace;
use vstd::prelude::*;
use vstd::utf8;

verus! {

proof fn lemma_prefix(prefix: Seq<char>, tail: Seq<char>)
    ensures
        prefix.is_prefix_of(prefix + tail),
{
    assert((prefix + tail).subrange(0, prefix.len() as int) == prefix);
}

proof fn lemma_prefix_char(prefix: Seq<char>, s: Seq<char>, i: int)
    requires
        prefix.is_prefix_of(s),
        0 <= i < prefix.len(),
    ensures
        s.len() >= prefix.len(),
        s[i] == prefix[i],
{
    assert(s.subrange(0, prefix.len() as int)[i] == s[i]);
}

proof fn lemma_verdict(head: Seq<char>, why: Seq<char>, gap: Seq<char>, name: Seq<char>)
    requires
        head.len() == 5,
        !why.contains('\n'),
        gap.len() > 0,
        forall|i: int| 0 <= i < gap.len() ==> text::is_white(#[trigger] gap[i]),
        name.len() > 0,
        !text::is_white(name.first()),
    ensures
        ({
            let t = head + why + seq![']'] + gap + name;
            pattern::verdict_ends_at(t, 5 + why.len() as int)
        }),
{
    let t = head + why + seq![']'] + gap + name;
    let i = 5 + why.len() as int;
    assert(t[i] == ']');
    assert forall|j: int| 5 <= j < i implies t[j] != '\n' by {
        assert(t[j] == why[j - 5]);
        assert(why.contains(why[j - 5]));
    }
    assert(t.skip(i + 1) == gap + name);
    assert forall|j: int| 0 <= j < gap.len() implies pattern::in_class(
        Class::White,
        #[trigger] gap[j],
    ) by {}
    pattern_laws::lemma_run_is(gap, name, Class::White);
}

proof fn lemma_not_section(t: Seq<char>)
    requires
        t.len() > 0,
        t[0] == '[',
    ensures
        !test_output::is_section(t),
        !pattern::is_traces_header(t),
{
    reveal_strlit("Test result:");
    reveal_strlit("Suite result:");
    reveal_strlit("Encountered");
    reveal_strlit("Ran ");
    reveal_strlit("Traces:");
    reveal_strlit("Failing tests:");
    if "Test result:"@.is_prefix_of(t) {
        lemma_prefix_char("Test result:"@, t, 0);
    }
    if "Suite result:"@.is_prefix_of(t) {
        lemma_prefix_char("Suite result:"@, t, 0);
    }
    if "Encountered"@.is_prefix_of(t) {
        lemma_prefix_char("Encountered"@, t, 0);
    }
    if "Traces:"@.is_prefix_of(t) {
        lemma_prefix_char("Traces:"@, t, 0);
    }
    let form = seq![Piece::Text("Ran "@), Piece::Run(Class::Digit), Piece::Text(" test"@)];
    if pattern::begins(t, form) {
        assert(form.first() == Piece::Text("Ran "@));
        assert("Ran "@.is_prefix_of(t));
        lemma_prefix_char("Ran "@, t, 0);
    }
}

/// A line with the result of a passed test, whatever stands in the brackets, is counted, and
/// nothing is shown for it. With traces, its trace follows.
pub proof fn law_a_passed_test_is_counted(
    scan: Scan,
    verbose: bool,
    line: Seq<char>,
    why: Seq<char>,
    gap: Seq<char>,
    name: Seq<char>,
)
    requires
        text::trimmed(line) == seq!['[', 'P', 'A', 'S', 'S'] + why + seq![']'] + gap + name,
        !why.contains('\n'),
        gap.len() > 0,
        forall|i: int| 0 <= i < gap.len() ==> text::is_white(#[trigger] gap[i]),
        name.len() > 0,
        !text::is_white(name.first()),
    ensures
        test_output::after_line(scan, verbose, line) == (Scan {
            passed: scan.passed + 1,
            state: if verbose {
                State::InPassTrace
            } else {
                State::Scanning
            },
            ..scan
        }),
{
    let t = text::trimmed(line);
    let head = seq!['[', 'P', 'A', 'S', 'S'];
    reveal_strlit("[PASS");
    reveal_strlit("[FAIL");
    assert("[PASS"@ == head);
    lemma_verdict(head, why, gap, name);
    lemma_prefix(head, why + seq![']'] + gap + name);
    assert(t == head + (why + seq![']'] + gap + name));
    if "[FAIL"@.is_prefix_of(t) {
        lemma_prefix_char("[FAIL"@, t, 1);
        lemma_prefix_char(head, t, 1);
    }
    assert(t[0] == '[');
    lemma_not_section(t);
    assert(pattern::is_test_result(t));
}

/// A line with the result of a failed test is counted and shown as it is, but only the first
/// time. With traces, its trace follows then.
pub proof fn law_a_failed_test_is_shown(
    scan: Scan,
    verbose: bool,
    line: Seq<char>,
    why: Seq<char>,
    gap: Seq<char>,
    name: Seq<char>,
)
    requires
        text::trimmed(line) == seq!['[', 'F', 'A', 'I', 'L'] + why + seq![']'] + gap + name,
        !why.contains('\n'),
        gap.len() > 0,
        forall|i: int| 0 <= i < gap.len() ==> text::is_white(#[trigger] gap[i]),
        name.len() > 0,
        !text::is_white(name.first()),
    ensures
        scan.fails.contains(text::trimmed(line)) ==> test_output::after_line(scan, verbose, line)
            == (Scan { state: State::Scanning, ..scan }),
        !scan.fails.contains(text::trimmed(line)) ==> test_output::after_line(scan, verbose, line)
            == (Scan {
            failed: scan.failed + 1,
            fails: scan.fails.insert(text::trimmed(line)),
            shown: scan.shown.push(text::trimmed(line)),
            state: if verbose {
                State::InFailTrace
            } else {
                State::Scanning
            },
            ..scan
        }),
{
    let t = text::trimmed(line);
    let head = seq!['[', 'F', 'A', 'I', 'L'];
    reveal_strlit("[FAIL");
    assert("[FAIL"@ == head);
    lemma_verdict(head, why, gap, name);
    lemma_prefix(head, why + seq![']'] + gap + name);
    assert(t == head + (why + seq![']'] + gap + name));
    assert(t[0] == '[');
    lemma_not_section(t);
    assert(pattern::is_test_result(t));
}

proof fn lemma_section(scan: Scan, verbose: bool, line: Seq<char>)
    requires
        test_output::is_section(text::trimmed(line)),
    ensures
        test_output::after_line(scan, verbose, line) == (Scan { state: State::Scanning, ..scan }),
{
}

/// Forge's own summaries and the heading of its list of failures end a trace, and are
/// dropped.
pub proof fn law_summaries_end_a_trace(
    scan: Scan,
    verbose: bool,
    line: Seq<char>,
    number: Seq<char>,
    rest: Seq<char>,
)
    requires
        ({
            let t = text::trimmed(line);
            ||| t == "Test result:"@ + rest
            ||| t == "Suite result:"@ + rest
            ||| t == "Encountered"@ + rest
            ||| t == "Failing tests:"@
            ||| t == "Ran "@ + number + " test"@ + rest
        }),
        number.len() > 0,
        forall|i: int| 0 <= i < number.len() ==> '0' <= #[trigger] number[i] <= '9',
    ensures
        test_output::after_line(scan, verbose, line) == (Scan { state: State::Scanning, ..scan }),
{
    let t = text::trimmed(line);
    if t == "Test result:"@ + rest {
        lemma_prefix("Test result:"@, rest);
    } else if t == "Suite result:"@ + rest {
        lemma_prefix("Suite result:"@, rest);
    } else if t == "Encountered"@ + rest {
        lemma_prefix("Encountered"@, rest);
    } else if t == "Failing tests:"@ {
    } else {
        lemma_ran(number, rest);
    }
    lemma_section(scan, verbose, line);
}

proof fn lemma_ran(number: Seq<char>, rest: Seq<char>)
    requires
        number.len() > 0,
        forall|i: int| 0 <= i < number.len() ==> '0' <= #[trigger] number[i] <= '9',
    ensures
        pattern::is_suite_result("Ran "@ + number + " test"@ + rest),
{
    let t = "Ran "@ + number + " test"@ + rest;
    let behind = " test"@ + rest;
    let form = seq![Piece::Text("Ran "@), Piece::Run(Class::Digit), Piece::Text(" test"@)];
    reveal_with_fuel(pattern::begins, 4);
    reveal_strlit("Ran ");
    reveal_strlit(" test");
    lemma_prefix("Ran "@, number + behind);
    assert(t == "Ran "@ + (number + behind));
    assert(t.skip(4) == number + behind);
    assert forall|j: int| 0 <= j < number.len() implies pattern::in_class(
        Class::Digit,
        #[trigger] number[j],
    ) by {}
    assert(behind.first() == ' ');
    pattern_laws::lemma_run_is(number, behind, Class::Digit);
    assert((number + behind).skip(number.len() as int) == behind);
    lemma_prefix(" test"@, rest);
    assert(form.drop_first() == seq![Piece::Run(Class::Digit), Piece::Text(" test"@)]);
    assert(form.drop_first().drop_first() == seq![Piece::Text(" test"@)]);
    assert(form.drop_first().drop_first().drop_first() == Seq::<Piece>::empty());
    assert(pattern::begins(t, form));
}

/// Whether a text may begin with the word `Ran` and a number of tests: all that stands
/// between the word and ` test` may be digits.
pub open spec fn may_say_how_many_ran(t: Seq<char>, k: int) -> bool {
    &&& 4 < k
    &&& k + 5 <= t.len()
    &&& t.subrange(0, 4) == "Ran "@
    &&& t.subrange(k, k + 5) == " test"@
    &&& forall|j: int| 4 <= j < k ==> ('0' <= #[trigger] t[j] <= '9') || t[j] > '\u{7f}'
}

proof fn lemma_is_suite_result(t: Seq<char>)
    requires
        pattern::is_suite_result(t),
    ensures
        "Test result:"@.is_prefix_of(t) || "Suite result:"@.is_prefix_of(t)
            || "Encountered"@.is_prefix_of(t) || exists|k: int| may_say_how_many_ran(t, k),
{
    let form = seq![Piece::Text("Ran "@), Piece::Run(Class::Digit), Piece::Text(" test"@)];
    if pattern::begins(t, form) {
        reveal_with_fuel(pattern::begins, 4);
        reveal_strlit("Ran ");
        reveal_strlit(" test");
        let rest = t.skip(4);
        let n = pattern::run(rest, Class::Digit);
        pattern_laws::lemma_run_parts(rest, Class::Digit);
        assert(form.drop_first() == seq![Piece::Run(Class::Digit), Piece::Text(" test"@)]);
        assert(form.drop_first().drop_first() == seq![Piece::Text(" test"@)]);
        assert("Ran "@.is_prefix_of(t));
        assert(" test"@.is_prefix_of(rest.skip(n)));
        let k = 4 + n;
        assert(rest.skip(n).subrange(0, 5) == t.subrange(k, k + 5));
        assert forall|j: int| 4 <= j < k implies ('0' <= #[trigger] t[j] <= '9') || t[j]
            > '\u{7f}' by {
            assert(t[j] == rest[j - 4]);
            assert(pattern::in_class(Class::Digit, rest[j - 4]));
        }
        assert(may_say_how_many_ran(t, k));
    }
}

/// Every other line ends no trace: it is shown, compressed, where it stands in the trace of
/// a failed test and is not blank, and dropped where it does not. Only the result of a test
/// has brackets after `[PASS` or `[FAIL` that white space follows; only forge's summaries
/// begin with `Test result:`, `Suite result:`, `Encountered`, or `Ran` and a number of tests,
/// and only the heading of its list of failures is `Failing tests:`.
pub proof fn law_other_lines_belong_to_traces(scan: Scan, verbose: bool, line: Seq<char>)
    requires
        ({
            let t = text::trimmed(line);
            &&& t.len() >= 5 && t[0] == '[' && (t.subrange(1, 5) == "PASS"@ || t.subrange(1, 5)
                == "FAIL"@) ==> forall|i: int, j: int|
                5 <= i && j == i + 1 && j < t.len() && #[trigger] t[i] == ']' ==> !text::is_white(
                    #[trigger] t[j],
                )
            &&& t.len() >= 12 ==> t.subrange(0, 12) != "Test result:"@
            &&& t.len() >= 13 ==> t.subrange(0, 13) != "Suite result:"@
            &&& t.len() >= 11 ==> t.subrange(0, 11) != "Encountered"@
            &&& t != "Failing tests:"@
            &&& forall|k: int| !#[trigger] may_say_how_many_ran(t, k)
        }),
    ensures
        test_output::after_line(scan, verbose, line) == (if scan.state is InFailTrace
            && text::trimmed(line).len() > 0 {
            Scan { shown: scan.shown.push(trace::compressed(line)), ..scan }
        } else {
            scan
        }),
{
    let t = text::trimmed(line);
    reveal_strlit("Test result:");
    reveal_strlit("Suite result:");
    reveal_strlit("Encountered");
    reveal_strlit("[PASS");
    reveal_strlit("[FAIL");
    reveal_strlit("PASS");
    reveal_strlit("FAIL");
    if pattern::is_suite_result(t) {
        lemma_is_suite_result(t);
        assert(false);
    }
    if pattern::is_test_result(t) {
        let i = choose|i: int| pattern::verdict_ends_at(t, i);
        let behind = t.skip(i + 1);
        pattern_laws::lemma_run_parts(behind, Class::White);
        assert(pattern::in_class(Class::White, behind[0]));
        assert(t[i + 1] == behind[0]);
        if "[PASS"@.is_prefix_of(t) {
            lemma_prefix_char("[PASS"@, t, 0);
            assert(t.subrange(0, 5).subrange(1, 5) == t.subrange(1, 5));
            assert("[PASS"@.subrange(1, 5) == "PASS"@);
        } else {
            lemma_prefix_char("[FAIL"@, t, 0);
            assert(t.subrange(0, 5).subrange(1, 5) == t.subrange(1, 5));
            assert("[FAIL"@.subrange(1, 5) == "FAIL"@);
        }
        assert(t[i] == ']' && t[i + 1] == behind[0]);
        assert(false);
    }
}

/// A line whose first character, white space apart, draws the tree ends no trace. In the
/// trace of a failed test it is shown compressed, and the trace goes on.
pub proof fn law_the_tree_ends_no_trace(scan: Scan, verbose: bool, white: Seq<char>, rest: Seq<char>)
    requires
        forall|i: int| 0 <= i < white.len() ==> text::is_white(#[trigger] white[i]),
        rest.len() > 0,
        rest[0] == '├' || rest[0] == '└' || rest[0] == '│' || rest[0] == '─',
    ensures
        scan.state is InFailTrace ==> test_output::after_line(scan, verbose, white + rest) == (Scan {
            shown: scan.shown.push(trace::compressed(white + rest)),
            ..scan
        }),
        !(scan.state is InFailTrace) ==> test_output::after_line(scan, verbose, white + rest)
            == scan,
{
    let line = white + rest;
    let t = text::trimmed(line);
    text_laws::lemma_white_in_front(white, rest);
    assert(text::trim_start(rest) == rest);
    let to = text::lemma_trim_end(rest);
    lemma_trim_end_keeps(rest);
    assert(t == rest.take(to));
    assert(t[0] == rest[0]);
    reveal_strlit("Test result:");
    reveal_strlit("Suite result:");
    reveal_strlit("Encountered");
    reveal_strlit("Failing tests:");
    reveal_strlit("Ran ");
    assert(t.len() >= 12 ==> t.subrange(0, 12)[0] == t[0]);
    assert(t.len() >= 13 ==> t.subrange(0, 13)[0] == t[0]);
    assert(t.len() >= 11 ==> t.subrange(0, 11)[0] == t[0]);
    assert forall|k: int| !#[trigger] may_say_how_many_ran(t, k) by {
        if may_say_how_many_ran(t, k) {
            assert(t.subrange(0, 4)[0] == t[0]);
        }
    }
    law_other_lines_belong_to_traces(scan, verbose, line);
}

proof fn lemma_trim_end_keeps(s: Seq<char>)
    ensures
        s.len() > 0 && !text::is_white(s[0]) ==> text::trim_end(s).len() > 0,
    decreases s.len(),
{
    if s.len() > 1 {
        lemma_trim_end_keeps(s.drop_last());
    }
}

/// Lines are taken one after the other, from the first on, with nothing counted, shown or
/// begun before it.
pub proof fn law_lines_are_taken_in_turn(lines: Seq<Seq<char>>, line: Seq<char>, verbose: bool)
    ensures
        test_output::scanned(seq![], verbose) == (Scan {
            state: State::Scanning,
            passed: 0,
            failed: 0,
            fails: Set::empty(),
            shown: seq![],
        }),
        test_output::scanned(lines.push(line), verbose) == test_output::after_line(
            test_output::scanned(lines, verbose),
            verbose,
            line,
        ),
{
    assert(lines.push(line).drop_last() == lines);
}

/// A summary says how many tests passed and how many failed, and leaves out what there are
/// none of.
pub proof fn law_what_a_summary_says(passed: nat, failed: nat)
    ensures
        test_output::summarized(0, 0) == Seq::<char>::empty(),
        passed > 0 ==> test_output::summarized(passed, 0) == decimal::decimal(passed) + " passed"@,
        failed > 0 ==> test_output::summarized(0, failed) == decimal::decimal(failed) + " failed"@,
        passed > 0 && failed > 0 ==> test_output::summarized(passed, failed)
            == test_output::summarized(passed, 0) + ", "@ + test_output::summarized(0, failed),
{
    reveal_strlit(" passed");
    reveal_strlit(" passed, ");
    reveal_strlit(", ");
    assert(" passed, "@ == " passed"@ + ", "@);
    if passed > 0 && failed > 0 {
        assert(decimal::decimal(passed) + (" passed"@ + ", "@) + decimal::decimal(failed)
            + " failed"@ == (decimal::decimal(passed) + " passed"@) + ", "@ + (decimal::decimal(
            failed,
        ) + " failed"@));
    }
}

/// What is left of an output is the lines shown, joined by newlines, and the summary on a
/// line of its own below them.
pub proof fn law_the_report(output: Seq<char>, verbose: bool)
    ensures
        ({
            let scan = test_output::scanned(text::lines_of(output), verbose);
            let summary = test_output::summarized(scan.passed, scan.failed);
            let shown = text::joined(scan.shown, seq!['\n']);
            test_output::filtered_test(output, verbose) == (if shown.len() == 0 {
                summary
            } else if summary.len() == 0 {
                shown
            } else {
                shown + seq!['\n'] + summary
            })
        }),
{
    let scan = test_output::scanned(text::lines_of(output), verbose);
    let summary = test_output::summarized(scan.passed, scan.failed);
    let shown = text::joined(scan.shown, seq!['\n']);
    if shown.len() == 0 {
        assert(shown + summary == summary);
    } else if summary.len() == 0 {
        assert(shown + summary == shown);
    }
}

/// A stream takes lines as a scan does, and counts the bytes of each and its newline. A
/// report of progress is made whenever ten tests or more have run since the last.
pub proof fn law_a_stream_takes_lines_in_turn(
    lines: Seq<Seq<char>>,
    line: Seq<char>,
    verbose: bool,
)
    ensures
        stream::streamed(seq![], verbose) == (stream::Streamed {
            scan: test_output::scanned(seq![], verbose),
            raw_len: 0,
            reported: 0,
        }),
        ({
            let before = stream::streamed(lines, verbose);
            let after = stream::streamed(lines.push(line), verbose);
            let ran = after.scan.passed + after.scan.failed;
            &&& after.scan == test_output::after_line(before.scan, verbose, line)
            &&& after.raw_len == before.raw_len + utf8::encode_utf8(line).len() + 1
            &&& ran >= before.reported + 10 ==> after.reported == ran
            &&& ran < before.reported + 10 ==> after.reported == before.reported
        }),
{
    assert(lines.push(line).drop_last() == lines);
}

/// A report of progress overwrites the line that it is printed on, and says how many tests
/// have passed and failed.
pub proof fn law_what_a_report_of_progress_says(passed: nat, failed: nat)
    ensures
        stream::progress_report(passed, failed) == "\r[forge] "@ + decimal::decimal(passed)
            + " passed, "@ + decimal::decimal(failed) + " failed..."@,
{
}

} // verus!
