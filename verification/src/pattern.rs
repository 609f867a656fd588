//! The patterns that sort forge's lines and rewrite its traces: their regular expressions,
//! and what these match.

use crate::decimal;
use crate::engine;
use crate::scientific;
use crate::text;
use vstd::prelude::*;

verus! {

/// The patterns.
#[derive(Clone, Copy, PartialEq, Eq, Structural, Debug)]
pub enum Pattern {
    /// A line of `forge build` that says nothing about the code.
    BuildNoise,
    /// A line with the result of one test.
    TestResult,
    /// A line with the result of a failed test, or the beginning of one.
    Fail,
    /// The header of a trace.
    TracesHeader,
    /// A line that sums up a suite or a run.
    SuiteResult,
    /// A run of the characters that draw a trace's tree.
    BoxDrawing,
    /// An amount of gas in brackets.
    Gas,
    /// An Ethereum address.
    Address,
    /// An integer of seven digits or more.
    LargeInt,
}

/// Noise lines of `forge build`.
pub const BUILD_NOISE: &'static str = r"(?x)
        ^Compiling\s+\d+\s+files? |
        ^Solc\s+[\d.]+ \s+finished |
        ^Compiler\s+run\s+successful |
        ^Nothing\s+to\s+compile |
        ^No\s+files\s+changed
        ";

/// Test results. The brackets of the verdict may hold brackets themselves.
pub const TEST_RESULT: &'static str = r"^\[(PASS|FAIL).*\]\s+\S+";

/// Failed tests.
pub const FAIL: &'static str = r"^\[FAIL";

/// The line above a trace.
pub const TRACES_HEADER: &'static str = r"^Traces:";

/// Forge's own summaries.
pub const SUITE_RESULT: &'static str = r"^(Test result:|Ran \d+ test|Suite result:|Encountered)";

/// The tree of a trace.
pub const BOX_DRAWING: &'static str = r"[├└│─]+";

/// Gas amounts.
pub const GAS: &'static str = r"\[\d+\]";

/// Addresses: 40 hexadecimal digits.
pub const ADDRESS: &'static str = r"0x([0-9a-fA-F]{40})";

/// Large integers that stand alone.
pub const LARGE_INT: &'static str = r"\b(\d{7,})\b";

/// The regular expression of a pattern.
pub open spec fn source_of(p: Pattern) -> Seq<char> {
    match p {
        Pattern::BuildNoise => BUILD_NOISE@,
        Pattern::TestResult => TEST_RESULT@,
        Pattern::Fail => FAIL@,
        Pattern::TracesHeader => TRACES_HEADER@,
        Pattern::SuiteResult => SUITE_RESULT@,
        Pattern::BoxDrawing => BOX_DRAWING@,
        Pattern::Gas => GAS@,
        Pattern::Address => ADDRESS@,
        Pattern::LargeInt => LARGE_INT@,
    }
}

/// The class `\d`: the decimal digits of Unicode.
pub open spec fn is_digit(c: char) -> bool {
    if c <= '\u{7f}' {
        '0' <= c <= '9'
    } else {
        engine::regex_is_match(r"\d"@, seq![c])
    }
}

/// The class `\w`: the word characters of Unicode.
pub open spec fn is_word(c: char) -> bool {
    if c <= '\u{7f}' {
        ('0' <= c <= '9') || ('A' <= c <= 'Z') || ('a' <= c <= 'z') || c == '_'
    } else {
        engine::regex_is_match(r"\w"@, seq![c])
    }
}

/// The characters that draw a trace's tree.
pub open spec fn is_box(c: char) -> bool {
    c == '├' || c == '└' || c == '│' || c == '─'
}

/// A hexadecimal digit.
pub open spec fn is_hex(c: char) -> bool {
    ('0' <= c <= '9') || ('a' <= c <= 'f') || ('A' <= c <= 'F')
}

/// A set of characters.
pub enum Class {
    White,
    Digit,
    DigitOrDot,
    Box,
}

/// Whether a set of characters holds `c`.
pub open spec fn in_class(class: Class, c: char) -> bool {
    match class {
        Class::White => text::is_white(c),
        Class::Digit => is_digit(c),
        Class::DigitOrDot => is_digit(c) || c == '.',
        Class::Box => is_box(c),
    }
}

/// How many characters of a class `s` begins with.
pub open spec fn run(s: Seq<char>, class: Class) -> int
    decreases s.len(),
{
    if s.len() > 0 && in_class(class, s.first()) {
        1 + run(s.drop_first(), class)
    } else {
        0
    }
}

/// A part of a form that lines are held against.
pub enum Piece {
    /// This text.
    Text(Seq<char>),
    /// At least one character of the class.
    Run(Class),
}

/// Whether `s` begins with text of this form.
pub open spec fn begins(s: Seq<char>, form: Seq<Piece>) -> bool
    decreases form.len(),
{
    form.len() > 0 ==> match form.first() {
        Piece::Text(part) => part.is_prefix_of(s) && begins(
            s.skip(part.len() as int),
            form.drop_first(),
        ),
        Piece::Run(class) => run(s, class) > 0 && begins(s.skip(run(s, class)), form.drop_first()),
    }
}

/// A noise line of `forge build`.
pub open spec fn is_build_noise(s: Seq<char>) -> bool {
    let white = Piece::Run(Class::White);
    ||| begins(
        s,
        seq![
            Piece::Text("Compiling"@),
            white,
            Piece::Run(Class::Digit),
            white,
            Piece::Text("file"@),
        ],
    )
    ||| begins(
        s,
        seq![
            Piece::Text("Solc"@),
            white,
            Piece::Run(Class::DigitOrDot),
            white,
            Piece::Text("finished"@),
        ],
    )
    ||| begins(
        s,
        seq![
            Piece::Text("Compiler"@),
            white,
            Piece::Text("run"@),
            white,
            Piece::Text("successful"@),
        ],
    )
    ||| begins(
        s,
        seq![Piece::Text("Nothing"@), white, Piece::Text("to"@), white, Piece::Text("compile"@)],
    )
    ||| begins(
        s,
        seq![Piece::Text("No"@), white, Piece::Text("files"@), white, Piece::Text("changed"@)],
    )
}

/// A failed test.
pub open spec fn is_fail(s: Seq<char>) -> bool {
    "[FAIL"@.is_prefix_of(s)
}

/// The header of a trace.
pub open spec fn is_traces_header(s: Seq<char>) -> bool {
    "Traces:"@.is_prefix_of(s)
}

/// A summary of a suite or a run.
pub open spec fn is_suite_result(s: Seq<char>) -> bool {
    ||| "Test result:"@.is_prefix_of(s)
    ||| begins(s, seq![Piece::Text("Ran "@), Piece::Run(Class::Digit), Piece::Text(" test"@)])
    ||| "Suite result:"@.is_prefix_of(s)
    ||| "Encountered"@.is_prefix_of(s)
}

/// Whether the bracket at `i` closes the verdict of a test and a name follows it: no
/// newline stands in the verdict, and after it come white space and something else.
pub open spec fn verdict_ends_at(s: Seq<char>, i: int) -> bool {
    &&& 5 <= i < s.len()
    &&& s[i] == ']'
    &&& forall|j: int| 5 <= j < i ==> s[j] != '\n'
    &&& run(s.skip(i + 1), Class::White) > 0
    &&& i + 1 + run(s.skip(i + 1), Class::White) < s.len()
}

/// The result of one test.
pub open spec fn is_test_result(s: Seq<char>) -> bool {
    &&& "[PASS"@.is_prefix_of(s) || "[FAIL"@.is_prefix_of(s)
    &&& exists|i: int| verdict_ends_at(s, i)
}

/// Whether a text holds a match of a pattern.
pub open spec fn matches_line(p: Pattern, s: Seq<char>) -> bool {
    match p {
        Pattern::BuildNoise => is_build_noise(s),
        Pattern::TestResult => is_test_result(s),
        Pattern::Fail => is_fail(s),
        Pattern::TracesHeader => is_traces_header(s),
        Pattern::SuiteResult => is_suite_result(s),
        _ => exists|i: int| 0 <= i < s.len() && #[trigger] match_end(p, s, i) is Some,
    }
}

/// Where the match of a pattern that begins at `i` ends, if there is one.
pub open spec fn match_end(p: Pattern, s: Seq<char>, i: int) -> Option<int> {
    let rest = s.skip(i);
    let digits = run(rest, Class::Digit);
    match p {
        Pattern::BoxDrawing => if run(rest, Class::Box) > 0 {
            Some(i + run(rest, Class::Box))
        } else {
            None
        },
        Pattern::Gas => {
            let amount = run(s.skip(i + 1), Class::Digit);
            if s[i] == '[' && amount > 0 && i + 1 + amount < s.len() && s[i + 1 + amount] == ']' {
                Some(i + amount + 2)
            } else {
                None
            }
        },
        Pattern::Address => if i + 42 <= s.len() && s[i] == '0' && s[i + 1] == 'x' && forall|j: int|
            i + 2 <= j < i + 42 ==> is_hex(#[trigger] s[j]) {
            Some(i + 42)
        } else {
            None
        },
        Pattern::LargeInt => if digits >= 7 && (i == 0 || !is_word(s[i - 1])) && (i + digits
            == s.len() || !is_word(s[i + digits])) {
            Some(i + digits)
        } else {
            None
        },
        _ => None,
    }
}

/// Whether a pattern is one whose matches are rewritten.
pub open spec fn rewrites(p: Pattern) -> bool {
    p is BoxDrawing || p is Gas || p is Address || p is LargeInt
}

/// The integer that a run of digits stands for, and zero where they are not all ASCII.
pub open spec fn integer_read(found: Seq<char>) -> nat {
    if decimal::all_digits(found) {
        decimal::value(found)
    } else {
        0
    }
}

/// What a match is rewritten to: an address is shortened, an integer put in scientific
/// notation, and all else is dropped.
pub open spec fn rewritten(p: Pattern, found: Seq<char>) -> Seq<char> {
    match p {
        Pattern::Address => found.take(6) + ".."@ + found.skip(found.len() - 4),
        Pattern::LargeInt => scientific::sci_notation(integer_read(found)),
        _ => seq![],
    }
}

/// `s` from `i` on, with each match rewritten: the leftmost match first, and after it the
/// leftmost one of those that begin no earlier than it ends.
pub open spec fn replaced_from(p: Pattern, s: Seq<char>, i: int) -> Seq<char>
    decreases s.len() - i,
{
    if i < 0 || i >= s.len() {
        seq![]
    } else {
        match match_end(p, s, i) {
            Some(end) if i < end && end <= s.len() => rewritten(p, s.subrange(i, end)) + replaced_from(
                p,
                s,
                end,
            ),
            _ => seq![s[i]] + replaced_from(p, s, i + 1),
        }
    }
}

/// `s` with each match of a pattern rewritten.
pub open spec fn replaced(p: Pattern, s: Seq<char>) -> Seq<char> {
    replaced_from(p, s, 0)
}

/// The regular expression of a pattern.
pub fn source(p: Pattern) -> (res: &'static str)
    ensures
        res@ == source_of(p),
{
    match p {
        Pattern::BuildNoise => BUILD_NOISE,
        Pattern::TestResult => TEST_RESULT,
        Pattern::Fail => FAIL,
        Pattern::TracesHeader => TRACES_HEADER,
        Pattern::SuiteResult => SUITE_RESULT,
        Pattern::BoxDrawing => BOX_DRAWING,
        Pattern::Gas => GAS,
        Pattern::Address => ADDRESS,
        Pattern::LargeInt => LARGE_INT,
    }
}

/// What a match of a pattern becomes.
pub fn rewrite(p: Pattern, found: &str) -> (res: String)
    requires
        p is Address ==> found@.len() >= 10,
    ensures
        res@ == rewritten(p, found@),
{
    match p {
        Pattern::Address => {
            let chars = text::chars_of(found);
            let mut out = text::slice_of(&chars, 0, 6);
            out.append("..");
            let tail = text::slice_of(&chars, chars.len() - 4, chars.len());
            out.append(tail.as_str());
            out
        },
        Pattern::LargeInt => if !found.is_empty() && decimal::is_all_digits(found) {
            scientific::sci_notation_of_digits(found)
        } else {
            scientific::to_sci_notation(0)
        },
        _ => String::new(),
    }
}

} // verus!
