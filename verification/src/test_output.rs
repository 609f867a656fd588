//! The filter for the output of `forge test`.

use crate::decimal;
use crate::engine;
use crate::engine::Compiled;
use crate::pattern;
use crate::pattern::Pattern;
use crate::text;
use crate::trace;
use crate::trace::TracePatterns;
use vstd::hash_set::StringHashSet;
use vstd::prelude::*;

verus! {

/// Where in the output a line stands.
#[derive(Clone, Copy, PartialEq, Eq, Structural, Debug)]
pub enum State {
    /// In no trace.
    Scanning,
    /// In the trace of a failed test.
    InFailTrace,
    /// In the trace of a passed test.
    InPassTrace,
}

/// What has been made of the lines so far.
#[verifier::ext_equal]
pub struct Scan {
    /// Where the next line stands.
    pub state: State,
    /// How many tests have passed.
    pub passed: nat,
    /// How many tests have failed.
    pub failed: nat,
    /// The results of the failed tests.
    pub fails: Set<Seq<char>>,
    /// The lines to show.
    pub shown: Seq<Seq<char>>,
}

/// The result of a failed test.
pub open spec fn is_failed(trimmed: Seq<char>) -> bool {
    pattern::is_test_result(trimmed) && pattern::is_fail(trimmed)
}

/// The result of a passed test.
pub open spec fn is_passed(trimmed: Seq<char>) -> bool {
    pattern::is_test_result(trimmed) && !pattern::is_fail(trimmed)
}

/// A line of forge's own that sums up, or heads the list of failures.
pub open spec fn is_section(trimmed: Seq<char>) -> bool {
    pattern::is_suite_result(trimmed) || trimmed == "Failing tests:"@
}

/// A line that ends a trace.
pub open spec fn ends_trace(trimmed: Seq<char>) -> bool {
    pattern::is_test_result(trimmed) || is_section(trimmed)
}

/// Before the first line.
pub open spec fn initial() -> Scan {
    Scan {
        state: State::Scanning,
        passed: 0,
        failed: 0,
        fails: Set::empty(),
        shown: seq![],
    }
}

/// After a line of a trace: it is shown where a test failed, blank lines apart.
pub open spec fn after_trace_line(scan: Scan, line: Seq<char>) -> Scan {
    if scan.state is InFailTrace && text::trimmed(line).len() > 0 {
        Scan { shown: scan.shown.push(trace::compressed(line)), ..scan }
    } else {
        scan
    }
}

/// After a line that stands in no trace: results are counted, those of failed tests shown,
/// each once, and with `verbose` a trace follows them; all other lines are dropped.
pub open spec fn after_result(scan: Scan, verbose: bool, trimmed: Seq<char>) -> Scan {
    if is_section(trimmed) || pattern::is_traces_header(trimmed) || !pattern::is_test_result(
        trimmed,
    ) {
        scan
    } else if is_passed(trimmed) {
        Scan {
            passed: scan.passed + 1,
            state: if verbose {
                State::InPassTrace
            } else {
                scan.state
            },
            ..scan
        }
    } else if scan.fails.contains(trimmed) {
        scan
    } else {
        Scan {
            failed: scan.failed + 1,
            fails: scan.fails.insert(trimmed),
            shown: scan.shown.push(trimmed),
            state: if verbose {
                State::InFailTrace
            } else {
                scan.state
            },
            ..scan
        }
    }
}

/// After one more line.
pub open spec fn after_line(scan: Scan, verbose: bool, line: Seq<char>) -> Scan {
    if !(scan.state is Scanning) && !ends_trace(text::trimmed(line)) {
        after_trace_line(scan, line)
    } else {
        after_result(Scan { state: State::Scanning, ..scan }, verbose, text::trimmed(line))
    }
}

/// After all lines.
pub open spec fn scanned(lines: Seq<Seq<char>>, verbose: bool) -> Scan
    decreases lines.len(),
{
    if lines.len() == 0 {
        initial()
    } else {
        after_line(scanned(lines.drop_last(), verbose), verbose, lines.last())
    }
}

/// How many tests passed and how many failed, in words; nothing where there were none.
pub open spec fn summarized(passed: nat, failed: nat) -> Seq<char> {
    if passed == 0 && failed == 0 {
        seq![]
    } else if failed == 0 {
        decimal::decimal(passed) + " passed"@
    } else if passed == 0 {
        decimal::decimal(failed) + " failed"@
    } else {
        decimal::decimal(passed) + " passed, "@ + decimal::decimal(failed) + " failed"@
    }
}

/// The lines shown, and a summary on a line of its own below them.
pub open spec fn report(shown: Seq<Seq<char>>, summary: Seq<char>) -> Seq<char> {
    let above = text::joined(shown, seq!['\n']);
    if summary.len() > 0 && above.len() > 0 {
        above + seq!['\n'] + summary
    } else {
        above + summary
    }
}

/// What is left of the output of `forge test`.
pub open spec fn filtered_test(output: Seq<char>, verbose: bool) -> Seq<char> {
    let scan = scanned(text::lines_of(output), verbose);
    report(scan.shown, summarized(scan.passed, scan.failed))
}

/// The patterns that sort the lines of `forge test`.
struct LinePatterns {
    test_result: Compiled,
    fail: Compiled,
    traces_header: Compiled,
    suite_result: Compiled,
}

/// Reads the output of `forge test` line by line.
pub struct Scanner {
    verbose: bool,
    state: State,
    passed: usize,
    failed: usize,
    fails: StringHashSet,
    patterns: LinePatterns,
    trace_patterns: TracePatterns,
    shown: Ghost<Seq<Seq<char>>>,
}

impl View for Scanner {
    type V = Scan;

    closed spec fn view(&self) -> Scan {
        Scan {
            state: self.state,
            passed: self.passed as nat,
            failed: self.failed as nat,
            fails: self.fails@,
            shown: self.shown@,
        }
    }
}

impl Scanner {
    /// Whether the patterns are in their places.
    pub closed spec fn wf(&self) -> bool {
        &&& self.patterns.test_result@ == Pattern::TestResult
        &&& self.patterns.fail@ == Pattern::Fail
        &&& self.patterns.traces_header@ == Pattern::TracesHeader
        &&& self.patterns.suite_result@ == Pattern::SuiteResult
        &&& self.trace_patterns.wf()
    }

    /// Whether the output holds traces.
    pub closed spec fn is_verbose(&self) -> bool {
        self.verbose
    }

    /// A scanner before the first line.
    pub fn new(verbose: bool) -> (res: Self)
        ensures
            res.wf(),
            res.is_verbose() == verbose,
            res@ == initial(),
    {
        Scanner {
            verbose,
            state: State::Scanning,
            passed: 0,
            failed: 0,
            fails: StringHashSet::new(),
            patterns: LinePatterns {
                test_result: engine::prepare(Pattern::TestResult),
                fail: engine::prepare(Pattern::Fail),
                traces_header: engine::prepare(Pattern::TracesHeader),
                suite_result: engine::prepare(Pattern::SuiteResult),
            },
            trace_patterns: TracePatterns::new(),
            shown: Ghost(Seq::empty()),
        }
    }

    /// How many tests have passed.
    pub fn passed(&self) -> (res: usize)
        ensures
            res == self@.passed,
    {
        self.passed
    }

    /// How many tests have failed.
    pub fn failed(&self) -> (res: usize)
        ensures
            res == self@.failed,
    {
        self.failed
    }

    /// Takes the next line, and gives back what is to be shown for it, if anything.
    pub fn take_line(&mut self, line: &str) -> (res: Option<String>)
        requires
            old(self).wf(),
            old(self)@.passed + old(self)@.failed < usize::MAX,
        ensures
            final(self).wf(),
            final(self).is_verbose() == old(self).is_verbose(),
            final(self)@ == after_line(old(self)@, old(self).is_verbose(), line@),
            match res {
                Some(shown) => final(self)@.shown == old(self)@.shown.push(shown@),
                None => final(self)@.shown == old(self)@.shown,
            },
    {
        let trimmed = text::trim(line);
        let is_result = engine::is_match(&self.patterns.test_result, trimmed.as_str());
        let is_section = engine::is_match(&self.patterns.suite_result, trimmed.as_str())
            || trimmed == "Failing tests:".to_owned();
        if self.state != State::Scanning {
            if is_result || is_section {
                self.state = State::Scanning;
            } else if self.state == State::InFailTrace && !trimmed.as_str().is_empty() {
                let shown = self.trace_patterns.compress(line);
                self.shown = Ghost(self.shown@.push(shown@));
                return Some(shown);
            } else {
                return None;
            }
        }
        if is_section || engine::is_match(&self.patterns.traces_header, trimmed.as_str())
            || !is_result {
            return None;
        }
        if engine::is_match(&self.patterns.fail, trimmed.as_str()) {
            if !self.fails.insert(trimmed.clone()) {
                proof {
                    assert(self.fails@ == old(self).fails@);
                }
                return None;
            }
            self.failed = self.failed + 1;
            if self.verbose {
                self.state = State::InFailTrace;
            }
            self.shown = Ghost(self.shown@.push(trimmed@));
            Some(trimmed)
        } else {
            self.passed = self.passed + 1;
            if self.verbose {
                self.state = State::InPassTrace;
            }
            None
        }
    }
}

/// Says how many tests passed and how many failed.
pub fn summary(passed: usize, failed: usize) -> (res: String)
    ensures
        res@ == summarized(passed as nat, failed as nat),
{
    let mut out = String::new();
    if passed > 0 {
        decimal::push_decimal(&mut out, passed as u128);
        out.append(
            if failed > 0 {
                " passed, "
            } else {
                " passed"
            },
        );
    }
    if failed > 0 {
        decimal::push_decimal(&mut out, failed as u128);
        out.append(" failed");
    }
    out
}

/// A summary is empty only where no test has run.
pub proof fn lemma_summarized(passed: nat, failed: nat)
    ensures
        summarized(passed, failed).len() == 0 <==> passed == 0 && failed == 0,
{
    reveal_strlit(" passed");
    reveal_strlit(" failed");
}

/// Filters the output of `forge test`: shows failed tests, each once, with their traces
/// compressed, never passed tests or their traces, and a summary at the bottom.
pub fn filter_forge_test(output: &str, has_verbosity: bool) -> (res: String)
    ensures
        res@ == filtered_test(output@, has_verbosity),
{
    let lines = text::lines(output);
    let mut scanner = Scanner::new(has_verbosity);
    let mut shown: Vec<String> = Vec::new();
    let mut i: usize = 0;
    let ghost all = text::views(lines@);
    proof {
        assert(text::views(shown@) == Seq::<Seq<char>>::empty());
    }
    while i < lines.len()
        invariant
            i <= lines@.len(),
            all == text::views(lines@),
            scanner.wf(),
            scanner.is_verbose() == has_verbosity,
            scanner@ == scanned(all.take(i as int), has_verbosity),
            scanner@.passed + scanner@.failed <= i,
            text::views(shown@) == scanner@.shown,
        decreases lines@.len() - i,
    {
        let ghost before = shown@;
        proof {
            assert(all.take(i + 1).drop_last() == all.take(i as int));
        }
        match scanner.take_line(lines[i].as_str()) {
            Some(part) => {
                shown.push(part);
                proof {
                    assert(text::views(shown@) == text::views(before).push(part@));
                }
            },
            None => {},
        }
        i = i + 1;
    }
    proof {
        assert(all.take(i as int) == all);
        reveal_strlit("\n");
        assert("\n"@ == seq!['\n']);
    }
    let mut out = text::join(shown.as_slice(), "\n");
    let line = summary(scanner.passed(), scanner.failed());
    if !line.as_str().is_empty() {
        if !out.as_str().is_empty() {
            out.push('\n');
        }
        out.append(line.as_str());
    }
    out
}

} // verus!
