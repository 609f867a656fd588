//! The output of `forge test` as it arrives: what to show for each line, and when to say
//! how far the run has come.

use crate::decimal;
use crate::test_output;
use crate::test_output::{Scan, Scanner};
use vstd::prelude::*;
use vstd::utf8;

verus! {

/// How many tests lie between two reports of progress.
pub const REPORT_EVERY: usize = 10;

/// What has been made of the lines so far.
#[verifier::ext_equal]
pub struct Streamed {
    /// The results, and the lines shown.
    pub scan: Scan,
    /// How many bytes have arrived, each line with its newline.
    pub raw_len: nat,
    /// How many tests had run at the last report of progress.
    pub reported: nat,
}

/// How many bytes a line takes up, its newline included.
pub open spec fn bytes_of(line: Seq<char>) -> nat {
    utf8::encode_utf8(line).len() + 1
}

/// Before the first line.
pub open spec fn initial() -> Streamed {
    Streamed { scan: test_output::initial(), raw_len: 0, reported: 0 }
}

/// How many tests have run.
pub open spec fn total(scan: Scan) -> nat {
    scan.passed + scan.failed
}

/// Whether progress is due to be reported.
pub open spec fn is_due(scan: Scan, reported: nat) -> bool {
    total(scan) >= reported + REPORT_EVERY
}

/// After one more line.
pub open spec fn after_line(streamed: Streamed, verbose: bool, line: Seq<char>) -> Streamed {
    let scan = test_output::after_line(streamed.scan, verbose, line);
    Streamed {
        scan,
        raw_len: streamed.raw_len + bytes_of(line),
        reported: if is_due(scan, streamed.reported) {
            total(scan)
        } else {
            streamed.reported
        },
    }
}

/// After all lines.
pub open spec fn streamed(lines: Seq<Seq<char>>, verbose: bool) -> Streamed
    decreases lines.len(),
{
    if lines.len() == 0 {
        initial()
    } else {
        after_line(streamed(lines.drop_last(), verbose), verbose, lines.last())
    }
}

/// A report of progress, which overwrites the one before it.
pub open spec fn progress_report(passed: nat, failed: nat) -> Seq<char> {
    "\r[forge] "@ + decimal::decimal(passed) + " passed, "@ + decimal::decimal(failed)
        + " failed..."@
}

/// What a line calls for.
pub struct Response {
    /// A line to show.
    pub show: Option<String>,
    /// A report of progress.
    pub progress: Option<String>,
}

/// Reads the output of `forge test` as it arrives.
pub struct Stream {
    scanner: Scanner,
    raw_len: usize,
    reported: usize,
}

impl View for Stream {
    type V = Streamed;

    closed spec fn view(&self) -> Streamed {
        Streamed {
            scan: self.scanner@,
            raw_len: self.raw_len as nat,
            reported: self.reported as nat,
        }
    }
}

impl Stream {
    /// No more tests have run than bytes have arrived, and no report of progress is due.
    pub closed spec fn wf(&self) -> bool {
        &&& self.scanner.wf()
        &&& total(self.scanner@) <= self.raw_len
        &&& self.reported <= total(self.scanner@)
        &&& !is_due(self.scanner@, self.reported as nat)
    }

    /// Whether the output holds traces.
    pub closed spec fn is_verbose(&self) -> bool {
        self.scanner.is_verbose()
    }

    /// Whether the bytes of one more line can be counted.
    pub open spec fn room_for(&self, line: Seq<char>) -> bool {
        self@.raw_len + bytes_of(line) <= usize::MAX
    }

    /// Before the first line.
    pub fn new(has_verbosity: bool) -> (res: Self)
        ensures
            res.wf(),
            res.is_verbose() == has_verbosity,
            res@ == initial(),
    {
        Stream { scanner: Scanner::new(has_verbosity), raw_len: 0, reported: 0 }
    }

    /// Whether the bytes of one more line can be counted.
    pub fn has_room(&self, line: &str) -> (res: bool)
        ensures
            res == self.room_for(line@),
            res <==> self@.raw_len + utf8::encode_utf8(line@).len() + 1 <= usize::MAX,
    {
        line.as_bytes().len() < usize::MAX - self.raw_len
    }

    /// Takes the next line.
    pub fn take_line(&mut self, line: &str) -> (res: Response)
        requires
            old(self).wf(),
            old(self).room_for(line@),
        ensures
            final(self).wf(),
            final(self).is_verbose() == old(self).is_verbose(),
            final(self)@ == after_line(old(self)@, old(self).is_verbose(), line@),
            match res.show {
                Some(shown) => final(self)@.scan.shown == old(self)@.scan.shown.push(shown@),
                None => final(self)@.scan.shown == old(self)@.scan.shown,
            },
            res.progress is Some <==> is_due(final(self)@.scan, old(self)@.reported),
            res.progress is Some <==> final(self)@.scan.passed + final(self)@.scan.failed >= old(
                self,
            )@.reported + 10,
            res.progress matches Some(report) ==> report@ == progress_report(
                final(self)@.scan.passed,
                final(self)@.scan.failed,
            ),
    {
        let show = self.scanner.take_line(line);
        self.raw_len = self.raw_len + line.as_bytes().len() + 1;
        let passed = self.scanner.passed();
        let failed = self.scanner.failed();
        let total: usize = passed + failed;
        if total - self.reported >= REPORT_EVERY {
            self.reported = total;
            let mut report = "\r[forge] ".to_owned();
            decimal::push_decimal(&mut report, passed as u128);
            report.append(" passed, ");
            decimal::push_decimal(&mut report, failed as u128);
            report.append(" failed...");
            Response { show, progress: Some(report) }
        } else {
            Response { show, progress: None }
        }
    }

    /// Whether a report of progress is on the screen.
    pub fn has_reported(&self) -> (res: bool)
        ensures
            res == (self@.reported > 0),
    {
        self.reported > 0
    }

    /// How many tests passed, how many failed, and how many bytes arrived.
    pub fn totals(&self) -> (res: (usize, usize, usize))
        ensures
            res.0 == self@.scan.passed,
            res.1 == self@.scan.failed,
            res.2 == self@.raw_len,
    {
        (self.scanner.passed(), self.scanner.failed(), self.raw_len)
    }
}

} // verus!
