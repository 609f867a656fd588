//! What to hand to forge, and what to make of what came back.

use crate::build_output;
use crate::test_output;
use crate::text;
use vstd::prelude::*;

verus! {

/// `prefix` and the arguments, with a space between each two.
pub open spec fn with_args(prefix: Seq<char>, args: Seq<Seq<char>>) -> Seq<char> {
    prefix + text::joined(args, seq![' '])
}

/// That many times the same character.
pub open spec fn repeated(c: char, n: nat) -> Seq<char> {
    Seq::new(n, |i: int| c)
}

/// Whether an argument asks forge for traces.
pub open spec fn asks_for_traces(arg: Seq<char>) -> bool {
    arg == "-v"@ || arg == "-vv"@ || arg == "-vvv"@ || arg == "-vvvv"@ || arg == "--verbosity"@
}

/// What forge is handed for a test run: the level of verbosity goes before the arguments.
pub open spec fn test_arguments_of(args: Seq<Seq<char>>, verbose: nat) -> Seq<Seq<char>> {
    seq!["test"@] + (if verbose > 0 {
        seq![seq!['-'] + repeated('v', verbose)]
    } else {
        seq![]
    }) + args
}

/// What has been printed to either stream, the one below the other.
pub open spec fn both_streams(stdout: Seq<char>, stderr: Seq<char>) -> Seq<char> {
    stdout + seq!['\n'] + stderr
}

/// The account of a command that has run.
pub struct Report {
    /// The command as forge would be called.
    pub command: String,
    /// The command as it was called here.
    pub rtk_command: String,
    /// What forge printed, or blanks that take up as much room.
    pub raw: String,
    /// What was left of it, or blanks that take up as much room.
    pub filtered: String,
    /// What is to be printed, if anything.
    pub print: Option<String>,
}

/// Why no command can be run.
#[derive(Clone, Copy, PartialEq, Eq, Structural, Debug)]
pub enum CommandError {
    /// The arguments name no subcommand.
    NoSubcommand,
}

/// The words for an error.
pub open spec fn message_of(error: CommandError) -> Seq<char> {
    match error {
        CommandError::NoSubcommand => "forge: no subcommand specified"@,
    }
}

impl CommandError {
    /// The words for the error.
    pub fn message(&self) -> (res: String)
        ensures
            res@ == message_of(*self),
        *self == CommandError::NoSubcommand ==> res@ == "forge: no subcommand specified"@,
    {
        match self {
            CommandError::NoSubcommand => "forge: no subcommand specified".to_owned(),
        }
    }
}

/// How to run a subcommand whose output is not filtered.
pub struct OtherPlan {
    /// The subcommand.
    pub subcommand: String,
    /// What to say before it runs, if anything.
    pub notice: Option<String>,
    /// What to say if it cannot be run.
    pub failure: String,
}

fn copied(part: &String) -> (res: String)
    ensures
        res@ == part@,
{
    part.as_str().to_owned()
}

fn repeat(c: char, n: usize) -> (res: String)
    ensures
        res@ == repeated(c, n as nat),
{
    let mut out = String::new();
    let mut i: usize = 0;
    while i < n
        invariant
            i <= n,
            out@ == repeated(c, i as nat),
        decreases n - i,
    {
        out.push(c);
        proof {
            assert(out@ == repeated(c, (i + 1) as nat));
        }
        i = i + 1;
    }
    out
}

fn line_with_args(prefix: &str, args: &[String]) -> (res: String)
    ensures
        res@ == with_args(prefix@, text::views(args@)),
{
    proof {
        reveal_strlit(" ");
        assert(" "@ == seq![' ']);
    }
    let mut out = prefix.to_owned();
    out.append(text::join(args, " ").as_str());
    out
}

fn push_all(out: &mut Vec<String>, args: &[String])
    ensures
        text::views(final(out)@) == text::views(old(out)@) + text::views(args@),
{
    let ghost before = text::views(out@);
    let mut i: usize = 0;
    proof {
        assert(before + text::views(args@).take(0) == before);
    }
    while i < args.len()
        invariant
            i <= args@.len(),
            text::views(out@) == before + text::views(args@).take(i as int),
        decreases args@.len() - i,
    {
        let ghost so_far = out@;
        let part = copied(&args[i]);
        out.push(part);
        proof {
            assert(text::views(out@) == text::views(so_far).push(part@));
            assert(text::views(args@).take(i + 1) == text::views(args@).take(i as int).push(part@));
        }
        i = i + 1;
    }
    proof {
        assert(text::views(args@).take(i as int) == text::views(args@));
    }
}

/// What forge is handed for a build.
pub fn build_arguments(args: &[String]) -> (res: Vec<String>)
    ensures
        text::views(res@) == seq!["build"@] + text::views(args@),
        res@.len() == args@.len() + 1,
        res@[0]@ == "build"@,
        forall|i: int| 0 <= i < args@.len() ==> (#[trigger] res@[i + 1])@ == args@[i]@,
{
    let mut out: Vec<String> = Vec::new();
    out.push("build".to_owned());
    proof {
        assert(text::views(out@) == seq!["build"@]);
    }
    push_all(&mut out, args);
    proof {
        lemma_behind(out@, seq!["build"@], args@);
    }
    out
}

proof fn lemma_behind(all: Seq<String>, front: Seq<Seq<char>>, args: Seq<String>)
    requires
        text::views(all) == front + text::views(args),
    ensures
        all.len() == front.len() + args.len(),
        forall|i: int| 0 <= i < front.len() ==> (#[trigger] all[i])@ == front[i],
        forall|i: int| 0 <= i < args.len() ==> (#[trigger] all[i + front.len()])@ == args[i]@,
{
    assert(text::views(all).len() == all.len());
    assert forall|i: int| 0 <= i < front.len() implies (#[trigger] all[i])@ == front[i] by {
        assert(text::views(all)[i] == all[i]@);
    }
    assert forall|i: int| 0 <= i < args.len() implies (#[trigger] all[i + front.len()])@
        == args[i]@ by {
        assert(text::views(all)[i + front.len()] == all[i + front.len()]@);
        assert(text::views(args)[i] == args[i]@);
    }
}

/// What to say before a build, if anything.
pub fn build_notice(args: &[String], verbose: u8) -> (res: Option<String>)
    ensures
        res is Some <==> verbose > 0,
        res matches Some(notice) ==> notice@ == with_args(
            "Running: forge build "@,
            text::views(args@),
        ),
        res matches Some(notice) ==> notice@ == "Running: forge build "@ + text::joined(
            text::views(args@),
            seq![' '],
        ),
{
    if verbose > 0 {
        Some(line_with_args("Running: forge build ", args))
    } else {
        None
    }
}

/// The two streams that a command has printed to, as one text.
pub fn raw_output(stdout: &str, stderr: &str) -> (res: String)
    ensures
        res@ == both_streams(stdout@, stderr@),
        res@ == stdout@ + seq!['\n'] + stderr@,
{
    let mut out = stdout.to_owned();
    out.push('\n');
    out.append(stderr);
    out
}

/// The text, unless it is empty.
fn unless_empty(part: &String) -> (res: Option<String>)
    ensures
        res is Some <==> part@.len() > 0,
        res matches Some(kept) ==> kept@ == part@,
{
    if part.as_str().is_empty() {
        None
    } else {
        Some(copied(part))
    }
}

/// The account of a build.
pub fn build_report(args: &[String], stdout: &str, stderr: &str) -> (res: Report)
    ensures
        res.command@ == with_args("forge build "@, text::views(args@)),
        res.rtk_command@ == with_args("rtk forge build "@, text::views(args@)),
        res.command@ == "forge build "@ + text::joined(text::views(args@), seq![' ']),
        res.rtk_command@ == "rtk forge build "@ + text::joined(text::views(args@), seq![' ']),
        res.raw@ == both_streams(stdout@, stderr@),
        res.raw@ == stdout@ + seq!['\n'] + stderr@,
        res.filtered@ == build_output::filtered_build(res.raw@),
        res.print is Some <==> res.filtered@.len() > 0,
        res.print matches Some(print) ==> print@ == res.filtered@,
{
    let raw = raw_output(stdout, stderr);
    let filtered = build_output::filter_forge_build(raw.as_str());
    let print = unless_empty(&filtered);
    Report {
        command: line_with_args("forge build ", args),
        rtk_command: line_with_args("rtk forge build ", args),
        raw,
        filtered,
        print,
    }
}

/// Whether forge is going to print traces: it is asked to by the level of verbosity or by
/// an argument.
pub fn has_verbosity(args: &[String], verbose: u8) -> (res: bool)
    ensures
        res <==> verbose > 0 || exists|i: int|
            0 <= i < args@.len() && asks_for_traces(#[trigger] args@[i]@),
        res <==> verbose > 0 || exists|i: int|
            0 <= i < args@.len() && ((#[trigger] args@[i])@ == "-v"@ || args@[i]@ == "-vv"@
                || args@[i]@ == "-vvv"@ || args@[i]@ == "-vvvv"@ || args@[i]@ == "--verbosity"@),
{
    if verbose > 0 {
        return true;
    }
    let mut i: usize = 0;
    while i < args.len()
        invariant
            i <= args@.len(),
            forall|j: int| 0 <= j < i ==> !asks_for_traces(#[trigger] args@[j]@),
        decreases args@.len() - i,
    {
        let arg = &args[i];
        if *arg == "-v".to_owned() || *arg == "-vv".to_owned() || *arg == "-vvv".to_owned() || *arg
            == "-vvvv".to_owned() || *arg == "--verbosity".to_owned() {
            assert(asks_for_traces(args@[i as int]@));
            return true;
        }
        i = i + 1;
    }
    false
}

/// What forge is handed for a test run.
pub fn test_arguments(args: &[String], verbose: u8) -> (res: Vec<String>)
    ensures
        text::views(res@) == test_arguments_of(text::views(args@), verbose as nat),
        res@.len() == args@.len() + (if verbose > 0 {
            2int
        } else {
            1
        }),
        res@[0]@ == "test"@,
        verbose > 0 ==> {
            &&& res@[1]@.len() == verbose + 1
            &&& res@[1]@[0] == '-'
            &&& forall|i: int| 1 <= i <= verbose ==> #[trigger] res@[1]@[i] == 'v'
            &&& forall|i: int| 0 <= i < args@.len() ==> (#[trigger] res@[i + 2])@ == args@[i]@
        },
        verbose == 0 ==> forall|i: int|
            0 <= i < args@.len() ==> (#[trigger] res@[i + 1])@ == args@[i]@,
{
    let mut out: Vec<String> = Vec::new();
    out.push("test".to_owned());
    proof {
        assert(text::views(out@) == seq!["test"@]);
    }
    if verbose > 0 {
        let mut flag = String::new();
        flag.push('-');
        flag.append(repeat('v', verbose as usize).as_str());
        let ghost before = out@;
        out.push(flag);
        proof {
            assert(flag@ == seq!['-'] + repeated('v', verbose as nat));
            assert(text::views(out@) == text::views(before).push(flag@));
        }
    }
    let ghost front = text::views(out@);
    push_all(&mut out, args);
    proof {
        lemma_behind(out@, front, args@);
    }
    out
}

/// The arguments keep their places behind the subcommand and the level of verbosity, which is
/// one `v` longer for each level.
pub proof fn law_levels_of_verbosity(args: Seq<Seq<char>>, verbose: nat)
    ensures
        test_arguments_of(args, 0) == seq!["test"@] + args,
        test_arguments_of(args, 1) == seq!["test"@, seq!['-', 'v']] + args,
        verbose > 0 ==> test_arguments_of(args, verbose + 1) == test_arguments_of(
            args,
            verbose,
        ).update(1, test_arguments_of(args, verbose)[1].push('v')),
{
    assert(seq!['-'] + repeated('v', 1) == seq!['-', 'v']);
    assert(test_arguments_of(args, 0) == seq!["test"@] + args);
    assert(test_arguments_of(args, 1) == seq!["test"@, seq!['-', 'v']] + args);
    if verbose > 0 {
        let flag = seq!['-'] + repeated('v', verbose);
        assert(seq!['-'] + repeated('v', verbose + 1) == flag.push('v'));
        assert(test_arguments_of(args, verbose)[1] == flag);
    }
}

/// The account of a test run, whose output has been shown as it came.
pub fn test_report(args: &[String], passed: usize, failed: usize, raw_len: usize) -> (res: Report)
    ensures
        res.command@ == with_args("forge test "@, text::views(args@)),
        res.rtk_command@ == with_args("rtk forge test "@, text::views(args@)),
        res.command@ == "forge test "@ + text::joined(text::views(args@), seq![' ']),
        res.rtk_command@ == "rtk forge test "@ + text::joined(text::views(args@), seq![' ']),
        res.raw@ == repeated(' ', raw_len as nat),
        res.raw@.len() == raw_len,
        forall|i: int| 0 <= i < raw_len ==> #[trigger] res.raw@[i] == ' ',
        res.filtered@ == repeated(
            ' ',
            test_output::summarized(passed as nat, failed as nat).len(),
        ),
        res.filtered@.len() == test_output::summarized(passed as nat, failed as nat).len(),
        forall|i: int| 0 <= i < res.filtered@.len() ==> #[trigger] res.filtered@[i] == ' ',
        res.print is Some <==> passed > 0 || failed > 0,
        res.print matches Some(print) ==> print@ == test_output::summarized(
            passed as nat,
            failed as nat,
        ),
{
    let summary = test_output::summary(passed, failed);
    let print = unless_empty(&summary);
    proof {
        test_output::lemma_summarized(passed as nat, failed as nat);
    }
    Report {
        command: line_with_args("forge test ", args),
        rtk_command: line_with_args("rtk forge test ", args),
        raw: repeat(' ', raw_len),
        filtered: repeat(' ', summary.as_str().unicode_len()),
        print,
    }
}

/// How to run a subcommand whose output is not filtered.
pub fn other_plan(args: &[String], verbose: u8) -> (res: Result<OtherPlan, CommandError>)
    ensures
        res is Err <==> args@.len() == 0,
        res matches Err(error) ==> error == CommandError::NoSubcommand,
        res matches Ok(plan) ==> {
            &&& plan.subcommand@ == args@[0]@
            &&& plan.notice is Some <==> verbose > 0
            &&& plan.notice matches Some(notice) ==> notice@ == "Running: forge "@ + args@[0]@
                + " ..."@
            &&& plan.failure@ == "Failed to run forge "@ + args@[0]@
        },
{
    if args.len() == 0 {
        return Err(CommandError::NoSubcommand);
    }
    let subcommand = copied(&args[0]);
    let notice = if verbose > 0 {
        let mut notice = "Running: forge ".to_owned();
        notice.append(subcommand.as_str());
        notice.append(" ...");
        Some(notice)
    } else {
        None
    };
    let mut failure = "Failed to run forge ".to_owned();
    failure.append(subcommand.as_str());
    Ok(OtherPlan { subcommand, notice, failure })
}

/// The account of a subcommand whose output is not filtered.
pub fn other_report(subcommand: &str, stdout: &str, stderr: &str) -> (res: Report)
    ensures
        res.command@ == "forge "@ + subcommand@,
        res.rtk_command@ == "rtk forge "@ + subcommand@,
        res.raw@ == both_streams(stdout@, stderr@),
        res.raw@ == stdout@ + seq!['\n'] + stderr@,
        res.filtered@ == res.raw@,
        res.print is None,
{
    let raw = raw_output(stdout, stderr);
    let filtered = copied(&raw);
    let mut command = "forge ".to_owned();
    command.append(subcommand);
    let mut rtk_command = "rtk forge ".to_owned();
    rtk_command.append(subcommand);
    Report { command, rtk_command, raw, filtered, print: None }
}

/// The code to exit with where forge failed: its own, or one where it has none.
pub fn exit_code(success: bool, code: Option<i32>) -> (res: Option<i32>)
    ensures
        res is Some <==> !success,
        res matches Some(exit) ==> exit == (match code {
            Some(own) => own,
            None => 1,
        }),
{
    if success {
        None
    } else {
        match code {
            Some(own) => Some(own),
            None => Some(1),
        }
    }
}

} // verus!
