use forge_cmd::command::{
    build_arguments, build_notice, build_report, exit_code, has_verbosity, other_plan,
    other_report, raw_output, test_arguments, test_report, CommandError,
};
use forge_cmd::decimal::{decimal_text, is_all_digits, read};
use forge_cmd::filter_forge_test;
use forge_cmd::stream::Stream;
use forge_cmd::test_output::{summary, Scanner};
use forge_cmd::text::{collapse_spaces, join, lines, trim};

fn strings(parts: &[&str]) -> Vec<String> {
    parts.iter().map(|part| part.to_string()).collect()
}

#[test]
fn arguments_are_handed_on() {
    let args = strings(&["--force", "a b"]);
    assert_eq!(build_arguments(&args), strings(&["build", "--force", "a b"]));
    assert_eq!(test_arguments(&args, 0), strings(&["test", "--force", "a b"]));
    assert_eq!(test_arguments(&args, 3), strings(&["test", "-vvv", "--force", "a b"]));
    assert_eq!(build_notice(&args, 0), None);
    assert_eq!(build_notice(&args, 1), Some("Running: forge build --force a b".to_string()));
}

#[test]
fn verbosity_is_seen() {
    assert!(!has_verbosity(&strings(&[]), 0));
    assert!(has_verbosity(&strings(&[]), 1));
    for arg in ["-v", "-vv", "-vvv", "-vvvv", "--verbosity"] {
        assert!(has_verbosity(&strings(&["--mt", arg]), 0), "{}", arg);
    }
    assert!(!has_verbosity(&strings(&["-vvvvv", "v", "--verbosity=2"]), 0));
}

#[test]
fn a_build_is_accounted_for() {
    let args = strings(&["--force"]);
    let report = build_report(&args, "Nothing to compile\n", "Error: x");
    assert_eq!(report.command, "forge build --force");
    assert_eq!(report.rtk_command, "rtk forge build --force");
    assert_eq!(report.raw, "Nothing to compile\n\nError: x");
    assert_eq!(report.filtered, "Error: x");
    assert_eq!(report.print, Some("Error: x".to_string()));
    assert_eq!(build_report(&args, "Nothing to compile", "").print, None);
    assert_eq!(raw_output("", ""), "\n");
}

#[test]
fn a_test_run_is_accounted_for() {
    let report = test_report(&strings(&[]), 2, 1, 5);
    assert_eq!(report.command, "forge test ");
    assert_eq!(report.rtk_command, "rtk forge test ");
    assert_eq!(report.raw, "     ");
    assert_eq!(report.filtered, " ".repeat("2 passed, 1 failed".len()));
    assert_eq!(report.print, Some("2 passed, 1 failed".to_string()));
    assert_eq!(test_report(&strings(&[]), 0, 0, 0).print, None);
}

#[test]
fn another_subcommand_is_accounted_for() {
    match other_plan(&strings(&[]), 1) {
        Ok(_) => panic!("no subcommand was given"),
        Err(error) => {
            assert_eq!(error, CommandError::NoSubcommand);
            assert_eq!(error.message(), "forge: no subcommand specified");
        }
    }
    match other_plan(&strings(&["fmt", "--check"]), 1) {
        Ok(plan) => {
            assert_eq!(plan.subcommand, "fmt");
            assert_eq!(plan.notice, Some("Running: forge fmt ...".to_string()));
            assert_eq!(plan.failure, "Failed to run forge fmt");
        }
        Err(_) => panic!("a subcommand was given"),
    }
    assert!(matches!(other_plan(&strings(&["fmt"]), 0), Ok(plan) if plan.notice.is_none()));
    let report = other_report("fmt", "out", "err");
    assert_eq!(report.command, "forge fmt");
    assert_eq!(report.rtk_command, "rtk forge fmt");
    assert_eq!(report.raw, "out\nerr");
    assert_eq!(report.filtered, "out\nerr");
    assert_eq!(report.print, None);
}

#[test]
fn failure_decides_the_exit_code() {
    assert_eq!(exit_code(true, Some(0)), None);
    assert_eq!(exit_code(true, None), None);
    assert_eq!(exit_code(false, Some(3)), Some(3));
    assert_eq!(exit_code(false, None), Some(1));
}

#[test]
fn summaries() {
    assert_eq!(summary(0, 0), "");
    assert_eq!(summary(10, 0), "10 passed");
    assert_eq!(summary(0, 7), "7 failed");
    assert_eq!(summary(1, 1), "1 passed, 1 failed");
}

#[test]
fn streaming_shows_what_filtering_shows() {
    let output = "\
[FAIL] a()
  ├─ [12] A::a()
\u{3bc}
[PASS] b()
  hidden
Ran 2 tests
[FAIL] a()
";
    let mut stream = Stream::new(true);
    let mut shown: Vec<String> = Vec::new();
    for line in lines(output) {
        assert!(stream.has_room(&line));
        let response = stream.take_line(&line);
        shown.extend(response.show);
        assert_eq!(response.progress, None);
    }
    assert_eq!(stream.totals(), (1, 1, output.len()));
    assert!(!stream.has_reported());
    let ended: String = shown.iter().map(|line| format!("{}\n", line)).collect();
    assert_eq!(format!("{}{}", ended, summary(1, 1)), filter_forge_test(output, true));
    shown.push(summary(1, 1));
    assert_eq!(shown.join("\n"), filter_forge_test(output, true));
    assert_eq!(shown.join("\n"), "[FAIL] a()\n\tA::a()\n\u{3bc}\n1 passed, 1 failed");
}

#[test]
fn progress_is_reported_every_ten_tests() {
    let mut stream = Stream::new(false);
    for i in 1..=9 {
        let line = if i % 3 == 0 {
            format!("[FAIL] t{}()", i)
        } else {
            format!("[PASS] t{}()", i)
        };
        assert_eq!(stream.take_line(&line).progress, None);
    }
    // A repeated failure is no further test.
    assert_eq!(stream.take_line("[FAIL] t3()").progress, None);
    assert_eq!(
        stream.take_line("[PASS] t10()").progress,
        Some("\r[forge] 7 passed, 3 failed...".to_string())
    );
    assert_eq!(stream.take_line("[PASS] t11()").progress, None);
    let mut stream = Stream::new(false);
    for i in 1..=25 {
        let response = stream.take_line(&format!("[PASS] t{}()", i));
        assert_eq!(response.progress.is_some(), i == 10 || i == 20);
        if i == 20 {
            assert_eq!(response.progress, Some("\r[forge] 20 passed, 0 failed...".to_string()));
        }
    }
    assert!(stream.has_reported());
}

#[test]
fn a_scanner_counts() {
    let mut scanner = Scanner::new(false);
    assert_eq!(scanner.take_line("  [FAIL: x] a() "), Some("[FAIL: x] a()".to_string()));
    assert_eq!(scanner.take_line("[FAIL: x] a()"), None);
    assert_eq!(scanner.take_line("[PASS] b()"), None);
    assert_eq!((scanner.passed(), scanner.failed()), (1, 1));
}

#[test]
fn texts_are_taken_apart_and_put_together() {
    assert_eq!(lines("a\r\n\nb\rc\nd\r"), strings(&["a", "", "b\rc", "d\r"]));
    assert_eq!(lines("a\r\n\nb\rc\nd\r"), "a\r\n\nb\rc\nd\r".lines().collect::<Vec<&str>>());
    assert_eq!(trim("\u{2003}\t a b \u{85}"), "a b");
    assert_eq!(collapse_spaces("a   b \t  c  "), "a b \t c ");
    assert_eq!(join(&strings(&["a", "", "b"]), ", "), "a, , b");
}

#[test]
fn white_space_is_that_of_unicode() {
    for c in '\u{0}'..='\u{10ffff}' {
        assert_eq!(forge_cmd::text::white(c), c.is_whitespace(), "{:?}", c);
    }
}

#[test]
fn numbers_are_written_and_read() {
    assert_eq!(decimal_text(0), "0");
    assert_eq!(decimal_text(u128::MAX), u128::MAX.to_string());
    assert_eq!(read("18446744073709551615"), Some(u64::MAX));
    assert_eq!(read("18446744073709551616"), None);
    assert_eq!(read("12a"), None);
    assert_eq!(read(""), None);
    assert_eq!(read("007"), Some(7));
    assert_eq!(read(&decimal_text(1234567890)), Some(1234567890));
    assert!(is_all_digits("0123456789") && is_all_digits(""));
    assert!(!is_all_digits("12\u{663}") && !is_all_digits("1:") && !is_all_digits("/1"));
}
