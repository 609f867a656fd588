use forge_cmd::{
    compress_trace_line, filter_forge_build, filter_forge_test, sci_notation_of_digits,
    to_sci_notation,
};

#[test]
fn build_keeps_telling_lines_as_they_are() {
    let input = "Compiling 1 file with Solc 0.8.24\r\n\r\n   \n  Error: x  \r\nNo files changed\nlast\r";
    assert_eq!(filter_forge_build(input), "  Error: x  \nlast\r");
    assert_eq!(filter_forge_build(""), "");
}

#[test]
fn build_filtered_twice_is_filtered_once() {
    let input = "Nothing to compile\nWarning: a\n\n  --> b\nSolc 0.8.24 finished in 1s";
    let once = filter_forge_build(input);
    assert_eq!(once, "Warning: a\n  --> b");
    assert_eq!(filter_forge_build(&once), once);
}

#[test]
fn build_filtered_twice_loses_a_carriage_return() {
    let once = filter_forge_build("a\r\r\nb");
    assert_eq!(once, "a\r\nb");
    assert_eq!(filter_forge_build(&once), "a\nb");
}

#[test]
fn build_outputs_are_filtered_apart() {
    let filtered_apart = |above: &str, below: &str| {
        let parts = [filter_forge_build(above), filter_forge_build(below)];
        let left: Vec<String> = parts.into_iter().filter(|part| !part.is_empty()).collect();
        left.join("\n")
    };
    for (above, below, left) in [
        ("Error (1): a\n  --> b.sol\n", "Warning: c", "Error (1): a\n  --> b.sol\nWarning: c"),
        ("Compiling 2 files\n\n", "Error: d\n", "Error: d"),
        ("Error: d\r\n", "Compiling 2 files", "Error: d"),
        ("Compiling 2 files\r", " \r", ""),
        ("", "", ""),
    ] {
        assert_eq!(filter_forge_build(&format!("{}\n{}", above, below)), left);
        assert_eq!(filtered_apart(above, below), left);
    }
    // A carriage return at the very end is the one thing lost.
    assert_eq!(filter_forge_build("x\r\ny"), "x\ny");
    assert_eq!(filtered_apart("x\r", "y"), "x\r\ny");
}

#[test]
fn the_summary_stands_on_the_last_line() {
    for verbose in [false, true] {
        assert_eq!(filter_forge_test("Compiling\nRan 1 test for a\n", verbose), "");
        assert_eq!(filter_forge_test("[PASS] a()\n", verbose), "1 passed");
        assert_eq!(filter_forge_test("[FAIL] a()\n", verbose), "[FAIL] a()\n1 failed");
    }
}

#[test]
fn traces_only_add_lines() {
    let output = "[FAIL] a()\n  [10] A::a()\n[PASS] b()\n  [10] B::b()\n\
                  [FAIL] c()\n  [10] C::c()\n";
    let few = filter_forge_test(output, false);
    let many = filter_forge_test(output, true);
    assert_eq!(few, "[FAIL] a()\n[FAIL] c()\n1 passed, 2 failed");
    assert_eq!(many, "[FAIL] a()\n\tA::a()\n[FAIL] c()\n\tC::c()\n1 passed, 2 failed");
    let mut left = many.lines();
    for line in few.lines() {
        assert!(left.any(|other| other == line), "{}", line);
    }
}

#[test]
fn tests_are_summed_up() {
    assert_eq!(filter_forge_test("", false), "");
    assert_eq!(filter_forge_test("Traces:\nnothing\n", true), "");
    assert_eq!(filter_forge_test("[PASS] a()\n[PASS] a()\n", false), "2 passed");
    assert_eq!(filter_forge_test(" [FAIL] a() \n", false), "[FAIL] a()\n1 failed");
    assert_eq!(
        filter_forge_test("[FAIL] a()\n[PASS] b()\n[FAIL] c()\n[FAIL] a()\n", false),
        "[FAIL] a()\n[FAIL] c()\n1 passed, 2 failed"
    );
}

#[test]
fn a_verdict_without_a_name_is_no_result() {
    assert_eq!(filter_forge_test("[PASS]\n[FAIL] \n[FAIL\n", false), "");
}

#[test]
fn traces_of_failed_tests_are_shown_once() {
    let input = "\
[FAIL] a()
Traces:
  [12] A::a()

    ├─ [7] B::b(1500000)
Suite result: FAILED
dropped
[PASS] b()
  [9] hidden
Failing tests:
[FAIL] a()
  [12] not again
";
    assert_eq!(
        filter_forge_test(input, true),
        "[FAIL] a()\nTraces:\n\tA::a()\n\t\tB::b(1.50e6)\n1 passed, 1 failed"
    );
    assert_eq!(filter_forge_test(input, false), "[FAIL] a()\n1 passed, 1 failed");
}

#[test]
fn a_trace_line_is_compressed() {
    assert_eq!(
        compress_trace_line("    ├─ [22508] 0xf39Fd6e51aad88F6F4ce6aB8827279cffFb92266::set(1000000000000000000)  "),
        "\t\t0xf39F..2266::set(1e18)"
    );
    assert_eq!(compress_trace_line("   └─ ←  [Stop]   x"), "\t← [Stop] x");
    assert_eq!(compress_trace_line("plain"), "plain");
    assert_eq!(compress_trace_line(""), "");
}

#[test]
fn depth_counts_bytes() {
    // A no-break space takes two bytes, an ideographic one three.
    assert_eq!(compress_trace_line("\u{a0}x"), "\tx");
    assert_eq!(compress_trace_line("\u{3000}\u{3000}x"), "\t\t\tx");
    assert_eq!(compress_trace_line(" x"), "x");
}

#[test]
fn stripping_gas_is_done_once() {
    assert_eq!(compress_trace_line("[[1]2]"), "[2]");
    assert_eq!(compress_trace_line("[]a[1 ]"), "[]a[1 ]");
}

#[test]
fn integers_that_do_not_stand_alone_stay() {
    assert_eq!(compress_trace_line("a1500000 1500000a 150000"), "a1500000 1500000a 150000");
    assert_eq!(compress_trace_line("x=1500000,2000000"), "x=1.50e6,2e6");
}

#[test]
fn integers_of_more_than_64_bits_are_put_in_scientific_notation() {
    assert_eq!(compress_trace_line("  value: 100000000000000000000"), "\tvalue: 1e20");
    assert_eq!(compress_trace_line("18446744073709551615"), "1.84e19");
    assert_eq!(compress_trace_line("18446744073709551616"), "1.84e19");
    assert_eq!(
        compress_trace_line(
            "115792089237316195423570985008687907853269984665640564039457584007913129639935"
        ),
        "1.16e77"
    );
}

#[test]
fn digits_other_than_ascii_count_as_zero() {
    let digits = "\u{661}\u{662}\u{663}\u{664}\u{665}\u{666}\u{667}";
    assert_eq!(compress_trace_line(digits), "0");
    assert_eq!(compress_trace_line("123456\u{667}"), "0");
    assert_eq!(compress_trace_line(&format!("x: {} 1500000", digits)), "x: 0 1.50e6");
    // Fewer than seven are left.
    let few = "\u{661}\u{662}\u{663}\u{664}\u{665}\u{666}";
    assert_eq!(compress_trace_line(few), few);
}

#[test]
fn notation_of_given_digits() {
    for (digits, text) in [
        ("0", "0"),
        ("0000000", "0"),
        ("00000000000000000000042", "42"),
        ("1500000", "1.50e6"),
        ("20000000000000000000", "2e19"),
        ("000100000000000000000000", "1e20"),
        ("100000000000000000001", "1e20"),
        // A thousand-millionth is the least that keeps a mantissa from being whole.
        ("100000000099999999999", "1e20"),
        ("100000000100000000000", "1.00e20"),
        ("199999999900000000000", "2.00e20"),
        ("199999999900000000001", "2e20"),
        ("999999999999999999999", "10e20"),
        // Two places are rounded to the nearest, and a tie to the even one.
        ("112500000000000000000", "1.12e20"),
        ("112500000000000000001", "1.13e20"),
        ("137500000000000000000", "1.38e20"),
        ("137499999999999999999", "1.37e20"),
        ("999500000000000000000", "10.00e20"),
        ("123456789012345678901234567890", "1.23e29"),
    ] {
        assert_eq!(sci_notation_of_digits(digits), text, "{}", digits);
    }
}

#[test]
fn a_digit_and_zeros() {
    for c in 1..=9 {
        let mut digits = format!("{}000", c);
        for k in 3..=120 {
            assert_eq!(sci_notation_of_digits(&digits), format!("{}e{}", c, k));
            digits.push('0');
        }
    }
}

#[test]
fn what_is_written_is_near() {
    let mut seed: u64 = 88172645463325252;
    for i in 0..20000u64 {
        seed ^= seed << 13;
        seed ^= seed >> 7;
        seed ^= seed << 17;
        let n = (((seed as u128) << 60) | seed as u128) >> (i % 110);
        let text = sci_notation_of_digits(&n.to_string());
        assert!(text.len() <= n.to_string().len());
        let written: f64 = text.parse().unwrap();
        let power = 10f64.powi((n.to_string().len() - 1) as i32);
        assert!((written - n as f64).abs() <= 0.00501 * power, "{} {}", n, text);
        assert!(n <= u64::MAX as u128 || text.contains('e'));
    }
}

#[test]
fn an_address_with_a_digit_too_many_is_shortened_in_front() {
    assert_eq!(
        compress_trace_line("0xf39Fd6e51aad88F6F4ce6aB8827279cffFb922661"),
        "0xf39F..22661"
    );
}

#[test]
fn notation_of_given_numbers() {
    for (n, text) in [
        (0, "0"),
        (7, "7"),
        (999, "999"),
        (1000, "1e3"),
        (1001, "1001"),
        (1125000, "1.12e6"),
        (1375000, "1.38e6"),
        (1000000001, "1.00e9"),
        (2000000000000, "2e12"),
        (9999999999, "10.00e9"),
        (99999999999, "10e10"),
        (123456789, "1.23e8"),
        (999999999999997, "10e14"),
        (999999999999998, "1e15"),
        (10000000000000000000, "1e19"),
        (18446744073709551615, "1.84e19"),
    ] {
        assert_eq!(to_sci_notation(n), text, "{}", n);
    }
}

#[test]
fn powers_of_ten() {
    let mut n: u64 = 1000;
    for k in 3..=19 {
        assert_eq!(to_sci_notation(n), format!("1e{}", k));
        n = n.wrapping_mul(10);
    }
}

fn by_floating_point(n: u64) -> String {
    let exp = (n as f64).log10().floor() as u32;
    let mantissa = n as f64 / 10f64.powi(exp as i32);
    let raw = n.to_string();
    let sci = if (mantissa - mantissa.round()).abs() < 1e-9 {
        format!("{}e{}", mantissa.round() as u64, exp)
    } else {
        format!("{:.2}e{}", mantissa, exp)
    };
    if sci.len() < raw.len() {
        sci
    } else {
        raw
    }
}

#[test]
fn notation_is_that_of_floating_point() {
    let mut seed: u64 = 88172645463325252;
    for i in 0..200000u64 {
        seed ^= seed << 13;
        seed ^= seed >> 7;
        seed ^= seed << 17;
        let n = (seed >> (i % 60)).max(1);
        assert_eq!(to_sci_notation(n), by_floating_point(n), "{}", n);
    }
}

#[test]
fn notation_just_below_a_power_of_ten() {
    for (k, below, from) in [
        (15, 3, 2),
        (16, 22, 20),
        (17, 416, 400),
        (18, 4224, 4096),
        (19, 43008, 40960),
    ] {
        let power = 10u64.pow(k);
        assert_eq!(to_sci_notation(power - below), format!("10e{}", k - 1));
        assert_eq!(to_sci_notation(power - from), format!("1e{}", k));
    }
}

#[test]
fn notation_around_a_power_of_ten_is_that_of_floating_point() {
    for k in 3..=19 {
        let power = 10u64.pow(k);
        for n in (power - power.min(60000)).max(1)..power + 10000 {
            assert_eq!(to_sci_notation(n), by_floating_point(n), "{}", n);
        }
    }
}
