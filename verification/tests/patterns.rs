use forge_cmd::pattern::{rewrite, source, Pattern};
use regex::Regex;

// Plain statements of what each pattern means, held against the engine on generated texts.

fn white(c: char) -> bool {
    c.is_whitespace()
}

fn digit(c: char) -> bool {
    ('0'..='9').contains(&c) || c == '\u{663}'
}

fn word(c: char) -> bool {
    digit(c) || c.is_ascii_alphabetic() || c == '_' || c == '\u{3bc}'
}

fn run(s: &[char], class: fn(char) -> bool) -> usize {
    s.iter().take_while(|c| class(**c)).count()
}

fn after<'a>(s: &'a [char], prefix: &str) -> Option<&'a [char]> {
    let p: Vec<char> = prefix.chars().collect();
    if s.starts_with(&p) {
        Some(&s[p.len()..])
    } else {
        None
    }
}

fn after_run(s: &[char], class: fn(char) -> bool) -> Option<&[char]> {
    let n = run(s, class);
    if n > 0 {
        Some(&s[n..])
    } else {
        None
    }
}

fn digit_or_dot(c: char) -> bool {
    digit(c) || c == '.'
}

fn three_words(s: &[char], a: &str, b: &str, c: &str) -> bool {
    after(s, a)
        .and_then(|s| after_run(s, white))
        .and_then(|s| after(s, b))
        .and_then(|s| after_run(s, white))
        .and_then(|s| after(s, c))
        .is_some()
}

fn with_number(s: &[char], a: &str, number: fn(char) -> bool, c: &str) -> bool {
    after(s, a)
        .and_then(|s| after_run(s, white))
        .and_then(|s| after_run(s, number))
        .and_then(|s| after_run(s, white))
        .and_then(|s| after(s, c))
        .is_some()
}

fn build_noise(s: &[char]) -> bool {
    with_number(s, "Compiling", digit, "file")
        || with_number(s, "Solc", digit_or_dot, "finished")
        || three_words(s, "Compiler", "run", "successful")
        || three_words(s, "Nothing", "to", "compile")
        || three_words(s, "No", "files", "changed")
}

fn test_result(s: &[char]) -> bool {
    if after(s, "[PASS").is_none() && after(s, "[FAIL").is_none() {
        return false;
    }
    (5..s.len()).any(|i| {
        let n = run(&s[i + 1..], white);
        s[i] == ']' && !s[5..i].contains(&'\n') && n > 0 && i + 1 + n < s.len()
    })
}

fn suite_result(s: &[char]) -> bool {
    after(s, "Test result:").is_some()
        || after(s, "Suite result:").is_some()
        || after(s, "Encountered").is_some()
        || after(s, "Ran ")
            .and_then(|s| after_run(s, digit))
            .and_then(|s| after(s, " test"))
            .is_some()
}

fn boxed(c: char) -> bool {
    "├└│─".contains(c)
}

fn match_end(p: Pattern, s: &[char], i: usize) -> Option<usize> {
    match p {
        Pattern::BoxDrawing => Some(i + run(&s[i..], boxed)).filter(|end| *end > i),
        Pattern::Gas => {
            let n = run(&s[i + 1..], digit);
            let end = i + n + 1;
            if s[i] == '[' && n > 0 && end < s.len() && s[end] == ']' {
                Some(end + 1)
            } else {
                None
            }
        }
        Pattern::Address => {
            if i + 42 <= s.len()
                && s[i] == '0'
                && s[i + 1] == 'x'
                && s[i + 2..i + 42].iter().all(|c| c.is_ascii_hexdigit())
            {
                Some(i + 42)
            } else {
                None
            }
        }
        _ => {
            let end = i + run(&s[i..], digit);
            if end - i >= 7 && (i == 0 || !word(s[i - 1])) && (end == s.len() || !word(s[end])) {
                Some(end)
            } else {
                None
            }
        }
    }
}

fn replaced(p: Pattern, s: &[char]) -> String {
    let mut out = String::new();
    let mut i = 0;
    while i < s.len() {
        match match_end(p, s, i) {
            Some(end) => {
                let found: String = s[i..end].iter().collect();
                out.push_str(&rewrite(p, &found));
                i = end;
            }
            None => {
                out.push(s[i]);
                i += 1;
            }
        }
    }
    out
}

fn next(seed: &mut u64) -> usize {
    *seed ^= *seed << 13;
    *seed ^= *seed >> 7;
    *seed ^= *seed << 17;
    (*seed >> 33) as usize
}

fn texts(parts: &[&str], count: usize, longest: usize) -> Vec<String> {
    let mut seed = 0x9e37_79b9_7f4a_7c15;
    let mut out = Vec::new();
    for _ in 0..count {
        let mut text = String::new();
        for _ in 0..next(&mut seed) % (longest + 1) {
            text.push_str(parts[next(&mut seed) % parts.len()]);
        }
        out.push(text);
    }
    out
}

fn agree_on_matches(p: Pattern, meaning: fn(&[char]) -> bool, parts: &[&str]) {
    let re = Regex::new(source(p)).unwrap();
    let mut matched = 0;
    for text in texts(parts, 20000, 8) {
        let chars: Vec<char> = text.chars().collect();
        assert_eq!(re.is_match(&text), meaning(&chars), "{:?} on {:?}", p, text);
        if meaning(&chars) {
            matched += 1;
        }
    }
    assert!(matched > 0, "{:?} matched nothing", p);
}

fn agree_on_replacements(p: Pattern, parts: &[&str], longest: usize) {
    let re = Regex::new(source(p)).unwrap();
    let mut changed = 0;
    for text in texts(parts, 20000, longest) {
        let chars: Vec<char> = text.chars().collect();
        let by_engine = re
            .replace_all(&text, |found: &regex::Captures<'_>| rewrite(p, &found[0]))
            .into_owned();
        assert_eq!(by_engine, replaced(p, &chars), "{:?} on {:?}", p, text);
        assert_eq!(re.is_match(&text), (0..chars.len()).any(|i| match_end(p, &chars, i).is_some()));
        if by_engine != text {
            changed += 1;
        }
    }
    assert!(changed > 0, "{:?} changed nothing", p);
}

#[test]
fn build_noise_means_what_it_says() {
    for parts in [
        ["Compiling", " ", "\u{a0}", "12", "\u{663}", "files"],
        ["Solc", " ", "\n", ".", "8", "finished"],
        ["Compiler", " ", "\t", "run", "successful", "x"],
        ["Nothing", " ", "\u{a0}", "to", "compile", "x"],
        ["No", " ", "\r", "files", "changed", "thing"],
    ] {
        agree_on_matches(Pattern::BuildNoise, build_noise, &parts);
    }
    let re = Regex::new(source(Pattern::BuildNoise)).unwrap();
    for line in [
        "Compiling 1 file with Solc",
        "Compiling \u{663} files",
        "Solc 0.8.24 finished in 1s",
        "Compiler run  successful!",
        "Nothing to compile",
        "No files changed, compilation skipped",
    ] {
        assert!(re.is_match(line) && build_noise(&line.chars().collect::<Vec<char>>()));
    }
}

#[test]
fn test_result_means_what_it_says() {
    let parts = ["[PASS", "[FAIL", "]", "[", " ", "\n", "x", ": args=[1, 2]", "\u{3bc}"];
    agree_on_matches(Pattern::TestResult, test_result, &parts);
}

#[test]
fn fail_and_traces_mean_what_they_say() {
    let parts = ["[FAIL", "[", "FAIL", "Traces:", "Traces", ":", " ", "\n"];
    agree_on_matches(Pattern::Fail, |s| after(s, "[FAIL").is_some(), &parts);
    agree_on_matches(Pattern::TracesHeader, |s| after(s, "Traces:").is_some(), &parts);
}

#[test]
fn suite_result_means_what_it_says() {
    let parts = ["Test result:", "Suite result:", "Ran ", "1", "\u{663}", " test", "s", "Encountered", " ", "x"];
    agree_on_matches(Pattern::SuiteResult, suite_result, &parts);
}

#[test]
fn rewritten_patterns_mean_what_they_say() {
    agree_on_replacements(Pattern::BoxDrawing, &["├", "└", "│", "─", " ", "x", "←"], 10);
    agree_on_replacements(Pattern::Gas, &["[", "]", "1", "23", "\u{663}", "x", " "], 10);
    agree_on_replacements(
        Pattern::Address,
        &["0x", "0", "x", "f39Fd6e51aad88F6F4ce", "6aB8827279cffFb92266", "a", "G", " "],
        6,
    );
    agree_on_replacements(
        Pattern::LargeInt,
        &["1", "2345", "678", "0000000", "\u{663}", "a", "_", "\u{3bc}", " ", ".", "0x"],
        9,
    );
}
