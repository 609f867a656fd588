//! The engine that searches for the patterns. All that rests on the `regex` crate is here.

use crate::pattern;
use crate::pattern::Pattern;
use vstd::prelude::*;

verus! {

/// What `regex::Regex::is_match` answers for a regular expression and a text.
pub uninterp spec fn regex_is_match(source: Seq<char>, text: Seq<char>) -> bool;

/// A compiled regular expression.
#[verifier::external_type_specification]
#[verifier::external_body]
pub struct ExRegex(regex::Regex);

/// A pattern with its compiled regular expression. `compile` alone makes one, so the two
/// always belong together.
pub struct Compiled {
    pattern: Pattern,
    regex: regex::Regex,
}

impl View for Compiled {
    type V = Pattern;

    closed spec fn view(&self) -> Pattern {
        self.pattern
    }
}

/// Calls `regex::Regex::new`, which compiles a regular expression. It fails on what is
/// none; the regular expressions of the patterns are ones, so here it does not.
#[verifier::external_body]
fn compile(p: Pattern, source: &str) -> (res: Compiled)
    requires
        source@ == pattern::source_of(p),
    ensures
        res@ == p,
{
    Compiled { pattern: p, regex: regex::Regex::new(source).unwrap() }
}

/// Calls `regex::Regex::is_match`, which is true if and only if the text holds a match.
/// What that comes to for each pattern, `matches_line` says: `^` is the beginning of the
/// text, `.` every character but a newline, and `\s`, `\d` and `\S` are the classes of
/// Unicode.
#[verifier::external_body]
pub(crate) fn is_match(compiled: &Compiled, text: &str) -> (res: bool)
    ensures
        res == regex_is_match(pattern::source_of(compiled@), text@),
        res == pattern::matches_line(compiled@, text@),
{
    compiled.regex.is_match(text)
}

/// Calls `regex::Regex::replace_all`, which replaces all non-overlapping matches, from the
/// left to the right, by what the function handed to it makes of each. Where the matches of
/// the rewritten patterns begin and end, `match_end` says: of each pattern at most one match
/// begins at a place, or, where a run of characters may match in part, the longest is taken.
/// A match of the pattern for addresses is 42 characters long, so `rewrite` may be called
/// on it.
#[verifier::external_body]
pub(crate) fn replace_all(compiled: &Compiled, text: &str) -> (res: String)
    requires
        pattern::rewrites(compiled@),
    ensures
        res@ == pattern::replaced(compiled@, text@),
{
    let p = compiled.pattern;
    compiled.regex.replace_all(text, |found: &regex::Captures<'_>| pattern::rewrite(p, &found[0])).into_owned()
}

/// A pattern, ready to be searched for.
pub fn prepare(p: Pattern) -> (res: Compiled)
    ensures
        res@ == p,
{
    compile(p, pattern::source(p))
}

} // verus!
