//! What holds of taking texts apart and putting them together.

use crate::text;
use vstd::prelude::*;

verus! {

/// Of the ASCII characters, the space and those from the tab to the carriage return are
/// white space.
pub proof fn law_ascii_white_space(c: char)
    requires
        c <= '\u{7f}',
    ensures
        text::is_white(c) <==> c == ' ' || ('\t' <= c <= '\r'),
{
}

/// White space in front of a text is trimmed together with what the text begins with.
pub proof fn lemma_white_in_front(white: Seq<char>, s: Seq<char>)
    requires
        forall|i: int| 0 <= i < white.len() ==> text::is_white(#[trigger] white[i]),
    ensures
        text::trim_start(white + s) == text::trim_start(s),
        text::trimmed(white + s) == text::trimmed(s),
    decreases white.len(),
{
    if white.len() == 0 {
        assert(white + s == s);
    } else {
        let rest = white.drop_first();
        assert(text::is_white(white[0]));
        assert forall|i: int| 0 <= i < rest.len() implies text::is_white(#[trigger] rest[i]) by {
            assert(rest[i] == white[i + 1]);
        }
        lemma_white_in_front(rest, s);
        assert((white + s).drop_first() == rest + s);
    }
}

/// White space behind a text is trimmed together with what the text ends in.
pub proof fn lemma_white_behind(s: Seq<char>, white: Seq<char>)
    requires
        forall|i: int| 0 <= i < white.len() ==> text::is_white(#[trigger] white[i]),
    ensures
        text::trim_end(s + white) == text::trim_end(s),
        text::trimmed(s + white) == text::trimmed(s),
    decreases white.len(),
{
    if white.len() == 0 {
        assert(s + white == s);
    } else {
        let rest = white.drop_last();
        let c = white.last();
        assert(text::is_white(white[white.len() - 1]));
        assert forall|i: int| 0 <= i < rest.len() implies text::is_white(#[trigger] rest[i]) by {
            assert(rest[i] == white[i]);
        }
        lemma_white_behind(s, rest);
        assert((s + white).drop_last() == s + rest);
        assert((s + rest).push(c) == s + white);
        text::lemma_trimmed_push(s + rest, c);
    }
}

/// Trimming drops the white space at either end of a text, and nothing else.
pub proof fn law_trimming_drops_white_space_alone(
    before: Seq<char>,
    core: Seq<char>,
    after: Seq<char>,
)
    requires
        forall|i: int| 0 <= i < before.len() ==> text::is_white(#[trigger] before[i]),
        forall|i: int| 0 <= i < after.len() ==> text::is_white(#[trigger] after[i]),
        core.len() > 0 ==> !text::is_white(core.first()) && !text::is_white(core.last()),
    ensures
        text::trimmed(before + core + after) == core,
        text::trim_start(before + core) == core,
{
    lemma_white_behind(before + core, after);
    lemma_white_in_front(before, core);
    assert(text::trim_start(core) == core);
    assert(text::trim_end(core) == core);
}

/// Every text is white space and what is left of it when its front is trimmed.
pub proof fn lemma_front(s: Seq<char>) -> (white: Seq<char>)
    ensures
        s == white + text::trim_start(s),
        forall|i: int| 0 <= i < white.len() ==> text::is_white(#[trigger] white[i]),
    decreases s.len(),
{
    if s.len() > 0 && text::is_white(s.first()) {
        let rest = s.drop_first();
        let white = lemma_front(rest);
        let front = seq![s.first()] + white;
        assert(front + text::trim_start(s) == seq![s.first()] + (white + text::trim_start(rest)));
        assert(s == seq![s.first()] + rest);
        front
    } else {
        assert(s == Seq::<char>::empty() + s);
        seq![]
    }
}

proof fn lemma_back(s: Seq<char>) -> (white: Seq<char>)
    ensures
        s == text::trim_end(s) + white,
        forall|i: int| 0 <= i < white.len() ==> text::is_white(#[trigger] white[i]),
    decreases s.len(),
{
    if s.len() > 0 && text::is_white(s.last()) {
        let rest = s.drop_last();
        let white = lemma_back(rest);
        let back = white.push(s.last());
        assert(text::trim_end(s) + back == (text::trim_end(rest) + white).push(s.last()));
        assert(s == rest.push(s.last()));
        back
    } else {
        assert(s == s + Seq::<char>::empty());
        seq![]
    }
}

/// Every text is white space, its trimmed core, and white space again.
pub proof fn lemma_core(s: Seq<char>) -> (res: (Seq<char>, Seq<char>))
    ensures
        s == res.0 + text::trimmed(s) + res.1,
        forall|i: int| 0 <= i < res.0.len() ==> text::is_white(#[trigger] res.0[i]),
        forall|i: int| 0 <= i < res.1.len() ==> text::is_white(#[trigger] res.1[i]),
{
    let before = lemma_front(s);
    let after = lemma_back(text::trim_start(s));
    assert(before + (text::trimmed(s) + after) == before + text::trimmed(s) + after);
    (before, after)
}

/// Where a newline ends the first line of a text, the line is all that stands before it, but
/// for one carriage return, and the others are the lines of the rest. A text that holds no
/// newline is one line, unless it is empty.
pub proof fn law_lines_end_in_newlines(line: Seq<char>, rest: Seq<char>)
    requires
        !line.contains('\n'),
    ensures
        text::lines_of(line) == (if line.len() > 0 {
            seq![line]
        } else {
            seq![]
        }),
        text::lines_of(line + seq!['\r', '\n'] + rest) == seq![line] + text::lines_of(rest),
        line.len() == 0 || line.last() != '\r' ==> text::lines_of(line + seq!['\n'] + rest) == seq![
            line,
        ] + text::lines_of(rest),
{
    assert forall|i: int| 0 <= i < line.len() implies line[i] != '\n' by {
        assert(line.contains(line[i]));
    }
    text::lemma_first_newline(line);
    let plain = line + seq!['\n'] + rest;
    text::lemma_first_newline(plain);
    assert(plain[line.len() as int] == '\n');
    assert(forall|i: int| 0 <= i < line.len() ==> plain[i] == line[i]);
    assert(plain.take(line.len() as int) == line);
    assert(plain.skip(line.len() as int + 1) == rest);
    let long = line + seq!['\r', '\n'] + rest;
    text::lemma_first_newline(long);
    assert(long[line.len() as int] == '\r' && long[line.len() as int + 1] == '\n');
    assert(forall|i: int| 0 <= i < line.len() ==> long[i] == line[i]);
    assert(long.take(line.len() as int + 1) == line.push('\r'));
    assert(line.push('\r').drop_last() == line);
    assert(long.skip(line.len() as int + 2) == rest);
}

/// Joining puts the separator between each two parts, and nowhere else.
pub proof fn law_joining(parts: Seq<Seq<char>>, last: Seq<char>, sep: Seq<char>)
    ensures
        text::joined(seq![], sep) == Seq::<char>::empty(),
        text::joined(seq![last], sep) == last,
        parts.len() > 0 ==> text::joined(parts.push(last), sep) == text::joined(parts, sep) + sep
            + last,
{
    assert(parts.push(last).drop_last() == parts);
}

/// The texts of a list keep their characters and their places.
pub proof fn law_views(parts: Seq<String>)
    ensures
        text::views(parts).len() == parts.len(),
        forall|i: int| 0 <= i < parts.len() ==> #[trigger] text::views(parts)[i] == parts[i]@,
{
}

/// Two spaces side by side are as good as one.
pub proof fn law_two_spaces_are_one(before: Seq<char>, after: Seq<char>)
    ensures
        text::single_spaced(before + seq![' ', ' '] + after) == text::single_spaced(
            before + seq![' '] + after,
        ),
    decreases after.len(),
{
    let two = before + seq![' ', ' '] + after;
    let one = before + seq![' '] + after;
    if after.len() == 0 {
        assert(two.drop_last() == one);
    } else {
        let init = after.drop_last();
        law_two_spaces_are_one(before, init);
        assert(two.drop_last() == before + seq![' ', ' '] + init);
        assert(one.drop_last() == before + seq![' '] + init);
        assert(two.last() == after.last() && one.last() == after.last());
        assert(two[two.len() - 2] == one[one.len() - 2]);
    }
}

/// Where no two spaces stand side by side, all of a text stays.
pub proof fn law_single_spaces_stay(s: Seq<char>)
    requires
        forall|i: int, j: int|
            0 <= i && j == i + 1 && j < s.len() && #[trigger] s[i] == ' ' ==> #[trigger] s[j] != ' ',
    ensures
        text::single_spaced(s) == s,
    decreases s.len(),
{
    if s.len() >= 2 {
        let init = s.drop_last();
        assert forall|i: int, j: int|
            0 <= i && j == i + 1 && j < init.len() && #[trigger] init[i]
                == ' ' implies #[trigger] init[j] != ' ' by {
            assert(s[i] == init[i] && s[j] == init[j]);
        }
        law_single_spaces_stay(init);
        assert(s[s.len() - 1] == s.last());
        assert(s == init.push(s.last()));
    }
}

} // verus!
