//! Text as sequences of characters: white space, lines, joining and decimal numbers.

use vstd::prelude::*;

verus! {

/// `String::push`: the character goes to the end of the text.
pub assume_specification[ String::push ](s: &mut String, c: char)
    ensures
        final(s)@ == old(s)@.push(c),
;

/// The Unicode property `White_Space`.
pub open spec fn is_white(c: char) -> bool {
    ||| '\u{9}' <= c <= '\u{d}'
    ||| c == '\u{20}'
    ||| c == '\u{85}'
    ||| c == '\u{a0}'
    ||| c == '\u{1680}'
    ||| '\u{2000}' <= c <= '\u{200a}'
    ||| '\u{2028}' <= c <= '\u{2029}'
    ||| c == '\u{202f}'
    ||| c == '\u{205f}'
    ||| c == '\u{3000}'
}

/// Whether `c` is white space.
pub fn white(c: char) -> (res: bool)
    ensures
        res == is_white(c),
{
    ('\u{9}' <= c && c <= '\u{d}') || c == '\u{20}' || c == '\u{85}' || c == '\u{a0}' || c
        == '\u{1680}' || ('\u{2000}' <= c && c <= '\u{200a}') || ('\u{2028}' <= c && c
        <= '\u{2029}') || c == '\u{202f}' || c == '\u{205f}' || c == '\u{3000}'
}

/// The characters of a text.
pub fn chars_of(text: &str) -> (res: Vec<char>)
    ensures
        res@ == text@,
{
    let mut out: Vec<char> = Vec::new();
    for c in it: text.chars()
        invariant
            out@ == it.seq().take(it.index()),
            it.seq() == text@,
    {
        out.push(c);
    }
    out
}

/// The text made of the characters at `from..to`.
pub fn slice_of(chars: &Vec<char>, from: usize, to: usize) -> (res: String)
    requires
        from <= to <= chars@.len(),
    ensures
        res@ == chars@.subrange(from as int, to as int),
{
    let mut out = String::new();
    let mut i: usize = from;
    while i < to
        invariant
            from <= i <= to <= chars@.len(),
            out@ == chars@.subrange(from as int, i as int),
        decreases to - i,
    {
        out.push(chars[i]);
        i = i + 1;
    }
    out
}

/// `s` without its leading white space.
pub open spec fn trim_start(s: Seq<char>) -> Seq<char>
    decreases s.len(),
{
    if s.len() > 0 && is_white(s.first()) {
        trim_start(s.drop_first())
    } else {
        s
    }
}

/// `s` without its trailing white space.
pub open spec fn trim_end(s: Seq<char>) -> Seq<char>
    decreases s.len(),
{
    if s.len() > 0 && is_white(s.last()) {
        trim_end(s.drop_last())
    } else {
        s
    }
}

/// `s` without the white space at either end.
pub open spec fn trimmed(s: Seq<char>) -> Seq<char> {
    trim_end(trim_start(s))
}

/// Trimming the front of a text leaves it from its first character other than white space on.
pub proof fn lemma_trim_start(s: Seq<char>) -> (from: int)
    ensures
        0 <= from <= s.len(),
        trim_start(s) == s.skip(from),
        from < s.len() ==> !is_white(s[from]),
    decreases s.len(),
{
    if s.len() > 0 && is_white(s.first()) {
        let rest = lemma_trim_start(s.drop_first());
        assert(s.drop_first().skip(rest) == s.skip(rest + 1));
        rest + 1
    } else {
        assert(s.skip(0) == s);
        0
    }
}

/// Trimming the end of a text leaves it up to its last character other than white space.
pub proof fn lemma_trim_end(s: Seq<char>) -> (to: int)
    ensures
        0 <= to <= s.len(),
        trim_end(s) == s.take(to),
        to > 0 ==> !is_white(s[to - 1]),
    decreases s.len(),
{
    if s.len() > 0 && is_white(s.last()) {
        let to = lemma_trim_end(s.drop_last());
        assert(s.drop_last().take(to) == s.take(to));
        to
    } else {
        assert(s.take(s.len() as int) == s);
        s.len() as int
    }
}

/// Trimming a text leaves a part of it with no white space at either end.
pub proof fn lemma_trimmed(s: Seq<char>) -> (from: int)
    ensures
        0 <= from <= from + trimmed(s).len() <= s.len(),
        trimmed(s) == s.subrange(from, from + trimmed(s).len()),
        trimmed(s).len() > 0 ==> !is_white(trimmed(s).first())
            && !is_white(trimmed(s).last()),
{
    let from = lemma_trim_start(s);
    let to = lemma_trim_end(trim_start(s));
    assert(trimmed(s) == s.subrange(from, from + to));
    from
}

/// One more character of white space at the end of a text is trimmed with the rest.
pub proof fn lemma_trimmed_push(s: Seq<char>, c: char)
    requires
        is_white(c),
    ensures
        trimmed(s.push(c)) == trimmed(s),
    decreases s.len(),
{
    if s.len() > 0 && is_white(s.first()) {
        lemma_trimmed_push(s.drop_first(), c);
        assert(s.push(c).drop_first() == s.drop_first().push(c));
    } else if s.len() > 0 {
        assert(s.push(c).drop_last() == s);
    } else {
        assert(s.push(c).drop_first() == s);
    }
}

/// The number of characters of white space that `chars` begins with.
pub fn leading_white(chars: &Vec<char>) -> (res: usize)
    ensures
        res <= chars@.len(),
        trim_start(chars@) == chars@.skip(res as int),
{
    let mut i: usize = 0;
    proof {
        assert(chars@.skip(0) == chars@);
    }
    while i < chars.len() && white(chars[i])
        invariant
            i <= chars@.len(),
            trim_start(chars@) == trim_start(chars@.skip(i as int)),
        decreases chars@.len() - i,
    {
        proof {
            assert(chars@.skip(i as int).drop_first() == chars@.skip(i + 1));
        }
        i = i + 1;
    }
    i
}

/// The text without the white space at either end.
pub fn trim(text: &str) -> (res: String)
    ensures
        res@ == trimmed(text@),
{
    let chars = chars_of(text);
    let from = leading_white(&chars);
    let mut to: usize = chars.len();
    proof {
        assert(chars@.subrange(from as int, to as int) == chars@.skip(from as int));
    }
    while from < to && white(chars[to - 1])
        invariant
            from <= to <= chars@.len(),
            trimmed(chars@) == trim_end(chars@.subrange(from as int, to as int)),
        decreases to,
    {
        proof {
            assert(chars@.subrange(from as int, to as int).drop_last() == chars@.subrange(
                from as int,
                to - 1,
            ));
        }
        to = to - 1;
    }
    slice_of(&chars, from, to)
}

/// The index of the first newline in `s`, or its length where it holds none.
pub open spec fn first_newline(s: Seq<char>) -> int
    decreases s.len(),
{
    if s.len() == 0 || s.first() == '\n' {
        0
    } else {
        1 + first_newline(s.drop_first())
    }
}

/// `s` without the one carriage return that it may end in.
pub open spec fn drop_return(s: Seq<char>) -> Seq<char> {
    if s.len() > 0 && s.last() == '\r' {
        s.drop_last()
    } else {
        s
    }
}

/// The lines of a text. A line ends in a newline, with or without a carriage return
/// before it, neither of which belongs to it; the ending of the last line may be missing.
pub open spec fn lines_of(s: Seq<char>) -> Seq<Seq<char>>
    decreases s.len(),
    via lines_of_shrinks
{
    if s.len() == 0 {
        seq![]
    } else if first_newline(s) == s.len() {
        seq![s]
    } else {
        seq![drop_return(s.take(first_newline(s)))] + lines_of(
            s.skip(first_newline(s) + 1),
        )
    }
}

#[via_fn]
proof fn lines_of_shrinks(s: Seq<char>) {
    lemma_first_newline(s);
}

/// Where the first newline stands.
pub proof fn lemma_first_newline(s: Seq<char>)
    ensures
        0 <= first_newline(s) <= s.len(),
        first_newline(s) < s.len() ==> s[first_newline(s)] == '\n',
        forall|i: int| 0 <= i < first_newline(s) ==> s[i] != '\n',
    decreases s.len(),
{
    if s.len() > 0 && s.first() != '\n' {
        lemma_first_newline(s.drop_first());
        assert forall|i: int| 0 <= i < first_newline(s) implies s[i] != '\n' by {
            if i > 0 {
                assert(s.drop_first()[i - 1] == s[i]);
            }
        }
    }
}

/// What the characters of each text of a list are.
pub open spec fn views(parts: Seq<String>) -> Seq<Seq<char>> {
    parts.map_values(|part: String| part@)
}

/// The lines of `text`.
pub fn lines(text: &str) -> (res: Vec<String>)
    ensures
        views(res@) == lines_of(text@),
{
    let chars = chars_of(text);
    let mut out: Vec<String> = Vec::new();
    let mut start: usize = 0;
    let mut i: usize = 0;
    proof {
        assert(chars@.skip(0) == chars@);
        assert(views(out@) == Seq::<Seq<char>>::empty());
    }
    while i < chars.len()
        invariant
            start <= i <= chars@.len(),
            forall|j: int| start <= j < i ==> chars@[j] != '\n',
            views(out@) + lines_of(chars@.skip(start as int)) == lines_of(chars@),
        decreases chars@.len() - i,
    {
        if chars[i] == '\n' {
            let ghost rest = chars@.skip(start as int);
            proof {
                lemma_first_newline(rest);
                let k = first_newline(rest);
                assert(rest[i - start] == '\n');
                if k < i - start {
                    assert(chars@[start + k] == '\n');
                }
                assert(k == i - start);
                assert(rest.take(k) == chars@.subrange(start as int, i as int));
                assert(rest.skip(k + 1) == chars@.skip(i + 1));
            }
            let end: usize = if start < i && chars[i - 1] == '\r' {
                i - 1
            } else {
                i
            };
            let line = slice_of(&chars, start, end);
            let ghost before = out@;
            out.push(line);
            proof {
                assert(line@ == drop_return(chars@.subrange(start as int, i as int)));
                assert(views(out@) == views(before).push(line@));
                assert(views(before) + (seq![line@] + lines_of(chars@.skip(i + 1))) == views(out@)
                    + lines_of(chars@.skip(i + 1)));
            }
            start = i + 1;
        }
        i = i + 1;
    }
    if start < chars.len() {
        let ghost rest = chars@.skip(start as int);
        proof {
            lemma_first_newline(rest);
            let k = first_newline(rest);
            if k < rest.len() {
                assert(chars@[start + k] == '\n');
            }
            assert(rest == chars@.subrange(start as int, chars@.len() as int));
        }
        let line = slice_of(&chars, start, chars.len());
        let ghost before = out@;
        out.push(line);
        proof {
            assert(lines_of(rest) == seq![line@]);
            assert(views(out@) == views(before) + seq![line@]);
        }
    } else {
        proof {
            assert(views(out@) + lines_of(chars@.skip(start as int)) == views(out@));
        }
    }
    out
}

/// The parts one after the other, with `sep` between each two.
pub open spec fn joined(parts: Seq<Seq<char>>, sep: Seq<char>) -> Seq<char>
    decreases parts.len(),
{
    if parts.len() == 0 {
        seq![]
    } else if parts.len() == 1 {
        parts[0]
    } else {
        joined(parts.drop_last(), sep) + sep + parts.last()
    }
}

/// The texts of `parts` one after the other, with `sep` between each two.
pub fn join(parts: &[String], sep: &str) -> (res: String)
    ensures
        res@ == joined(views(parts@), sep@),
{
    let mut out = String::new();
    let mut i: usize = 0;
    proof {
        assert(views(parts@).take(0) == Seq::<Seq<char>>::empty());
    }
    while i < parts.len()
        invariant
            i <= parts@.len(),
            out@ == joined(views(parts@).take(i as int), sep@),
        decreases parts@.len() - i,
    {
        if i > 0 {
            out.append(sep);
        }
        out.append(parts[i].as_str());
        proof {
            let next = views(parts@).take(i + 1);
            assert(next.drop_last() == views(parts@).take(i as int));
            assert(next.last() == parts@[i as int]@);
            if i == 0 {
                assert(out@ == parts@[0]@);
            }
        }
        i = i + 1;
    }
    proof {
        assert(views(parts@).take(i as int) == views(parts@));
    }
    out
}

/// `s` with every run of spaces made one space.
pub open spec fn single_spaced(s: Seq<char>) -> Seq<char>
    decreases s.len(),
{
    if s.len() < 2 {
        s
    } else if s.last() == ' ' && s[s.len() - 2] == ' ' {
        single_spaced(s.drop_last())
    } else {
        single_spaced(s.drop_last()).push(s.last())
    }
}

/// The text with every run of spaces made one space.
pub fn collapse_spaces(text: &str) -> (res: String)
    ensures
        res@ == single_spaced(text@),
{
    let chars = chars_of(text);
    let mut out = String::new();
    let mut i: usize = 0;
    while i < chars.len()
        invariant
            i <= chars@.len(),
            out@ == single_spaced(chars@.take(i as int)),
        decreases chars@.len() - i,
    {
        let ghost next = chars@.take(i + 1);
        proof {
            assert(next.drop_last() == chars@.take(i as int));
            if i == 0 {
                assert(next == seq![chars@[0]]);
                assert(out@.push(chars@[0]) == next);
            }
        }
        if i == 0 || chars[i] != ' ' || chars[i - 1] != ' ' {
            out.push(chars[i]);
        }
        i = i + 1;
    }
    proof {
        assert(chars@.take(i as int) == chars@);
    }
    out
}

} // verus!
