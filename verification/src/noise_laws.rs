//! What holds of the lines of `forge build`, one by one, by the characters on them.

use crate::build_laws;
use crate::build_output;
use crate::pattern;
use crate::pattern::{Class, Piece};
use crate::pattern_laws;
use crate::text;
use crate::text_laws;
use vstd::prelude::*;

verus! {

proof fn lemma_after_text(part: Seq<char>, tail: Seq<char>, form: Seq<Piece>)
    requires
        form.len() > 0,
        form.first() == Piece::Text(part),
    ensures
        pattern::begins(part + tail, form) == pattern::begins(tail, form.drop_first()),
{
    assert((part + tail).subrange(0, part.len() as int) == part);
    assert((part + tail).skip(part.len() as int) == tail);
}

proof fn lemma_after_run(front: Seq<char>, tail: Seq<char>, class: Class, form: Seq<Piece>)
    requires
        form.len() > 0,
        form.first() == Piece::Run(class),
        front.len() > 0,
        forall|i: int| 0 <= i < front.len() ==> pattern::in_class(class, #[trigger] front[i]),
        tail.len() > 0 ==> !pattern::in_class(class, tail.first()),
    ensures
        pattern::begins(front + tail, form) == pattern::begins(tail, form.drop_first()),
{
    pattern_laws::lemma_run_is(front, tail, class);
    assert((front + tail).skip(front.len() as int) == tail);
}

proof fn lemma_five_pieces(
    a: Seq<char>,
    w1: Seq<char>,
    b: Seq<char>,
    w2: Seq<char>,
    c: Seq<char>,
    rest: Seq<char>,
    piece: Piece,
)
    requires
        w1.len() > 0,
        w2.len() > 0,
        forall|i: int| 0 <= i < w1.len() ==> text::is_white(#[trigger] w1[i]),
        forall|i: int| 0 <= i < w2.len() ==> text::is_white(#[trigger] w2[i]),
        b.len() > 0,
        !text::is_white(b.first()),
        c.len() > 0,
        !text::is_white(c.first()),
        match piece {
            Piece::Text(part) => part == b,
            Piece::Run(class) => !pattern::in_class(class, w2.first()) && forall|i: int|
                0 <= i < b.len() ==> pattern::in_class(class, #[trigger] b[i]),
        },
    ensures
        pattern::begins(
            a + w1 + b + w2 + c + rest,
            seq![
                Piece::Text(a),
                Piece::Run(Class::White),
                piece,
                Piece::Run(Class::White),
                Piece::Text(c),
            ],
        ),
{
    let white = Piece::Run(Class::White);
    let form = seq![Piece::Text(a), white, piece, white, Piece::Text(c)];
    let form1 = seq![white, piece, white, Piece::Text(c)];
    let form2 = seq![piece, white, Piece::Text(c)];
    let form3 = seq![white, Piece::Text(c)];
    let form4 = seq![Piece::Text(c)];
    let t4 = c + rest;
    let t3 = w2 + t4;
    let t2 = b + t3;
    let t1 = w1 + t2;
    assert(a + w1 + b + w2 + c + rest == a + t1);
    assert(form.drop_first() == form1);
    assert(form1.drop_first() == form2);
    assert(form2.drop_first() == form3);
    assert(form3.drop_first() == form4);
    assert(form4.drop_first() == Seq::<Piece>::empty());
    lemma_after_text(a, t1, form);
    lemma_after_run(w1, t2, Class::White, form1);
    match piece {
        Piece::Text(part) => lemma_after_text(b, t3, form2),
        Piece::Run(class) => lemma_after_run(b, t3, class, form2),
    }
    lemma_after_run(w2, t4, Class::White, form3);
    lemma_after_text(c, rest, form4);
}

proof fn lemma_reveal()
    ensures
        "file"@ == seq!['f', 'i', 'l', 'e'],
        "finished"@ == seq!['f', 'i', 'n', 'i', 's', 'h', 'e', 'd'],
        "run"@ == seq!['r', 'u', 'n'],
        "successful"@ == seq!['s', 'u', 'c', 'c', 'e', 's', 's', 'f', 'u', 'l'],
        "to"@ == seq!['t', 'o'],
        "compile"@ == seq!['c', 'o', 'm', 'p', 'i', 'l', 'e'],
        "files"@ == seq!['f', 'i', 'l', 'e', 's'],
        "changed"@ == seq!['c', 'h', 'a', 'n', 'g', 'e', 'd'],
{
    reveal_strlit("file");
    reveal_strlit("finished");
    reveal_strlit("run");
    reveal_strlit("successful");
    reveal_strlit("to");
    reveal_strlit("compile");
    reveal_strlit("files");
    reveal_strlit("changed");
}

/// A line that says that files are being compiled, that the compiler has finished or run
/// successfully, or that there was nothing to do, is dropped, whatever follows.
pub proof fn law_noise_is_dropped(
    line: Seq<char>,
    w1: Seq<char>,
    number: Seq<char>,
    w2: Seq<char>,
    rest: Seq<char>,
)
    requires
        ({
            let t = text::trimmed(line);
            ||| t == "Compiling"@ + w1 + number + w2 + "file"@ + rest && !number.contains('.')
            ||| t == "Solc"@ + w1 + number + w2 + "finished"@ + rest
            ||| t == "Compiler"@ + w1 + "run"@ + w2 + "successful"@ + rest
            ||| t == "Nothing"@ + w1 + "to"@ + w2 + "compile"@ + rest
            ||| t == "No"@ + w1 + "files"@ + w2 + "changed"@ + rest
        }),
        w1.len() > 0,
        w2.len() > 0,
        forall|i: int| 0 <= i < w1.len() ==> text::is_white(#[trigger] w1[i]),
        forall|i: int| 0 <= i < w2.len() ==> text::is_white(#[trigger] w2[i]),
        w2.first() <= '\u{7f}',
        number.len() > 0,
        forall|i: int|
            0 <= i < number.len() ==> ('0' <= #[trigger] number[i] <= '9') || number[i] == '.',
    ensures
        build_output::telling(seq![line]) == Seq::<Seq<char>>::empty(),
        !line.contains('\n') ==> build_output::filtered_build(line) == Seq::<char>::empty(),
{
    let t = text::trimmed(line);
    lemma_reveal();
    assert(!text::is_white(number[0]));
    if t == "Compiling"@ + w1 + number + w2 + "file"@ + rest && !number.contains('.') {
        assert forall|i: int| 0 <= i < number.len() implies pattern::in_class(
            Class::Digit,
            #[trigger] number[i],
        ) by {
            assert(number.contains(number[i]));
        }
        let piece = Piece::Run(Class::Digit);
        lemma_five_pieces("Compiling"@, w1, number, w2, "file"@, rest, piece);
    } else if t == "Solc"@ + w1 + number + w2 + "finished"@ + rest {
        let piece = Piece::Run(Class::DigitOrDot);
        lemma_five_pieces("Solc"@, w1, number, w2, "finished"@, rest, piece);
    } else if t == "Compiler"@ + w1 + "run"@ + w2 + "successful"@ + rest {
        let piece = Piece::Text("run"@);
        lemma_five_pieces("Compiler"@, w1, "run"@, w2, "successful"@, rest, piece);
    } else if t == "Nothing"@ + w1 + "to"@ + w2 + "compile"@ + rest {
        let piece = Piece::Text("to"@);
        lemma_five_pieces("Nothing"@, w1, "to"@, w2, "compile"@, rest, piece);
    } else {
        let piece = Piece::Text("files"@);
        lemma_five_pieces("No"@, w1, "files"@, w2, "changed"@, rest, piece);
    }
    assert(pattern::is_build_noise(t));
    build_laws::lemma_telling_one(line);
    lemma_filtered_one(line);
}

proof fn lemma_filtered_one(line: Seq<char>)
    ensures
        !line.contains('\n') ==> build_output::filtered_build(line) == (
        if build_output::is_telling(line) {
            line
        } else {
            seq![]
        }),
{
    if !line.contains('\n') {
        text_laws::law_lines_end_in_newlines(line, seq![]);
        build_laws::lemma_telling_one(line);
        text_laws::law_joining(seq![], line, seq!['\n']);
        if line.len() == 0 {
            build_laws::lemma_telling_all(seq![]);
        }
    }
}

/// A blank line is dropped.
pub proof fn law_blank_lines_are_dropped(line: Seq<char>)
    requires
        forall|i: int| 0 <= i < line.len() ==> text::is_white(#[trigger] line[i]),
    ensures
        build_output::telling(seq![line]) == Seq::<Seq<char>>::empty(),
        !line.contains('\n') ==> build_output::filtered_build(line) == Seq::<char>::empty(),
{
    let empty = Seq::<char>::empty();
    text_laws::law_trimming_drops_white_space_alone(line, empty, empty);
    assert(line + empty + empty == line);
    build_laws::lemma_telling_one(line);
    lemma_filtered_one(line);
}

/// Whether a text is `first`, white space up to `i`, something up to `j`, white space up to
/// `k`, and `third`, with anything behind it.
pub open spec fn says(
    t: Seq<char>,
    first: Seq<char>,
    i: int,
    j: int,
    k: int,
    third: Seq<char>,
) -> bool {
    &&& first.len() < i < j < k
    &&& k + third.len() <= t.len()
    &&& t.subrange(0, first.len() as int) == first
    &&& t.subrange(k, k + third.len()) == third
    &&& forall|m: int| first.len() <= m < i || j <= m < k ==> text::is_white(#[trigger] t[m])
}

proof fn lemma_says(t: Seq<char>, first: Seq<char>, piece: Piece, third: Seq<char>) -> (res: (
    int,
    int,
    int,
))
    requires
        first.len() > 0,
        piece matches Piece::Text(part) ==> part.len() > 0,
        pattern::begins(
            t,
            seq![
                Piece::Text(first),
                Piece::Run(Class::White),
                piece,
                Piece::Run(Class::White),
                Piece::Text(third),
            ],
        ),
    ensures
        says(t, first, res.0, res.1, res.2, third),
        match piece {
            Piece::Text(part) => t.subrange(res.0, res.1) == part,
            Piece::Run(class) => forall|m: int|
                res.0 <= m < res.1 ==> pattern::in_class(class, #[trigger] t[m]),
        },
{
    let white = Piece::Run(Class::White);
    let form = seq![Piece::Text(first), white, piece, white, Piece::Text(third)];
    let form1 = seq![white, piece, white, Piece::Text(third)];
    let form2 = seq![piece, white, Piece::Text(third)];
    let form3 = seq![white, Piece::Text(third)];
    let form4 = seq![Piece::Text(third)];
    assert(form.drop_first() == form1);
    assert(form1.drop_first() == form2);
    assert(form2.drop_first() == form3);
    assert(form3.drop_first() == form4);
    let t1 = t.skip(first.len() as int);
    assert(first.is_prefix_of(t) && pattern::begins(t1, form1));
    let n1 = pattern::run(t1, Class::White);
    pattern_laws::lemma_run_parts(t1, Class::White);
    let t2 = t1.skip(n1);
    assert(pattern::begins(t2, form2));
    let n2 = match piece {
        Piece::Text(part) => part.len() as int,
        Piece::Run(class) => pattern::run(t2, class),
    };
    if let Piece::Run(class) = piece {
        pattern_laws::lemma_run_parts(t2, class);
    }
    let t3 = t2.skip(n2);
    assert(pattern::begins(t3, form3));
    let n3 = pattern::run(t3, Class::White);
    pattern_laws::lemma_run_parts(t3, Class::White);
    let t4 = t3.skip(n3);
    assert(pattern::begins(t4, form4));
    let i = first.len() + n1;
    let j = i + n2;
    let k = j + n3;
    assert(t4 == t.skip(k));
    assert(t3 == t.skip(j));
    assert(t2 == t.skip(i));
    assert(t4.subrange(0, third.len() as int) == t.subrange(k, k + third.len()));
    assert forall|m: int| first.len() <= m < i || j <= m < k implies text::is_white(
        #[trigger] t[m],
    ) by {
        if m < i {
            assert(t[m] == t1[m - first.len()]);
            assert(pattern::in_class(Class::White, t1[m - first.len()]));
        } else {
            assert(t[m] == t3[m - j]);
            assert(pattern::in_class(Class::White, t3[m - j]));
        }
    }
    match piece {
        Piece::Text(part) => {
            assert(t2.subrange(0, n2) == t.subrange(i, j));
        },
        Piece::Run(class) => {
            assert forall|m: int| i <= m < j implies pattern::in_class(class, #[trigger] t[m]) by {
                assert(t[m] == t2[m - i]);
            }
        },
    }
    (i, j, k)
}

/// A line that is not blank is left as it is, unless it says one of five things: `Compiling`,
/// a number, `file`; `Solc`, a version, `finished`; `Compiler run successful`; `Nothing to
/// compile`; `No files changed`.
pub proof fn law_all_else_is_left(line: Seq<char>)
    requires
        text::trimmed(line).len() > 0,
        forall|i: int, j: int, k: int|
            #[trigger] says(text::trimmed(line), "Compiling"@, i, j, k, "file"@) ==> exists|m: int|
                i <= m < j && !('0' <= #[trigger] text::trimmed(line)[m] <= '9') && text::trimmed(
                    line,
                )[m] <= '\u{7f}',
        forall|i: int, j: int, k: int|
            #[trigger] says(text::trimmed(line), "Solc"@, i, j, k, "finished"@) ==> exists|m: int|
                i <= m < j && !('0' <= #[trigger] text::trimmed(line)[m] <= '9') && text::trimmed(
                    line,
                )[m] != '.' && text::trimmed(line)[m] <= '\u{7f}',
        forall|i: int, j: int, k: int|
            #[trigger] says(text::trimmed(line), "Compiler"@, i, j, k, "successful"@)
                ==> text::trimmed(line).subrange(i, j) != "run"@,
        forall|i: int, j: int, k: int|
            #[trigger] says(text::trimmed(line), "Nothing"@, i, j, k, "compile"@) ==> text::trimmed(
                line,
            ).subrange(i, j) != "to"@,
        forall|i: int, j: int, k: int|
            #[trigger] says(text::trimmed(line), "No"@, i, j, k, "changed"@) ==> text::trimmed(
                line,
            ).subrange(i, j) != "files"@,
    ensures
        build_output::telling(seq![line]) == seq![line],
        !line.contains('\n') ==> build_output::filtered_build(line) == line,
{
    let t = text::trimmed(line);
    lemma_reveal();
    reveal_strlit("Compiling");
    reveal_strlit("Solc");
    reveal_strlit("Compiler");
    reveal_strlit("Nothing");
    reveal_strlit("No");
    if pattern::is_build_noise(t) {
        let white = Piece::Run(Class::White);
        if pattern::begins(
            t,
            seq![
                Piece::Text("Compiling"@),
                white,
                Piece::Run(Class::Digit),
                white,
                Piece::Text("file"@),
            ],
        ) {
            let (i, j, k) = lemma_says(t, "Compiling"@, Piece::Run(Class::Digit), "file"@);
            assert(says(t, "Compiling"@, i, j, k, "file"@));
            assert(false);
        } else if pattern::begins(
            t,
            seq![
                Piece::Text("Solc"@),
                white,
                Piece::Run(Class::DigitOrDot),
                white,
                Piece::Text("finished"@),
            ],
        ) {
            let (i, j, k) = lemma_says(t, "Solc"@, Piece::Run(Class::DigitOrDot), "finished"@);
            assert(says(t, "Solc"@, i, j, k, "finished"@));
            assert(false);
        } else if pattern::begins(
            t,
            seq![
                Piece::Text("Compiler"@),
                white,
                Piece::Text("run"@),
                white,
                Piece::Text("successful"@),
            ],
        ) {
            let (i, j, k) = lemma_says(t, "Compiler"@, Piece::Text("run"@), "successful"@);
            assert(says(t, "Compiler"@, i, j, k, "successful"@));
            assert(false);
        } else if pattern::begins(
            t,
            seq![
                Piece::Text("Nothing"@),
                white,
                Piece::Text("to"@),
                white,
                Piece::Text("compile"@),
            ],
        ) {
            let (i, j, k) = lemma_says(t, "Nothing"@, Piece::Text("to"@), "compile"@);
            assert(says(t, "Nothing"@, i, j, k, "compile"@));
            assert(false);
        } else {
            let (i, j, k) = lemma_says(t, "No"@, Piece::Text("files"@), "changed"@);
            assert(says(t, "No"@, i, j, k, "changed"@));
            assert(false);
        }
    }
    build_laws::lemma_telling_one(line);
    lemma_filtered_one(line);
}

/// A line that is not blank is left as it is where it begins with none of the words
/// `Compiling`, `Solc`, `Compiler`, `Nothing` and `No`.
pub proof fn law_lines_that_begin_otherwise_are_left(line: Seq<char>)
    requires
        text::trimmed(line).len() > 0,
        !"Compiling"@.is_prefix_of(text::trimmed(line)),
        !"Solc"@.is_prefix_of(text::trimmed(line)),
        !"Compiler"@.is_prefix_of(text::trimmed(line)),
        !"Nothing"@.is_prefix_of(text::trimmed(line)),
        !"No"@.is_prefix_of(text::trimmed(line)),
    ensures
        build_output::telling(seq![line]) == seq![line],
        !line.contains('\n') ==> build_output::filtered_build(line) == line,
{
    law_all_else_is_left(line);
}

/// Wherever it stands in an output, a line that is not blank and begins with none of those
/// words is left as it is.
pub proof fn law_such_lines_are_left_wherever_they_stand(lines: Seq<Seq<char>>, i: int)
    requires
        0 <= i < lines.len(),
        text::trimmed(lines[i]).len() > 0,
        !"Compiling"@.is_prefix_of(text::trimmed(lines[i])),
        !"Solc"@.is_prefix_of(text::trimmed(lines[i])),
        !"Compiler"@.is_prefix_of(text::trimmed(lines[i])),
        !"Nothing"@.is_prefix_of(text::trimmed(lines[i])),
        !"No"@.is_prefix_of(text::trimmed(lines[i])),
    ensures
        build_output::telling(lines).contains(lines[i]),
        build_output::telling(lines) == build_output::telling(lines.take(i)).push(lines[i])
            + build_output::telling(lines.skip(i + 1)),
{
    let above = build_output::telling(lines.take(i));
    law_lines_that_begin_otherwise_are_left(lines[i]);
    law_lines_are_sorted_out_one_by_one(lines.take(i), lines[i], lines.skip(i + 1));
    assert(lines == lines.take(i) + seq![lines[i]] + lines.skip(i + 1));
    assert(above + seq![lines[i]] == above.push(lines[i]));
    assert(build_output::telling(lines)[above.len() as int] == lines[i]);
}

/// Whether a line is left does not depend on the lines around it, and the lines that are left
/// stay in their order.
pub proof fn law_lines_are_sorted_out_one_by_one(
    above: Seq<Seq<char>>,
    line: Seq<char>,
    below: Seq<Seq<char>>,
)
    ensures
        build_output::telling(seq![]) == Seq::<Seq<char>>::empty(),
        build_output::telling(above + seq![line] + below) == build_output::telling(above)
            + build_output::telling(seq![line]) + build_output::telling(below),
{
    let pred = |line: Seq<char>| build_output::is_telling(line);
    build_laws::lemma_telling_all(seq![]);
    Seq::filter_distributes_over_add(above + seq![line], below, pred);
    Seq::filter_distributes_over_add(above, seq![line], pred);
}

/// What is left of an output is what is left of its first line, and below it what is left of
/// the rest, whether a carriage return stands before the newline or not.
pub proof fn law_the_first_line_and_the_rest(line: Seq<char>, rest: Seq<char>)
    requires
        !line.contains('\n'),
        line.len() == 0 || line.last() != '\r',
    ensures
        build_output::filtered_build(seq![]) == Seq::<char>::empty(),
        ({
            let first = build_output::filtered_build(line);
            let others = build_output::filtered_build(rest);
            let left = if first.len() == 0 {
                others
            } else if others.len() == 0 {
                first
            } else {
                first + seq!['\n'] + others
            };
            &&& build_output::filtered_build(line + seq!['\n'] + rest) == left
            &&& build_output::filtered_build(line + seq!['\r', '\n'] + rest) == left
        }),
{
    let empty = Seq::<char>::empty();
    assert(!empty.contains('\n'));
    lemma_filtered_one(empty);
    build_laws::law_outputs_are_filtered_apart(line, rest);
    text_laws::law_lines_end_in_newlines(line, rest);
    let first = build_output::filtered_build(line);
    let others = build_output::filtered_build(rest);
    if first.len() == 0 {
        assert(first + others == others);
    } else if others.len() == 0 {
        assert(first + others == first);
    }
}

} // verus!
