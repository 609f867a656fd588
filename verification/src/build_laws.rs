//! What holds of the filter for `forge build` as a whole.

use crate::build_output;
use crate::text;
use vstd::prelude::*;

verus! {

/// The lines that are left are lines of the output that are neither blank nor noise, and
/// every such line is left.
pub proof fn law_telling_lines_are_left(lines: Seq<Seq<char>>)
    ensures
        forall|line: Seq<char>| #[trigger]
            build_output::telling(lines).contains(line) <==> lines.contains(line)
                && build_output::is_telling(line),
    decreases lines.len(),
{
    reveal(Seq::filter);
    if lines.len() > 0 {
        let init = lines.drop_last();
        law_telling_lines_are_left(init);
        assert(lines == init.push(lines.last()));
        assert forall|line: Seq<char>| #[trigger]
            build_output::telling(lines).contains(line) <==> lines.contains(line)
                && build_output::is_telling(line) by {
            lemma_push_contains(init, lines.last(), line);
            lemma_push_contains(build_output::telling(init), lines.last(), line);
        }
    }
}

proof fn lemma_push_contains(s: Seq<Seq<char>>, last: Seq<char>, line: Seq<char>)
    ensures
        s.push(last).contains(line) <==> s.contains(line) || line == last,
{
    if s.contains(line) {
        let i = choose|i: int| 0 <= i < s.len() && s[i] == line;
        assert(s.push(last)[i] == line);
    }
    assert(s.push(last)[s.len() as int] == last);
}

proof fn lemma_joined_empty(parts: Seq<Seq<char>>, sep: Seq<char>)
    requires
        forall|i: int| 0 <= i < parts.len() ==> #[trigger] parts[i].len() > 0,
    ensures
        text::joined(parts, sep).len() == 0 <==> parts.len() == 0,
{
    if parts.len() > 1 {
        assert(parts.last() == parts[parts.len() - 1]);
    }
}

/// The filter leaves nothing if and only if every line is blank or noise.
pub proof fn law_pure_noise_leaves_nothing(output: Seq<char>)
    ensures
        build_output::filtered_build(output).len() == 0 <==> forall|i: int|
            0 <= i < text::lines_of(output).len() ==> !build_output::is_telling(
                #[trigger] text::lines_of(output)[i],
            ),
{
    let lines = text::lines_of(output);
    let kept = build_output::telling(lines);
    law_telling_lines_are_left(lines);
    lemma_left_is_empty(output);
    if kept.len() > 0 {
        assert(kept.contains(kept[0]));
        let i = choose|i: int| 0 <= i < lines.len() && lines[i] == kept[0];
        assert(build_output::is_telling(lines[i]));
    } else {
        assert forall|i: int| 0 <= i < lines.len() implies !build_output::is_telling(
            #[trigger] lines[i],
        ) by {
            assert(lines.contains(lines[i]));
            assert(!kept.contains(lines[i]));
        }
    }
}

/// Filtering what is left once more changes nothing, unless a line that is left, the last
/// one apart, ends in a carriage return: joined by newlines, it would lose it.
pub proof fn law_filtering_twice_is_filtering_once(output: Seq<char>)
    requires
        forall|i: int|
            0 <= i < build_output::telling(text::lines_of(output)).len() - 1
                ==> text::drop_return(#[trigger] build_output::telling(text::lines_of(output))[i])
                == build_output::telling(text::lines_of(output))[i],
    ensures
        build_output::filtered_build(build_output::filtered_build(output))
            == build_output::filtered_build(output),
{
    let lines = text::lines_of(output);
    let kept = build_output::telling(lines);
    law_telling_lines_are_left(lines);
    lemma_lines_hold_no_newline(output);
    assert forall|i: int| 0 <= i < kept.len() implies #[trigger] kept[i].len() > 0
        && !kept[i].contains('\n') && build_output::is_telling(kept[i]) by {
        assert(kept.contains(kept[i]));
        text::lemma_trimmed(kept[i]);
        let j = choose|j: int| 0 <= j < lines.len() && lines[j] == kept[i];
        assert(!lines[j].contains('\n'));
    }
    lemma_lines_of_joined(kept);
    lemma_telling_all(kept);
}

/// Two texts joined by a newline, empty ones left out.
pub open spec fn one_below_the_other(above: Seq<char>, below: Seq<char>) -> Seq<char> {
    if above.len() == 0 || below.len() == 0 {
        above + below
    } else {
        above + seq!['\n'] + below
    }
}

/// What is left of two outputs, one below the other, is what is left of each, unless the
/// first one ends in a line that is left and ends in a carriage return: with the newline
/// behind it, it loses it.
pub proof fn law_outputs_are_filtered_apart(above: Seq<char>, below: Seq<char>)
    requires
        !(above.len() > 0 && above.last() == '\r' && build_output::is_telling(
            text::lines_of(above).last(),
        )),
    ensures
        build_output::filtered_build(above + seq!['\n'] + below) == one_below_the_other(
            build_output::filtered_build(above),
            build_output::filtered_build(below),
        ),
{
    lemma_telling_of_two(above, below);
    lemma_left_is_empty(above);
    lemma_left_is_empty(below);
    let first = build_output::telling(text::lines_of(above));
    let second = build_output::telling(text::lines_of(below));
    if first.len() == 0 {
        assert(first + second == second);
    } else if second.len() == 0 {
        assert(first + second == first);
    } else {
        lemma_joined_of_two(first, second, seq!['\n']);
    }
}

proof fn lemma_telling_of_two(above: Seq<char>, below: Seq<char>)
    requires
        !(above.len() > 0 && above.last() == '\r' && build_output::is_telling(
            text::lines_of(above).last(),
        )),
    ensures
        build_output::telling(text::lines_of(above + seq!['\n'] + below)) == build_output::telling(
            text::lines_of(above),
        ) + build_output::telling(text::lines_of(below)),
    decreases above.len(),
{
    let both = above + seq!['\n'] + below;
    let pred = |line: Seq<char>| build_output::is_telling(line);
    text::lemma_first_newline(above);
    let k = text::first_newline(above);
    assert(forall|i: int| 0 <= i < above.len() ==> both[i] == above[i]);
    lemma_first_newline_at(both, k);
    if k < above.len() {
        let first = seq![text::drop_return(above.take(k))];
        let rest = above.skip(k + 1);
        assert(both.take(k) == above.take(k));
        assert(both.skip(k + 1) == rest + seq!['\n'] + below);
        if rest.len() > 0 {
            assert(rest.last() == above.last());
            assert(text::lines_of(rest).len() > 0);
            assert(text::lines_of(above).last() == text::lines_of(rest).last());
        }
        lemma_telling_of_two(rest, below);
        Seq::filter_distributes_over_add(first, text::lines_of(rest), pred);
        Seq::filter_distributes_over_add(first, text::lines_of(rest + seq!['\n'] + below), pred);
        assert(first.filter(pred) + (text::lines_of(rest).filter(pred) + text::lines_of(
            below,
        ).filter(pred)) == first.filter(pred) + text::lines_of(rest).filter(pred)
            + text::lines_of(below).filter(pred));
    } else {
        let first = seq![text::drop_return(above)];
        assert(both.take(k) == above);
        assert(both.skip(k + 1) == below);
        Seq::filter_distributes_over_add(first, text::lines_of(below), pred);
        assert(first.filter(pred) == text::lines_of(above).filter(pred)) by {
            if above.len() > 0 && above.last() == '\r' {
                text::lemma_trimmed_push(above.drop_last(), '\r');
                assert(above.drop_last().push('\r') == above);
            }
            lemma_telling_one(text::drop_return(above));
            lemma_telling_one(above);
        }
    }
}

/// What is left of a single line.
pub proof fn lemma_telling_one(line: Seq<char>)
    ensures
        build_output::telling(seq![line]) == (if build_output::is_telling(line) {
            seq![line]
        } else {
            seq![]
        }),
{
    reveal(Seq::filter);
    assert(seq![line].drop_last() == Seq::<Seq<char>>::empty());
    assert(build_output::telling(Seq::<Seq<char>>::empty()) == Seq::<Seq<char>>::empty());
}

proof fn lemma_left_is_empty(output: Seq<char>)
    ensures
        build_output::filtered_build(output).len() == 0 <==> build_output::telling(
            text::lines_of(output),
        ).len() == 0,
{
    let kept = build_output::telling(text::lines_of(output));
    law_telling_lines_are_left(text::lines_of(output));
    assert forall|i: int| 0 <= i < kept.len() implies #[trigger] kept[i].len() > 0 by {
        assert(kept.contains(kept[i]));
        text::lemma_trimmed(kept[i]);
    }
    lemma_joined_empty(kept, seq!['\n']);
}

proof fn lemma_joined_of_two(above: Seq<Seq<char>>, below: Seq<Seq<char>>, sep: Seq<char>)
    requires
        above.len() > 0,
        below.len() > 0,
    ensures
        text::joined(above + below, sep) == text::joined(above, sep) + sep + text::joined(
            below,
            sep,
        ),
    decreases below.len(),
{
    let all = above + below;
    let init = below.drop_last();
    assert(all.drop_last() == above + init);
    assert(all.last() == below.last());
    if init.len() == 0 {
        assert(above + init == above);
    } else {
        lemma_joined_of_two(above, init, sep);
        assert(text::joined(above, sep) + sep + text::joined(init, sep) + sep + below.last()
            == text::joined(above, sep) + sep + (text::joined(init, sep) + sep + below.last()));
    }
}

/// Nothing is dropped where every line says something.
pub proof fn lemma_telling_all(lines: Seq<Seq<char>>)
    requires
        forall|i: int| 0 <= i < lines.len() ==> build_output::is_telling(#[trigger] lines[i]),
    ensures
        build_output::telling(lines) == lines,
    decreases lines.len(),
{
    reveal(Seq::filter);
    if lines.len() > 0 {
        assert forall|i: int| 0 <= i < lines.drop_last().len() implies build_output::is_telling(
            #[trigger] lines.drop_last()[i],
        ) by {
            assert(lines.drop_last()[i] == lines[i]);
        }
        lemma_telling_all(lines.drop_last());
        assert(build_output::is_telling(lines[lines.len() - 1]));
        assert(lines == lines.drop_last().push(lines.last()));
    }
}

proof fn lemma_lines_hold_no_newline(s: Seq<char>)
    ensures
        forall|i: int|
            0 <= i < text::lines_of(s).len() ==> !(#[trigger] text::lines_of(s)[i]).contains('\n'),
    decreases s.len(),
{
    text::lemma_first_newline(s);
    let k = text::first_newline(s);
    if s.len() > 0 && k < s.len() {
        lemma_lines_hold_no_newline(s.skip(k + 1));
        assert forall|i: int| 0 <= i < text::lines_of(s).len() implies !(
        #[trigger] text::lines_of(s)[i]).contains('\n') by {
            if i > 0 {
                assert(text::lines_of(s)[i] == text::lines_of(s.skip(k + 1))[i - 1]);
            }
        }
    }
}

proof fn lemma_first_newline_at(s: Seq<char>, k: int)
    requires
        0 <= k <= s.len(),
        k < s.len() ==> s[k] == '\n',
        forall|i: int| 0 <= i < k ==> s[i] != '\n',
    ensures
        text::first_newline(s) == k,
{
    text::lemma_first_newline(s);
}

proof fn lemma_lines_of_joined(parts: Seq<Seq<char>>)
    requires
        forall|i: int|
            0 <= i < parts.len() ==> #[trigger] parts[i].len() > 0 && !parts[i].contains('\n'),
        forall|i: int|
            0 <= i < parts.len() - 1 ==> text::drop_return(#[trigger] parts[i]) == parts[i],
    ensures
        text::lines_of(text::joined(parts, seq!['\n'])) == parts,
    decreases parts.len(),
{
    let sep = seq!['\n'];
    let all = text::joined(parts, sep);
    if parts.len() == 1 {
        let only = parts[0];
        assert forall|i: int| 0 <= i < only.len() implies only[i] != '\n' by {
            assert(only.contains(only[i]));
        }
        lemma_first_newline_at(only, only.len() as int);
        assert(seq![only] == parts);
    } else if parts.len() > 1 {
        let first = parts[0];
        let rest = parts.drop_first();
        assert(parts == seq![first] + rest);
        lemma_joined_of_two(seq![first], rest, sep);
        assert(text::joined(seq![first], sep) == first);
        assert forall|i: int| 0 <= i < rest.len() implies #[trigger] rest[i].len() > 0
            && !rest[i].contains('\n') by {
            assert(rest[i] == parts[i + 1]);
        }
        assert forall|i: int| 0 <= i < rest.len() - 1 implies text::drop_return(
            #[trigger] rest[i],
        ) == rest[i] by {
            assert(rest[i] == parts[i + 1]);
        }
        lemma_lines_of_joined(rest);
        assert forall|i: int| 0 <= i < first.len() implies all[i] != '\n' by {
            assert(all[i] == first[i]);
            assert(first.contains(first[i]));
        }
        lemma_first_newline_at(all, first.len() as int);
        assert(all.take(first.len() as int) == first);
        assert(all.skip(first.len() as int + 1) == text::joined(rest, sep));
    }
}

} // verus!
