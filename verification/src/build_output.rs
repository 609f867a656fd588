//! The filter for the output of `forge build`.

use crate::engine;
use crate::pattern;
use crate::pattern::Pattern;
use crate::text;
use vstd::prelude::*;

verus! {

/// Whether a line says something about the code: it is neither blank nor noise.
pub open spec fn is_telling(line: Seq<char>) -> bool {
    text::trimmed(line).len() > 0 && !pattern::is_build_noise(text::trimmed(line))
}

/// The lines that say something about the code, in their order.
pub open spec fn telling(lines: Seq<Seq<char>>) -> Seq<Seq<char>> {
    lines.filter(|line: Seq<char>| is_telling(line))
}

/// What is left of the output of `forge build`.
pub open spec fn filtered_build(output: Seq<char>) -> Seq<char> {
    text::joined(telling(text::lines_of(output)), seq!['\n'])
}

/// Filters the output of `forge build`: drops blank lines and noise, keeps errors,
/// warnings and all else as they are.
pub fn filter_forge_build(output: &str) -> (res: String)
    ensures
        res@ == filtered_build(output@),
{
    let noise = engine::prepare(Pattern::BuildNoise);
    let lines = text::lines(output);
    let mut kept: Vec<String> = Vec::new();
    let mut i: usize = 0;
    let ghost all = text::views(lines@);
    proof {
        reveal(Seq::filter);
        assert(text::views(kept@) == telling(all.take(0)));
    }
    while i < lines.len()
        invariant
            i <= lines@.len(),
            all == text::views(lines@),
            noise@ == Pattern::BuildNoise,
            text::views(kept@) == telling(all.take(i as int)),
        decreases lines@.len() - i,
    {
        let line = &lines[i];
        let trimmed = text::trim(line.as_str());
        let ghost before = kept@;
        proof {
            reveal(Seq::filter);
            assert(all.take(i + 1).drop_last() == all.take(i as int));
        }
        if !trimmed.as_str().is_empty() && !engine::is_match(&noise, trimmed.as_str()) {
            kept.push(line.clone());
            proof {
                assert(text::views(kept@) == text::views(before).push(line@));
            }
        }
        i = i + 1;
    }
    proof {
        assert(all.take(i as int) == all);
        reveal_strlit("\n");
        assert("\n"@ == seq!['\n']);
    }
    text::join(kept.as_slice(), "\n")
}

} // verus!
