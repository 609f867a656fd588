//! Compression of the lines of a trace.

use crate::engine;
use crate::engine::Compiled;
use crate::pattern;
use crate::pattern::Pattern;
use crate::text;
use vstd::prelude::*;
use vstd::utf8;

verus! {

/// The white space that a line begins with.
pub open spec fn indent(line: Seq<char>) -> Seq<char> {
    line.take(line.len() - text::trim_start(line).len())
}

/// How deep a line stands in the tree: two bytes of white space are one level.
pub open spec fn depth(line: Seq<char>) -> nat {
    utf8::encode_utf8(indent(line)).len() / 2
}

/// That many tabs.
pub open spec fn tabs(n: nat) -> Seq<char> {
    Seq::new(n, |i: int| '\t')
}

/// The content of a trace line: no tree, no gas amounts, short addresses, and large
/// integers in scientific notation.
pub open spec fn content(line: Seq<char>) -> Seq<char> {
    let bare = text::trimmed(pattern::replaced(Pattern::BoxDrawing, text::trimmed(line)));
    let no_gas = pattern::replaced(Pattern::Gas, bare);
    let short = pattern::replaced(Pattern::Address, no_gas);
    let scientific = pattern::replaced(Pattern::LargeInt, short);
    text::trimmed(text::single_spaced(scientific))
}

/// A compressed trace line: its depth in tabs, then its content.
pub open spec fn compressed(line: Seq<char>) -> Seq<char> {
    tabs(depth(line)) + content(line)
}

/// The patterns that compress a trace, ready to be searched for.
pub struct TracePatterns {
    boxes: Compiled,
    gas: Compiled,
    address: Compiled,
    large_int: Compiled,
}

impl TracePatterns {
    /// Whether each field holds its own pattern.
    pub closed spec fn wf(&self) -> bool {
        &&& self.boxes@ == Pattern::BoxDrawing
        &&& self.gas@ == Pattern::Gas
        &&& self.address@ == Pattern::Address
        &&& self.large_int@ == Pattern::LargeInt
    }

    /// Prepares the patterns.
    pub fn new() -> (res: Self)
        ensures
            res.wf(),
    {
        TracePatterns {
            boxes: engine::prepare(Pattern::BoxDrawing),
            gas: engine::prepare(Pattern::Gas),
            address: engine::prepare(Pattern::Address),
            large_int: engine::prepare(Pattern::LargeInt),
        }
    }

    /// Compresses a trace line.
    pub fn compress(&self, line: &str) -> (res: String)
        requires
            self.wf(),
        ensures
            res@ == compressed(line@),
    {
        let mut out = indent_in_tabs(line);
        let bare = engine::replace_all(&self.boxes, text::trim(line).as_str());
        let no_gas = engine::replace_all(&self.gas, text::trim(bare.as_str()).as_str());
        let short = engine::replace_all(&self.address, no_gas.as_str());
        let scientific = engine::replace_all(&self.large_int, short.as_str());
        let spaced = text::collapse_spaces(scientific.as_str());
        out.append(text::trim(spaced.as_str()).as_str());
        out
    }
}

/// How many bytes a character takes in UTF-8.
fn width(c: char) -> (res: u128)
    ensures
        res == utf8::encode_scalar(c as u32).len(),
        res <= 4,
{
    if c <= '\u{7f}' {
        1
    } else if c <= '\u{7ff}' {
        2
    } else if c <= '\u{ffff}' {
        3
    } else {
        4
    }
}

/// The depth of a line in tabs.
fn indent_in_tabs(line: &str) -> (res: String)
    ensures
        res@ == tabs(depth(line@)),
{
    let chars = text::chars_of(line);
    let end = text::leading_white(&chars);
    let ghost lead = indent(line@);
    proof {
        assert(lead == chars@.take(end as int));
        assert(lead.skip(0) == lead);
    }
    let mut bytes: u128 = 0;
    let mut i: usize = 0;
    while i < end
        invariant
            i <= end <= chars@.len(),
            lead == chars@.take(end as int),
            bytes <= 4 * i,
            bytes + utf8::encode_utf8(lead.skip(i as int)).len() == utf8::encode_utf8(lead).len(),
        decreases end - i,
    {
        proof {
            assert(lead.skip(i as int).drop_first() == lead.skip(i + 1));
        }
        bytes = bytes + width(chars[i]);
        i = i + 1;
    }
    proof {
        assert(lead.skip(end as int) == Seq::<char>::empty());
    }
    let mut out = String::new();
    let levels: u128 = bytes / 2;
    let mut n: u128 = 0;
    while n < levels
        invariant
            n <= levels,
            out@ == tabs(n as nat),
        decreases levels - n,
    {
        out.push('\t');
        proof {
            assert(out@ == tabs((n + 1) as nat));
        }
        n = n + 1;
    }
    out
}

/// Compresses a trace line: the tree that indents it becomes tabs, gas amounts are
/// stripped, addresses shortened, and large integers put in scientific notation.
pub fn compress_trace_line(line: &str) -> (res: String)
    ensures
        res@ == compressed(line@),
{
    TracePatterns::new().compress(line)
}

} // verus!
