//! Conversion of byte offsets to editor positions: zero-based lines and
//! zero-based columns counted in UTF-16 code units, as the Language Server
//! Protocol counts them.
use vstd::prelude::*;
use vstd::utf8::encode_utf8;
use crate::diagnostics::Span;
use crate::lexer::{byte_offset, char_width, chars_of, lemma_byte_offset_step};
use crate::render::lemma_byte_offset_ge;

verus! {

/// The number of UTF-16 code units of a character.
pub open spec fn utf16_width(c: char) -> int {
    if (c as u32) < 0x10000 { 1 } else { 2 }
}

/// The position reached from character `i` (at `line`, `col`) by
/// consuming every whole character that ends at or before byte `o`.
pub open spec fn position_from(cs: Seq<char>, i: int, o: int, line: int, col: int) -> (int, int)
    decreases cs.len() - i,
{
    if i < 0 || i >= cs.len() || byte_offset(cs, i + 1) > o {
        (line, col)
    } else if cs[i] == '\n' {
        position_from(cs, i + 1, o, line + 1, 0)
    } else {
        position_from(cs, i + 1, o, line, col + utf16_width(cs[i]))
    }
}

/// The zero-based line and UTF-16 column of byte `offset` in `cs`: offsets
/// past the end count as the end, and offsets inside a character as its
/// start.
pub open spec fn position_of(cs: Seq<char>, offset: int) -> (int, int) {
    let len = encode_utf8(cs).len() as int;
    position_from(cs, 0, if offset < len { offset } else { len }, 0, 0)
}

/// A zero-based position in a text document: a line and a column counted
/// in UTF-16 code units.
#[derive(Debug, Clone, Copy, PartialEq, Eq, Structural)]
pub struct Position {
    /// Zero-based line.
    pub line: u32,
    /// Zero-based UTF-16 column.
    pub character: u32,
}

impl Position {
    /// A position at `line` and `character`.
    pub fn new(line: u32, character: u32) -> (r: Position)
        ensures
            r.line == line,
            r.character == character,
    {
        Position { line, character }
    }
}

/// A range in a text document, from `start` to `end`.
#[derive(Debug, Clone, Copy, PartialEq, Eq, Structural)]
pub struct Range {
    /// Start position (inclusive).
    pub start: Position,
    /// End position (exclusive).
    pub end: Position,
}

impl Range {
    /// The range from `start` to `end`.
    pub fn new(start: Position, end: Position) -> (r: Range)
        ensures
            r.start == start,
            r.end == end,
    {
        Range { start, end }
    }
}

/// The editor position of byte `offset` in `cs`, each coordinate truncated
/// to 32 bits.
pub open spec fn position_at(cs: Seq<char>, offset: int) -> Position {
    Position { line: position_of(cs, offset).0 as u32, character: position_of(cs, offset).1 as u32 }
}

/// The editor range of `span` in `cs`.
pub open spec fn range_of(cs: Seq<char>, span: Span) -> Range {
    Range { start: position_at(cs, span.start as int), end: position_at(cs, span.end as int) }
}

/// A line index over a source text.
pub struct LineIndex {
    chars: Vec<char>,
    len: usize,
}

impl LineIndex {
    #[verifier::type_invariant]
    spec fn inv(&self) -> bool {
        &&& self.len == encode_utf8(self.chars@).len()
        &&& encode_utf8(self.chars@).len() < usize::MAX
    }

    /// The characters of the indexed text.
    pub closed spec fn text(&self) -> Seq<char> {
        self.chars@
    }

    /// Build a line index from source text.
    pub fn new(source: &str) -> (r: LineIndex)
        requires
            encode_utf8(source@).len() < usize::MAX,
        ensures
            r.text() == source@,
    {
        LineIndex { chars: chars_of(source), len: source.len() }
    }

    /// Convert a byte offset to a zero-based position (line, UTF-16 column).
    /// An offset past the end of the text is clamped to the end, and one
    /// inside a character moves back to that character's start.
    pub fn offset_to_position(&self, offset: usize) -> (r: Position)
        ensures
            r == position_at(self.text(), offset as int),
    {
        proof { use_type_invariant(self); }
        let ghost cs = self.chars@;
        let o = if offset < self.len { offset } else { self.len };
        let mut line: usize = 0;
        let mut col: usize = 0;
        let mut b: usize = 0;
        let mut i: usize = 0;
        proof {
            assert(cs.subrange(0, 0) =~= Seq::<char>::empty());
            assert(encode_utf8(Seq::<char>::empty()) =~= Seq::<u8>::empty());
        }
        while i < self.chars.len()
            invariant
                cs == self.chars@,
                encode_utf8(cs).len() < usize::MAX,
                i <= cs.len(),
                b == byte_offset(cs, i as int),
                line <= b,
                col <= b,
                position_of(cs, offset as int) == position_from(cs, i as int, o as int, line as int, col as int),
                o as int == (if (offset as int) < encode_utf8(cs).len() { offset as int } else { encode_utf8(cs).len() as int }),
            ensures
                position_of(cs, offset as int) == (line as int, col as int),
            decreases cs.len() - i,
        {
            let c = self.chars[i];
            proof {
                lemma_byte_offset_step(cs, i as int);
                lemma_byte_offset_ge(cs, i + 1);
            }
            let w = char_bytes(c);
            if b + w > o {
                break;
            }
            if c == '\n' {
                line = line + 1;
                col = 0;
            } else {
                col = col + if (c as u32) < 0x10000 { 1 } else { 2 };
            }
            b = b + w;
            i = i + 1;
        }
        Position { line: line as u32, character: col as u32 }
    }

    /// Convert a span to the range between the positions of its ends.
    pub fn span_to_range(&self, span: Span) -> (r: Range)
        ensures
            r == range_of(self.text(), span),
    {
        Range { start: self.offset_to_position(span.start), end: self.offset_to_position(span.end) }
    }
}

/// The number of UTF-8 bytes of a character.
fn char_bytes(c: char) -> (r: usize)
    ensures
        r == char_width(c),
{
    let v = c as u32;
    if v <= 0x7f { 1 } else if v <= 0x7ff { 2 } else if v <= 0xffff { 3 } else { 4 }
}


/// Offset zero is line 0, column 0.
pub proof fn lemma_position_origin(cs: Seq<char>)
    ensures
        position_of(cs, 0) == (0int, 0int),
{
    if cs.len() > 0 {
        lemma_byte_offset_step(cs, 0);
        lemma_byte_offset_ge(cs, 0);
    }
}

} // verus!
