//! Line and column bookkeeping.
//!
//! A position walk treats carriage return, line feed, and the pair of the
//! two as one logical line boundary each. The walk carries a flag that
//! remembers a carriage return seen last, so a line feed directly after it
//! does not count a second boundary even across token borders. Lines and
//! columns saturate at the machine limit instead of wrapping.

use vstd::prelude::*;

verus! {

/// A 1-based line/column position, plus the pending carriage-return flag.
#[derive(Debug, Clone, Copy, PartialEq, Eq, Structural)]
pub struct TextPosition {
    /// Current line, 1-based.
    pub line: usize,
    /// Current column, 1-based.
    pub column: usize,
    /// Whether the character consumed last was a carriage return.
    pub cr_pending: bool,
}

/// One saturating increment.
pub open spec fn spec_bump(n: usize) -> usize {
    if n == usize::MAX {
        n
    } else {
        (n + 1) as usize
    }
}

/// The position after consuming one character at `p`.
pub open spec fn spec_advance_char(p: TextPosition, c: char) -> TextPosition {
    if c == '\n' {
        if p.cr_pending {
            TextPosition { line: p.line, column: 1, cr_pending: false }
        } else {
            TextPosition { line: spec_bump(p.line), column: 1, cr_pending: false }
        }
    } else if c == '\r' {
        TextPosition { line: spec_bump(p.line), column: 1, cr_pending: true }
    } else {
        TextPosition { line: p.line, column: spec_bump(p.column), cr_pending: false }
    }
}

/// The reference single-pass walk: the position after consuming `s` at `p`.
pub open spec fn spec_walk(p: TextPosition, s: Seq<char>) -> TextPosition
    decreases s.len(),
{
    if s.len() == 0 {
        p
    } else {
        spec_walk(spec_advance_char(p, s[0]), s.skip(1))
    }
}

/// Walking a concatenation equals walking its parts one after the other.
pub proof fn lemma_walk_concat(p: TextPosition, a: Seq<char>, b: Seq<char>)
    ensures
        spec_walk(p, a + b) == spec_walk(spec_walk(p, a), b),
    decreases a.len(),
{
    if a.len() == 0 {
        assert(a + b == b);
    } else {
        assert((a + b).skip(1) == a.skip(1) + b);
        lemma_walk_concat(spec_advance_char(p, a[0]), a.skip(1), b);
    }
}

/// The walk keeps lines and columns 1-based: starting from a valid
/// position, every position it yields is valid too.
pub proof fn lemma_walk_keeps_positive(p: TextPosition, s: Seq<char>)
    requires
        p.line >= 1,
        p.column >= 1,
    ensures
        spec_walk(p, s).line >= 1,
        spec_walk(p, s).column >= 1,
    decreases s.len(),
{
    if s.len() > 0 {
        lemma_walk_keeps_positive(spec_advance_char(p, s[0]), s.skip(1));
    }
}

/// One saturating increment, executable.
pub fn bump(n: usize) -> (r: usize)
    ensures
        r == spec_bump(n),
{
    if n == usize::MAX {
        n
    } else {
        n + 1
    }
}

/// Advances a position over the first `n` characters of `cs`.
pub fn advance_over(p: TextPosition, cs: &[char], n: usize) -> (r: TextPosition)
    requires
        n <= cs@.len(),
    ensures
        r == spec_walk(p, cs@.take(n as int)),
{
    let mut pos = p;
    let mut i: usize = 0;
    while i < n
        invariant
            i <= n,
            n <= cs@.len(),
            pos == spec_walk(p, cs@.take(i as int)),
        decreases n - i,
    {
        let c = cs[i];
        let next = if c == '\n' {
            if pos.cr_pending {
                TextPosition { line: pos.line, column: 1, cr_pending: false }
            } else {
                TextPosition { line: bump(pos.line), column: 1, cr_pending: false }
            }
        } else if c == '\r' {
            TextPosition { line: bump(pos.line), column: 1, cr_pending: true }
        } else {
            TextPosition { line: pos.line, column: bump(pos.column), cr_pending: false }
        };
        proof {
            assert(next == spec_advance_char(pos, c));
            lemma_walk_concat(p, cs@.take(i as int), seq![c]);
            assert(cs@.take(i as int) + seq![c] =~= cs@.take((i + 1) as int));
            assert(seq![c].skip(1) =~= Seq::<char>::empty());
            assert(seq![c][0] == c);
            assert(spec_walk(spec_advance_char(pos, c), seq![c].skip(1)) == spec_advance_char(
                pos,
                c,
            ));
            assert(spec_walk(pos, seq![c]) == spec_walk(
                spec_advance_char(pos, c),
                seq![c].skip(1),
            ));
        }
        pos = next;
        i = i + 1;
    }
    proof {
        assert(cs@.take(n as int) == cs@.take(n as int));
    }
    pos
}

} // verus!
