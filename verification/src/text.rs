//! Line/column positions and half-open text ranges.

use vstd::prelude::*;

verus! {

/// A position in a text file: a 1-based line number and a 0-based character
/// offset within that line.
#[derive(Clone, Copy, Debug, PartialEq, Eq, Structural)]
pub struct Loc {
    pub line: usize,
    pub column: usize,
}

impl Loc {
    /// A location is well formed when its line number is 1-based.
    pub open spec fn wf(self) -> bool {
        self.line >= 1
    }

    pub fn new(line: usize, column: usize) -> (r: Loc)
        ensures
            r == (Loc { line, column }),
    {
        Loc { line, column }
    }
}

/// A half-open text range: `start` is the first position inside the range,
/// `end` the first position after it.
#[derive(Clone, Copy, Debug, PartialEq, Eq, Structural)]
pub struct Span {
    pub start: Loc,
    pub end: Loc,
}

impl Span {
    pub open spec fn wf(self) -> bool {
        self.start.wf() && self.end.wf()
    }

    /// A span stays within one line when both of its ends share that line.
    pub open spec fn single_line(self) -> bool {
        self.start.line == self.end.line
    }

    pub fn new(start: Loc, end: Loc) -> (r: Span)
        ensures
            r == (Span { start, end }),
    {
        Span { start, end }
    }
}

} // verus!
