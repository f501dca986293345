//! Free byte ranges of the buffer.

use vstd::prelude::*;

verus! {

/// A half-open byte range `[from, to)` that is free for reuse.
#[derive(Clone, Copy, Debug, PartialEq, Eq, Structural)]
pub struct Hole {
    pub from: usize,
    pub to: usize,
}

impl Hole {
    /// The number of bytes in the range.
    pub open spec fn span(self) -> int {
        self.to - self.from
    }

    /// Whether byte offset `at` lies in the range.
    pub open spec fn covers(self, at: int) -> bool {
        self.from <= at < self.to
    }

    /// The number of bytes in the range.
    pub fn len(&self) -> (n: usize)
        requires
            self.from <= self.to,
        ensures
            n == self.span(),
    {
        self.to - self.from
    }

    /// The unbounded hole: everything from offset 0 up to the largest offset.
    pub fn everything() -> (h: Hole)
        ensures
            h == (Hole { from: 0, to: usize::MAX }),
    {
        Hole { from: 0, to: usize::MAX }
    }
}

} // verus!
