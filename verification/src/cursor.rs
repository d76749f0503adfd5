//! The bit cursor: the running position in a byte stream, kept as a byte
//! offset together with the number of bits still unused in that byte.

use vstd::prelude::*;

verus! {

/// Position in a byte stream. `avail` counts the bits of the byte at
/// `byte` that have not been consumed or produced yet; it is always
/// between 1 and 8, and equals 8 exactly when the cursor sits on a byte
/// boundary.
#[derive(Debug, PartialEq, Eq, Structural, Clone, Copy)]
pub struct BitCursor {
    pub byte: usize,
    pub avail: usize,
}

impl BitCursor {
    /// The cursor is in its legal range.
    pub open spec fn wf(self) -> bool {
        1 <= self.avail <= 8
    }

    /// The absolute bit position: bits consumed so far.
    pub open spec fn pos(self) -> int {
        8 * self.byte + 8 - self.avail
    }

    /// The cursor sits on a byte boundary.
    pub open spec fn aligned(self) -> bool {
        self.avail == 8
    }

    /// A cursor at the start of a stream.
    pub fn new() -> (c: BitCursor)
        ensures
            c.wf(),
            c.pos() == 0,
            c.aligned(),
            c.byte == 0,
    {
        BitCursor { byte: 0, avail: 8 }
    }

    /// Bits left in the current byte; never 0.
    pub fn remaining(&self) -> (r: usize)
        requires
            self.wf(),
        ensures
            r == self.avail,
            1 <= r <= 8,
    {
        self.avail
    }
}

} // verus!
