//! The integer lattice on which tiles and cells are placed.

use vstd::prelude::*;
use vstd::std_specs::ops::{AddSpecImpl, SubSpecImpl};

verus! {

/// The position of a tile or of a cell on the lattice.
///
/// Two offsets are the same position exactly when both coordinates agree;
/// offsets are ordered by `x` first and by `y` second.
#[derive(Clone, Copy, Debug, PartialEq, Eq, Structural, PartialOrd, Ord, Hash)]
pub struct Offset {
    pub x: isize,
    pub y: isize,
}

/// The number of values that one coordinate is packed into by [`Offset::rank`].
pub open spec fn rank_stride() -> int {
    0x1_0000_0000_0000_0000
}

/// Whether a lattice position can be held in an `Offset`.
pub open spec fn representable(at: (int, int)) -> bool {
    isize::MIN <= at.0 <= isize::MAX && isize::MIN <= at.1 <= isize::MAX
}

/// The lattice position of an offset.
pub open spec fn position_of(o: Offset) -> (int, int) {
    (o.x as int, o.y as int)
}

impl Offset {
    /// The rank of this offset in the order of the lattice: smaller `x` comes
    /// first, and among equal `x` smaller `y` comes first.
    pub open spec fn rank(self) -> int {
        self.x * rank_stride() + (self.y + 0x8000_0000_0000_0000)
    }

    /// Whether `self` comes strictly before `other` in the order of the lattice.
    pub open spec fn precedes(self, other: Offset) -> bool {
        self.x < other.x || (self.x == other.x && self.y < other.y)
    }

    /// The offset that every tile is counted from.
    pub fn origin() -> (o: Offset)
        ensures
            o.x == 0,
            o.y == 0,
    {
        Offset { x: 0, y: 0 }
    }

    /// Decides `precedes`.
    pub fn before(&self, other: &Offset) -> (b: bool)
        ensures
            b == self.precedes(*other),
    {
        self.x < other.x || (self.x == other.x && self.y < other.y)
    }

    /// Computes `rank`.
    pub fn key(&self) -> (k: i128)
        ensures
            k == self.rank(),
    {
        (self.x as i128) * 0x1_0000_0000_0000_0000i128 + ((self.y as i128) + 0x8000_0000_0000_0000i128)
    }
}

/// Ranks identify offsets, and they order offsets as `precedes` does.
pub proof fn lemma_rank_orders(a: Offset, b: Offset)
    ensures
        a.rank() == b.rank() <==> a == b,
        a.rank() < b.rank() <==> a.precedes(b),
{
}

impl core::ops::Add for Offset {
    type Output = Offset;

    fn add(self, other: Offset) -> (sum: Offset) {
        Offset { x: self.x + other.x, y: self.y + other.y }
    }
}

impl AddSpecImpl for Offset {
    open spec fn obeys_add_spec() -> bool {
        true
    }

    open spec fn add_req(self, other: Offset) -> bool {
        &&& isize::MIN <= self.x + other.x <= isize::MAX
        &&& isize::MIN <= self.y + other.y <= isize::MAX
    }

    open spec fn add_spec(self, other: Offset) -> Offset {
        Offset { x: (self.x + other.x) as isize, y: (self.y + other.y) as isize }
    }
}

impl core::ops::Sub for Offset {
    type Output = Offset;

    fn sub(self, other: Offset) -> (difference: Offset) {
        Offset { x: self.x - other.x, y: self.y - other.y }
    }
}

impl SubSpecImpl for Offset {
    open spec fn obeys_sub_spec() -> bool {
        true
    }

    open spec fn sub_req(self, other: Offset) -> bool {
        &&& isize::MIN <= self.x - other.x <= isize::MAX
        &&& isize::MIN <= self.y - other.y <= isize::MAX
    }

    open spec fn sub_spec(self, other: Offset) -> Offset {
        Offset { x: (self.x - other.x) as isize, y: (self.y - other.y) as isize }
    }
}

} // verus!
