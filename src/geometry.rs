use vstd::prelude::*;

verus! {

/// An axis-aligned rectangle in surface pixels, given by its corners:
/// `min` inclusive, `max` exclusive.
#[derive(Clone, Copy, Debug, PartialEq, Eq, Structural)]
pub struct Rect {
    pub min_x: i32,
    pub min_y: i32,
    pub max_x: i32,
    pub max_y: i32,
}

impl Rect {
    pub open spec fn width(self) -> int {
        self.max_x - self.min_x
    }

    pub open spec fn height(self) -> int {
        self.max_y - self.min_y
    }

    /// The rectangle lies inside the square `[0, side) x [0, side)`.
    pub open spec fn within(self, side: int) -> bool {
        0 <= self.min_x <= self.max_x <= side && 0 <= self.min_y <= self.max_y <= side
    }

    /// Both rectangles cover at least one common pixel.
    pub open spec fn overlaps(self, other: Rect) -> bool {
        self.min_x < other.max_x && other.min_x < self.max_x && self.min_y < other.max_y
            && other.min_y < self.max_y
    }

    /// Whether both rectangles cover at least one common pixel.
    pub fn overlaps_rect(&self, other: &Rect) -> (r: bool)
        ensures
            r == self.overlaps(*other),
    {
        self.min_x < other.max_x && other.min_x < self.max_x && self.min_y < other.max_y
            && other.min_y < self.max_y
    }
}

/// No two distinct entries of `live` cover a common pixel.
pub open spec fn pairwise_disjoint(live: Map<u32, Rect>) -> bool {
    forall|a: u32, b: u32|
        #![trigger live[a], live[b]]
        live.contains_key(a) && live.contains_key(b) && a != b ==> !live[a].overlaps(live[b])
}

/// Every entry of `live` lies inside the square of side `side`.
pub open spec fn all_within(live: Map<u32, Rect>, side: int) -> bool {
    forall|a: u32| #[trigger] live.contains_key(a) ==> live[a].within(side)
}

} // verus!
