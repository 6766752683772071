//! A single contribution to a symmetric matrix, and what a list of them says
//! about each coordinate.

use vstd::prelude::*;

verus! {

/// One coefficient: row `x`, column `y`, and the binary64 pattern `v` of its
/// value. `(x, y, v)` and `(y, x, v)` describe the same coefficient.
#[derive(Debug, Clone, Copy)]
pub struct Entry {
    pub x: usize,
    pub y: usize,
    pub v: u64,
}

impl Entry {
    /// The orientation with the smaller index as the row.
    pub open spec fn canonical(self) -> Entry {
        if self.x <= self.y {
            self
        } else {
            Entry { x: self.y, y: self.x, v: self.v }
        }
    }

    /// The same coefficient seen from the other side of the diagonal.
    pub open spec fn mirrored(self) -> Entry {
        Entry { x: self.y, y: self.x, v: self.v }
    }

    /// Whether the entry lies on the diagonal.
    pub open spec fn diagonal(self) -> bool {
        self.x == self.y
    }

    /// Whether the entry names the coordinate `(i, j)` in either orientation.
    pub open spec fn touches(self, i: int, j: int) -> bool {
        (self.x == i && self.y == j) || (self.x == j && self.y == i)
    }

    /// Whether the entry sits exactly at row `r`, column `c`.
    pub open spec fn at(self, r: int, c: int) -> bool {
        self.x == r && self.y == c
    }

    /// Row-major order on coordinates, strict.
    pub open spec fn before(self, other: Entry) -> bool {
        self.x < other.x || (self.x == other.x && self.y < other.y)
    }

    /// Row-major order on coordinates, allowing equal coordinates.
    pub open spec fn not_after(self, other: Entry) -> bool {
        self.x < other.x || (self.x == other.x && self.y <= other.y)
    }

    /// Reorients the entry so that its row is the smaller of its two indices.
    pub fn lower_triangle(&self) -> (r: Entry)
        ensures
            r == self.canonical(),
            r.x <= r.y,
            r.touches(self.x as int, self.y as int),
            r.v == self.v,
    {
        if self.x <= self.y {
            Entry { x: self.x, y: self.y, v: self.v }
        } else {
            Entry { x: self.y, y: self.x, v: self.v }
        }
    }

    /// Swaps row and column.
    pub fn symmetric(&self) -> (r: Entry)
        ensures
            r == self.mirrored(),
    {
        Entry { x: self.y, y: self.x, v: self.v }
    }

    /// Strict row-major comparison of coordinates; values play no part.
    pub fn precedes(&self, other: &Entry) -> (r: bool)
        ensures
            r == self.before(*other),
    {
        self.x < other.x || (self.x == other.x && self.y < other.y)
    }

    /// Whether two entries sit at the same row and column.
    pub fn same_place(&self, other: &Entry) -> (r: bool)
        ensures
            r == (self.x == other.x && self.y == other.y),
    {
        self.x == other.x && self.y == other.y
    }
}

/// The values that `entries` give for the coordinate `{i, j}`, in the order
/// in which they are given. Orientation is ignored.
pub open spec fn claims(entries: Seq<Entry>, i: int, j: int) -> Seq<u64>
    decreases entries.len(),
{
    if entries.len() == 0 {
        Seq::empty()
    } else if entries.last().touches(i, j) {
        claims(entries.drop_last(), i, j).push(entries.last().v)
    } else {
        claims(entries.drop_last(), i, j)
    }
}

/// The value that `entries` give first for the coordinate `{i, j}`, if any.
pub open spec fn first_claim(entries: Seq<Entry>, i: int, j: int) -> Option<u64> {
    let given = claims(entries, i, j);
    if given.len() > 0 {
        Some(given[0])
    } else {
        None
    }
}

/// The largest index that `entries` mention, or -1 when there is none.
pub open spec fn max_index(entries: Seq<Entry>) -> int
    decreases entries.len(),
{
    if entries.len() == 0 {
        -1
    } else {
        let rest = max_index(entries.drop_last());
        let e = entries.last();
        let top: int = if e.x <= e.y { e.y as int } else { e.x as int };
        if rest <= top { top } else { rest }
    }
}

/// No two entries of the list name the same coordinate, in whichever
/// orientation.
pub open spec fn distinct_coordinates(entries: Seq<Entry>) -> bool {
    forall|a: int, b: int|
        0 <= a < b < entries.len() ==> !(#[trigger] entries[a]).touches(
            (#[trigger] entries[b]).x as int,
            entries[b].y as int,
        )
}

} // verus!
