//! A matrix written out as one-based `(row, column, value)` triplets, the
//! form in which numerical tools take a sparse matrix.

use vstd::prelude::*;

verus! {

/// Three parallel lists: the one-based row, the one-based column and the
/// binary64 pattern of every stored coefficient.
#[derive(Debug, Clone, PartialEq, Eq)]
pub struct Triplets {
    pub rows: Vec<usize>,
    pub columns: Vec<usize>,
    pub values: Vec<u64>,
}

impl View for Triplets {
    type V = Seq<(int, int, u64)>;

    open spec fn view(&self) -> Seq<(int, int, u64)> {
        Seq::new(
            self.rows@.len(),
            |k: int| (self.rows@[k] as int, self.columns@[k] as int, self.values@[k]),
        )
    }
}

impl Triplets {
    /// The three lists are equally long.
    pub open spec fn parallel(&self) -> bool {
        self.rows@.len() == self.columns@.len() && self.rows@.len() == self.values@.len()
    }
}

/// The triplets of row `i`, in stored order.
pub open spec fn row_triplets(i: int, row: Seq<(usize, u64)>) -> Seq<(int, int, u64)> {
    Seq::new(row.len(), |t: int| (i + 1, row[t].0 + 1, row[t].1))
}

/// The triplets of all rows, row after row.
pub open spec fn triplets_of(rows: Seq<Seq<(usize, u64)>>) -> Seq<(int, int, u64)>
    decreases rows.len(),
{
    if rows.len() == 0 {
        Seq::empty()
    } else {
        triplets_of(rows.drop_last()) + row_triplets(rows.len() - 1, rows.last())
    }
}

} // verus!
