//! Canonical storage of a symmetric sparse matrix: one row per index, each
//! row holding its columns in increasing order beside their values.

use vstd::prelude::*;
use crate::binary64::{finite, is_finite};
use crate::canonical::{
    combine, extent, lemma_claims_carry_over, lemma_claims_source, lemma_claims_symmetric,
    lemma_combined_values, lemma_max_index_bounds, lemma_max_index_monotone,
};
use crate::entry::{claims, distinct_coordinates, first_claim, max_index, Entry};
use crate::rows::{
    canonical, find_column, increasing, lemma_canonical_rows_equal, lemma_row_of_increasing,
    lemma_row_of_member, lemma_row_of_push, lemma_row_of_source, pairs, row_of, stored,
    symmetric, within,
};
use crate::triplets::{row_triplets, triplets_of, Triplets};
use crate::sorting::{
    dedup, head, lemma_values_at_present, lemma_values_at_source, stable_sort, strictly_sorted,
    values_at,
};

verus! {

/// A square symmetric sparse matrix.
///
/// `indices[i]` lists the columns stored in row `i` and `values[i]` the
/// binary64 patterns found there. `length` is the largest index, so the
/// matrix has `length + 1` rows; the matrix without any row has `length`
/// zero and empty `indices`.
pub struct SparseSymmetricMatrix {
    pub length: usize,
    pub indices: Vec<Vec<usize>>,
    pub values: Vec<Vec<u64>>,
}

impl View for SparseSymmetricMatrix {
    type V = Seq<Seq<(usize, u64)>>;

    /// Row by row, the `(column, value)` pairs in stored order.
    open spec fn view(&self) -> Seq<Seq<(usize, u64)>> {
        Seq::new(self.indices@.len(), |i: int| pairs(self.indices@[i]@, self.values@[i]@))
    }
}

impl SparseSymmetricMatrix {
    /// The number of rows, which is also the number of columns.
    pub open spec fn dimension(&self) -> nat {
        self.indices@.len()
    }

    /// Columns and values run in parallel, and `length` agrees with the
    /// number of rows.
    pub open spec fn parallel(&self) -> bool {
        &&& self.values@.len() == self.indices@.len()
        &&& forall|i: int|
            0 <= i < self.indices@.len() ==> (#[trigger] self.values@[i])@.len()
                == self.indices@[i]@.len()
        &&& self.length == if self.indices@.len() == 0 {
            0
        } else {
            self.indices@.len() - 1
        }
    }

    /// The representation invariant: parallel rows, increasing columns
    /// inside the square, and symmetry.
    pub open spec fn well_formed(&self) -> bool {
        &&& self.parallel()
        &&& canonical(self@)
        &&& symmetric(self@)
    }

    /// Every stored pattern encodes a finite number.
    pub open spec fn all_finite(&self) -> bool {
        forall|i: int, t: int|
            0 <= i < self.values@.len() && 0 <= t < self.values@[i]@.len() ==> finite(
                #[trigger] self.values@[i]@[t],
            )
    }

    /// The matrix is the canonical form of `entries`: it is as large as the
    /// largest index demands, and at every coordinate it stores the value
    /// that the entries give first for it, in whichever orientation.
    pub open spec fn represents(&self, entries: Seq<Entry>) -> bool {
        &&& self.well_formed()
        &&& self.dimension() == 1 + max_index(entries)
        &&& forall|i: int, j: int, v: u64| #[trigger]
            stored(self@, i, j, v) <==> first_claim(entries, i, j) == Some(v)
    }

    /// Builds the canonical matrix of `entries`.
    ///
    /// Every entry is taken in both orientations. Where several entries name
    /// one coordinate, the first of them in `entries` gives the value and
    /// the later ones are dropped. No entries give the matrix without rows.
    /// An index must leave room for the row count to be a `usize`.
    pub fn new(entries: &[Entry]) -> (m: SparseSymmetricMatrix)
        requires
            forall|k: int|
                0 <= k < entries@.len() ==> (#[trigger] entries@[k]).x < usize::MAX
                    && entries@[k].y < usize::MAX,
        ensures
            m.represents(entries@),
            m.dimension() == 1 + max_index(entries@),
            symmetric(m@),
            forall|i: int, j: int, v: u64| #[trigger]
                stored(m@, i, j, v) <==> first_claim(entries@, i, j) == Some(v),
            entries@.len() > 0 ==> m.length == max_index(entries@),
            entries@.len() == 0 ==> m.length == 0 && m.dimension() == 0,
    {
        let n: usize = extent(entries);
        let merged: Vec<Entry> = combine(entries);
        let ordered: Vec<Entry> = stable_sort(&merged);
        let kept: Vec<Entry> = dedup(&ordered);
        proof {
            assert forall|r: int, c: int| #[trigger]
                values_at(kept@, r, c) == head(claims(entries@, r, c)) by {
                lemma_combined_values(entries@, r, c);
                assert(values_at(ordered@, r, c) == values_at(merged@, r, c));
            }
            lemma_kept_bounded(entries@, kept@);
        }
        let mut indices: Vec<Vec<usize>> = Vec::new();
        let mut values: Vec<Vec<u64>> = Vec::new();
        let mut i: usize = 0;
        while i < n
            invariant
                i <= n,
                indices@.len() == i,
                values@.len() == i,
                forall|r: int| 0 <= r < i ==> (#[trigger] indices@[r])@.len() == 0,
                forall|r: int| 0 <= r < i ==> (#[trigger] values@[r])@.len() == 0,
            decreases n - i,
        {
            indices.push(Vec::new());
            values.push(Vec::new());
            i = i + 1;
        }
        let mut k: usize = 0;
        proof {
            assert forall|r: int| 0 <= r < n implies pairs(
                (#[trigger] indices@[r])@,
                values@[r]@,
            ) == row_of(kept@.take(0), r) by {
                assert(pairs(indices@[r]@, values@[r]@) =~= row_of(kept@.take(0), r));
            }
        }
        while k < kept.len()
            invariant
                k <= kept@.len(),
                indices@.len() == n,
                values@.len() == n,
                forall|q: int|
                    0 <= q < kept@.len() ==> (#[trigger] kept@[q]).x < n && kept@[q].y < n,
                forall|r: int|
                    0 <= r < n ==> (#[trigger] indices@[r])@.len() == values@[r]@.len(),
                forall|r: int|
                    0 <= r < n ==> pairs((#[trigger] indices@[r])@, values@[r]@) == row_of(
                        kept@.take(k as int),
                        r,
                    ),
            decreases kept@.len() - k,
        {
            let e: Entry = kept[k];
            let ghost columns_before = indices@;
            let ghost values_before = values@;
            indices[e.x].push(e.y);
            values[e.x].push(e.v);
            proof {
                assert(kept@.take(k + 1) =~= kept@.take(k as int).push(e));
                assert forall|r: int| 0 <= r < n implies pairs(
                    (#[trigger] indices@[r])@,
                    values@[r]@,
                ) == row_of(kept@.take(k + 1), r) by {
                    lemma_row_of_push(kept@.take(k as int), e, r);
                    assert(pairs(columns_before[r]@, values_before[r]@) == row_of(
                        kept@.take(k as int),
                        r,
                    ));
                    if r == e.x {
                        assert(pairs(indices@[r]@, values@[r]@) =~= pairs(
                            columns_before[r]@,
                            values_before[r]@,
                        ).push((e.y, e.v)));
                    } else {
                        assert(indices@[r] == columns_before[r]);
                        assert(values@[r] == values_before[r]);
                    }
                }
            }
            k = k + 1;
        }
        let length: usize = if n == 0 {
            0
        } else {
            n - 1
        };
        let m = SparseSymmetricMatrix { length, indices, values };
        proof {
            assert(kept@.take(k as int) =~= kept@);
            assert(m@ =~= Seq::new(n as nat, |r: int| row_of(kept@, r)));
            lemma_rows_represent(entries@, kept@, m@);
            if entries@.len() == 0 {
                assert(max_index(entries@) == -1);
            } else {
                lemma_max_index_bounds(entries@, 0);
            }
        }
        m
    }

    /// The number of rows, which is also the number of columns.
    pub fn len(&self) -> (n: usize)
        ensures
            n == self.dimension(),
    {
        self.indices.len()
    }

    /// The value stored at row `i`, column `j`, if any.
    pub fn get(&self, i: usize, j: usize) -> (out: Option<u64>)
        requires
            self.well_formed(),
        ensures
            match out {
                Some(v) => stored(self@, i as int, j as int, v),
                None => forall|v: u64| !stored(self@, i as int, j as int, v),
            },
    {
        if i >= self.indices.len() {
            return None;
        }
        proof {
            assert(self.values@[i as int]@.len() == self.indices@[i as int]@.len());
        }
        let ghost row = self@[i as int];
        match find_column(&self.indices[i], j) {
            Some(t) => {
                let v: u64 = self.values[i][t];
                proof {
                    assert(row[t as int] == (j, v));
                }
                Some(v)
            },
            None => {
                proof {
                    assert forall|v: u64| !stored(self@, i as int, j as int, v) by {
                        if stored(self@, i as int, j as int, v) {
                            let t = choose|t: int|
                                0 <= t < row.len() && (#[trigger] row[t]).0 == j && row[t].1 == v;
                            assert(self.indices@[i as int]@[t] == j);
                        }
                    }
                }
                None
            },
        }
    }

    /// Row `i` has as many values as columns, and its columns increase and
    /// stay inside the square.
    pub open spec fn row_in_shape(&self, i: int) -> bool {
        &&& self.values@[i]@.len() == self.indices@[i]@.len()
        &&& increasing(self@[i])
        &&& within(self@[i], self.indices@.len() as int)
    }

    /// What row `i` stores at position `t` is stored at the mirrored
    /// coordinate too.
    pub open spec fn mirrored(&self, i: int, t: int) -> bool {
        stored(self@, self@[i][t].0 as int, i, self@[i][t].1)
    }

    /// Tells whether row `i` is in shape.
    fn check_row(&self, i: usize) -> (r: bool)
        requires
            i < self.indices@.len(),
            self.values@.len() == self.indices@.len(),
        ensures
            r == self.row_in_shape(i as int),
    {
        let n: usize = self.indices.len();
        let columns: &Vec<usize> = &self.indices[i];
        if self.values[i].len() != columns.len() {
            return false;
        }
        let ghost row = self@[i as int];
        let mut t: usize = 0;
        while t < columns.len()
            invariant
                t <= columns@.len(),
                columns@ == self.indices@[i as int]@,
                row == self@[i as int],
                row.len() == columns@.len(),
                n == self.indices@.len(),
                forall|u: int| 0 <= u < row.len() ==> (#[trigger] row[u]).0 == columns@[u],
                forall|u: int| 0 <= u < t ==> (#[trigger] row[u]).0 < n,
                forall|a: int, b: int|
                    0 <= a < b < t ==> (#[trigger] row[a]).0 < (#[trigger] row[b]).0,
            decreases columns@.len() - t,
        {
            if columns[t] >= n {
                proof {
                    assert(row[t as int].0 >= n);
                }
                return false;
            }
            if t > 0 && columns[t - 1] >= columns[t] {
                proof {
                    assert(row[t - 1].0 >= row[t as int].0);
                }
                return false;
            }
            proof {
                assert forall|a: int, b: int| 0 <= a < b < t + 1 implies (#[trigger] row[a]).0 < (
                #[trigger] row[b]).0 by {
                    if b == t && a < t - 1 {
                        assert(row[a].0 < row[t - 1].0);
                    }
                }
            }
            t = t + 1;
        }
        true
    }

    /// Tells whether what row `i` stores at position `t` is mirrored.
    fn check_mirror(&self, i: usize, t: usize) -> (r: bool)
        requires
            self.parallel(),
            canonical(self@),
            i < self.indices@.len(),
            t < self.indices@[i as int]@.len(),
        ensures
            r == self.mirrored(i as int, t as int),
    {
        let j: usize = self.indices[i][t];
        let v: u64 = self.values[i][t];
        proof {
            assert(self@[i as int][t as int] == (j, v));
            assert(within(self@[i as int], self.indices@.len() as int));
            assert(increasing(self@[j as int]));
            assert(self.values@[j as int]@.len() == self.indices@[j as int]@.len());
        }
        let ghost other = self@[j as int];
        match find_column(&self.indices[j], i) {
            Some(u) => {
                let w: u64 = self.values[j][u];
                proof {
                    assert(other[u as int] == (i, w));
                    if w != v && stored(self@, j as int, i as int, v) {
                        let q = choose|q: int|
                            0 <= q < other.len() && (#[trigger] other[q]).0 == i && other[q].1
                                == v;
                        if q < u {
                            assert(other[q].0 < other[u as int].0);
                        } else if u < q {
                            assert(other[u as int].0 < other[q].0);
                        }
                    }
                }
                w == v
            },
            None => {
                proof {
                    if stored(self@, j as int, i as int, v) {
                        let q = choose|q: int|
                            0 <= q < other.len() && (#[trigger] other[q]).0 == i && other[q].1
                                == v;
                        assert(self.indices@[j as int]@[q] == i);
                    }
                }
                false
            },
        }
    }

    /// Tells whether the matrix meets its representation invariant. A matrix
    /// that `new` built does; one assembled by hand may not.
    pub fn is_well_formed(&self) -> (r: bool)
        ensures
            r == self.well_formed(),
    {
        let n: usize = self.indices.len();
        if self.values.len() != n {
            return false;
        }
        if (n == 0 && self.length != 0) || (n > 0 && self.length != n - 1) {
            return false;
        }
        let mut i: usize = 0;
        while i < n
            invariant
                i <= n,
                n == self.indices@.len(),
                self.values@.len() == n,
                forall|r: int| 0 <= r < i ==> #[trigger] self.row_in_shape(r),
            decreases n - i,
        {
            if !self.check_row(i) {
                proof {
                    if self.well_formed() {
                        assert(self.values@[i as int]@.len() == self.indices@[i as int]@.len());
                        assert(increasing(self@[i as int]));
                    }
                }
                return false;
            }
            i = i + 1;
        }
        proof {
            assert forall|r: int| 0 <= r < n implies (#[trigger] self.values@[r])@.len()
                == self.indices@[r]@.len() by {
                assert(self.row_in_shape(r));
            }
            assert forall|r: int| 0 <= r < self@.len() implies increasing(#[trigger] self@[r])
                && within(self@[r], self@.len() as int) by {
                assert(self.row_in_shape(r));
            }
        }
        let mut i: usize = 0;
        while i < n
            invariant
                i <= n,
                n == self.indices@.len(),
                self.parallel(),
                canonical(self@),
                forall|a: int, t: int|
                    0 <= a < i && 0 <= t < self@[a].len() ==> #[trigger] self.mirrored(a, t),
            decreases n - i,
        {
            let width: usize = self.indices[i].len();
            let mut t: usize = 0;
            while t < width
                invariant
                    t <= width,
                    i < n,
                    n == self.indices@.len(),
                    width == self.indices@[i as int]@.len(),
                    width == self@[i as int].len(),
                    self.parallel(),
                    canonical(self@),
                    forall|u: int| 0 <= u < t ==> #[trigger] self.mirrored(i as int, u),
                decreases width - t,
            {
                if !self.check_mirror(i, t) {
                    proof {
                        let pair = self@[i as int][t as int];
                        assert(stored(self@, i as int, pair.0 as int, pair.1));
                    }
                    return false;
                }
                t = t + 1;
            }
            i = i + 1;
        }
        proof {
            assert forall|a: int, j: int, v: u64| #[trigger] stored(self@, a, j, v) implies stored(
                self@,
                j,
                a,
                v,
            ) by {
                let t = choose|t: int|
                    0 <= t < self@[a].len() && (#[trigger] self@[a][t]).0 == j && self@[a][t].1
                        == v;
                assert(self.mirrored(a, t));
            }
        }
        true
    }

    /// Writes the matrix out as one-based triplets, row after row.
    pub fn triplets(&self) -> (out: Triplets)
        requires
            self.well_formed(),
        ensures
            out.parallel(),
            out@ == triplets_of(self@),
    {
        let n: usize = self.indices.len();
        let mut out = Triplets { rows: Vec::new(), columns: Vec::new(), values: Vec::new() };
        let mut i: usize = 0;
        proof {
            assert(out@ =~= triplets_of(self@.take(0)));
        }
        while i < n
            invariant
                i <= n,
                n == self.indices@.len(),
                self.well_formed(),
                out.parallel(),
                out@ == triplets_of(self@.take(i as int)),
            decreases n - i,
        {
            let columns: &Vec<usize> = &self.indices[i];
            let coefficients: &Vec<u64> = &self.values[i];
            let ghost row = self@[i as int];
            let ghost done = triplets_of(self@.take(i as int));
            proof {
                assert(self.values@[i as int]@.len() == self.indices@[i as int]@.len());
                assert(within(row, n as int));
                assert(out@ =~= done + row_triplets(i as int, row.take(0)));
            }
            let mut t: usize = 0;
            while t < columns.len()
                invariant
                    t <= columns@.len(),
                    i < n,
                    columns@.len() == coefficients@.len(),
                    row == pairs(columns@, coefficients@),
                    within(row, n as int),
                    out.parallel(),
                    out@ == done + row_triplets(i as int, row.take(t as int)),
                decreases columns@.len() - t,
            {
                let ghost before = out@;
                proof {
                    assert(row[t as int].0 < n);
                }
                out.rows.push(i + 1);
                out.columns.push(columns[t] + 1);
                out.values.push(coefficients[t]);
                proof {
                    let item = (i + 1, row[t as int].0 + 1, row[t as int].1);
                    assert(out@ =~= before.push(item));
                    assert(row_triplets(i as int, row.take(t + 1)) =~= row_triplets(
                        i as int,
                        row.take(t as int),
                    ).push(item));
                    assert(before.push(item) =~= done + row_triplets(i as int, row.take(t + 1)));
                }
                t = t + 1;
            }
            proof {
                assert(row.take(t as int) =~= row);
                assert(self@.take(i + 1).drop_last() =~= self@.take(i as int));
                assert(self@.take(i + 1).last() == row);
            }
            i = i + 1;
        }
        proof {
            assert(self@.take(n as int) =~= self@);
        }
        out
    }

    /// Tells whether every stored coefficient is finite.
    pub fn is_valid(&self) -> (r: bool)
        ensures
            r == self.all_finite(),
    {
        let mut i: usize = 0;
        while i < self.values.len()
            invariant
                i <= self.values@.len(),
                forall|a: int, t: int|
                    0 <= a < i && 0 <= t < self.values@[a]@.len() ==> finite(
                        #[trigger] self.values@[a]@[t],
                    ),
            decreases self.values@.len() - i,
        {
            let row: &Vec<u64> = &self.values[i];
            let mut t: usize = 0;
            while t < row.len()
                invariant
                    t <= row@.len(),
                    i < self.values@.len(),
                    row@ == self.values@[i as int]@,
                    forall|u: int| 0 <= u < t ==> finite(#[trigger] row@[u]),
                decreases row@.len() - t,
            {
                if !is_finite(row[t]) {
                    return false;
                }
                t = t + 1;
            }
            i = i + 1;
        }
        true
    }
}

/// Construction is repeatable: a list of entries has one canonical matrix,
/// row by row and pattern by pattern.
pub proof fn lemma_canonical_form_unique(
    a: SparseSymmetricMatrix,
    b: SparseSymmetricMatrix,
    entries: Seq<Entry>,
)
    requires
        a.represents(entries),
        b.represents(entries),
    ensures
        a@ == b@,
        a.length == b.length,
{
    assert forall|i: int, j: int, v: u64| stored(a@, i, j, v) <==> stored(b@, i, j, v) by {
        assert(stored(a@, i, j, v) <==> first_claim(entries, i, j) == Some(v));
        assert(stored(b@, i, j, v) <==> first_claim(entries, i, j) == Some(v));
    }
    lemma_canonical_rows_equal(a@, b@);
}

/// Two lists that hold the same entries, neither naming a coordinate twice,
/// have the same canonical matrix: the order in which the entries are given
/// plays no part.
pub proof fn lemma_order_independent(
    a: SparseSymmetricMatrix,
    first: Seq<Entry>,
    b: SparseSymmetricMatrix,
    second: Seq<Entry>,
)
    requires
        a.represents(first),
        b.represents(second),
        distinct_coordinates(first),
        distinct_coordinates(second),
        forall|e: Entry| first.contains(e) <==> second.contains(e),
    ensures
        a@ == b@,
        a.length == b.length,
        forall|i: int|
            0 <= i < a.dimension() ==> (#[trigger] a.indices@[i])@ == b.indices@[i]@
                && a.values@[i]@ == b.values@[i]@,
{
    lemma_max_index_monotone(first, second);
    lemma_max_index_monotone(second, first);
    assert forall|i: int, j: int, v: u64| stored(a@, i, j, v) <==> stored(b@, i, j, v) by {
        if first_claim(first, i, j) is Some {
            lemma_claims_carry_over(first, second, i, j);
        }
        if first_claim(second, i, j) is Some {
            lemma_claims_carry_over(second, first, i, j);
        }
    }
    lemma_canonical_rows_equal(a@, b@);
    assert forall|i: int| 0 <= i < a.dimension() implies (#[trigger] a.indices@[i])@
        == b.indices@[i]@ && a.values@[i]@ == b.values@[i]@ by {
        assert(a@[i] == b@[i]);
        assert(a@[i].len() == a.indices@[i]@.len());
        assert(b@[i].len() == b.indices@[i]@.len());
        assert(a.values@[i]@.len() == a.indices@[i]@.len());
        assert(b.values@[i]@.len() == b.indices@[i]@.len());
        assert forall|t: int| 0 <= t < a.indices@[i]@.len() implies a.indices@[i]@[t]
            == b.indices@[i]@[t] && a.values@[i]@[t] == b.values@[i]@[t] by {
            assert(a@[i][t] == b@[i][t]);
        }
        assert(a.indices@[i]@ =~= b.indices@[i]@);
        assert(a.values@[i]@ =~= b.values@[i]@);
    }
}

/// What is kept after sorting and removing repeats mentions no index that
/// the entries do not mention.
proof fn lemma_kept_bounded(entries: Seq<Entry>, kept: Seq<Entry>)
    requires
        forall|r: int, c: int| #[trigger] values_at(kept, r, c) == head(claims(entries, r, c)),
    ensures
        forall|q: int|
            0 <= q < kept.len() ==> (#[trigger] kept[q]).x <= max_index(entries) && kept[q].y
                <= max_index(entries),
{
    assert forall|q: int| 0 <= q < kept.len() implies (#[trigger] kept[q]).x <= max_index(entries)
        && kept[q].y <= max_index(entries) by {
        let r = kept[q].x as int;
        let c = kept[q].y as int;
        lemma_values_at_present(kept, q, r, c);
        assert(values_at(kept, r, c) == head(claims(entries, r, c)));
        let k = lemma_claims_source(entries, r, c, 0);
        lemma_max_index_bounds(entries, k);
    }
}

/// Cutting the kept list into rows gives the canonical form of the entries.
proof fn lemma_rows_represent(entries: Seq<Entry>, kept: Seq<Entry>, rows: Seq<Seq<(usize, u64)>>)
    requires
        strictly_sorted(kept),
        forall|r: int, c: int| #[trigger] values_at(kept, r, c) == head(claims(entries, r, c)),
        rows.len() == 1 + max_index(entries),
        forall|r: int| 0 <= r < rows.len() ==> #[trigger] rows[r] == row_of(kept, r),
    ensures
        canonical(rows),
        symmetric(rows),
        forall|i: int, j: int, v: u64| #[trigger]
            stored(rows, i, j, v) <==> first_claim(entries, i, j) == Some(v),
{
    lemma_kept_bounded(entries, kept);
    assert forall|i: int| 0 <= i < rows.len() implies increasing(#[trigger] rows[i]) && within(
        rows[i],
        rows.len() as int,
    ) by {
        lemma_row_of_increasing(kept, i);
        assert forall|t: int| 0 <= t < rows[i].len() implies (#[trigger] rows[i][t]).0
            < rows.len() by {
            let k = lemma_row_of_source(kept, i, t);
        }
    }
    assert forall|i: int, j: int, v: u64| #[trigger]
        stored(rows, i, j, v) <==> first_claim(entries, i, j) == Some(v) by {
        assert(values_at(kept, i, j) == head(claims(entries, i, j)));
        if stored(rows, i, j, v) {
            let t = choose|t: int|
                0 <= t < rows[i].len() && (#[trigger] rows[i][t]).0 == j && rows[i][t].1 == v;
            let k = lemma_row_of_source(kept, i, t);
            lemma_values_at_present(kept, k, i, j);
        }
        if first_claim(entries, i, j) == Some(v) {
            let k = lemma_values_at_source(kept, i, j, 0);
            lemma_row_of_member(kept, k);
            assert(rows[i] == row_of(kept, i));
        }
    }
    assert forall|i: int, j: int, v: u64| #[trigger] stored(rows, i, j, v) implies stored(
        rows,
        j,
        i,
        v,
    ) by {
        lemma_claims_symmetric(entries, i, j);
        assert(first_claim(entries, i, j) == Some(v));
        assert(first_claim(entries, j, i) == Some(v));
    }
}

} // verus!
