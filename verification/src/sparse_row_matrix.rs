//! The compressed row layout: all values in one array, their columns in a
//! second, and the offset of every row in a third. It exists to multiply.

use vstd::prelude::*;
use crate::arithmetic::{deterministic, lemma_sums_deterministic, sums, total, yields, Operation};
use crate::binary64::{finite, is_finite, ZERO};
use crate::error::Error;
use crate::rows::{pairs, within};
use crate::sparse_symmetric_matrix::SparseSymmetricMatrix;
use crate::triplets::{row_triplets, triplets_of, Triplets};
use crate::vector::Vector;

verus! {

/// A sparse matrix in compressed row layout.
pub struct SparseRowMatrix {
    values: Vec<u64>,
    column_index: Vec<usize>,
    row_pointers: Vec<usize>,
}

/// Every pattern of every row encodes a finite number.
pub open spec fn all_finite(rows: Seq<Seq<(usize, u64)>>) -> bool {
    forall|i: int, t: int|
        0 <= i < rows.len() && 0 <= t < rows[i].len() ==> finite((#[trigger] rows[i][t]).1)
}

/// The terms of one component of a product: every coefficient of the row
/// beside the component of `x` that its column selects, in stored order.
pub open spec fn row_terms(row: Seq<(usize, u64)>, x: Seq<u64>) -> Seq<(u64, u64)> {
    Seq::new(row.len(), |t: int| (row[t].1, x[row[t].0 as int]))
}

/// `y` is the product of the matrix with `x`: every component the sum of
/// the terms of its row, taken in from left to right.
pub open spec fn product_is<A: Fn(Operation) -> u64>(
    arith: A,
    rows: Seq<Seq<(usize, u64)>>,
    x: Seq<u64>,
    y: Seq<u64>,
) -> bool {
    y.len() == rows.len() && forall|i: int|
        0 <= i < rows.len() ==> sums(arith, row_terms(rows[i], x), #[trigger] y[i])
}

/// Under a deterministic arithmetic a product has one value.
pub proof fn lemma_product_deterministic<A: Fn(Operation) -> u64>(
    arith: A,
    rows: Seq<Seq<(usize, u64)>>,
    x: Seq<u64>,
    y: Seq<u64>,
    z: Seq<u64>,
)
    requires
        deterministic(arith),
        product_is(arith, rows, x, y),
        product_is(arith, rows, x, z),
    ensures
        y == z,
{
    assert forall|i: int| 0 <= i < y.len() implies y[i] == z[i] by {
        lemma_sums_deterministic(arith, row_terms(rows[i], x), y[i], z[i]);
    }
    assert(y =~= z);
}

/// The rows that three flat arrays describe: row `i` lies between offset `i`
/// and offset `i + 1`.
#[verifier::opaque]
pub open spec fn layout(values: Seq<u64>, columns: Seq<usize>, pointers: Seq<usize>) -> Seq<
    Seq<(usize, u64)>,
> {
    Seq::new(
        (pointers.len() - 1) as nat,
        |i: int|
            Seq::new(
                (pointers[i + 1] - pointers[i]) as nat,
                |t: int| (columns[pointers[i] + t], values[pointers[i] + t]),
            ),
    )
}

/// The part of the flat arrays that starts at `lo` holds exactly `row`.
spec fn segment_is(values: Seq<u64>, columns: Seq<usize>, lo: int, row: Seq<(usize, u64)>) -> bool {
    &&& 0 <= lo
    &&& lo + row.len() <= values.len()
    &&& values.len() == columns.len()
    &&& forall|t: int| 0 <= t < row.len() ==> #[trigger] row[t] == (columns[lo + t], values[lo + t])
}

/// The first `i` rows are laid out in the flat arrays, each between its own
/// offset and the next.
spec fn laid_out(
    values: Seq<u64>,
    columns: Seq<usize>,
    pointers: Seq<usize>,
    rows: Seq<Seq<(usize, u64)>>,
    i: int,
) -> bool {
    forall|r: int|
        #![trigger rows[r]]
        0 <= r < i ==> pointers[r + 1] - pointers[r] == rows[r].len() && segment_is(
            values,
            columns,
            pointers[r] as int,
            rows[r],
        )
}

/// Well-formed offsets: they start at zero, never decrease, and end where
/// the flat arrays end.
spec fn offsets_ok(values: Seq<u64>, columns: Seq<usize>, pointers: Seq<usize>) -> bool {
    &&& pointers.len() >= 1
    &&& pointers[0] == 0
    &&& pointers.last() == values.len()
    &&& columns.len() == values.len()
    &&& forall|a: int, b: int| 0 <= a <= b < pointers.len() ==> pointers[a] <= pointers[b]
}

proof fn lemma_layout_len(values: Seq<u64>, columns: Seq<usize>, pointers: Seq<usize>)
    requires
        pointers.len() >= 1,
    ensures
        layout(values, columns, pointers).len() == pointers.len() - 1,
{
    reveal(layout);
}

/// Row `i` of the layout is the segment between its two offsets.
proof fn lemma_layout_row(values: Seq<u64>, columns: Seq<usize>, pointers: Seq<usize>, i: int)
    requires
        offsets_ok(values, columns, pointers),
        0 <= i < pointers.len() - 1,
    ensures
        pointers[i] <= pointers[i + 1] <= values.len(),
        layout(values, columns, pointers)[i].len() == pointers[i + 1] - pointers[i],
        segment_is(values, columns, pointers[i] as int, layout(values, columns, pointers)[i]),
{
    reveal(layout);
    assert(pointers[i] <= pointers[i + 1]);
    assert(pointers[i + 1] <= pointers[pointers.len() - 1]);
}

/// Appending to the flat arrays disturbs no segment.
proof fn lemma_segment_kept(
    values: Seq<u64>,
    columns: Seq<usize>,
    lo: int,
    row: Seq<(usize, u64)>,
    v: u64,
    c: usize,
)
    requires
        segment_is(values, columns, lo, row),
    ensures
        segment_is(values.push(v), columns.push(c), lo, row),
{
    assert forall|t: int| 0 <= t < row.len() implies #[trigger] row[t] == (
        columns.push(c)[lo + t],
        values.push(v)[lo + t],
    ) by {
        assert(row[t] == (columns[lo + t], values[lo + t]));
    }
}

/// Appending the next pair of a row to the flat arrays extends the segment
/// that holds the row so far.
proof fn lemma_segment_grown(
    values: Seq<u64>,
    columns: Seq<usize>,
    lo: int,
    row: Seq<(usize, u64)>,
    j: int,
)
    requires
        0 <= j < row.len(),
        values.len() == lo + j,
        segment_is(values, columns, lo, row.take(j)),
    ensures
        segment_is(values.push(row[j].1), columns.push(row[j].0), lo, row.take(j + 1)),
{
    let longer = row.take(j + 1);
    assert forall|t: int| 0 <= t < longer.len() implies #[trigger] longer[t] == (
        columns.push(row[j].0)[lo + t],
        values.push(row[j].1)[lo + t],
    ) by {
        if t < j {
            assert(row.take(j)[t] == (columns[lo + t], values[lo + t]));
        }
    }
}

/// Appending to the flat arrays disturbs none of the rows laid out so far.
proof fn lemma_laid_out_kept(
    values: Seq<u64>,
    columns: Seq<usize>,
    pointers: Seq<usize>,
    rows: Seq<Seq<(usize, u64)>>,
    i: int,
    v: u64,
    c: usize,
)
    requires
        laid_out(values, columns, pointers, rows, i),
    ensures
        laid_out(values.push(v), columns.push(c), pointers, rows, i),
{
    assert forall|r: int| #![trigger rows[r]] 0 <= r < i implies pointers[r + 1] - pointers[r]
        == rows[r].len() && segment_is(
        values.push(v),
        columns.push(c),
        pointers[r] as int,
        rows[r],
    ) by {
        lemma_segment_kept(values, columns, pointers[r] as int, rows[r], v, c);
    }
}

/// Closing a row with its offset lays it out with the rows before it.
proof fn lemma_laid_out_closed(
    values: Seq<u64>,
    columns: Seq<usize>,
    pointers: Seq<usize>,
    rows: Seq<Seq<(usize, u64)>>,
    i: int,
)
    requires
        0 <= i < rows.len(),
        pointers.len() == i + 1,
        pointers[i] + rows[i].len() == values.len(),
        values.len() <= usize::MAX,
        laid_out(values, columns, pointers, rows, i),
        segment_is(values, columns, pointers[i] as int, rows[i]),
    ensures
        laid_out(values, columns, pointers.push(values.len() as usize), rows, i + 1),
{
    let longer = pointers.push(values.len() as usize);
    assert forall|r: int| #![trigger rows[r]] 0 <= r < i + 1 implies longer[r + 1] - longer[r]
        == rows[r].len() && segment_is(values, columns, longer[r] as int, rows[r]) by {
        if r < i {
            assert(longer[r] == pointers[r]);
            assert(longer[r + 1] == pointers[r + 1]);
        } else {
            assert(longer[r] == pointers[i]);
        }
    }
}

/// Rows that occupy the same segments as the rows of a layout are the rows
/// of that layout.
proof fn lemma_layout_is(
    values: Seq<u64>,
    columns: Seq<usize>,
    pointers: Seq<usize>,
    rows: Seq<Seq<(usize, u64)>>,
)
    requires
        offsets_ok(values, columns, pointers),
        rows.len() == pointers.len() - 1,
        laid_out(values, columns, pointers, rows, rows.len() as int),
    ensures
        layout(values, columns, pointers) == rows,
{
    let built = layout(values, columns, pointers);
    lemma_layout_len(values, columns, pointers);
    assert forall|r: int| 0 <= r < built.len() implies built[r] == rows[r] by {
        lemma_layout_row(values, columns, pointers, r);
        assert(segment_is(values, columns, pointers[r] as int, rows[r]));
        assert(built[r].len() == rows[r].len());
        assert forall|t: int| 0 <= t < built[r].len() implies built[r][t] == rows[r][t] by {
            assert(built[r][t] == (columns[pointers[r] + t], values[pointers[r] + t]));
            assert(rows[r][t] == (columns[pointers[r] + t], values[pointers[r] + t]));
        }
        assert(built[r] =~= rows[r]);
    }
    assert(built =~= rows);
}

impl View for SparseRowMatrix {
    type V = Seq<Seq<(usize, u64)>>;

    /// Row by row, the `(column, value)` pairs in stored order.
    closed spec fn view(&self) -> Seq<Seq<(usize, u64)>> {
        layout(self.values@, self.column_index@, self.row_pointers@)
    }
}

impl SparseRowMatrix {
    /// All stored values, row after row.
    pub closed spec fn flat_values(&self) -> Seq<u64> {
        self.values@
    }

    /// The column of every stored value.
    pub closed spec fn flat_columns(&self) -> Seq<usize> {
        self.column_index@
    }

    /// Where every row starts in the flat arrays, and where the last ends.
    pub closed spec fn offsets(&self) -> Seq<usize> {
        self.row_pointers@
    }

    /// The three arrays are a compressed row layout: one offset more than
    /// there are rows, from zero to the number of stored values, never
    /// decreasing, and the rows are the parts of the flat arrays between
    /// them.
    pub open spec fn compressed(&self) -> bool {
        &&& self.offsets().len() == self@.len() + 1
        &&& self.offsets()[0] == 0
        &&& self.offsets().last() == self.flat_values().len()
        &&& self.flat_columns().len() == self.flat_values().len()
        &&& forall|a: int, b: int|
            0 <= a <= b < self.offsets().len() ==> self.offsets()[a] <= self.offsets()[b]
        &&& self@ == layout(self.flat_values(), self.flat_columns(), self.offsets())
    }

    #[verifier::type_invariant]
    spec fn inv(self) -> bool {
        &&& offsets_ok(self.values@, self.column_index@, self.row_pointers@)
        &&& forall|t: int|
            0 <= t < self.column_index@.len() ==> (#[trigger] self.column_index@[t])
                < self.row_pointers@.len() - 1
    }

    /// Flattens a matrix row by row, keeping the order inside every row.
    pub fn new(matrix: &SparseSymmetricMatrix) -> (m: SparseRowMatrix)
        requires
            matrix.well_formed(),
        ensures
            m@ == matrix@,
            m.compressed(),
    {
        let n: usize = matrix.indices.len();
        let ghost rows = matrix@;
        let mut values: Vec<u64> = Vec::new();
        let mut column_index: Vec<usize> = Vec::new();
        let mut row_pointers: Vec<usize> = Vec::new();
        row_pointers.push(0);
        let mut i: usize = 0;
        while i < n
            invariant
                i <= n,
                n == matrix.indices@.len(),
                matrix.well_formed(),
                rows == matrix@,
                row_pointers@.len() == i + 1,
                row_pointers@[0] == 0,
                row_pointers@[i as int] == values@.len(),
                column_index@.len() == values@.len(),
                forall|a: int, b: int|
                    0 <= a <= b <= i ==> row_pointers@[a] <= row_pointers@[b],
                forall|t: int| 0 <= t < column_index@.len() ==> (#[trigger] column_index@[t]) < n,
                laid_out(values@, column_index@, row_pointers@, rows, i as int),
            decreases n - i,
        {
            let columns: &Vec<usize> = &matrix.indices[i];
            let coefficients: &Vec<u64> = &matrix.values[i];
            let ghost start = values@.len() as int;
            let ghost pointers = row_pointers@;
            let ghost row = rows[i as int];
            proof {
                assert(matrix.values@[i as int]@.len() == matrix.indices@[i as int]@.len());
                assert(row == pairs(columns@, coefficients@));
                assert(within(row, n as int));
                assert(row.take(0).len() == 0);
            }
            let mut j: usize = 0;
            while j < columns.len()
                invariant
                    j <= columns@.len(),
                    coefficients@.len() == columns@.len(),
                    row == pairs(columns@, coefficients@),
                    within(row, n as int),
                    values@.len() == start + j,
                    column_index@.len() == values@.len(),
                    forall|t: int|
                        0 <= t < column_index@.len() ==> (#[trigger] column_index@[t]) < n,
                    laid_out(values@, column_index@, pointers, rows, i as int),
                    segment_is(values@, column_index@, start, row.take(j as int)),
                decreases columns@.len() - j,
            {
                proof {
                    assert(row[j as int].0 < n);
                    lemma_laid_out_kept(
                        values@,
                        column_index@,
                        pointers,
                        rows,
                        i as int,
                        row[j as int].1,
                        row[j as int].0,
                    );
                    lemma_segment_grown(values@, column_index@, start, row, j as int);
                }
                values.push(coefficients[j]);
                column_index.push(columns[j]);
                j = j + 1;
            }
            let end: usize = values.len();
            proof {
                assert(row.take(j as int) =~= row);
                lemma_laid_out_closed(values@, column_index@, pointers, rows, i as int);
            }
            row_pointers.push(end);
            i = i + 1;
        }
        proof {
            lemma_layout_is(values@, column_index@, row_pointers@, rows);
            lemma_layout_len(values@, column_index@, row_pointers@);
        }
        SparseRowMatrix { values, column_index, row_pointers }
    }

    /// The number of rows, which is also the number of columns.
    pub fn len(&self) -> (n: usize)
        ensures
            n == self@.len(),
    {
        proof {
            use_type_invariant(self);
            lemma_layout_len(self.values@, self.column_index@, self.row_pointers@);
        }
        self.row_pointers.len() - 1
    }

    /// Writes the matrix out as one-based triplets, row after row.
    pub fn triplets(&self) -> (out: Triplets)
        ensures
            out.parallel(),
            out@ == triplets_of(self@),
    {
        proof {
            use_type_invariant(self);
            lemma_layout_len(self.values@, self.column_index@, self.row_pointers@);
        }
        let n: usize = self.row_pointers.len() - 1;
        let mut out = Triplets { rows: Vec::new(), columns: Vec::new(), values: Vec::new() };
        let mut i: usize = 0;
        proof {
            assert(out@ =~= triplets_of(self@.take(0)));
        }
        while i < n
            invariant
                i <= n,
                n == self@.len(),
                n == self.row_pointers@.len() - 1,
                self.inv(),
                out.parallel(),
                out@ == triplets_of(self@.take(i as int)),
            decreases n - i,
        {
            let lo: usize = self.row_pointers[i];
            let hi: usize = self.row_pointers[i + 1];
            let ghost row = self@[i as int];
            let ghost done = triplets_of(self@.take(i as int));
            proof {
                lemma_layout_row(self.values@, self.column_index@, self.row_pointers@, i as int);
                assert(out@ =~= done + row_triplets(i as int, row.take(0)));
            }
            let mut j: usize = lo;
            while j < hi
                invariant
                    lo <= j <= hi,
                    i < n,
                    n == self.row_pointers@.len() - 1,
                    hi <= self.values@.len(),
                    row.len() == hi - lo,
                    segment_is(self.values@, self.column_index@, lo as int, row),
                    forall|t: int|
                        0 <= t < self.column_index@.len() ==> (#[trigger] self.column_index@[t])
                            < n,
                    out.parallel(),
                    out@ == done + row_triplets(i as int, row.take(j - lo)),
                decreases hi - j,
            {
                let ghost before = out@;
                proof {
                    assert(row[j - lo] == (self.column_index@[j as int], self.values@[j as int]));
                    assert(self.column_index@[j as int] < n);
                }
                out.rows.push(i + 1);
                out.columns.push(self.column_index[j] + 1);
                out.values.push(self.values[j]);
                proof {
                    let item = (i + 1, row[j - lo].0 + 1, row[j - lo].1);
                    assert(out@ =~= before.push(item));
                    assert(row_triplets(i as int, row.take(j + 1 - lo)) =~= row_triplets(
                        i as int,
                        row.take(j - lo),
                    ).push(item));
                    assert(before.push(item) =~= done + row_triplets(
                        i as int,
                        row.take(j + 1 - lo),
                    ));
                }
                j = j + 1;
            }
            proof {
                assert(row.take(hi - lo) =~= row);
                assert(self@.take(i + 1).drop_last() =~= self@.take(i as int));
                assert(self@.take(i + 1).last() == row);
            }
            i = i + 1;
        }
        proof {
            assert(self@.take(n as int) =~= self@);
        }
        out
    }

    /// Tells whether every stored coefficient is finite.
    pub fn is_valid(&self) -> (r: bool)
        ensures
            r == all_finite(self@),
    {
        proof {
            use_type_invariant(self);
            lemma_layout_len(self.values@, self.column_index@, self.row_pointers@);
        }
        let n: usize = self.row_pointers.len() - 1;
        let mut i: usize = 0;
        while i < n
            invariant
                i <= n,
                n == self@.len(),
                n == self.row_pointers@.len() - 1,
                self.inv(),
                forall|a: int, t: int|
                    0 <= a < i && 0 <= t < self@[a].len() ==> finite((#[trigger] self@[a][t]).1),
            decreases n - i,
        {
            let lo: usize = self.row_pointers[i];
            let hi: usize = self.row_pointers[i + 1];
            let ghost row = self@[i as int];
            proof {
                lemma_layout_row(self.values@, self.column_index@, self.row_pointers@, i as int);
            }
            let mut j: usize = lo;
            while j < hi
                invariant
                    lo <= j <= hi,
                    i < n,
                    n == self@.len(),
                    row == self@[i as int],
                    hi <= self.values@.len(),
                    row.len() == hi - lo,
                    segment_is(self.values@, self.column_index@, lo as int, row),
                    forall|t: int| 0 <= t < j - lo ==> finite((#[trigger] row[t]).1),
                decreases hi - j,
            {
                proof {
                    assert(row[j - lo] == (self.column_index@[j as int], self.values@[j as int]));
                }
                if !is_finite(self.values[j]) {
                    return false;
                }
                j = j + 1;
            }
            i = i + 1;
        }
        true
    }

    /// Multiplies the matrix by a vector of matching length, without looking
    /// at the coefficients first.
    pub fn multiply<A: Fn(Operation) -> u64>(&self, x: &Vector, arith: &A) -> (y: Vector)
        requires
            total(*arith),
            x@.len() == self@.len(),
        ensures
            product_is(*arith, self@, x@, y@),
    {
        proof {
            use_type_invariant(self);
            lemma_layout_len(self.values@, self.column_index@, self.row_pointers@);
        }
        let n: usize = self.row_pointers.len() - 1;
        let mut product: Vec<u64> = Vec::with_capacity(n);
        let mut i: usize = 0;
        while i < n
            invariant
                i <= n,
                n == self@.len(),
                n == x@.len(),
                n == self.row_pointers@.len() - 1,
                self.inv(),
                total(*arith),
                product@.len() == i,
                forall|r: int|
                    0 <= r < i ==> sums(*arith, row_terms(self@[r], x@), #[trigger] product@[r]),
            decreases n - i,
        {
            let lo: usize = self.row_pointers[i];
            let hi: usize = self.row_pointers[i + 1];
            let ghost row = self@[i as int];
            let ghost terms = row_terms(row, x@);
            proof {
                lemma_layout_row(self.values@, self.column_index@, self.row_pointers@, i as int);
                assert(terms.take(0).len() == 0);
            }
            let mut acc: u64 = ZERO;
            let mut j: usize = lo;
            while j < hi
                invariant
                    lo <= j <= hi,
                    n == x@.len(),
                    total(*arith),
                    terms == row_terms(row, x@),
                    hi <= self.values@.len(),
                    row.len() == hi - lo,
                    segment_is(self.values@, self.column_index@, lo as int, row),
                    forall|t: int|
                        0 <= t < self.column_index@.len() ==> (#[trigger] self.column_index@[t])
                            < n,
                    sums(*arith, terms.take(j - lo), acc),
                decreases hi - j,
            {
                let column: usize = self.column_index[j];
                let coefficient: u64 = self.values[j];
                let ghost prev = acc;
                proof {
                    assert(self.column_index@[j as int] < n);
                }
                acc = arith(Operation::MulAdd { acc, a: coefficient, b: x.0[column] });
                proof {
                    let longer = terms.take(j + 1 - lo);
                    assert(longer.drop_last() =~= terms.take(j - lo));
                    assert(row[j - lo] == (column, coefficient));
                    assert(longer.last() == (coefficient, x@[column as int]));
                    assert(yields(
                        *arith,
                        Operation::MulAdd { acc: prev, a: longer.last().0, b: longer.last().1 },
                        acc,
                    ));
                }
                j = j + 1;
            }
            proof {
                assert(terms.take(hi - lo) =~= terms);
            }
            product.push(acc);
            i = i + 1;
        }
        Vector(product)
    }

    /// Multiplies the matrix by `rhs`.
    ///
    /// Refuses a vector of the wrong length, and, failing that, a matrix
    /// with a coefficient that is not finite. Every component of the product
    /// starts from zero and takes in the terms of its row from left to
    /// right.
    pub fn apply<A: Fn(Operation) -> u64>(&self, rhs: &Vector, arith: &A) -> (out: Result<
        Vector,
        Error,
    >)
        requires
            total(*arith),
        ensures
            match out {
                Ok(product) => {
                    &&& rhs@.len() == self@.len()
                    &&& all_finite(self@)
                    &&& product_is(*arith, self@, rhs@, product@)
                },
                Err(e) => if rhs@.len() != self@.len() {
                    e == Error::DimensionMismatch
                } else {
                    e == Error::NonFinite && !all_finite(self@)
                },
            },
    {
        if rhs.len() != self.len() {
            return Err(Error::DimensionMismatch);
        }
        if !self.is_valid() {
            return Err(Error::NonFinite);
        }
        Ok(self.multiply(rhs, arith))
    }
}

} // verus!
