//! The common mathematical model of both matrix layouts: for every row, the
//! sequence of `(column, value)` pairs that the row stores, in stored order.

use vstd::prelude::*;
use crate::entry::Entry;

verus! {

/// Pairs up a row's columns with its values, position by position.
pub open spec fn pairs(columns: Seq<usize>, values: Seq<u64>) -> Seq<(usize, u64)> {
    Seq::new(columns.len(), |t: int| (columns[t], values[t]))
}

/// The row stores value `v` in column `j`.
pub open spec fn row_has(row: Seq<(usize, u64)>, j: int, v: u64) -> bool {
    exists|t: int| 0 <= t < row.len() && (#[trigger] row[t]).0 == j && row[t].1 == v
}

/// Columns increase along the row, so none occurs twice.
pub open spec fn increasing(row: Seq<(usize, u64)>) -> bool {
    forall|a: int, b: int| 0 <= a < b < row.len() ==> (#[trigger] row[a]).0 < (#[trigger] row[b]).0
}

/// Every column of the row is below `n`.
pub open spec fn within(row: Seq<(usize, u64)>, n: int) -> bool {
    forall|t: int| 0 <= t < row.len() ==> (#[trigger] row[t]).0 < n
}

/// The matrix stores value `v` at row `i`, column `j`.
pub open spec fn stored(rows: Seq<Seq<(usize, u64)>>, i: int, j: int, v: u64) -> bool {
    0 <= i < rows.len() && row_has(rows[i], j, v)
}

/// Every row is increasing and stays inside the square.
pub open spec fn canonical(rows: Seq<Seq<(usize, u64)>>) -> bool {
    forall|i: int|
        0 <= i < rows.len() ==> increasing(#[trigger] rows[i]) && within(
            rows[i],
            rows.len() as int,
        )
}

/// Whatever is stored at `(i, j)` is stored at `(j, i)` too.
pub open spec fn symmetric(rows: Seq<Seq<(usize, u64)>>) -> bool {
    forall|i: int, j: int, v: u64| #[trigger] stored(rows, i, j, v) ==> stored(rows, j, i, v)
}

/// The `(column, value)` pairs of the entries of row `r`, in list order.
pub open spec fn row_of(s: Seq<Entry>, r: int) -> Seq<(usize, u64)>
    decreases s.len(),
{
    if s.len() == 0 {
        Seq::empty()
    } else if s.last().x == r {
        row_of(s.drop_last(), r).push((s.last().y, s.last().v))
    } else {
        row_of(s.drop_last(), r)
    }
}

pub proof fn lemma_row_of_push(s: Seq<Entry>, e: Entry, r: int)
    ensures
        row_of(s.push(e), r) == if e.x == r {
            row_of(s, r).push((e.y, e.v))
        } else {
            row_of(s, r)
        },
{
    assert(s.push(e).drop_last() =~= s);
}

/// Every pair of a row comes from an entry of that row.
pub proof fn lemma_row_of_source(s: Seq<Entry>, r: int, t: int) -> (k: int)
    requires
        0 <= t < row_of(s, r).len(),
    ensures
        0 <= k < s.len(),
        s[k].x == r,
        s[k].y == row_of(s, r)[t].0,
        s[k].v == row_of(s, r)[t].1,
    decreases s.len(),
{
    let rest = row_of(s.drop_last(), r);
    if s.last().x == r && t == rest.len() {
        s.len() - 1
    } else {
        lemma_row_of_source(s.drop_last(), r, t)
    }
}

/// Every entry is found in its row.
pub proof fn lemma_row_of_member(s: Seq<Entry>, k: int)
    requires
        0 <= k < s.len(),
    ensures
        row_has(row_of(s, s[k].x as int), s[k].y as int, s[k].v),
    decreases s.len(),
{
    let r = s[k].x as int;
    let rest = row_of(s.drop_last(), r);
    if k == s.len() - 1 {
        assert(row_of(s, r)[rest.len() as int] == (s[k].y, s[k].v));
    } else {
        lemma_row_of_member(s.drop_last(), k);
        let t = choose|t: int| 0 <= t < rest.len() && (#[trigger] rest[t]).0 == s[k].y && rest[t].1
            == s[k].v;
        assert(row_of(s, r)[t] == rest[t]);
    }
}

/// Rows cut from a list without repeated coordinates, in row-major order,
/// are increasing.
pub proof fn lemma_row_of_increasing(s: Seq<Entry>, r: int)
    requires
        forall|a: int, b: int| 0 <= a < b < s.len() ==> s[a].before(s[b]),
    ensures
        increasing(row_of(s, r)),
    decreases s.len(),
{
    if s.len() > 0 {
        let front = s.drop_last();
        assert forall|a: int, b: int| 0 <= a < b < front.len() implies front[a].before(
            front[b],
        ) by {
            assert(s[a].before(s[b]));
        }
        lemma_row_of_increasing(front, r);
        if s.last().x == r {
            let rest = row_of(front, r);
            let row = row_of(s, r);
            assert forall|a: int, b: int| 0 <= a < b < row.len() implies (#[trigger] row[a]).0 < (
            #[trigger] row[b]).0 by {
                if b == rest.len() {
                    let k = lemma_row_of_source(front, r, a);
                    assert(s[k].before(s[s.len() - 1]));
                } else {
                    assert(rest[a].0 < rest[b].0);
                }
            }
        }
    }
}

/// An increasing row is determined by what it stores: two increasing rows
/// that store the same values in the same columns are the same sequence.
pub proof fn lemma_increasing_rows_equal(p: Seq<(usize, u64)>, q: Seq<(usize, u64)>)
    requires
        increasing(p),
        increasing(q),
        forall|j: int, v: u64| row_has(p, j, v) <==> row_has(q, j, v),
    ensures
        p == q,
    decreases p.len(),
{
    if p.len() == 0 {
        if q.len() > 0 {
            assert(row_has(q, q[0].0 as int, q[0].1));
            assert(row_has(p, q[0].0 as int, q[0].1));
        }
        assert(p =~= q);
    } else {
        let pl = p.last();
        assert(p[p.len() - 1] == pl);
        assert(row_has(p, pl.0 as int, pl.1));
        assert(row_has(q, pl.0 as int, pl.1));
        let tq = choose|t: int| 0 <= t < q.len() && (#[trigger] q[t]).0 == pl.0 && q[t].1 == pl.1;
        let ql = q.last();
        assert(q[q.len() - 1] == ql);
        assert(row_has(q, ql.0 as int, ql.1));
        assert(row_has(p, ql.0 as int, ql.1));
        let tp = choose|t: int| 0 <= t < p.len() && (#[trigger] p[t]).0 == ql.0 && p[t].1 == ql.1;
        // Each last column is bounded by the other, so they agree.
        if tq < q.len() - 1 {
            assert(q[tq].0 < q[q.len() - 1].0);
        }
        if tp < p.len() - 1 {
            assert(p[tp].0 < p[p.len() - 1].0);
        }
        assert(pl.0 == ql.0);
        assert(tq == q.len() - 1) by {
            if tq < q.len() - 1 {
                assert(q[tq].0 < q[q.len() - 1].0);
            }
        }
        assert(pl == ql);
        let pf = p.drop_last();
        let qf = q.drop_last();
        assert forall|j: int, v: u64| row_has(pf, j, v) <==> row_has(qf, j, v) by {
            if row_has(pf, j, v) {
                let t = choose|t: int| 0 <= t < pf.len() && (#[trigger] pf[t]).0 == j && pf[t].1
                    == v;
                assert(p[t] == pf[t]);
                assert(p[t].0 < p[p.len() - 1].0);
                assert(row_has(p, j, v));
                assert(row_has(q, j, v));
                let u = choose|u: int| 0 <= u < q.len() && (#[trigger] q[u]).0 == j && q[u].1 == v;
                assert(u < q.len() - 1);
                assert(qf[u] == q[u]);
            }
            if row_has(qf, j, v) {
                let t = choose|t: int| 0 <= t < qf.len() && (#[trigger] qf[t]).0 == j && qf[t].1
                    == v;
                assert(q[t] == qf[t]);
                assert(q[t].0 < q[q.len() - 1].0);
                assert(row_has(q, j, v));
                assert(row_has(p, j, v));
                let u = choose|u: int| 0 <= u < p.len() && (#[trigger] p[u]).0 == j && p[u].1 == v;
                assert(u < p.len() - 1);
                assert(pf[u] == p[u]);
            }
        }
        assert(increasing(pf)) by {
            assert forall|a: int, b: int| 0 <= a < b < pf.len() implies (#[trigger] pf[a]).0 < (
            #[trigger] pf[b]).0 by {
                assert(p[a].0 < p[b].0);
            }
        }
        assert(increasing(qf)) by {
            assert forall|a: int, b: int| 0 <= a < b < qf.len() implies (#[trigger] qf[a]).0 < (
            #[trigger] qf[b]).0 by {
                assert(q[a].0 < q[b].0);
            }
        }
        lemma_increasing_rows_equal(pf, qf);
        assert(p =~= pf.push(pl));
        assert(q =~= qf.push(ql));
    }
}

/// A canonical matrix is determined by its size and by what it stores.
pub proof fn lemma_canonical_rows_equal(p: Seq<Seq<(usize, u64)>>, q: Seq<Seq<(usize, u64)>>)
    requires
        canonical(p),
        canonical(q),
        p.len() == q.len(),
        forall|i: int, j: int, v: u64| stored(p, i, j, v) <==> stored(q, i, j, v),
    ensures
        p == q,
{
    assert forall|i: int| 0 <= i < p.len() implies p[i] == q[i] by {
        assert(increasing(p[i]) && increasing(q[i]));
        assert forall|j: int, v: u64| row_has(p[i], j, v) <==> row_has(q[i], j, v) by {
            assert(stored(p, i, j, v) <==> stored(q, i, j, v));
        }
        lemma_increasing_rows_equal(p[i], q[i]);
    }
    assert(p =~= q);
}

/// The position of column `j` in a row, if the row stores it.
pub fn find_column(columns: &Vec<usize>, j: usize) -> (at: Option<usize>)
    ensures
        match at {
            Some(t) => t < columns@.len() && columns@[t as int] == j,
            None => forall|t: int| 0 <= t < columns@.len() ==> columns@[t] != j,
        },
{
    let mut t: usize = 0;
    while t < columns.len()
        invariant
            t <= columns@.len(),
            forall|u: int| 0 <= u < t ==> columns@[u] != j,
        decreases columns@.len() - t,
    {
        if columns[t] == j {
            return Some(t);
        }
        t = t + 1;
    }
    None
}

} // verus!
