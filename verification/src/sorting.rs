//! Stable row-major sorting of entries, and the removal of repeated
//! coordinates that follows it.
//!
//! Stability is stated per coordinate: the values found at a coordinate keep
//! the order in which they were given.

use vstd::prelude::*;
use crate::entry::Entry;

verus! {

/// The values of the entries that sit exactly at row `r`, column `c`, in the
/// order in which the list holds them.
pub open spec fn values_at(s: Seq<Entry>, r: int, c: int) -> Seq<u64>
    decreases s.len(),
{
    if s.len() == 0 {
        Seq::empty()
    } else if s.last().at(r, c) {
        values_at(s.drop_last(), r, c).push(s.last().v)
    } else {
        values_at(s.drop_last(), r, c)
    }
}

/// Coordinates never decrease along the list.
pub open spec fn sorted(s: Seq<Entry>) -> bool {
    forall|a: int, b: int| 0 <= a < b < s.len() ==> s[a].not_after(s[b])
}

/// Coordinates increase along the list, so none occurs twice.
pub open spec fn strictly_sorted(s: Seq<Entry>) -> bool {
    forall|a: int, b: int| 0 <= a < b < s.len() ==> s[a].before(s[b])
}

/// The first element of a sequence as a sequence of its own, or nothing.
pub open spec fn head(s: Seq<u64>) -> Seq<u64> {
    if s.len() == 0 {
        Seq::empty()
    } else {
        Seq::empty().push(s[0])
    }
}

pub proof fn lemma_values_at_push(s: Seq<Entry>, e: Entry, r: int, c: int)
    ensures
        values_at(s.push(e), r, c) == if e.at(r, c) {
            values_at(s, r, c).push(e.v)
        } else {
            values_at(s, r, c)
        },
{
    assert(s.push(e).drop_last() =~= s);
}

pub proof fn lemma_values_at_concat(a: Seq<Entry>, b: Seq<Entry>, r: int, c: int)
    ensures
        values_at(a + b, r, c) == values_at(a, r, c) + values_at(b, r, c),
    decreases b.len(),
{
    if b.len() == 0 {
        assert(a + b =~= a);
        assert(values_at(a, r, c) + values_at(b, r, c) =~= values_at(a, r, c));
    } else {
        lemma_values_at_concat(a, b.drop_last(), r, c);
        assert((a + b).drop_last() =~= a + b.drop_last());
        assert((a + b).last() == b.last());
        if b.last().at(r, c) {
            assert(values_at(a + b, r, c) =~= values_at(a, r, c) + values_at(b, r, c));
        }
    }
}

/// Where no entry sits at a coordinate, no value is found there.
pub proof fn lemma_values_at_absent(s: Seq<Entry>, r: int, c: int)
    requires
        forall|k: int| 0 <= k < s.len() ==> !(#[trigger] s[k]).at(r, c),
    ensures
        values_at(s, r, c).len() == 0,
    decreases s.len(),
{
    if s.len() > 0 {
        assert(!s[s.len() - 1].at(r, c));
        lemma_values_at_absent(s.drop_last(), r, c);
    }
}

/// The value of every entry is found at the entry's coordinate.
pub proof fn lemma_values_at_present(s: Seq<Entry>, k: int, r: int, c: int)
    requires
        0 <= k < s.len(),
        s[k].at(r, c),
    ensures
        values_at(s, r, c).contains(s[k].v),
        values_at(s, r, c).len() > 0,
    decreases s.len(),
{
    let rest = values_at(s.drop_last(), r, c);
    if k == s.len() - 1 {
        assert(rest.push(s[k].v)[rest.len() as int] == s[k].v);
    } else {
        lemma_values_at_present(s.drop_last(), k, r, c);
        let m = choose|m: int| 0 <= m < rest.len() && rest[m] == s[k].v;
        if s.last().at(r, c) {
            assert(rest.push(s.last().v)[m] == s[k].v);
        }
    }
}

/// Every value found at a coordinate is the value of an entry sitting there.
pub proof fn lemma_values_at_source(s: Seq<Entry>, r: int, c: int, m: int) -> (k: int)
    requires
        0 <= m < values_at(s, r, c).len(),
    ensures
        0 <= k < s.len(),
        s[k].at(r, c),
        s[k].v == values_at(s, r, c)[m],
    decreases s.len(),
{
    let rest = values_at(s.drop_last(), r, c);
    if s.last().at(r, c) && m == rest.len() {
        s.len() - 1
    } else {
        lemma_values_at_source(s.drop_last(), r, c, m)
    }
}

/// Merges two sorted lists into one. Where coordinates tie, everything from
/// `a` comes before everything from `b`.
fn merge(a: &Vec<Entry>, b: &Vec<Entry>) -> (out: Vec<Entry>)
    requires
        sorted(a@),
        sorted(b@),
        a@.len() + b@.len() <= usize::MAX,
    ensures
        sorted(out@),
        out@.len() == a@.len() + b@.len(),
        forall|r: int, c: int| #[trigger]
            values_at(out@, r, c) == values_at(a@, r, c) + values_at(b@, r, c),
{
    let mut out: Vec<Entry> = Vec::with_capacity(a.len() + b.len());
    let mut i: usize = 0;
    let mut j: usize = 0;
    proof {
        assert forall|r: int, c: int| #[trigger]
            values_at(out@, r, c) == values_at(a@.take(0), r, c) + values_at(b@.take(0), r, c) by {
            assert(values_at(out@, r, c) =~= values_at(a@.take(0), r, c) + values_at(
                b@.take(0),
                r,
                c,
            ));
        }
    }
    while i < a.len() || j < b.len()
        invariant
            i <= a.len(),
            j <= b.len(),
            out@.len() == i + j,
            sorted(a@),
            sorted(b@),
            a@.len() + b@.len() <= usize::MAX,
            sorted(out@),
            forall|k: int|
                0 <= k < out@.len() && i < a@.len() ==> (#[trigger] out@[k]).not_after(
                    a@[i as int],
                ),
            forall|k: int|
                0 <= k < out@.len() && j < b@.len() ==> (#[trigger] out@[k]).not_after(
                    b@[j as int],
                ),
            forall|k: int| 0 <= k < j && i < a@.len() ==> (#[trigger] b@[k]).before(a@[i as int]),
            forall|r: int, c: int| #[trigger]
                values_at(out@, r, c) == values_at(a@.take(i as int), r, c) + values_at(
                    b@.take(j as int),
                    r,
                    c,
                ),
        decreases a.len() - i + b.len() - j,
    {
        let take_left: bool = if j >= b.len() {
            true
        } else if i >= a.len() {
            false
        } else {
            !b[j].precedes(&a[i])
        };
        let ghost before_push = out@;
        if take_left {
            let e: Entry = a[i];
            out.push(e);
            proof {
                assert forall|r: int, c: int| #[trigger]
                    values_at(out@, r, c) == values_at(a@.take(i + 1), r, c) + values_at(
                        b@.take(j as int),
                        r,
                        c,
                    ) by {
                    lemma_values_at_push(before_push, e, r, c);
                    assert(a@.take(i + 1) =~= a@.take(i as int).push(e));
                    lemma_values_at_push(a@.take(i as int), e, r, c);
                    if e.at(r, c) {
                        assert forall|k: int| 0 <= k < b@.take(j as int).len() implies !(
                        #[trigger] b@.take(j as int)[k]).at(r, c) by {
                            assert(b@[k].before(a@[i as int]));
                        }
                        lemma_values_at_absent(b@.take(j as int), r, c);
                        assert(values_at(out@, r, c) =~= values_at(a@.take(i + 1), r, c)
                            + values_at(b@.take(j as int), r, c));
                    }
                }
                if i + 1 < a@.len() {
                    assert(a@[i as int].not_after(a@[i + 1]));
                }
            }
            i = i + 1;
        } else {
            let e: Entry = b[j];
            out.push(e);
            proof {
                assert forall|r: int, c: int| #[trigger]
                    values_at(out@, r, c) == values_at(a@.take(i as int), r, c) + values_at(
                        b@.take(j + 1),
                        r,
                        c,
                    ) by {
                    lemma_values_at_push(before_push, e, r, c);
                    assert(b@.take(j + 1) =~= b@.take(j as int).push(e));
                    lemma_values_at_push(b@.take(j as int), e, r, c);
                    if e.at(r, c) {
                        assert(values_at(out@, r, c) =~= values_at(a@.take(i as int), r, c)
                            + values_at(b@.take(j + 1), r, c));
                    }
                }
                if j + 1 < b@.len() {
                    assert(b@[j as int].not_after(b@[j + 1]));
                }
            }
            j = j + 1;
        }
    }
    proof {
        assert(a@.take(i as int) =~= a@);
        assert(b@.take(j as int) =~= b@);
    }
    out
}

/// Sorts the part of `v` between `lo` and `hi` into a list of its own.
fn sort_range(v: &Vec<Entry>, lo: usize, hi: usize) -> (out: Vec<Entry>)
    requires
        lo <= hi <= v@.len(),
    ensures
        sorted(out@),
        out@.len() == hi - lo,
        forall|r: int, c: int| #[trigger]
            values_at(out@, r, c) == values_at(v@.subrange(lo as int, hi as int), r, c),
    decreases hi - lo,
{
    if hi - lo <= 1 {
        let mut out: Vec<Entry> = Vec::new();
        if hi - lo == 1 {
            out.push(v[lo]);
        }
        proof {
            assert(out@ =~= v@.subrange(lo as int, hi as int));
        }
        out
    } else {
        let mid: usize = lo + (hi - lo) / 2;
        let left = sort_range(v, lo, mid);
        let right = sort_range(v, mid, hi);
        let out = merge(&left, &right);
        proof {
            let whole = v@.subrange(lo as int, hi as int);
            let first = v@.subrange(lo as int, mid as int);
            let second = v@.subrange(mid as int, hi as int);
            assert(whole =~= first + second);
            assert forall|r: int, c: int| #[trigger]
                values_at(out@, r, c) == values_at(whole, r, c) by {
                lemma_values_at_concat(first, second, r, c);
            }
        }
        out
    }
}

/// Sorts entries by row, then column. The sort is stable: at every
/// coordinate the values are found in the order in which `v` gave them.
pub fn stable_sort(v: &Vec<Entry>) -> (out: Vec<Entry>)
    ensures
        sorted(out@),
        out@.len() == v@.len(),
        forall|r: int, c: int| #[trigger] values_at(out@, r, c) == values_at(v@, r, c),
{
    proof {
        assert(v@.subrange(0, v@.len() as int) =~= v@);
    }
    sort_range(v, 0, v.len())
}

/// Keeps, of every run of entries at one coordinate, the first.
pub fn dedup(v: &Vec<Entry>) -> (out: Vec<Entry>)
    requires
        sorted(v@),
    ensures
        strictly_sorted(out@),
        out@.len() <= v@.len(),
        forall|r: int, c: int| #[trigger] values_at(out@, r, c) == head(values_at(v@, r, c)),
{
    let mut out: Vec<Entry> = Vec::new();
    let mut k: usize = 0;
    while k < v.len()
        invariant
            k <= v.len(),
            sorted(v@),
            strictly_sorted(out@),
            out@.len() <= k,
            k == 0 ==> out@.len() == 0,
            k > 0 ==> out@.len() > 0 && out@.last().at(v@[k - 1].x as int, v@[k - 1].y as int),
            forall|r: int, c: int| #[trigger]
                values_at(out@, r, c) == head(values_at(v@.take(k as int), r, c)),
        decreases v.len() - k,
    {
        let e: Entry = v[k];
        let keep: bool = if out.len() == 0 {
            true
        } else {
            !out[out.len() - 1].same_place(&e)
        };
        let ghost before_push = out@;
        let ghost seen = v@.take(k as int);
        proof {
            assert(v@.take(k + 1) =~= seen.push(e));
            if k > 0 {
                assert(v@[k - 1].not_after(v@[k as int]));
            }
        }
        if keep {
            out.push(e);
            proof {
                assert forall|r: int, c: int| #[trigger]
                    values_at(out@, r, c) == head(values_at(v@.take(k + 1), r, c)) by {
                    lemma_values_at_push(before_push, e, r, c);
                    lemma_values_at_push(seen, e, r, c);
                    if e.at(r, c) {
                        assert forall|m: int| 0 <= m < seen.len() implies !(#[trigger] seen[m]).at(
                            r,
                            c,
                        ) by {
                            if m < k - 1 {
                                assert(v@[m].not_after(v@[k - 1]));
                            }
                        }
                        lemma_values_at_absent(seen, r, c);
                        assert(values_at(out@, r, c) =~= head(values_at(v@.take(k + 1), r, c)));
                    }
                }
                assert forall|a: int, b: int| 0 <= a < b < out@.len() implies out@[a].before(
                    out@[b],
                ) by {
                    if b == out@.len() - 1 {
                        if a < before_push.len() - 1 {
                            assert(before_push[a].before(before_push.last()));
                        }
                    } else {
                        assert(before_push[a].before(before_push[b]));
                    }
                }
            }
        } else {
            proof {
                assert forall|r: int, c: int| #[trigger]
                    values_at(out@, r, c) == head(values_at(v@.take(k + 1), r, c)) by {
                    lemma_values_at_push(seen, e, r, c);
                    if e.at(r, c) {
                        lemma_values_at_present(seen, k - 1, r, c);
                        assert(head(values_at(seen, r, c).push(e.v)) =~= head(
                            values_at(seen, r, c),
                        ));
                    }
                }
            }
        }
        k = k + 1;
    }
    proof {
        assert(v@.take(k as int) =~= v@);
    }
    out
}

} // verus!
