//! From raw entries to the list that is sorted: every entry in its canonical
//! orientation, followed by the mirror image of every off-diagonal one.

use vstd::prelude::*;
use crate::entry::{claims, distinct_coordinates, first_claim, max_index, Entry};
use crate::sorting::{lemma_values_at_concat, lemma_values_at_push, values_at};

verus! {

/// Every entry of the list in its canonical orientation.
pub open spec fn canonical_list(entries: Seq<Entry>) -> Seq<Entry> {
    Seq::new(entries.len(), |k: int| entries[k].canonical())
}

/// The mirror image of every off-diagonal entry of the list, in list order.
pub open spec fn mirror_list(s: Seq<Entry>) -> Seq<Entry>
    decreases s.len(),
{
    if s.len() == 0 {
        Seq::empty()
    } else if s.last().diagonal() {
        mirror_list(s.drop_last())
    } else {
        mirror_list(s.drop_last()).push(s.last().mirrored())
    }
}

/// The canonical entries, then their mirror images.
pub open spec fn combined(entries: Seq<Entry>) -> Seq<Entry> {
    canonical_list(entries) + mirror_list(canonical_list(entries))
}

/// Builds the list that the construction sorts.
pub fn combine(entries: &[Entry]) -> (out: Vec<Entry>)
    ensures
        out@ == combined(entries@),
{
    let n: usize = entries.len();
    let mut out: Vec<Entry> = Vec::new();
    let mut k: usize = 0;
    while k < n
        invariant
            k <= n,
            n == entries@.len(),
            out@ == canonical_list(entries@.take(k as int)),
        decreases n - k,
    {
        let e: Entry = entries[k].lower_triangle();
        out.push(e);
        proof {
            assert(out@ =~= canonical_list(entries@.take(k + 1)));
        }
        k = k + 1;
    }
    proof {
        assert(entries@.take(n as int) =~= entries@);
    }
    let ghost canon = out@;
    let mut m: usize = 0;
    proof {
        assert(out@ =~= canon + mirror_list(canon.take(0)));
    }
    while m < n
        invariant
            m <= n,
            n == canon.len(),
            out@ == canon + mirror_list(canon.take(m as int)),
        decreases n - m,
    {
        let e: Entry = out[m];
        proof {
            assert(canon.take(m + 1).drop_last() =~= canon.take(m as int));
            assert(canon.take(m + 1).last() == e);
        }
        if e.x != e.y {
            out.push(e.symmetric());
            proof {
                assert(out@ =~= canon + mirror_list(canon.take(m + 1)));
            }
        }
        m = m + 1;
    }
    proof {
        assert(canon.take(n as int) =~= canon);
    }
    out
}

/// The canonical half carries exactly the claims of the upper triangle.
pub proof fn lemma_canonical_values(entries: Seq<Entry>, r: int, c: int)
    ensures
        values_at(canonical_list(entries), r, c) == if r <= c {
            claims(entries, r, c)
        } else {
            Seq::empty()
        },
    decreases entries.len(),
{
    if entries.len() > 0 {
        lemma_canonical_values(entries.drop_last(), r, c);
        assert(canonical_list(entries).drop_last() =~= canonical_list(entries.drop_last()));
        assert(canonical_list(entries).last() == entries.last().canonical());
    }
}

/// The mirrored half carries exactly the claims of the lower triangle.
pub proof fn lemma_mirror_values(entries: Seq<Entry>, r: int, c: int)
    ensures
        values_at(mirror_list(canonical_list(entries)), r, c) == if r > c {
            claims(entries, r, c)
        } else {
            Seq::empty()
        },
    decreases entries.len(),
{
    if entries.len() > 0 {
        lemma_mirror_values(entries.drop_last(), r, c);
        let s = canonical_list(entries);
        assert(s.drop_last() =~= canonical_list(entries.drop_last()));
        assert(s.last() == entries.last().canonical());
        if !s.last().diagonal() {
            lemma_values_at_push(mirror_list(s.drop_last()), s.last().mirrored(), r, c);
        }
    }
}

/// At every coordinate the combined list holds the claims made for it, in
/// the order in which they were made.
pub proof fn lemma_combined_values(entries: Seq<Entry>, r: int, c: int)
    ensures
        values_at(combined(entries), r, c) == claims(entries, r, c),
{
    let canon = canonical_list(entries);
    lemma_values_at_concat(canon, mirror_list(canon), r, c);
    lemma_canonical_values(entries, r, c);
    lemma_mirror_values(entries, r, c);
    assert(values_at(canon, r, c) + values_at(mirror_list(canon), r, c) =~= claims(entries, r, c));
}

/// Orientation plays no part in what is claimed for a coordinate.
pub proof fn lemma_claims_symmetric(entries: Seq<Entry>, i: int, j: int)
    ensures
        claims(entries, i, j) == claims(entries, j, i),
    decreases entries.len(),
{
    if entries.len() > 0 {
        lemma_claims_symmetric(entries.drop_last(), i, j);
    }
}

/// Every claim is the value of an entry that names the coordinate, and the
/// claims before it come from the entries before that one.
pub proof fn lemma_claims_source(entries: Seq<Entry>, i: int, j: int, m: int) -> (k: int)
    requires
        0 <= m < claims(entries, i, j).len(),
    ensures
        0 <= k < entries.len(),
        entries[k].touches(i, j),
        entries[k].v == claims(entries, i, j)[m],
        claims(entries.take(k), i, j).len() == m,
    decreases entries.len(),
{
    let front = entries.drop_last();
    let rest = claims(front, i, j);
    if entries.last().touches(i, j) && m == rest.len() {
        assert(entries.take(entries.len() - 1) =~= front);
        entries.len() - 1
    } else {
        let k = lemma_claims_source(front, i, j, m);
        assert(front.take(k) =~= entries.take(k));
        k
    }
}

/// An entry that names a coordinate contributes a claim to it.
pub proof fn lemma_claims_present(entries: Seq<Entry>, k: int, i: int, j: int)
    requires
        0 <= k < entries.len(),
        entries[k].touches(i, j),
    ensures
        claims(entries, i, j).len() > claims(entries.take(k), i, j).len(),
        claims(entries, i, j)[claims(entries.take(k), i, j).len() as int] == entries[k].v,
    decreases entries.len(),
{
    let front = entries.drop_last();
    if k == entries.len() - 1 {
        assert(entries.take(k) =~= front);
    } else {
        lemma_claims_present(front, k, i, j);
        assert(front.take(k) =~= entries.take(k));
    }
}

/// No entry mentions an index above the largest one.
pub proof fn lemma_max_index_bounds(entries: Seq<Entry>, k: int)
    requires
        0 <= k < entries.len(),
    ensures
        entries[k].x <= max_index(entries),
        entries[k].y <= max_index(entries),
    decreases entries.len(),
{
    if k < entries.len() - 1 {
        lemma_max_index_bounds(entries.drop_last(), k);
    }
}

/// In a list that is not empty some entry mentions the largest index.
pub proof fn lemma_max_index_attained(entries: Seq<Entry>) -> (k: int)
    requires
        entries.len() > 0,
    ensures
        0 <= k < entries.len(),
        entries[k].x == max_index(entries) || entries[k].y == max_index(entries),
    decreases entries.len(),
{
    let front = entries.drop_last();
    let e = entries.last();
    let top: int = if e.x <= e.y { e.y as int } else { e.x as int };
    if front.len() == 0 {
        assert(max_index(front) == -1);
        entries.len() - 1
    } else if max_index(front) <= top {
        entries.len() - 1
    } else {
        lemma_max_index_attained(front)
    }
}

/// Entry `k` is the first of the list to name the coordinate `{i, j}`.
pub open spec fn is_first(entries: Seq<Entry>, k: int, i: int, j: int) -> bool {
    &&& 0 <= k < entries.len()
    &&& entries[k].touches(i, j)
    &&& forall|q: int| 0 <= q < k ==> !(#[trigger] entries[q]).touches(i, j)
}

/// The first claim for a coordinate is the value of the first entry that
/// names it, and there is none exactly when no entry names it.
pub proof fn lemma_first_claim_is_first(entries: Seq<Entry>, i: int, j: int)
    ensures
        match first_claim(entries, i, j) {
            Some(v) => exists|k: int| #[trigger] is_first(entries, k, i, j) && entries[k].v == v,
            None => forall|k: int| 0 <= k < entries.len() ==> !(#[trigger] entries[k]).touches(i, j),
        },
{
    if claims(entries, i, j).len() > 0 {
        let k = lemma_claims_source(entries, i, j, 0);
        assert forall|q: int| 0 <= q < k implies !(#[trigger] entries[q]).touches(i, j) by {
            if entries[q].touches(i, j) {
                assert(entries.take(k)[q] == entries[q]);
                lemma_claims_present(entries.take(k), q, i, j);
            }
        }
        assert(is_first(entries, k, i, j));
    } else {
        assert forall|k: int| 0 <= k < entries.len() implies !(#[trigger] entries[k]).touches(
            i,
            j,
        ) by {
            if entries[k].touches(i, j) {
                lemma_claims_present(entries, k, i, j);
            }
        }
    }
}

/// Where no coordinate is named twice, no coordinate has two claims.
pub proof fn lemma_distinct_single_claim(entries: Seq<Entry>, i: int, j: int)
    requires
        distinct_coordinates(entries),
    ensures
        claims(entries, i, j).len() <= 1,
{
    if claims(entries, i, j).len() >= 2 {
        let a = lemma_claims_source(entries, i, j, 0);
        let b = lemma_claims_source(entries, i, j, 1);
        if a < b {
            assert(entries[a].touches(entries[b].x as int, entries[b].y as int));
        } else if b < a {
            assert(entries[b].touches(entries[a].x as int, entries[a].y as int));
        }
    }
}

/// Two lists without repeated coordinates, the second holding every entry
/// of the first, agree on every claim that the first makes.
pub proof fn lemma_claims_carry_over(first: Seq<Entry>, second: Seq<Entry>, i: int, j: int)
    requires
        distinct_coordinates(second),
        forall|e: Entry| first.contains(e) ==> second.contains(e),
        first_claim(first, i, j) is Some,
    ensures
        first_claim(second, i, j) == first_claim(first, i, j),
{
    let k = lemma_claims_source(first, i, j, 0);
    assert(first.contains(first[k]));
    assert(second.contains(first[k]));
    let q = choose|q: int| 0 <= q < second.len() && second[q] == first[k];
    lemma_claims_present(second, q, i, j);
    lemma_distinct_single_claim(second, i, j);
}

/// A list that holds every entry of another mentions an index at least as
/// large.
pub proof fn lemma_max_index_monotone(first: Seq<Entry>, second: Seq<Entry>)
    requires
        forall|e: Entry| first.contains(e) ==> second.contains(e),
    ensures
        max_index(first) <= max_index(second),
{
    lemma_max_index_least(second);
    if first.len() > 0 {
        let k = lemma_max_index_attained(first);
        assert(first.contains(first[k]));
        assert(second.contains(first[k]));
        let q = choose|q: int| 0 <= q < second.len() && second[q] == first[k];
        lemma_max_index_bounds(second, q);
    } else {
        assert(max_index(first) == -1);
    }
}

/// The largest index is -1 only for the empty list, and never less.
pub proof fn lemma_max_index_least(entries: Seq<Entry>)
    ensures
        max_index(entries) >= -1,
        entries.len() > 0 ==> max_index(entries) >= 0,
    decreases entries.len(),
{
    if entries.len() > 0 {
        lemma_max_index_least(entries.drop_last());
    }
}

/// One more than the largest index that the entries mention; zero for an
/// empty list.
pub fn extent(entries: &[Entry]) -> (n: usize)
    requires
        forall|k: int|
            0 <= k < entries@.len() ==> (#[trigger] entries@[k]).x < usize::MAX && entries@[k].y
                < usize::MAX,
    ensures
        n == 1 + max_index(entries@),
{
    let mut n: usize = 0;
    let mut k: usize = 0;
    while k < entries.len()
        invariant
            k <= entries@.len(),
            n == 1 + max_index(entries@.take(k as int)),
            forall|k: int|
                0 <= k < entries@.len() ==> (#[trigger] entries@[k]).x < usize::MAX
                    && entries@[k].y < usize::MAX,
        decreases entries@.len() - k,
    {
        let e: Entry = entries[k];
        let top: usize = if e.x <= e.y { e.y } else { e.x };
        proof {
            assert(entries@.take(k + 1).drop_last() =~= entries@.take(k as int));
            assert(entries@.take(k + 1).last() == e);
        }
        if n <= top {
            n = top + 1;
        }
        k = k + 1;
    }
    proof {
        assert(entries@.take(k as int) =~= entries@);
    }
    n
}

} // verus!
