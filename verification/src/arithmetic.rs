//! The arithmetic that the library asks of its caller.
//!
//! Every rounding operation is described by an [`Operation`] on bit patterns
//! and handed to a function that the caller supplies. The library fixes which
//! operations are performed and in which order; contracts speak of the
//! results through what that function promises about them.

use vstd::prelude::*;

verus! {

/// One rounding operation on binary64 patterns.
#[derive(Debug, Clone, Copy, PartialEq, Eq)]
pub enum Operation {
    /// `acc + a * b`, the product rounded before the sum is taken.
    MulAdd { acc: u64, a: u64, b: u64 },
    /// `a - b`.
    Sub { a: u64, b: u64 },
    /// `a * b`.
    Mul { a: u64, b: u64 },
    /// `a / b`.
    Div { a: u64, b: u64 },
    /// The square root of `a`.
    Sqrt { a: u64 },
}

/// The arithmetic accepts every operation.
pub open spec fn total<A: Fn(Operation) -> u64>(arith: A) -> bool {
    forall|op: Operation| call_requires(arith, (op,))
}

/// The arithmetic may answer `r` when asked for `op`.
pub open spec fn yields<A: Fn(Operation) -> u64>(arith: A, op: Operation, r: u64) -> bool {
    call_ensures(arith, (op,), r)
}

/// The arithmetic has one answer to every operation.
pub open spec fn deterministic<A: Fn(Operation) -> u64>(arith: A) -> bool {
    forall|op: Operation, r: u64, s: u64|
        #![trigger yields(arith, op, r), yields(arith, op, s)]
        yields(arith, op, r) && yields(arith, op, s) ==> r == s
}

/// `acc` can be reached by starting from zero and taking in the product of
/// every pair of `terms`, from left to right, with one `MulAdd` each.
pub open spec fn sums<A: Fn(Operation) -> u64>(arith: A, terms: Seq<(u64, u64)>, acc: u64) -> bool
    decreases terms.len(),
{
    if terms.len() == 0 {
        acc == 0
    } else {
        exists|prev: u64|
            sums(arith, terms.drop_last(), prev) && #[trigger] yields(
                arith,
                Operation::MulAdd { acc: prev, a: terms.last().0, b: terms.last().1 },
                acc,
            )
    }
}

/// Under a deterministic arithmetic a sum has one value.
pub proof fn lemma_sums_deterministic<A: Fn(Operation) -> u64>(
    arith: A,
    terms: Seq<(u64, u64)>,
    r: u64,
    s: u64,
)
    requires
        deterministic(arith),
        sums(arith, terms, r),
        sums(arith, terms, s),
    ensures
        r == s,
    decreases terms.len(),
{
    if terms.len() > 0 {
        let front = terms.drop_last();
        let pr = choose|prev: u64|
            sums(arith, front, prev) && #[trigger] yields(
                arith,
                Operation::MulAdd { acc: prev, a: terms.last().0, b: terms.last().1 },
                r,
            );
        let ps = choose|prev: u64|
            sums(arith, front, prev) && #[trigger] yields(
                arith,
                Operation::MulAdd { acc: prev, a: terms.last().0, b: terms.last().1 },
                s,
            );
        lemma_sums_deterministic(arith, front, pr, ps);
    }
}

} // verus!
