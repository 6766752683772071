//! Dense vectors of binary64 patterns and the operations on them that the
//! conjugate-gradient iteration needs.

use vstd::prelude::*;
use crate::arithmetic::{deterministic, lemma_sums_deterministic, sums, total, yields, Operation};
use crate::binary64::ZERO;
use crate::error::Error;

verus! {

/// A vector of fixed length, one binary64 pattern per component.
#[derive(Debug, Clone, PartialEq, Eq)]
pub struct Vector(pub Vec<u64>);

impl View for Vector {
    type V = Seq<u64>;

    open spec fn view(&self) -> Seq<u64> {
        self.0@
    }
}

/// The vector of `n` zeros.
pub open spec fn zeros(n: nat) -> Seq<u64> {
    Seq::new(n, |i: int| ZERO)
}

/// The components of two vectors side by side.
pub open spec fn zipped(x: Seq<u64>, y: Seq<u64>) -> Seq<(u64, u64)> {
    Seq::new(x.len(), |i: int| (x[i], y[i]))
}

/// `d` is the dot product of `x` and `y`, summed from the first component to
/// the last.
pub open spec fn dot_is<A: Fn(Operation) -> u64>(
    arith: A,
    x: Seq<u64>,
    y: Seq<u64>,
    d: u64,
) -> bool {
    sums(arith, zipped(x, y), d)
}

/// `out` is `x + alpha * y`, component by component.
pub open spec fn scaled_sum_is<A: Fn(Operation) -> u64>(
    arith: A,
    x: Seq<u64>,
    alpha: u64,
    y: Seq<u64>,
    out: Seq<u64>,
) -> bool {
    out.len() == x.len() && forall|i: int|
        0 <= i < x.len() ==> yields(
            arith,
            Operation::MulAdd { acc: x[i], a: alpha, b: y[i] },
            #[trigger] out[i],
        )
}

/// `out` is `x - y`, component by component.
pub open spec fn difference_is<A: Fn(Operation) -> u64>(
    arith: A,
    x: Seq<u64>,
    y: Seq<u64>,
    out: Seq<u64>,
) -> bool {
    out.len() == x.len() && forall|i: int|
        0 <= i < x.len() ==> yields(arith, Operation::Sub { a: x[i], b: y[i] }, #[trigger] out[i])
}

/// `n` is the Euclidean norm of `x`: the square root of its dot product with
/// itself.
pub open spec fn norm_is<A: Fn(Operation) -> u64>(arith: A, x: Seq<u64>, n: u64) -> bool {
    exists|d: u64| dot_is(arith, x, x, d) && #[trigger] yields(arith, Operation::Sqrt { a: d }, n)
}

impl Vector {
    /// The number of components.
    pub fn len(&self) -> (n: usize)
        ensures
            n == self@.len(),
    {
        self.0.len()
    }

    /// The vector of `n` zeros.
    pub fn zeros(n: usize) -> (v: Vector)
        ensures
            v@ == zeros(n as nat),
    {
        let mut bits: Vec<u64> = Vec::with_capacity(n);
        let mut i: usize = 0;
        while i < n
            invariant
                i <= n,
                bits@ == zeros(i as nat),
            decreases n - i,
        {
            bits.push(ZERO);
            proof {
                assert(bits@ =~= zeros((i + 1) as nat));
            }
            i = i + 1;
        }
        Vector(bits)
    }

    /// An independent copy.
    pub fn copy(&self) -> (v: Vector)
        ensures
            v@ == self@,
    {
        let mut bits: Vec<u64> = Vec::with_capacity(self.0.len());
        let mut i: usize = 0;
        while i < self.0.len()
            invariant
                i <= self@.len(),
                bits@ == self@.take(i as int),
            decreases self@.len() - i,
        {
            bits.push(self.0[i]);
            proof {
                assert(bits@ =~= self@.take(i + 1));
            }
            i = i + 1;
        }
        proof {
            assert(self@.take(i as int) =~= self@);
        }
        Vector(bits)
    }

    /// The dot product of two vectors known to be equally long.
    pub(crate) fn dot_same_length<A: Fn(Operation) -> u64>(
        &self,
        other: &Vector,
        arith: &A,
    ) -> (acc: u64)
        requires
            total(*arith),
            self@.len() == other@.len(),
        ensures
            dot_is(*arith, self@, other@, acc),
    {
        let n: usize = self.0.len();
        let ghost terms = zipped(self@, other@);
        let mut acc: u64 = ZERO;
        let mut i: usize = 0;
        proof {
            assert(terms.take(0).len() == 0);
        }
        while i < n
            invariant
                i <= n,
                n == self@.len(),
                n == other@.len(),
                terms == zipped(self@, other@),
                total(*arith),
                sums(*arith, terms.take(i as int), acc),
            decreases n - i,
        {
            let ghost prev = acc;
            acc = arith(Operation::MulAdd { acc, a: self.0[i], b: other.0[i] });
            proof {
                let longer = terms.take(i + 1);
                assert(longer.drop_last() =~= terms.take(i as int));
                assert(yields(
                    *arith,
                    Operation::MulAdd { acc: prev, a: longer.last().0, b: longer.last().1 },
                    acc,
                ));
            }
            i = i + 1;
        }
        proof {
            assert(terms.take(i as int) =~= terms);
        }
        acc
    }

    /// The dot product with `other`, summed from the first component to the
    /// last.
    pub fn dot<A: Fn(Operation) -> u64>(&self, other: &Vector, arith: &A) -> (out: Result<
        u64,
        Error,
    >)
        requires
            total(*arith),
        ensures
            match out {
                Ok(d) => self@.len() == other@.len() && dot_is(*arith, self@, other@, d),
                Err(e) => e == Error::DimensionMismatch && self@.len() != other@.len(),
            },
    {
        if other.0.len() != self.0.len() {
            return Err(Error::DimensionMismatch);
        }
        Ok(self.dot_same_length(other, arith))
    }

    /// `self + alpha * other` for two vectors known to be equally long.
    pub(crate) fn scaled_add_same_length<A: Fn(Operation) -> u64>(
        &self,
        alpha: u64,
        other: &Vector,
        arith: &A,
    ) -> (v: Vector)
        requires
            total(*arith),
            self@.len() == other@.len(),
        ensures
            scaled_sum_is(*arith, self@, alpha, other@, v@),
    {
        let n: usize = self.0.len();
        let mut bits: Vec<u64> = Vec::with_capacity(n);
        let mut i: usize = 0;
        while i < n
            invariant
                i <= n,
                n == self@.len(),
                n == other@.len(),
                total(*arith),
                bits@.len() == i,
                forall|k: int|
                    0 <= k < i ==> yields(
                        *arith,
                        Operation::MulAdd { acc: self@[k], a: alpha, b: other@[k] },
                        #[trigger] bits@[k],
                    ),
            decreases n - i,
        {
            let b: u64 = arith(Operation::MulAdd { acc: self.0[i], a: alpha, b: other.0[i] });
            bits.push(b);
            i = i + 1;
        }
        Vector(bits)
    }

    /// `self + alpha * other`, as a new vector.
    pub fn scaled_add<A: Fn(Operation) -> u64>(
        &self,
        alpha: u64,
        other: &Vector,
        arith: &A,
    ) -> (out: Result<Vector, Error>)
        requires
            total(*arith),
        ensures
            match out {
                Ok(v) => self@.len() == other@.len() && scaled_sum_is(
                    *arith,
                    self@,
                    alpha,
                    other@,
                    v@,
                ),
                Err(e) => e == Error::DimensionMismatch && self@.len() != other@.len(),
            },
    {
        if other.0.len() != self.0.len() {
            return Err(Error::DimensionMismatch);
        }
        Ok(self.scaled_add_same_length(alpha, other, arith))
    }

    /// `self - other`, as a new vector.
    pub fn sub<A: Fn(Operation) -> u64>(&self, other: &Vector, arith: &A) -> (out: Result<
        Vector,
        Error,
    >)
        requires
            total(*arith),
        ensures
            match out {
                Ok(v) => self@.len() == other@.len() && difference_is(*arith, self@, other@, v@),
                Err(e) => e == Error::DimensionMismatch && self@.len() != other@.len(),
            },
    {
        let n: usize = self.0.len();
        if other.0.len() != n {
            return Err(Error::DimensionMismatch);
        }
        let mut bits: Vec<u64> = Vec::with_capacity(n);
        let mut i: usize = 0;
        while i < n
            invariant
                i <= n,
                n == self@.len(),
                n == other@.len(),
                total(*arith),
                bits@.len() == i,
                forall|k: int|
                    0 <= k < i ==> yields(
                        *arith,
                        Operation::Sub { a: self@[k], b: other@[k] },
                        #[trigger] bits@[k],
                    ),
            decreases n - i,
        {
            let b: u64 = arith(Operation::Sub { a: self.0[i], b: other.0[i] });
            bits.push(b);
            i = i + 1;
        }
        Ok(Vector(bits))
    }

    /// The Euclidean norm.
    pub fn norm<A: Fn(Operation) -> u64>(&self, arith: &A) -> (n: u64)
        requires
            total(*arith),
        ensures
            norm_is(*arith, self@, n),
    {
        let d: u64 = self.dot_same_length(self, arith);
        let n: u64 = arith(Operation::Sqrt { a: d });
        proof {
            assert(yields(*arith, Operation::Sqrt { a: d }, n));
        }
        n
    }
}

/// Under a deterministic arithmetic a dot product has one value.
pub proof fn lemma_dot_deterministic<A: Fn(Operation) -> u64>(
    arith: A,
    x: Seq<u64>,
    y: Seq<u64>,
    d: u64,
    e: u64,
)
    requires
        deterministic(arith),
        dot_is(arith, x, y, d),
        dot_is(arith, x, y, e),
    ensures
        d == e,
{
    lemma_sums_deterministic(arith, zipped(x, y), d, e);
}

/// Under a deterministic arithmetic a norm has one value.
pub proof fn lemma_norm_deterministic<A: Fn(Operation) -> u64>(
    arith: A,
    x: Seq<u64>,
    m: u64,
    n: u64,
)
    requires
        deterministic(arith),
        norm_is(arith, x, m),
        norm_is(arith, x, n),
    ensures
        m == n,
{
    let d = choose|d: u64|
        dot_is(arith, x, x, d) && #[trigger] yields(arith, Operation::Sqrt { a: d }, m);
    let e = choose|e: u64|
        dot_is(arith, x, x, e) && #[trigger] yields(arith, Operation::Sqrt { a: e }, n);
    lemma_dot_deterministic(arith, x, x, d, e);
}

/// Under a deterministic arithmetic a scaled sum has one value.
pub proof fn lemma_scaled_sum_deterministic<A: Fn(Operation) -> u64>(
    arith: A,
    x: Seq<u64>,
    alpha: u64,
    y: Seq<u64>,
    u: Seq<u64>,
    v: Seq<u64>,
)
    requires
        deterministic(arith),
        scaled_sum_is(arith, x, alpha, y, u),
        scaled_sum_is(arith, x, alpha, y, v),
    ensures
        u == v,
{
    assert forall|i: int| 0 <= i < u.len() implies u[i] == v[i] by {
        assert(yields(arith, Operation::MulAdd { acc: x[i], a: alpha, b: y[i] }, u[i]));
        assert(yields(arith, Operation::MulAdd { acc: x[i], a: alpha, b: y[i] }, v[i]));
    }
    assert(u =~= v);
}

} // verus!
