//! The arithmetic that the model is computed with.
//!
//! Every kernel is generic over a [`Scalar`]. Nothing is assumed of the scalar operations: not
//! that they round in some way, nor that two calls on the same operands agree. Contracts say
//! which operations were applied to which operands, and in which order, by way of an [`Expr`]
//! and the relation [`evals`].

use vstd::prelude::*;

verus! {

/// How an operand of a matrix product is read.
#[derive(Clone, Copy, PartialEq, Eq, Structural, Debug)]
pub enum Transpose {
    /// The operand is taken as it is stored.
    Plain,
    /// The operand is the transpose of what is stored.
    Ordinary,
}

/// The number of rows of a matrix operand as it is stored, when the operand itself has `rows`
/// rows and `cols` columns.
pub open spec fn stored_rows(trans: Transpose, rows: int, cols: int) -> int {
    match trans {
        Transpose::Plain => rows,
        Transpose::Ordinary => cols,
    }
}

/// The number of columns of a matrix operand as it is stored.
pub open spec fn stored_cols(trans: Transpose, rows: int, cols: int) -> int {
    match trans {
        Transpose::Plain => cols,
        Transpose::Ordinary => rows,
    }
}

/// What the scalar type has to offer. The functions carry no promise on their results.
pub trait Scalar: Copy + Send + Sync {
    /// The number zero.
    fn zero() -> Self;

    /// The number one.
    fn one() -> Self;

    /// The number `mantissa` divided by ten to the power `places`.
    fn decimal(mantissa: u64, places: u32) -> Self;

    /// The number `n`.
    fn from_usize(n: usize) -> Self;

    /// The circle constant.
    fn pi() -> Self;

    /// A value below every number.
    fn neg_infinity() -> Self;

    /// The largest finite number.
    fn max_value() -> Self;

    /// The number that the 32 bits of its storage format stand for.
    fn from_bits(bits: u32) -> Self;

    /// The number that `text` spells, if it spells one.
    fn parse(text: &str) -> Option<Self>;

    /// The sum.
    fn add(self, other: Self) -> Self;

    /// The difference.
    fn sub(self, other: Self) -> Self;

    /// The product.
    fn mul(self, other: Self) -> Self;

    /// The quotient.
    fn div(self, other: Self) -> Self;

    /// The larger of the two.
    fn max(self, other: Self) -> Self;

    /// The smaller of the two.
    fn min(self, other: Self) -> Self;

    /// The number with its sign changed.
    fn neg(self) -> Self;

    /// The square root.
    fn sqrt(self) -> Self;

    /// The exponential.
    fn exp(self) -> Self;

    /// The natural logarithm.
    fn ln(self) -> Self;

    /// The hyperbolic tangent.
    fn tanh(self) -> Self;

    /// The hyperbolic cosine.
    fn cosh(self) -> Self;

    /// The number to the power `n`.
    fn powi(self, n: i32) -> Self;

    /// Whether the number is greater than `other`.
    fn gt(self, other: Self) -> bool;

    /// Whether the number is less than `other`.
    fn lt(self, other: Self) -> bool;

    /// Whether the two numbers are equal.
    fn eq(self, other: Self) -> bool;

    /// The product of an `m` by `k` matrix and a `k` by `n` matrix, row after row. The operands
    /// are stored row after row as well, `lda` and `ldb` elements from one row to the next.
    fn gemm(
        trans_a: Transpose,
        trans_b: Transpose,
        m: i32,
        n: i32,
        k: i32,
        a: &[Self],
        lda: i32,
        b: &[Self],
        ldb: i32,
    ) -> Vec<Self>
        requires
            0 <= m,
            0 <= n,
            0 <= k,
            lda == stored_cols(trans_a, m as int, k as int),
            ldb == stored_cols(trans_b, k as int, n as int),
            stored_rows(trans_a, m as int, k as int) * lda <= a@.len(),
            stored_rows(trans_b, k as int, n as int) * ldb <= b@.len(),
    ;
}

/// A named constant of the scalar type.
pub enum Named {
    Zero,
    One,
    Pi,
    NegInfinity,
    MaxValue,
}

/// An operation on one scalar.
pub enum Unary {
    Neg,
    Sqrt,
    Exp,
    Ln,
    Tanh,
    Cosh,
    /// A power with a whole exponent.
    Powi(i32),
}

/// An operation on two scalars.
pub enum Binary {
    Plus,
    Minus,
    Times,
    Over,
    Max,
    Min,
    /// The first operand if it compares greater than the second, and else the second.
    Greater,
}

/// `v` may be what the scalar type gives for the constant `k`.
pub open spec fn names<T: Scalar>(k: Named, v: T) -> bool {
    match k {
        Named::Zero => call_ensures(T::zero, (), v),
        Named::One => call_ensures(T::one, (), v),
        Named::Pi => call_ensures(T::pi, (), v),
        Named::NegInfinity => call_ensures(T::neg_infinity, (), v),
        Named::MaxValue => call_ensures(T::max_value, (), v),
    }
}

/// `v` may be the result of `op` on `x`.
pub open spec fn applies<T: Scalar>(op: Unary, x: T, v: T) -> bool {
    match op {
        Unary::Neg => call_ensures(T::neg, (x,), v),
        Unary::Sqrt => call_ensures(T::sqrt, (x,), v),
        Unary::Exp => call_ensures(T::exp, (x,), v),
        Unary::Ln => call_ensures(T::ln, (x,), v),
        Unary::Tanh => call_ensures(T::tanh, (x,), v),
        Unary::Cosh => call_ensures(T::cosh, (x,), v),
        Unary::Powi(n) => call_ensures(T::powi, (x, n), v),
    }
}

/// `v` may be the result of `op` on `x` and `y`.
pub open spec fn combines<T: Scalar>(op: Binary, x: T, y: T, v: T) -> bool {
    match op {
        Binary::Plus => call_ensures(T::add, (x, y), v),
        Binary::Minus => call_ensures(T::sub, (x, y), v),
        Binary::Times => call_ensures(T::mul, (x, y), v),
        Binary::Over => call_ensures(T::div, (x, y), v),
        Binary::Max => call_ensures(T::max, (x, y), v),
        Binary::Min => call_ensures(T::min, (x, y), v),
        Binary::Greater => {
            ||| call_ensures(T::gt, (x, y), true) && v == x
            ||| call_ensures(T::gt, (x, y), false) && v == y
        },
    }
}

/// A formula over scalars.
pub enum Expr<T> {
    /// A given value.
    Lit(T),
    /// A named constant.
    Const(Named),
    /// `mantissa` divided by ten to the power `places`.
    Decimal(u64, u32),
    /// A whole number.
    Count(usize),
    /// An operation on one operand.
    Un(Unary, Box<Expr<T>>),
    /// An operation on two operands.
    Bin(Binary, Box<Expr<T>>, Box<Expr<T>>),
}

/// The formula that is the value `x`.
pub open spec fn lit<T>(x: T) -> Expr<T> {
    Expr::Lit(x)
}

/// The formula for zero.
pub open spec fn nought<T>() -> Expr<T> {
    Expr::Const(Named::Zero)
}

/// The formula for one.
pub open spec fn unit<T>() -> Expr<T> {
    Expr::Const(Named::One)
}

impl<T> Expr<T> {
    pub open spec fn plus(self, other: Expr<T>) -> Expr<T> {
        Expr::Bin(Binary::Plus, Box::new(self), Box::new(other))
    }

    pub open spec fn minus(self, other: Expr<T>) -> Expr<T> {
        Expr::Bin(Binary::Minus, Box::new(self), Box::new(other))
    }

    pub open spec fn times(self, other: Expr<T>) -> Expr<T> {
        Expr::Bin(Binary::Times, Box::new(self), Box::new(other))
    }

    pub open spec fn over(self, other: Expr<T>) -> Expr<T> {
        Expr::Bin(Binary::Over, Box::new(self), Box::new(other))
    }

    pub open spec fn max(self, other: Expr<T>) -> Expr<T> {
        Expr::Bin(Binary::Max, Box::new(self), Box::new(other))
    }

    pub open spec fn min(self, other: Expr<T>) -> Expr<T> {
        Expr::Bin(Binary::Min, Box::new(self), Box::new(other))
    }

    pub open spec fn greater(self, other: Expr<T>) -> Expr<T> {
        Expr::Bin(Binary::Greater, Box::new(self), Box::new(other))
    }

    pub open spec fn neg(self) -> Expr<T> {
        Expr::Un(Unary::Neg, Box::new(self))
    }

    pub open spec fn sqrt(self) -> Expr<T> {
        Expr::Un(Unary::Sqrt, Box::new(self))
    }

    pub open spec fn exp(self) -> Expr<T> {
        Expr::Un(Unary::Exp, Box::new(self))
    }

    pub open spec fn ln(self) -> Expr<T> {
        Expr::Un(Unary::Ln, Box::new(self))
    }

    pub open spec fn tanh(self) -> Expr<T> {
        Expr::Un(Unary::Tanh, Box::new(self))
    }

    pub open spec fn cosh(self) -> Expr<T> {
        Expr::Un(Unary::Cosh, Box::new(self))
    }

    pub open spec fn powi(self, n: i32) -> Expr<T> {
        Expr::Un(Unary::Powi(n), Box::new(self))
    }
}

/// `v` may be the value of the formula `e`: there are values of its parts, obtained by the
/// operations of the scalar type, from which its last operation gives `v`.
#[verifier::opaque]
pub open spec fn evals<T: Scalar>(e: Expr<T>, v: T) -> bool
    decreases e,
{
    match e {
        Expr::Lit(x) => v == x,
        Expr::Const(k) => names(k, v),
        Expr::Decimal(mantissa, places) => call_ensures(T::decimal, (mantissa, places), v),
        Expr::Count(n) => call_ensures(T::from_usize, (n,), v),
        Expr::Un(op, a) => exists|x: T| evals(*a, x) && #[trigger] applies(op, x, v),
        Expr::Bin(op, a, b) => exists|x: T, y: T|
            evals(*a, x) && evals(*b, y) && #[trigger] combines(op, x, y, v),
    }
}

/// The sum of the first `n` elements of `x`, added up from zero in their order.
pub open spec fn total<T>(x: Seq<T>, n: int) -> Expr<T>
    decreases n,
{
    if n <= 0 {
        nought()
    } else {
        total(x, n - 1).plus(lit(x[n - 1]))
    }
}

/// `inv` is the reciprocal of `x`, or zero where `x` compares equal to zero.
pub open spec fn inverts<T: Scalar>(x: T, inv: T) -> bool {
    exists|z: T| #[trigger]
        names(Named::Zero, z) && {
            ||| call_ensures(T::eq, (x, z), true) && evals(nought(), inv)
            ||| call_ensures(T::eq, (x, z), false) && evals(unit().over(lit(x)), inv)
        }
}

/// A value is the one value of the formula that quotes it.
pub proof fn lemma_lit<T: Scalar>(x: T)
    ensures
        evals(lit(x), x),
        forall|v: T| #[trigger] evals(lit(x), v) ==> v == x,
{
    reveal(evals);
}

proof fn lemma_un<T: Scalar>(op: Unary, a: Expr<T>, x: T, v: T)
    requires
        evals(a, x),
        applies(op, x, v),
    ensures
        evals(Expr::Un(op, Box::new(a)), v),
{
    reveal(evals);
}

proof fn lemma_bin<T: Scalar>(op: Binary, a: Expr<T>, b: Expr<T>, x: T, y: T, v: T)
    requires
        evals(a, x),
        evals(b, y),
        combines(op, x, y, v),
    ensures
        evals(Expr::Bin(op, Box::new(a), Box::new(b)), v),
{
    reveal(evals);
}

/// A value that was added to may be replaced by the formula that it is a value of.
pub proof fn lemma_chain<T: Scalar>(a: Expr<T>, x: T, e: Expr<T>, y: T)
    requires
        evals(a, x),
        evals(lit(x).plus(e), y),
    ensures
        evals(a.plus(e), y),
{
    reveal(evals);
    lemma_lit(x);
    let (u, w) = choose|u: T, w: T|
        evals(lit(x), u) && evals(e, w) && #[trigger] combines(Binary::Plus, u, w, y);
    assert(u == x);
    lemma_bin(Binary::Plus, a, e, x, w, y);
}

/// Adds up the elements of `x`.
pub fn sum<T: Scalar>(x: &[T]) -> (r: Traced<T>)
    ensures
        r.ok(),
        r.e@ == total(x@, x@.len() as int),
{
    let mut acc = Traced::zero();
    for i in 0..x.len()
        invariant
            acc.ok(),
            acc.e@ == total(x@, i as int),
    {
        acc = acc.plus(&Traced::quote(x[i]));
    }
    acc
}

/// The reciprocal of `x`, or zero where `x` compares equal to zero.
pub fn invert<T: Scalar>(x: T) -> (inv: T)
    ensures
        inverts(x, inv),
{
    let z = T::zero();
    assert(names(Named::Zero, z));
    if x.eq(z) {
        Traced::zero().v
    } else {
        Traced::one().over(&Traced::quote(x)).v
    }
}

/// A scalar together with a record of how it was computed.
pub struct Traced<T> {
    /// The scalar.
    pub v: T,
    /// The formula that it is a value of.
    pub e: Ghost<Expr<T>>,
}

impl<T: Scalar> Traced<T> {
    /// The record is true of the scalar.
    pub open spec fn ok(self) -> bool {
        evals(self.e@, self.v)
    }

    /// The value `x`, quoted.
    pub fn quote(x: T) -> (r: Traced<T>)
        ensures
            r.ok(),
            r.v == x,
            r.e@ == lit(x),
    {
        proof {
            lemma_lit(x);
        }
        Traced { v: x, e: Ghost(lit(x)) }
    }

    /// Zero.
    pub fn zero() -> (r: Traced<T>)
        ensures
            r.ok(),
            r.e@ == nought::<T>(),
    {
        reveal(evals);
        Traced { v: T::zero(), e: Ghost(nought()) }
    }

    /// One.
    pub fn one() -> (r: Traced<T>)
        ensures
            r.ok(),
            r.e@ == unit::<T>(),
    {
        reveal(evals);
        Traced { v: T::one(), e: Ghost(unit()) }
    }

    /// The circle constant.
    pub fn pi() -> (r: Traced<T>)
        ensures
            r.ok(),
            r.e@ == Expr::<T>::Const(Named::Pi),
    {
        reveal(evals);
        Traced { v: T::pi(), e: Ghost(Expr::Const(Named::Pi)) }
    }

    /// A value below every number.
    pub fn neg_infinity() -> (r: Traced<T>)
        ensures
            r.ok(),
            r.e@ == Expr::<T>::Const(Named::NegInfinity),
    {
        reveal(evals);
        Traced { v: T::neg_infinity(), e: Ghost(Expr::Const(Named::NegInfinity)) }
    }

    /// The largest finite number.
    pub fn max_value() -> (r: Traced<T>)
        ensures
            r.ok(),
            r.e@ == Expr::<T>::Const(Named::MaxValue),
    {
        reveal(evals);
        Traced { v: T::max_value(), e: Ghost(Expr::Const(Named::MaxValue)) }
    }

    /// `mantissa` divided by ten to the power `places`.
    pub fn decimal(mantissa: u64, places: u32) -> (r: Traced<T>)
        ensures
            r.ok(),
            r.e@ == Expr::<T>::Decimal(mantissa, places),
    {
        reveal(evals);
        Traced { v: T::decimal(mantissa, places), e: Ghost(Expr::Decimal(mantissa, places)) }
    }

    /// The whole number `n`.
    pub fn count(n: usize) -> (r: Traced<T>)
        ensures
            r.ok(),
            r.e@ == Expr::<T>::Count(n),
    {
        reveal(evals);
        Traced { v: T::from_usize(n), e: Ghost(Expr::Count(n)) }
    }

    pub fn plus(&self, other: &Traced<T>) -> (r: Traced<T>)
        requires
            self.ok(),
            other.ok(),
        ensures
            r.ok(),
            r.e@ == self.e@.plus(other.e@),
    {
        let v = self.v.add(other.v);
        proof {
            lemma_bin(Binary::Plus, self.e@, other.e@, self.v, other.v, v);
        }
        Traced { v, e: Ghost(self.e@.plus(other.e@)) }
    }

    pub fn minus(&self, other: &Traced<T>) -> (r: Traced<T>)
        requires
            self.ok(),
            other.ok(),
        ensures
            r.ok(),
            r.e@ == self.e@.minus(other.e@),
    {
        let v = self.v.sub(other.v);
        proof {
            lemma_bin(Binary::Minus, self.e@, other.e@, self.v, other.v, v);
        }
        Traced { v, e: Ghost(self.e@.minus(other.e@)) }
    }

    pub fn times(&self, other: &Traced<T>) -> (r: Traced<T>)
        requires
            self.ok(),
            other.ok(),
        ensures
            r.ok(),
            r.e@ == self.e@.times(other.e@),
    {
        let v = self.v.mul(other.v);
        proof {
            lemma_bin(Binary::Times, self.e@, other.e@, self.v, other.v, v);
        }
        Traced { v, e: Ghost(self.e@.times(other.e@)) }
    }

    pub fn over(&self, other: &Traced<T>) -> (r: Traced<T>)
        requires
            self.ok(),
            other.ok(),
        ensures
            r.ok(),
            r.e@ == self.e@.over(other.e@),
    {
        let v = self.v.div(other.v);
        proof {
            lemma_bin(Binary::Over, self.e@, other.e@, self.v, other.v, v);
        }
        Traced { v, e: Ghost(self.e@.over(other.e@)) }
    }

    pub fn max(&self, other: &Traced<T>) -> (r: Traced<T>)
        requires
            self.ok(),
            other.ok(),
        ensures
            r.ok(),
            r.e@ == self.e@.max(other.e@),
    {
        let v = self.v.max(other.v);
        proof {
            lemma_bin(Binary::Max, self.e@, other.e@, self.v, other.v, v);
        }
        Traced { v, e: Ghost(self.e@.max(other.e@)) }
    }

    pub fn min(&self, other: &Traced<T>) -> (r: Traced<T>)
        requires
            self.ok(),
            other.ok(),
        ensures
            r.ok(),
            r.e@ == self.e@.min(other.e@),
    {
        let v = self.v.min(other.v);
        proof {
            lemma_bin(Binary::Min, self.e@, other.e@, self.v, other.v, v);
        }
        Traced { v, e: Ghost(self.e@.min(other.e@)) }
    }

    /// `self` if it compares greater than `other`, and else `other`.
    pub fn greater(&self, other: &Traced<T>) -> (r: Traced<T>)
        requires
            self.ok(),
            other.ok(),
        ensures
            r.ok(),
            r.e@ == self.e@.greater(other.e@),
    {
        let v = if self.v.gt(other.v) { self.v } else { other.v };
        proof {
            lemma_bin(Binary::Greater, self.e@, other.e@, self.v, other.v, v);
        }
        Traced { v, e: Ghost(self.e@.greater(other.e@)) }
    }

    pub fn neg(&self) -> (r: Traced<T>)
        requires
            self.ok(),
        ensures
            r.ok(),
            r.e@ == self.e@.neg(),
    {
        let v = self.v.neg();
        proof {
            lemma_un(Unary::Neg, self.e@, self.v, v);
        }
        Traced { v, e: Ghost(self.e@.neg()) }
    }

    pub fn sqrt(&self) -> (r: Traced<T>)
        requires
            self.ok(),
        ensures
            r.ok(),
            r.e@ == self.e@.sqrt(),
    {
        let v = self.v.sqrt();
        proof {
            lemma_un(Unary::Sqrt, self.e@, self.v, v);
        }
        Traced { v, e: Ghost(self.e@.sqrt()) }
    }

    pub fn exp(&self) -> (r: Traced<T>)
        requires
            self.ok(),
        ensures
            r.ok(),
            r.e@ == self.e@.exp(),
    {
        let v = self.v.exp();
        proof {
            lemma_un(Unary::Exp, self.e@, self.v, v);
        }
        Traced { v, e: Ghost(self.e@.exp()) }
    }

    pub fn ln(&self) -> (r: Traced<T>)
        requires
            self.ok(),
        ensures
            r.ok(),
            r.e@ == self.e@.ln(),
    {
        let v = self.v.ln();
        proof {
            lemma_un(Unary::Ln, self.e@, self.v, v);
        }
        Traced { v, e: Ghost(self.e@.ln()) }
    }

    pub fn tanh(&self) -> (r: Traced<T>)
        requires
            self.ok(),
        ensures
            r.ok(),
            r.e@ == self.e@.tanh(),
    {
        let v = self.v.tanh();
        proof {
            lemma_un(Unary::Tanh, self.e@, self.v, v);
        }
        Traced { v, e: Ghost(self.e@.tanh()) }
    }

    pub fn cosh(&self) -> (r: Traced<T>)
        requires
            self.ok(),
        ensures
            r.ok(),
            r.e@ == self.e@.cosh(),
    {
        let v = self.v.cosh();
        proof {
            lemma_un(Unary::Cosh, self.e@, self.v, v);
        }
        Traced { v, e: Ghost(self.e@.cosh()) }
    }

    pub fn powi(&self, n: i32) -> (r: Traced<T>)
        requires
            self.ok(),
        ensures
            r.ok(),
            r.e@ == self.e@.powi(n),
    {
        let v = self.v.powi(n);
        proof {
            lemma_un(Unary::Powi(n), self.e@, self.v, v);
        }
        Traced { v, e: Ghost(self.e@.powi(n)) }
    }
}

} // verus!
