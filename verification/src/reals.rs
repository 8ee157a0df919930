//! What formulas come to where the scalar type computes with real numbers.
//!
//! No contract assumes this. Laws that speak of numbers are stated for a [`Reading`], which says
//! what real number each scalar stands for, and for scalar operations that are exact under it.

use vstd::prelude::*;

use crate::buffer::{cell, lemma_row_bound, resized};
use crate::determinism::product_shaped;
use crate::matmul::{gemm_gives, multiplies};
use crate::scalar::{
    applies, combines, evals, inverts, lit, names, nought, stored_cols, total, unit, Binary, Expr,
    Named, Scalar, Transpose, Unary,
};

verus! {

/// What scalars stand for.
#[verifier::reject_recursive_types(T)]
pub struct Reading<T> {
    /// The real number that a scalar stands for.
    pub val: spec_fn(T) -> real,
    /// The circle constant.
    pub pi: real,
    /// The exponential function.
    pub exp: spec_fn(real) -> real,
}

/// `x` to the power `n`.
pub open spec fn power(x: real, n: int) -> real
    decreases n,
{
    if n <= 0 {
        1real
    } else {
        power(x, n - 1) * x
    }
}

/// The sum of the first `n` values of `f`.
pub open spec fn rsum(f: spec_fn(int) -> real, n: int) -> real
    decreases n,
{
    if n <= 0 {
        0real
    } else {
        rsum(f, n - 1) + f(n - 1)
    }
}

/// The square of `x`.
pub open spec fn square(x: real) -> real {
    x * x
}

/// The number of which `x` is the square.
pub open spec fn root(x: real) -> real {
    choose|y: real| 0real <= y && #[trigger] square(y) == x
}

/// Sums, differences, products, quotients, powers and comparisons are those of real numbers.
#[verifier::opaque]
pub open spec fn exact<T: Scalar>(r: Reading<T>) -> bool {
    &&& forall|v: T| #[trigger] call_ensures(T::zero, (), v) ==> (r.val)(v) == 0real
    &&& forall|v: T| #[trigger] call_ensures(T::one, (), v) ==> (r.val)(v) == 1real
    &&& forall|m: u64, p: u32, v: T| #[trigger]
        call_ensures(T::decimal, (m, p), v) ==> (r.val)(v) * power(10real, p as int) == m as real
    &&& forall|n: usize, v: T| #[trigger]
        call_ensures(T::from_usize, (n,), v) ==> (r.val)(v) == n as real
    &&& forall|x: T, y: T, v: T| #[trigger]
        call_ensures(T::add, (x, y), v) ==> (r.val)(v) == (r.val)(x) + (r.val)(y)
    &&& forall|x: T, y: T, v: T| #[trigger]
        call_ensures(T::sub, (x, y), v) ==> (r.val)(v) == (r.val)(x) - (r.val)(y)
    &&& forall|x: T, y: T, v: T| #[trigger]
        call_ensures(T::mul, (x, y), v) ==> (r.val)(v) == (r.val)(x) * (r.val)(y)
    &&& forall|x: T, y: T, v: T| #[trigger]
        call_ensures(T::div, (x, y), v) && (r.val)(y) != 0real ==> (r.val)(v) * (r.val)(y)
            == (r.val)(x)
    &&& forall|x: T, v: T| #[trigger]
        call_ensures(T::neg, (x,), v) ==> (r.val)(v) == -(r.val)(x)
    &&& forall|x: T, n: i32, v: T| #[trigger]
        call_ensures(T::powi, (x, n), v) && 0 <= n ==> (r.val)(v) == power((r.val)(x), n as int)
    &&& forall|x: T, y: T, a: bool| #[trigger]
        call_ensures(T::lt, (x, y), a) ==> a == ((r.val)(x) < (r.val)(y))
    &&& forall|x: T, y: T, a: bool| #[trigger]
        call_ensures(T::eq, (x, y), a) ==> a == ((r.val)(x) == (r.val)(y))
}

/// Square roots are those of real numbers.
#[verifier::opaque]
pub open spec fn exact_roots<T: Scalar>(r: Reading<T>) -> bool {
    forall|x: T, v: T| #[trigger]
        call_ensures(T::sqrt, (x,), v) && 0real <= (r.val)(x) ==> 0real <= (r.val)(v) && (r.val)(v)
            * (r.val)(v) == (r.val)(x)
}

/// The exponential is a positive function that grows and turns sums into products.
pub open spec fn exponential(exp: spec_fn(real) -> real) -> bool {
    &&& exp(0real) == 1real
    &&& forall|x: real| 0real < #[trigger] exp(x)
    &&& forall|x: real, y: real| #[trigger] exp(x + y) == exp(x) * exp(y)
    &&& forall|x: real, y: real| x <= y ==> #[trigger] exp(x) <= #[trigger] exp(y)
}

/// The exponential, the logarithm, the hyperbolic functions and the circle constant are those of
/// real numbers.
#[verifier::opaque]
pub open spec fn exact_curves<T: Scalar>(r: Reading<T>) -> bool {
    &&& exponential(r.exp)
    &&& 3real < r.pi < 4real
    &&& forall|v: T| #[trigger] call_ensures(T::pi, (), v) ==> (r.val)(v) == r.pi
    &&& forall|x: T, v: T| #[trigger]
        call_ensures(T::exp, (x,), v) ==> (r.val)(v) == (r.exp)((r.val)(x))
    &&& forall|x: T, v: T| #[trigger]
        call_ensures(T::ln, (x,), v) && 0real < (r.val)(x) ==> (r.exp)((r.val)(v)) == (r.val)(x)
    &&& forall|x: T, v: T| #[trigger]
        call_ensures(T::tanh, (x,), v) ==> (r.val)(v) * ((r.exp)((r.val)(x)) + (r.exp)(
            -(r.val)(x),
        )) == (r.exp)((r.val)(x)) - (r.exp)(-(r.val)(x))
    &&& forall|x: T, v: T| #[trigger]
        call_ensures(T::cosh, (x,), v) ==> (r.val)(v) + (r.val)(v) == (r.exp)((r.val)(x)) + (r.exp)(
            -(r.val)(x),
        )
}

/// The larger of two numbers is found by comparing them, and the value below every number gives
/// way to any of them; no product is that value. The largest finite number is at least one, and
/// the smaller of a number and it is found by comparing them.
#[verifier::opaque]
pub open spec fn exact_limits<T: Scalar>(r: Reading<T>) -> bool {
    &&& forall|x: T, y: T, v: T| #[trigger]
        call_ensures(T::max, (x, y), v) ==> if call_ensures(T::neg_infinity, (), x) {
            v == y
        } else {
            (v == x || v == y) && (r.val)(x) <= (r.val)(v) && (r.val)(y) <= (r.val)(v)
        }
    &&& forall|x: T, y: T, a: bool| #[trigger]
        call_ensures(T::gt, (x, y), a) ==> if call_ensures(T::neg_infinity, (), y) {
            a
        } else {
            a == ((r.val)(x) > (r.val)(y))
        }
    &&& forall|x: T, y: T, v: T| #[trigger]
        call_ensures(T::mul, (x, y), v) ==> !call_ensures(T::neg_infinity, (), v)
    &&& forall|v: T| #[trigger] call_ensures(T::max_value, (), v) ==> 1real <= (r.val)(v)
    &&& forall|x: T, y: T, v: T| #[trigger]
        call_ensures(T::min, (x, y), v) ==> (v == x || v == y) && (r.val)(v) <= (r.val)(x)
            && (r.val)(v) <= (r.val)(y)
}

/// The element in row `i` and column `l` of an operand that is stored with `ld` elements from one
/// row to the next.
pub open spec fn entry<T>(trans: Transpose, s: Seq<T>, ld: int, i: int, l: int) -> T {
    match trans {
        Transpose::Plain => s[i * ld + l],
        Transpose::Ordinary => s[l * ld + i],
    }
}

/// Products of matrices are those of real numbers.
#[verifier::opaque]
pub open spec fn exact_products<T: Scalar>(r: Reading<T>) -> bool {
    forall|
        ta: Transpose,
        tb: Transpose,
        m: i32,
        n: i32,
        k: i32,
        a: &[T],
        lda: i32,
        b: &[T],
        ldb: i32,
        v: Vec<T>,
        i: int,
        j: int,
    |
        #![trigger call_ensures(T::gemm, (ta, tb, m, n, k, a, lda, b, ldb), v), v@[cell(
            i,
            n as int,
            j,
        )]]
        call_ensures(T::gemm, (ta, tb, m, n, k, a, lda, b, ldb), v) && 0 <= i < m && 0 <= j < n
            ==> cell(i, n as int, j) < v@.len() && (r.val)(v@[cell(i, n as int, j)]) == rsum(
            |l: int|
                (r.val)(entry(ta, a@, lda as int, i, l)) * (r.val)(
                    entry(tb, b@, ldb as int, l, j),
                ),
            k as int,
        )
}

/// The real number that a formula stands for.
pub open spec fn worth<T>(r: Reading<T>, e: Expr<T>) -> real
    decreases e,
{
    match e {
        Expr::Lit(x) => (r.val)(x),
        Expr::Const(Named::Zero) => 0real,
        Expr::Const(Named::One) => 1real,
        Expr::Const(Named::Pi) => r.pi,
        Expr::Const(_) => 0real,
        Expr::Decimal(m, p) => m as real / power(10real, p as int),
        Expr::Count(n) => n as real,
        Expr::Un(op, a) => match op {
            Unary::Neg => -worth(r, *a),
            Unary::Sqrt => root(worth(r, *a)),
            Unary::Exp => (r.exp)(worth(r, *a)),
            Unary::Powi(n) => power(worth(r, *a), n as int),
            Unary::Tanh => tanh(r.exp, worth(r, *a)),
            Unary::Cosh => cosh(r.exp, worth(r, *a)),
            Unary::Ln => 0real,
        },
        Expr::Bin(op, a, b) => match op {
            Binary::Plus => worth(r, *a) + worth(r, *b),
            Binary::Minus => worth(r, *a) - worth(r, *b),
            Binary::Times => worth(r, *a) * worth(r, *b),
            Binary::Over => worth(r, *a) / worth(r, *b),
            _ => 0real,
        },
    }
}

/// The hyperbolic tangent.
pub open spec fn tanh(exp: spec_fn(real) -> real, x: real) -> real {
    (exp(x) - exp(-x)) / (exp(x) + exp(-x))
}

/// The hyperbolic cosine.
pub open spec fn cosh(exp: spec_fn(real) -> real, x: real) -> real {
    (exp(x) + exp(-x)) / 2real
}

/// The formula stands for a real number, and asks for none but exact operations.
pub open spec fn sound<T: Scalar>(r: Reading<T>, e: Expr<T>) -> bool
    decreases e,
{
    match e {
        Expr::Lit(x) => true,
        Expr::Const(Named::Zero) => true,
        Expr::Const(Named::One) => true,
        Expr::Const(Named::Pi) => exact_curves(r),
        Expr::Const(_) => false,
        Expr::Decimal(m, p) => true,
        Expr::Count(n) => true,
        Expr::Un(op, a) => sound(r, *a) && match op {
            Unary::Neg => true,
            Unary::Sqrt => exact_roots(r) && 0real <= worth(r, *a),
            Unary::Exp => exact_curves(r),
            Unary::Powi(n) => 0 <= n,
            Unary::Tanh => exact_curves(r),
            Unary::Cosh => exact_curves(r),
            Unary::Ln => false,
        },
        Expr::Bin(op, a, b) => sound(r, *a) && sound(r, *b) && match op {
            Binary::Plus => true,
            Binary::Minus => true,
            Binary::Times => true,
            Binary::Over => worth(r, *b) != 0real,
            _ => false,
        },
    }
}

/// A quotient times its divisor is what was divided, and no other number is.
pub proof fn lemma_quotient(x: real, y: real, q: real)
    requires
        y != 0real,
    ensures
        (x / y) * y == x,
        q * y == x ==> q == x / y,
{
    assert((x / y) * y == x) by (nonlinear_arith)
        requires
            y != 0real,
    ;
    if q * y == x {
        assert(q == x / y) by (nonlinear_arith)
            requires
                y != 0real,
                q * y == x,
                (x / y) * y == x,
        ;
    }
}

/// Two numbers that are not negative and have the same square are the same.
pub proof fn lemma_same_square(x: real, y: real)
    requires
        0real <= x,
        0real <= y,
        x * x == y * y,
    ensures
        x == y,
{
    assert(x == y) by (nonlinear_arith)
        requires
            0real <= x,
            0real <= y,
            x * x == y * y,
    ;
}

/// A number that is not negative is the root of its square.
pub proof fn lemma_root(x: real, y: real)
    requires
        0real <= y,
        y * y == x,
    ensures
        root(x) == y,
{
    assert(square(y) == x);
    let z = root(x);
    assert(0real <= z && z * z == x);
    lemma_same_square(y, z);
}

/// A power of a positive number is positive.
pub proof fn lemma_power_positive(x: real, n: int)
    requires
        0real < x,
    ensures
        0real < power(x, n),
    decreases n,
{
    if n > 0 {
        lemma_power_positive(x, n - 1);
        let p = power(x, n - 1);
        assert(0real < p * x) by (nonlinear_arith)
            requires
                0real < p,
                0real < x,
        ;
    }
}

/// Sums of the same terms are the same.
pub proof fn lemma_rsum_same(f: spec_fn(int) -> real, g: spec_fn(int) -> real, n: int)
    requires
        forall|i: int| 0 <= i < n ==> #[trigger] f(i) == g(i),
    ensures
        rsum(f, n) == rsum(g, n),
    decreases n,
{
    if n > 0 {
        lemma_rsum_same(f, g, n - 1);
        assert(f(n - 1) == g(n - 1));
    }
}

/// Where the operations are exact, what a formula comes to is the real number that it stands for.
pub proof fn lemma_worth<T: Scalar>(r: Reading<T>, e: Expr<T>, v: T)
    requires
        exact(r),
        evals(e, v),
        sound(r, e),
    ensures
        (r.val)(v) == worth(r, e),
    decreases e,
{
    reveal(evals);
    reveal(exact);
    match e {
        Expr::Lit(x) => {},
        Expr::Const(k) => {
            reveal(exact_curves);
        },
        Expr::Decimal(m, p) => {
            lemma_power_positive(10real, p as int);
            lemma_quotient(m as real, power(10real, p as int), (r.val)(v));
        },
        Expr::Count(n) => {},
        Expr::Un(op, a) => {
            let x = choose|x: T| evals(*a, x) && #[trigger] applies(op, x, v);
            lemma_worth(r, *a, x);
            let w = (r.val)(x);
            match op {
                Unary::Sqrt => {
                    reveal(exact_roots);
                    lemma_root(w, (r.val)(v));
                },
                Unary::Exp => {
                    reveal(exact_curves);
                },
                Unary::Tanh => {
                    reveal(exact_curves);
                    assert(0real < (r.exp)(w) && 0real < (r.exp)(-w));
                    lemma_quotient(
                        (r.exp)(w) - (r.exp)(-w),
                        (r.exp)(w) + (r.exp)(-w),
                        (r.val)(v),
                    );
                },
                Unary::Cosh => {
                    reveal(exact_curves);
                },
                _ => {},
            }
        },
        Expr::Bin(op, a, b) => {
            let (x, y) = choose|x: T, y: T|
                evals(*a, x) && evals(*b, y) && #[trigger] combines(op, x, y, v);
            lemma_worth(r, *a, x);
            lemma_worth(r, *b, y);
            match op {
                Binary::Over => {
                    lemma_quotient((r.val)(x), (r.val)(y), (r.val)(v));
                },
                _ => {},
            }
        },
    }
}

/// A decimal number, times ten to the power of its places, is its mantissa.
pub proof fn lemma_decimal<T: Scalar>(r: Reading<T>, m: u64, p: u32, v: T)
    requires
        exact(r),
        evals(Expr::Decimal(m, p), v),
    ensures
        (r.val)(v) * power(10real, p as int) == m as real,
        worth(r, Expr::<T>::Decimal(m, p)) == (r.val)(v),
{
    reveal(evals);
    reveal(exact);
    lemma_worth(r, Expr::Decimal(m, p), v);
}

/// The first powers of ten.
pub proof fn lemma_tens()
    ensures
        power(10real, 0) == 1real,
        power(10real, 1) == 10real,
        power(10real, 3) == 1000real,
        power(10real, 4) == 10000real,
        power(10real, 5) == 100000real,
        power(10real, 6) == 1000000real,
        power(10real, 8) == 100000000real,
{
    reveal_with_fuel(power, 9);
}

/// A formula that is a sum of elements stands for their sum.
pub proof fn lemma_total<T: Scalar>(r: Reading<T>, x: Seq<T>, n: int)
    requires
        0 <= n,
    ensures
        sound(r, total(x, n)),
        worth(r, total(x, n)) == rsum(|i: int| (r.val)(x[i]), n),
    decreases n,
{
    reveal_with_fuel(worth, 3);
    reveal_with_fuel(sound, 3);
    if n > 0 {
        lemma_total(r, x, n - 1);
    }
}

/// The element in row `i` and column `j` of a product is the sum of the products of the elements
/// of row `i` of the first matrix and of column `j` of the second.
pub proof fn lemma_product<T: Scalar>(
    r: Reading<T>,
    ta: Transpose,
    tb: Transpose,
    m: int,
    n: int,
    k: int,
    a: Seq<T>,
    b: Seq<T>,
    prod: Seq<T>,
    i: int,
    j: int,
)
    requires
        exact_products(r),
        multiplies(ta, tb, m, n, k, a, b, prod),
        product_shaped(m, n, k, a, b),
        0 <= i < m,
        0 <= j < n,
    ensures
        0 <= i * n + j < prod.len(),
        (r.val)(prod[i * n + j]) == rsum(
            |l: int|
                (r.val)(entry(ta, a, stored_cols(ta, m, k), i, l)) * (r.val)(
                    entry(tb, b, stored_cols(tb, k, n), l, j),
                ),
            k,
        ),
{
    reveal(exact_products);
    lemma_row_bound(i, j, n, m);
    let given = choose|given: Seq<T>| #[trigger]
        gemm_gives(ta, tb, m, n, k, a, b, given) && resized(given, prod, m * n);
    let (sa, sb, v) = choose|sa: &[T], sb: &[T], v: Vec<T>|
        {
            &&& sa@ == a
            &&& sb@ == b
            &&& v@ == given
            &&& #[trigger] call_ensures(
                T::gemm,
                (
                    ta,
                    tb,
                    m as i32,
                    n as i32,
                    k as i32,
                    sa,
                    stored_cols(ta, m, k) as i32,
                    sb,
                    stored_cols(tb, k, n) as i32,
                ),
                v,
            )
        };
    assert(v@[cell(i, n, j)] == given[i * n + j]);
    assert(prod[i * n + j] == given[i * n + j]);
}

/// The values of the two parts of a formula that its value was obtained from.
pub proof fn parts<T: Scalar>(op: Binary, a: Expr<T>, b: Expr<T>, v: T) -> (p: (T, T))
    requires
        evals(Expr::Bin(op, Box::new(a), Box::new(b)), v),
    ensures
        evals(a, p.0),
        evals(b, p.1),
        combines(op, p.0, p.1, v),
{
    reveal(evals);
    choose|x: T, y: T| evals(a, x) && evals(b, y) && #[trigger] combines(op, x, y, v)
}

/// The value of the part of a formula that its value was obtained from.
pub proof fn part<T: Scalar>(op: Unary, a: Expr<T>, v: T) -> (x: T)
    requires
        evals(Expr::Un(op, Box::new(a)), v),
    ensures
        evals(a, x),
        applies(op, x, v),
{
    reveal(evals);
    choose|x: T| evals(a, x) && #[trigger] applies(op, x, v)
}

/// Shares that are in proportion to the exponentials of numbers, positive and one in all.
pub open spec fn shares<T>(r: Reading<T>, x: Seq<T>, out: Seq<T>, n: int) -> bool {
    &&& forall|i: int| 0 <= i < n ==> 0real < (r.val)(#[trigger] out[i])
    &&& rsum(|i: int| (r.val)(out[i]), n) == 1real
    &&& forall|i: int, j: int|
        0 <= i < n && 0 <= j < n ==> (r.val)(#[trigger] out[i]) * (r.exp)((r.val)(x[j])) == (r.val)(
            #[trigger] out[j],
        ) * (r.exp)((r.val)(x[i]))
}

/// A sum of positive numbers is positive.
pub proof fn lemma_rsum_positive(f: spec_fn(int) -> real, n: int)
    requires
        forall|i: int| 0 <= i < n ==> 0real < #[trigger] f(i),
    ensures
        0real <= rsum(f, n),
        0 < n ==> 0real < rsum(f, n),
    decreases n,
{
    if n > 0 {
        lemma_rsum_positive(f, n - 1);
        assert(0real < f(n - 1));
    }
}

/// A sum may be scaled term by term.
pub proof fn lemma_rsum_scaled(f: spec_fn(int) -> real, g: spec_fn(int) -> real, k: real, n: int)
    requires
        forall|i: int| 0 <= i < n ==> #[trigger] g(i) == f(i) * k,
    ensures
        rsum(g, n) == rsum(f, n) * k,
    decreases n,
{
    if n > 0 {
        lemma_rsum_scaled(f, g, k, n - 1);
        let x = rsum(f, n - 1);
        let y = f(n - 1);
        assert(g(n - 1) == y * k);
        assert(x * k + y * k == (x + y) * k) by (nonlinear_arith);
    } else {
        assert(0real * k == 0real) by (nonlinear_arith);
    }
}

/// The reciprocal of a number other than zero is one over it.
pub proof fn lemma_inverts<T: Scalar>(r: Reading<T>, x: T, inv: T)
    requires
        exact(r),
        inverts(x, inv),
        (r.val)(x) != 0real,
    ensures
        (r.val)(inv) * (r.val)(x) == 1real,
{
    reveal(exact);
    let z = choose|z: T| #[trigger]
        names(Named::Zero, z) && {
            ||| call_ensures(T::eq, (x, z), true) && evals(nought(), inv)
            ||| call_ensures(T::eq, (x, z), false) && evals(unit().over(lit(x)), inv)
        };
    reveal_with_fuel(worth, 3);
    reveal_with_fuel(sound, 3);
    lemma_worth(r, unit().over(lit(x)), inv);
    lemma_quotient(1real, (r.val)(x), (r.val)(inv));
}

/// Exponentials of distances from a number, over their sum, are shares.
pub proof fn lemma_shares<T: Scalar>(
    r: Reading<T>,
    x: Seq<T>,
    top: T,
    powers: Seq<T>,
    all: T,
    inv: T,
    out: Seq<T>,
    n: int,
)
    requires
        exact(r),
        exact_curves(r),
        0 < n,
        forall|i: int|
            0 <= i < n ==> (r.val)(#[trigger] powers[i]) == (r.exp)((r.val)(x[i]) - (r.val)(top)),
        evals(total(powers, n), all),
        inverts(all, inv),
        forall|i: int|
            0 <= i < n ==> evals(lit(powers[i]).times(lit(inv)), #[trigger] out[i]),
    ensures
        shares(r, x, out, n),
{
    assert(exponential(r.exp)) by {
        reveal(exact_curves);
    }
    let f = |i: int| (r.val)(powers[i]);
    let g = |i: int| (r.val)(out[i]);
    lemma_total(r, powers, n);
    lemma_worth(r, total(powers, n), all);
    assert forall|i: int| 0 <= i < n implies 0real < #[trigger] f(i) by {
        assert((r.val)(powers[i]) == (r.exp)((r.val)(x[i]) - (r.val)(top)));
    }
    lemma_rsum_positive(f, n);
    lemma_inverts(r, all, inv);
    let k = (r.val)(inv);
    let s = (r.val)(all);
    assert(s == rsum(f, n));
    assert(0real < k) by (nonlinear_arith)
        requires
            k * s == 1real,
            0real < s,
    ;
    assert forall|i: int| 0 <= i < n implies #[trigger] g(i) == f(i) * k && 0real < g(i) by {
        assert(evals(lit(powers[i]).times(lit(inv)), out[i]));
        reveal_with_fuel(worth, 3);
        reveal_with_fuel(sound, 3);
        lemma_worth(r, lit(powers[i]).times(lit(inv)), out[i]);
        let p = f(i);
        assert(0real < p * k) by (nonlinear_arith)
            requires
                0real < p,
                0real < k,
        ;
    }
    lemma_rsum_scaled(f, g, k, n);
    assert(s * k == 1real) by (nonlinear_arith)
        requires
            k * s == 1real,
    ;
    assert forall|i: int, j: int| 0 <= i < n && 0 <= j < n implies (r.val)(#[trigger] out[i]) * (
    r.exp)((r.val)(x[j])) == (r.val)(#[trigger] out[j]) * (r.exp)((r.val)(x[i])) by {
        let t = (r.val)(top);
        let (a, b) = ((r.val)(x[i]), (r.val)(x[j]));
        assert((r.exp)((a - t) + t) == (r.exp)(a - t) * (r.exp)(t));
        assert((r.exp)((b - t) + t) == (r.exp)(b - t) * (r.exp)(t));
        assert((a - t) + t == a && (b - t) + t == b);
        let (ea, eb, et) = ((r.exp)(a - t), (r.exp)(b - t), (r.exp)(t));
        assert(g(i) == f(i) * k && g(j) == f(j) * k);
        assert((ea * k) * (eb * et) == (eb * k) * (ea * et)) by (nonlinear_arith);
    }
    assert forall|i: int| 0 <= i < n implies 0real < (r.val)(#[trigger] out[i]) by {
        assert(0real < g(i));
    }
}

} // verus!
