//! Flat buffers and the windows and rows that they are cut into.

use vstd::prelude::*;
use vstd::slice::slice_subrange;

use crate::scalar::{evals, nought, Scalar, Traced};

verus! {

/// The `n` elements of `s` from position `at` on.
pub open spec fn window<A>(s: Seq<A>, at: int, n: int) -> Seq<A> {
    s.subrange(at, at + n)
}

/// Row `r` of `s`, cut into rows of `c` elements.
pub open spec fn row<A>(s: Seq<A>, r: int, c: int) -> Seq<A> {
    window(s, r * c, c)
}

/// `s` with the elements from position `at` on replaced by those of `v`.
pub open spec fn splice<A>(s: Seq<A>, at: int, v: Seq<A>) -> Seq<A> {
    Seq::new(s.len(), |i: int| if at <= i < at + v.len() { v[i - at] } else { s[i] })
}

/// `after` is as long as `before`, and the same from position `n` on.
pub open spec fn tail_kept<A>(before: Seq<A>, after: Seq<A>, n: int) -> bool {
    &&& after.len() == before.len()
    &&& forall|j: int| n <= j < after.len() ==> #[trigger] after[j] == before[j]
}

/// The block of `w` columns from column `at` on, over `n` rows of `stride` elements, row after
/// row.
pub open spec fn columns<A>(s: Seq<A>, at: int, w: int, stride: int, n: int) -> Seq<A>
    decreases n,
{
    if n <= 0 {
        Seq::empty()
    } else {
        columns(s, at, w, stride, n - 1) + window(s, (n - 1) * stride + at, w)
    }
}

/// `s` with the block of `w` columns from column `at` on, over `n` rows of `stride` elements,
/// replaced by the rows of `v`.
pub open spec fn with_columns<A>(
    s: Seq<A>,
    at: int,
    w: int,
    stride: int,
    n: int,
    v: Seq<A>,
) -> Seq<A>
    decreases n,
{
    if n <= 0 {
        s
    } else {
        splice(
            with_columns(s, at, w, stride, n - 1, v),
            (n - 1) * stride + at,
            row(v, n - 1, w),
        )
    }
}

/// `after` is `before` cut down to `n` elements, or filled up to them with zeros.
pub open spec fn resized<T: Scalar>(before: Seq<T>, after: Seq<T>, n: int) -> bool {
    &&& after.len() == n
    &&& forall|i: int|
        0 <= i < n ==> if i < before.len() {
            #[trigger] after[i] == before[i]
        } else {
            evals(nought(), after[i])
        }
}

/// `r` full rows of `c` elements and `i` more lie within `n` rows.
pub proof fn lemma_row_bound(r: int, i: int, c: int, n: int)
    requires
        0 <= r < n,
        0 <= i <= c,
    ensures
        0 <= r * c,
        r * c + i <= r * c + c <= n * c,
        (r + 1) * c == r * c + c,
{
    assert(0 <= r * c && r * c + c <= n * c && (r + 1) * c == r * c + c) by (nonlinear_arith)
        requires
            0 <= r < n,
            0 <= c,
    ;
}

/// A product that is not zero has no factor that is.
pub proof fn lemma_nonzero_factors(a: int, b: int)
    ensures
        a * b != 0 ==> a != 0 && b != 0,
{
    assert(a == 0 || b == 0 ==> a * b == 0) by (nonlinear_arith);
}

/// Two rows do not overlap.
pub proof fn lemma_rows_apart(q: int, r: int, c: int)
    requires
        q < r,
        0 <= c,
    ensures
        q * c + c <= r * c,
{
    assert(q * c + c <= r * c) by (nonlinear_arith)
        requires
            q < r,
            0 <= c,
    ;
}

/// Replacing one row leaves the others as they are.
pub proof fn lemma_splice_row<A>(s: Seq<A>, r: int, c: int, v: Seq<A>)
    requires
        0 <= r,
        v.len() == c,
        r * c + c <= s.len(),
    ensures
        row(splice(s, r * c, v), r, c) == v,
        forall|q: int|
            0 <= q && q != r && q * c + c <= s.len() ==> #[trigger] row(splice(s, r * c, v), q, c)
                == row(s, q, c),
{
    let after = splice(s, r * c, v);
    assert(0 <= r * c) by (nonlinear_arith)
        requires
            0 <= r,
            0 <= c,
    ;
    assert(row(after, r, c) =~= v);
    assert forall|q: int| 0 <= q && q != r && q * c + c <= s.len() implies #[trigger] row(
        after,
        q,
        c,
    ) == row(s, q, c) by {
        assert(0 <= q * c) by (nonlinear_arith)
            requires
                0 <= q,
                0 <= c,
        ;
        if q < r {
            lemma_rows_apart(q, r, c);
        } else {
            lemma_rows_apart(r, q, c);
        }
        assert(row(after, q, c) =~= row(s, q, c));
    }
}

/// One step of a pass over the rows of a buffer: the rows done so far are kept, row `r` is
/// replaced by `v`, and what lies behind it is still as it was in `before`.
pub proof fn lemma_row_step<A>(before: Seq<A>, prior: Seq<A>, r: int, c: int, n: int, v: Seq<A>)
    requires
        0 <= r < n,
        v.len() == c,
        n * c <= before.len(),
        prior.len() == before.len(),
        forall|j: int| r * c <= j < before.len() ==> #[trigger] prior[j] == before[j],
    ensures
        row(splice(prior, r * c, v), r, c) == v,
        row(prior, r, c) == row(before, r, c),
        forall|q: int|
            0 <= q < r ==> #[trigger] row(splice(prior, r * c, v), q, c) == row(prior, q, c),
        forall|j: int|
            (r + 1) * c <= j < before.len() ==> #[trigger] splice(prior, r * c, v)[j] == before[j],
{
    lemma_row_bound(r, c, c, n);
    lemma_splice_row(prior, r, c, v);
    assert(row(prior, r, c) =~= row(before, r, c));
    assert forall|q: int| 0 <= q < r implies #[trigger] row(splice(prior, r * c, v), q, c) == row(
        prior,
        q,
        c,
    ) by {
        lemma_row_bound(q, c, c, n);
    }
}

/// The length of a block of columns, and its rows.
pub proof fn lemma_columns<A>(s: Seq<A>, at: int, w: int, stride: int, n: int)
    requires
        0 <= n,
        0 <= at,
        0 <= w,
        at + w <= stride,
        n * stride <= s.len(),
    ensures
        columns(s, at, w, stride, n).len() == n * w,
        forall|r: int|
            0 <= r < n ==> #[trigger] row(columns(s, at, w, stride, n), r, w) == window(
                s,
                r * stride + at,
                w,
            ),
    decreases n,
{
    if n > 0 {
        lemma_row_bound(n - 1, w, w, n);
        lemma_row_bound(n - 1, stride, stride, n);
        lemma_columns(s, at, w, stride, n - 1);
        let less = columns(s, at, w, stride, n - 1);
        let all = columns(s, at, w, stride, n);
        assert forall|r: int| 0 <= r < n implies #[trigger] row(all, r, w) == window(
            s,
            r * stride + at,
            w,
        ) by {
            if r < n - 1 {
                lemma_row_bound(r, w, w, n - 1);
                assert(row(all, r, w) =~= row(less, r, w));
            } else {
                assert(row(all, r, w) =~= window(s, r * stride + at, w));
            }
        }
    }
}

/// The first rows of a block of columns are the block of columns over those rows.
pub proof fn lemma_columns_prefix<A>(s: Seq<A>, at: int, w: int, stride: int, m: int, n: int)
    requires
        0 <= m <= n,
        0 <= at,
        0 <= w,
        at + w <= stride,
        n * stride <= s.len(),
    ensures
        0 <= m * w <= columns(s, at, w, stride, n).len(),
        columns(s, at, w, stride, n).subrange(0, m * w) == columns(s, at, w, stride, m),
    decreases n,
{
    lemma_columns(s, at, w, stride, n);
    if m < n {
        lemma_row_bound(n - 1, w, w, n);
        lemma_row_bound(n - 1, stride, stride, n);
        lemma_columns_prefix(s, at, w, stride, m, n - 1);
        let less = columns(s, at, w, stride, n - 1);
        assert(columns(s, at, w, stride, n).subrange(0, m * w) =~= less.subrange(0, m * w));
    } else {
        assert(0 <= m * w) by (nonlinear_arith)
            requires
                0 <= m,
                0 <= w,
        ;
        let all = columns(s, at, w, stride, n);
        assert(all.subrange(0, m * w) =~= all);
    }
}

/// Two buffers with the same rows have the same blocks of columns.
pub proof fn lemma_columns_agree<A>(r: Seq<A>, s: Seq<A>, at: int, w: int, stride: int, n: int)
    requires
        0 <= n,
        0 <= at,
        0 <= w,
        at + w <= stride,
        n * stride <= r.len(),
        n * stride <= s.len(),
        forall|i: int| 0 <= i < n ==> #[trigger] row(r, i, stride) == row(s, i, stride),
    ensures
        columns(r, at, w, stride, n) == columns(s, at, w, stride, n),
    decreases n,
{
    if n > 0 {
        lemma_row_bound(n - 1, stride, stride, n);
        lemma_columns_agree(r, s, at, w, stride, n - 1);
        let x = row(r, n - 1, stride);
        let y = row(s, n - 1, stride);
        assert(x == y);
        assert(window(r, (n - 1) * stride + at, w) =~= window(x, at, w));
        assert(window(s, (n - 1) * stride + at, w) =~= window(y, at, w));
    }
}

/// A block of columns is made up of its rows.
pub proof fn lemma_columns_by_rows<A>(
    s: Seq<A>,
    at: int,
    w: int,
    stride: int,
    n: int,
    v: Seq<A>,
)
    requires
        0 <= n,
        0 <= at,
        0 <= w,
        at + w <= stride,
        n * stride <= s.len(),
        v.len() == n * w,
        forall|r: int| 0 <= r < n ==> #[trigger] row(v, r, w) == window(s, r * stride + at, w),
    ensures
        columns(s, at, w, stride, n) == v,
    decreases n,
{
    if n > 0 {
        lemma_row_bound(n - 1, w, w, n);
        lemma_row_bound(n - 1, stride, stride, n);
        let less = v.subrange(0, (n - 1) * w);
        assert forall|r: int| 0 <= r < n - 1 implies #[trigger] row(less, r, w) == window(
            s,
            r * stride + at,
            w,
        ) by {
            lemma_row_bound(r, w, w, n - 1);
            assert(row(less, r, w) =~= row(v, r, w));
        }
        lemma_columns_by_rows(s, at, w, stride, n - 1, less);
        assert(v =~= less + row(v, n - 1, w));
    } else {
        assert(n * w == 0) by (nonlinear_arith)
            requires
                n == 0,
        ;
        assert(columns(s, at, w, stride, n) =~= v);
    }
}

/// What replacing a block of columns does to each window: within the block it is the row of the
/// block, and apart from the block, on the same rows, it is as it was.
pub proof fn lemma_with_columns<A>(
    s: Seq<A>,
    at: int,
    w: int,
    stride: int,
    n: int,
    v: Seq<A>,
)
    requires
        0 <= n,
        0 <= at,
        0 <= w,
        at + w <= stride,
        n * stride <= s.len(),
        v.len() == n * w,
    ensures
        with_columns(s, at, w, stride, n, v).len() == s.len(),
        forall|r: int|
            0 <= r < n ==> window(
                with_columns(s, at, w, stride, n, v),
                r * stride + at,
                w,
            ) == #[trigger] row(v, r, w),
        forall|r: int, p: int|
            0 <= r && 0 <= p < stride && r * stride + p < s.len() && !(r < n && at <= p < at + w)
                ==> with_columns(s, at, w, stride, n, v)[#[trigger] cell(r, stride, p)]
                == s[cell(r, stride, p)],
{
    lemma_with_columns_upto(s, at, w, stride, n, n, v);
}

/// The position of column `p` of row `r`.
pub open spec fn cell(r: int, stride: int, p: int) -> int {
    r * stride + p
}

proof fn lemma_with_columns_upto<A>(
    s: Seq<A>,
    at: int,
    w: int,
    stride: int,
    m: int,
    n: int,
    v: Seq<A>,
)
    requires
        0 <= m <= n,
        0 <= at,
        0 <= w,
        at + w <= stride,
        n * stride <= s.len(),
        v.len() == n * w,
    ensures
        with_columns(s, at, w, stride, m, v).len() == s.len(),
        forall|r: int|
            0 <= r < m ==> window(
                with_columns(s, at, w, stride, m, v),
                r * stride + at,
                w,
            ) == #[trigger] row(v, r, w),
        forall|r: int, p: int|
            0 <= r && 0 <= p < stride && r * stride + p < s.len() && !(r < m && at <= p < at + w)
                ==> with_columns(s, at, w, stride, m, v)[#[trigger] cell(r, stride, p)]
                == s[cell(r, stride, p)],
    decreases m,
{
    if m > 0 {
        lemma_row_bound(m - 1, w, w, n);
        lemma_row_bound(m - 1, stride, stride, n);
        lemma_with_columns_upto(s, at, w, stride, m - 1, n, v);
        let less = with_columns(s, at, w, stride, m - 1, v);
        let all = with_columns(s, at, w, stride, m, v);
        assert forall|r: int| 0 <= r < m implies window(all, r * stride + at, w)
            == #[trigger] row(v, r, w) by {
            lemma_row_bound(r, stride, stride, n);
            if r < m - 1 {
                lemma_rows_apart(r, m - 1, stride);
                assert(window(all, r * stride + at, w) =~= window(less, r * stride + at, w));
            } else {
                assert(window(all, r * stride + at, w) =~= row(v, r, w));
            }
        }
        assert forall|r: int, p: int|
            0 <= r && 0 <= p < stride && r * stride + p < s.len() && !(r < m && at <= p < at
                + w) implies all[#[trigger] cell(r, stride, p)] == s[cell(r, stride, p)] by {
            assert(0 <= r * stride) by (nonlinear_arith)
                requires
                    0 <= r,
                    0 <= stride,
            ;
            assert(less[cell(r, stride, p)] == s[cell(r, stride, p)]);
            if r < m - 1 {
                lemma_rows_apart(r, m - 1, stride);
            } else if r > m - 1 {
                lemma_rows_apart(m - 1, r, stride);
            }
        }
    }
}

/// A block of columns reads back as it was written.
pub proof fn lemma_columns_read_back<A>(
    s: Seq<A>,
    at: int,
    w: int,
    stride: int,
    n: int,
    v: Seq<A>,
)
    requires
        0 <= n,
        0 <= at,
        0 <= w,
        at + w <= stride,
        n * stride <= s.len(),
        v.len() == n * w,
    ensures
        columns(with_columns(s, at, w, stride, n, v), at, w, stride, n) == v,
{
    lemma_with_columns(s, at, w, stride, n, v);
    lemma_columns_by_rows(with_columns(s, at, w, stride, n, v), at, w, stride, n, v);
}

/// Replacing a block of columns leaves the blocks beside it as they are.
pub proof fn lemma_columns_apart<A>(
    s: Seq<A>,
    at: int,
    w: int,
    stride: int,
    n: int,
    v: Seq<A>,
    at2: int,
    w2: int,
)
    requires
        0 <= n,
        0 <= at,
        0 <= w,
        at + w <= stride,
        n * stride <= s.len(),
        v.len() == n * w,
        0 <= at2,
        0 <= w2,
        at2 + w2 <= stride,
        at2 + w2 <= at || at + w <= at2,
    ensures
        columns(with_columns(s, at, w, stride, n, v), at2, w2, stride, n) == columns(
            s,
            at2,
            w2,
            stride,
            n,
        ),
{
    let after = with_columns(s, at, w, stride, n, v);
    lemma_with_columns(s, at, w, stride, n, v);
    lemma_columns(s, at2, w2, stride, n);
    assert forall|r: int| 0 <= r < n implies #[trigger] row(
        columns(s, at2, w2, stride, n),
        r,
        w2,
    ) == window(after, r * stride + at2, w2) by {
        lemma_row_bound(r, stride, stride, n);
        assert forall|i: int| 0 <= i < w2 implies #[trigger] window(
            after,
            r * stride + at2,
            w2,
        )[i] == window(s, r * stride + at2, w2)[i] by {
            assert(after[cell(r, stride, at2 + i)] == s[cell(r, stride, at2 + i)]);
        }
        assert(window(after, r * stride + at2, w2) =~= window(s, r * stride + at2, w2));
    }
    lemma_columns_by_rows(after, at2, w2, stride, n, columns(s, at2, w2, stride, n));
}

/// The window of `n` elements of `s` from position `at` on, to be changed in place.
pub fn window_mut<A>(s: &mut [A], at: usize, n: usize) -> (w: &mut [A])
    requires
        at + n <= old(s)@.len(),
    ensures
        w@ == window(old(s)@, at as int, n as int),
        final(w)@.len() == n ==> final(s)@ == splice(old(s)@, at as int, final(w)@),
{
    let (_, rest) = s.split_at_mut(at);
    let (w, _) = rest.split_at_mut(n);
    w
}

/// Writes `src` over the elements of `dst` from position `at` on.
pub fn put<A: Copy>(dst: &mut [A], at: usize, src: &[A])
    requires
        at + src@.len() <= old(dst)@.len(),
    ensures
        final(dst)@ == splice(old(dst)@, at as int, src@),
{
    let ghost before = dst@;
    let len = dst.len();
    for i in 0..src.len()
        invariant
            at + src@.len() <= len,
            before.len() == len,
            dst@ == splice(before, at as int, src@.take(i as int)),
    {
        dst[at + i] = src[i];
    }
    assert(src@.take(src@.len() as int) =~= src@);
}

/// Row `r` of a buffer that is cut into rows of `c` elements.
pub fn row_of<A>(s: &[A], r: usize, c: usize) -> (v: &[A])
    requires
        (r + 1) * c <= s.len(),
    ensures
        v@ == row(s@, r as int, c as int),
        v@.len() == c,
{
    proof {
        lemma_row_bound(r as int, c as int, c as int, r + 1);
    }
    slice_subrange(s, r * c, r * c + c)
}

/// Row `r` of a buffer that is cut into rows of `c` elements, to be written to.
pub fn row_mut<A>(s: &mut [A], r: usize, c: usize) -> (v: &mut [A])
    requires
        (r + 1) * c <= old(s).len(),
    ensures
        v@ == row(old(s)@, r as int, c as int),
        v@.len() == c,
        final(v)@.len() == c ==> final(s)@ == splice(old(s)@, r * c, final(v)@),
{
    proof {
        lemma_row_bound(r as int, c as int, c as int, r + 1);
    }
    window_mut(s, r * c, c)
}

/// Writes `src` over the start of `dst`, as far as both reach.
pub fn lay_over<A: Copy>(dst: &mut [A], src: &[A])
    ensures
        final(dst)@ == splice(old(dst)@, 0, src@),
{
    let ghost before = dst@;
    let n = if src.len() < dst.len() {
        src.len()
    } else {
        dst.len()
    };
    for i in 0..n
        invariant
            n <= src.len(),
            n <= dst.len(),
            dst@ == splice(before, 0, src@.take(i as int)),
    {
        dst[i] = src[i];
    }
}

/// Copies out a block of `w` columns from column `at` on, over `n` rows of `stride` elements.
pub fn take_columns<A: Copy>(s: &[A], at: usize, w: usize, stride: usize, n: usize) -> (v: Vec<A>)
    requires
        at + w <= stride,
        n * stride <= s.len(),
    ensures
        v@ == columns(s@, at as int, w as int, stride as int, n as int),
{
    let mut v: Vec<A> = Vec::new();
    for r in 0..n
        invariant
            at + w <= stride,
            n * stride <= s.len(),
            v@ == columns(s@, at as int, w as int, stride as int, r as int),
    {
        proof {
            lemma_row_bound(r as int, stride as int, stride as int, n as int);
        }
        let ghost prior = v@;
        let start = r * stride + at;
        for i in 0..w
            invariant
                start + w <= s.len(),
                v@ == prior + window(s@, start as int, i as int),
        {
            v.push(s[start + i]);
        }
    }
    v
}

/// Writes `v` over a block of `w` columns from column `at` on, over `n` rows of `stride`
/// elements.
pub fn put_columns<A: Copy>(
    dst: &mut [A],
    at: usize,
    w: usize,
    stride: usize,
    n: usize,
    v: &[A],
)
    requires
        at + w <= stride,
        n * stride <= old(dst).len(),
        v@.len() == n * w,
    ensures
        final(dst)@ == with_columns(old(dst)@, at as int, w as int, stride as int, n as int, v@),
{
    let ghost before = dst@;
    for r in 0..n
        invariant
            at + w <= stride,
            n * stride <= dst.len(),
            dst@.len() == before.len(),
            v.len() == n * w,
            dst@ == with_columns(before, at as int, w as int, stride as int, r as int, v@),
    {
        proof {
            lemma_row_bound(r as int, stride as int, stride as int, n as int);
            lemma_row_bound(r as int, w as int, w as int, n as int);
        }
        put(dst, r * stride + at, slice_subrange(v, r * w, r * w + w));
    }
}

/// Sets every element of a buffer to `x`.
pub fn fill<A: Copy>(v: &mut Vec<A>, x: A)
    ensures
        final(v)@ == Seq::new(old(v)@.len(), |i: int| x),
{
    let len = v.len();
    for i in 0..len
        invariant
            v@.len() == len,
            forall|j: int| 0 <= j < i ==> #[trigger] v@[j] == x,
    {
        v[i] = x;
    }
}

/// A buffer of `n` zeros.
pub fn zeros<T: Scalar>(n: usize) -> (v: Vec<T>)
    ensures
        resized(Seq::empty(), v@, n as int),
{
    let mut v: Vec<T> = Vec::new();
    resize(&mut v, n);
    v
}

/// Cuts a buffer down to `n` elements, or fills it up to them with zeros.
pub fn resize<T: Scalar>(v: &mut Vec<T>, n: usize)
    ensures
        resized(old(v)@, final(v)@, n as int),
{
    let ghost before = v@;
    if n < v.len() {
        v.truncate(n);
    } else {
        let zero = Traced::<T>::zero();
        while v.len() < n
            invariant
                before.len() <= v@.len() <= n,
                zero.ok(),
                zero.e@ == nought::<T>(),
                resized(before, v@, v@.len() as int),
            decreases n - v.len(),
        {
            v.push(zero.v);
        }
    }
}

} // verus!
