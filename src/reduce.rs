//! Reductions over strided views: inner products and the running sum behind the norm.

use crate::stride::{fits, gather, slot};
use vstd::prelude::*;

verus! {

/// `acc` is a run of `f` from `init` over the first `acc.len() - 1` pairs `(xs[i], ys[i])`:
/// each accumulator is what `f` gives on the one before it and the next pair.
pub open spec fn is_run2<T, U, F: Fn(U, T, T) -> U>(
    f: F,
    init: U,
    xs: Seq<T>,
    ys: Seq<T>,
    acc: Seq<U>,
) -> bool {
    &&& 1 <= acc.len() <= xs.len() + 1
    &&& acc[0] == init
    &&& forall|i: int|
        0 <= i < acc.len() - 1 ==> #[trigger] f.ensures((acc[i], xs[i], ys[i]), acc[i + 1])
}

/// `r` is a result of folding `f` from `init` over all the pairs `(xs[i], ys[i])` in order.
pub open spec fn folds2<T, U, F: Fn(U, T, T) -> U>(
    f: F,
    init: U,
    xs: Seq<T>,
    ys: Seq<T>,
    r: U,
) -> bool {
    exists|acc: Seq<U>|
        #[trigger] is_run2(f, init, xs, ys, acc) && acc.len() == xs.len() + 1 && acc.last() == r
}

/// `acc` is a run of `f` from `init` over the first `acc.len() - 1` elements of `xs`.
pub open spec fn is_run1<T, U, F: Fn(U, T) -> U>(f: F, init: U, xs: Seq<T>, acc: Seq<U>) -> bool {
    &&& 1 <= acc.len() <= xs.len() + 1
    &&& acc[0] == init
    &&& forall|i: int| 0 <= i < acc.len() - 1 ==> #[trigger] f.ensures((acc[i], xs[i]), acc[i + 1])
}

/// `r` is a result of folding `f` from `init` over all the elements of `xs` in order.
pub open spec fn folds1<T, U, F: Fn(U, T) -> U>(f: F, init: U, xs: Seq<T>, r: U) -> bool {
    exists|acc: Seq<U>|
        #[trigger] is_run1(f, init, xs, acc) && acc.len() == xs.len() + 1 && acc.last() == r
}

/// The elements that a positive-stride kernel visits: none unless the stride is positive.
pub open spec fn forward<T>(s: Seq<T>, n: int, inc: int) -> Seq<T> {
    if inc > 0 {
        gather(s, n, inc)
    } else {
        Seq::empty()
    }
}

/// Folds `f` over the matching elements of the views of `x` and `y`, in logical order,
/// from `init`: `dot` with `init = 0` and `f(s, u, v) = s + u * v`, `dotc` with
/// `f(s, u, v) = s + conj(u) * v`. A negative count returns `init`.
pub fn dot<T: Copy, U, F: Fn(U, T, T) -> U>(
    n: isize,
    init: U,
    x: &[T],
    incx: isize,
    y: &[T],
    incy: isize,
    f: F,
) -> (r: U)
    requires
        fits(x@.len() as int, n as int, incx as int),
        fits(y@.len() as int, n as int, incy as int),
        forall|s: U, u: T, v: T| f.requires((s, u, v)),
    ensures
        folds2(f, init, gather(x@, n as int, incx as int), gather(y@, n as int, incy as int), r),
        n <= 0 ==> r == init,
{
    let ghost xs = gather(x@, n as int, incx as int);
    let ghost ys = gather(y@, n as int, incy as int);
    let ghost mut acc: Seq<U> = seq![init];
    let mut r = init;
    if n > 0 {
        let len: usize = n as usize;
        let mut i: usize = 0;
        while i < len
            invariant
                len == n,
                i <= len,
                fits(x@.len() as int, n as int, incx as int),
                fits(y@.len() as int, n as int, incy as int),
                forall|s: U, u: T, v: T| f.requires((s, u, v)),
                xs == gather(x@, n as int, incx as int),
                ys == gather(y@, n as int, incy as int),
                is_run2(f, init, xs, ys, acc),
                acc.len() == i + 1,
                acc.last() == r,
            decreases len - i,
        {
            let ix: usize = slot(x.len(), len, incx, i);
            let iy: usize = slot(y.len(), len, incy, i);
            let next = f(r, x[ix], y[iy]);
            proof {
                let acc1 = acc.push(next);
                assert forall|j: int| 0 <= j < acc1.len() - 1 implies #[trigger] f.ensures(
                    (acc1[j], xs[j], ys[j]),
                    acc1[j + 1],
                ) by {
                    if j < i {
                        assert(acc1[j] == acc[j] && acc1[j + 1] == acc[j + 1]);
                    }
                }
                acc = acc1;
            }
            r = next;
            i += 1;
        }
    }
    assert(is_run2(f, init, xs, ys, acc));
    r
}

/// Folds `f` over the view of `x`, in logical order, from `init`. Only positive strides are
/// served: a count or a stride below one returns `init`. With `f` folding each element's
/// magnitude into a scaled sum of squares, this is the scan behind `nrm2`.
pub fn accumulate<T: Copy, U, F: Fn(U, T) -> U>(
    n: isize,
    init: U,
    x: &[T],
    incx: isize,
    f: F,
) -> (r: U)
    requires
        incx > 0 ==> fits(x@.len() as int, n as int, incx as int),
        forall|s: U, u: T| f.requires((s, u)),
    ensures
        folds1(f, init, forward(x@, n as int, incx as int), r),
        n <= 0 || incx <= 0 ==> r == init,
{
    let ghost xs = forward(x@, n as int, incx as int);
    let ghost mut acc: Seq<U> = seq![init];
    let mut r = init;
    if n > 0 && incx > 0 {
        let len: usize = n as usize;
        let mut i: usize = 0;
        while i < len
            invariant
                len == n,
                incx > 0,
                i <= len,
                fits(x@.len() as int, n as int, incx as int),
                forall|s: U, u: T| f.requires((s, u)),
                xs == gather(x@, n as int, incx as int),
                is_run1(f, init, xs, acc),
                acc.len() == i + 1,
                acc.last() == r,
            decreases len - i,
        {
            let ix: usize = slot(x.len(), len, incx, i);
            let next = f(r, x[ix]);
            proof {
                let acc1 = acc.push(next);
                assert forall|j: int| 0 <= j < acc1.len() - 1 implies #[trigger] f.ensures(
                    (acc1[j], xs[j]),
                    acc1[j + 1],
                ) by {
                    if j < i {
                        assert(acc1[j] == acc[j] && acc1[j + 1] == acc[j + 1]);
                    }
                }
                acc = acc1;
            }
            r = next;
            i += 1;
        }
    }
    assert(is_run1(f, init, xs, acc));
    r
}

} // verus!
