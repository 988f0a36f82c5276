//! Kernels that move or update the elements of strided views in place.

use crate::stride::{
    distinct, fits, gather, lemma_on_grid, lemma_pos, lemma_scatter_ends, lemma_scatter_none,
    lemma_scatter_step, logical, on_grid, pos, scatter, scatter_upto, slot,
};
use vstd::prelude::*;

verus! {

/// Copies the view of `x` into the view of `y`: `y[i] = x[i]` for every logical `i`.
/// A negative count leaves `y` as it is.
pub fn copy<T: Copy>(n: isize, x: &[T], incx: isize, y: &mut [T], incy: isize)
    requires
        fits(x@.len() as int, n as int, incx as int),
        fits(old(y)@.len() as int, n as int, incy as int),
        distinct(n as int, incy as int),
    ensures
        final(y)@ == scatter(old(y)@, n as int, incy as int, gather(x@, n as int, incx as int)),
        n <= 0 ==> final(y)@ == old(y)@,
{
    let ghost y0 = y@;
    let ghost v = gather(x@, n as int, incx as int);
    proof {
        lemma_scatter_ends(y0, n as int, incy as int, v);
    }
    if n <= 0 {
        proof {
            lemma_scatter_none(y0, n as int, incy as int, v);
        }
        return;
    }
    let len: usize = n as usize;
    let mut i: usize = 0;
    while i < len
        invariant
            len == n,
            i <= len,
            fits(x@.len() as int, n as int, incx as int),
            fits(y0.len() as int, n as int, incy as int),
            distinct(n as int, incy as int),
            v == gather(x@, n as int, incx as int),
            y@ == scatter_upto(y0, n as int, incy as int, v, i as int),
        decreases len - i,
    {
        let ix: usize = slot(x.len(), len, incx, i);
        let iy: usize = slot(y.len(), len, incy, i);
        proof {
            lemma_pos(n as int, incx as int, i as int);
            lemma_pos(n as int, incy as int, i as int);
            lemma_scatter_step(y0, n as int, incy as int, v, i as int);
        }
        y[iy] = x[ix];
        i += 1;
    }
}

/// Exchanges the views of `x` and `y` element by element.
/// A negative count leaves both as they are.
pub fn swap<T: Copy>(n: isize, x: &mut [T], incx: isize, y: &mut [T], incy: isize)
    requires
        fits(old(x)@.len() as int, n as int, incx as int),
        fits(old(y)@.len() as int, n as int, incy as int),
        distinct(n as int, incx as int),
        distinct(n as int, incy as int),
    ensures
        final(x)@ == scatter(old(x)@, n as int, incx as int, gather(old(y)@, n as int, incy as int)),
        final(y)@ == scatter(old(y)@, n as int, incy as int, gather(old(x)@, n as int, incx as int)),
        n <= 0 ==> final(x)@ == old(x)@ && final(y)@ == old(y)@,
{
    let ghost x0 = x@;
    let ghost y0 = y@;
    let ghost vx = gather(y0, n as int, incy as int);
    let ghost vy = gather(x0, n as int, incx as int);
    proof {
        lemma_scatter_ends(x0, n as int, incx as int, vx);
        lemma_scatter_ends(y0, n as int, incy as int, vy);
    }
    if n <= 0 {
        proof {
            lemma_scatter_none(x0, n as int, incx as int, vx);
            lemma_scatter_none(y0, n as int, incy as int, vy);
        }
        return;
    }
    let len: usize = n as usize;
    let mut i: usize = 0;
    while i < len
        invariant
            len == n,
            i <= len,
            fits(x0.len() as int, n as int, incx as int),
            fits(y0.len() as int, n as int, incy as int),
            distinct(n as int, incx as int),
            distinct(n as int, incy as int),
            vx == gather(y0, n as int, incy as int),
            vy == gather(x0, n as int, incx as int),
            x@ == scatter_upto(x0, n as int, incx as int, vx, i as int),
            y@ == scatter_upto(y0, n as int, incy as int, vy, i as int),
        decreases len - i,
    {
        let ix: usize = slot(x.len(), len, incx, i);
        let iy: usize = slot(y.len(), len, incy, i);
        proof {
            lemma_pos(n as int, incx as int, i as int);
            lemma_pos(n as int, incy as int, i as int);
            lemma_scatter_step(x0, n as int, incx as int, vx, i as int);
            lemma_scatter_step(y0, n as int, incy as int, vy, i as int);
        }
        let t = x[ix];
        x[ix] = y[iy];
        y[iy] = t;
        i += 1;
    }
}

/// Replaces each element of the view of `x` by `f` of it: `x[i] = f(x[i])`, as `scal` does
/// with `f` multiplying by the scale factor. Only positive strides are served: a negative
/// count or a stride below one leaves `x` as it is.
pub fn scal<T: Copy, F: Fn(T) -> T>(n: isize, x: &mut [T], incx: isize, f: F)
    requires
        incx > 0 ==> fits(old(x)@.len() as int, n as int, incx as int),
        forall|v: T| f.requires((v,)),
    ensures
        final(x)@.len() == old(x)@.len(),
        n <= 0 || incx <= 0 ==> final(x)@ == old(x)@,
        incx > 0 ==> forall|i: int|
            0 <= i < n ==> f.ensures(
                (old(x)@[pos(n as int, incx as int, i)],),
                #[trigger] final(x)@[pos(n as int, incx as int, i)],
            ),
        forall|k: int|
            0 <= k < old(x)@.len() && !(incx > 0 && on_grid(n as int, incx as int, k))
                ==> #[trigger] final(x)@[k] == old(x)@[k],
{
    let ghost x0 = x@;
    if n <= 0 || incx <= 0 {
        proof {
            assert forall|k: int| on_grid(n as int, incx as int, k) implies n > 0 by {
                lemma_on_grid(n as int, incx as int, k);
            }
        }
        return;
    }
    let len: usize = n as usize;
    let mut i: usize = 0;
    while i < len
        invariant
            len == n,
            incx > 0,
            i <= len,
            fits(x0.len() as int, n as int, incx as int),
            forall|v: T| f.requires((v,)),
            x@.len() == x0.len(),
            forall|j: int|
                0 <= j < i ==> f.ensures(
                    (x0[pos(n as int, incx as int, j)],),
                    #[trigger] x@[pos(n as int, incx as int, j)],
                ),
            forall|k: int|
                0 <= k < x0.len() && !(on_grid(n as int, incx as int, k) && logical(
                    n as int,
                    incx as int,
                    k,
                ) < i) ==> #[trigger] x@[k] == x0[k],
        decreases len - i,
    {
        let ix: usize = slot(x.len(), len, incx, i);
        proof {
            lemma_pos(n as int, incx as int, i as int);
            assert(x@[ix as int] == x0[ix as int]);
        }
        let v = f(x[ix]);
        x[ix] = v;
        assert forall|j: int| 0 <= j <= i implies f.ensures(
            (x0[pos(n as int, incx as int, j)],),
            #[trigger] x@[pos(n as int, incx as int, j)],
        ) by {
            lemma_pos(n as int, incx as int, j);
        }
        i += 1;
    }
    proof {
        assert forall|k: int| on_grid(n as int, incx as int, k) implies logical(
            n as int,
            incx as int,
            k,
        ) < n by {
            lemma_on_grid(n as int, incx as int, k);
        }
    }
}

/// Updates each element of the view of `y` from the matching element of `x`:
/// `y[i] = f(x[i], y[i])`, as `axpy` does with `f(u, v) = a * u + v`. When the scale factor
/// is zero (`a_is_zero`), or the count is negative, nothing is read or written.
pub fn axpy<T: Copy, F: Fn(T, T) -> T>(
    n: isize,
    a_is_zero: bool,
    x: &[T],
    incx: isize,
    y: &mut [T],
    incy: isize,
    f: F,
)
    requires
        fits(x@.len() as int, n as int, incx as int),
        fits(old(y)@.len() as int, n as int, incy as int),
        distinct(n as int, incy as int),
        forall|u: T, v: T| f.requires((u, v)),
    ensures
        final(y)@.len() == old(y)@.len(),
        n <= 0 || a_is_zero ==> final(y)@ == old(y)@,
        !a_is_zero ==> forall|i: int|
            0 <= i < n ==> f.ensures(
                (x@[pos(n as int, incx as int, i)], old(y)@[pos(n as int, incy as int, i)]),
                #[trigger] final(y)@[pos(n as int, incy as int, i)],
            ),
        forall|k: int|
            0 <= k < old(y)@.len() && !on_grid(n as int, incy as int, k)
                ==> #[trigger] final(y)@[k] == old(y)@[k],
{
    let ghost y0 = y@;
    if n <= 0 || a_is_zero {
        proof {
            assert forall|k: int| on_grid(n as int, incy as int, k) implies n > 0 by {
                lemma_on_grid(n as int, incy as int, k);
            }
        }
        assert(y@ =~= y0);
        return;
    }
    let len: usize = n as usize;
    let mut i: usize = 0;
    while i < len
        invariant
            len == n,
            i <= len,
            fits(x@.len() as int, n as int, incx as int),
            fits(y0.len() as int, n as int, incy as int),
            distinct(n as int, incy as int),
            forall|u: T, v: T| f.requires((u, v)),
            y@.len() == y0.len(),
            forall|j: int|
                0 <= j < i ==> f.ensures(
                    (x@[pos(n as int, incx as int, j)], y0[pos(n as int, incy as int, j)]),
                    #[trigger] y@[pos(n as int, incy as int, j)],
                ),
            forall|k: int|
                0 <= k < y0.len() && !(on_grid(n as int, incy as int, k) && logical(
                    n as int,
                    incy as int,
                    k,
                ) < i) ==> #[trigger] y@[k] == y0[k],
        decreases len - i,
    {
        let ix: usize = slot(x.len(), len, incx, i);
        let iy: usize = slot(y.len(), len, incy, i);
        proof {
            lemma_pos(n as int, incy as int, i as int);
            assert(y@[iy as int] == y0[iy as int]);
        }
        let v = f(x[ix], y[iy]);
        y[iy] = v;
        assert forall|j: int| 0 <= j <= i implies f.ensures(
            (x@[pos(n as int, incx as int, j)], y0[pos(n as int, incy as int, j)]),
            #[trigger] y@[pos(n as int, incy as int, j)],
        ) by {
            lemma_pos(n as int, incy as int, j);
        }
        i += 1;
    }
    proof {
        assert forall|k: int| on_grid(n as int, incy as int, k) implies logical(
            n as int,
            incy as int,
            k,
        ) < n by {
            lemma_on_grid(n as int, incy as int, k);
        }
    }
}

/// Transforms each pair of matching elements of the views of `x` and `y` together:
/// `(x[i], y[i]) = f(x[i], y[i])`, both new values computed from the values before the
/// step. This applies a plane rotation (`f(u, v) = (c u + s v, c v - s u)`) or a modified
/// Givens transform (`f(u, v) = (h11 u + h12 v, h21 u + h22 v)`). A negative count leaves
/// both views as they are.
pub fn rot<T: Copy, F: Fn(T, T) -> (T, T)>(
    n: isize,
    x: &mut [T],
    incx: isize,
    y: &mut [T],
    incy: isize,
    f: F,
)
    requires
        fits(old(x)@.len() as int, n as int, incx as int),
        fits(old(y)@.len() as int, n as int, incy as int),
        distinct(n as int, incx as int),
        distinct(n as int, incy as int),
        forall|u: T, v: T| f.requires((u, v)),
    ensures
        final(x)@.len() == old(x)@.len(),
        final(y)@.len() == old(y)@.len(),
        n <= 0 ==> final(x)@ == old(x)@ && final(y)@ == old(y)@,
        forall|i: int|
            0 <= i < n ==> f.ensures(
                (old(x)@[pos(n as int, incx as int, i)], old(y)@[pos(n as int, incy as int, i)]),
                (
                    #[trigger] final(x)@[pos(n as int, incx as int, i)],
                    final(y)@[pos(n as int, incy as int, i)],
                ),
            ),
        forall|k: int|
            0 <= k < old(x)@.len() && !on_grid(n as int, incx as int, k)
                ==> #[trigger] final(x)@[k] == old(x)@[k],
        forall|k: int|
            0 <= k < old(y)@.len() && !on_grid(n as int, incy as int, k)
                ==> #[trigger] final(y)@[k] == old(y)@[k],
{
    let ghost x0 = x@;
    let ghost y0 = y@;
    if n <= 0 {
        proof {
            assert forall|k: int| on_grid(n as int, incx as int, k) implies n > 0 by {
                lemma_on_grid(n as int, incx as int, k);
            }
            assert forall|k: int| on_grid(n as int, incy as int, k) implies n > 0 by {
                lemma_on_grid(n as int, incy as int, k);
            }
        }
        return;
    }
    let len: usize = n as usize;
    let mut i: usize = 0;
    while i < len
        invariant
            len == n,
            i <= len,
            fits(x0.len() as int, n as int, incx as int),
            fits(y0.len() as int, n as int, incy as int),
            distinct(n as int, incx as int),
            distinct(n as int, incy as int),
            forall|u: T, v: T| f.requires((u, v)),
            x@.len() == x0.len(),
            y@.len() == y0.len(),
            forall|j: int|
                0 <= j < i ==> f.ensures(
                    (x0[pos(n as int, incx as int, j)], y0[pos(n as int, incy as int, j)]),
                    (
                        #[trigger] x@[pos(n as int, incx as int, j)],
                        y@[pos(n as int, incy as int, j)],
                    ),
                ),
            forall|k: int|
                0 <= k < x0.len() && !(on_grid(n as int, incx as int, k) && logical(
                    n as int,
                    incx as int,
                    k,
                ) < i) ==> #[trigger] x@[k] == x0[k],
            forall|k: int|
                0 <= k < y0.len() && !(on_grid(n as int, incy as int, k) && logical(
                    n as int,
                    incy as int,
                    k,
                ) < i) ==> #[trigger] y@[k] == y0[k],
        decreases len - i,
    {
        let ix: usize = slot(x.len(), len, incx, i);
        let iy: usize = slot(y.len(), len, incy, i);
        proof {
            lemma_pos(n as int, incx as int, i as int);
            lemma_pos(n as int, incy as int, i as int);
            assert(x@[ix as int] == x0[ix as int]);
            assert(y@[iy as int] == y0[iy as int]);
        }
        let (u, v) = f(x[ix], y[iy]);
        x[ix] = u;
        y[iy] = v;
        assert forall|j: int| 0 <= j <= i implies f.ensures(
            (x0[pos(n as int, incx as int, j)], y0[pos(n as int, incy as int, j)]),
            (#[trigger] x@[pos(n as int, incx as int, j)], y@[pos(n as int, incy as int, j)]),
        ) by {
            lemma_pos(n as int, incx as int, j);
            lemma_pos(n as int, incy as int, j);
        }
        i += 1;
    }
    proof {
        assert forall|k: int| on_grid(n as int, incx as int, k) implies logical(
            n as int,
            incx as int,
            k,
        ) < n by {
            lemma_on_grid(n as int, incx as int, k);
        }
        assert forall|k: int| on_grid(n as int, incy as int, k) implies logical(
            n as int,
            incy as int,
            k,
        ) < n by {
            lemma_on_grid(n as int, incy as int, k);
        }
    }
}

} // verus!
