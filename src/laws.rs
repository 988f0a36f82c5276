//! Properties that relate several kernels, or several calls of one kernel.

use crate::stride::{
    count, distinct, fits, gather, lemma_gather_scatter, lemma_scatter_gather, lemma_scatter_twice,
    scatter,
};
use crate::givens::{matrix_of, promoted, respects, stored, RotmFlag};
use vstd::prelude::*;

verus! {

/// After `copy`, reading `y` through its view element by element gives exactly the elements
/// of the view of `x`.
pub proof fn copy_reads_back<T>(x: Seq<T>, y: Seq<T>, n: int, incx: int, incy: int)
    requires
        fits(x.len() as int, n, incx),
        fits(y.len() as int, n, incy),
        distinct(n, incy),
    ensures
        gather(scatter(y, n, incy, gather(x, n, incx)), n, incy) == gather(x, n, incx),
{
    lemma_gather_scatter(y, n, incy, gather(x, n, incx));
}

/// Calling `swap` twice on the same views restores both buffers.
pub proof fn swap_twice_restores<T>(x: Seq<T>, y: Seq<T>, n: int, incx: int, incy: int)
    requires
        fits(x.len() as int, n, incx),
        fits(y.len() as int, n, incy),
        distinct(n, incx),
        distinct(n, incy),
    ensures
        ({
            let x1 = scatter(x, n, incx, gather(y, n, incy));
            let y1 = scatter(y, n, incy, gather(x, n, incx));
            &&& scatter(x1, n, incx, gather(y1, n, incy)) == x
            &&& scatter(y1, n, incy, gather(x1, n, incx)) == y
        }),
{
    assert(gather(y, n, incy).len() == count(n));
    assert(gather(x, n, incx).len() == count(n));
    lemma_gather_scatter(y, n, incy, gather(x, n, incx));
    lemma_gather_scatter(x, n, incx, gather(y, n, incy));
    lemma_scatter_twice(x, n, incx, gather(y, n, incy), gather(x, n, incx));
    lemma_scatter_twice(y, n, incy, gather(x, n, incx), gather(y, n, incy));
    lemma_scatter_gather(x, n, incx);
    lemma_scatter_gather(y, n, incy);
}

/// A matrix written into a parameter vector under a flag whose implied constants it agrees
/// with is read back unchanged: what `rotmg` stores is what `rotm` applies.
pub proof fn stored_params_read_back<T>(
    p: Seq<T>,
    flag: RotmFlag,
    h: (T, T, T, T),
    code: T,
    zero: T,
    one: T,
    minus_one: T,
)
    requires
        p.len() == 5,
        respects(flag, h, zero, one, minus_one),
    ensures
        matrix_of(flag, stored(p, flag, h, code), zero, one, minus_one) == h,
{
}

/// Promoting a transform to the dense form keeps the matrix it stands for.
pub proof fn promote_keeps_matrix<T>(
    flag: RotmFlag,
    h: (T, T, T, T),
    zero: T,
    one: T,
    minus_one: T,
)
    requires
        flag != RotmFlag::Identity,
        respects(flag, h, zero, one, minus_one),
    ensures
        promoted(flag, h, one, minus_one) == h,
{
}

} // verus!
