//! The strided-view addressing model.
//!
//! A view of `n` elements with stride `inc` over a buffer maps logical element `i` to the
//! physical slot `start(n, inc) + i * inc`. A negative stride starts from the far end of
//! the buffer, so the slots are always within `0 ..= (n - 1) * |inc|`.

use vstd::arithmetic::div_mod::*;
use vstd::arithmetic::mul::*;
use vstd::prelude::*;

verus! {

/// Distance between the slots of two logically consecutive elements.
pub open spec fn step(inc: int) -> int {
    if inc < 0 {
        -inc
    } else {
        inc
    }
}

/// Slot of the first logical element.
pub open spec fn start(n: int, inc: int) -> int {
    if inc < 0 {
        (1 - n) * inc
    } else {
        0
    }
}

/// Slot of logical element `i`.
pub open spec fn pos(n: int, inc: int, i: int) -> int {
    start(n, inc) + i * inc
}

/// A buffer of length `len` holds every slot of the view.
pub open spec fn fits(len: int, n: int, inc: int) -> bool {
    n <= 0 || (n - 1) * step(inc) < len
}

/// No two logical elements share a slot.
pub open spec fn distinct(n: int, inc: int) -> bool {
    inc != 0 || n <= 1
}

/// Slot `k` belongs to the view.
pub open spec fn on_grid(n: int, inc: int, k: int) -> bool {
    if inc == 0 {
        n >= 1 && k == 0
    } else {
        0 <= k && k % step(inc) == 0 && k / step(inc) < n
    }
}

/// The logical element whose slot is `k` (the last one when the stride is zero).
pub open spec fn logical(n: int, inc: int, k: int) -> int {
    if inc == 0 {
        n - 1
    } else if inc > 0 {
        k / inc
    } else {
        n - 1 - k / step(inc)
    }
}

/// Number of elements of the view: a negative count gives none.
pub open spec fn count(n: int) -> nat {
    if n > 0 {
        n as nat
    } else {
        0
    }
}

/// The elements of the view in logical order.
pub open spec fn gather<T>(s: Seq<T>, n: int, inc: int) -> Seq<T> {
    Seq::new(count(n), |i: int| s[pos(n, inc, i)])
}

/// `s` with the slot of each logical element `i` of the view holding `v[i]`.
pub open spec fn scatter<T>(s: Seq<T>, n: int, inc: int, v: Seq<T>) -> Seq<T> {
    Seq::new(s.len(), |k: int| if on_grid(n, inc, k) { v[logical(n, inc, k)] } else { s[k] })
}

/// Slot `i` of the view, for `0 <= i < n`, lies in `0 ..= (n - 1) * |inc|` and is on the
/// view's grid; when no two elements share a slot, it belongs to element `i` alone.
pub proof fn lemma_pos(n: int, inc: int, i: int)
    requires
        0 <= i < n,
    ensures
        pos(n, inc, i) == (if inc < 0 { (n - 1 - i) * step(inc) } else { i * inc }),
        0 <= pos(n, inc, i) <= (n - 1) * step(inc),
        on_grid(n, inc, pos(n, inc, i)),
        distinct(n, inc) ==> logical(n, inc, pos(n, inc, i)) == i,
{
    let m: int = step(inc);
    if inc < 0 {
        assert(pos(n, inc, i) == (n - 1 - i) * m) by (nonlinear_arith)
            requires
                m == -inc,
                pos(n, inc, i) == (1 - n) * inc + i * inc,
        ;
        lemma_mul_nonnegative(n - 1 - i, m);
        lemma_mul_inequality(n - 1 - i, n - 1, m);
        lemma_mod_multiples_basic(n - 1 - i, m);
        lemma_div_multiples_vanish(n - 1 - i, m);
        lemma_mul_is_commutative(n - 1 - i, m);
    } else if inc > 0 {
        lemma_mul_nonnegative(i, m);
        lemma_mul_inequality(i, n - 1, m);
        lemma_mod_multiples_basic(i, m);
        lemma_div_multiples_vanish(i, m);
        lemma_mul_is_commutative(i, m);
    } else {
        lemma_mul_basics(i);
        lemma_mul_basics(n - 1);
    }
}

/// Every slot on the view's grid is the slot of one logical element.
pub proof fn lemma_on_grid(n: int, inc: int, k: int)
    requires
        on_grid(n, inc, k),
    ensures
        0 <= logical(n, inc, k) < n,
        pos(n, inc, logical(n, inc, k)) == k,
{
    let m: int = step(inc);
    if inc != 0 {
        lemma_fundamental_div_mod(k, m);
        lemma_div_pos_is_pos(k, m);
        let q: int = k / m;
        assert(k == m * q);
        if inc < 0 {
            assert(pos(n, inc, n - 1 - q) == k) by (nonlinear_arith)
                requires
                    m == -inc,
                    k == m * q,
                    pos(n, inc, n - 1 - q) == (1 - n) * inc + (n - 1 - q) * inc,
            ;
        } else {
            assert(pos(n, inc, q) == k) by (nonlinear_arith)
                requires
                    m == inc,
                    k == m * q,
                    pos(n, inc, q) == q * inc,
            ;
        }
    }
}

/// `scatter` restricted to the logical elements below `i`.
pub open spec fn scatter_upto<T>(s: Seq<T>, n: int, inc: int, v: Seq<T>, i: int) -> Seq<T> {
    Seq::new(
        s.len(),
        |k: int|
            if on_grid(n, inc, k) && logical(n, inc, k) < i {
                v[logical(n, inc, k)]
            } else {
                s[k]
            },
    )
}

/// Writing element `i` extends a partial scatter by one element.
pub proof fn lemma_scatter_step<T>(s: Seq<T>, n: int, inc: int, v: Seq<T>, i: int)
    requires
        0 <= i < n,
        distinct(n, inc),
        fits(s.len() as int, n, inc),
    ensures
        scatter_upto(s, n, inc, v, i + 1) == scatter_upto(s, n, inc, v, i).update(
            pos(n, inc, i),
            v[i],
        ),
{
    lemma_pos(n, inc, i);
    assert forall|k: int| 0 <= k < s.len() && on_grid(n, inc, k) && logical(n, inc, k) == i
        implies k == pos(n, inc, i) by {
        lemma_on_grid(n, inc, k);
    }
    assert(scatter_upto(s, n, inc, v, i + 1) =~= scatter_upto(s, n, inc, v, i).update(
        pos(n, inc, i),
        v[i],
    ));
}

/// A partial scatter over no element is the identity, and one over all `n` is the scatter.
pub proof fn lemma_scatter_ends<T>(s: Seq<T>, n: int, inc: int, v: Seq<T>)
    ensures
        scatter_upto(s, n, inc, v, 0) == s,
        scatter_upto(s, n, inc, v, count(n) as int) == scatter(s, n, inc, v),
{
    assert forall|k: int| on_grid(n, inc, k) implies 0 <= logical(n, inc, k) < n by {
        lemma_on_grid(n, inc, k);
    }
    assert(scatter_upto(s, n, inc, v, 0) =~= s);
    assert(scatter_upto(s, n, inc, v, count(n) as int) =~= scatter(s, n, inc, v));
}

/// Reading back a scattered sequence through the same view gives it again.
pub proof fn lemma_gather_scatter<T>(s: Seq<T>, n: int, inc: int, v: Seq<T>)
    requires
        distinct(n, inc),
        fits(s.len() as int, n, inc),
        v.len() == count(n),
    ensures
        gather(scatter(s, n, inc, v), n, inc) == v,
{
    assert forall|i: int| 0 <= i < count(n) implies #[trigger] gather(
        scatter(s, n, inc, v),
        n,
        inc,
    )[i] == v[i] by {
        lemma_pos(n, inc, i);
    }
    assert(gather(scatter(s, n, inc, v), n, inc) =~= v);
}

/// Scattering a view's own elements back into it changes nothing.
pub proof fn lemma_scatter_gather<T>(s: Seq<T>, n: int, inc: int)
    requires
        fits(s.len() as int, n, inc),
    ensures
        scatter(s, n, inc, gather(s, n, inc)) == s,
{
    assert forall|k: int| 0 <= k < s.len() implies #[trigger] scatter(s, n, inc, gather(s, n, inc))[k]
        == s[k] by {
        if on_grid(n, inc, k) {
            lemma_on_grid(n, inc, k);
        }
    }
    assert(scatter(s, n, inc, gather(s, n, inc)) =~= s);
}

/// A second scatter through the same view overwrites the first.
pub proof fn lemma_scatter_twice<T>(s: Seq<T>, n: int, inc: int, v: Seq<T>, w: Seq<T>)
    ensures
        scatter(scatter(s, n, inc, v), n, inc, w) == scatter(s, n, inc, w),
{
    assert(scatter(scatter(s, n, inc, v), n, inc, w) =~= scatter(s, n, inc, w));
}

/// A view of no elements leaves every slot alone.
pub proof fn lemma_scatter_none<T>(s: Seq<T>, n: int, inc: int, v: Seq<T>)
    requires
        n <= 0,
    ensures
        scatter(s, n, inc, v) == s,
        forall|k: int| !on_grid(n, inc, k),
{
    lemma_scatter_ends(s, n, inc, v);
    assert forall|k: int| !on_grid(n, inc, k) by {
        if on_grid(n, inc, k) {
            lemma_on_grid(n, inc, k);
        }
    }
}

/// `|inc|` as a `usize`.
pub fn step_of(inc: isize) -> (r: usize)
    ensures
        r == step(inc as int),
{
    if inc < 0 {
        (-(inc + 1)) as usize + 1
    } else {
        inc as usize
    }
}

/// Slot of logical element `i` of a view of `n` elements with stride `inc` over a buffer
/// of length `buf_len`.
pub fn slot(buf_len: usize, n: usize, inc: isize, i: usize) -> (r: usize)
    requires
        i < n,
        fits(buf_len as int, n as int, inc as int),
    ensures
        r == pos(n as int, inc as int, i as int),
        r < buf_len,
{
    let m: usize = step_of(inc);
    proof {
        lemma_pos(n as int, inc as int, i as int);
    }
    if inc < 0 {
        proof {
            lemma_mul_inequality(n - 1 - i, n - 1, m as int);
        }
        (n - 1 - i) * m
    } else {
        proof {
            lemma_mul_inequality(i as int, n - 1, m as int);
        }
        i * m
    }
}

/// Length of the shortest buffer that holds a view of `n` elements with stride `inc`:
/// `(n - 1) * |inc| + 1` slots, none for a count below one; `None` when that exceeds `usize`.
pub fn storage_len(n: isize, inc: isize) -> (r: Option<usize>)
    ensures
        n <= 0 ==> r == Some(0usize),
        n > 0 ==> (r matches Some(l) ==> l == (n - 1) * step(inc as int) + 1),
        n > 0 ==> (r is None <==> (n - 1) * step(inc as int) + 1 > usize::MAX),
        r matches Some(l) ==> fits(l as int, n as int, inc as int),
{
    if n <= 0 {
        return Some(0);
    }
    let m: u128 = step_of(inc) as u128;
    let k: u128 = (n - 1) as u128;
    assert(k * m <= 0x7fff_ffff_ffff_ffff_ffff_ffff_ffff_ffffu128) by (nonlinear_arith)
        requires
            k <= 0x7fff_ffff_ffff_ffffu128,
            m <= 0x8000_0000_0000_0000u128,
    ;
    let need: u128 = k * m + 1;
    if need > usize::MAX as u128 {
        None
    } else {
        Some(need as usize)
    }
}

} // verus!
