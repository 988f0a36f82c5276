//! The five-slot parameter vector of a modified Givens transform.
//!
//! `param[0]` holds the flag; `param[1..5]` hold `h11, h21, h12, h22`. The flag selects
//! which entries of the 2x2 matrix `H` are stored and which are implied constants.

use vstd::prelude::*;

verus! {

/// Which entries of `H` a parameter vector stores.
#[derive(PartialEq, Eq, Structural, Clone, Copy, Debug)]
pub enum RotmFlag {
    /// Flag -1: all four entries are stored.
    Full,
    /// Flag 0: `h12` and `h21` are stored; `h11 = h22 = 1`.
    OffDiagonal,
    /// Flag 1: `h11` and `h22` are stored; `h12 = 1`, `h21 = -1`.
    Diagonal,
    /// Flag -2: `H` is the identity and nothing is stored.
    Identity,
}

/// The flag's numeric code, as stored in `param[0]`.
pub open spec fn code_of(flag: RotmFlag) -> int {
    match flag {
        RotmFlag::Full => -1,
        RotmFlag::OffDiagonal => 0,
        RotmFlag::Diagonal => 1,
        RotmFlag::Identity => -2,
    }
}

/// The matrix `(h11, h12, h21, h22)` that the parameter vector `p` encodes under `flag`,
/// given the constants zero, one and minus one of the element type.
pub open spec fn matrix_of<T>(flag: RotmFlag, p: Seq<T>, zero: T, one: T, minus_one: T) -> (
    T,
    T,
    T,
    T,
) {
    match flag {
        RotmFlag::Full => (p[1], p[3], p[2], p[4]),
        RotmFlag::OffDiagonal => (one, p[3], p[2], one),
        RotmFlag::Diagonal => (p[1], one, minus_one, p[4]),
        RotmFlag::Identity => (one, zero, zero, one),
    }
}

/// `p` after storing `h = (h11, h12, h21, h22)` under `flag`: only the entries the flag
/// does not imply are written, then the flag's code goes to `p[0]`.
pub open spec fn stored<T>(p: Seq<T>, flag: RotmFlag, h: (T, T, T, T), code: T) -> Seq<T> {
    match flag {
        RotmFlag::Full => seq![code, h.0, h.2, h.1, h.3],
        RotmFlag::OffDiagonal => seq![code, p[1], h.2, h.1, p[4]],
        RotmFlag::Diagonal => seq![code, h.0, p[2], p[3], h.3],
        RotmFlag::Identity => p.update(0, code),
    }
}

/// `h` agrees with the constants that `flag` implies.
pub open spec fn respects<T>(flag: RotmFlag, h: (T, T, T, T), zero: T, one: T, minus_one: T) -> bool {
    match flag {
        RotmFlag::Full => true,
        RotmFlag::OffDiagonal => h.0 == one && h.3 == one,
        RotmFlag::Diagonal => h.1 == one && h.2 == minus_one,
        RotmFlag::Identity => h == (one, zero, zero, one),
    }
}

/// The dense form of `h` under `flag`: the constants that the flag implies become entries.
pub open spec fn promoted<T>(flag: RotmFlag, h: (T, T, T, T), one: T, minus_one: T) -> (
    T,
    T,
    T,
    T,
) {
    match flag {
        RotmFlag::OffDiagonal => (one, h.1, h.2, one),
        RotmFlag::Diagonal => (h.0, one, minus_one, h.3),
        _ => h,
    }
}

impl RotmFlag {
    /// The numeric code of the flag: -1, 0, 1 or -2.
    pub fn code(&self) -> (r: i8)
        ensures
            r == code_of(*self),
    {
        match self {
            RotmFlag::Full => -1,
            RotmFlag::OffDiagonal => 0,
            RotmFlag::Diagonal => 1,
            RotmFlag::Identity => -2,
        }
    }
}

/// Reads the matrix `(h11, h12, h21, h22)` out of a parameter vector, filling in the entries
/// that the flag implies.
pub fn rotm_matrix<T: Copy>(flag: RotmFlag, param: &[T], zero: T, one: T, minus_one: T) -> (r: (
    T,
    T,
    T,
    T,
))
    requires
        param@.len() == 5,
    ensures
        r == matrix_of(flag, param@, zero, one, minus_one),
{
    match flag {
        RotmFlag::Full => (param[1], param[3], param[2], param[4]),
        RotmFlag::OffDiagonal => (one, param[3], param[2], one),
        RotmFlag::Diagonal => (param[1], one, minus_one, param[4]),
        RotmFlag::Identity => (one, zero, zero, one),
    }
}

/// Writes the matrix `h = (h11, h12, h21, h22)` into a parameter vector under `flag`: the
/// entries that the flag implies are left as they are, and `code` (the flag's value in the
/// element type) is written to `param[0]` last.
pub fn store_params<T: Copy>(flag: RotmFlag, h: (T, T, T, T), code: T, param: &mut [T])
    requires
        old(param)@.len() == 5,
    ensures
        final(param)@ == stored(old(param)@, flag, h, code),
{
    let (h11, h12, h21, h22) = h;
    match flag {
        RotmFlag::Full => {
            param[1] = h11;
            param[2] = h21;
            param[3] = h12;
            param[4] = h22;
        },
        RotmFlag::OffDiagonal => {
            param[2] = h21;
            param[3] = h12;
        },
        RotmFlag::Diagonal => {
            param[1] = h11;
            param[4] = h22;
        },
        RotmFlag::Identity => {},
    }
    param[0] = code;
    assert(param@ =~= stored(old(param)@, flag, h, code));
}

/// Turns a transform into the dense form, as the rescaling step of `rotmg` does before it
/// scales entries: the implied constants of flags 0 and 1 become stored entries and the
/// flag becomes -1. A dense transform stays as it is.
pub fn promote<T: Copy>(flag: RotmFlag, h: (T, T, T, T), one: T, minus_one: T) -> (r: (
    RotmFlag,
    (T, T, T, T),
))
    requires
        flag != RotmFlag::Identity,
    ensures
        r.0 == RotmFlag::Full,
        r.1 == promoted(flag, h, one, minus_one),
{
    let (h11, h12, h21, h22) = h;
    match flag {
        RotmFlag::OffDiagonal => (RotmFlag::Full, (one, h12, h21, one)),
        RotmFlag::Diagonal => (RotmFlag::Full, (h11, one, minus_one, h22)),
        _ => (RotmFlag::Full, h),
    }
}

} // verus!
