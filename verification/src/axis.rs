//! The signed axis+direction encoding shared by the puzzle engine and the
//! layout generator.
//!
//! An axis code packs an axis index and a direction into one signed integer:
//! a non-negative value `a` is the positive side of axis `a`, and the
//! complement `-1 - a` (the bitwise complement in two's complement) is the
//! negative side of the same axis. Complementing is self-inverse, and the
//! larger of a code and its complement recovers the unsigned axis index.

use vstd::prelude::*;

verus! {

/// The complement of an axis code: flips the direction, keeps the axis.
pub open spec fn spec_compl(s: int) -> int {
    -1 - s
}

/// The unsigned axis index encoded by an axis code.
pub open spec fn spec_ax(s: int) -> int {
    if s >= 0 {
        s
    } else {
        -1 - s
    }
}

/// Complementing an axis code is self-inverse.
pub proof fn lemma_compl_self_inverse(s: int)
    ensures
        spec_compl(spec_compl(s)) == s,
{
}

/// The unsigned axis index is the larger of a code and its complement,
/// and both directions of an axis share one index.
pub proof fn lemma_ax_extracts(s: int)
    ensures
        spec_ax(s) == if s >= spec_compl(s) { s } else { spec_compl(s) },
        spec_ax(spec_compl(s)) == spec_ax(s),
        s >= 0 ==> spec_ax(s) == s,
        s < 0 ==> spec_ax(s) == spec_compl(s),
{
}

/// Two axis codes name the same axis exactly when they are equal or
/// complementary.
pub proof fn lemma_ax_same(s: int, t: int)
    ensures
        (spec_ax(s) == spec_ax(t)) <==> (s == t || s == spec_compl(t)),
{
}

/// The complement of an axis code, `-1 - s` (the bitwise complement of a
/// two's-complement integer).
pub fn compl(s: i16) -> (r: i16)
    ensures
        r as int == spec_compl(s as int),
{
    -1 - s
}

/// The unsigned axis index of an axis code.
pub fn ax(s: i16) -> (r: i16)
    ensures
        r as int == spec_ax(s as int),
        r >= 0,
{
    if s >= 0 {
        s
    } else {
        -1 - s
    }
}

} // verus!
