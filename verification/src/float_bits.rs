//! Doubles as their IEEE 754 bit patterns: how two of them compare, stated
//! and computed on the bits alone.

use vstd::prelude::*;

verus! {

/// The bits of the pattern without its sign.
pub open spec fn magnitude(b: u64) -> u64 {
    b & 0x7fff_ffff_ffff_ffff
}

/// Whether the sign bit is set.
pub open spec fn sign_set(b: u64) -> bool {
    b & 0x8000_0000_0000_0000 != 0
}

/// Whether the pattern is a NaN: all exponent bits set and a fraction that
/// is not zero.
pub open spec fn is_nan(b: u64) -> bool {
    magnitude(b) > 0x7ff0_0000_0000_0000
}

/// An integer that orders the patterns that are no NaN as their values are
/// ordered. Both zeros have the key 0.
pub open spec fn order_key(b: u64) -> int {
    if sign_set(b) {
        -(magnitude(b) as int)
    } else {
        magnitude(b) as int
    }
}

/// `a < b` as doubles: false where either is a NaN.
pub open spec fn real_lt(a: u64, b: u64) -> bool {
    !is_nan(a) && !is_nan(b) && order_key(a) < order_key(b)
}

/// `a <= b` as doubles: false where either is a NaN.
pub open spec fn real_le(a: u64, b: u64) -> bool {
    !is_nan(a) && !is_nan(b) && order_key(a) <= order_key(b)
}

/// `a == b` as doubles: false where either is a NaN, true of the two zeros.
pub open spec fn real_eq(a: u64, b: u64) -> bool {
    !is_nan(a) && !is_nan(b) && order_key(a) == order_key(b)
}

/// Whether `lo <= x <= hi` as doubles.
pub open spec fn real_within(x: u64, lo: u64, hi: u64) -> bool {
    real_le(lo, x) && real_le(x, hi)
}

/// Whether the pattern is a NaN.
pub fn real_is_nan(b: u64) -> (r: bool)
    ensures
        r == is_nan(b),
{
    (b & 0x7fff_ffff_ffff_ffff) > 0x7ff0_0000_0000_0000
}

fn key_of(b: u64) -> (k: i128)
    ensures
        k == order_key(b),
{
    let m: u64 = b & 0x7fff_ffff_ffff_ffff;
    if b & 0x8000_0000_0000_0000 != 0 {
        -(m as i128)
    } else {
        m as i128
    }
}

/// Whether `a < b` as doubles.
pub fn real_less(a: u64, b: u64) -> (r: bool)
    ensures
        r == real_lt(a, b),
{
    !real_is_nan(a) && !real_is_nan(b) && key_of(a) < key_of(b)
}

/// Whether `a <= b` as doubles.
pub fn real_less_eq(a: u64, b: u64) -> (r: bool)
    ensures
        r == real_le(a, b),
{
    !real_is_nan(a) && !real_is_nan(b) && key_of(a) <= key_of(b)
}

/// Whether `a == b` as doubles.
pub fn real_equal(a: u64, b: u64) -> (r: bool)
    ensures
        r == real_eq(a, b),
{
    !real_is_nan(a) && !real_is_nan(b) && key_of(a) == key_of(b)
}

/// No double is below itself, and of two doubles none is both below and
/// at or above the other.
pub proof fn lemma_real_order(a: u64, b: u64)
    ensures
        !real_lt(a, a),
        real_lt(a, b) ==> !real_le(b, a),
        !is_nan(a) && !is_nan(b) ==> (real_lt(a, b) || real_le(b, a)),
        !is_nan(a) ==> real_eq(a, a),
{
}

} // verus!
