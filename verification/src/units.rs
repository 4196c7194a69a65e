//! Arithmetic on layout units. Sizes and positions are whole numbers of a
//! unit that the host chooses; sums that leave the range of the unit stop at
//! its ends.

use vstd::prelude::*;

verus! {

/// The number `x`, held to the range of a layout unit.
pub open spec fn clamp(x: int) -> i64 {
    if x > i64::MAX {
        i64::MAX
    } else if x < i64::MIN {
        i64::MIN
    } else {
        x as i64
    }
}

/// The sum of `a` and `b`, held to the range.
pub open spec fn plus(a: i64, b: i64) -> i64 {
    clamp(a + b)
}

/// The difference of `a` and `b`, held to the range.
pub open spec fn minus(a: i64, b: i64) -> i64 {
    clamp(a - b)
}

/// The larger of `a` and `b`.
pub open spec fn larger(a: i64, b: i64) -> i64 {
    if a < b {
        b
    } else {
        a
    }
}

/// Half of `a`, rounded towards zero.
pub open spec fn half(a: i64) -> i64 {
    if a >= 0 {
        (a / 2) as i64
    } else {
        (-((-a) / 2)) as i64
    }
}

/// The part `permille` thousandths of `a`, rounded towards zero and held to
/// the range.
pub open spec fn portion(a: i64, permille: u16) -> i64 {
    if a >= 0 {
        clamp((a * permille) / 1000)
    } else {
        clamp(-(((-a) * permille) / 1000))
    }
}

/// `a + b`, held to the range.
pub fn sat_plus(a: i64, b: i64) -> (r: i64)
    ensures
        r == plus(a, b),
{
    if b > 0 && a > i64::MAX - b {
        i64::MAX
    } else if b < 0 && a < i64::MIN - b {
        i64::MIN
    } else {
        a + b
    }
}

/// `a - b`, held to the range.
pub fn sat_minus(a: i64, b: i64) -> (r: i64)
    ensures
        r == minus(a, b),
{
    if b < 0 && a > i64::MAX + b {
        i64::MAX
    } else if b > 0 && a < i64::MIN + b {
        i64::MIN
    } else {
        a - b
    }
}

/// The larger of `a` and `b`.
pub fn max_of(a: i64, b: i64) -> (r: i64)
    ensures
        r == larger(a, b),
{
    if a < b {
        b
    } else {
        a
    }
}

/// Half of `a`, rounded towards zero.
pub fn half_of(a: i64) -> (r: i64)
    ensures
        r == half(a),
{
    if a >= 0 {
        let u: u64 = a as u64;
        (u / 2) as i64
    } else if a == i64::MIN {
        -4611686018427387904i64
    } else {
        let u: u64 = (-a) as u64;
        -((u / 2) as i64)
    }
}

/// The part `permille` thousandths of `a`.
pub fn portion_of(a: i64, permille: u16) -> (r: i64)
    ensures
        r == portion(a, permille),
{
    if a >= 0 {
        assert(a * permille <= 0x7fff_ffff_ffff_ffff * 0xffff) by (nonlinear_arith)
            requires
                0 <= a <= 0x7fff_ffff_ffff_ffff,
                0 <= permille <= 0xffff,
        ;
        let wide: u128 = (a as u128) * (permille as u128) / 1000;
        if wide > i64::MAX as u128 {
            i64::MAX
        } else {
            wide as i64
        }
    } else {
        let size: u128 = (-(a as i128)) as u128;
        assert(size * permille <= 0x8000_0000_0000_0000 * 0xffff) by (nonlinear_arith)
            requires
                0 <= size <= 0x8000_0000_0000_0000,
                0 <= permille <= 0xffff,
        ;
        let wide: u128 = size * (permille as u128) / 1000;
        if wide > 9223372036854775808u128 {
            i64::MIN
        } else if wide == 9223372036854775808u128 {
            i64::MIN
        } else {
            -(wide as i64)
        }
    }
}

} // verus!
