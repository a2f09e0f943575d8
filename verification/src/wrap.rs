//! Two's-complement wrapping of mathematical integers into `i32`, and the
//! truncated division the evaluator uses.
//!
//! The calculator computes on the host integer type: `+`, `-` and `*` are
//! total modulo its width, as [`wrap_to_i32`] says.  The lemmas here connect
//! that mathematical statement to the wrapping operations of std.

use vstd::arithmetic::div_mod::{
    lemma_add_mod_noop, lemma_div_nonincreasing, lemma_mod_add_multiples_vanish, lemma_small_mod,
};
use vstd::prelude::*;

verus! {

/// The value of the `i32` whose two's-complement bits encode `v` modulo
/// `2^32`.  Agrees with `v` whenever `v` is in range.
pub open spec fn wrap_to_i32(v: int) -> i32 {
    if v % 0x1_0000_0000 >= 0x8000_0000 {
        (v % 0x1_0000_0000 - 0x1_0000_0000) as i32
    } else {
        (v % 0x1_0000_0000) as i32
    }
}

/// The magnitude of `v`.
pub open spec fn abs_int(v: int) -> int {
    if v < 0 {
        -v
    } else {
        v
    }
}

/// Division truncated toward zero, as the host `/` behaves on integers.
/// Meaningful only for `b != 0`.
pub open spec fn divide_trunc(a: int, b: int) -> int {
    let q = abs_int(a) / abs_int(b);
    if (a < 0) == (b < 0) {
        q
    } else {
        -q
    }
}

/// Wrapping agrees with the identity on values that fit in `i32`.
pub proof fn lemma_wrap_in_range(v: int)
    requires
        -0x8000_0000 <= v < 0x8000_0000,
    ensures
        wrap_to_i32(v) == v as i32,
        wrap_to_i32(v) as int == v,
{
    if v >= 0 {
        lemma_small_mod(v as nat, 0x1_0000_0000);
    } else {
        lemma_mod_add_multiples_vanish(v, 0x1_0000_0000);
        lemma_small_mod((v + 0x1_0000_0000) as nat, 0x1_0000_0000);
    }
}

/// Wrapping of any value one width above the range.
proof fn lemma_wrap_above(v: int)
    requires
        0x8000_0000 <= v < 0x1_8000_0000,
    ensures
        wrap_to_i32(v) as int == v - 0x1_0000_0000,
{
    if v < 0x1_0000_0000 {
        lemma_small_mod(v as nat, 0x1_0000_0000);
    } else {
        lemma_mod_add_multiples_vanish(v - 0x1_0000_0000, 0x1_0000_0000);
        lemma_small_mod((v - 0x1_0000_0000) as nat, 0x1_0000_0000);
    }
}

/// Wrapping of any value one width below the range.
proof fn lemma_wrap_below(v: int)
    requires
        -0x1_0000_0000 <= v < -0x8000_0000,
    ensures
        wrap_to_i32(v) as int == v + 0x1_0000_0000,
{
    lemma_mod_add_multiples_vanish(v, 0x1_0000_0000);
    lemma_small_mod((v + 0x1_0000_0000) as nat, 0x1_0000_0000);
}

/// The sum of two `i32` values, wrapped.
pub fn add_wrapping(a: i32, b: i32) -> (r: i32)
    ensures
        r == wrap_to_i32(a as int + b as int),
{
    proof {
        let s = a as int + b as int;
        if s < -0x8000_0000 {
            lemma_wrap_below(s);
        } else if s < 0x8000_0000 {
            lemma_wrap_in_range(s);
        } else {
            lemma_wrap_above(s);
        }
    }
    a.wrapping_add(b)
}

/// The difference of two `i32` values, wrapped.
pub fn sub_wrapping(a: i32, b: i32) -> (r: i32)
    ensures
        r == wrap_to_i32(a as int - b as int),
{
    proof {
        let s = a as int - b as int;
        if s < -0x8000_0000 {
            lemma_wrap_below(s);
        } else if s < 0x8000_0000 {
            lemma_wrap_in_range(s);
        } else {
            lemma_wrap_above(s);
        }
    }
    a.wrapping_sub(b)
}

/// The product of two `i32` values, wrapped.
pub fn mul_wrapping(a: i32, b: i32) -> (r: i32)
    ensures
        r == wrap_to_i32(a as int * b as int),
{
    a.wrapping_mul(b)
}

/// The quotient of two `i32` values, truncated toward zero and wrapped.
/// Wrapping matters only for `i32::MIN / -1`, whose true quotient is one
/// above `i32::MAX`.
pub fn div_wrapping(a: i32, b: i32) -> (r: i32)
    requires
        b != 0,
    ensures
        r == wrap_to_i32(divide_trunc(a as int, b as int)),
{
    let ua: u32 = magnitude(a);
    let ub: u32 = magnitude(b);
    let q: u32 = ua / ub;
    proof {
        lemma_div_nonincreasing(ua as int, ub as int);
    }
    let negative = (a < 0) != (b < 0);
    proof {
        if q < 0x8000_0000 {
            if negative {
                lemma_wrap_in_range(-(q as int));
            } else {
                lemma_wrap_in_range(q as int);
            }
        } else {
            if negative {
                lemma_wrap_in_range(-0x8000_0000);
            } else {
                lemma_wrap_above(q as int);
            }
        }
    }
    if negative {
        if q >= 0x8000_0000 {
            i32::MIN
        } else {
            -(q as i32)
        }
    } else {
        if q >= 0x8000_0000 {
            i32::MIN
        } else {
            q as i32
        }
    }
}

/// The magnitude of an `i32`, which always fits in `u32`.
fn magnitude(a: i32) -> (r: u32)
    ensures
        r as int == abs_int(a as int),
{
    if a == i32::MIN {
        0x8000_0000u32
    } else if a < 0 {
        (-a) as u32
    } else {
        a as u32
    }
}

} // verus!
