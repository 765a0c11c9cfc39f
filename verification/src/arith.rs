//! Arithmetic in 32 bits.
//!
//! Sums, differences and products wrap around in two's complement. Division
//! truncates toward zero, and the one quotient that is no `i32`,
//! `i32::MIN / -1`, wraps around as well.

use vstd::arithmetic::div_mod::{
    lemma_add_mod_noop, lemma_div_basics, lemma_div_decreases, lemma_div_nonincreasing,
    lemma_div_pos_is_pos, lemma_fundamental_div_mod, lemma_mod_bound,
    lemma_mod_multiples_vanish, lemma_mul_mod_noop_general, lemma_small_mod, lemma_sub_mod_noop,
};
use vstd::prelude::*;

verus! {

/// The two's-complement reduction of an integer to 32 bits: the one value of
/// `i32` that differs from `x` by a multiple of 2^32.
pub open spec fn wrap(x: int) -> i32 {
    let r = x % 0x1_0000_0000;
    if r > i32::MAX {
        (r - 0x1_0000_0000) as i32
    } else {
        r as i32
    }
}

/// A value of `i32` is its own reduction.
pub proof fn lemma_wrap_small(x: int)
    requires
        i32::MIN <= x <= i32::MAX,
    ensures
        wrap(x) == x,
{
    if x >= 0 {
        lemma_small_mod(x as nat, 0x1_0000_0000);
    } else {
        lemma_small_mod((x + 0x1_0000_0000) as nat, 0x1_0000_0000);
        lemma_mod_multiples_vanish(1, x, 0x1_0000_0000);
    }
}

/// The reduction of `x` differs from `x` by a multiple of 2^32.
pub proof fn lemma_wrap_congruent(x: int)
    ensures
        (wrap(x) as int) % 0x1_0000_0000 == x % 0x1_0000_0000,
{
    let r = x % 0x1_0000_0000;
    lemma_small_mod(r as nat, 0x1_0000_0000);
    if r > i32::MAX {
        lemma_mod_multiples_vanish(-1, r, 0x1_0000_0000);
    }
}

/// Reducing the operands of a sum first changes nothing.
pub proof fn lemma_wrap_add(a: int, b: int)
    ensures
        wrap(wrap(a) + wrap(b)) == wrap(a + b),
{
    lemma_wrap_congruent(a);
    lemma_wrap_congruent(b);
    lemma_add_mod_noop(wrap(a) as int, wrap(b) as int, 0x1_0000_0000);
    lemma_add_mod_noop(a, b, 0x1_0000_0000);
}

/// Reducing the operands of a difference first changes nothing.
pub proof fn lemma_wrap_sub(a: int, b: int)
    ensures
        wrap(wrap(a) - wrap(b)) == wrap(a - b),
{
    lemma_wrap_congruent(a);
    lemma_wrap_congruent(b);
    lemma_sub_mod_noop(wrap(a) as int, wrap(b) as int, 0x1_0000_0000);
    lemma_sub_mod_noop(a, b, 0x1_0000_0000);
}

/// Reducing the operands of a product first changes nothing.
pub proof fn lemma_wrap_mul(a: int, b: int)
    ensures
        wrap(wrap(a) * wrap(b)) == wrap(a * b),
{
    lemma_wrap_congruent(a);
    lemma_wrap_congruent(b);
    lemma_mul_mod_noop_general(wrap(a) as int, wrap(b) as int, 0x1_0000_0000);
    lemma_mul_mod_noop_general(a, b, 0x1_0000_0000);
}

/// The wrapping operations of `i32` compute the reduction of the exact
/// result.
pub proof fn lemma_wrapping_ops(l: i32, r: i32)
    ensures
        l.wrapping_add(r) == wrap(l + r),
        l.wrapping_sub(r) == wrap(l - r),
        l.wrapping_mul(r) == wrap(l * r),
{
    let sum = l + r;
    if sum > i32::MAX {
        lemma_mod_multiples_vanish(-1, sum, 0x1_0000_0000);
        lemma_wrap_small(sum - 0x1_0000_0000);
    } else if sum < i32::MIN {
        lemma_mod_multiples_vanish(1, sum, 0x1_0000_0000);
        lemma_wrap_small(sum + 0x1_0000_0000);
    } else {
        lemma_wrap_small(sum);
    }
    let diff = l - r;
    if diff > i32::MAX {
        lemma_mod_multiples_vanish(-1, diff, 0x1_0000_0000);
        lemma_wrap_small(diff - 0x1_0000_0000);
    } else if diff < i32::MIN {
        lemma_mod_multiples_vanish(1, diff, 0x1_0000_0000);
        lemma_wrap_small(diff + 0x1_0000_0000);
    } else {
        lemma_wrap_small(diff);
    }
}

/// The size of an integer.
pub open spec fn magnitude(x: int) -> int {
    if x < 0 {
        -x
    } else {
        x
    }
}

/// The quotient of `a` by `b` rounded toward zero, for `b != 0`.
pub open spec fn trunc_div(a: int, b: int) -> int {
    let q = magnitude(a) / magnitude(b);
    if (a < 0) != (b < 0) {
        -q
    } else {
        q
    }
}

/// Division truncates toward zero: the quotient leaves a remainder that is
/// smaller in size than the divisor and has the sign of the dividend.
pub proof fn lemma_trunc_div_toward_zero(a: int, b: int)
    requires
        b != 0,
    ensures
        magnitude(a - b * trunc_div(a, b)) < magnitude(b),
        a >= 0 ==> a - b * trunc_div(a, b) >= 0,
        a <= 0 ==> a - b * trunc_div(a, b) <= 0,
{
    let x = magnitude(a);
    let d = magnitude(b);
    let q = x / d;
    lemma_fundamental_div_mod(x, d);
    lemma_mod_bound(x, d);
    assert(b * (-q) == -(b * q)) by (nonlinear_arith);
    assert((-b) * q == -(b * q)) by (nonlinear_arith);
}

/// A quotient is no larger in size than the dividend.
pub proof fn lemma_trunc_div_bound(a: int, b: int)
    requires
        b != 0,
    ensures
        magnitude(trunc_div(a, b)) <= magnitude(a),
{
    lemma_div_pos_is_pos(magnitude(a), magnitude(b));
    lemma_div_nonincreasing(magnitude(a), magnitude(b));
}

/// `checked_div` of `i32` computes the quotient rounded toward zero, and
/// gives none for the one quotient that is no `i32`.
pub proof fn lemma_checked_div(l: i32, r: i32)
    requires
        r != 0,
    ensures
        l.checked_div(r) == if l == i32::MIN && r == -1 {
            None
        } else {
            Some(trunc_div(l as int, r as int) as i32)
        },
        !(l == i32::MIN && r == -1) ==> i32::MIN <= trunc_div(l as int, r as int) <= i32::MAX,
        l == i32::MIN && r == -1 ==> wrap(trunc_div(l as int, r as int)) == i32::MIN,
{
    lemma_trunc_div_bound(l as int, r as int);
    lemma_div_pos_is_pos(magnitude(l as int), magnitude(r as int));
    if l == 0 {
        lemma_div_basics(magnitude(r as int));
    }
    if r == -1 || r == 1 {
        lemma_div_basics(magnitude(l as int));
    } else if l == i32::MIN {
        lemma_div_decreases(magnitude(l as int), magnitude(r as int));
    }
    if l == i32::MIN && r == -1 {
        lemma_mod_multiples_vanish(-1, 0x8000_0000, 0x1_0000_0000);
        lemma_wrap_small(i32::MIN as int);
    }
}

} // verus!
