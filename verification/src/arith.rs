//! Number algebra of the update pipeline: applying an operation, the
//! away-from-zero division rule, clamping, and the clear condition.

use vstd::prelude::*;

use vstd::arithmetic::div_mod::{
    lemma_fundamental_div_mod, lemma_fundamental_div_mod_converse,
    lemma_mod_division_less_than_divisor, lemma_mod_multiples_vanish,
};

use crate::block::{number_in_range, Operation, MAX_NUMBER, MIN_NUMBER};

verus! {

/// Mathematical floor of `a / d`.
pub open spec fn div_floor(a: int, d: int) -> int
    recommends
        d != 0,
{
    if d > 0 {
        a / d
    } else {
        (-a) / (-d)
    }
}

/// Mathematical ceiling of `a / d`.
pub open spec fn div_ceil(a: int, d: int) -> int
    recommends
        d != 0,
{
    -div_floor(-a, d)
}

/// Division as the pipeline defines it: the quotient rounds toward the
/// value that moves the result away from zero — ceiling for a positive
/// dividend, floor for a negative one — and a zero dividend gives exactly
/// zero.
pub open spec fn div_away_spec(a: int, d: int) -> int
    recommends
        d != 0,
{
    if a > 0 {
        div_ceil(a, d)
    } else if a < 0 {
        div_floor(a, d)
    } else {
        0
    }
}

/// For positive `sa` and `sd`: `(sa + sd - 1) / sd` rounds the magnitude
/// quotient up, and the Euclidean quotient of `-sa` by `sd` is its
/// negation.
proof fn lemma_div_round_up(sa: int, sd: int)
    requires
        sa >= 1,
        sd >= 1,
    ensures
        (sa + sd - 1) / sd == if sa % sd == 0 {
            sa / sd
        } else {
            sa / sd + 1
        },
        (-sa) / sd == -((sa + sd - 1) / sd),
{
    let q = sa / sd;
    let r = sa % sd;
    lemma_fundamental_div_mod(sa, sd);
    lemma_mod_division_less_than_divisor(sa, sd);
    if r == 0 {
        assert(sa + sd - 1 == q * sd + (sd - 1)) by (nonlinear_arith)
            requires
                sa == sd * q + r,
                r == 0,
        ;
        lemma_fundamental_div_mod_converse(sa + sd - 1, sd, q, sd - 1);
        assert(-sa == (-q) * sd + 0) by (nonlinear_arith)
            requires
                sa == sd * q + r,
                r == 0,
        ;
        lemma_fundamental_div_mod_converse(-sa, sd, -q, 0);
    } else {
        assert(sa + sd - 1 == (q + 1) * sd + (r - 1)) by (nonlinear_arith)
            requires
                sa == sd * q + r,
        ;
        lemma_fundamental_div_mod_converse(sa + sd - 1, sd, q + 1, r - 1);
        assert(-sa == (-q - 1) * sd + (sd - r)) by (nonlinear_arith)
            requires
                sa == sd * q + r,
        ;
        lemma_fundamental_div_mod_converse(-sa, sd, -q - 1, sd - r);
    }
}

/// Runtime away-from-zero division on clamped numbers.
pub fn div_away(a: i32, d: i32) -> (r: i32)
    requires
        number_in_range(a as int),
        number_in_range(d as int),
        d != 0,
    ensures
        r == div_away_spec(a as int, d as int),
{
    if a == 0 {
        return 0;
    }
    let sa: u32 = if a < 0 {
        (-a) as u32
    } else {
        a as u32
    };
    let sd: u32 = if d < 0 {
        (-d) as u32
    } else {
        d as u32
    };
    let mag: u32 = if d > 0 {
        (sa + sd - 1) / sd
    } else {
        sa / sd
    };
    proof {
        if d > 0 {
            lemma_div_round_up(sa as int, sd as int);
        }
    }
    let m = mag as i32;
    if (a > 0) == (d > 0) {
        m
    } else {
        -m
    }
}

/// The clamp applied to every arithmetic result before it is stored.
pub open spec fn clamp_spec(v: int) -> int {
    if v > MAX_NUMBER {
        MAX_NUMBER as int
    } else if v < MIN_NUMBER {
        MIN_NUMBER as int
    } else {
        v
    }
}

/// Clamps a raw arithmetic result into the display range.
pub fn clamp_number(v: i32) -> (r: i32)
    ensures
        r == clamp_spec(v as int),
        number_in_range(r as int),
{
    if v > MAX_NUMBER {
        MAX_NUMBER
    } else if v < MIN_NUMBER {
        MIN_NUMBER
    } else {
        v
    }
}

/// The plain arithmetic result of an operation, before clamping.
pub open spec fn raw_result(op: Operation, current: int, operand: int) -> int
    recommends
        op is DIVIDE ==> operand != 0,
{
    match op {
        Operation::ADD => current + operand,
        Operation::SUBTRACT => current - operand,
        Operation::MULTIPLY => current * operand,
        Operation::DIVIDE => div_away_spec(current, operand),
    }
}

/// The number stored after an update: the raw result, clamped.
pub open spec fn update_result(op: Operation, current: int, operand: int) -> int
    recommends
        op is DIVIDE ==> operand != 0,
{
    clamp_spec(raw_result(op, current, operand))
}

/// The clear condition on a stored (post-clamp) number: any multiple of
/// ten. Zero counts as a multiple of ten, so a block driven to exactly
/// zero clears as well.
pub open spec fn clears(v: int) -> bool {
    v % 10 == 0
}

/// Applies an operation to a block's current number and clamps the
/// result. Division never runs with a zero operand; producers of update
/// instructions guarantee that.
pub fn apply_operation(op: Operation, current: i32, operand: i32) -> (r: i32)
    requires
        number_in_range(current as int),
        number_in_range(operand as int),
        op is DIVIDE ==> operand != 0,
    ensures
        r == update_result(op, current as int, operand as int),
        number_in_range(r as int),
{
    let raw: i32 = match op {
        Operation::ADD => current + operand,
        Operation::SUBTRACT => current - operand,
        Operation::MULTIPLY => {
            proof {
                assert(-9801 <= current as int * operand as int <= 9801) by (nonlinear_arith)
                    requires
                        -99 <= current as int <= 99,
                        -99 <= operand as int <= 99,
                ;
            }
            current * operand
        },
        Operation::DIVIDE => div_away(current, operand),
    };
    clamp_number(raw)
}

/// Runtime check of the clear condition.
pub fn is_clear_value(v: i32) -> (r: bool)
    requires
        number_in_range(v as int),
    ensures
        r == clears(v as int),
{
    let shifted: u32 = (v + 100) as u32;
    proof {
        lemma_mod_multiples_vanish(10, v as int, 10);
    }
    shifted % 10 == 0
}

} // verus!
