//! # Math
//!
//! The arithmetic of the `let` statement, on `isize` operands. Operations that overflow
//! wrap around (two's complement), as the operators of a release build do; the shift
//! amount is taken modulo the width of `isize`. Division and remainder truncate toward
//! zero; `isize::MIN / -1` wraps to `isize::MIN`, and its remainder is 0.

use crate::text::{parse_isize, signed_text_value};
use crate::{MathError, MathOperator};
use vstd::prelude::*;
use vstd::wrapping::isize_specs::{signed_crop, wrapping_add, wrapping_mul, wrapping_shl, wrapping_shr, wrapping_sub};

verus! {

/// The quotient of `a` by `b`, truncated toward zero.
pub open spec fn trunc_div(a: int, b: int) -> int {
    let q = (if a < 0 { -a } else { a }) / (if b < 0 { -b } else { b });
    if (a < 0) != (b < 0) {
        -q
    } else {
        q
    }
}

/// `a` raised to the power `e`, wrapping around at every multiplication.
pub open spec fn wrapped_pow(a: isize, e: nat) -> isize
    decreases e,
{
    if e == 0 {
        1
    } else {
        wrapping_mul(wrapped_pow(a, (e - 1) as nat), a)
    }
}

/// The value of `a op b`, or the error it raises.
pub open spec fn math_value(a: isize, op: MathOperator, b: isize) -> Result<isize, MathError> {
    match op {
        MathOperator::And => Ok(a & b),
        MathOperator::Divide => if b == 0 {
            Err(MathError::DividedByZero)
        } else {
            Ok(signed_crop(trunc_div(a as int, b as int)))
        },
        MathOperator::Equal => Ok(if a == b { 1isize } else { 0isize }),
        MathOperator::Module => if b == 0 {
            Err(MathError::DividedByZero)
        } else {
            Ok(signed_crop(a - b * trunc_div(a as int, b as int)))
        },
        MathOperator::Multiply => Ok(wrapping_mul(a, b)),
        MathOperator::NotEqual => Ok(if a != b { 1isize } else { 0isize }),
        MathOperator::Or => Ok(a | b),
        MathOperator::Power => if b < 0 {
            Err(MathError::NegativePower)
        } else {
            Ok(wrapped_pow(a, (b as u32) as nat))
        },
        MathOperator::ShiftLeft => Ok(wrapping_shl(a, b as u32)),
        MathOperator::ShiftRight => Ok(wrapping_shr(a, b as u32)),
        MathOperator::Subtract => Ok(wrapping_sub(a, b)),
        MathOperator::Sum => Ok(wrapping_add(a, b)),
        MathOperator::Xor => Ok(a ^ b),
    }
}

/// The number a text denotes as a `let` operand: its decimal value when it is an `isize`,
/// 0 otherwise.
pub open spec fn operand_value(s: Seq<char>) -> isize {
    match signed_text_value(s) {
        Some(v) => if isize::MIN <= v <= isize::MAX { v as isize } else { 0 },
        None => 0,
    }
}

/// Cropping a value that fits in `isize` leaves it unchanged; cropping `isize::MAX + 1`
/// gives `isize::MIN`.
proof fn lemma_crop(x: int)
    requires
        isize::MIN <= x <= isize::MAX + 1,
    ensures
        x <= isize::MAX ==> signed_crop(x) == x,
        x == isize::MAX + 1 ==> signed_crop(x) == isize::MIN,
{
    let m = (usize::MAX - usize::MIN + 1) as int;
    assert(m == 2 * (isize::MAX as int) + 2 && isize::MIN == -(isize::MAX as int) - 1);
    if x >= 0 {
        vstd::arithmetic::div_mod::lemma_small_mod(x as nat, m as nat);
    } else {
        vstd::arithmetic::div_mod::lemma_fundamental_div_mod_converse(x, m, -1, x + m);
    }
}

proof fn lemma_pow_zero(a: isize, i: nat, e: nat)
    requires
        i <= e,
        wrapped_pow(a, i) == 0,
    ensures
        wrapped_pow(a, e) == 0,
    decreases e - i,
{
    if i < e {
        lemma_pow_zero(a, i, (e - 1) as nat);
        assert(signed_crop(0) == 0);
    }
}

/// `a` raised to the power `e`, wrapping around.
fn power(a: isize, e: u32) -> (r: isize)
    ensures
        r == wrapped_pow(a, e as nat),
{
    let mut acc: isize = 1;
    let mut i: u32 = 0;
    while i < e
        invariant
            i <= e,
            acc == wrapped_pow(a, i as nat),
        decreases e - i,
    {
        if acc == 0 {
            proof { lemma_pow_zero(a, i as nat, e as nat); }
            return 0;
        }
        acc = acc.wrapping_mul(a);
        i = i + 1;
    }
    acc
}

/// The truncated quotient and remainder of `a` by a non-zero `b`, wrapping around.
fn div_rem(a: isize, b: isize) -> (r: (isize, isize))
    requires
        b != 0,
    ensures
        r.0 == signed_crop(trunc_div(a as int, b as int)),
        r.1 == signed_crop(a - b * trunc_div(a as int, b as int)),
{
    let ma: u128 = if a < 0 { (0i128 - (a as i128)) as u128 } else { a as u128 };
    let mb: u128 = if b < 0 { (0i128 - (b as i128)) as u128 } else { b as u128 };
    let q: u128 = ma / mb;
    let ghost tq = trunc_div(a as int, b as int);
    assert(q as int == (if a < 0 { -(a as int) } else { a as int }) / (if b < 0 { -(b as int) } else { b as int }));
    let neg = (a < 0) != (b < 0);
    assert(q as int <= ma as int) by (nonlinear_arith)
        requires
            mb >= 1,
            q as int == ma as int / mb as int,
    ;
    let sq: i128 = if neg { 0i128 - (q as i128) } else { q as i128 };
    assert(sq == tq);
    assert(-0x8000_0000_0000_0000int <= sq <= 0x8000_0000_0000_0000int);
    assert(-0x4000_0000_0000_0000_0000_0000_0000_0000int <= (b as int) * (sq as int) <= 0x4000_0000_0000_0000_0000_0000_0000_0000int) by (nonlinear_arith)
        requires
            -0x8000_0000_0000_0000int <= sq <= 0x8000_0000_0000_0000int,
            -0x8000_0000_0000_0000int <= b <= 0x8000_0000_0000_0000int,
    ;
    let rem: i128 = (a as i128) - (b as i128) * sq;
    assert(rem == a - b * tq);
    assert(-(mb as int) < rem < mb as int) by (nonlinear_arith)
        requires
            mb >= 1,
            q as int == ma as int / mb as int,
            ma as int == (if a < 0 { -(a as int) } else { a as int }),
            mb as int == (if b < 0 { -(b as int) } else { b as int }),
            sq == (if (a < 0) != (b < 0) { -(q as int) } else { q as int }),
            rem == a - b * sq,
    {
        assert(ma as int == mb * q + (ma as int) % (mb as int));
    }
    let quotient: isize = if sq > isize::MAX as i128 { isize::MIN } else { sq as isize };
    proof {
        assert(sq <= isize::MAX + 1) by {
            if !neg {
                assert(q as int <= ma as int);
            }
        }
        assert(sq >= isize::MIN) by {
            if neg {
                if a < 0 {
                    assert(mb >= 1);
                    assert(q as int <= ma as int);
                } else {
                    assert(q as int <= ma as int);
                }
            }
        }
        lemma_crop(sq as int);
        lemma_crop(rem as int);
    }
    (quotient, rem as isize)
}

/// The arithmetic of `let` on all operands. A sum, a difference and a product are the
/// exact ones whenever those fit in an `isize`; a sum and a difference that do not fit
/// differ from the exact one by the size of the `isize` range (they wrap around). Dividing
/// by zero fails, and otherwise a quotient and a remainder put back together give the
/// dividend again, the remainder being smaller than the divisor and of the dividend's sign.
/// A comparison gives 1 exactly when it holds, and 0 otherwise; a negative power fails.
pub proof fn law_let_arithmetic(a: isize, b: isize)
    ensures
        math_value(a, MathOperator::Sum, b) matches Ok(v) && (v == a + b || v == a + b - 2 * (isize::MAX + 1)
            || v == a + b + 2 * (isize::MAX + 1)),
        math_value(a, MathOperator::Subtract, b) matches Ok(v) && (v == a - b || v == a - b - 2 * (isize::MAX + 1)
            || v == a - b + 2 * (isize::MAX + 1)),
        isize::MIN <= a + b <= isize::MAX ==> math_value(a, MathOperator::Sum, b) == Ok::<isize, MathError>((a + b) as isize),
        isize::MIN <= a - b <= isize::MAX ==> math_value(a, MathOperator::Subtract, b) == Ok::<isize, MathError>((a - b) as isize),
        isize::MIN <= a * b <= isize::MAX ==> math_value(a, MathOperator::Multiply, b) == Ok::<isize, MathError>((a * b) as isize),
        b == 0 ==> math_value(a, MathOperator::Divide, b) == Err::<isize, MathError>(MathError::DividedByZero)
            && math_value(a, MathOperator::Module, b) == Err::<isize, MathError>(MathError::DividedByZero),
        b != 0 && !(a == isize::MIN && b == -1) ==> (math_value(a, MathOperator::Divide, b) matches Ok(q)
            && math_value(a, MathOperator::Module, b) matches Ok(m) && q * b + m == a
            && (if m < 0 { -m } else { m as int }) < (if b < 0 { -b } else { b as int }) && (m == 0 || (m < 0) == (a < 0))),
        math_value(a, MathOperator::Equal, b) == Ok::<isize, MathError>(if a == b { 1isize } else { 0isize }),
        math_value(a, MathOperator::NotEqual, b) == Ok::<isize, MathError>(if a != b { 1isize } else { 0isize }),
        b < 0 ==> math_value(a, MathOperator::Power, b) == Err::<isize, MathError>(MathError::NegativePower),
{
    let r = (usize::MAX - usize::MIN + 1) as int;
    assert(r == 2 * (isize::MAX as int) + 2 && isize::MIN == -(isize::MAX as int) - 1);
    if isize::MIN <= a * b <= isize::MAX {
        lemma_crop(a * b);
    }
    if b != 0 && !(a == isize::MIN && b == -1) {
        let q = trunc_div(a as int, b as int);
        let ma: int = if a < 0 { -a } else { a as int };
        let mb: int = if b < 0 { -b } else { b as int };
        let q0 = ma / mb;
        let r0 = ma % mb;
        assert(ma == mb * q0 + r0 && 0 <= r0 < mb) by (nonlinear_arith)
            requires
                mb >= 1,
                ma >= 0,
                q0 == ma / mb,
                r0 == ma % mb,
        ;
        assert(q0 <= ma) by (nonlinear_arith)
            requires
                mb >= 1,
                ma >= 0,
                q0 == ma / mb,
        ;
        let m = a - b * q;
        assert(m == (if a < 0 { -r0 } else { r0 })) by (nonlinear_arith)
            requires
                ma == mb * q0 + r0,
                ma == (if a < 0 { -a } else { a as int }),
                mb == (if b < 0 { -b } else { b as int }),
                q == (if (a < 0) != (b < 0) { -q0 } else { q0 }),
                m == a - b * q,
        ;
        assert(isize::MIN <= q <= isize::MAX) by {
            if (a < 0) != (b < 0) {
                assert(q0 <= ma);
            } else if a < 0 {
                assert(b < 0);
                assert(q0 <= ma);
                if q0 == ma {
                    assert(mb * q0 <= ma) by (nonlinear_arith)
                        requires
                            ma == mb * q0 + r0,
                            r0 >= 0,
                    ;
                    assert(mb * q0 >= 2 * q0 || mb == 1) by (nonlinear_arith)
                        requires
                            mb >= 1,
                            q0 >= 0,
                    ;
                }
            } else {
                assert(q0 <= ma);
            }
        }
        lemma_crop(q);
        lemma_crop(m);
        assert(q * b + m == a) by (nonlinear_arith)
            requires
                m == a - b * q,
        ;
    }
}

/// The bit operations and powers of `let`: a number and-ed or or-ed with itself is itself,
/// and-ed with 0 is 0, or-ed or xor-ed with 0 is itself, xor-ed with itself is 0; a shift by
/// 0 leaves it as it is; its power 0 is 1, and each further power is the previous one times
/// the number (wrapping around).
pub proof fn law_let_bits_and_powers(a: isize, b: isize)
    ensures
        math_value(a, MathOperator::And, a) == Ok::<isize, MathError>(a),
        math_value(a, MathOperator::And, 0) == Ok::<isize, MathError>(0),
        math_value(a, MathOperator::Or, a) == Ok::<isize, MathError>(a),
        math_value(a, MathOperator::Or, 0) == Ok::<isize, MathError>(a),
        math_value(a, MathOperator::Xor, a) == Ok::<isize, MathError>(0),
        math_value(a, MathOperator::Xor, 0) == Ok::<isize, MathError>(a),
        math_value(a, MathOperator::ShiftLeft, 0) == Ok::<isize, MathError>(a),
        math_value(a, MathOperator::ShiftRight, 0) == Ok::<isize, MathError>(a),
        math_value(a, MathOperator::Power, 0) == Ok::<isize, MathError>(1),
        1 <= b <= u32::MAX ==> (math_value(a, MathOperator::Power, b) matches Ok(p)
            && math_value(a, MathOperator::Power, (b - 1) as isize) matches Ok(p1) && p == wrapping_mul(p1, a)),
{
    assert(a & a == a) by (bit_vector);
    assert(a & 0 == 0) by (bit_vector);
    assert(a | a == a) by (bit_vector);
    assert(a | 0 == a) by (bit_vector);
    assert(a ^ a == 0) by (bit_vector);
    assert(a ^ 0 == a) by (bit_vector);
    assert(wrapping_shl(a, 0u32) == a) by {
        assert(a << 0u32 == a) by (bit_vector);
    }
    assert(wrapping_shr(a, 0u32) == a) by {
        assert(a >> 0u32 == a) by (bit_vector);
    }
}

/// The value of `a op b`, or the error it raises.
pub fn math_apply(a: isize, op: MathOperator, b: isize) -> (r: Result<isize, MathError>)
    ensures
        r == math_value(a, op, b),
        op == MathOperator::Sum ==> (r matches Ok(v) && (v == a + b || v == a + b - 2 * (isize::MAX + 1)
            || v == a + b + 2 * (isize::MAX + 1))),
        op == MathOperator::Subtract ==> (r matches Ok(v) && (v == a - b || v == a - b - 2 * (isize::MAX + 1)
            || v == a - b + 2 * (isize::MAX + 1))),
        op == MathOperator::Multiply && isize::MIN <= a * b <= isize::MAX ==> r == Ok::<isize, MathError>((a * b) as isize),
{
    proof {
        law_let_arithmetic(a, b);
    }
    match op {
        MathOperator::And => Ok(a & b),
        MathOperator::Divide => if b == 0 {
            Err(MathError::DividedByZero)
        } else {
            Ok(div_rem(a, b).0)
        },
        MathOperator::Equal => Ok(if a == b { 1isize } else { 0isize }),
        MathOperator::Module => if b == 0 {
            Err(MathError::DividedByZero)
        } else {
            Ok(div_rem(a, b).1)
        },
        MathOperator::Multiply => Ok(a.wrapping_mul(b)),
        MathOperator::NotEqual => Ok(if a != b { 1isize } else { 0isize }),
        MathOperator::Or => Ok(a | b),
        MathOperator::Power => if b < 0 {
            Err(MathError::NegativePower)
        } else {
            Ok(power(a, b as u32))
        },
        MathOperator::ShiftLeft => Ok(a.wrapping_shl(b as u32)),
        MathOperator::ShiftRight => Ok(a.wrapping_shr(b as u32)),
        MathOperator::Subtract => Ok(a.wrapping_sub(b)),
        MathOperator::Sum => Ok(a.wrapping_add(b)),
        MathOperator::Xor => Ok(a ^ b),
    }
}

/// The value of a `let` operand's text (0 when it is not an `isize`).
pub fn operand(s: &String) -> (r: isize)
    ensures
        r == operand_value(s@),
{
    match parse_isize(s.as_str()) {
        Some(v) => v,
        None => 0,
    }
}

/// ### math_compute
///
/// The result of a `let` statement whose operands printed `output1` and `output2`.
pub fn math_compute(output1: &String, operation: MathOperator, output2: &String) -> (r: Result<isize, MathError>)
    ensures
        r == math_value(operand_value(output1@), operation, operand_value(output2@)),
{
    math_apply(operand(output1), operation, operand(output2))
}

} // verus!
