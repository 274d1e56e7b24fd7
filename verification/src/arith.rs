//! Arithmetic of size and tag expressions on 128-bit signed integers.

use vstd::arithmetic::power::{lemma0_pow, lemma1_pow, pow};
use vstd::arithmetic::power2::{lemma2_to64, lemma_pow2_adds, lemma_pow2_unfold, pow2};
use vstd::prelude::*;

use crate::errors::{unsupported, Failure, Halt, Outcome, outcome};

verus! {

/// An operator on two values.
#[derive(Debug, Clone, Copy, PartialEq, Eq, Structural)]
pub enum BinaryOp {
    Add,
    Sub,
    Mul,
    Div,
    Mod,
    BitAnd,
    BitOr,
    BitXor,
    LeftShift,
    RightShift,
}

/// A comparison of two values.
#[derive(Debug, Clone, Copy, PartialEq, Eq, Structural)]
pub enum CompareOp {
    Eq,
    Ne,
    Lt,
    Gt,
    Le,
    Ge,
}

/// A connective of two truth values, where zero is false and every other value is true.
#[derive(Debug, Clone, Copy, PartialEq, Eq, Structural)]
pub enum LogicalOp {
    And,
    Or,
    Xor,
}

/// `x` as an outcome: undefined where it does not fit 128 bits.
pub open spec fn representable(x: int) -> Outcome<i128> {
    if i128::MIN <= x <= i128::MAX {
        Outcome::Done(x as i128)
    } else {
        Outcome::Undefined
    }
}

/// `x` without its sign.
pub open spec fn magnitude(x: int) -> int {
    if x < 0 {
        -x
    } else {
        x
    }
}

/// The quotient of `l` by `r`, rounded towards zero.
pub open spec fn quotient(l: int, r: int) -> int {
    if (l < 0) == (r < 0) {
        magnitude(l) / magnitude(r)
    } else {
        -(magnitude(l) / magnitude(r))
    }
}

/// What is left of `l` when `r` is taken from it `quotient(l, r)` times; it has the sign of `l`.
pub open spec fn remainder(l: int, r: int) -> int {
    if l < 0 {
        -(magnitude(l) % magnitude(r))
    } else {
        magnitude(l) % magnitude(r)
    }
}

/// The failure of an expression, for the given reason.
pub open spec fn rejected(typename: Seq<char>, reason: Seq<char>) -> Outcome<i128> {
    Outcome::Failed(
        Failure::Unsupported { typename, parameter: "expression"@, reason },
    )
}

/// What `op` gives for `l` and `r`.
pub open spec fn combined(typename: Seq<char>, op: BinaryOp, l: i128, r: i128) -> Outcome<i128> {
    match op {
        BinaryOp::Add => representable(l + r),
        BinaryOp::Sub => representable(l - r),
        BinaryOp::Mul => representable(l * r),
        BinaryOp::Div => if r == 0 {
            rejected(typename, "division by zero"@)
        } else {
            representable(quotient(l as int, r as int))
        },
        BinaryOp::Mod => if r == 0 {
            rejected(typename, "modulo by zero"@)
        } else if l == i128::MIN && r == -1 {
            Outcome::Undefined
        } else {
            representable(remainder(l as int, r as int))
        },
        BinaryOp::BitAnd => Outcome::Done(l & r),
        BinaryOp::BitOr => Outcome::Done(l | r),
        BinaryOp::BitXor => Outcome::Done(l ^ r),
        BinaryOp::LeftShift => if r < 0 {
            rejected(typename, "negative shift"@)
        } else if r >= 128 {
            Outcome::Undefined
        } else {
            Outcome::Done(l << r)
        },
        BinaryOp::RightShift => if r < 0 {
            rejected(typename, "negative shift"@)
        } else if r >= 128 {
            Outcome::Undefined
        } else {
            Outcome::Done(l >> r)
        },
    }
}

/// Whether the comparison `op` holds of `l` and `r`.
pub open spec fn compares(op: CompareOp, l: i128, r: i128) -> bool {
    match op {
        CompareOp::Eq => l == r,
        CompareOp::Ne => l != r,
        CompareOp::Lt => l < r,
        CompareOp::Gt => l > r,
        CompareOp::Le => l <= r,
        CompareOp::Ge => l >= r,
    }
}

/// Whether the connective `op` holds of `l` and `r`.
pub open spec fn connects(op: LogicalOp, l: i128, r: i128) -> bool {
    match op {
        LogicalOp::And => l != 0 && r != 0,
        LogicalOp::Or => l != 0 || r != 0,
        LogicalOp::Xor => (l != 0) != (r != 0),
    }
}

/// A truth value as a number.
pub open spec fn truth(holds: bool) -> i128 {
    if holds {
        1
    } else {
        0
    }
}

/// `l` to the power of `r`. Of the exponent only the low 32 bits count.
pub open spec fn powered(typename: Seq<char>, l: i128, r: i128) -> Outcome<i128> {
    if r < 0 {
        Outcome::Failed(
            Failure::Unsupported {
                typename,
                parameter: "pow"@,
                reason: "negative exponent unsupported"@,
            },
        )
    } else {
        representable(pow(l as int, (r as u32) as nat))
    }
}

/// How many bits of `x` are set.
pub open spec fn ones(x: nat) -> nat
    decreases x,
{
    if x == 0 {
        0
    } else {
        x % 2 + ones(x / 2)
    }
}

fn from_checked(value: Option<i128>) -> (result: Result<i128, Halt>)
    ensures
        outcome(result) == (match value {
            Some(v) => Outcome::Done(v),
            None => Outcome::Undefined,
        }),
{
    match value {
        Some(v) => Ok(v),
        None => Err(Halt::Undefined),
    }
}

fn reject(typename: &str, reason: &str) -> (result: Result<i128, Halt>)
    ensures
        outcome(result) == rejected(typename@, reason@),
{
    Err(Halt::Error(unsupported(typename, "expression", reason)))
}

/// Applies `op` to two values.
pub fn combine(typename: &str, op: BinaryOp, l: i128, r: i128) -> (result: Result<i128, Halt>)
    ensures
        outcome(result) == combined(typename@, op, l, r),
{
    match op {
        BinaryOp::Add => from_checked(l.checked_add(r)),
        BinaryOp::Sub => from_checked(l.checked_sub(r)),
        BinaryOp::Mul => from_checked(l.checked_mul(r)),
        BinaryOp::Div => {
            if r == 0 {
                reject(typename, "division by zero")
            } else {
                proof {
                    lemma_zero_quotient(r as int);
                }
                from_checked(l.checked_div(r))
            }
        },
        BinaryOp::Mod => {
            if r == 0 {
                reject(typename, "modulo by zero")
            } else {
                proof {
                    lemma_zero_quotient(r as int);
                }
                from_checked(l.checked_rem(r))
            }
        },
        BinaryOp::BitAnd => Ok(l & r),
        BinaryOp::BitOr => Ok(l | r),
        BinaryOp::BitXor => Ok(l ^ r),
        BinaryOp::LeftShift => {
            if r < 0 {
                reject(typename, "negative shift")
            } else if r >= 128 {
                Err(Halt::Undefined)
            } else {
                Ok(l << r)
            }
        },
        BinaryOp::RightShift => {
            if r < 0 {
                reject(typename, "negative shift")
            } else if r >= 128 {
                Err(Halt::Undefined)
            } else {
                Ok(l >> r)
            }
        },
    }
}

/// Nothing divided by anything leaves nothing.
proof fn lemma_zero_quotient(r: int)
    requires
        r != 0,
    ensures
        quotient(0, r) == 0,
        remainder(0, r) == 0,
{
    let m = magnitude(r);
    assert(0int / m == 0 && 0int % m == 0) by (nonlinear_arith)
        requires
            m > 0,
    ;
}

/// Each further factor at least doubles the magnitude of a power.
proof fn lemma_power_doubles(b: int, e: nat, n: nat)
    requires
        magnitude(b) >= 2,
        e < n,
    ensures
        magnitude(pow(b, n)) >= 2 * magnitude(pow(b, e)),
    decreases n,
{
    reveal(pow);
    let less = (n - 1) as nat;
    let p = pow(b, less);
    assert(pow(b, n) == b * p);
    assert(magnitude(b * p) >= 2 * magnitude(p)) by (nonlinear_arith)
        requires
            magnitude(b) >= 2,
    ;
    if e < less {
        lemma_power_doubles(b, e, less);
    }
}

/// The powers of minus one.
proof fn lemma_minus_one_power(e: nat)
    ensures
        pow(-1, e) == (if e % 2 == 0 {
            1int
        } else {
            -1int
        }),
    decreases e,
{
    reveal(pow);
    if e > 0 {
        lemma_minus_one_power((e - 1) as nat);
    }
}

/// Raises `l` to the power `exponent`; `None` where the result does not fit 128 bits.
pub fn power(l: i128, exponent: u32) -> (result: Option<i128>)
    ensures
        representable(pow(l as int, exponent as nat)) == (match result {
            Some(value) => Outcome::Done(value),
            None => Outcome::Undefined,
        }),
{
    if exponent == 0 {
        proof {
            reveal(pow);
        }
        return Some(1);
    }
    if l == 0 || l == 1 {
        proof {
            lemma0_pow(exponent as nat);
            lemma1_pow(exponent as nat);
        }
        return Some(l);
    }
    if l == -1 {
        proof {
            lemma_minus_one_power(exponent as nat);
        }
        return Some(if exponent % 2 == 0 { 1 } else { -1 });
    }
    let mut value: i128 = 1;
    let mut i: u32 = 0;
    proof {
        reveal(pow);
    }
    while i < exponent
        invariant
            i <= exponent,
            magnitude(l as int) >= 2,
            value == pow(l as int, i as nat),
        decreases exponent - i,
    {
        proof {
            reveal(pow);
            assert(pow(l as int, (i + 1) as nat) == l * value);
            assert(l * value == value * l) by (nonlinear_arith);
        }
        match value.checked_mul(l) {
            Some(next) => {
                value = next;
            },
            None => {
                proof {
                    if i + 1 < exponent {
                        lemma_power_doubles(l as int, (i + 1) as nat, exponent as nat);
                    }
                }
                return None;
            },
        }
        i = i + 1;
    }
    Some(value)
}

/// Raises `l` to the power of the low 32 bits of `r`.
pub fn raise(typename: &str, l: i128, r: i128) -> (result: Result<i128, Halt>)
    ensures
        outcome(result) == powered(typename@, l, r),
{
    if r < 0 {
        Err(Halt::Error(unsupported(typename, "pow", "negative exponent unsupported")))
    } else {
        let exponent: u32 = #[verifier::truncate]
        (r as u32);
        from_checked(power(l, exponent))
    }
}

/// Counts the bits of `x` that are set.
pub fn count_set_bits(x: u128) -> (count: u32)
    ensures
        count == ones(x as nat),
        count <= 128,
{
    let mut rest: u128 = x;
    let mut count: u32 = 0;
    let mut steps: u32 = 0;
    proof {
        lemma2_to64();
        lemma_pow2_adds(64, 64);
    }
    while rest > 0
        invariant
            count + ones(rest as nat) == ones(x as nat),
            count <= steps <= 128,
            rest < pow2((128 - steps) as nat),
        decreases rest,
    {
        proof {
            if steps == 128 {
                lemma2_to64();
            }
            lemma_pow2_unfold((128 - steps) as nat);
        }
        if rest % 2 == 1 {
            count = count + 1;
        }
        rest = rest / 2;
        steps = steps + 1;
    }
    count
}

/// Division and remainder belong together: the quotient times the divisor and the remainder make up
/// the dividend, and the remainder is smaller than the divisor and has no other sign than the
/// dividend.
pub proof fn division_is_exact(l: int, r: int)
    requires
        r != 0,
    ensures
        l == r * quotient(l, r) + remainder(l, r),
        magnitude(remainder(l, r)) < magnitude(r),
        l >= 0 ==> remainder(l, r) >= 0,
        l <= 0 ==> remainder(l, r) <= 0,
{
    let a = magnitude(l);
    let b = magnitude(r);
    let q = a / b;
    let m = a % b;
    assert(a == b * q + m && 0 <= m < b && (a == 0 ==> m == 0)) by (nonlinear_arith)
        requires
            a >= 0,
            b > 0,
            q == a / b,
            m == a % b,
    ;
    assert((-b) * q == -(b * q) && b * (-q) == -(b * q) && (-b) * (-q) == b * q)
        by (nonlinear_arith);
}

} // verus!
