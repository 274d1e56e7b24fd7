//! Bounds of the values of expressions, known from the expressions alone.

use vstd::arithmetic::power::pow;
use vstd::arithmetic::power2::{lemma2_to64, lemma_pow2_adds, lemma_pow2_unfold, pow2};
use vstd::prelude::*;

use crate::arith::{
    combined, division_is_exact, magnitude, ones, powered, quotient, remainder, BinaryOp,
};
use crate::errors::Outcome;
use crate::invariants::in_field_range;
use crate::model::{eval, field_value, literal_value, operands, scoped_value, Env};
use crate::names::{flattened, texts};
use crate::schema::{BinaryExpr, ExprKind, ResolvedType, Size, TypeQueryExpr};

verus! {

/// The least and the greatest value that something can have.
pub struct Bounds {
    pub low: int,
    pub high: int,
}

/// The lesser of two numbers.
pub open spec fn lesser(x: int, y: int) -> int {
    if x < y {
        x
    } else {
        y
    }
}

/// The greater of two numbers.
pub open spec fn greater(x: int, y: int) -> int {
    if x < y {
        y
    } else {
        x
    }
}

/// The bounds `low` and `high`, where 128 bits hold all the values between them.
pub open spec fn fitted(low: int, high: int) -> Option<Bounds> {
    if i128::MIN <= low && high <= i128::MAX {
        Some(Bounds { low, high })
    } else {
        None
    }
}

/// The bounds of a single value.
pub open spec fn exactly(value: int) -> Option<Bounds> {
    Some(Bounds { low: value, high: value })
}

/// The bounds of all 128-bit values.
pub open spec fn anything() -> Option<Bounds> {
    Some(Bounds { low: i128::MIN as int, high: i128::MAX as int })
}

/// The bounds of what a field holds.
pub open spec fn field_bounds() -> Option<Bounds> {
    Some(Bounds { low: i64::MIN as int, high: u64::MAX as int })
}

/// The bounds of a truth value.
pub open spec fn truth_bounds() -> Option<Bounds> {
    Some(Bounds { low: 0, high: 1 })
}

/// The greatest distance from zero of a value within `b`.
pub open spec fn reach(b: Bounds) -> int {
    greater(magnitude(b.low), magnitude(b.high))
}

/// The bounds of the size of a type; a size that is not known is no value at all.
pub open spec fn size_bounds(
    types: Map<Seq<char>, ResolvedType>,
    query: TypeQueryExpr,
) -> Option<Bounds> {
    if types.contains_key(query.typename@) {
        match types[query.typename@].size {
            Size::Const(value) => exactly(value as int),
            Size::Variable => exactly(0),
        }
    } else {
        exactly(0)
    }
}

/// The bounds of the alignment of a type; one that is not known is no value at all.
pub open spec fn alignment_bounds(
    types: Map<Seq<char>, ResolvedType>,
    query: TypeQueryExpr,
) -> Option<Bounds> {
    if types.contains_key(query.typename@) {
        exactly(types[query.typename@].alignment as int)
    } else {
        exactly(0)
    }
}

/// The bounds of a sum.
pub open spec fn sum_bounds(a: Bounds, b: Bounds) -> Option<Bounds> {
    fitted(a.low + b.low, a.high + b.high)
}

/// The bounds of a difference.
pub open spec fn difference_bounds(a: Bounds, b: Bounds) -> Option<Bounds> {
    fitted(a.low - b.high, a.high - b.low)
}

/// The bounds of a product: the least and the greatest product of two ends.
pub open spec fn product_bounds(a: Bounds, b: Bounds) -> Option<Bounds> {
    fitted(
        lesser(lesser(a.low * b.low, a.high * b.low), lesser(a.low * b.high, a.high * b.high)),
        greater(greater(a.low * b.low, a.high * b.low), greater(a.low * b.high, a.high * b.high)),
    )
}

/// The bounds of a quotient, which is no further from zero than the dividend. The quotient of two
/// values that are not negative is not negative either.
pub open spec fn quotient_bounds(a: Bounds, b: Bounds) -> Option<Bounds> {
    if a.low >= 0 && b.low >= 0 {
        fitted(0, a.high)
    } else {
        fitted(-reach(a), reach(a))
    }
}

/// The bounds of a remainder, which is between zero and the dividend. The remainder of the least
/// 128-bit value may be undefined.
pub open spec fn remainder_bounds(a: Bounds, b: Bounds) -> Option<Bounds> {
    if a.low <= i128::MIN {
        None
    } else {
        fitted(lesser(a.low, 0), greater(a.high, 0))
    }
}

/// The bounds of a power, which is no further from zero than that of the greatest base and exponent.
pub open spec fn power_bounds(a: Bounds, b: Bounds) -> Option<Bounds> {
    if b.high > u32::MAX {
        None
    } else {
        let limit = pow(greater(reach(a), 1), greater(b.high, 0) as nat);
        fitted(-limit, limit)
    }
}

/// The bounds of a bitwise conjunction, which is not above an operand that is not negative.
pub open spec fn conjunction_bounds(a: Bounds, b: Bounds) -> Option<Bounds> {
    if b.low >= 0 {
        fitted(0, b.high)
    } else if a.low >= 0 {
        fitted(0, a.high)
    } else {
        anything()
    }
}

/// The bounds of a shifted value: none are known but that there is a value.
pub open spec fn shift_bounds(a: Bounds, b: Bounds) -> Option<Bounds> {
    if b.high < 128 {
        anything()
    } else {
        None
    }
}

/// Bounds within which the value of `expr` lies whenever it has one, given fields that hold what
/// fields can hold; `None` where it cannot be told that `expr` has a value.
pub open spec fn bounds(types: Map<Seq<char>, ResolvedType>, expr: ExprKind) -> Option<Bounds>
    decreases expr,
{
    match expr {
        ExprKind::Literal(literal) => exactly(literal_value(literal) as int),
        ExprKind::FieldRef(_) => field_bounds(),
        ExprKind::Sizeof(query) => size_bounds(types, query),
        ExprKind::Alignof(query) => alignment_bounds(types, query),
        ExprKind::Add(e) | ExprKind::Sub(e) | ExprKind::Mul(e) | ExprKind::Div(e) | ExprKind::Mod(e)
        | ExprKind::Pow(e) | ExprKind::BitAnd(e) | ExprKind::BitOr(e) | ExprKind::BitXor(e)
        | ExprKind::LeftShift(e) | ExprKind::RightShift(e) | ExprKind::Eq(e) | ExprKind::Ne(e)
        | ExprKind::Lt(e) | ExprKind::Gt(e) | ExprKind::Le(e) | ExprKind::Ge(e) | ExprKind::And(e)
        | ExprKind::Or(e) | ExprKind::Xor(e) => match (
            bounds(types, *e.left),
            bounds(types, *e.right),
        ) {
            (Some(a), Some(b)) => binary_bounds(expr, a, b),
            _ => None,
        },
        ExprKind::BitNot(e) | ExprKind::Neg(e) | ExprKind::Not(e) | ExprKind::Popcount(e) => {
            match bounds(types, *e.operand) {
                Some(a) => unary_bounds(expr, a),
                None => None,
            }
        },
    }
}

/// The bounds of an expression with two operands within `a` and `b`.
pub open spec fn binary_bounds(expr: ExprKind, a: Bounds, b: Bounds) -> Option<Bounds> {
    match expr {
        ExprKind::Add(_) => sum_bounds(a, b),
        ExprKind::Sub(_) => difference_bounds(a, b),
        ExprKind::Mul(_) => product_bounds(a, b),
        ExprKind::Div(_) => quotient_bounds(a, b),
        ExprKind::Mod(_) => remainder_bounds(a, b),
        ExprKind::Pow(_) => power_bounds(a, b),
        ExprKind::BitAnd(_) => conjunction_bounds(a, b),
        ExprKind::BitOr(_) | ExprKind::BitXor(_) => anything(),
        ExprKind::LeftShift(_) | ExprKind::RightShift(_) => shift_bounds(a, b),
        _ => truth_bounds(),
    }
}

/// The bounds of an expression with one operand within `a`.
pub open spec fn unary_bounds(expr: ExprKind, a: Bounds) -> Option<Bounds> {
    match expr {
        ExprKind::BitNot(_) => fitted(-a.high - 1, -a.low - 1),
        ExprKind::Neg(_) => fitted(-a.high, -a.low),
        ExprKind::Popcount(_) => Some(Bounds { low: 0, high: 128 }),
        _ => truth_bounds(),
    }
}

/// No operator in `expr` can leave the range of its values, whatever the fields hold.
pub open spec fn always_valued(types: Map<Seq<char>, ResolvedType>, expr: ExprKind) -> bool {
    bounds(types, expr) is Some
}

/// Every value noted is one that a field can hold.
pub open spec fn ranged(values: Map<Seq<char>, i128>) -> bool {
    forall|path: Seq<char>| #[trigger] values.contains_key(path) ==> in_field_range(values[path])
}

/// What has bounds is defined, and its value lies within them.
pub open spec fn within(value: Outcome<i128>, bounds: Option<Bounds>) -> bool {
    bounds matches Some(b) ==> match value {
        Outcome::Done(v) => b.low <= v <= b.high,
        Outcome::Failed(_) => true,
        Outcome::Undefined => false,
    }
}

/// A value that is between two others stays so when all are scaled, in one order or the other.
proof fn lemma_scaled(x: int, low: int, high: int, k: int)
    requires
        low <= x <= high,
    ensures
        lesser(low * k, high * k) <= x * k <= greater(low * k, high * k),
{
    if k >= 0 {
        assert(low * k <= x * k <= high * k) by (nonlinear_arith)
            requires
                low <= x <= high,
                k >= 0,
        ;
    } else {
        assert(high * k <= x * k <= low * k) by (nonlinear_arith)
            requires
                low <= x <= high,
                k < 0,
        ;
    }
}

proof fn lemma_product(l: int, r: int, a: Bounds, b: Bounds)
    requires
        a.low <= l <= a.high,
        b.low <= r <= b.high,
    ensures
        product_bounds(a, b) matches Some(p) ==> p.low <= l * r <= p.high,
{
    lemma_scaled(r, b.low, b.high, l);
    lemma_scaled(l, a.low, a.high, b.low);
    lemma_scaled(l, a.low, a.high, b.high);
    assert(r * l == l * r && b.low * l == l * b.low && b.high * l == l * b.high)
        by (nonlinear_arith);
}

proof fn lemma_quotient(l: int, r: int, a: Bounds, b: Bounds)
    requires
        a.low <= l <= a.high,
        b.low <= r <= b.high,
        r != 0,
    ensures
        quotient_bounds(a, b) matches Some(q) ==> q.low <= quotient(l, r) <= q.high,
{
    let x = magnitude(l);
    let y = magnitude(r);
    assert(0 <= x / y <= x) by (nonlinear_arith)
        requires
            x >= 0,
            y >= 1,
    ;
}

proof fn lemma_remainder(l: int, r: int, a: Bounds, b: Bounds)
    requires
        a.low <= l <= a.high,
        r != 0,
    ensures
        remainder_bounds(a, b) matches Some(m) ==> m.low <= remainder(l, r) <= m.high,
{
    division_is_exact(l, r);
    let x = magnitude(l);
    let y = magnitude(r);
    assert(0 <= x % y <= x) by (nonlinear_arith)
        requires
            x >= 0,
            y >= 1,
    ;
}

proof fn lemma_power(l: int, e: nat, m: int, n: nat)
    requires
        magnitude(l) <= m,
        1 <= m,
        e <= n,
    ensures
        magnitude(pow(l, e)) <= pow(m, n),
        1 <= pow(m, n),
    decreases n,
{
    reveal(pow);
    if n > 0 {
        let less = (n - 1) as nat;
        if e < n {
            lemma_power(l, e, m, less);
            let p = pow(m, less);
            assert(p <= m * p) by (nonlinear_arith)
                requires
                    1 <= m,
                    1 <= p,
            ;
        } else {
            lemma_power(l, less, m, less);
            let p = pow(l, less);
            let q = pow(m, less);
            assert(magnitude(l * p) <= m * q && 1 <= m * q) by (nonlinear_arith)
                requires
                    magnitude(l) <= m,
                    magnitude(p) <= q,
                    1 <= m,
                    1 <= q,
            ;
        }
    }
}

proof fn lemma_ones(x: nat, n: nat)
    requires
        x < pow2(n),
    ensures
        ones(x) <= n,
    decreases n,
{
    if x > 0 {
        if n == 0 {
            lemma2_to64();
        }
        lemma_pow2_unfold(n);
        lemma_ones(x / 2, (n - 1) as nat);
    }
}

proof fn lemma_operand_bounds(
    env: Env,
    values: Map<Seq<char>, i128>,
    scopes: Seq<Seq<char>>,
    expr: BinaryExpr,
)
    requires
        ranged(values),
        bounds(env.types, *expr.left) is Some,
        bounds(env.types, *expr.right) is Some,
    ensures
        match operands(env, values, scopes, expr) {
            Outcome::Done((l, r)) => {
                let a = bounds(env.types, *expr.left)->0;
                let b = bounds(env.types, *expr.right)->0;
                &&& a.low <= l <= a.high
                &&& b.low <= r <= b.high
            },
            Outcome::Failed(_) => true,
            Outcome::Undefined => false,
        },
    decreases expr,
{
    values_lie_within_bounds(env, values, scopes, *expr.left);
    values_lie_within_bounds(env, values, scopes, *expr.right);
}

proof fn lemma_found_in_range(
    values: Map<Seq<char>, i128>,
    scopes: Seq<Seq<char>>,
    key: Seq<char>,
)
    requires
        ranged(values),
    ensures
        scoped_value(values, scopes, key) matches Some(value) ==> in_field_range(value),
        field_value(values, scopes, key) matches Some(value) ==> in_field_range(value),
    decreases scopes.len(),
{
    if scopes.len() > 0 {
        lemma_found_in_range(values, scopes.drop_last(), key);
    }
}

/// What an operator makes of two values within bounds lies within its own.
proof fn lemma_combined_within(
    typename: Seq<char>,
    op: BinaryOp,
    l: i128,
    r: i128,
    a: Bounds,
    b: Bounds,
)
    requires
        a.low <= l <= a.high,
        b.low <= r <= b.high,
    ensures
        within(
            combined(typename, op, l, r),
            match op {
                BinaryOp::Add => sum_bounds(a, b),
                BinaryOp::Sub => difference_bounds(a, b),
                BinaryOp::Mul => product_bounds(a, b),
                BinaryOp::Div => quotient_bounds(a, b),
                BinaryOp::Mod => remainder_bounds(a, b),
                BinaryOp::BitAnd => conjunction_bounds(a, b),
                BinaryOp::BitOr | BinaryOp::BitXor => anything(),
                BinaryOp::LeftShift | BinaryOp::RightShift => shift_bounds(a, b),
            },
        ),
{
    match op {
        BinaryOp::Mul => {
            lemma_product(l as int, r as int, a, b);
        },
        BinaryOp::Div => {
            if r != 0 {
                lemma_quotient(l as int, r as int, a, b);
            }
        },
        BinaryOp::Mod => {
            if r != 0 {
                lemma_remainder(l as int, r as int, a, b);
            }
        },
        BinaryOp::BitAnd => {
            assert(r >= 0 ==> 0 <= (l & r) <= r) by (bit_vector);
            assert(l >= 0 ==> 0 <= (l & r) <= l) by (bit_vector);
        },
        _ => {},
    }
}

proof fn lemma_powered_within(typename: Seq<char>, l: i128, r: i128, a: Bounds, b: Bounds)
    requires
        a.low <= l <= a.high,
        b.low <= r <= b.high,
    ensures
        within(powered(typename, l, r), power_bounds(a, b)),
{
    if r >= 0 && b.high <= u32::MAX {
        lemma_power(l as int, r as nat, greater(reach(a), 1), greater(b.high, 0) as nat);
        assert((r as u32) as nat == r as nat);
    }
}

proof fn lemma_popcount_within(v: i128)
    ensures
        ones((v as u128) as nat) <= 128,
{
    lemma2_to64();
    lemma_pow2_adds(64, 64);
    lemma_ones((v as u128) as nat, 128);
}

/// An expression with bounds is defined, and its value lies within them, where the fields hold what
/// fields can hold.
pub proof fn values_lie_within_bounds(
    env: Env,
    values: Map<Seq<char>, i128>,
    scopes: Seq<Seq<char>>,
    expr: ExprKind,
)
    requires
        ranged(values),
    ensures
        within(eval(env, values, scopes, expr), bounds(env.types, expr)),
    decreases expr,
{
    let types = env.types;
    match expr {
        ExprKind::FieldRef(field) => {
            lemma_found_in_range(values, scopes, flattened(texts(field.path@)));
        },
        ExprKind::Add(e) | ExprKind::Sub(e) | ExprKind::Mul(e) | ExprKind::Div(e) | ExprKind::Mod(e)
        | ExprKind::Pow(e) | ExprKind::BitAnd(e) | ExprKind::BitOr(e) | ExprKind::BitXor(e)
        | ExprKind::LeftShift(e) | ExprKind::RightShift(e) => {
            if bounds(types, *e.left) is Some && bounds(types, *e.right) is Some {
                lemma_operand_bounds(env, values, scopes, e);
                let a = bounds(types, *e.left)->0;
                let b = bounds(types, *e.right)->0;
                if let Outcome::Done((l, r)) = operands(env, values, scopes, e) {
                    let name = env.typename;
                    match expr {
                        ExprKind::Add(_) => lemma_combined_within(name, BinaryOp::Add, l, r, a, b),
                        ExprKind::Sub(_) => lemma_combined_within(name, BinaryOp::Sub, l, r, a, b),
                        ExprKind::Mul(_) => lemma_combined_within(name, BinaryOp::Mul, l, r, a, b),
                        ExprKind::Div(_) => lemma_combined_within(name, BinaryOp::Div, l, r, a, b),
                        ExprKind::Mod(_) => lemma_combined_within(name, BinaryOp::Mod, l, r, a, b),
                        ExprKind::BitAnd(_) => {
                            lemma_combined_within(name, BinaryOp::BitAnd, l, r, a, b);
                        },
                        ExprKind::Pow(_) => lemma_powered_within(name, l, r, a, b),
                        _ => {},
                    }
                }
            }
        },
        ExprKind::Eq(e) | ExprKind::Ne(e) | ExprKind::Lt(e) | ExprKind::Gt(e) | ExprKind::Le(e)
        | ExprKind::Ge(e) | ExprKind::And(e) | ExprKind::Or(e) | ExprKind::Xor(e) => {
            if bounds(types, *e.left) is Some && bounds(types, *e.right) is Some {
                lemma_operand_bounds(env, values, scopes, e);
            }
        },
        ExprKind::BitNot(e) | ExprKind::Neg(e) | ExprKind::Not(e) | ExprKind::Popcount(e) => {
            values_lie_within_bounds(env, values, scopes, *e.operand);
            if let Outcome::Done(v) = eval(env, values, scopes, *e.operand) {
                assert(!v == -1 - v) by (bit_vector);
                lemma_popcount_within(v);
            }
        },
        _ => {},
    }
}

} // verus!
