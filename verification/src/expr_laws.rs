//! What holds of the values of expressions.

use vstd::arithmetic::power::pow;
use vstd::prelude::*;

use crate::arith::{division_is_exact, magnitude, ones, quotient, remainder};
use crate::errors::Outcome;
use crate::model::{count_value, eval, field_value, operands, scoped_value, Env};
use crate::names::{described, flattened, texts};
use crate::schema::{
    BinaryExpr, ExprKind, FieldRefExpr, LiteralExpr, Size, TypeQueryExpr, UnaryExpr,
};

verus! {

/// The quotient of two 128-bit values fits 128 bits, but for one pair.
proof fn lemma_quotient_fits(l: i128, r: i128)
    requires
        r != 0,
        !(l == i128::MIN && r == -1),
    ensures
        i128::MIN <= quotient(l as int, r as int) <= i128::MAX,
{
    let a = magnitude(l as int);
    let b = magnitude(r as int);
    let q = a / b;
    assert(0 <= q <= a && (b >= 2 ==> 2 * q <= a)) by (nonlinear_arith)
        requires
            a >= 0,
            b >= 1,
            q == a / b,
    ;
    if b == 1 {
        assert(a / 1 == a);
    }
}

/// The value 1 where something holds, and 0 where it does not.
pub open spec fn one_or_zero(holds: bool) -> Outcome<i128> {
    Outcome::Done(
        if holds {
            1i128
        } else {
            0i128
        },
    )
}

/// The operands have the values of their expressions.
proof fn lemma_operands(
    env: Env,
    values: Map<Seq<char>, i128>,
    scopes: Seq<Seq<char>>,
    expr: BinaryExpr,
    l: i128,
    r: i128,
)
    requires
        eval(env, values, scopes, *expr.left) == Outcome::Done(l),
        eval(env, values, scopes, *expr.right) == Outcome::Done(r),
    ensures
        operands(env, values, scopes, expr) == Outcome::Done((l, r)),
{
}

/// Quotient and remainder of two values belong together: the quotient times the divisor and the
/// remainder make up the dividend, and the remainder is smaller than the divisor and zero or of the
/// sign of the dividend.
pub proof fn quotients_and_remainders_belong_together(
    env: Env,
    values: Map<Seq<char>, i128>,
    scopes: Seq<Seq<char>>,
    expr: BinaryExpr,
    l: i128,
    r: i128,
)
    requires
        eval(env, values, scopes, *expr.left) == Outcome::Done(l),
        eval(env, values, scopes, *expr.right) == Outcome::Done(r),
        r != 0,
        !(l == i128::MIN && r == -1),
    ensures
        eval(env, values, scopes, ExprKind::Div(expr)) matches Outcome::Done(q) && (eval(
            env,
            values,
            scopes,
            ExprKind::Mod(expr),
        ) matches Outcome::Done(m) && {
            &&& q * r + m == l
            &&& magnitude(m as int) < magnitude(r as int)
            &&& m == 0 || (m < 0) == (l < 0)
        }),
{
    lemma_operands(env, values, scopes, expr, l, r);
    lemma_quotient_fits(l, r);
    division_is_exact(l as int, r as int);
    let q = quotient(l as int, r as int);
    let m = remainder(l as int, r as int);
    assert(q * r == r * q) by (nonlinear_arith);
    assert(eval(env, values, scopes, ExprKind::Div(expr)) == Outcome::Done(q as i128));
    assert(eval(env, values, scopes, ExprKind::Mod(expr)) == Outcome::Done(m as i128));
}

/// A comparison is 1 where it holds of the two values, which count with their signs, and 0 where it
/// does not.
pub proof fn comparisons_are_truth_values(
    env: Env,
    values: Map<Seq<char>, i128>,
    scopes: Seq<Seq<char>>,
    expr: BinaryExpr,
    l: i128,
    r: i128,
)
    requires
        eval(env, values, scopes, *expr.left) == Outcome::Done(l),
        eval(env, values, scopes, *expr.right) == Outcome::Done(r),
    ensures
        eval(env, values, scopes, ExprKind::Eq(expr)) == one_or_zero(l == r),
        eval(env, values, scopes, ExprKind::Ne(expr)) == one_or_zero(l != r),
        eval(env, values, scopes, ExprKind::Lt(expr)) == one_or_zero(l < r),
        eval(env, values, scopes, ExprKind::Gt(expr)) == one_or_zero(l > r),
        eval(env, values, scopes, ExprKind::Le(expr)) == one_or_zero(l <= r),
        eval(env, values, scopes, ExprKind::Ge(expr)) == one_or_zero(l >= r),
{
    lemma_operands(env, values, scopes, expr, l, r);
}

/// A connective is 1 where it holds of the two values, of which all but zero count as true, and 0
/// where it does not.
pub proof fn connectives_are_truth_values(
    env: Env,
    values: Map<Seq<char>, i128>,
    scopes: Seq<Seq<char>>,
    expr: BinaryExpr,
    l: i128,
    r: i128,
)
    requires
        eval(env, values, scopes, *expr.left) == Outcome::Done(l),
        eval(env, values, scopes, *expr.right) == Outcome::Done(r),
    ensures
        eval(env, values, scopes, ExprKind::And(expr)) == one_or_zero(l != 0 && r != 0),
        eval(env, values, scopes, ExprKind::Or(expr)) == one_or_zero(l != 0 || r != 0),
        eval(env, values, scopes, ExprKind::Xor(expr)) == one_or_zero((l != 0) != (r != 0)),
{
    lemma_operands(env, values, scopes, expr, l, r);
}

/// A negation is 1 where the value is zero, and 0 elsewhere.
pub proof fn negations_are_truth_values(
    env: Env,
    values: Map<Seq<char>, i128>,
    scopes: Seq<Seq<char>>,
    expr: UnaryExpr,
    v: i128,
)
    requires
        eval(env, values, scopes, *expr.operand) == Outcome::Done(v),
    ensures
        eval(env, values, scopes, ExprKind::Not(expr)) == one_or_zero(v == 0),
{
}

/// A field reference has the value found under its key, be it negative or not; where there is none,
/// it fails by that key.
pub proof fn references_are_looked_up(
    env: Env,
    values: Map<Seq<char>, i128>,
    scopes: Seq<Seq<char>>,
    expr: FieldRefExpr,
)
    ensures
        eval(env, values, scopes, ExprKind::FieldRef(expr)) == (match field_value(
            values,
            scopes,
            flattened(texts(expr.path@)),
        ) {
            Some(value) => Outcome::Done(value),
            None => Outcome::Failed(
                env.unsupported(
                    flattened(texts(expr.path@)),
                    "required field value not available"@,
                ),
            ),
        }),
{
}

/// An expression that counts something has the value of the expression itself, unless that is
/// negative: then it fails by what the expression is called.
pub proof fn counts_are_values_that_are_not_negative(
    env: Env,
    values: Map<Seq<char>, i128>,
    scopes: Seq<Seq<char>>,
    expr: ExprKind,
)
    ensures
        match eval(env, values, scopes, expr) {
            Outcome::Done(v) => if v >= 0 {
                count_value(env, values, scopes, expr) matches Outcome::Done(count) && count == v
            } else {
                count_value(env, values, scopes, expr) == Outcome::<u128>::Failed(
                    env.unsupported(described(expr), "expression evaluated to a negative value"@),
                )
            },
            Outcome::Failed(failure) => count_value(env, values, scopes, expr)
                == Outcome::<u128>::Failed(failure),
            Outcome::Undefined => count_value(env, values, scopes, expr) is Undefined,
        },
{
}

/// A literal has the number it holds as its value, with its sign.
pub proof fn literals_are_numbers(
    env: Env,
    values: Map<Seq<char>, i128>,
    scopes: Seq<Seq<char>>,
    literal: LiteralExpr,
)
    ensures
        eval(env, values, scopes, ExprKind::Literal(literal)) matches Outcome::Done(value) && (
        match literal {
            LiteralExpr::U64(v) => value == v,
            LiteralExpr::U32(v) => value == v,
            LiteralExpr::U16(v) => value == v,
            LiteralExpr::U8(v) => value == v,
            LiteralExpr::I64(v) => value == v,
            LiteralExpr::I32(v) => value == v,
            LiteralExpr::I16(v) => value == v,
            LiteralExpr::I8(v) => value == v,
        }),
{
}

/// A size query has the constant size of the type as its value, and fails by the name of the type
/// where the type is missing or has none.
pub proof fn size_queries_give_constant_sizes(
    env: Env,
    values: Map<Seq<char>, i128>,
    scopes: Seq<Seq<char>>,
    query: TypeQueryExpr,
)
    ensures
        !env.types.contains_key(query.typename@) ==> eval(
            env,
            values,
            scopes,
            ExprKind::Sizeof(query),
        ) == Outcome::<i128>::Failed(
            env.unsupported(query.typename@, "sizeof target type not found"@),
        ),
        env.types.contains_key(query.typename@) ==> match env.types[query.typename@].size {
            Size::Const(size) => eval(env, values, scopes, ExprKind::Sizeof(query)) matches
                Outcome::Done(value) && value == size,
            Size::Variable => eval(env, values, scopes, ExprKind::Sizeof(query)) == Outcome::<
                i128,
            >::Failed(env.unsupported(query.typename@, "sizeof of variable type unsupported"@)),
        },
{
}

/// An alignment query has the alignment of the type as its value, and fails by the name of the type
/// where the type is missing.
pub proof fn alignment_queries_give_alignments(
    env: Env,
    values: Map<Seq<char>, i128>,
    scopes: Seq<Seq<char>>,
    query: TypeQueryExpr,
)
    ensures
        !env.types.contains_key(query.typename@) ==> eval(
            env,
            values,
            scopes,
            ExprKind::Alignof(query),
        ) == Outcome::<i128>::Failed(
            env.unsupported(query.typename@, "alignof target type not found"@),
        ),
        env.types.contains_key(query.typename@) ==> (eval(
            env,
            values,
            scopes,
            ExprKind::Alignof(query),
        ) matches Outcome::Done(value) && value == env.types[query.typename@].alignment),
{
}

/// `value` is the number `x` where 128 bits hold it, and undefined elsewhere.
pub open spec fn is_number(value: Outcome<i128>, x: int) -> bool {
    if i128::MIN <= x <= i128::MAX {
        value matches Outcome::Done(v) && v == x
    } else {
        value is Undefined
    }
}

/// Sums, differences, products and negations are those of numbers, and undefined exactly where 128
/// bits do not hold them.
pub proof fn arithmetic_is_that_of_numbers(
    env: Env,
    values: Map<Seq<char>, i128>,
    scopes: Seq<Seq<char>>,
    expr: BinaryExpr,
    l: i128,
    r: i128,
)
    requires
        eval(env, values, scopes, *expr.left) == Outcome::Done(l),
        eval(env, values, scopes, *expr.right) == Outcome::Done(r),
    ensures
        is_number(eval(env, values, scopes, ExprKind::Add(expr)), l + r),
        is_number(eval(env, values, scopes, ExprKind::Sub(expr)), l - r),
        is_number(eval(env, values, scopes, ExprKind::Mul(expr)), l * r),
{
    lemma_operands(env, values, scopes, expr, l, r);
}

/// A negated value is the number with the other sign, and a value with all bits turned over is that
/// less one.
pub proof fn negatives_are_those_of_numbers(
    env: Env,
    values: Map<Seq<char>, i128>,
    scopes: Seq<Seq<char>>,
    expr: UnaryExpr,
    v: i128,
)
    requires
        eval(env, values, scopes, *expr.operand) == Outcome::Done(v),
    ensures
        is_number(eval(env, values, scopes, ExprKind::Neg(expr)), -v),
        is_number(eval(env, values, scopes, ExprKind::BitNot(expr)), -v - 1),
{
    assert(!v == -1 - v) by (bit_vector);
}

/// Nothing is divided by zero, and the one quotient that 128 bits do not hold is undefined, as is the
/// remainder beside it.
pub proof fn division_has_two_exceptions(
    env: Env,
    values: Map<Seq<char>, i128>,
    scopes: Seq<Seq<char>>,
    expr: BinaryExpr,
    l: i128,
    r: i128,
)
    requires
        eval(env, values, scopes, *expr.left) == Outcome::Done(l),
        eval(env, values, scopes, *expr.right) == Outcome::Done(r),
    ensures
        r == 0 ==> eval(env, values, scopes, ExprKind::Div(expr)) == Outcome::<i128>::Failed(
            env.unsupported("expression"@, "division by zero"@),
        ),
        r == 0 ==> eval(env, values, scopes, ExprKind::Mod(expr)) == Outcome::<i128>::Failed(
            env.unsupported("expression"@, "modulo by zero"@),
        ),
        l == i128::MIN && r == -1 ==> eval(env, values, scopes, ExprKind::Div(expr)) is Undefined,
        l == i128::MIN && r == -1 ==> eval(env, values, scopes, ExprKind::Mod(expr)) is Undefined,
{
    lemma_operands(env, values, scopes, expr, l, r);
    if l == i128::MIN && r == -1 {
        let big: int = 0x8000_0000_0000_0000_0000_0000_0000_0000;
        assert(magnitude(l as int) == big);
        assert(big / 1 == big);
        assert(quotient(l as int, r as int) == big);
    }
}

/// Bit `k` of `x` in two's complement is set.
pub open spec fn bit(x: i128, k: u128) -> bool {
    (x >> k) & 1 == 1
}

/// The bitwise operators work on each bit for itself: a bit is set in the result where it is set in
/// both operands, in one at least, or in one alone.
pub proof fn bitwise_operators_work_bit_by_bit(
    env: Env,
    values: Map<Seq<char>, i128>,
    scopes: Seq<Seq<char>>,
    expr: BinaryExpr,
    l: i128,
    r: i128,
    k: u128,
)
    requires
        eval(env, values, scopes, *expr.left) == Outcome::Done(l),
        eval(env, values, scopes, *expr.right) == Outcome::Done(r),
        k < 128,
    ensures
        eval(env, values, scopes, ExprKind::BitAnd(expr)) matches Outcome::Done(v) && bit(v, k) == (
        bit(l, k) && bit(r, k)),
        eval(env, values, scopes, ExprKind::BitOr(expr)) matches Outcome::Done(v) && bit(v, k) == (
        bit(l, k) || bit(r, k)),
        eval(env, values, scopes, ExprKind::BitXor(expr)) matches Outcome::Done(v) && bit(v, k) == (
        bit(l, k) != bit(r, k)),
{
    lemma_operands(env, values, scopes, expr, l, r);
    assert((((l & r) >> k) & 1 == 1) == ((l >> k) & 1 == 1 && (r >> k) & 1 == 1)) by (bit_vector)
        requires
            k < 128,
    ;
    assert((((l | r) >> k) & 1 == 1) == ((l >> k) & 1 == 1 || (r >> k) & 1 == 1)) by (bit_vector)
        requires
            k < 128,
    ;
    assert((((l ^ r) >> k) & 1 == 1) == (((l >> k) & 1 == 1) != ((r >> k) & 1 == 1)))
        by (bit_vector)
        requires
            k < 128,
    ;
}

/// A shift moves every bit by as many places: to the left, where zeros follow and bits beyond the
/// last place are lost, or to the right, where the sign follows. A shift by a negative number fails,
/// and one by 128 or more is undefined.
pub proof fn shifts_move_bits(
    env: Env,
    values: Map<Seq<char>, i128>,
    scopes: Seq<Seq<char>>,
    expr: BinaryExpr,
    l: i128,
    r: i128,
    k: u128,
)
    requires
        eval(env, values, scopes, *expr.left) == Outcome::Done(l),
        eval(env, values, scopes, *expr.right) == Outcome::Done(r),
        k < 128,
    ensures
        r < 0 ==> eval(env, values, scopes, ExprKind::LeftShift(expr)) == Outcome::<i128>::Failed(
            env.unsupported("expression"@, "negative shift"@),
        ),
        r < 0 ==> eval(env, values, scopes, ExprKind::RightShift(expr)) == Outcome::<i128>::Failed(
            env.unsupported("expression"@, "negative shift"@),
        ),
        r >= 128 ==> eval(env, values, scopes, ExprKind::LeftShift(expr)) is Undefined,
        r >= 128 ==> eval(env, values, scopes, ExprKind::RightShift(expr)) is Undefined,
        0 <= r < 128 ==> (eval(env, values, scopes, ExprKind::LeftShift(expr)) matches Outcome::Done(
            v,
        ) && bit(v, k) == (k >= r && bit(l, (k - r) as u128))),
        0 <= r < 128 ==> (eval(env, values, scopes, ExprKind::RightShift(expr)) matches
            Outcome::Done(v) && bit(v, k) == (if k + r < 128 {
            bit(l, (k + r) as u128)
        } else {
            l < 0
        })),
{
    lemma_operands(env, values, scopes, expr, l, r);
    if 0 <= r < 128 {
        let by = r as u128;
        assert(l << r == l << by);
        assert(l >> r == l >> by);
        if k >= by {
            let from = (k - by) as u128;
            assert((((l << by) >> k) & 1 == 1) == ((l >> from) & 1 == 1)) by (bit_vector)
                requires
                    k < 128,
                    by <= k,
                    from == k - by,
            ;
        } else {
            assert(!(((l << by) >> k) & 1 == 1)) by (bit_vector)
                requires
                    k < by,
                    by < 128,
            ;
        }
        if k + by < 128 {
            let from = (k + by) as u128;
            assert((((l >> by) >> k) & 1 == 1) == ((l >> from) & 1 == 1)) by (bit_vector)
                requires
                    k < 128,
                    by < 128,
                    from == k + by,
                    from < 128,
            ;
        } else {
            assert((((l >> by) >> k) & 1 == 1) == (l < 0)) by (bit_vector)
                requires
                    k < 128,
                    by < 128,
                    k + by >= 128,
            ;
        }
    }
}

/// A power is the product of as many factors as the exponent says, by its low 32 bits, and undefined
/// exactly where 128 bits do not hold it. A negative exponent fails.
pub proof fn powers_are_those_of_numbers(
    env: Env,
    values: Map<Seq<char>, i128>,
    scopes: Seq<Seq<char>>,
    expr: BinaryExpr,
    l: i128,
    r: i128,
)
    requires
        eval(env, values, scopes, *expr.left) == Outcome::Done(l),
        eval(env, values, scopes, *expr.right) == Outcome::Done(r),
    ensures
        r < 0 ==> eval(env, values, scopes, ExprKind::Pow(expr)) == Outcome::<i128>::Failed(
            env.unsupported("pow"@, "negative exponent unsupported"@),
        ),
        r >= 0 ==> is_number(
            eval(env, values, scopes, ExprKind::Pow(expr)),
            pow(l as int, (r as int % 0x1_0000_0000) as nat),
        ),
{
    lemma_operands(env, values, scopes, expr, l, r);
    if r >= 0 {
        assert((r as u32) == r % 0x1_0000_0000) by (bit_vector)
            requires
                r >= 0,
        ;
    }
}

/// How many of the first `n` bits of `x` are set.
pub open spec fn bits_set(x: i128, n: int) -> int
    decreases n,
{
    if n <= 0 {
        0
    } else {
        bits_set(x, n - 1) + (if bit(x, (n - 1) as u128) {
            1int
        } else {
            0int
        })
    }
}

proof fn lemma_ones_above(x: i128, n: int)
    requires
        0 <= n <= 128,
    ensures
        n < 128 ==> bits_set(x, n) + ones(((x as u128) >> (n as u128)) as nat) == ones(
            (x as u128) as nat,
        ),
        n == 128 ==> bits_set(x, n) == ones((x as u128) as nat),
    decreases n,
{
    let w = x as u128;
    if n == 0 {
        assert(w >> 0u128 == w) by (bit_vector);
    } else {
        lemma_ones_above(x, n - 1);
        let k = (n - 1) as u128;
        let rest = w >> k;
        assert(rest % 2 == rest & 1) by (bit_vector);
        assert((rest & 1 == 1) == ((x >> k) & 1 == 1)) by (bit_vector)
            requires
                rest == w >> k,
                w == x as u128,
                k < 128,
        ;
        assert(rest & 1 == 0 || rest & 1 == 1) by (bit_vector);
        if n < 128 {
            let next = n as u128;
            assert(rest / 2 == w >> next) by (bit_vector)
                requires
                    rest == w >> k,
                    next == k + 1,
                    next < 128,
            ;
        } else {
            assert(rest / 2 == 0) by (bit_vector)
                requires
                    rest == w >> k,
                    k == 127,
            ;
            assert(ones(0) == 0);
        }
        assert(ones(rest as nat) == rest as nat % 2 + ones(rest as nat / 2));
    }
}

/// Counting the bits of a value counts those that are set among all 128.
pub proof fn counted_bits_are_those_set(
    env: Env,
    values: Map<Seq<char>, i128>,
    scopes: Seq<Seq<char>>,
    expr: UnaryExpr,
    v: i128,
)
    requires
        eval(env, values, scopes, *expr.operand) == Outcome::Done(v),
    ensures
        eval(env, values, scopes, ExprKind::Popcount(expr)) matches Outcome::Done(count) && count
            == bits_set(v, 128),
{
    lemma_ones_above(v, 128);
    lemma_bits_set_bound(v, 128);
}

proof fn lemma_bits_set_bound(x: i128, n: int)
    requires
        0 <= n,
    ensures
        0 <= bits_set(x, n) <= n,
    decreases n,
{
    if n > 0 {
        lemma_bits_set_bound(x, n - 1);
    }
}

/// `expr` is an operator with the operands of `e`.
pub open spec fn has_operands(expr: ExprKind, e: BinaryExpr) -> bool {
    ||| expr == ExprKind::Add(e)
    ||| expr == ExprKind::Sub(e)
    ||| expr == ExprKind::Mul(e)
    ||| expr == ExprKind::Div(e)
    ||| expr == ExprKind::Mod(e)
    ||| expr == ExprKind::Pow(e)
    ||| expr == ExprKind::BitAnd(e)
    ||| expr == ExprKind::BitOr(e)
    ||| expr == ExprKind::BitXor(e)
    ||| expr == ExprKind::LeftShift(e)
    ||| expr == ExprKind::RightShift(e)
    ||| expr == ExprKind::Eq(e)
    ||| expr == ExprKind::Ne(e)
    ||| expr == ExprKind::Lt(e)
    ||| expr == ExprKind::Gt(e)
    ||| expr == ExprKind::Le(e)
    ||| expr == ExprKind::Ge(e)
    ||| expr == ExprKind::And(e)
    ||| expr == ExprKind::Or(e)
    ||| expr == ExprKind::Xor(e)
}

/// `expr` is an operator with the one operand of `e`.
pub open spec fn has_operand(expr: ExprKind, e: UnaryExpr) -> bool {
    ||| expr == ExprKind::BitNot(e)
    ||| expr == ExprKind::Neg(e)
    ||| expr == ExprKind::Not(e)
    ||| expr == ExprKind::Popcount(e)
}

/// An operator whose left operand has no value has none for the same reason, and so has one whose
/// right operand alone has none.
pub proof fn operands_fail_from_left_to_right(
    env: Env,
    values: Map<Seq<char>, i128>,
    scopes: Seq<Seq<char>>,
    expr: ExprKind,
    e: BinaryExpr,
)
    requires
        has_operands(expr, e),
    ensures
        eval(env, values, scopes, *e.left) !is Done ==> eval(env, values, scopes, expr) == eval(
            env,
            values,
            scopes,
            *e.left,
        ),
        eval(env, values, scopes, *e.left) is Done && eval(env, values, scopes, *e.right) !is Done
            ==> eval(env, values, scopes, expr) == eval(env, values, scopes, *e.right),
{
    let given = operands(env, values, scopes, e);
    let l = eval(env, values, scopes, *e.left);
    let r = eval(env, values, scopes, *e.right);
    assert(l is Failed ==> given == Outcome::<(i128, i128)>::Failed(l->Failed_0));
    assert(l is Undefined ==> given is Undefined);
    assert(l is Done && r is Failed ==> given == Outcome::<(i128, i128)>::Failed(r->Failed_0));
    assert(l is Done && r is Undefined ==> given is Undefined);
}

/// An operator whose one operand has no value has none for the same reason.
pub proof fn single_operands_fail_alike(
    env: Env,
    values: Map<Seq<char>, i128>,
    scopes: Seq<Seq<char>>,
    expr: ExprKind,
    e: UnaryExpr,
)
    requires
        has_operand(expr, e),
    ensures
        eval(env, values, scopes, *e.operand) !is Done ==> eval(env, values, scopes, expr) == eval(
            env,
            values,
            scopes,
            *e.operand,
        ),
{
}

/// The path of `key` below `scope`.
pub open spec fn below(scope: Seq<char>, key: Seq<char>) -> Seq<char> {
    if key.len() == 0 {
        scope
    } else {
        scope.push('.') + key
    }
}

/// The scope at position `i` has a name, and a value is noted for `key` below it.
pub open spec fn scope_has(
    values: Map<Seq<char>, i128>,
    scopes: Seq<Seq<char>>,
    key: Seq<char>,
    i: int,
) -> bool {
    0 <= i < scopes.len() && scopes[i].len() > 0 && values.contains_key(below(scopes[i], key))
}

proof fn lemma_scopes_searched(
    values: Map<Seq<char>, i128>,
    scopes: Seq<Seq<char>>,
    key: Seq<char>,
    i: int,
)
    requires
        forall|j: int| i < j < scopes.len() ==> !scope_has(values, scopes, key, j),
    ensures
        scope_has(values, scopes, key, i) ==> scoped_value(values, scopes, key) == Some(
            values[below(scopes[i], key)],
        ),
        i < 0 ==> scoped_value(values, scopes, key) is None,
    decreases scopes.len(),
{
    if scopes.len() > 0 {
        let less = scopes.drop_last();
        if i < scopes.len() - 1 {
            assert(!scope_has(values, scopes, key, scopes.len() - 1));
            assert forall|j: int| i < j < less.len() implies !scope_has(values, less, key, j) by {
                assert(!scope_has(values, scopes, key, j));
                if j >= 0 {
                    assert(less[j] == scopes[j]);
                }
            }
            lemma_scopes_searched(values, less, key, i);
            if i >= 0 {
                assert(less[i] == scopes[i]);
            }
        }
    }
}

/// A field of any enclosing struct is found from within it: the value noted for the key itself comes
/// first, and else that of the innermost scope with a value for the key. Where there is none of
/// these, nothing is found.
pub proof fn fields_are_found_in_enclosing_scopes(
    values: Map<Seq<char>, i128>,
    scopes: Seq<Seq<char>>,
    key: Seq<char>,
    i: int,
)
    ensures
        values.contains_key(key) ==> field_value(values, scopes, key) == Some(values[key]),
        !values.contains_key(key) && scope_has(values, scopes, key, i) && (forall|j: int|
            i < j < scopes.len() ==> !scope_has(values, scopes, key, j)) ==> field_value(
            values,
            scopes,
            key,
        ) == Some(values[below(scopes[i], key)]),
        !values.contains_key(key) && (forall|j: int| !scope_has(values, scopes, key, j))
            ==> field_value(values, scopes, key) is None,
{
    if forall|j: int| i < j < scopes.len() ==> !scope_has(values, scopes, key, j) {
        lemma_scopes_searched(values, scopes, key, i);
    }
    if forall|j: int| !scope_has(values, scopes, key, j) {
        lemma_scopes_searched(values, scopes, key, -1);
    }
}

/// An expression is called by what it is, and by the field or type that it asks for.
pub proof fn expressions_are_called_by_what_they_ask_for(
    field: FieldRefExpr,
    query: TypeQueryExpr,
    literal: LiteralExpr,
    expr: ExprKind,
)
    ensures
        described(ExprKind::Literal(literal)) == "literal"@,
        described(ExprKind::FieldRef(field)) == "field("@ + flattened(texts(field.path@)) + ")"@,
        described(ExprKind::Sizeof(query)) == "sizeof("@ + query.typename@ + ")"@,
        described(ExprKind::Alignof(query)) == "alignof("@ + query.typename@ + ")"@,
        !(expr is Literal || expr is FieldRef || expr is Sizeof || expr is Alignof) ==> described(
            expr,
        ) == "expression"@,
{
}

} // verus!
