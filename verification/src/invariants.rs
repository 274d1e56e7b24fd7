//! What every walk keeps, and what its failures say.

use vstd::prelude::*;

use crate::errors::{Failure, Outcome};
use crate::model::{
    count_value, element_path, eval, extraction, field_start, first_variant, operands, unstarted,
    walk_array, walk_elements, walk_field, walk_fields, walk_jagged, walk_primitives, walk_root,
    walk_struct, walk_union, walk_variant, with_integral, with_payload, with_tag, Env, Progress, Walk,
};
use crate::primitives::{integral_value, integral_width, lemma_integral_range};
use crate::schema::{
    BinaryExpr, ExprKind, PrimitiveType, ResolvedEnumVariant, ResolvedField, ResolvedType,
    ResolvedTypeKind, Size,
};
use crate::text::dot_join;

verus! {

/// The field at `path` gives a value to the parameter called `name`.
pub open spec fn fed_by(env: Env, path: Seq<char>, name: Seq<char>) -> bool {
    env.names_at(path).contains(name)
}

/// A failure that names the type asked for, knows how long the data was, and blames a negative
/// value on a parameter bound to a field.
pub open spec fn reported(env: Env, failure: Failure) -> bool {
    match failure {
        Failure::Unsupported { typename, .. } => typename == env.typename,
        Failure::Negative { typename, parameter } => {
            &&& typename == env.typename
            &&& exists|path: Seq<char>| fed_by(env, path, parameter)
        },
        Failure::TooSmall { typename, available, .. } => {
            &&& typename == env.typename
            &&& available == env.available
        },
    }
}

/// `value` lies between the least and the greatest value that an integral field can hold.
pub open spec fn in_field_range(value: i128) -> bool {
    i64::MIN <= value <= u64::MAX
}

/// Every single step of a walk that starts where `inv` holds ends where it holds.
pub open spec fn kept(env: Env, inv: spec_fn(Progress) -> bool) -> bool {
    &&& forall|at: Progress, path: Seq<Seq<char>>, value: i128|
        inv(at) && path.len() > 0 && in_field_range(value) ==> (match #[trigger] with_integral(
            env,
            at,
            path,
            value,
        ) {
            Walk::Done(next) => inv(next),
            _ => true,
        })
    &&& forall|at: Progress, size: Size, path: Seq<Seq<char>>, data: Seq<u8>|
        inv(at) && path.len() > 0 ==> (match #[trigger] walk_union(env, at, size, path, data) {
            Walk::Done((next, _)) => inv(next),
            _ => true,
        })
    &&& forall|at: Progress, path: Seq<Seq<char>>, size: usize|
        inv(at) && path.len() > 0 ==> inv(#[trigger] with_payload(at, path, size))
    &&& forall|at: Progress, path: Seq<Seq<char>>, tag: u64|
        inv(at) && path.len() > 0 ==> inv(#[trigger] with_tag(env, at, path, tag))
}

/// A walk that ended where `inv` holds, or in a failure that says what it must.
pub open spec fn stayed(env: Env, inv: spec_fn(Progress) -> bool, walked: Walk<Progress>) -> bool {
    match walked {
        Walk::Done(next) => inv(next),
        Walk::Failed(stop) => reported(env, stop.failure),
        Walk::Undefined => true,
    }
}

/// The same of a walk that tells how many bytes it took.
pub open spec fn led_to(
    env: Env,
    inv: spec_fn(Progress) -> bool,
    walked: Walk<(Progress, usize)>,
) -> bool {
    match walked {
        Walk::Done((next, _)) => inv(next),
        Walk::Failed(stop) => reported(env, stop.failure),
        Walk::Undefined => true,
    }
}

proof fn lemma_operands_reported(
    env: Env,
    values: Map<Seq<char>, i128>,
    scopes: Seq<Seq<char>>,
    expr: BinaryExpr,
)
    ensures
        operands(env, values, scopes, expr) matches Outcome::Failed(failure) ==> reported(
            env,
            failure,
        ),
    decreases expr,
{
    lemma_eval_reported(env, values, scopes, *expr.left);
    lemma_eval_reported(env, values, scopes, *expr.right);
}

proof fn lemma_eval_reported(
    env: Env,
    values: Map<Seq<char>, i128>,
    scopes: Seq<Seq<char>>,
    expr: ExprKind,
)
    ensures
        eval(env, values, scopes, expr) matches Outcome::Failed(failure) ==> reported(env, failure),
    decreases expr,
{
    match expr {
        ExprKind::Add(e) | ExprKind::Sub(e) | ExprKind::Mul(e) | ExprKind::Div(e) | ExprKind::Mod(e)
        | ExprKind::Pow(e) => {
            lemma_operands_reported(env, values, scopes, e);
        },
        ExprKind::BitAnd(e) | ExprKind::BitOr(e) | ExprKind::BitXor(e) | ExprKind::LeftShift(e)
        | ExprKind::RightShift(e) => {
            lemma_operands_reported(env, values, scopes, e);
        },
        ExprKind::Eq(e) | ExprKind::Ne(e) | ExprKind::Lt(e) | ExprKind::Gt(e) | ExprKind::Le(e)
        | ExprKind::Ge(e) => {
            lemma_operands_reported(env, values, scopes, e);
        },
        ExprKind::And(e) | ExprKind::Or(e) | ExprKind::Xor(e) => {
            lemma_operands_reported(env, values, scopes, e);
        },
        ExprKind::BitNot(e) | ExprKind::Neg(e) | ExprKind::Not(e) | ExprKind::Popcount(e) => {
            lemma_eval_reported(env, values, scopes, *e.operand);
        },
        _ => {},
    }
}

proof fn lemma_integral_reported(env: Env, at: Progress, path: Seq<Seq<char>>, value: i128)
    ensures
        with_integral(env, at, path, value) matches Walk::Failed(stop) ==> reported(
            env,
            stop.failure,
        ),
{
    let key = dot_join(path);
    if let Walk::Failed(stop) = with_integral(env, at, path, value) {
        assert(fed_by(env, key, stop.failure->Negative_parameter));
        assert(reported(env, stop.failure));
    }
}

proof fn lemma_primitives_keep(
    env: Env,
    inv: spec_fn(Progress) -> bool,
    at: Progress,
    prim_type: PrimitiveType,
    i: usize,
    count: usize,
    size: usize,
    path: Seq<Seq<char>>,
    data: Seq<u8>,
)
    requires
        kept(env, inv),
        inv(at),
        size * count <= data.len(),
    ensures
        stayed(env, inv, walk_primitives(env, at, prim_type, i, count, size, path, data)),
    decreases count - i,
{
    if i < count {
        if let PrimitiveType::Integral(int_type) = prim_type {
            let place = element_path(path, i);
            let element = data.subrange(i * size, i * size + size);
            let value = integral_value(int_type, element) as i128;
            assert(0 <= i * size && i * size + size <= size * count) by (nonlinear_arith)
                requires
                    0 <= i < count,
                    0 <= size,
            ;
            lemma_integral_reported(env, at, place, value);
            if size >= integral_width(int_type) {
                lemma_integral_range(int_type, element);
                if let Walk::Done(next) = with_integral(env, at, place, value) {
                    lemma_primitives_keep(
                        env,
                        inv,
                        next,
                        prim_type,
                        (i + 1) as usize,
                        count,
                        size,
                        path,
                        data,
                    );
                }
            }
        }
    }
}

proof fn lemma_fields_keeps(
    env: Env,
    inv: spec_fn(Progress) -> bool,
    depth: nat,
    at: Progress,
    fields: Seq<ResolvedField>,
    i: int,
    packed: bool,
    cursor: usize,
    path: Seq<Seq<char>>,
    scopes: Seq<Seq<char>>,
    data: Seq<u8>,
)
    requires
        kept(env, inv),
        inv(at),
    ensures
        led_to(
            env,
            inv,
            walk_fields(env, depth, at, fields, i, packed, cursor, path, scopes, data),
        ),
    decreases depth, fields, 0nat, fields.len() - i,
{
    if 0 <= i < fields.len() {
        let field = fields[i];
        if let Outcome::Done(start) = field_start(env, field, packed, cursor, data.len()) {
            let place = path.push(field.name@);
            let rest = data.skip(start as int);
            let last = i + 1 == fields.len();
            lemma_field_keeps(
                env,
                inv,
                depth,
                at,
                field.field_type,
                place,
                scopes,
                rest,
                last,
            );
            if let Walk::Done((next, size)) = walk_field(
                env,
                depth,
                at,
                field.field_type,
                place,
                scopes,
                rest,
                last,
            ) {
                lemma_fields_keeps(
                    env,
                    inv,
                    depth,
                    next,
                    fields,
                    i + 1,
                    packed,
                    (start + size) as usize,
                    path,
                    scopes,
                    data,
                );
            }
        }
    }
}

proof fn lemma_struct_keeps(
    env: Env,
    inv: spec_fn(Progress) -> bool,
    depth: nat,
    at: Progress,
    ty: ResolvedType,
    path: Seq<Seq<char>>,
    scopes: Seq<Seq<char>>,
    data: Seq<u8>,
)
    requires
        kept(env, inv),
        inv(at),
    ensures
        led_to(
            env,
            inv,
            walk_struct(env, depth, at, ty, path, scopes, data),
        ),
    decreases depth, ty, 1nat, 0int,
{
    match ty.kind {
        ResolvedTypeKind::Struct { fields, packed, .. } => {
            lemma_fields_keeps(
                env,
                inv,
                depth,
                at,
                fields@,
                0,
                packed,
                0,
                path,
                scopes.push(dot_join(path)),
                data,
            );
        },
        _ => {},
    }
}

proof fn lemma_jagged_keeps(
    env: Env,
    inv: spec_fn(Progress) -> bool,
    depth: nat,
    at: Progress,
    element_type: ResolvedType,
    i: usize,
    count: usize,
    cursor: usize,
    path: Seq<Seq<char>>,
    scopes: Seq<Seq<char>>,
    data: Seq<u8>,
)
    requires
        kept(env, inv),
        inv(at),
        path.len() > 0,
    ensures
        led_to(
            env,
            inv,
            walk_jagged(env, depth, at, element_type, i, count, cursor, path, scopes, data),
        ),
    decreases depth, element_type, 3nat, count - i,
{
    if i < count && cursor <= data.len() {
        let place = element_path(path, i);
        let rest = data.skip(cursor as int);
        lemma_field_keeps(env, inv, depth, at, element_type, place, scopes, rest, false);
        if let Walk::Done((next, size)) = walk_field(
            env,
            depth,
            at,
            element_type,
            place,
            scopes,
            rest,
            false,
        ) {
            lemma_jagged_keeps(
                env,
                inv,
                depth,
                next,
                element_type,
                (i + 1) as usize,
                count,
                (cursor + size) as usize,
                path,
                scopes,
                data,
            );
        }
    }
}

proof fn lemma_elements_keeps(
    env: Env,
    inv: spec_fn(Progress) -> bool,
    depth: nat,
    at: Progress,
    element_type: ResolvedType,
    i: usize,
    count: usize,
    size: usize,
    path: Seq<Seq<char>>,
    scopes: Seq<Seq<char>>,
    data: Seq<u8>,
)
    requires
        kept(env, inv),
        inv(at),
        path.len() > 0,
    ensures
        stayed(
            env,
            inv,
            walk_elements(env, depth, at, element_type, i, count, size, path, scopes, data),
        ),
    decreases depth, element_type, 3nat, count - i,
{
    if i < count {
        let place = element_path(path, i);
        let element = data.subrange(i * size, i * size + size);
        lemma_field_keeps(env, inv, depth, at, element_type, place, scopes, element, false);
        if let Walk::Done((next, _)) = walk_field(
            env,
            depth,
            at,
            element_type,
            place,
            scopes,
            element,
            false,
        ) {
            lemma_elements_keeps(
                env,
                inv,
                depth,
                next,
                element_type,
                (i + 1) as usize,
                count,
                size,
                path,
                scopes,
                data,
            );
        }
    }
}

proof fn lemma_array_keeps(
    env: Env,
    inv: spec_fn(Progress) -> bool,
    depth: nat,
    at: Progress,
    element_type: ResolvedType,
    jagged: bool,
    count: usize,
    path: Seq<Seq<char>>,
    scopes: Seq<Seq<char>>,
    data: Seq<u8>,
)
    requires
        kept(env, inv),
        inv(at),
        path.len() > 0,
    ensures
        led_to(
            env,
            inv,
            walk_array(env, depth, at, element_type, jagged, count, path, scopes, data),
        ),
    decreases depth, element_type, 4nat, 0int,
{
    match element_type.size {
        Size::Variable => {
            lemma_jagged_keeps(
                env,
                inv,
                depth,
                at,
                element_type,
                0,
                count,
                0,
                path,
                scopes,
                data,
            );
        },
        Size::Const(value) => {
            if let ResolvedTypeKind::Primitive { prim_type } = element_type.kind {
                if value as usize * count <= data.len() {
                    lemma_primitives_keep(
                        env,
                        inv,
                        at,
                        prim_type,
                        0,
                        count,
                        value as usize,
                        path,
                        data,
                    );
                }
            }
            lemma_elements_keeps(
                env,
                inv,
                depth,
                at,
                element_type,
                0,
                count,
                value as usize,
                path,
                scopes,
                data,
            );
        },
    }
}

proof fn lemma_variant_keeps(
    env: Env,
    inv: spec_fn(Progress) -> bool,
    depth: nat,
    at: Progress,
    variants: Seq<ResolvedEnumVariant>,
    tag: u64,
    path: Seq<Seq<char>>,
    scopes: Seq<Seq<char>>,
    data: Seq<u8>,
)
    requires
        kept(env, inv),
        inv(at),
        path.len() > 0,
    ensures
        led_to(
            env,
            inv,
            walk_variant(env, depth, at, variants, tag, path, scopes, data),
        ),
    decreases depth, variants, 0nat, 0int,
{
    if exists|i: int| first_variant(variants, tag, i) {
        let i = choose|i: int| first_variant(variants, tag, i);
        lemma_field_keeps(
            env,
            inv,
            depth,
            with_tag(env, at, path, tag),
            variants[i].variant_type,
            path,
            scopes,
            data,
            false,
        );
    }
}

/// A walk over a field ends where every property holds that its start has and each step keeps, or in
/// a failure that says what it must.
pub proof fn lemma_field_keeps(
    env: Env,
    inv: spec_fn(Progress) -> bool,
    depth: nat,
    at: Progress,
    ty: ResolvedType,
    path: Seq<Seq<char>>,
    scopes: Seq<Seq<char>>,
    data: Seq<u8>,
    last: bool,
)
    requires
        kept(env, inv),
        inv(at),
        path.len() > 0,
    ensures
        led_to(
            env,
            inv,
            walk_field(env, depth, at, ty, path, scopes, data, last),
        ),
    decreases depth, ty, 2nat, 0int,
{
    match ty.kind {
        ResolvedTypeKind::TypeRef { target_name } => {
            if env.types.contains_key(target_name@) && depth > 0 {
                lemma_field_keeps(
                    env,
                    inv,
                    (depth - 1) as nat,
                    at,
                    env.types[target_name@],
                    path,
                    scopes,
                    data,
                    last,
                );
            }
        },
        ResolvedTypeKind::Primitive { prim_type: PrimitiveType::Integral(int_type) } => {
            if integral_width(int_type) <= data.len() {
                lemma_integral_range(int_type, data);
            }
            lemma_integral_reported(env, at, path, integral_value(int_type, data) as i128);
        },
        ResolvedTypeKind::Struct { .. } => {
            lemma_struct_keeps(env, inv, depth, at, ty, path, scopes, data);
        },
        ResolvedTypeKind::Array { element_type, size_expression, jagged } => {
            lemma_eval_reported(env, at.values, scopes, size_expression);
            if let Outcome::Done(count) = count_value(env, at.values, scopes, size_expression) {
                lemma_array_keeps(
                    env,
                    inv,
                    depth,
                    at,
                    *element_type,
                    jagged,
                    count as usize,
                    path,
                    scopes,
                    data,
                );
            }
        },
        ResolvedTypeKind::Enum { tag_expression, variants } => {
            lemma_eval_reported(env, at.values, scopes, tag_expression);
            if let Outcome::Done(tag) = count_value(env, at.values, scopes, tag_expression) {
                lemma_variant_keeps(
                    env,
                    inv,
                    depth,
                    at,
                    variants@,
                    tag as u64,
                    path,
                    scopes,
                    data,
                );
            }
        },
        _ => {},
    }
}

/// An extraction ends where every property holds that its start has and each step keeps, or in a
/// failure that says what it must.
pub proof fn extraction_keeps(
    env: Env,
    inv: spec_fn(Progress) -> bool,
    depth: nat,
    ty: ResolvedType,
    pending: Map<Seq<char>, Seq<char>>,
    data: Seq<u8>,
)
    requires
        kept(env, inv),
        inv(unstarted(pending)),
    ensures
        led_to(
            env,
            inv,
            walk_root(env, depth, ty, pending, data),
        ),
        extraction(env, depth, ty, pending, data) matches Outcome::Failed(failure) ==> reported(
            env,
            failure,
        ),
{
    lemma_struct_keeps(
        env,
        inv,
        depth,
        unstarted(pending),
        ty,
        Seq::empty(),
        seq![Seq::empty()],
        data,
    );
}

} // verus!
