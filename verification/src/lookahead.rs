//! A walk looks at no more of the data than it takes, unless a union is told by its size.

use vstd::prelude::*;

use crate::errors::Outcome;
use crate::extractor::{environment, parameters_of};
use crate::mapping::payload_bindings;
use crate::model::{
    count_value, element_path, eval, field_start, first_variant, operands, unstarted, walk_array,
    walk_elements, walk_field, walk_fields, walk_jagged, walk_primitives, walk_struct,
    walk_variant, with_integral, with_tag, Env, Progress, Walk,
};
use crate::primitives::{integral_value, integral_width};
use crate::schema::{
    BinaryExpr, ExprKind, PrimitiveType, ResolvedEnumVariant, ResolvedField, ResolvedType,
    ResolvedTypeKind, Size, TypeIr,
};
use crate::text::dot_join;

verus! {

/// A walk along `ty` comes across no union told by its size while references are followed at most
/// `depth` levels deep.
pub open spec fn bounded(
    types: Map<Seq<char>, ResolvedType>,
    ty: ResolvedType,
    depth: nat,
) -> bool
    decreases depth, ty,
{
    match ty.kind {
        ResolvedTypeKind::SizeDiscriminatedUnion { .. } => false,
        ResolvedTypeKind::TypeRef { target_name } => types.contains_key(target_name@) && depth > 0
            ==> bounded(types, types[target_name@], (depth - 1) as nat),
        ResolvedTypeKind::Struct { fields, .. } => forall|i: int|
            0 <= i < fields@.len() ==> bounded(types, (#[trigger] fields@[i]).field_type, depth),
        ResolvedTypeKind::Array { element_type, .. } => bounded(types, *element_type, depth),
        ResolvedTypeKind::Enum { variants, .. } => forall|i: int|
            0 <= i < variants@.len() ==> bounded(
                types,
                (#[trigger] variants@[i]).variant_type,
                depth,
            ),
        _ => true,
    }
}

/// `env` for data of another length.
spec fn wider(env: Env, available: nat) -> Env {
    Env { available, ..env }
}

/// `longer` is done as well where `shorter` is, and with the same result.
spec fn extends<T>(shorter: Walk<T>, longer: Walk<T>) -> bool {
    shorter is Done ==> longer == shorter
}

/// The same of a value.
spec fn extends_value<T>(shorter: Outcome<T>, longer: Outcome<T>) -> bool {
    shorter is Done ==> longer == shorter
}

proof fn lemma_operands_extend(
    env: Env,
    available: nat,
    values: Map<Seq<char>, i128>,
    scopes: Seq<Seq<char>>,
    expr: BinaryExpr,
)
    ensures
        extends_value(
            operands(env, values, scopes, expr),
            operands(wider(env, available), values, scopes, expr),
        ),
    decreases expr,
{
    lemma_eval_extends(env, available, values, scopes, *expr.left);
    lemma_eval_extends(env, available, values, scopes, *expr.right);
}

proof fn lemma_eval_extends(
    env: Env,
    available: nat,
    values: Map<Seq<char>, i128>,
    scopes: Seq<Seq<char>>,
    expr: ExprKind,
)
    ensures
        extends_value(
            eval(env, values, scopes, expr),
            eval(wider(env, available), values, scopes, expr),
        ),
    decreases expr,
{
    match expr {
        ExprKind::Add(e) | ExprKind::Sub(e) | ExprKind::Mul(e) | ExprKind::Div(e) | ExprKind::Mod(e)
        | ExprKind::Pow(e) => {
            lemma_operands_extend(env, available, values, scopes, e);
        },
        ExprKind::BitAnd(e) | ExprKind::BitOr(e) | ExprKind::BitXor(e) | ExprKind::LeftShift(e)
        | ExprKind::RightShift(e) => {
            lemma_operands_extend(env, available, values, scopes, e);
        },
        ExprKind::Eq(e) | ExprKind::Ne(e) | ExprKind::Lt(e) | ExprKind::Gt(e) | ExprKind::Le(e)
        | ExprKind::Ge(e) => {
            lemma_operands_extend(env, available, values, scopes, e);
        },
        ExprKind::And(e) | ExprKind::Or(e) | ExprKind::Xor(e) => {
            lemma_operands_extend(env, available, values, scopes, e);
        },
        ExprKind::BitNot(e) | ExprKind::Neg(e) | ExprKind::Not(e) | ExprKind::Popcount(e) => {
            lemma_eval_extends(env, available, values, scopes, *e.operand);
        },
        _ => {},
    }
}

/// Element `i` of an array lies in the data that holds the whole array.
proof fn lemma_element_within(data: Seq<u8>, more: Seq<u8>, i: int, count: int, size: int)
    requires
        0 <= i < count,
        0 <= size,
        size * count <= data.len(),
    ensures
        (data + more).subrange(i * size, i * size + size) == data.subrange(
            i * size,
            i * size + size,
        ),
{
    assert(0 <= i * size && i * size + size <= size * count) by (nonlinear_arith)
        requires
            0 <= i < count,
            0 <= size,
    ;
    assert((data + more).subrange(i * size, i * size + size) =~= data.subrange(
        i * size,
        i * size + size,
    ));
}

proof fn lemma_primitives_extend(
    env: Env,
    available: nat,
    at: Progress,
    prim_type: PrimitiveType,
    i: usize,
    count: usize,
    size: usize,
    path: Seq<Seq<char>>,
    data: Seq<u8>,
    more: Seq<u8>,
)
    requires
        size * count <= data.len(),
    ensures
        extends(
            walk_primitives(env, at, prim_type, i, count, size, path, data),
            walk_primitives(
                wider(env, available),
                at,
                prim_type,
                i,
                count,
                size,
                path,
                data + more,
            ),
        ),
    decreases count - i,
{
    if i < count {
        if let PrimitiveType::Integral(int_type) = prim_type {
            lemma_element_within(data, more, i as int, count as int, size as int);
            let value = integral_value(int_type, data.subrange(i * size, i * size + size)) as i128;
            if let Walk::Done(next) = with_integral(env, at, element_path(path, i), value) {
                lemma_primitives_extend(
                    env,
                    available,
                    next,
                    prim_type,
                    (i + 1) as usize,
                    count,
                    size,
                    path,
                    data,
                    more,
                );
            }
        }
    }
}

proof fn lemma_fields_extends(
    env: Env,
    available: nat,
    depth: nat,
    at: Progress,
    fields: Seq<ResolvedField>,
    i: int,
    packed: bool,
    cursor: usize,
    path: Seq<Seq<char>>,
    scopes: Seq<Seq<char>>,
    data: Seq<u8>,
    more: Seq<u8>,
)
    requires
        forall|k: int| 0 <= k < fields.len() ==> bounded(
                env.types,
                (#[trigger] fields[k]).field_type,
                depth,
            ),
    ensures
        extends(
            walk_fields(env, depth, at, fields, i, packed, cursor, path, scopes, data),
            walk_fields(
                wider(env, available),
                depth,
                at,
                fields,
                i,
                packed,
                cursor,
                path,
                scopes,
                data + more,
            ),
        ),
    decreases depth, fields, 0nat, fields.len() - i,
{
    if 0 <= i < fields.len() {
        let field = fields[i];
        if let Outcome::Done(start) = field_start(env, field, packed, cursor, data.len()) {
            let place = path.push(field.name@);
            let rest = data.skip(start as int);
            assert((data + more).skip(start as int) =~= rest + more);
            let last = i + 1 == fields.len();
            lemma_field_extends(
                env,
                available,
                depth,
                at,
                field.field_type,
                place,
                scopes,
                rest,
                more,
                last,
            );
            if let Walk::Done((next, size)) = walk_field(
                env,
                depth,
                at,
                field.field_type,
                place,
                scopes,
                rest,
                last,
            ) {
                lemma_fields_extends(
                    env,
                    available,
                    depth,
                    next,
                    fields,
                    i + 1,
                    packed,
                    (start + size) as usize,
                    path,
                    scopes,
                    data,
                    more,
                );
            }
        }
    }
}

proof fn lemma_struct_extends(
    env: Env,
    available: nat,
    depth: nat,
    at: Progress,
    ty: ResolvedType,
    path: Seq<Seq<char>>,
    scopes: Seq<Seq<char>>,
    data: Seq<u8>,
    more: Seq<u8>,
)
    requires
        bounded(env.types, ty, depth),
    ensures
        extends(
            walk_struct(env, depth, at, ty, path, scopes, data),
            walk_struct(wider(env, available), depth, at, ty, path, scopes, data + more),
        ),
    decreases depth, ty, 1nat, 0int,
{
    match ty.kind {
        ResolvedTypeKind::Struct { fields, packed, .. } => {
            lemma_fields_extends(
                env,
                available,
                depth,
                at,
                fields@,
                0,
                packed,
                0,
                path,
                scopes.push(dot_join(path)),
                data,
                more,
            );
        },
        _ => {},
    }
}

proof fn lemma_jagged_extends(
    env: Env,
    available: nat,
    depth: nat,
    at: Progress,
    element_type: ResolvedType,
    i: usize,
    count: usize,
    cursor: usize,
    path: Seq<Seq<char>>,
    scopes: Seq<Seq<char>>,
    data: Seq<u8>,
    more: Seq<u8>,
)
    requires
        bounded(env.types, element_type, depth),
    ensures
        extends(
            walk_jagged(env, depth, at, element_type, i, count, cursor, path, scopes, data),
            walk_jagged(
                wider(env, available),
                depth,
                at,
                element_type,
                i,
                count,
                cursor,
                path,
                scopes,
                data + more,
            ),
        ),
    decreases depth, element_type, 3nat, count - i,
{
    if i < count && cursor <= data.len() {
        let place = element_path(path, i);
        let rest = data.skip(cursor as int);
        assert((data + more).skip(cursor as int) =~= rest + more);
        lemma_field_extends(
            env,
            available,
            depth,
            at,
            element_type,
            place,
            scopes,
            rest,
            more,
            false,
        );
        if let Walk::Done((next, size)) = walk_field(
            env,
            depth,
            at,
            element_type,
            place,
            scopes,
            rest,
            false,
        ) {
            lemma_jagged_extends(
                env,
                available,
                depth,
                next,
                element_type,
                (i + 1) as usize,
                count,
                (cursor + size) as usize,
                path,
                scopes,
                data,
                more,
            );
        }
    }
}

proof fn lemma_elements_extends(
    env: Env,
    available: nat,
    depth: nat,
    at: Progress,
    element_type: ResolvedType,
    i: usize,
    count: usize,
    size: usize,
    path: Seq<Seq<char>>,
    scopes: Seq<Seq<char>>,
    data: Seq<u8>,
    more: Seq<u8>,
)
    requires
        bounded(env.types, element_type, depth),
        i <= count,
        size * count <= data.len(),
    ensures
        extends(
            walk_elements(env, depth, at, element_type, i, count, size, path, scopes, data),
            walk_elements(
                wider(env, available),
                depth,
                at,
                element_type,
                i,
                count,
                size,
                path,
                scopes,
                data + more,
            ),
        ),
    decreases depth, element_type, 3nat, count - i,
{
    if i < count {
        let place = element_path(path, i);
        let element = data.subrange(i * size, i * size + size);
        lemma_element_within(data, more, i as int, count as int, size as int);
        assert(element + Seq::<u8>::empty() =~= element);
        lemma_field_extends(
            env,
            available,
            depth,
            at,
            element_type,
            place,
            scopes,
            element,
            Seq::empty(),
            false,
        );
        if let Walk::Done((next, _)) = walk_field(
            env,
            depth,
            at,
            element_type,
            place,
            scopes,
            element,
            false,
        ) {
            lemma_elements_extends(
                env,
                available,
                depth,
                next,
                element_type,
                (i + 1) as usize,
                count,
                size,
                path,
                scopes,
                data,
                more,
            );
        }
    }
}

proof fn lemma_array_extends(
    env: Env,
    available: nat,
    depth: nat,
    at: Progress,
    element_type: ResolvedType,
    jagged: bool,
    count: usize,
    path: Seq<Seq<char>>,
    scopes: Seq<Seq<char>>,
    data: Seq<u8>,
    more: Seq<u8>,
)
    requires
        bounded(env.types, element_type, depth),
    ensures
        extends(
            walk_array(env, depth, at, element_type, jagged, count, path, scopes, data),
            walk_array(
                wider(env, available),
                depth,
                at,
                element_type,
                jagged,
                count,
                path,
                scopes,
                data + more,
            ),
        ),
    decreases depth, element_type, 4nat, 0int,
{
    match element_type.size {
        Size::Variable => {
            lemma_jagged_extends(
                env,
                available,
                depth,
                at,
                element_type,
                0,
                count,
                0,
                path,
                scopes,
                data,
                more,
            );
        },
        Size::Const(value) => {
            let size = value as usize;
            if size * count <= data.len() {
                if let ResolvedTypeKind::Primitive { prim_type } = element_type.kind {
                    lemma_primitives_extend(
                        env,
                        available,
                        at,
                        prim_type,
                        0,
                        count,
                        size,
                        path,
                        data,
                        more,
                    );
                } else {
                    lemma_elements_extends(
                        env,
                        available,
                        depth,
                        at,
                        element_type,
                        0,
                        count,
                        size,
                        path,
                        scopes,
                        data,
                        more,
                    );
                }
            }
        },
    }
}

proof fn lemma_variant_extends(
    env: Env,
    available: nat,
    depth: nat,
    at: Progress,
    variants: Seq<ResolvedEnumVariant>,
    tag: u64,
    path: Seq<Seq<char>>,
    scopes: Seq<Seq<char>>,
    data: Seq<u8>,
    more: Seq<u8>,
)
    requires
        forall|k: int| 0 <= k < variants.len() ==> bounded(
                env.types,
                (#[trigger] variants[k]).variant_type,
                depth,
            ),
    ensures
        extends(
            walk_variant(env, depth, at, variants, tag, path, scopes, data),
            walk_variant(
                wider(env, available),
                depth,
                at,
                variants,
                tag,
                path,
                scopes,
                data + more,
            ),
        ),
    decreases depth, variants, 0nat, 0int,
{
    if exists|i: int| first_variant(variants, tag, i) {
        let i = choose|i: int| first_variant(variants, tag, i);
        lemma_field_extends(
            env,
            available,
            depth,
            with_tag(env, at, path, tag),
            variants[i].variant_type,
            path,
            scopes,
            data,
            more,
            false,
        );
    }
}

proof fn lemma_field_extends(
    env: Env,
    available: nat,
    depth: nat,
    at: Progress,
    ty: ResolvedType,
    path: Seq<Seq<char>>,
    scopes: Seq<Seq<char>>,
    data: Seq<u8>,
    more: Seq<u8>,
    last: bool,
)
    requires
        bounded(env.types, ty, depth),
    ensures
        extends(
            walk_field(env, depth, at, ty, path, scopes, data, last),
            walk_field(wider(env, available), depth, at, ty, path, scopes, data + more, last),
        ),
    decreases depth, ty, 2nat, 0int,
{
    match ty.kind {
        ResolvedTypeKind::TypeRef { target_name } => {
            if env.types.contains_key(target_name@) && depth > 0 {
                lemma_field_extends(
                    env,
                    available,
                    (depth - 1) as nat,
                    at,
                    env.types[target_name@],
                    path,
                    scopes,
                    data,
                    more,
                    last,
                );
            }
        },
        ResolvedTypeKind::Primitive { prim_type: PrimitiveType::Integral(int_type) } => {
            let size = integral_width(int_type) as int;
            if size <= data.len() {
                assert((data + more).take(size) =~= data.take(size));
            }
        },
        ResolvedTypeKind::Struct { .. } => {
            lemma_struct_extends(env, available, depth, at, ty, path, scopes, data, more);
        },
        ResolvedTypeKind::Array { element_type, size_expression, jagged } => {
            lemma_eval_extends(env, available, at.values, scopes, size_expression);
            if let Outcome::Done(count) = count_value(env, at.values, scopes, size_expression) {
                lemma_array_extends(
                    env,
                    available,
                    depth,
                    at,
                    *element_type,
                    jagged,
                    count as usize,
                    path,
                    scopes,
                    data,
                    more,
                );
            }
        },
        ResolvedTypeKind::Enum { tag_expression, variants } => {
            lemma_eval_extends(env, available, at.values, scopes, tag_expression);
            if let Outcome::Done(tag) = count_value(env, at.values, scopes, tag_expression) {
                lemma_variant_extends(
                    env,
                    available,
                    depth,
                    at,
                    variants@,
                    tag as u64,
                    path,
                    scopes,
                    data,
                    more,
                );
            }
        },
        _ => {},
    }
}

/// Where extraction succeeds without coming across a union told by its size, further bytes behind
/// the data change nothing.
pub proof fn further_bytes_are_ignored(
    types: Map<Seq<char>, ResolvedType>,
    ty: ResolvedType,
    type_ir: TypeIr,
    depth: nat,
    data: Seq<u8>,
    more: Seq<u8>,
)
    requires
        bounded(types, ty, depth),
        parameters_of(types, ty, type_ir, depth, data) is Done,
    ensures
        parameters_of(types, ty, type_ir, depth, data + more) == parameters_of(
            types,
            ty,
            type_ir,
            depth,
            data,
        ),
{
    let env = environment(types, ty, type_ir, data.len());
    let pending = payload_bindings(ty, type_ir.parameters@);
    let available = (data + more).len();
    lemma_struct_extends(
        env,
        available,
        depth,
        unstarted(pending),
        ty,
        Seq::empty(),
        seq![Seq::empty()],
        data,
        more,
    );
    assert(wider(env, available) == environment(types, ty, type_ir, available));
}

} // verus!
