//! What parameters data has: the meaning of expressions, and of a walk over data along a type.

use vstd::prelude::*;

use crate::arith::{
    combined, compares, connects, ones, powered, representable, truth, BinaryOp, CompareOp,
    LogicalOp,
};
use crate::errors::{Failure, Outcome};
use crate::names::{described, flattened, texts};
use crate::primitives::{aligned, integral_value, parameter_value, usable_alignment, width};
use crate::schema::{
    BinaryExpr, ExprKind, LiteralExpr, PrimitiveType, ResolvedEnumVariant, ResolvedField,
    ResolvedType, ResolvedTypeKind, Size,
};
use crate::str_map::is_least;
use crate::text::{decimal, dot_join, DOT};

verus! {

/// What stays the same during a walk.
pub struct Env {
    /// The name of the type whose parameters are asked for.
    pub typename: Seq<char>,
    /// The length of all the data.
    pub available: nat,
    /// The types that can be referred to by name.
    pub types: Map<Seq<char>, ResolvedType>,
    /// The names of the parameters that each field path gives a value to.
    pub field_params: Map<Seq<char>, Seq<Seq<char>>>,
}

/// What a walk has found out so far.
pub struct Progress {
    /// The values of parameters.
    pub params: Map<Seq<char>, u128>,
    /// The values of integral fields, by the path of the field.
    pub values: Map<Seq<char>, i128>,
    /// The parameters that still wait for the size of the field at a path.
    pub pending: Map<Seq<char>, Seq<char>>,
    /// The paths at which an enum has recorded its tag.
    pub tagged: Set<Seq<char>>,
}

/// Where a walk stopped short.
pub struct Stop {
    /// What the walk had found out by then.
    pub at: Progress,
    /// The path of what the walk was at.
    pub path: Seq<Seq<char>>,
    /// Why it stopped.
    pub failure: Failure,
}

/// The model of a walk's result: like [`Outcome`], but a failure tells where the walk stopped.
pub enum Walk<T> {
    Done(T),
    Failed(Stop),
    Undefined,
}

/// A walk that stopped at `path`, where it knew `at`.
pub open spec fn stopped<T>(at: Progress, path: Seq<Seq<char>>, failure: Failure) -> Walk<T> {
    Walk::Failed(Stop { at, path, failure })
}

impl Env {
    /// The failure of something that is not supported.
    pub open spec fn unsupported(self, parameter: Seq<char>, reason: Seq<char>) -> Failure {
        Failure::Unsupported { typename: self.typename, parameter, reason }
    }

    /// The failure of data that is too short.
    pub open spec fn shortage(self, required: nat) -> Failure {
        Failure::TooSmall { typename: self.typename, required, available: self.available }
    }

    /// The names of the parameters that the field at `path` gives a value to.
    pub open spec fn names_at(self, path: Seq<char>) -> Seq<Seq<char>> {
        if self.field_params.contains_key(path) {
            self.field_params[path]
        } else {
            Seq::empty()
        }
    }
}

/// The value found under `key` in the innermost scope that has one. The outermost scope is nameless
/// and has none.
pub open spec fn scoped_value(
    values: Map<Seq<char>, i128>,
    scopes: Seq<Seq<char>>,
    key: Seq<char>,
) -> Option<i128>
    decreases scopes.len(),
{
    if scopes.len() == 0 {
        None
    } else {
        let scope = scopes.last();
        let candidate = if key.len() == 0 {
            scope
        } else {
            scope.push(DOT) + key
        };
        if scope.len() > 0 && values.contains_key(candidate) {
            Some(values[candidate])
        } else {
            scoped_value(values, scopes.drop_last(), key)
        }
    }
}

/// The value that a reference to `key` stands for: that of the field at the very path, or else one
/// found in a scope.
pub open spec fn field_value(
    values: Map<Seq<char>, i128>,
    scopes: Seq<Seq<char>>,
    key: Seq<char>,
) -> Option<i128> {
    if values.contains_key(key) {
        Some(values[key])
    } else {
        scoped_value(values, scopes, key)
    }
}

/// The value of a literal.
pub open spec fn literal_value(literal: LiteralExpr) -> i128 {
    match literal {
        LiteralExpr::U64(v) => v as i128,
        LiteralExpr::U32(v) => v as i128,
        LiteralExpr::U16(v) => v as i128,
        LiteralExpr::U8(v) => v as i128,
        LiteralExpr::I64(v) => v as i128,
        LiteralExpr::I32(v) => v as i128,
        LiteralExpr::I16(v) => v as i128,
        LiteralExpr::I8(v) => v as i128,
    }
}

/// The constant size of the type called `name`.
pub open spec fn size_of_type(env: Env, name: Seq<char>) -> Outcome<i128> {
    if !env.types.contains_key(name) {
        Outcome::Failed(env.unsupported(name, "sizeof target type not found"@))
    } else {
        match env.types[name].size {
            Size::Const(value) => Outcome::Done(value as i128),
            Size::Variable => Outcome::Failed(
                env.unsupported(name, "sizeof of variable type unsupported"@),
            ),
        }
    }
}

/// The alignment of the type called `name`.
pub open spec fn align_of_type(env: Env, name: Seq<char>) -> Outcome<i128> {
    if !env.types.contains_key(name) {
        Outcome::Failed(env.unsupported(name, "alignof target type not found"@))
    } else {
        Outcome::Done(env.types[name].alignment as i128)
    }
}

/// The value of a reference to the field with the given parts.
pub open spec fn reference_value(
    env: Env,
    values: Map<Seq<char>, i128>,
    scopes: Seq<Seq<char>>,
    parts: Seq<Seq<char>>,
) -> Outcome<i128> {
    let key = flattened(parts);
    match field_value(values, scopes, key) {
        Some(value) => Outcome::Done(value),
        None => Outcome::Failed(env.unsupported(key, "required field value not available"@)),
    }
}

/// The values of both operands, the left one first.
pub open spec fn operands(
    env: Env,
    values: Map<Seq<char>, i128>,
    scopes: Seq<Seq<char>>,
    expr: BinaryExpr,
) -> Outcome<(i128, i128)>
    decreases expr,
{
    match eval(env, values, scopes, *expr.left) {
        Outcome::Done(l) => match eval(env, values, scopes, *expr.right) {
            Outcome::Done(r) => Outcome::Done((l, r)),
            Outcome::Failed(failure) => Outcome::Failed(failure),
            Outcome::Undefined => Outcome::Undefined,
        },
        Outcome::Failed(failure) => Outcome::Failed(failure),
        Outcome::Undefined => Outcome::Undefined,
    }
}

/// What an arithmetic operator makes of its operands.
pub open spec fn binary_value(
    env: Env,
    op: BinaryOp,
    operands: Outcome<(i128, i128)>,
) -> Outcome<i128> {
    match operands {
        Outcome::Done((l, r)) => combined(env.typename, op, l, r),
        Outcome::Failed(failure) => Outcome::Failed(failure),
        Outcome::Undefined => Outcome::Undefined,
    }
}

/// What a comparison makes of its operands.
pub open spec fn compare_value(op: CompareOp, operands: Outcome<(i128, i128)>) -> Outcome<i128> {
    match operands {
        Outcome::Done((l, r)) => Outcome::Done(truth(compares(op, l, r))),
        Outcome::Failed(failure) => Outcome::Failed(failure),
        Outcome::Undefined => Outcome::Undefined,
    }
}

/// What a connective makes of its operands; both are evaluated in any case.
pub open spec fn logical_value(op: LogicalOp, operands: Outcome<(i128, i128)>) -> Outcome<i128> {
    match operands {
        Outcome::Done((l, r)) => Outcome::Done(truth(connects(op, l, r))),
        Outcome::Failed(failure) => Outcome::Failed(failure),
        Outcome::Undefined => Outcome::Undefined,
    }
}

/// What raising to a power makes of its operands.
pub open spec fn power_value(env: Env, operands: Outcome<(i128, i128)>) -> Outcome<i128> {
    match operands {
        Outcome::Done((l, r)) => powered(env.typename, l, r),
        Outcome::Failed(failure) => Outcome::Failed(failure),
        Outcome::Undefined => Outcome::Undefined,
    }
}

/// An operator with one operand.
pub enum UnaryOp {
    BitNot,
    Neg,
    Not,
    Popcount,
}

/// What an operator makes of its one operand.
pub open spec fn unary_value(op: UnaryOp, operand: Outcome<i128>) -> Outcome<i128> {
    match operand {
        Outcome::Done(v) => match op {
            UnaryOp::BitNot => Outcome::Done(!v),
            UnaryOp::Neg => representable(-v),
            UnaryOp::Not => Outcome::Done(truth(v == 0)),
            UnaryOp::Popcount => Outcome::Done(ones((v as u128) as nat) as i128),
        },
        Outcome::Failed(failure) => Outcome::Failed(failure),
        Outcome::Undefined => Outcome::Undefined,
    }
}

/// The value of an expression, given the values of the fields read so far.
pub open spec fn eval(
    env: Env,
    values: Map<Seq<char>, i128>,
    scopes: Seq<Seq<char>>,
    expr: ExprKind,
) -> Outcome<i128>
    decreases expr,
{
    match expr {
        ExprKind::Literal(literal) => Outcome::Done(literal_value(literal)),
        ExprKind::FieldRef(field) => reference_value(env, values, scopes, texts(field.path@)),
        ExprKind::Sizeof(query) => size_of_type(env, query.typename@),
        ExprKind::Alignof(query) => align_of_type(env, query.typename@),
        ExprKind::Add(e) => binary_value(env, BinaryOp::Add, operands(env, values, scopes, e)),
        ExprKind::Sub(e) => binary_value(env, BinaryOp::Sub, operands(env, values, scopes, e)),
        ExprKind::Mul(e) => binary_value(env, BinaryOp::Mul, operands(env, values, scopes, e)),
        ExprKind::Div(e) => binary_value(env, BinaryOp::Div, operands(env, values, scopes, e)),
        ExprKind::Mod(e) => binary_value(env, BinaryOp::Mod, operands(env, values, scopes, e)),
        ExprKind::Pow(e) => power_value(env, operands(env, values, scopes, e)),
        ExprKind::BitAnd(e) => binary_value(env, BinaryOp::BitAnd, operands(env, values, scopes, e)),
        ExprKind::BitOr(e) => binary_value(env, BinaryOp::BitOr, operands(env, values, scopes, e)),
        ExprKind::BitXor(e) => binary_value(env, BinaryOp::BitXor, operands(env, values, scopes, e)),
        ExprKind::LeftShift(e) => binary_value(
            env,
            BinaryOp::LeftShift,
            operands(env, values, scopes, e),
        ),
        ExprKind::RightShift(e) => binary_value(
            env,
            BinaryOp::RightShift,
            operands(env, values, scopes, e),
        ),
        ExprKind::BitNot(e) => unary_value(UnaryOp::BitNot, eval(env, values, scopes, *e.operand)),
        ExprKind::Neg(e) => unary_value(UnaryOp::Neg, eval(env, values, scopes, *e.operand)),
        ExprKind::Not(e) => unary_value(UnaryOp::Not, eval(env, values, scopes, *e.operand)),
        ExprKind::Popcount(e) => unary_value(
            UnaryOp::Popcount,
            eval(env, values, scopes, *e.operand),
        ),
        ExprKind::Eq(e) => compare_value(CompareOp::Eq, operands(env, values, scopes, e)),
        ExprKind::Ne(e) => compare_value(CompareOp::Ne, operands(env, values, scopes, e)),
        ExprKind::Lt(e) => compare_value(CompareOp::Lt, operands(env, values, scopes, e)),
        ExprKind::Gt(e) => compare_value(CompareOp::Gt, operands(env, values, scopes, e)),
        ExprKind::Le(e) => compare_value(CompareOp::Le, operands(env, values, scopes, e)),
        ExprKind::Ge(e) => compare_value(CompareOp::Ge, operands(env, values, scopes, e)),
        ExprKind::And(e) => logical_value(LogicalOp::And, operands(env, values, scopes, e)),
        ExprKind::Or(e) => logical_value(LogicalOp::Or, operands(env, values, scopes, e)),
        ExprKind::Xor(e) => logical_value(LogicalOp::Xor, operands(env, values, scopes, e)),
    }
}

/// The value of an expression that counts something; a negative one is a failure.
pub open spec fn count_value(
    env: Env,
    values: Map<Seq<char>, i128>,
    scopes: Seq<Seq<char>>,
    expr: ExprKind,
) -> Outcome<u128> {
    match eval(env, values, scopes, expr) {
        Outcome::Done(v) => if v < 0 {
            Outcome::Failed(
                env.unsupported(described(expr), "expression evaluated to a negative value"@),
            )
        } else {
            Outcome::Done(v as u128)
        },
        Outcome::Failed(failure) => Outcome::Failed(failure),
        Outcome::Undefined => Outcome::Undefined,
    }
}

/// `params` with the same value for every one of `names`.
pub open spec fn assigned(
    params: Map<Seq<char>, u128>,
    names: Seq<Seq<char>>,
    value: u128,
) -> Map<Seq<char>, u128> {
    params.union_prefer_right(
        Map::new(|name: Seq<char>| names.contains(name), |name: Seq<char>| value),
    )
}

/// `at` with the value of the field at `path` noted.
pub open spec fn with_value(at: Progress, path: Seq<Seq<char>>, value: i128) -> Progress {
    if path.len() == 0 {
        at
    } else {
        Progress { values: at.values.insert(dot_join(path), value), ..at }
    }
}

/// `at` after an integral field with the given value: the value is noted, and given to the
/// parameters bound to the field. A negative value fails where there are any.
pub open spec fn with_integral(
    env: Env,
    at: Progress,
    path: Seq<Seq<char>>,
    value: i128,
) -> Walk<Progress> {
    let noted = with_value(at, path, value);
    let names = env.names_at(dot_join(path));
    if names.len() == 0 {
        Walk::Done(noted)
    } else {
        match parameter_value(value, env.typename, names[0]) {
            Outcome::Done(param) => Walk::Done(
                Progress { params: assigned(noted.params, names, param), ..noted },
            ),
            Outcome::Failed(failure) => stopped(noted, path, failure),
            Outcome::Undefined => Walk::Undefined,
        }
    }
}

/// `at` after the field at `path` turned out to have the given size: the parameters that waited for
/// it have it.
pub open spec fn with_payload(at: Progress, path: Seq<Seq<char>>, size: usize) -> Progress {
    let key = dot_join(path);
    Progress {
        params: at.params.union_prefer_right(
            Map::new(
                |name: Seq<char>| at.pending.contains_key(name) && at.pending[name] == key,
                |name: Seq<char>| size as u128,
            ),
        ),
        pending: Map::new(
            |name: Seq<char>| at.pending.contains_key(name) && at.pending[name] != key,
            |name: Seq<char>| at.pending[name],
        ),
        ..at
    }
}

/// The outcome of a field with its size recorded, where it is the last one.
pub open spec fn with_tail(
    walked: Walk<(Progress, usize)>,
    path: Seq<Seq<char>>,
    last: bool,
) -> Walk<(Progress, usize)> {
    match walked {
        Walk::Done((at, size)) => Walk::Done(
            (
                if last {
                    with_payload(at, path, size)
                } else {
                    at
                },
                size,
            ),
        ),
        _ => walked,
    }
}

/// A walk over a primitive field.
pub open spec fn walk_primitive(
    env: Env,
    at: Progress,
    prim_type: PrimitiveType,
    path: Seq<Seq<char>>,
    data: Seq<u8>,
) -> Walk<(Progress, usize)> {
    let size = width(prim_type);
    if size > data.len() {
        stopped(at, path, env.shortage(size))
    } else {
        match prim_type {
            PrimitiveType::Integral(int_type) => match with_integral(
                env,
                at,
                path,
                integral_value(int_type, data) as i128,
            ) {
                Walk::Done(next) => Walk::Done((next, size as usize)),
                Walk::Failed(stop) => Walk::Failed(stop),
                Walk::Undefined => Walk::Undefined,
            },
            PrimitiveType::FloatingPoint(_) => Walk::Done((at, size as usize)),
        }
    }
}

/// A walk over a field whose type is told by the size of the data left.
pub open spec fn walk_sdu(
    env: Env,
    at: Progress,
    path: Seq<Seq<char>>,
    data: Seq<u8>,
    last: bool,
) -> Walk<(Progress, usize)> {
    if !last {
        stopped(
            at,
            path,
            env.unsupported(
                dot_join(path),
                "size-discriminated unions must be the final field"@,
            ),
        )
    } else {
        Walk::Done((with_payload(at, path, data.len() as usize), data.len() as usize))
    }
}

/// A walk over a union. Its size counts as its value.
pub open spec fn walk_union(
    env: Env,
    at: Progress,
    size: Size,
    path: Seq<Seq<char>>,
    data: Seq<u8>,
) -> Walk<(Progress, usize)> {
    match size {
        Size::Variable => stopped(
            at,
            path,
            env.unsupported(dot_join(path), "unions with variable size are not supported yet"@),
        ),
        Size::Const(value) => {
            let bytes = value as usize;
            if bytes > data.len() {
                stopped(at, path, env.shortage(bytes as nat))
            } else {
                let noted = with_value(at, path, bytes as i128);
                Walk::Done(
                    (
                        Progress {
                            params: assigned(
                                noted.params,
                                env.names_at(dot_join(path)),
                                bytes as u128,
                            ),
                            ..noted
                        },
                        bytes,
                    ),
                )
            }
        },
    }
}

/// Where a field starts whose predecessor ends at `cursor`.
pub open spec fn field_start(
    env: Env,
    field: ResolvedField,
    packed: bool,
    cursor: usize,
    len: nat,
) -> Outcome<usize> {
    if !packed && !usable_alignment(field.field_type.alignment) {
        Outcome::Undefined
    } else {
        let start = if packed {
            Some(cursor)
        } else {
            aligned(cursor, field.field_type.alignment)
        };
        match start {
            None => Outcome::Failed(env.unsupported(field.name@, "alignment overflow"@)),
            Some(start) => if start > len {
                Outcome::Failed(env.shortage(start as nat))
            } else {
                Outcome::Done(start)
            },
        }
    }
}

/// Where a struct ends whose last field ends at `cursor`.
pub open spec fn struct_end(env: Env, packed: bool, alignment: u64, cursor: usize) -> Outcome<
    usize,
> {
    if packed || alignment <= 1 {
        Outcome::Done(cursor)
    } else if !usable_alignment(alignment) {
        Outcome::Undefined
    } else {
        match aligned(cursor, alignment) {
            None => Outcome::Failed(env.unsupported("struct"@, "alignment overflow"@)),
            Some(end) => Outcome::Done(end),
        }
    }
}

/// The path of element `i` of the array at `path`.
pub open spec fn element_path(path: Seq<Seq<char>>, i: usize) -> Seq<Seq<char>> {
    path.push(decimal(i as nat))
}

/// The elements from `i` on of an array of primitive values, each `size` bytes wide.
pub open spec fn walk_primitives(
    env: Env,
    at: Progress,
    prim_type: PrimitiveType,
    i: usize,
    count: usize,
    size: usize,
    path: Seq<Seq<char>>,
    data: Seq<u8>,
) -> Walk<Progress>
    decreases count - i,
{
    if i >= count {
        Walk::Done(at)
    } else {
        match prim_type {
            PrimitiveType::FloatingPoint(_) => Walk::Done(at),
            PrimitiveType::Integral(int_type) => if size < width(prim_type) {
                Walk::Undefined
            } else {
                match with_integral(
                    env,
                    at,
                    element_path(path, i),
                    integral_value(int_type, data.subrange(i * size, i * size + size)) as i128,
                ) {
                    Walk::Done(next) => walk_primitives(
                        env,
                        next,
                        prim_type,
                        (i + 1) as usize,
                        count,
                        size,
                        path,
                        data,
                    ),
                    Walk::Failed(stop) => Walk::Failed(stop),
                    Walk::Undefined => Walk::Undefined,
                }
            },
        }
    }
}

/// The first variant with the given tag stands at position `i`.
pub open spec fn first_variant(variants: Seq<ResolvedEnumVariant>, tag: u64, i: int) -> bool {
    &&& 0 <= i < variants.len()
    &&& variants[i].tag_value == tag
    &&& forall|j: int| 0 <= j < i ==> (#[trigger] variants[j]).tag_value != tag
}

/// `at` after an enum with the given tag.
pub open spec fn with_tag(env: Env, at: Progress, path: Seq<Seq<char>>, tag: u64) -> Progress {
    let key = dot_join(path.push("tag"@));
    Progress {
        params: assigned(at.params, env.names_at(key), tag as u128),
        tagged: at.tagged.insert(key),
        ..at
    }
}

/// The fields from `i` on of a struct.
pub open spec fn walk_fields(
    env: Env,
    depth: nat,
    at: Progress,
    fields: Seq<ResolvedField>,
    i: int,
    packed: bool,
    cursor: usize,
    path: Seq<Seq<char>>,
    scopes: Seq<Seq<char>>,
    data: Seq<u8>,
) -> Walk<(Progress, usize)>
    decreases depth, fields, 0nat, fields.len() - i,
{
    if i < 0 || i >= fields.len() {
        Walk::Done((at, cursor))
    } else {
        let field = fields[i];
        match field_start(env, field, packed, cursor, data.len()) {
            Outcome::Failed(failure) => stopped(at, path, failure),
            Outcome::Undefined => Walk::Undefined,
            Outcome::Done(start) => match walk_field(
                env,
                depth,
                at,
                field.field_type,
                path.push(field.name@),
                scopes,
                data.skip(start as int),
                i + 1 == fields.len(),
            ) {
                Walk::Failed(stop) => Walk::Failed(stop),
                Walk::Undefined => Walk::Undefined,
                Walk::Done((next, size)) => if start + size > usize::MAX {
                    stopped(next, path, env.unsupported(field.name@, "alignment overflow"@))
                } else {
                    walk_fields(
                        env,
                        depth,
                        next,
                        fields,
                        i + 1,
                        packed,
                        (start + size) as usize,
                        path,
                        scopes,
                        data,
                    )
                },
            },
        }
    }
}

/// A walk over a struct, which is the innermost scope for its fields.
pub open spec fn walk_struct(
    env: Env,
    depth: nat,
    at: Progress,
    ty: ResolvedType,
    path: Seq<Seq<char>>,
    scopes: Seq<Seq<char>>,
    data: Seq<u8>,
) -> Walk<(Progress, usize)>
    decreases depth, ty, 1nat, 0int,
{
    match ty.kind {
        ResolvedTypeKind::Struct { fields, packed, custom_alignment } => match walk_fields(
            env,
            depth,
            at,
            fields@,
            0,
            packed,
            0,
            path,
            scopes.push(dot_join(path)),
            data,
        ) {
            Walk::Failed(stop) => Walk::Failed(stop),
            Walk::Undefined => Walk::Undefined,
            Walk::Done((next, cursor)) => {
                let alignment = match custom_alignment {
                    Some(alignment) => alignment,
                    None => ty.alignment,
                };
                match struct_end(env, packed, alignment, cursor) {
                    Outcome::Failed(failure) => stopped(next, path, failure),
                    Outcome::Undefined => Walk::Undefined,
                    Outcome::Done(end) => Walk::Done((next, end)),
                }
            },
        },
        _ => stopped(
            at,
            path,
            env.unsupported("<struct>"@, "expected struct type for parameter extraction"@),
        ),
    }
}

/// The elements from `i` on of an array whose elements differ in size.
pub open spec fn walk_jagged(
    env: Env,
    depth: nat,
    at: Progress,
    element_type: ResolvedType,
    i: usize,
    count: usize,
    cursor: usize,
    path: Seq<Seq<char>>,
    scopes: Seq<Seq<char>>,
    data: Seq<u8>,
) -> Walk<(Progress, usize)>
    decreases depth, element_type, 3nat, count - i,
{
    if i >= count {
        Walk::Done((at, cursor))
    } else if cursor > data.len() {
        stopped(at, path, env.shortage(cursor as nat))
    } else {
        match walk_field(
            env,
            depth,
            at,
            element_type,
            element_path(path, i),
            scopes,
            data.skip(cursor as int),
            false,
        ) {
            Walk::Failed(stop) => Walk::Failed(stop),
            Walk::Undefined => Walk::Undefined,
            Walk::Done((next, size)) => if cursor + size > usize::MAX {
                stopped(next, path, env.unsupported(dot_join(path), "jagged array size overflowed"@))
            } else {
                walk_jagged(
                    env,
                    depth,
                    next,
                    element_type,
                    (i + 1) as usize,
                    count,
                    (cursor + size) as usize,
                    path,
                    scopes,
                    data,
                )
            },
        }
    }
}

/// The elements from `i` on of an array of composite values, each `size` bytes wide.
pub open spec fn walk_elements(
    env: Env,
    depth: nat,
    at: Progress,
    element_type: ResolvedType,
    i: usize,
    count: usize,
    size: usize,
    path: Seq<Seq<char>>,
    scopes: Seq<Seq<char>>,
    data: Seq<u8>,
) -> Walk<Progress>
    decreases depth, element_type, 3nat, count - i,
{
    if i >= count {
        Walk::Done(at)
    } else {
        match walk_field(
            env,
            depth,
            at,
            element_type,
            element_path(path, i),
            scopes,
            data.subrange(i * size, i * size + size),
            false,
        ) {
            Walk::Failed(stop) => Walk::Failed(stop),
            Walk::Undefined => Walk::Undefined,
            Walk::Done((next, _)) => walk_elements(
                env,
                depth,
                next,
                element_type,
                (i + 1) as usize,
                count,
                size,
                path,
                scopes,
                data,
            ),
        }
    }
}

/// A walk over `count` elements of an array.
pub open spec fn walk_array(
    env: Env,
    depth: nat,
    at: Progress,
    element_type: ResolvedType,
    jagged: bool,
    count: usize,
    path: Seq<Seq<char>>,
    scopes: Seq<Seq<char>>,
    data: Seq<u8>,
) -> Walk<(Progress, usize)>
    decreases depth, element_type, 4nat, 0int,
{
    if element_type.size == Size::Const(0) || count == 0 {
        Walk::Done((at, 0))
    } else {
        match element_type.size {
            Size::Variable => if jagged {
                walk_jagged(env, depth, at, element_type, 0, count, 0, path, scopes, data)
            } else {
                stopped(
                    at,
                    path,
                    env.unsupported(
                        dot_join(path),
                        "arrays with variable-sized elements are not supported yet"@,
                    ),
                )
            },
            Size::Const(value) => {
                let size = value as usize;
                if size * count > usize::MAX {
                    stopped(at, path, env.unsupported(dot_join(path), "array size overflowed"@))
                } else if size * count > data.len() {
                    stopped(at, path, env.shortage((size * count) as nat))
                } else {
                    let walked = match element_type.kind {
                        ResolvedTypeKind::Primitive { prim_type } => walk_primitives(
                            env,
                            at,
                            prim_type,
                            0,
                            count,
                            size,
                            path,
                            data,
                        ),
                        _ => walk_elements(
                            env,
                            depth,
                            at,
                            element_type,
                            0,
                            count,
                            size,
                            path,
                            scopes,
                            data,
                        ),
                    };
                    match walked {
                        Walk::Failed(stop) => Walk::Failed(stop),
                        Walk::Undefined => Walk::Undefined,
                        Walk::Done(next) => Walk::Done((next, (size * count) as usize)),
                    }
                }
            },
        }
    }
}

/// A walk over the variant of an enum that the tag chooses.
pub open spec fn walk_variant(
    env: Env,
    depth: nat,
    at: Progress,
    variants: Seq<ResolvedEnumVariant>,
    tag: u64,
    path: Seq<Seq<char>>,
    scopes: Seq<Seq<char>>,
    data: Seq<u8>,
) -> Walk<(Progress, usize)>
    decreases depth, variants, 0nat, 0int,
{
    if exists|i: int| first_variant(variants, tag, i) {
        let i = choose|i: int| first_variant(variants, tag, i);
        walk_field(
            env,
            depth,
            with_tag(env, at, path, tag),
            variants[i].variant_type,
            path,
            scopes,
            data,
            false,
        )
    } else {
        stopped(
            at,
            path,
            env.unsupported(
                dot_join(path),
                "enum tag value "@ + decimal(tag as nat) + " not found"@,
            ),
        )
    }
}

/// A walk over the field at `path`, which `data` begins with: what is known behind it, and how many
/// bytes it takes. References to types are followed at most `depth` levels deep.
pub open spec fn walk_field(
    env: Env,
    depth: nat,
    at: Progress,
    ty: ResolvedType,
    path: Seq<Seq<char>>,
    scopes: Seq<Seq<char>>,
    data: Seq<u8>,
    last: bool,
) -> Walk<(Progress, usize)>
    decreases depth, ty, 2nat, 0int,
{
    match ty.kind {
        ResolvedTypeKind::TypeRef { target_name } => if !env.types.contains_key(target_name@) {
            stopped(at, path, env.unsupported(target_name@, "type reference target not found"@))
        } else if depth == 0 {
            Walk::Undefined
        } else {
            walk_field(
                env,
                (depth - 1) as nat,
                at,
                env.types[target_name@],
                path,
                scopes,
                data,
                last,
            )
        },
        ResolvedTypeKind::Primitive { prim_type } => with_tail(
            walk_primitive(env, at, prim_type, path, data),
            path,
            last,
        ),
        ResolvedTypeKind::Struct { .. } => with_tail(
            walk_struct(env, depth, at, ty, path, scopes, data),
            path,
            last,
        ),
        ResolvedTypeKind::Array { element_type, size_expression, jagged } => match count_value(
            env,
            at.values,
            scopes,
            size_expression,
        ) {
            Outcome::Failed(failure) => stopped(at, path, failure),
            Outcome::Undefined => Walk::Undefined,
            Outcome::Done(count) => with_tail(
                walk_array(
                    env,
                    depth,
                    at,
                    *element_type,
                    jagged,
                    count as usize,
                    path,
                    scopes,
                    data,
                ),
                path,
                last,
            ),
        },
        ResolvedTypeKind::Enum { tag_expression, variants } => match count_value(
            env,
            at.values,
            scopes,
            tag_expression,
        ) {
            Outcome::Failed(failure) => stopped(at, path, failure),
            Outcome::Undefined => Walk::Undefined,
            Outcome::Done(tag) => with_tail(
                walk_variant(env, depth, at, variants@, tag as u64, path, scopes, data),
                path,
                last,
            ),
        },
        ResolvedTypeKind::SizeDiscriminatedUnion { .. } => with_tail(
            walk_sdu(env, at, path, data, last),
            path,
            last,
        ),
        ResolvedTypeKind::Union { .. } => with_tail(
            walk_union(env, at, ty.size, path, data),
            path,
            last,
        ),
    }
}

/// The parameters that a finished walk has found: a failure while any still waits
/// for a size, which names the first of those.
pub open spec fn finished(env: Env, at: Progress) -> Outcome<Map<Seq<char>, u128>> {
    if at.pending == Map::<Seq<char>, Seq<char>>::empty() {
        Outcome::Done(at.params)
    } else {
        let missing = choose|name: Seq<char>| is_least(at.pending.dom(), name);
        Outcome::Failed(env.unsupported(missing, "payload size could not be determined"@))
    }
}

/// Nothing known yet, with the parameters in `pending` waiting for a size.
pub open spec fn unstarted(pending: Map<Seq<char>, Seq<char>>) -> Progress {
    Progress { params: Map::empty(), values: Map::empty(), pending, tagged: Set::empty() }
}

/// A walk over all of `data`, laid out as the struct `ty`.
pub open spec fn walk_root(
    env: Env,
    depth: nat,
    ty: ResolvedType,
    pending: Map<Seq<char>, Seq<char>>,
    data: Seq<u8>,
) -> Walk<(Progress, usize)> {
    walk_struct(env, depth, unstarted(pending), ty, Seq::empty(), seq![Seq::empty()], data)
}

/// The parameters of `data`, laid out as the struct `ty`.
pub open spec fn extraction(
    env: Env,
    depth: nat,
    ty: ResolvedType,
    pending: Map<Seq<char>, Seq<char>>,
    data: Seq<u8>,
) -> Outcome<Map<Seq<char>, u128>> {
    match walk_root(env, depth, ty, pending, data) {
        Walk::Failed(stop) => Outcome::Failed(stop.failure),
        Walk::Undefined => Outcome::Undefined,
        Walk::Done((at, _)) => finished(env, at),
    }
}

} // verus!
