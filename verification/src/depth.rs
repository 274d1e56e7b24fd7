//! How deep type references have to be followed, and for which types extraction is defined.

use vstd::prelude::*;

use crate::bounds::{always_valued, ranged, values_lie_within_bounds};
use crate::errors::Outcome;
use crate::invariants::{kept, lemma_field_keeps};
use crate::model::{
    count_value, element_path, extraction, field_start, first_variant, unstarted, walk_array,
    walk_elements, walk_field, walk_fields, walk_jagged, walk_primitives, walk_struct, walk_variant,
    with_integral, with_tag, Env, Progress, Walk,
};
use crate::primitives::{integral_value, usable_alignment, width};
use crate::schema::{
    PrimitiveType, ResolvedEnumVariant, ResolvedField, ResolvedType, ResolvedTypeKind, Size,
};
use crate::text::dot_join;

verus! {

/// `wider` is `narrow`, wherever that is defined.
pub open spec fn refines<T>(narrow: Outcome<T>, wider: Outcome<T>) -> bool {
    narrow !is Undefined ==> wider == narrow
}

/// `wider` is `narrow` wherever that is defined, and also where the depth is `enough`; and where
/// all is `sure`, `narrow` is defined.
spec fn settles<T>(narrow: Walk<T>, wider: Walk<T>, enough: bool, sure: bool) -> bool {
    &&& narrow !is Undefined ==> wider == narrow
    &&& enough ==> wider == narrow
    &&& sure ==> narrow !is Undefined
}

/// The references that `ty` leads along are nested at most `depth` levels deep.
pub open spec fn nests_within(
    types: Map<Seq<char>, ResolvedType>,
    ty: ResolvedType,
    depth: nat,
) -> bool
    decreases depth, ty,
{
    match ty.kind {
        ResolvedTypeKind::TypeRef { target_name } => types.contains_key(target_name@) ==> depth > 0
            && nests_within(types, types[target_name@], (depth - 1) as nat),
        ResolvedTypeKind::Struct { fields, .. } => forall|i: int|
            0 <= i < fields@.len() ==> nests_within(
                types,
                (#[trigger] fields@[i]).field_type,
                depth,
            ),
        ResolvedTypeKind::Array { element_type, .. } => nests_within(types, *element_type, depth),
        ResolvedTypeKind::Enum { variants, .. } => forall|i: int|
            0 <= i < variants@.len() ==> nests_within(
                types,
                (#[trigger] variants@[i]).variant_type,
                depth,
            ),
        _ => true,
    }
}

/// Elements of the given type and size hold what is read from them.
pub open spec fn wide_enough(element_type: ResolvedType) -> bool {
    match (element_type.kind, element_type.size) {
        (
            ResolvedTypeKind::Primitive { prim_type: PrimitiveType::Integral(int_type) },
            Size::Const(value),
        ) => value == 0 || value as usize >= width(PrimitiveType::Integral(int_type)),
        _ => true,
    }
}

/// The alignments of a struct and its fields can be used, where they count.
pub open spec fn alignable(ty: ResolvedType) -> bool {
    match ty.kind {
        ResolvedTypeKind::Struct { fields, packed: false, custom_alignment } => {
            &&& match custom_alignment {
                Some(alignment) => usable_alignment(alignment),
                None => usable_alignment(ty.alignment),
            }
            &&& forall|i: int|
                0 <= i < fields@.len() ==> usable_alignment(
                    (#[trigger] fields@[i]).field_type.alignment,
                )
        },
        _ => true,
    }
}

/// Nothing in a walk along `ty` can be undefined when references are followed `depth` levels deep.
pub open spec fn always_defined(
    types: Map<Seq<char>, ResolvedType>,
    ty: ResolvedType,
    depth: nat,
) -> bool
    decreases depth, ty,
{
    match ty.kind {
        ResolvedTypeKind::TypeRef { target_name } => types.contains_key(target_name@) ==> depth > 0
            && always_defined(types, types[target_name@], (depth - 1) as nat),
        ResolvedTypeKind::Struct { fields, .. } => {
            &&& alignable(ty)
            &&& forall|i: int|
                0 <= i < fields@.len() ==> always_defined(
                    types,
                    (#[trigger] fields@[i]).field_type,
                    depth,
                )
        },
        ResolvedTypeKind::Array { element_type, size_expression, .. } => {
            &&& always_valued(types, size_expression)
            &&& wide_enough(*element_type)
            &&& always_defined(types, *element_type, depth)
        },
        ResolvedTypeKind::Enum { tag_expression, variants } => {
            &&& always_valued(types, tag_expression)
            &&& forall|i: int|
                0 <= i < variants@.len() ==> always_defined(
                    types,
                    (#[trigger] variants@[i]).variant_type,
                    depth,
                )
        },
        _ => true,
    }
}

/// A walk over a field notes only values that a field can hold.
proof fn lemma_field_ranged(
    env: Env,
    depth: nat,
    at: Progress,
    ty: ResolvedType,
    path: Seq<Seq<char>>,
    scopes: Seq<Seq<char>>,
    data: Seq<u8>,
    last: bool,
)
    requires
        ranged(at.values),
        path.len() > 0,
    ensures
        walk_field(env, depth, at, ty, path, scopes, data, last) matches Walk::Done((next, _))
            ==> ranged(next.values),
{
    let inv = |at: Progress| ranged(at.values);
    assert(kept(env, inv));
    lemma_field_keeps(env, inv, depth, at, ty, path, scopes, data, last);
}

proof fn lemma_primitives_defined(
    env: Env,
    at: Progress,
    prim_type: PrimitiveType,
    i: usize,
    count: usize,
    size: usize,
    path: Seq<Seq<char>>,
    data: Seq<u8>,
)
    requires
        prim_type is Integral ==> size >= width(prim_type),
    ensures
        walk_primitives(env, at, prim_type, i, count, size, path, data) !is Undefined,
    decreases count - i,
{
    if i < count {
        if let PrimitiveType::Integral(int_type) = prim_type {
            if let Walk::Done(next) = with_integral(
                env,
                at,
                element_path(path, i),
                integral_value(int_type, data.subrange(i * size, i * size + size)) as i128,
            ) {
                lemma_primitives_defined(
                    env,
                    next,
                    prim_type,
                    (i + 1) as usize,
                    count,
                    size,
                    path,
                    data,
                );
            }
        }
    }
}

proof fn lemma_fields_deeper(
    env: Env,
    depth: nat,
    more: nat,
    at: Progress,
    fields: Seq<ResolvedField>,
    i: int,
    packed: bool,
    cursor: usize,
    path: Seq<Seq<char>>,
    scopes: Seq<Seq<char>>,
    data: Seq<u8>,
)
    requires
        depth <= more,
    ensures
        settles(
            walk_fields(env, depth, at, fields, i, packed, cursor, path, scopes, data),
            walk_fields(env, more, at, fields, i, packed, cursor, path, scopes, data),
            forall|k: int|
                0 <= k < fields.len() ==> nests_within(
                    env.types,
                    (#[trigger] fields[k]).field_type,
                    depth,
                ),
            ranged(at.values) && forall|k: int|
                0 <= k < fields.len() ==> {
                    &&& always_defined(env.types, (#[trigger] fields[k]).field_type, depth)
                    &&& packed || usable_alignment(fields[k].field_type.alignment)
                },
        ),
    decreases depth, fields, 0nat, fields.len() - i,
{
    if 0 <= i < fields.len() {
        let field = fields[i];
        if let Outcome::Done(start) = field_start(env, field, packed, cursor, data.len()) {
            let place = path.push(field.name@);
            let rest = data.skip(start as int);
            let last = i + 1 == fields.len();
            lemma_field_deeper(
                env,
                depth,
                more,
                at,
                field.field_type,
                place,
                scopes,
                rest,
                last,
            );
            if let Walk::Done((next, size)) = walk_field(
                env,
                depth,
                at,
                field.field_type,
                place,
                scopes,
                rest,
                last,
            ) {
                if ranged(at.values) {
                    lemma_field_ranged(
                        env,
                        depth,
                        at,
                        field.field_type,
                        place,
                        scopes,
                        rest,
                        last,
                    );
                }
                lemma_fields_deeper(
                    env,
                    depth,
                    more,
                    next,
                    fields,
                    i + 1,
                    packed,
                    (start + size) as usize,
                    path,
                    scopes,
                    data,
                );
            }
        }
    }
}

proof fn lemma_struct_deeper(
    env: Env,
    depth: nat,
    more: nat,
    at: Progress,
    ty: ResolvedType,
    path: Seq<Seq<char>>,
    scopes: Seq<Seq<char>>,
    data: Seq<u8>,
)
    requires
        depth <= more,
    ensures
        settles(
            walk_struct(env, depth, at, ty, path, scopes, data),
            walk_struct(env, more, at, ty, path, scopes, data),
            nests_within(env.types, ty, depth),
            ranged(at.values) && always_defined(env.types, ty, depth),
        ),
    decreases depth, ty, 1nat, 0int,
{
    match ty.kind {
        ResolvedTypeKind::Struct { fields, packed, .. } => {
            lemma_fields_deeper(
                env,
                depth,
                more,
                at,
                fields@,
                0,
                packed,
                0,
                path,
                scopes.push(dot_join(path)),
                data,
            );
        },
        _ => {},
    }
}

proof fn lemma_jagged_deeper(
    env: Env,
    depth: nat,
    more: nat,
    at: Progress,
    element_type: ResolvedType,
    i: usize,
    count: usize,
    cursor: usize,
    path: Seq<Seq<char>>,
    scopes: Seq<Seq<char>>,
    data: Seq<u8>,
)
    requires
        depth <= more,
    ensures
        settles(
            walk_jagged(env, depth, at, element_type, i, count, cursor, path, scopes, data),
            walk_jagged(env, more, at, element_type, i, count, cursor, path, scopes, data),
            nests_within(env.types, element_type, depth),
            ranged(at.values) && always_defined(env.types, element_type, depth),
        ),
    decreases depth, element_type, 3nat, count - i,
{
    if i < count && cursor <= data.len() {
        let place = element_path(path, i);
        let rest = data.skip(cursor as int);
        lemma_field_deeper(env, depth, more, at, element_type, place, scopes, rest, false);
        if let Walk::Done((next, size)) = walk_field(
            env,
            depth,
            at,
            element_type,
            place,
            scopes,
            rest,
            false,
        ) {
            if ranged(at.values) {
                lemma_field_ranged(env, depth, at, element_type, place, scopes, rest, false);
            }
            lemma_jagged_deeper(
                env,
                depth,
                more,
                next,
                element_type,
                (i + 1) as usize,
                count,
                (cursor + size) as usize,
                path,
                scopes,
                data,
            );
        }
    }
}

proof fn lemma_elements_deeper(
    env: Env,
    depth: nat,
    more: nat,
    at: Progress,
    element_type: ResolvedType,
    i: usize,
    count: usize,
    size: usize,
    path: Seq<Seq<char>>,
    scopes: Seq<Seq<char>>,
    data: Seq<u8>,
)
    requires
        depth <= more,
    ensures
        settles(
            walk_elements(env, depth, at, element_type, i, count, size, path, scopes, data),
            walk_elements(env, more, at, element_type, i, count, size, path, scopes, data),
            nests_within(env.types, element_type, depth),
            ranged(at.values) && always_defined(env.types, element_type, depth),
        ),
    decreases depth, element_type, 3nat, count - i,
{
    if i < count {
        let place = element_path(path, i);
        let element = data.subrange(i * size, i * size + size);
        lemma_field_deeper(env, depth, more, at, element_type, place, scopes, element, false);
        if let Walk::Done((next, _)) = walk_field(
            env,
            depth,
            at,
            element_type,
            place,
            scopes,
            element,
            false,
        ) {
            if ranged(at.values) {
                lemma_field_ranged(env, depth, at, element_type, place, scopes, element, false);
            }
            lemma_elements_deeper(
                env,
                depth,
                more,
                next,
                element_type,
                (i + 1) as usize,
                count,
                size,
                path,
                scopes,
                data,
            );
        }
    }
}

proof fn lemma_array_deeper(
    env: Env,
    depth: nat,
    more: nat,
    at: Progress,
    element_type: ResolvedType,
    jagged: bool,
    count: usize,
    path: Seq<Seq<char>>,
    scopes: Seq<Seq<char>>,
    data: Seq<u8>,
)
    requires
        depth <= more,
    ensures
        settles(
            walk_array(env, depth, at, element_type, jagged, count, path, scopes, data),
            walk_array(env, more, at, element_type, jagged, count, path, scopes, data),
            nests_within(env.types, element_type, depth),
            ranged(at.values) && wide_enough(element_type) && always_defined(env.types, element_type, depth),
        ),
    decreases depth, element_type, 4nat, 0int,
{
    match element_type.size {
        Size::Variable => {
            lemma_jagged_deeper(
                env,
                depth,
                more,
                at,
                element_type,
                0,
                count,
                0,
                path,
                scopes,
                data,
            );
        },
        Size::Const(value) => {
            if let ResolvedTypeKind::Primitive { prim_type } = element_type.kind {
                if wide_enough(element_type) && value > 0 {
                    lemma_primitives_defined(
                        env,
                        at,
                        prim_type,
                        0,
                        count,
                        value as usize,
                        path,
                        data,
                    );
                }
            }
            lemma_elements_deeper(
                env,
                depth,
                more,
                at,
                element_type,
                0,
                count,
                value as usize,
                path,
                scopes,
                data,
            );
        },
    }
}

proof fn lemma_variant_deeper(
    env: Env,
    depth: nat,
    more: nat,
    at: Progress,
    variants: Seq<ResolvedEnumVariant>,
    tag: u64,
    path: Seq<Seq<char>>,
    scopes: Seq<Seq<char>>,
    data: Seq<u8>,
)
    requires
        depth <= more,
    ensures
        settles(
            walk_variant(env, depth, at, variants, tag, path, scopes, data),
            walk_variant(env, more, at, variants, tag, path, scopes, data),
            forall|k: int|
                0 <= k < variants.len() ==> nests_within(
                    env.types,
                    (#[trigger] variants[k]).variant_type,
                    depth,
                ),
            ranged(at.values) && forall|k: int|
                0 <= k < variants.len() ==> always_defined(
                    env.types,
                    (#[trigger] variants[k]).variant_type,
                    depth,
                ),
        ),
    decreases depth, variants, 0nat, 0int,
{
    if exists|i: int| first_variant(variants, tag, i) {
        let i = choose|i: int| first_variant(variants, tag, i);
        lemma_field_deeper(
            env,
            depth,
            more,
            with_tag(env, at, path, tag),
            variants[i].variant_type,
            path,
            scopes,
            data,
            false,
        );
    }
}

proof fn lemma_field_deeper(
    env: Env,
    depth: nat,
    more: nat,
    at: Progress,
    ty: ResolvedType,
    path: Seq<Seq<char>>,
    scopes: Seq<Seq<char>>,
    data: Seq<u8>,
    last: bool,
)
    requires
        depth <= more,
    ensures
        settles(
            walk_field(env, depth, at, ty, path, scopes, data, last),
            walk_field(env, more, at, ty, path, scopes, data, last),
            nests_within(env.types, ty, depth),
            ranged(at.values) && always_defined(env.types, ty, depth),
        ),
    decreases depth, ty, 2nat, 0int,
{
    match ty.kind {
        ResolvedTypeKind::TypeRef { target_name } => {
            if env.types.contains_key(target_name@) && depth > 0 {
                lemma_field_deeper(
                    env,
                    (depth - 1) as nat,
                    (more - 1) as nat,
                    at,
                    env.types[target_name@],
                    path,
                    scopes,
                    data,
                    last,
                );
            }
        },
        ResolvedTypeKind::Struct { .. } => {
            lemma_struct_deeper(env, depth, more, at, ty, path, scopes, data);
        },
        ResolvedTypeKind::Array { element_type, size_expression, jagged } => {
            if ranged(at.values) {
                values_lie_within_bounds(env, at.values, scopes, size_expression);
            }
            if let Outcome::Done(count) = count_value(env, at.values, scopes, size_expression) {
                lemma_array_deeper(
                    env,
                    depth,
                    more,
                    at,
                    *element_type,
                    jagged,
                    count as usize,
                    path,
                    scopes,
                    data,
                );
            }
        },
        ResolvedTypeKind::Enum { tag_expression, variants } => {
            if ranged(at.values) {
                values_lie_within_bounds(env, at.values, scopes, tag_expression);
            }
            if let Outcome::Done(tag) = count_value(env, at.values, scopes, tag_expression) {
                lemma_variant_deeper(
                    env,
                    depth,
                    more,
                    at,
                    variants@,
                    tag as u64,
                    path,
                    scopes,
                    data,
                );
            }
        },
        _ => {},
    }
}

/// Following type references deeper than needed changes nothing.
pub proof fn depth_is_immaterial(
    env: Env,
    depth: nat,
    more: nat,
    ty: ResolvedType,
    pending: Map<Seq<char>, Seq<char>>,
    data: Seq<u8>,
)
    requires
        depth <= more,
    ensures
        refines(
            extraction(env, depth, ty, pending, data),
            extraction(env, more, ty, pending, data),
        ),
{
    lemma_struct_deeper(
        env,
        depth,
        more,
        unstarted(pending),
        ty,
        Seq::empty(),
        seq![Seq::empty()],
        data,
    );
}

/// Where the references of a type are nested at most `depth` levels deep, following them deeper
/// cannot even define what was undefined: extraction is then undefined for want of a value alone.
pub proof fn nesting_bounds_depth(
    env: Env,
    depth: nat,
    more: nat,
    ty: ResolvedType,
    pending: Map<Seq<char>, Seq<char>>,
    data: Seq<u8>,
)
    requires
        depth <= more,
        nests_within(env.types, ty, depth),
    ensures
        extraction(env, more, ty, pending, data) == extraction(env, depth, ty, pending, data),
{
    lemma_struct_deeper(
        env,
        depth,
        more,
        unstarted(pending),
        ty,
        Seq::empty(),
        seq![Seq::empty()],
        data,
    );
}

/// Extraction along a type in which nothing can be undefined is defined, whatever the data.
pub proof fn extraction_is_defined(
    env: Env,
    depth: nat,
    ty: ResolvedType,
    pending: Map<Seq<char>, Seq<char>>,
    data: Seq<u8>,
)
    requires
        always_defined(env.types, ty, depth),
    ensures
        extraction(env, depth, ty, pending, data) !is Undefined,
{
    lemma_struct_deeper(
        env,
        depth,
        depth,
        unstarted(pending),
        ty,
        Seq::empty(),
        seq![Seq::empty()],
        data,
    );
}

} // verus!
