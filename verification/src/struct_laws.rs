//! What holds of the ends of structs.

use vstd::arithmetic::power2::pow2;
use vstd::prelude::*;

use crate::errors::Outcome;
use crate::model::{field_start, walk_field, walk_fields, walk_struct, Env, Progress, Walk};
use crate::primitives::{aligned, aligned_is_next_multiple, usable_alignment};
use crate::schema::{ResolvedField, ResolvedType, ResolvedTypeKind};
use crate::text::dot_join;

verus! {

/// How many bytes each of the fields from `i` on takes, as far as the walk over them comes.
pub open spec fn field_sizes(
    env: Env,
    depth: nat,
    at: Progress,
    fields: Seq<ResolvedField>,
    i: int,
    packed: bool,
    cursor: usize,
    path: Seq<Seq<char>>,
    scopes: Seq<Seq<char>>,
    data: Seq<u8>,
) -> Seq<usize>
    decreases fields.len() - i,
{
    if i < 0 || i >= fields.len() {
        Seq::empty()
    } else {
        let field = fields[i];
        match field_start(env, field, packed, cursor, data.len()) {
            Outcome::Done(start) => match walk_field(
                env,
                depth,
                at,
                field.field_type,
                path.push(field.name@),
                scopes,
                data.skip(start as int),
                i + 1 == fields.len(),
            ) {
                Walk::Done((next, size)) => seq![size] + field_sizes(
                    env,
                    depth,
                    next,
                    fields,
                    i + 1,
                    packed,
                    (start + size) as usize,
                    path,
                    scopes,
                    data,
                ),
                _ => Seq::empty(),
            },
            _ => Seq::empty(),
        }
    }
}

/// The sum of `sizes`.
pub open spec fn total(sizes: Seq<usize>) -> nat
    decreases sizes.len(),
{
    if sizes.len() == 0 {
        0
    } else {
        sizes[0] as nat + total(sizes.drop_first())
    }
}

/// The alignment of the end of a struct.
pub open spec fn end_alignment(ty: ResolvedType) -> u64 {
    match ty.kind {
        ResolvedTypeKind::Struct { custom_alignment: Some(alignment), .. } => alignment,
        _ => ty.alignment,
    }
}

/// Aligning moves an offset up, if at all.
proof fn lemma_aligned_upwards(offset: usize, alignment: u64)
    requires
        usable_alignment(alignment),
    ensures
        aligned(offset, alignment) matches Some(start) ==> start >= offset,
        offset == 0 ==> aligned(offset, alignment) == Some(0usize),
{
    if alignment > 1 {
        let mask = (alignment as usize - 1) as usize;
        let rest = offset & mask;
        assert(rest <= mask) by (bit_vector)
            requires
                rest == offset & mask,
        ;
        assert(0usize & mask == 0) by (bit_vector);
    }
}

proof fn lemma_fields_end(
    env: Env,
    depth: nat,
    at: Progress,
    fields: Seq<ResolvedField>,
    i: int,
    packed: bool,
    cursor: usize,
    path: Seq<Seq<char>>,
    scopes: Seq<Seq<char>>,
    data: Seq<u8>,
)
    requires
        0 <= i <= fields.len(),
    ensures
        walk_fields(env, depth, at, fields, i, packed, cursor, path, scopes, data) matches Walk::Done(
            (_, end),
        ) ==> {
            let sizes = field_sizes(env, depth, at, fields, i, packed, cursor, path, scopes, data);
            &&& sizes.len() == fields.len() - i
            &&& end >= cursor + total(sizes)
            &&& packed ==> end == cursor + total(sizes)
        },
    decreases fields.len() - i,
{
    if i < fields.len() {
        let field = fields[i];
        if let Outcome::Done(start) = field_start(env, field, packed, cursor, data.len()) {
            if !packed {
                lemma_aligned_upwards(cursor, field.field_type.alignment);
            }
            if let Walk::Done((next, size)) = walk_field(
                env,
                depth,
                at,
                field.field_type,
                path.push(field.name@),
                scopes,
                data.skip(start as int),
                i + 1 == fields.len(),
            ) {
                let after = (start + size) as usize;
                lemma_fields_end(
                    env,
                    depth,
                    next,
                    fields,
                    i + 1,
                    packed,
                    after,
                    path,
                    scopes,
                    data,
                );
                let rest = field_sizes(
                    env,
                    depth,
                    next,
                    fields,
                    i + 1,
                    packed,
                    after,
                    path,
                    scopes,
                    data,
                );
                assert((seq![size] + rest).drop_first() =~= rest);
            }
        }
    }
}

/// A packed struct takes as many bytes as its fields together. Any other takes no fewer, and a
/// multiple of its alignment where that is a power of two. Without fields it takes none.
pub proof fn structs_end_behind_their_fields(
    env: Env,
    depth: nat,
    at: Progress,
    ty: ResolvedType,
    path: Seq<Seq<char>>,
    scopes: Seq<Seq<char>>,
    data: Seq<u8>,
    n: nat,
)
    requires
        n < usize::BITS,
    ensures
        ty.kind matches ResolvedTypeKind::Struct { fields, packed, .. } ==> (walk_struct(
            env,
            depth,
            at,
            ty,
            path,
            scopes,
            data,
        ) matches Walk::Done((_, end)) ==> {
            let sizes = field_sizes(
                env,
                depth,
                at,
                fields@,
                0,
                packed,
                0,
                path,
                scopes.push(dot_join(path)),
                data,
            );
            &&& sizes.len() == fields@.len()
            &&& end >= total(sizes)
            &&& packed ==> end == total(sizes)
            &&& !packed && end_alignment(ty) == pow2(n) ==> end as int % end_alignment(ty) as int
                == 0
            &&& fields@.len() == 0 ==> end == 0
        }),
{
    if let ResolvedTypeKind::Struct { fields, packed, .. } = ty.kind {
        let inner = scopes.push(dot_join(path));
        lemma_fields_end(env, depth, at, fields@, 0, packed, 0, path, inner, data);
        if let Walk::Done((_, cursor)) = walk_fields(
            env,
            depth,
            at,
            fields@,
            0,
            packed,
            0,
            path,
            inner,
            data,
        ) {
            let alignment = end_alignment(ty);
            if !packed && usable_alignment(alignment) {
                lemma_aligned_upwards(cursor, alignment);
                if alignment == pow2(n) {
                    aligned_is_next_multiple(cursor, alignment, n);
                }
            }
        }
    }
}

/// The two fields differ in nothing but the offsets that they declare.
pub open spec fn same_but_offset(a: ResolvedField, b: ResolvedField) -> bool {
    a.name@ == b.name@ && a.field_type == b.field_type
}

proof fn lemma_offsets_unread(
    env: Env,
    depth: nat,
    at: Progress,
    a: Seq<ResolvedField>,
    b: Seq<ResolvedField>,
    i: int,
    packed: bool,
    cursor: usize,
    path: Seq<Seq<char>>,
    scopes: Seq<Seq<char>>,
    data: Seq<u8>,
)
    requires
        0 <= i <= a.len(),
        a.len() == b.len(),
        forall|k: int| 0 <= k < a.len() ==> same_but_offset(#[trigger] a[k], b[k]),
    ensures
        walk_fields(env, depth, at, a, i, packed, cursor, path, scopes, data) == walk_fields(
            env,
            depth,
            at,
            b,
            i,
            packed,
            cursor,
            path,
            scopes,
            data,
        ),
    decreases a.len() - i,
{
    if i < a.len() {
        assert(same_but_offset(a[i], b[i]));
        if let Outcome::Done(start) = field_start(env, a[i], packed, cursor, data.len()) {
            if let Walk::Done((next, size)) = walk_field(
                env,
                depth,
                at,
                a[i].field_type,
                path.push(a[i].name@),
                scopes,
                data.skip(start as int),
                i + 1 == a.len(),
            ) {
                lemma_offsets_unread(
                    env,
                    depth,
                    next,
                    a,
                    b,
                    i + 1,
                    packed,
                    (start + size) as usize,
                    path,
                    scopes,
                    data,
                );
            }
        }
    }
}

/// The offsets that fields declare make no difference to a walk over their struct.
pub proof fn declared_offsets_are_immaterial(
    env: Env,
    depth: nat,
    at: Progress,
    ty: ResolvedType,
    other: ResolvedType,
    path: Seq<Seq<char>>,
    scopes: Seq<Seq<char>>,
    data: Seq<u8>,
)
    requires
        ty.alignment == other.alignment,
        ty.kind matches ResolvedTypeKind::Struct { fields: a, packed: p, custom_alignment: c } && (
        other.kind matches ResolvedTypeKind::Struct { fields: b, packed: q, custom_alignment: d }
            && {
            &&& p == q
            &&& c == d
            &&& a@.len() == b@.len()
            &&& forall|k: int| 0 <= k < a@.len() ==> same_but_offset(#[trigger] a@[k], b@[k])
        }),
    ensures
        walk_struct(env, depth, at, ty, path, scopes, data) == walk_struct(
            env,
            depth,
            at,
            other,
            path,
            scopes,
            data,
        ),
{
    if let ResolvedTypeKind::Struct { fields: a, packed, .. } = ty.kind {
        if let ResolvedTypeKind::Struct { fields: b, .. } = other.kind {
            lemma_offsets_unread(
                env,
                depth,
                at,
                a@,
                b@,
                0,
                packed,
                0,
                path,
                scopes.push(dot_join(path)),
                data,
            );
        }
    }
}

} // verus!
