//! What holds of where the parts of a value lie, and of how a walk goes from one to the next.

use vstd::arithmetic::power2::pow2;
use vstd::prelude::*;

use crate::errors::{Failure, Outcome};
use crate::extractor::{environment, parameters_of};
use crate::mapping::{field_bindings, payload_bindings};
use crate::model::{
    count_value, element_path, field_start, first_variant, walk_array, walk_elements, walk_field,
    walk_fields, walk_jagged, walk_primitives, walk_root, walk_struct, walk_variant, with_integral, with_tag, Env,
    Progress, Stop, Walk,
};
use crate::primitives::{
    aligned, aligned_is_next_multiple, integral_value, integral_width, usable_alignment,
};
use crate::schema::{
    IntegralType, PrimitiveType, ResolvedField, ResolvedType, ResolvedTypeKind, Size, TypeIr,
};
use crate::text::{decimal, dot_join};

verus! {

/// Every alignment that a machine word holds can be used.
pub proof fn machine_words_are_usable_alignments(alignment: u64)
    requires
        alignment <= usize::MAX,
    ensures
        usable_alignment(alignment),
{
    assert(alignment as usize == alignment);
}

/// A field of a packed struct starts where the one before it ends. Any other starts at the first
/// multiple of its alignment from there on, whatever its type is. A start behind the data is a
/// shortage, and one that no machine word holds an overflow.
pub proof fn fields_start_at_multiples_of_their_alignment(
    env: Env,
    field: ResolvedField,
    cursor: usize,
    len: nat,
    n: nat,
)
    requires
        n < usize::BITS,
    ensures
        cursor <= len ==> field_start(env, field, true, cursor, len) == Outcome::Done(cursor),
        cursor > len ==> field_start(env, field, true, cursor, len) == Outcome::<usize>::Failed(
            Failure::TooSmall {
                typename: env.typename,
                required: cursor as nat,
                available: env.available,
            },
        ),
        field.field_type.alignment == pow2(n) ==> match field_start(env, field, false, cursor, len) {
            Outcome::Done(start) => {
                &&& start as int % field.field_type.alignment as int == 0
                &&& cursor <= start < cursor + field.field_type.alignment
                &&& start <= len
            },
            Outcome::Failed(failure) => {
                ||| failure matches Failure::TooSmall { typename, required, available } && {
                    &&& typename == env.typename
                    &&& available == env.available
                    &&& required as int % field.field_type.alignment as int == 0
                    &&& cursor <= required < cursor + field.field_type.alignment
                    &&& required > len
                }
                ||| failure == (Failure::Unsupported {
                    typename: env.typename,
                    parameter: field.name@,
                    reason: "alignment overflow"@,
                }) && (forall|start: int|
                    cursor <= start && #[trigger] (start % field.field_type.alignment as int) == 0
                        ==> start > usize::MAX)
            },
            Outcome::Undefined => false,
        },
{
    if field.field_type.alignment == pow2(n) {
        vstd::bits::lemma_usize_pow2_no_overflow(n);
        machine_words_are_usable_alignments(field.field_type.alignment);
        aligned_is_next_multiple(cursor, field.field_type.alignment, n);
    }
}

/// A field of a struct as a walk finds it.
pub struct Visit {
    /// Where it starts.
    pub start: usize,
    /// How many bytes it takes.
    pub size: usize,
    /// What is known behind it.
    pub after: Progress,
}

/// What is known in front of visit `k`.
pub open spec fn known_before(at: Progress, visits: Seq<Visit>, k: int) -> Progress {
    if k <= 0 {
        at
    } else {
        visits[k - 1].after
    }
}

/// Where the field in front of visit `k` ends.
pub open spec fn end_before(cursor: usize, visits: Seq<Visit>, k: int) -> int {
    if k <= 0 {
        cursor as int
    } else {
        visits[k - 1].start + visits[k - 1].size
    }
}

/// Visit `k` is that of the field at `i + k`: it starts where the packing or its alignment puts it
/// behind the one before, and is walked under its own name with what was known by then, the last
/// field of all as such.
pub open spec fn visit_fits(
    env: Env,
    depth: nat,
    at: Progress,
    fields: Seq<ResolvedField>,
    i: int,
    packed: bool,
    cursor: usize,
    path: Seq<Seq<char>>,
    scopes: Seq<Seq<char>>,
    data: Seq<u8>,
    visits: Seq<Visit>,
    k: int,
) -> bool {
    let end = end_before(cursor, visits, k);
    let field = fields[i + k];
    &&& end <= usize::MAX
    &&& packed ==> visits[k].start == end
    &&& !packed ==> aligned(end as usize, field.field_type.alignment) == Some(visits[k].start)
    &&& visits[k].start <= data.len()
    &&& walk_field(
        env,
        depth,
        known_before(at, visits, k),
        field.field_type,
        path.push(field.name@),
        scopes,
        data.skip(visits[k].start as int),
        i + k + 1 == fields.len(),
    ) == Walk::Done((visits[k].after, visits[k].size))
}

/// The visits are those of the fields from `i` on in order.
pub open spec fn visited(
    env: Env,
    depth: nat,
    at: Progress,
    fields: Seq<ResolvedField>,
    i: int,
    packed: bool,
    cursor: usize,
    path: Seq<Seq<char>>,
    scopes: Seq<Seq<char>>,
    data: Seq<u8>,
    visits: Seq<Visit>,
) -> bool {
    &&& visits.len() <= fields.len() - i
    &&& forall|k: int|
        0 <= k < visits.len() ==> #[trigger] visit_fits(
            env,
            depth,
            at,
            fields,
            i,
            packed,
            cursor,
            path,
            scopes,
            data,
            visits,
            k,
        )
}

/// The field behind the visits, the first that could not be visited, is why the walk stopped: it
/// cannot be placed, starts behind the data, failed itself or ends beyond the machine word.
pub open spec fn stopped_at_next(
    env: Env,
    depth: nat,
    at: Progress,
    fields: Seq<ResolvedField>,
    i: int,
    packed: bool,
    cursor: usize,
    path: Seq<Seq<char>>,
    scopes: Seq<Seq<char>>,
    data: Seq<u8>,
    visits: Seq<Visit>,
    stop: Stop,
) -> bool {
    let m = visits.len() as int;
    let known = known_before(at, visits, m);
    let end = end_before(cursor, visits, m) as usize;
    let field = fields[i + m];
    let overflow = env.unsupported(field.name@, "alignment overflow"@);
    let start = if packed {
        Some(end)
    } else {
        aligned(end, field.field_type.alignment)
    };
    &&& i + m < fields.len()
    &&& end_before(cursor, visits, m) <= usize::MAX
    &&& match start {
        None => stop == (Stop { at: known, path, failure: overflow }),
        Some(start) => if start > data.len() {
            stop == (Stop {
                at: known,
                path,
                failure: Failure::TooSmall {
                    typename: env.typename,
                    required: start as nat,
                    available: env.available,
                },
            })
        } else {
            match walk_field(
                env,
                depth,
                known,
                field.field_type,
                path.push(field.name@),
                scopes,
                data.skip(start as int),
                i + m + 1 == fields.len(),
            ) {
                Walk::Done((after, size)) => start + size > usize::MAX && stop == (Stop {
                    at: after,
                    path,
                    failure: overflow,
                }),
                Walk::Failed(inner) => stop == inner,
                Walk::Undefined => false,
            }
        },
    }
}

proof fn lemma_more_visits(
    env: Env,
    depth: nat,
    at: Progress,
    fields: Seq<ResolvedField>,
    i: int,
    packed: bool,
    cursor: usize,
    path: Seq<Seq<char>>,
    scopes: Seq<Seq<char>>,
    data: Seq<u8>,
    first: Visit,
    rest: Seq<Visit>,
    stop: Stop,
)
    requires
        0 <= i < fields.len(),
        first.start + first.size <= usize::MAX,
        visit_fits(env, depth, at, fields, i, packed, cursor, path, scopes, data, seq![first], 0),
        visited(
            env,
            depth,
            first.after,
            fields,
            i + 1,
            packed,
            (first.start + first.size) as usize,
            path,
            scopes,
            data,
            rest,
        ),
    ensures
        visited(
            env,
            depth,
            at,
            fields,
            i,
            packed,
            cursor,
            path,
            scopes,
            data,
            seq![first] + rest,
        ),
        known_before(at, seq![first] + rest, rest.len() as int + 1) == known_before(
            first.after,
            rest,
            rest.len() as int,
        ),
        end_before(cursor, seq![first] + rest, rest.len() as int + 1) == end_before(
            (first.start + first.size) as usize,
            rest,
            rest.len() as int,
        ),
        stopped_at_next(
            env,
            depth,
            first.after,
            fields,
            i + 1,
            packed,
            (first.start + first.size) as usize,
            path,
            scopes,
            data,
            rest,
            stop,
        ) ==> stopped_at_next(
            env,
            depth,
            at,
            fields,
            i,
            packed,
            cursor,
            path,
            scopes,
            data,
            seq![first] + rest,
            stop,
        ),
{
    let visits = seq![first] + rest;
    let next = (first.start + first.size) as usize;
    let after = first.after;
    assert forall|k: int| 0 < k <= visits.len() implies #[trigger] known_before(at, visits, k)
        == known_before(after, rest, k - 1) && end_before(cursor, visits, k) == end_before(
        next,
        rest,
        k - 1,
    ) by {
        if k > 1 {
            assert(visits[k - 1] == rest[k - 2]);
        } else {
            assert(visits[0] == first);
        }
    }
    assert forall|k: int| 0 <= k < visits.len() implies #[trigger] visit_fits(
        env,
        depth,
        at,
        fields,
        i,
        packed,
        cursor,
        path,
        scopes,
        data,
        visits,
        k,
    ) by {
        if k == 0 {
            assert(visits[0] == seq![first][0]);
        } else {
            assert(visits[k] == rest[k - 1]);
            assert(known_before(at, visits, k) == known_before(after, rest, k - 1));
            assert(fields[i + k] == fields[i + 1 + (k - 1)]);
            assert(visit_fits(
                env,
                depth,
                after,
                fields,
                i + 1,
                packed,
                next,
                path,
                scopes,
                data,
                rest,
                k - 1,
            ));
        }
    }
    let m = rest.len() as int;
    assert(visits.len() == m + 1);
    assert(known_before(at, visits, m + 1) == known_before(after, rest, m));
    assert(i + (m + 1) == i + 1 + m);
}

#[verifier::spinoff_prover]
#[verifier::rlimit(40)]
proof fn lemma_fields_visited(
    env: Env,
    depth: nat,
    at: Progress,
    fields: Seq<ResolvedField>,
    i: int,
    packed: bool,
    cursor: usize,
    path: Seq<Seq<char>>,
    scopes: Seq<Seq<char>>,
    data: Seq<u8>,
) -> (visits: Seq<Visit>)
    requires
        0 <= i <= fields.len(),
    ensures
        walk_fields(env, depth, at, fields, i, packed, cursor, path, scopes, data) !is Undefined
            ==> visited(
            env,
            depth,
            at,
            fields,
            i,
            packed,
            cursor,
            path,
            scopes,
            data,
            visits,
        ),
        walk_fields(env, depth, at, fields, i, packed, cursor, path, scopes, data) matches Walk::Done(
            (next, end),
        ) ==> {
            &&& visits.len() == fields.len() - i
            &&& next == known_before(at, visits, visits.len() as int)
            &&& end == end_before(cursor, visits, visits.len() as int)
        },
        walk_fields(env, depth, at, fields, i, packed, cursor, path, scopes, data) matches
            Walk::Failed(stop) ==> stopped_at_next(
            env,
            depth,
            at,
            fields,
            i,
            packed,
            cursor,
            path,
            scopes,
            data,
            visits,
            stop,
        ),
    decreases fields.len() - i,
{
    let none = Seq::<Visit>::empty();
    let walked = walk_fields(env, depth, at, fields, i, packed, cursor, path, scopes, data);
    if i >= fields.len() {
        none
    } else {
        let field = fields[i];
        match field_start(env, field, packed, cursor, data.len()) {
            Outcome::Done(start) => match walk_field(
                env,
                depth,
                at,
                field.field_type,
                path.push(field.name@),
                scopes,
                data.skip(start as int),
                i + 1 == fields.len(),
            ) {
                Walk::Done((after, size)) => if start + size > usize::MAX {
                    none
                } else {
                    let first = Visit { start, size, after };
                    let next = (start + size) as usize;
                    let rest = lemma_fields_visited(
                        env,
                        depth,
                        after,
                        fields,
                        i + 1,
                        packed,
                        next,
                        path,
                        scopes,
                        data,
                    );
                    let beyond = walk_fields(
                        env,
                        depth,
                        after,
                        fields,
                        i + 1,
                        packed,
                        next,
                        path,
                        scopes,
                        data,
                    );
                    assert(walked == beyond);
                    if walked !is Undefined {
                        assert(visit_fits(
                            env,
                            depth,
                            at,
                            fields,
                            i,
                            packed,
                            cursor,
                            path,
                            scopes,
                            data,
                            seq![first],
                            0,
                        ));
                        lemma_more_visits(
                            env,
                            depth,
                            at,
                            fields,
                            i,
                            packed,
                            cursor,
                            path,
                            scopes,
                            data,
                            first,
                            rest,
                            walked->Failed_0,
                        );
                    }
                    seq![first] + rest
                },
                _ => none,
            },
            _ => none,
        }
    }
}

/// Where a struct whose fields end at `end` ends itself.
pub open spec fn ends_at(packed: bool, alignment: u64, end: int) -> Option<usize> {
    if packed || alignment <= 1 {
        Some(end as usize)
    } else {
        aligned(end as usize, alignment)
    }
}

/// A walk over a struct visits its fields in order, each where the packing or its alignment puts it,
/// with the path of the struct as the innermost scope. It ends behind the last one, moved up to the
/// alignment of the struct unless that is packed.
#[verifier::spinoff_prover]
#[verifier::rlimit(40)]
pub proof fn structs_are_walked_field_by_field(
    env: Env,
    depth: nat,
    at: Progress,
    ty: ResolvedType,
    path: Seq<Seq<char>>,
    scopes: Seq<Seq<char>>,
    data: Seq<u8>,
)
    ensures
        ty.kind matches ResolvedTypeKind::Struct { fields, packed, custom_alignment } ==> {
            let inner = scopes.push(dot_join(path));
            let alignment = match custom_alignment {
                Some(custom) => custom,
                None => ty.alignment,
            };
            match walk_struct(env, depth, at, ty, path, scopes, data) {
                Walk::Done((next, end)) => exists|visits: Seq<Visit>|
                    {
                        let n = fields@.len() as int;
                        &&& #[trigger] visits.len() == n
                        &&& visited(
                            env,
                            depth,
                            at,
                            fields@,
                            0,
                            packed,
                            0,
                            path,
                            inner,
                            data,
                            visits,
                        )
                        &&& next == known_before(at, visits, n)
                        &&& ends_at(packed, alignment, end_before(0, visits, n)) == Some(end)
                    },
                Walk::Failed(stop) => exists|visits: Seq<Visit>|
                    {
                        let m = #[trigger] visits.len() as int;
                        &&& visited(
                            env,
                            depth,
                            at,
                            fields@,
                            0,
                            packed,
                            0,
                            path,
                            inner,
                            data,
                            visits,
                        )
                        &&& {
                            ||| stopped_at_next(
                                env,
                                depth,
                                at,
                                fields@,
                                0,
                                packed,
                                0,
                                path,
                                inner,
                                data,
                                visits,
                                stop,
                            )
                            ||| {
                                &&& m == fields@.len()
                                &&& ends_at(packed, alignment, end_before(0, visits, m)) is None
                                &&& stop == (Stop {
                                    at: known_before(at, visits, m),
                                    path,
                                    failure: env.unsupported("struct"@, "alignment overflow"@),
                                })
                            }
                        }
                    },
                Walk::Undefined => true,
            }
        },
        ty.kind !is Struct ==> walk_struct(env, depth, at, ty, path, scopes, data) == Walk::<
            (Progress, usize),
        >::Failed(
            Stop {
                at,
                path,
                failure: env.unsupported(
                    "<struct>"@,
                    "expected struct type for parameter extraction"@,
                ),
            },
        ),
{
    if let ResolvedTypeKind::Struct { fields, packed, .. } = ty.kind {
        let inner = scopes.push(dot_join(path));
        let visits = lemma_fields_visited(
            env,
            depth,
            at,
            fields@,
            0,
            packed,
            0,
            path,
            inner,
            data,
        );
        assert(visits.len() == visits.len());
    }
}

/// A field that is a struct is walked as such.
pub proof fn struct_fields_are_walked_as_structs(
    env: Env,
    depth: nat,
    at: Progress,
    ty: ResolvedType,
    path: Seq<Seq<char>>,
    scopes: Seq<Seq<char>>,
    data: Seq<u8>,
)
    requires
        ty.kind is Struct,
    ensures
        walk_field(env, depth, at, ty, path, scopes, data, false) == walk_struct(
            env,
            depth,
            at,
            ty,
            path,
            scopes,
            data,
        ),
{
}

/// Being the last field makes one difference to a field of any type but a reference or a union told
/// by its size: the parameters that wait for its size when it has been walked get the very number of
/// bytes that it took, and wait no longer.
pub proof fn last_fields_give_their_size(
    env: Env,
    depth: nat,
    at: Progress,
    ty: ResolvedType,
    path: Seq<Seq<char>>,
    scopes: Seq<Seq<char>>,
    data: Seq<u8>,
    name: Seq<char>,
)
    requires
        ty.kind !is TypeRef,
        ty.kind !is SizeDiscriminatedUnion,
    ensures
        match walk_field(env, depth, at, ty, path, scopes, data, false) {
            Walk::Done((mid, taken)) => walk_field(env, depth, at, ty, path, scopes, data, true)
                matches Walk::Done((next, size)) && {
                let waits = mid.pending.contains_key(name) && mid.pending[name] == dot_join(path);
                &&& size == taken
                &&& waits ==> next.params.contains_key(name) && next.params[name] == taken
                    && !next.pending.contains_key(name)
                &&& !waits ==> {
                    &&& next.params.contains_key(name) <==> mid.params.contains_key(name)
                    &&& next.params.contains_key(name) ==> next.params[name] == mid.params[name]
                    &&& next.pending.contains_key(name) <==> mid.pending.contains_key(name)
                    &&& next.pending.contains_key(name) ==> next.pending[name] == mid.pending[name]
                }
                &&& next.values == mid.values
                &&& next.tagged == mid.tagged
            },
            Walk::Failed(stop) => walk_field(env, depth, at, ty, path, scopes, data, true) == Walk::<
                (Progress, usize),
            >::Failed(stop),
            Walk::Undefined => walk_field(env, depth, at, ty, path, scopes, data, true) is Undefined,
        },
{
}

/// Element `k` of an array with elements of `size` bytes is walked like a field: under its number
/// below the path of the array, with its own bytes and what was known by then.
pub open spec fn element_walk(
    env: Env,
    depth: nat,
    known: Progress,
    element_type: ResolvedType,
    k: int,
    size: usize,
    path: Seq<Seq<char>>,
    scopes: Seq<Seq<char>>,
    data: Seq<u8>,
) -> Walk<(Progress, usize)> {
    walk_field(
        env,
        depth,
        known,
        element_type,
        path.push(decimal(k as nat)),
        scopes,
        data.subrange(k * size, k * size + size),
        false,
    )
}

/// The elements from `i` on are walked one after the other: `states` is what is known in front of the
/// first of them and behind each.
pub open spec fn elements_walked(
    env: Env,
    depth: nat,
    element_type: ResolvedType,
    i: int,
    size: usize,
    path: Seq<Seq<char>>,
    scopes: Seq<Seq<char>>,
    data: Seq<u8>,
    states: Seq<Progress>,
) -> bool {
    forall|k: int| #![trigger states[k]]
        0 <= k < states.len() - 1 ==> (element_walk(
            env,
            depth,
            states[k],
            element_type,
            i + k,
            size,
            path,
            scopes,
            data,
        ) matches Walk::Done((after, _)) && after == states[k + 1])
}

proof fn lemma_more_elements(
    env: Env,
    depth: nat,
    element_type: ResolvedType,
    i: int,
    size: usize,
    path: Seq<Seq<char>>,
    scopes: Seq<Seq<char>>,
    data: Seq<u8>,
    at: Progress,
    rest: Seq<Progress>,
)
    requires
        rest.len() > 0,
        element_walk(env, depth, at, element_type, i, size, path, scopes, data) matches Walk::Done(
            (after, _),
        ) && after == rest[0],
        elements_walked(env, depth, element_type, i + 1, size, path, scopes, data, rest),
    ensures
        elements_walked(
            env,
            depth,
            element_type,
            i,
            size,
            path,
            scopes,
            data,
            seq![at] + rest,
        ),
{
    let states = seq![at] + rest;
    assert forall|k: int| #![trigger states[k]] 0 <= k < states.len() - 1 implies (element_walk(
        env,
        depth,
        states[k],
        element_type,
        i + k,
        size,
        path,
        scopes,
        data,
    ) matches Walk::Done((after, _)) && after == states[k + 1]) by {
        if k > 0 {
            assert(states[k] == rest[k - 1]);
            assert(states[k + 1] == rest[k - 1 + 1]);
            assert(i + 1 + (k - 1) == i + k);
        }
    }
}

#[verifier::spinoff_prover]
#[verifier::rlimit(40)]
proof fn lemma_composites_walked(
    env: Env,
    depth: nat,
    at: Progress,
    element_type: ResolvedType,
    i: usize,
    count: usize,
    size: usize,
    path: Seq<Seq<char>>,
    scopes: Seq<Seq<char>>,
    data: Seq<u8>,
) -> (states: Seq<Progress>)
    requires
        i <= count,
    ensures
        walk_elements(env, depth, at, element_type, i, count, size, path, scopes, data)
            !is Undefined ==> {
            &&& states.len() > 0
            &&& states[0] == at
            &&& elements_walked(
                env,
                depth,
                element_type,
                i as int,
                size,
                path,
                scopes,
                data,
                states,
            )
        },
        walk_elements(env, depth, at, element_type, i, count, size, path, scopes, data) matches
            Walk::Done(next) ==> states.len() == count - i + 1 && states.last() == next,
        walk_elements(env, depth, at, element_type, i, count, size, path, scopes, data) matches
            Walk::Failed(stop) ==> states.len() <= count - i && element_walk(
            env,
            depth,
            states.last(),
            element_type,
            i + states.len() - 1,
            size,
            path,
            scopes,
            data,
        ) == Walk::<(Progress, usize)>::Failed(stop),
    decreases count - i,
{
    if i >= count {
        seq![at]
    } else {
        match element_walk(env, depth, at, element_type, i as int, size, path, scopes, data) {
            Walk::Done((next, _)) => {
                let rest = lemma_composites_walked(
                    env,
                    depth,
                    next,
                    element_type,
                    (i + 1) as usize,
                    count,
                    size,
                    path,
                    scopes,
                    data,
                );
                let beyond = walk_elements(
                    env,
                    depth,
                    next,
                    element_type,
                    (i + 1) as usize,
                    count,
                    size,
                    path,
                    scopes,
                    data,
                );
                assert(walk_elements(
                    env,
                    depth,
                    at,
                    element_type,
                    i,
                    count,
                    size,
                    path,
                    scopes,
                    data,
                ) == beyond);
                if beyond !is Undefined {
                    lemma_more_elements(
                        env,
                        depth,
                        element_type,
                        i as int,
                        size,
                        path,
                        scopes,
                        data,
                        at,
                        rest,
                    );
                    assert((seq![at] + rest).last() == rest.last());
                }
                seq![at] + rest
            },
            _ => seq![at],
        }
    }
}

/// An element of an integral type is recorded like a field of that type.
proof fn lemma_primitive_element(
    env: Env,
    depth: nat,
    at: Progress,
    element_type: ResolvedType,
    int_type: IntegralType,
    i: usize,
    count: usize,
    size: usize,
    path: Seq<Seq<char>>,
    scopes: Seq<Seq<char>>,
    data: Seq<u8>,
    recorded: Walk<Progress>,
)
    requires
        i < count,
        size * count <= data.len(),
        element_type.kind == (ResolvedTypeKind::Primitive {
            prim_type: PrimitiveType::Integral(int_type),
        }),
        size >= integral_width(int_type),
        recorded == with_integral(
            env,
            at,
            element_path(path, i),
            integral_value(int_type, data.subrange(i * size, i * size + size)) as i128,
        ),
    ensures
        recorded !is Undefined,
        element_walk(env, depth, at, element_type, i as int, size, path, scopes, data) == (
        match recorded {
            Walk::Done(next) => Walk::Done((next, integral_width(int_type) as usize)),
            Walk::Failed(stop) => Walk::Failed(stop),
            Walk::Undefined => Walk::Undefined,
        }),
        walk_primitives(
            env,
            at,
            PrimitiveType::Integral(int_type),
            i,
            count,
            size,
            path,
            data,
        ) == (match recorded {
            Walk::Done(next) => walk_primitives(
                env,
                next,
                PrimitiveType::Integral(int_type),
                (i + 1) as usize,
                count,
                size,
                path,
                data,
            ),
            Walk::Failed(stop) => Walk::Failed(stop),
            Walk::Undefined => Walk::Undefined,
        }),
{
    assert(0 <= i * size && i * size + size <= size * count) by (nonlinear_arith)
        requires
            0 <= i < count,
            0 <= size,
    ;
    assert(data.subrange(i * size, i * size + size).len() == size);
}

#[verifier::spinoff_prover]
#[verifier::rlimit(40)]
proof fn lemma_primitives_walked(
    env: Env,
    depth: nat,
    at: Progress,
    element_type: ResolvedType,
    int_type: IntegralType,
    i: usize,
    count: usize,
    size: usize,
    path: Seq<Seq<char>>,
    scopes: Seq<Seq<char>>,
    data: Seq<u8>,
) -> (states: Seq<Progress>)
    requires
        i <= count,
        size * count <= data.len(),
        element_type.kind == (ResolvedTypeKind::Primitive {
            prim_type: PrimitiveType::Integral(int_type),
        }),
        size >= integral_width(int_type),
    ensures
        states.len() > 0,
        states[0] == at,
        elements_walked(env, depth, element_type, i as int, size, path, scopes, data, states),
        match walk_primitives(
            env,
            at,
            PrimitiveType::Integral(int_type),
            i,
            count,
            size,
            path,
            data,
        ) {
            Walk::Done(next) => states.len() == count - i + 1 && states.last() == next,
            Walk::Failed(stop) => states.len() <= count - i && element_walk(
                env,
                depth,
                states.last(),
                element_type,
                i + states.len() - 1,
                size,
                path,
                scopes,
                data,
            ) == Walk::<(Progress, usize)>::Failed(stop),
            Walk::Undefined => false,
        },
    decreases count - i,
{
    if i >= count {
        seq![at]
    } else {
        let recorded = with_integral(
            env,
            at,
            element_path(path, i),
            integral_value(int_type, data.subrange(i * size, i * size + size)) as i128,
        );
        lemma_primitive_element(
            env,
            depth,
            at,
            element_type,
            int_type,
            i,
            count,
            size,
            path,
            scopes,
            data,
            recorded,
        );
        match recorded {
            Walk::Done(next) => {
                let rest = lemma_primitives_walked(
                    env,
                    depth,
                    next,
                    element_type,
                    int_type,
                    (i + 1) as usize,
                    count,
                    size,
                    path,
                    scopes,
                    data,
                );
                lemma_more_elements(
                    env,
                    depth,
                    element_type,
                    i as int,
                    size,
                    path,
                    scopes,
                    data,
                    at,
                    rest,
                );
                assert((seq![at] + rest).last() == rest.last());
                seq![at] + rest
            },
            _ => seq![at],
        }
    }
}

/// The length of an array is the value of its expression, cut down to a machine word; where that has
/// none, the array has none for the same reason and leaves everything as it was.
pub proof fn arrays_are_as_long_as_their_expression_says(
    env: Env,
    depth: nat,
    at: Progress,
    ty: ResolvedType,
    path: Seq<Seq<char>>,
    scopes: Seq<Seq<char>>,
    data: Seq<u8>,
)
    ensures
        ty.kind matches ResolvedTypeKind::Array { element_type, size_expression, jagged } ==> {
            let walked = walk_field(env, depth, at, ty, path, scopes, data, false);
            match count_value(env, at.values, scopes, size_expression) {
                Outcome::Done(count) => walked == walk_array(
                    env,
                    depth,
                    at,
                    *element_type,
                    jagged,
                    count as usize,
                    path,
                    scopes,
                    data,
                ),
                Outcome::Failed(failure) => walked == Walk::<(Progress, usize)>::Failed(
                    Stop { at, path, failure },
                ),
                Outcome::Undefined => walked is Undefined,
            }
        },
{
}

/// An array of elements of one size takes as many bytes as they take together, which all have to be
/// there. Its elements are walked one after the other like fields, each on its own bytes; of
/// floating-point elements nothing is noted. An array without elements, or of elements without bytes,
/// takes nothing.
#[verifier::spinoff_prover]
#[verifier::rlimit(40)]
pub proof fn arrays_are_walked_element_by_element(
    env: Env,
    depth: nat,
    at: Progress,
    element_type: ResolvedType,
    jagged: bool,
    count: usize,
    path: Seq<Seq<char>>,
    scopes: Seq<Seq<char>>,
    data: Seq<u8>,
    value: u64,
)
    requires
        element_type.size == Size::Const(value),
    ensures
        ({
            let walked = walk_array(
                env,
                depth,
                at,
                element_type,
                jagged,
                count,
                path,
                scopes,
                data,
            );
            let size = value as usize;
            if value == 0 || count == 0 {
                walked == Walk::Done((at, 0usize))
            } else if size * count > usize::MAX {
                walked == Walk::<(Progress, usize)>::Failed(
                    Stop {
                        at,
                        path,
                        failure: env.unsupported(dot_join(path), "array size overflowed"@),
                    },
                )
            } else if size * count > data.len() {
                walked == Walk::<(Progress, usize)>::Failed(
                    Stop {
                        at,
                        path,
                        failure: Failure::TooSmall {
                            typename: env.typename,
                            required: (size * count) as nat,
                            available: env.available,
                        },
                    },
                )
            } else if element_type.kind matches ResolvedTypeKind::Primitive {
                prim_type: PrimitiveType::FloatingPoint(_),
            } {
                walked == Walk::Done((at, (size * count) as usize))
            } else {
                match walked {
                    Walk::Done((next, taken)) => taken == size * count && exists|
                        states: Seq<Progress>,
                    |
                        {
                            &&& #[trigger] states.len() == count + 1
                            &&& states[0] == at
                            &&& states.last() == next
                            &&& elements_walked(
                                env,
                                depth,
                                element_type,
                                0,
                                size,
                                path,
                                scopes,
                                data,
                                states,
                            )
                        },
                    Walk::Failed(stop) => exists|states: Seq<Progress>|
                        {
                            &&& 0 < #[trigger] states.len() <= count
                            &&& states[0] == at
                            &&& elements_walked(
                                env,
                                depth,
                                element_type,
                                0,
                                size,
                                path,
                                scopes,
                                data,
                                states,
                            )
                            &&& element_walk(
                                env,
                                depth,
                                states.last(),
                                element_type,
                                states.len() - 1,
                                size,
                                path,
                                scopes,
                                data,
                            ) == Walk::<(Progress, usize)>::Failed(stop)
                        },
                    Walk::Undefined => true,
                }
            }
        }),
{
    let size = value as usize;
    if value != 0 && count != 0 && size * count <= usize::MAX && size * count <= data.len() {
        match element_type.kind {
            ResolvedTypeKind::Primitive { prim_type: PrimitiveType::FloatingPoint(f) } => {},
            ResolvedTypeKind::Primitive { prim_type: PrimitiveType::Integral(int_type) } => {
                if size >= integral_width(int_type) {
                    let states = lemma_primitives_walked(
                        env,
                        depth,
                        at,
                        element_type,
                        int_type,
                        0,
                        count,
                        size,
                        path,
                        scopes,
                        data,
                    );
                    assert(states.len() > 0);
                } else {
                    assert(walk_primitives(
                        env,
                        at,
                        PrimitiveType::Integral(int_type),
                        0,
                        count,
                        size,
                        path,
                        data,
                    ) is Undefined);
                }
            },
            _ => {
                let states = lemma_composites_walked(
                    env,
                    depth,
                    at,
                    element_type,
                    0,
                    count,
                    size,
                    path,
                    scopes,
                    data,
                );
                assert(states.len() == states.len());
            },
        }
    }
}

/// Visit `k` is that of the element at `i + k` of an array whose elements differ in size: it starts
/// where the one before ends.
pub open spec fn element_visit_fits(
    env: Env,
    depth: nat,
    at: Progress,
    element_type: ResolvedType,
    i: int,
    cursor: usize,
    path: Seq<Seq<char>>,
    scopes: Seq<Seq<char>>,
    data: Seq<u8>,
    visits: Seq<Visit>,
    k: int,
) -> bool {
    &&& visits[k].start == end_before(cursor, visits, k)
    &&& visits[k].start <= data.len()
    &&& walk_field(
        env,
        depth,
        known_before(at, visits, k),
        element_type,
        path.push(decimal((i + k) as nat)),
        scopes,
        data.skip(visits[k].start as int),
        false,
    ) == Walk::Done((visits[k].after, visits[k].size))
}

/// The visits are those of the elements from `i` on in order.
pub open spec fn elements_visited(
    env: Env,
    depth: nat,
    at: Progress,
    element_type: ResolvedType,
    i: int,
    cursor: usize,
    path: Seq<Seq<char>>,
    scopes: Seq<Seq<char>>,
    data: Seq<u8>,
    visits: Seq<Visit>,
) -> bool {
    forall|k: int|
        0 <= k < visits.len() ==> #[trigger] element_visit_fits(
            env,
            depth,
            at,
            element_type,
            i,
            cursor,
            path,
            scopes,
            data,
            visits,
            k,
        )
}

/// The element behind the visits is why the walk stopped: it starts behind the data, failed itself or
/// ends beyond the machine word.
pub open spec fn stopped_at_element(
    env: Env,
    depth: nat,
    at: Progress,
    element_type: ResolvedType,
    i: int,
    cursor: usize,
    path: Seq<Seq<char>>,
    scopes: Seq<Seq<char>>,
    data: Seq<u8>,
    visits: Seq<Visit>,
    stop: Stop,
) -> bool {
    let m = visits.len() as int;
    let known = known_before(at, visits, m);
    let start = end_before(cursor, visits, m);
    &&& start <= usize::MAX
    &&& if start > data.len() {
        stop == (Stop {
            at: known,
            path,
            failure: Failure::TooSmall {
                typename: env.typename,
                required: start as nat,
                available: env.available,
            },
        })
    } else {
        match walk_field(
            env,
            depth,
            known,
            element_type,
            path.push(decimal((i + m) as nat)),
            scopes,
            data.skip(start),
            false,
        ) {
            Walk::Done((after, size)) => start + size > usize::MAX && stop == (Stop {
                at: after,
                path,
                failure: env.unsupported(dot_join(path), "jagged array size overflowed"@),
            }),
            Walk::Failed(inner) => stop == inner,
            Walk::Undefined => false,
        }
    }
}

proof fn lemma_more_element_visits(
    env: Env,
    depth: nat,
    at: Progress,
    element_type: ResolvedType,
    i: int,
    cursor: usize,
    path: Seq<Seq<char>>,
    scopes: Seq<Seq<char>>,
    data: Seq<u8>,
    first: Visit,
    rest: Seq<Visit>,
    stop: Stop,
)
    requires
        0 <= i,
        first.start + first.size <= usize::MAX,
        element_visit_fits(
            env,
            depth,
            at,
            element_type,
            i,
            cursor,
            path,
            scopes,
            data,
            seq![first],
            0,
        ),
        elements_visited(
            env,
            depth,
            first.after,
            element_type,
            i + 1,
            (first.start + first.size) as usize,
            path,
            scopes,
            data,
            rest,
        ),
    ensures
        elements_visited(
            env,
            depth,
            at,
            element_type,
            i,
            cursor,
            path,
            scopes,
            data,
            seq![first] + rest,
        ),
        known_before(at, seq![first] + rest, rest.len() as int + 1) == known_before(
            first.after,
            rest,
            rest.len() as int,
        ),
        end_before(cursor, seq![first] + rest, rest.len() as int + 1) == end_before(
            (first.start + first.size) as usize,
            rest,
            rest.len() as int,
        ),
        stopped_at_element(
            env,
            depth,
            first.after,
            element_type,
            i + 1,
            (first.start + first.size) as usize,
            path,
            scopes,
            data,
            rest,
            stop,
        ) ==> stopped_at_element(
            env,
            depth,
            at,
            element_type,
            i,
            cursor,
            path,
            scopes,
            data,
            seq![first] + rest,
            stop,
        ),
{
    let visits = seq![first] + rest;
    let next = (first.start + first.size) as usize;
    let after = first.after;
    assert forall|k: int| 0 < k <= visits.len() implies #[trigger] known_before(at, visits, k)
        == known_before(after, rest, k - 1) && end_before(cursor, visits, k) == end_before(
        next,
        rest,
        k - 1,
    ) by {
        if k > 1 {
            assert(visits[k - 1] == rest[k - 2]);
        } else {
            assert(visits[0] == first);
        }
    }
    assert forall|k: int| 0 <= k < visits.len() implies #[trigger] element_visit_fits(
        env,
        depth,
        at,
        element_type,
        i,
        cursor,
        path,
        scopes,
        data,
        visits,
        k,
    ) by {
        if k == 0 {
            assert(visits[0] == seq![first][0]);
        } else {
            assert(visits[k] == rest[k - 1]);
            assert(known_before(at, visits, k) == known_before(after, rest, k - 1));
            assert(i + k == i + 1 + (k - 1));
            assert(element_visit_fits(
                env,
                depth,
                after,
                element_type,
                i + 1,
                next,
                path,
                scopes,
                data,
                rest,
                k - 1,
            ));
        }
    }
    let m = rest.len() as int;
    assert(visits.len() == m + 1);
    assert(known_before(at, visits, m + 1) == known_before(after, rest, m));
    assert(i + (m + 1) == i + 1 + m);
}

#[verifier::spinoff_prover]
#[verifier::rlimit(40)]
proof fn lemma_elements_visited(
    env: Env,
    depth: nat,
    at: Progress,
    element_type: ResolvedType,
    i: usize,
    count: usize,
    cursor: usize,
    path: Seq<Seq<char>>,
    scopes: Seq<Seq<char>>,
    data: Seq<u8>,
) -> (visits: Seq<Visit>)
    requires
        i <= count,
    ensures
        walk_jagged(env, depth, at, element_type, i, count, cursor, path, scopes, data)
            !is Undefined ==> elements_visited(
            env,
            depth,
            at,
            element_type,
            i as int,
            cursor,
            path,
            scopes,
            data,
            visits,
        ),
        walk_jagged(env, depth, at, element_type, i, count, cursor, path, scopes, data) matches
            Walk::Done((next, end)) ==> {
            &&& visits.len() == count - i
            &&& next == known_before(at, visits, visits.len() as int)
            &&& end == end_before(cursor, visits, visits.len() as int)
        },
        walk_jagged(env, depth, at, element_type, i, count, cursor, path, scopes, data) matches
            Walk::Failed(stop) ==> visits.len() < count - i && stopped_at_element(
            env,
            depth,
            at,
            element_type,
            i as int,
            cursor,
            path,
            scopes,
            data,
            visits,
            stop,
        ),
    decreases count - i,
{
    let none = Seq::<Visit>::empty();
    let walked = walk_jagged(
        env,
        depth,
        at,
        element_type,
        i,
        count,
        cursor,
        path,
        scopes,
        data,
    );
    if i >= count || cursor > data.len() {
        none
    } else {
        match walk_field(
            env,
            depth,
            at,
            element_type,
            path.push(decimal(i as nat)),
            scopes,
            data.skip(cursor as int),
            false,
        ) {
            Walk::Done((after, size)) => if cursor + size > usize::MAX {
                none
            } else {
                let first = Visit { start: cursor, size, after };
                let next = (cursor + size) as usize;
                let rest = lemma_elements_visited(
                    env,
                    depth,
                    after,
                    element_type,
                    (i + 1) as usize,
                    count,
                    next,
                    path,
                    scopes,
                    data,
                );
                assert(walked == walk_jagged(
                    env,
                    depth,
                    after,
                    element_type,
                    (i + 1) as usize,
                    count,
                    next,
                    path,
                    scopes,
                    data,
                ));
                if walked !is Undefined {
                    assert(element_visit_fits(
                        env,
                        depth,
                        at,
                        element_type,
                        i as int,
                        cursor,
                        path,
                        scopes,
                        data,
                        seq![first],
                        0,
                    ));
                    lemma_more_element_visits(
                        env,
                        depth,
                        at,
                        element_type,
                        i as int,
                        cursor,
                        path,
                        scopes,
                        data,
                        first,
                        rest,
                        walked->Failed_0,
                    );
                }
                seq![first] + rest
            },
            _ => none,
        }
    }
}

/// An array whose elements differ in size is walked element by element if it is jagged: each starts
/// where the one before ends, and the array ends behind the last. Any other fails.
#[verifier::spinoff_prover]
#[verifier::rlimit(40)]
pub proof fn jagged_arrays_follow_their_elements(
    env: Env,
    depth: nat,
    at: Progress,
    element_type: ResolvedType,
    jagged: bool,
    count: usize,
    path: Seq<Seq<char>>,
    scopes: Seq<Seq<char>>,
    data: Seq<u8>,
)
    requires
        element_type.size is Variable,
    ensures
        ({
            let walked = walk_array(
                env,
                depth,
                at,
                element_type,
                jagged,
                count,
                path,
                scopes,
                data,
            );
            if count == 0 {
                walked == Walk::Done((at, 0usize))
            } else if !jagged {
                walked == Walk::<(Progress, usize)>::Failed(
                    Stop {
                        at,
                        path,
                        failure: env.unsupported(
                            dot_join(path),
                            "arrays with variable-sized elements are not supported yet"@,
                        ),
                    },
                )
            } else {
                match walked {
                    Walk::Done((next, end)) => exists|visits: Seq<Visit>|
                        {
                            &&& #[trigger] visits.len() == count
                            &&& elements_visited(
                                env,
                                depth,
                                at,
                                element_type,
                                0,
                                0,
                                path,
                                scopes,
                                data,
                                visits,
                            )
                            &&& next == known_before(at, visits, count as int)
                            &&& end == end_before(0, visits, count as int)
                        },
                    Walk::Failed(stop) => exists|visits: Seq<Visit>|
                        {
                            &&& #[trigger] visits.len() < count
                            &&& elements_visited(
                                env,
                                depth,
                                at,
                                element_type,
                                0,
                                0,
                                path,
                                scopes,
                                data,
                                visits,
                            )
                            &&& stopped_at_element(
                                env,
                                depth,
                                at,
                                element_type,
                                0,
                                0,
                                path,
                                scopes,
                                data,
                                visits,
                                stop,
                            )
                        },
                    Walk::Undefined => true,
                }
            }
        }),
{
    let visits = lemma_elements_visited(
        env,
        depth,
        at,
        element_type,
        0,
        count,
        0,
        path,
        scopes,
        data,
    );
    assert(visits.len() == visits.len());
}

/// An enum is walked as the first of its variants with the tag, at the same path and not as the last
/// field, once the tag is recorded. A tag that no variant has fails by its number and leaves
/// everything as it was, as does a tag expression without a value.
#[verifier::spinoff_prover]
#[verifier::rlimit(40)]
pub proof fn enums_are_walked_as_their_variant(
    env: Env,
    depth: nat,
    at: Progress,
    ty: ResolvedType,
    path: Seq<Seq<char>>,
    scopes: Seq<Seq<char>>,
    data: Seq<u8>,
    i: int,
)
    ensures
        ty.kind matches ResolvedTypeKind::Enum { tag_expression, variants } ==> {
            let walked = walk_field(env, depth, at, ty, path, scopes, data, false);
            match count_value(env, at.values, scopes, tag_expression) {
                Outcome::Done(value) => {
                    let tag = value as u64;
                    &&& 0 <= i < variants@.len() && variants@[i].tag_value == tag && (forall|j: int|
                        0 <= j < i ==> (#[trigger] variants@[j]).tag_value != tag) ==> walked
                        == walk_field(
                        env,
                        depth,
                        with_tag(env, at, path, tag),
                        variants@[i].variant_type,
                        path,
                        scopes,
                        data,
                        false,
                    )
                    &&& (forall|j: int|
                        0 <= j < variants@.len() ==> (#[trigger] variants@[j]).tag_value != tag)
                        ==> walked == Walk::<(Progress, usize)>::Failed(
                        Stop {
                            at,
                            path,
                            failure: env.unsupported(
                                dot_join(path),
                                "enum tag value "@ + decimal(tag as nat) + " not found"@,
                            ),
                        },
                    )
                },
                Outcome::Failed(failure) => walked == Walk::<(Progress, usize)>::Failed(
                    Stop { at, path, failure },
                ),
                Outcome::Undefined => walked is Undefined,
            }
        },
{
    if let ResolvedTypeKind::Enum { tag_expression, variants } = ty.kind {
        if let Outcome::Done(value) = count_value(env, at.values, scopes, tag_expression) {
            let tag = value as u64;
            let chosen = walk_variant(env, depth, at, variants@, tag, path, scopes, data);
            assert(walk_field(env, depth, at, ty, path, scopes, data, false) == chosen);
            if 0 <= i < variants@.len() && variants@[i].tag_value == tag && (forall|j: int|
                0 <= j < i ==> (#[trigger] variants@[j]).tag_value != tag) {
                assert(first_variant(variants@, tag, i));
                let k = choose|k: int| first_variant(variants@, tag, k);
                assert(first_variant(variants@, tag, k));
                if k < i {
                    assert(variants@[k].tag_value != tag);
                } else if i < k {
                    assert(variants@[i].tag_value != tag);
                }
            }
            if forall|j: int|
                0 <= j < variants@.len() ==> (#[trigger] variants@[j]).tag_value != tag {
                assert(forall|k: int| !first_variant(variants@, tag, k));
            }
        }
    }
}

/// References that may not be followed any further have no result.
pub proof fn references_need_depth(
    env: Env,
    at: Progress,
    ty: ResolvedType,
    path: Seq<Seq<char>>,
    scopes: Seq<Seq<char>>,
    data: Seq<u8>,
    last: bool,
)
    ensures
        ty.kind matches ResolvedTypeKind::TypeRef { target_name } ==> env.types.contains_key(
            target_name@,
        ) ==> walk_field(env, 0, at, ty, path, scopes, data, last) is Undefined,
{
}

/// Extraction walks over all the data as the struct, with nothing known at first, the nameless scope
/// around it, and the parameters bound to sizes waiting. What is known behind it are the values of the
/// parameters, unless some still wait; where the walk fails, extraction fails for the same reason.
pub proof fn extraction_starts_with_nothing_known(
    types: Map<Seq<char>, ResolvedType>,
    ty: ResolvedType,
    type_ir: TypeIr,
    depth: nat,
    data: Seq<u8>,
)
    ensures
        ({
            let result = parameters_of(types, ty, type_ir, depth, data);
            match walk_struct(
                Env {
                    typename: ty.name@,
                    available: data.len(),
                    types,
                    field_params: field_bindings(ty, type_ir.parameters@),
                },
                depth,
                Progress {
                    params: Map::empty(),
                    values: Map::empty(),
                    pending: payload_bindings(ty, type_ir.parameters@),
                    tagged: Set::empty(),
                },
                ty,
                Seq::empty(),
                seq![Seq::<char>::empty()],
                data,
            ) {
                Walk::Done((at, _)) => (forall|name: Seq<char>| !at.pending.contains_key(name))
                    ==> result == Outcome::Done(at.params),
                Walk::Failed(stop) => result == Outcome::<Map<Seq<char>, u128>>::Failed(
                    stop.failure,
                ),
                Walk::Undefined => result is Undefined,
            }
        }),
{
    let env = environment(types, ty, type_ir, data.len());
    let pending = payload_bindings(ty, type_ir.parameters@);
    if let Walk::Done((at, _)) = walk_root(env, depth, ty, pending, data) {
        if forall|name: Seq<char>| !at.pending.contains_key(name) {
            assert(at.pending =~= Map::<Seq<char>, Seq<char>>::empty());
        }
    }
}

} // verus!
