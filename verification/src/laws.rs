//! What holds of every extraction.

use vstd::prelude::*;

use crate::errors::{Failure, Outcome};
use crate::extractor::{environment, parameters_of};
use crate::invariants::{extraction_keeps, fed_by, in_field_range, kept};
use crate::mapping::{
    binding, bound_names, bound_names_are_requested, payload_bindings, requested, Binding,
};
use crate::model::{
    assigned, field_value, stopped, walk_field, walk_root, walk_union, with_integral, with_payload, with_tag,
    with_value, Env, Progress, Walk,
};
use crate::names::lemma_join_push;
use crate::schema::{IrParameter, ResolvedType, ResolvedTypeKind, Size, TypeIr};
use crate::str_map::{before, is_least, lemma_least_exists};
use crate::text::dot_join;

verus! {

/// Every value found belongs to a parameter that a field or a payload gives one, and every
/// parameter that takes the size of a payload has it or still waits for it.
pub open spec fn accounted(env: Env, pending: Map<Seq<char>, Seq<char>>, at: Progress) -> bool {
    &&& forall|name: Seq<char>| #[trigger]
        at.params.contains_key(name) ==> pending.contains_key(name) || exists|path: Seq<char>|
            fed_by(env, path, name)
    &&& forall|name: Seq<char>| #[trigger]
        pending.contains_key(name) ==> at.params.contains_key(name) || at.pending.contains_key(name)
    &&& forall|name: Seq<char>| #[trigger]
        at.pending.contains_key(name) ==> pending.contains_key(name)
}

/// Every parameter gets its value from one place only.
pub open spec fn separate(env: Env, pending: Map<Seq<char>, Seq<char>>) -> bool {
    &&& forall|p: Seq<char>, q: Seq<char>, name: Seq<char>| #[trigger]
        fed_by(env, p, name) && #[trigger] fed_by(env, q, name) ==> p == q
    &&& forall|p: Seq<char>, name: Seq<char>| #[trigger]
        fed_by(env, p, name) ==> !pending.contains_key(name)
}

/// A parameter bound to a field has a value exactly when the field was read, and then that of the
/// field. Paths at which an enum has recorded its tag are left out: their parameters may have the
/// value of the tag.
pub open spec fn faithful(env: Env, at: Progress) -> bool {
    forall|path: Seq<char>, name: Seq<char>| #[trigger]
        fed_by(env, path, name) && !at.tagged.contains(path) ==> {
            &&& at.params.contains_key(name) <==> at.values.contains_key(path)
            &&& at.params.contains_key(name) ==> at.params[name] == at.values[path]
        }
}

proof fn lemma_accounted_step(
    env: Env,
    pending: Map<Seq<char>, Seq<char>>,
    at: Progress,
    next: Progress,
    key: Seq<char>,
    value: u128,
)
    requires
        accounted(env, pending, at),
        next.params == assigned(at.params, env.names_at(key), value),
        next.pending == at.pending,
    ensures
        accounted(env, pending, next),
{
    assert forall|name: Seq<char>| #[trigger]
        next.params.contains_key(name) implies pending.contains_key(name) || exists|p: Seq<char>|
        fed_by(env, p, name) by {
        if !at.params.contains_key(name) {
            assert(fed_by(env, key, name));
        }
    }
}

proof fn lemma_accounted_kept(env: Env, pending: Map<Seq<char>, Seq<char>>)
    ensures
        kept(env, |at: Progress| accounted(env, pending, at)),
{
    let inv = |at: Progress| accounted(env, pending, at);
    assert forall|at: Progress, path: Seq<Seq<char>>, value: i128|
        inv(at) && path.len() > 0 && in_field_range(value) implies (
    match #[trigger] with_integral(env, at, path, value) {
        Walk::Done(next) => inv(next),
        _ => true,
    }) by {
        if let Walk::Done(next) = with_integral(env, at, path, value) {
            let key = dot_join(path);
            if env.names_at(key).len() > 0 {
                lemma_accounted_step(env, pending, at, next, key, value as u128);
            }
        }
    }
    assert forall|at: Progress, size: Size, path: Seq<Seq<char>>, data: Seq<u8>|
        inv(at) && path.len() > 0 implies (match #[trigger] walk_union(env, at, size, path, data) {
        Walk::Done((next, _)) => inv(next),
        _ => true,
    }) by {
        if let Walk::Done((next, bytes)) = walk_union(env, at, size, path, data) {
            lemma_accounted_step(env, pending, at, next, dot_join(path), bytes as u128);
        }
    }
    assert forall|at: Progress, path: Seq<Seq<char>>, tag: u64|
        inv(at) && path.len() > 0 implies inv(#[trigger] with_tag(env, at, path, tag)) by {
        let key = dot_join(path.push("tag"@));
        lemma_accounted_step(env, pending, at, with_tag(env, at, path, tag), key, tag as u128);
    }
}

/// How one value at a path keeps every other parameter as it was.
proof fn lemma_faithful_step(
    env: Env,
    pending: Map<Seq<char>, Seq<char>>,
    at: Progress,
    path: Seq<Seq<char>>,
    value: i128,
)
    requires
        separate(env, pending),
        faithful(env, at),
        path.len() > 0,
        value >= 0 || env.names_at(dot_join(path)).len() == 0,
    ensures
        faithful(
            env,
            Progress {
                params: assigned(at.params, env.names_at(dot_join(path)), value as u128),
                values: at.values.insert(dot_join(path), value),
                ..at
            },
        ),
{
    let key = dot_join(path);
    let params = assigned(at.params, env.names_at(key), value as u128);
    let values = at.values.insert(key, value);
    assert forall|p: Seq<char>, name: Seq<char>| #[trigger]
        fed_by(env, p, name) && !at.tagged.contains(p) implies {
        &&& params.contains_key(name) <==> values.contains_key(p)
        &&& params.contains_key(name) ==> params[name] == values[p]
    } by {
        if p != key {
            assert(!fed_by(env, key, name));
        }
    }
}

proof fn lemma_faithful_kept(env: Env, pending: Map<Seq<char>, Seq<char>>)
    requires
        separate(env, pending),
    ensures
        kept(env, |at: Progress| accounted(env, pending, at) && faithful(env, at)),
{
    lemma_accounted_kept(env, pending);
    let basic = |at: Progress| accounted(env, pending, at);
    let inv = |at: Progress| accounted(env, pending, at) && faithful(env, at);
    assert forall|at: Progress, path: Seq<Seq<char>>, value: i128|
        inv(at) && path.len() > 0 && in_field_range(value) implies (
    match #[trigger] with_integral(env, at, path, value) {
        Walk::Done(next) => inv(next),
        _ => true,
    }) by {
        assert(basic(at));
        if let Walk::Done(next) = with_integral(env, at, path, value) {
            lemma_faithful_step(env, pending, at, path, value);
            let names = env.names_at(dot_join(path));
            if names.len() == 0 {
                assert(assigned(at.params, names, value as u128) =~= at.params);
            }
        }
    }
    assert forall|at: Progress, size: Size, path: Seq<Seq<char>>, data: Seq<u8>|
        inv(at) && path.len() > 0 implies (match #[trigger] walk_union(env, at, size, path, data) {
        Walk::Done((next, _)) => inv(next),
        _ => true,
    }) by {
        assert(basic(at));
        if let Walk::Done((next, bytes)) = walk_union(env, at, size, path, data) {
            lemma_faithful_step(env, pending, at, path, bytes as i128);
        }
    }
    assert forall|at: Progress, path: Seq<Seq<char>>, size: usize|
        inv(at) && path.len() > 0 implies inv(#[trigger] with_payload(at, path, size)) by {
        assert(basic(at));
        let next = with_payload(at, path, size);
        assert forall|p: Seq<char>, name: Seq<char>| #[trigger]
            fed_by(env, p, name) && !next.tagged.contains(p) implies {
            &&& next.params.contains_key(name) <==> next.values.contains_key(p)
            &&& next.params.contains_key(name) ==> next.params[name] == next.values[p]
        } by {
            assert(!pending.contains_key(name));
            assert(!at.pending.contains_key(name));
        }
    }
    assert forall|at: Progress, path: Seq<Seq<char>>, tag: u64|
        inv(at) && path.len() > 0 implies inv(#[trigger] with_tag(env, at, path, tag)) by {
        assert(basic(at));
        let key = dot_join(path.push("tag"@));
        let next = with_tag(env, at, path, tag);
        assert forall|p: Seq<char>, name: Seq<char>| #[trigger]
            fed_by(env, p, name) && !next.tagged.contains(p) implies {
            &&& next.params.contains_key(name) <==> next.values.contains_key(p)
            &&& next.params.contains_key(name) ==> next.params[name] == next.values[p]
        } by {
            assert(!fed_by(env, key, name));
        }
    }
}

/// Which parameters a field feeds, in terms of the parameters asked for.
proof fn lemma_fed_by(
    types: Map<Seq<char>, ResolvedType>,
    ty: ResolvedType,
    type_ir: TypeIr,
    len: nat,
)
    ensures
        forall|path: Seq<char>, name: Seq<char>| #[trigger]
            fed_by(environment(types, ty, type_ir, len), path, name) <==> requested(
                type_ir.parameters@,
                name,
            ) && binding(ty, name) == Binding::Field(path),
        separate(
            environment(types, ty, type_ir, len),
            payload_bindings(ty, type_ir.parameters@),
        ),
{
    let env = environment(types, ty, type_ir, len);
    assert forall|path: Seq<char>, name: Seq<char>| #[trigger]
        fed_by(env, path, name) <==> requested(type_ir.parameters@, name) && binding(ty, name)
            == Binding::Field(path) by {
        bound_names_are_requested(ty, type_ir.parameters@, path, name);
        assert(env.names_at(path) =~= bound_names(ty, type_ir.parameters@, path));
    }
}

/// A failed extraction names the type asked for. Where the data is too short, it tells how long all
/// of the data is; where a value is negative, it blames a parameter that was asked for and is bound
/// to a field.
pub proof fn failures_are_accurate(
    types: Map<Seq<char>, ResolvedType>,
    ty: ResolvedType,
    type_ir: TypeIr,
    depth: nat,
    data: Seq<u8>,
)
    ensures
        parameters_of(types, ty, type_ir, depth, data) matches Outcome::Failed(failure) ==> {
            &&& failure.typename() == ty.name@
            &&& failure matches Failure::TooSmall { available, .. } ==> available == data.len()
            &&& failure matches Failure::Negative { parameter, .. } ==> requested(
                type_ir.parameters@,
                parameter,
            ) && binding(ty, parameter) is Field
        },
{
    let env = environment(types, ty, type_ir, data.len());
    let pending = payload_bindings(ty, type_ir.parameters@);
    lemma_fed_by(types, ty, type_ir, data.len());
    extraction_keeps(env, |at: Progress| true, depth, ty, pending, data);
}

/// Extraction gives values to parameters that were asked for and come from somewhere, and to no
/// others: a derived parameter has none unless its name is asked for as well.
pub proof fn extracted_names_are_requested(
    types: Map<Seq<char>, ResolvedType>,
    ty: ResolvedType,
    type_ir: TypeIr,
    depth: nat,
    data: Seq<u8>,
    name: Seq<char>,
)
    ensures
        parameters_of(types, ty, type_ir, depth, data) matches Outcome::Done(params)
            ==> params.contains_key(name) ==> requested(type_ir.parameters@, name) && binding(
            ty,
            name,
        ) !is Unbound,
{
    let env = environment(types, ty, type_ir, data.len());
    let pending = payload_bindings(ty, type_ir.parameters@);
    let inv = |at: Progress| accounted(env, pending, at);
    lemma_fed_by(types, ty, type_ir, data.len());
    lemma_accounted_kept(env, pending);
    extraction_keeps(env, inv, depth, ty, pending, data);
}

/// A successful extraction gives a value to every parameter that takes the size of a payload.
pub proof fn payload_sizes_are_extracted(
    types: Map<Seq<char>, ResolvedType>,
    ty: ResolvedType,
    type_ir: TypeIr,
    depth: nat,
    data: Seq<u8>,
    name: Seq<char>,
)
    requires
        requested(type_ir.parameters@, name),
        binding(ty, name) is Payload,
    ensures
        parameters_of(types, ty, type_ir, depth, data) matches Outcome::Done(params)
            ==> params.contains_key(name),
{
    let env = environment(types, ty, type_ir, data.len());
    let pending = payload_bindings(ty, type_ir.parameters@);
    let inv = |at: Progress| accounted(env, pending, at);
    lemma_accounted_kept(env, pending);
    extraction_keeps(env, inv, depth, ty, pending, data);
    assert(pending.contains_key(name));
}

/// Every value found fits 64 bits.
pub open spec fn fitting(at: Progress) -> bool {
    forall|name: Seq<char>| #[trigger] at.params.contains_key(name) ==> at.params[name] <= u64::MAX
}

/// Every extracted value fits 64 bits.
pub proof fn extracted_values_fit(
    types: Map<Seq<char>, ResolvedType>,
    ty: ResolvedType,
    type_ir: TypeIr,
    depth: nat,
    data: Seq<u8>,
    name: Seq<char>,
)
    ensures
        parameters_of(types, ty, type_ir, depth, data) matches Outcome::Done(params)
            ==> params.contains_key(name) ==> params[name] <= u64::MAX,
{
    let env = environment(types, ty, type_ir, data.len());
    let pending = payload_bindings(ty, type_ir.parameters@);
    let inv = |at: Progress| fitting(at);
    assert forall|at: Progress, path: Seq<Seq<char>>, value: i128|
        inv(at) && path.len() > 0 && in_field_range(value) implies (
    match #[trigger] with_integral(env, at, path, value) {
        Walk::Done(next) => inv(next),
        _ => true,
    }) by {}
    assert forall|at: Progress, size: Size, path: Seq<Seq<char>>, data: Seq<u8>|
        inv(at) && path.len() > 0 implies (match #[trigger] walk_union(env, at, size, path, data) {
        Walk::Done((next, _)) => inv(next),
        _ => true,
    }) by {}
    extraction_keeps(env, inv, depth, ty, pending, data);
}

/// Where parameters still wait for a size at the end of a walk, extraction fails by the first of
/// them: the one that stands before all others.
pub proof fn first_waiting_parameter_is_blamed(
    types: Map<Seq<char>, ResolvedType>,
    ty: ResolvedType,
    type_ir: TypeIr,
    depth: nat,
    data: Seq<u8>,
    waiting: Seq<char>,
)
    ensures
        walk_root(
            environment(types, ty, type_ir, data.len()),
            depth,
            ty,
            payload_bindings(ty, type_ir.parameters@),
            data,
        ) matches Walk::Done((at, _)) ==> (at.pending.contains_key(waiting) ==> (parameters_of(
            types,
            ty,
            type_ir,
            depth,
            data,
        ) matches Outcome::Failed(Failure::Unsupported { typename, parameter, reason }) && {
            &&& typename == ty.name@
            &&& is_least(at.pending.dom(), parameter)
            &&& at.pending.contains_key(parameter)
            &&& waiting == parameter || before(parameter, waiting)
            &&& reason == "payload size could not be determined"@
        })),
{
    let env = environment(types, ty, type_ir, data.len());
    let pending = payload_bindings(ty, type_ir.parameters@);
    let inv = |at: Progress| accounted(env, pending, at);
    lemma_accounted_kept(env, pending);
    extraction_keeps(env, inv, depth, ty, pending, data);
    if let Walk::Done((at, _)) = walk_root(env, depth, ty, pending, data) {
        if at.pending.contains_key(waiting) {
            let parameters = type_ir.parameters@;
            let list = parameters.map_values(|p: IrParameter| p.name@);
            assert forall|name: Seq<char>| #[trigger]
                at.pending.dom().contains(name) implies list.contains(name) by {
                assert(at.pending.contains_key(name));
                assert(pending.contains_key(name));
                let i = choose|i: int|
                    0 <= i < parameters.len() && !(#[trigger] parameters[i]).derived
                        && parameters[i].name@ == name;
                assert(list[i] == name);
            }
            lemma_least_exists(at.pending.dom(), list, waiting);
            assert(at.pending != Map::<Seq<char>, Seq<char>>::empty());
            assert(at.pending.dom().contains(waiting));
        }
    }
}

/// At the end of a walk, a parameter bound to a field has a value exactly when the field was read,
/// and then that of the field. This leaves out paths at which an enum has recorded its tag.
pub proof fn parameters_match_fields(
    types: Map<Seq<char>, ResolvedType>,
    ty: ResolvedType,
    type_ir: TypeIr,
    depth: nat,
    data: Seq<u8>,
    name: Seq<char>,
    path: Seq<char>,
)
    requires
        requested(type_ir.parameters@, name),
        binding(ty, name) == Binding::Field(path),
    ensures
        walk_root(
            environment(types, ty, type_ir, data.len()),
            depth,
            ty,
            payload_bindings(ty, type_ir.parameters@),
            data,
        ) matches Walk::Done((at, _)) ==> (!at.tagged.contains(path) ==> {
            &&& at.params.contains_key(name) <==> at.values.contains_key(path)
            &&& at.params.contains_key(name) ==> at.params[name] == at.values[path]
        }),
{
    let env = environment(types, ty, type_ir, data.len());
    let pending = payload_bindings(ty, type_ir.parameters@);
    let inv = |at: Progress| accounted(env, pending, at) && faithful(env, at);
    lemma_fed_by(types, ty, type_ir, data.len());
    lemma_faithful_kept(env, pending);
    extraction_keeps(env, inv, depth, ty, pending, data);
    assert(fed_by(env, path, name));
}

/// A negative value fails where a parameter is bound to its field, and only there.
pub proof fn negative_values_fail_where_bound(
    env: Env,
    at: Progress,
    path: Seq<Seq<char>>,
    value: i128,
)
    ensures
        with_integral(env, at, path, value) is Failed <==> value < 0 && env.names_at(
            dot_join(path),
        ).len() > 0,
        with_integral(env, at, path, value) is Done <==> with_integral(env, at, path, value)
            !is Failed,
{
}

/// A field of a struct is found under its bare name by the expressions inside that struct, unless
/// another field has that name as its very path.
pub proof fn siblings_are_found(
    at: Progress,
    scopes: Seq<Seq<char>>,
    path: Seq<Seq<char>>,
    name: Seq<char>,
    value: i128,
)
    requires
        dot_join(path).len() > 0,
        name.len() > 0,
        !at.values.contains_key(name),
    ensures
        field_value(
            with_value(at, path.push(name), value).values,
            scopes.push(dot_join(path)),
            name,
        ) == Some(value),
{
    lemma_join_push(path, name);
    let scope = dot_join(path);
    let key = dot_join(path.push(name));
    assert(path.len() > 0);
    assert(key == scope.push('.') + name);
    assert(key.len() > name.len());
    assert(scopes.push(scope).last() == scope);
}

/// A union told by its size takes all the data left when it is the last field, and the parameters
/// that wait for its size get the length of that data.
pub proof fn tail_union_takes_the_rest(
    env: Env,
    depth: nat,
    at: Progress,
    ty: ResolvedType,
    path: Seq<Seq<char>>,
    scopes: Seq<Seq<char>>,
    data: Seq<u8>,
    name: Seq<char>,
)
    requires
        ty.kind is SizeDiscriminatedUnion,
        data.len() <= usize::MAX,
        at.pending.contains_key(name),
        at.pending[name] == dot_join(path),
    ensures
        walk_field(env, depth, at, ty, path, scopes, data, true) matches Walk::Done(
            (next, size),
        ) && {
            &&& size == data.len()
            &&& next.params.contains_key(name)
            &&& next.params[name] == data.len()
            &&& !next.pending.contains_key(name)
        },
{
}

/// The parameters bound to the tag of an enum get the value of the tag.
pub proof fn tags_are_recorded(
    env: Env,
    at: Progress,
    path: Seq<Seq<char>>,
    tag: u64,
    name: Seq<char>,
)
    requires
        fed_by(env, dot_join(path.push("tag"@)), name),
    ensures
        with_tag(env, at, path, tag).params.contains_key(name),
        with_tag(env, at, path, tag).params[name] == tag,
{
}

/// A field whose type is a reference is walked as one of the type referred to, and is the last field
/// if that is. Where there is no such type, the walk fails and leaves everything as it was.
pub proof fn references_stand_for_their_targets(
    env: Env,
    depth: nat,
    at: Progress,
    ty: ResolvedType,
    path: Seq<Seq<char>>,
    scopes: Seq<Seq<char>>,
    data: Seq<u8>,
    last: bool,
)
    ensures
        ty.kind matches ResolvedTypeKind::TypeRef { target_name } ==> (walk_field(
            env,
            depth + 1,
            at,
            ty,
            path,
            scopes,
            data,
            last,
        ) == (if env.types.contains_key(target_name@) {
            walk_field(env, depth, at, env.types[target_name@], path, scopes, data, last)
        } else {
            stopped(at, path, env.unsupported(target_name@, "type reference target not found"@))
        })),
{
}

} // verus!
