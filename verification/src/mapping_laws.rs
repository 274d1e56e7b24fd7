//! What holds of the places that parameters get their values from.

use vstd::prelude::*;

use crate::mapping::{
    binding, bound_names, declared_slots, field_bindings, payload_bindings, requested, slot,
    slots_of, with_owner, Binding, Slot,
};
use crate::names::{canonical, normalized, without_type, without_typeref};
use crate::path_laws::{
    tidy, tidy_paths_are_kept, type_names_are_taken_off, unbracketed, uncoloned,
};
use crate::schema::{IrParameter, PrimitiveType, ResolvedType};
use crate::str_map::StrMap;

verus! {

/// The reference at position `j` of those of the owner at position `i`.
pub open spec fn reference_at(
    owners: Seq<Seq<char>>,
    references: Seq<StrMap<PrimitiveType>>,
    i: int,
    j: int,
) -> bool {
    0 <= i < owners.len() && i < references.len() && 0 <= j < references[i].keys().len()
}

/// The full name of that reference.
pub open spec fn reference_name(
    owners: Seq<Seq<char>>,
    references: Seq<StrMap<PrimitiveType>>,
    i: int,
    j: int,
) -> Seq<char> {
    canonical(owners[i], references[i].keys()[j])
}

/// The reference at `i` and `j` is the last one with its full name.
pub open spec fn last_of_its_name(
    owners: Seq<Seq<char>>,
    references: Seq<StrMap<PrimitiveType>>,
    i: int,
    j: int,
) -> bool {
    forall|m: int, n: int| #[trigger]
        reference_at(owners, references, m, n) && (m > i || (m == i && n > j)) ==> reference_name(
            owners,
            references,
            m,
            n,
        ) != reference_name(owners, references, i, j)
}

proof fn lemma_paths_declared(
    slots: Map<Seq<char>, Slot>,
    typename: Seq<char>,
    owner: Seq<char>,
    paths: Seq<Seq<char>>,
    j: int,
    name: Seq<char>,
)
    ensures
        0 <= j < paths.len() ==> with_owner(slots, typename, owner, paths).contains_key(
            canonical(owner, paths[j]),
        ),
        0 <= j < paths.len() && (forall|n: int|
            j < n < paths.len() ==> canonical(owner, #[trigger] paths[n]) != canonical(
                owner,
                paths[j],
            )) ==> with_owner(slots, typename, owner, paths)[canonical(owner, paths[j])] == slot(
            typename,
            owner,
            paths[j],
        ),
        slots.contains_key(name) ==> with_owner(slots, typename, owner, paths).contains_key(name),
        (forall|n: int| 0 <= n < paths.len() ==> canonical(owner, #[trigger] paths[n]) != name) ==> {
            &&& with_owner(slots, typename, owner, paths).contains_key(name)
                <==> slots.contains_key(name)
            &&& slots.contains_key(name) ==> with_owner(slots, typename, owner, paths)[name]
                == slots[name]
        },
    decreases paths.len(),
{
    if paths.len() > 0 {
        let less = paths.drop_last();
        lemma_paths_declared(slots, typename, owner, less, j, name);
        if 0 <= j < less.len() {
            assert(less[j] == paths[j]);
            assert(paths[paths.len() - 1] == paths.last());
            if forall|n: int|
                j < n < paths.len() ==> canonical(owner, #[trigger] paths[n]) != canonical(
                    owner,
                    paths[j],
                ) {
                assert forall|n: int| j < n < less.len() implies canonical(owner, #[trigger] less[n])
                    != canonical(owner, less[j]) by {
                    assert(less[n] == paths[n]);
                }
            }
        }
        if forall|n: int| 0 <= n < paths.len() ==> canonical(owner, #[trigger] paths[n]) != name {
            assert(paths[paths.len() - 1] == paths.last());
            assert forall|n: int| 0 <= n < less.len() implies canonical(owner, #[trigger] less[n])
                != name by {
                assert(less[n] == paths[n]);
            }
        }
    }
}

proof fn lemma_references_declared(
    typename: Seq<char>,
    owners: Seq<Seq<char>>,
    references: Seq<StrMap<PrimitiveType>>,
    i: int,
    j: int,
)
    requires
        owners.len() == references.len(),
        reference_at(owners, references, i, j),
    ensures
        slots_of(typename, owners, references).contains_key(
            reference_name(owners, references, i, j),
        ),
        last_of_its_name(owners, references, i, j) ==> slots_of(
            typename,
            owners,
            references,
        )[reference_name(owners, references, i, j)] == slot(
            typename,
            owners[i],
            references[i].keys()[j],
        ),
    decreases owners.len(),
{
    let less = owners.drop_last();
    let fewer = references.drop_last();
    let last = owners.len() - 1;
    let name = reference_name(owners, references, i, j);
    let slots = slots_of(typename, less, fewer);
    let paths = references.last().keys();
    if i == last {
        lemma_paths_declared(slots, typename, owners.last(), paths, j, name);
        if last_of_its_name(owners, references, i, j) {
            assert forall|n: int| j < n < paths.len() implies canonical(
                owners.last(),
                #[trigger] paths[n],
            ) != name by {
                assert(reference_at(owners, references, i, n));
            }
        }
    } else {
        assert(less[i] == owners[i] && fewer[i] == references[i]);
        assert(reference_at(less, fewer, i, j));
        lemma_references_declared(typename, less, fewer, i, j);
        lemma_paths_declared(slots, typename, owners.last(), paths, 0, name);
        if last_of_its_name(owners, references, i, j) {
            assert forall|n: int| 0 <= n < paths.len() implies canonical(
                owners.last(),
                #[trigger] paths[n],
            ) != name by {
                assert(reference_at(owners, references, last, n));
                assert(reference_name(owners, references, last, n) == canonical(
                    owners.last(),
                    paths[n],
                ));
            }
            assert forall|m: int, n: int| #[trigger]
                reference_at(less, fewer, m, n) && (m > i || (m == i && n
                    > j)) implies reference_name(less, fewer, m, n) != reference_name(
                less,
                fewer,
                i,
                j,
            ) by {
                assert(less[m] == owners[m] && fewer[m] == references[m]);
                assert(reference_at(owners, references, m, n));
            }
        }
    }
}

/// Every reference of every owner is declared under its full name, and the last one of a name says
/// where a parameter with that name gets its value from.
pub proof fn every_reference_is_declared(ty: ResolvedType, i: int, j: int)
    requires
        reference_at(ty.dynamic_params.keys(), ty.dynamic_params.values(), i, j),
    ensures
        ({
            let owners = ty.dynamic_params.keys();
            let references = ty.dynamic_params.values();
            let name = reference_name(owners, references, i, j);
            let says = slot(ty.name@, owners[i], references[i].keys()[j]);
            &&& declared_slots(ty).contains_key(name)
            &&& last_of_its_name(owners, references, i, j) ==> {
                &&& declared_slots(ty)[name] == says
                &&& says.payload ==> binding(ty, name) == Binding::Payload(says.owner)
                &&& !says.payload ==> binding(ty, name) == Binding::Field(says.target)
            }
        }),
{
    ty.dynamic_params.lemma_as_many_values();
    lemma_references_declared(
        ty.name@,
        ty.dynamic_params.keys(),
        ty.dynamic_params.values(),
        i,
        j,
    );
}

proof fn lemma_declared_come_from_references(
    typename: Seq<char>,
    owners: Seq<Seq<char>>,
    references: Seq<StrMap<PrimitiveType>>,
    name: Seq<char>,
)
    requires
        owners.len() == references.len(),
        slots_of(typename, owners, references).contains_key(name),
    ensures
        exists|i: int, j: int| #[trigger]
            reference_at(owners, references, i, j) && reference_name(owners, references, i, j)
                == name,
    decreases owners.len(),
{
    if owners.len() > 0 {
        let less = owners.drop_last();
        let fewer = references.drop_last();
        let last = owners.len() - 1;
        let slots = slots_of(typename, less, fewer);
        let paths = references.last().keys();
        lemma_paths_declared(slots, typename, owners.last(), paths, 0, name);
        if exists|n: int| 0 <= n < paths.len() && canonical(owners.last(), #[trigger] paths[n])
            == name {
            let n = choose|n: int|
                0 <= n < paths.len() && canonical(owners.last(), #[trigger] paths[n]) == name;
            assert(reference_at(owners, references, last, n));
        } else {
            lemma_declared_come_from_references(typename, less, fewer, name);
            let (i, j) = choose|i: int, j: int| #[trigger]
                reference_at(less, fewer, i, j) && reference_name(less, fewer, i, j) == name;
            assert(less[i] == owners[i] && fewer[i] == references[i]);
            assert(reference_at(owners, references, i, j));
        }
    }
}

/// Nothing is declared but the references of the owners.
pub proof fn only_references_are_declared(ty: ResolvedType, name: Seq<char>)
    requires
        declared_slots(ty).contains_key(name),
    ensures
        exists|i: int, j: int| #[trigger]
            reference_at(ty.dynamic_params.keys(), ty.dynamic_params.values(), i, j)
                && reference_name(ty.dynamic_params.keys(), ty.dynamic_params.values(), i, j)
                == name,
{
    ty.dynamic_params.lemma_as_many_values();
    lemma_declared_come_from_references(
        ty.name@,
        ty.dynamic_params.keys(),
        ty.dynamic_params.values(),
        name,
    );
}

/// A path in normal form that holds no more than itself: no marker of a type reference, and no type
/// name in front.
pub open spec fn plain(path: Seq<char>, typename: Seq<char>) -> bool {
    &&& path.len() > 0
    &&& tidy(path)
    &&& unbracketed(path)
    &&& uncoloned(path)
    &&& !"_typeref_"@.is_prefix_of(path)
    &&& !typename.is_prefix_of(path)
}

/// A declared reference by a plain path says that the value is that of the field at the path, or the
/// size of the owner where the path ends in `payload_size`. An empty path stands for the owner.
pub proof fn plain_references_name_fields(
    typename: Seq<char>,
    owner: Seq<char>,
    path: Seq<char>,
)
    requires
        plain(owner, typename),
        plain(path, typename),
    ensures
        slot(typename, owner, path).target == path,
        slot(typename, owner, path).owner == owner,
        slot(typename, owner, path).payload <==> "payload_size"@.is_suffix_of(path),
        slot(typename, owner, Seq::empty()).target == owner,
        slot(typename, owner, Seq::empty()).owner == owner,
        !slot(typename, owner, Seq::empty()).payload,
{
    tidy_paths_are_kept(owner);
    tidy_paths_are_kept(path);
    let none = Seq::<char>::empty();
    tidy_paths_are_kept(none);
    reveal_strlit("_typeref_");
    reveal_strlit("payload_size");
    assert(without_typeref(none) == none);
}

/// `written` stands for the plain path `path`, alone or behind the name of the type.
pub open spec fn stands_for(written: Seq<char>, path: Seq<char>, typename: Seq<char>) -> bool {
    normalized(written) == path || normalized(written) == typename.push('.') + path
}

/// A declared reference says the same however its owner and its path are written: qualified by the
/// type or not, with any separators, and through a type reference, whose marker is taken off first.
/// The value is the size of the owner where the path ends in `payload_size`, as it is written behind
/// the marker or as it is meant.
pub proof fn references_say_the_same_however_written(
    typename: Seq<char>,
    owner: Seq<char>,
    holder: Seq<char>,
    reference: Seq<char>,
    written: Seq<char>,
    path: Seq<char>,
)
    requires
        plain(holder, typename),
        plain(path, typename),
        stands_for(owner, holder, typename),
        without_typeref(reference) == written,
    ensures
        slot(typename, owner, reference).owner == holder,
        stands_for(written, path, typename) ==> slot(typename, owner, reference).target == path,
        normalized(written).len() == 0 ==> slot(typename, owner, reference).target == holder,
        slot(typename, owner, reference).payload <==> "payload_size"@.is_suffix_of(written)
            || "payload_size"@.is_suffix_of(normalized(written)),
        written == path ==> slot(typename, owner, reference) == slot(typename, owner, path),
{
    type_names_are_taken_off(typename, holder);
    type_names_are_taken_off(typename, path);
    tidy_paths_are_kept(path);
    assert((typename.push('.') + path).len() > 0);
}

/// A name is looked up among the declared references as it is, then as the path it stands for, then
/// as that path within the type; the first that is declared counts.
pub proof fn declared_names_are_looked_up_in_order(ty: ResolvedType, name: Seq<char>)
    ensures
        ({
            let slots = declared_slots(ty);
            let path = normalized(name);
            let inner = without_type(path, ty.name@);
            let bound_as = |key: Seq<char>|
                if slots[key].payload {
                    Binding::Payload(slots[key].owner)
                } else {
                    Binding::Field(slots[key].target)
                };
            &&& slots.contains_key(name) ==> binding(ty, name) == bound_as(name)
            &&& !slots.contains_key(name) && slots.contains_key(path) ==> binding(ty, name)
                == bound_as(path)
            &&& !slots.contains_key(name) && !slots.contains_key(path) && slots.contains_key(inner)
                ==> binding(ty, name) == bound_as(inner)
        }),
{
}

/// A name that is declared nowhere is bound by the path that it stands for: to the size of the field
/// in front of a last segment `payload_size`, and else to the value of the field at the path.
#[verifier::spinoff_prover]
#[verifier::rlimit(40)]
pub proof fn undeclared_names_are_bound_by_their_path(
    ty: ResolvedType,
    name: Seq<char>,
    path: Seq<char>,
    stem: Seq<char>,
)
    requires
        normalized(name) == path || normalized(name) == ty.name@.push('.') + path,
        path.len() > 0,
        !ty.name@.is_prefix_of(path),
        !declared_slots(ty).contains_key(name),
        !declared_slots(ty).contains_key(normalized(name)),
        !declared_slots(ty).contains_key(path),
    ensures
        !"payload_size"@.is_suffix_of(path) ==> binding(ty, name) == Binding::Field(path),
        path == stem + ".payload_size"@ ==> binding(ty, name) == Binding::Payload(stem),
        "payload_size"@.is_suffix_of(path) && !".payload_size"@.is_suffix_of(path) ==> binding(
            ty,
            name,
        ) == Binding::Payload(path),
{
    type_names_are_taken_off(ty.name@, path);
    assert(without_type(normalized(name), ty.name@) == path);
    if path == stem + ".payload_size"@ {
        lemma_payload_stem(path, stem);
    }
}

proof fn lemma_payload_stem(path: Seq<char>, stem: Seq<char>)
    requires
        path == stem + ".payload_size"@,
    ensures
        "payload_size"@.is_suffix_of(path),
        ".payload_size"@.is_suffix_of(path),
        path.take(path.len() - ".payload_size"@.len()) == stem,
{
    reveal_strlit("payload_size");
    reveal_strlit(".payload_size");
    let n = path.len() as int;
    assert(path.skip(n - 13) =~= ".payload_size"@);
    assert(path.skip(n - 12) =~= "payload_size"@);
    assert(path.take(n - 13) =~= stem);
}

/// A name that stands for no path and is not declared is bound to nothing.
pub proof fn empty_names_are_unbound(ty: ResolvedType, name: Seq<char>)
    requires
        normalized(name).len() == 0,
        !declared_slots(ty).contains_key(name),
        !declared_slots(ty).contains_key(Seq::empty()),
    ensures
        binding(ty, name) is Unbound,
{
    assert(normalized(name) =~= Seq::empty());
}

/// The names bound to a path come in the order of the parameters, each as often as it is asked for.
pub proof fn bound_names_come_in_order(
    ty: ResolvedType,
    a: Seq<IrParameter>,
    b: Seq<IrParameter>,
    p: IrParameter,
    path: Seq<char>,
)
    ensures
        bound_names(ty, a + b, path) == bound_names(ty, a, path) + bound_names(ty, b, path),
        bound_names(ty, seq![p], path) == (if !p.derived && binding(ty, p.name@) == Binding::Field(
            path,
        ) {
            seq![p.name@]
        } else {
            Seq::empty()
        }),
    decreases b.len(),
{
    let fits = |p: IrParameter| !p.derived && binding(ty, p.name@) == Binding::Field(path);
    let name = |p: IrParameter| p.name@;
    reveal_with_fuel(Seq::filter, 2);
    assert(seq![p].drop_last() =~= Seq::empty());
    assert(bound_names(ty, seq![p], path) =~= (if fits(p) {
        seq![p.name@]
    } else {
        Seq::empty()
    }));
    Seq::filter_distributes_over_add(a, b, fits);
    assert((a.filter(fits) + b.filter(fits)).map_values(name) =~= a.filter(fits).map_values(name)
        + b.filter(fits).map_values(name));
}

/// A path is bound where a parameter that is asked for gets its value from the field there, and a
/// parameter takes the size of a field where it is asked for and bound to that size.
pub proof fn bindings_are_those_asked_for(
    ty: ResolvedType,
    parameters: Seq<IrParameter>,
    path: Seq<char>,
    name: Seq<char>,
)
    ensures
        field_bindings(ty, parameters).contains_key(path) ==> field_bindings(ty, parameters)[path]
            == bound_names(ty, parameters, path),
        !field_bindings(ty, parameters).contains_key(path) ==> bound_names(
            ty,
            parameters,
            path,
        ).len() == 0,
        payload_bindings(ty, parameters).contains_key(name) <==> requested(parameters, name)
            && binding(ty, name) is Payload,
        payload_bindings(ty, parameters).contains_key(name) ==> binding(ty, name)
            == Binding::Payload(payload_bindings(ty, parameters)[name]),
{
}

/// A name is asked for where a parameter that is not derived has it.
pub proof fn requested_names_are_those_of_read_parameters(
    parameters: Seq<IrParameter>,
    p: IrParameter,
    name: Seq<char>,
)
    ensures
        parameters.contains(p) && !p.derived ==> requested(parameters, p.name@),
        (forall|i: int|
            0 <= i < parameters.len() ==> (#[trigger] parameters[i]).derived || parameters[i].name@
                != name) ==> !requested(parameters, name),
{
    if parameters.contains(p) && !p.derived {
        let i = parameters.index_of(p);
        assert(parameters[i] == p);
    }
}

} // verus!
