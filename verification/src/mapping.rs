//! The assignment of parameters to the fields and payloads that give them their values.

use vstd::prelude::*;

use crate::names::{
    canonical, canonical_param_name, normalize_binding_path, normalized, strip_typeref_prefix,
    trim_type_prefix, without_type, without_typeref,
};
use crate::schema::{IrParameter, PrimitiveType, ResolvedType, TypeIr};
use crate::str_map::StrMap;
use crate::text::has_suffix;

verus! {

/// The names of the parameters that each field path gives a value to.
pub type FieldParams<'a> = StrMap<Vec<&'a str>>;

/// The texts that a sequence of string slices holds.
pub open spec fn slices(strs: Seq<&str>) -> Seq<Seq<char>> {
    strs.map_values(|s: &str| s@)
}

/// The model of [`FieldParams`].
pub open spec fn field_params_view(map: Map<Seq<char>, Vec<&str>>) -> Map<
    Seq<char>,
    Seq<Seq<char>>,
> {
    map.map_values(|names: Vec<&str>| slices(names@))
}

/// The model of a map from names to texts.
pub open spec fn text_values(map: Map<Seq<char>, String>) -> Map<Seq<char>, Seq<char>> {
    map.map_values(|text: String| text@)
}

/// What a declared reference of a parameter says about where its value comes from.
pub struct Slot {
    /// The path of the field that holds the value.
    pub target: Seq<char>,
    /// The path of the field that depends on the parameter.
    pub owner: Seq<char>,
    /// Whether the value is the size of the owner rather than the value of a field.
    pub payload: bool,
}

struct SlotEntry {
    target: String,
    owner: String,
    payload: bool,
}

impl View for SlotEntry {
    type V = Slot;

    closed spec fn view(&self) -> Slot {
        Slot { target: self.target@, owner: self.owner@, payload: self.payload }
    }
}

/// What the reference `path` of `owner` says in the type called `typename`.
pub open spec fn slot(typename: Seq<char>, owner: Seq<char>, path: Seq<char>) -> Slot {
    let trimmed = without_typeref(path);
    let target = normalized(trimmed);
    let holder = without_type(normalized(owner), typename);
    Slot {
        target: if target.len() == 0 {
            holder
        } else {
            without_type(target, typename)
        },
        owner: holder,
        payload: "payload_size"@.is_suffix_of(trimmed) || "payload_size"@.is_suffix_of(target),
    }
}

/// `slots` with the references of one owner added under their canonical names, later ones in place
/// of earlier ones.
pub open spec fn with_owner(
    slots: Map<Seq<char>, Slot>,
    typename: Seq<char>,
    owner: Seq<char>,
    paths: Seq<Seq<char>>,
) -> Map<Seq<char>, Slot>
    decreases paths.len(),
{
    if paths.len() == 0 {
        slots
    } else {
        with_owner(slots, typename, owner, paths.drop_last()).insert(
            canonical(owner, paths.last()),
            slot(typename, owner, paths.last()),
        )
    }
}

/// The references of all owners under their canonical names, later ones in place of earlier ones.
pub open spec fn slots_of(
    typename: Seq<char>,
    owners: Seq<Seq<char>>,
    references: Seq<StrMap<PrimitiveType>>,
) -> Map<Seq<char>, Slot>
    decreases owners.len(),
{
    if owners.len() == 0 {
        Map::empty()
    } else {
        with_owner(
            slots_of(typename, owners.drop_last(), references.drop_last()),
            typename,
            owners.last(),
            references.last().keys(),
        )
    }
}

/// The references that `ty` declares, under their canonical names.
pub open spec fn declared_slots(ty: ResolvedType) -> Map<Seq<char>, Slot> {
    slots_of(ty.name@, ty.dynamic_params.keys(), ty.dynamic_params.values())
}

/// Where a parameter gets its value from.
pub enum Binding {
    /// The value of the field at the path.
    Field(Seq<char>),
    /// The size of the field at the path.
    Payload(Seq<char>),
    /// Nowhere.
    Unbound,
}

/// The path in front of a trailing `payload_size` segment.
pub open spec fn payload_owner(path: Seq<char>) -> Seq<char> {
    if ".payload_size"@.is_suffix_of(path) {
        path.take(path.len() - ".payload_size"@.len())
    } else {
        path
    }
}

/// Where the parameter called `name` gets its value from: as declared under the name itself, the
/// path it stands for or that path within the type, and else by the path alone.
pub open spec fn binding(ty: ResolvedType, name: Seq<char>) -> Binding {
    let slots = declared_slots(ty);
    let path = normalized(name);
    let inner = without_type(path, ty.name@);
    if slots.contains_key(name) {
        slot_binding(slots[name])
    } else if slots.contains_key(path) {
        slot_binding(slots[path])
    } else if slots.contains_key(inner) {
        slot_binding(slots[inner])
    } else if path.len() == 0 {
        Binding::Unbound
    } else if "payload_size"@.is_suffix_of(inner) {
        Binding::Payload(payload_owner(inner))
    } else {
        Binding::Field(inner)
    }
}

/// Where a declared reference says that the value comes from.
pub open spec fn slot_binding(slot: Slot) -> Binding {
    if slot.payload {
        Binding::Payload(slot.owner)
    } else {
        Binding::Field(slot.target)
    }
}

/// The names of the parameters that the field at `path` gives a value to, in their order.
pub open spec fn bound_names(ty: ResolvedType, parameters: Seq<IrParameter>, path: Seq<char>) -> Seq<
    Seq<char>,
> {
    parameters.filter(
        |p: IrParameter| !p.derived && binding(ty, p.name@) == Binding::Field(path),
    ).map_values(|p: IrParameter| p.name@)
}

/// The names of the parameters that each field path gives a value to.
pub open spec fn field_bindings(ty: ResolvedType, parameters: Seq<IrParameter>) -> Map<
    Seq<char>,
    Seq<Seq<char>>,
> {
    Map::new(
        |path: Seq<char>| bound_names(ty, parameters, path).len() > 0,
        |path: Seq<char>| bound_names(ty, parameters, path),
    )
}

/// One of the parameters that are read from data has the given name.
pub open spec fn requested(parameters: Seq<IrParameter>, name: Seq<char>) -> bool {
    exists|i: int|
        0 <= i < parameters.len() && !(#[trigger] parameters[i]).derived && parameters[i].name@
            == name
}

/// The parameters that take the size of a field, and the path of that field.
pub open spec fn payload_bindings(ty: ResolvedType, parameters: Seq<IrParameter>) -> Map<
    Seq<char>,
    Seq<char>,
> {
    Map::new(
        |name: Seq<char>| requested(parameters, name) && binding(ty, name) is Payload,
        |name: Seq<char>| binding(ty, name)->Payload_0,
    )
}

/// Collects the references that `ty` declares, under their canonical names.
fn collect_slots(ty: &ResolvedType) -> (slots: StrMap<SlotEntry>)
    ensures
        slots@.map_values(|entry: SlotEntry| entry@) == declared_slots(*ty),
{
    let mut slots: StrMap<SlotEntry> = StrMap::new();
    let typename = ty.name.as_str();
    let owners: usize = ty.dynamic_params.len();
    let ghost all_owners = ty.dynamic_params.keys();
    let ghost all_references = ty.dynamic_params.values();
    let mut i: usize = 0;
    proof {
        assert(slots@.map_values(|entry: SlotEntry| entry@) =~= Map::<Seq<char>, Slot>::empty());
    }
    while i < owners
        invariant
            i <= owners,
            typename@ == ty.name@,
            all_owners == ty.dynamic_params.keys(),
            all_references == ty.dynamic_params.values(),
            owners == all_owners.len() == all_references.len(),
            slots@.map_values(|entry: SlotEntry| entry@) == slots_of(
                ty.name@,
                all_owners.take(i as int),
                all_references.take(i as int),
            ),
        decreases owners - i,
    {
        let owner = ty.dynamic_params.key_at(i);
        let references = ty.dynamic_params.value_at(i);
        let owner_path = normalize_binding_path(owner);
        let holder = trim_type_prefix(owner_path.as_str(), typename);
        let paths: usize = references.len();
        let ghost all_paths = references.keys();
        let ghost start = slots@.map_values(|entry: SlotEntry| entry@);
        let mut j: usize = 0;
        assert(all_paths.take(0) =~= Seq::<Seq<char>>::empty());
        while j < paths
            invariant
                j <= paths,
                typename@ == ty.name@,
                holder@ == without_type(normalized(owner@), ty.name@),
                all_paths == references.keys(),
                paths == all_paths.len(),
                slots@.map_values(|entry: SlotEntry| entry@) == with_owner(
                    start,
                    ty.name@,
                    owner@,
                    all_paths.take(j as int),
                ),
            decreases paths - j,
        {
            let path = references.key_at(j);
            let name = canonical_param_name(owner, path);
            let trimmed = strip_typeref_prefix(path);
            let target_path = normalize_binding_path(trimmed);
            let payload: bool = has_suffix(trimmed, "payload_size") || has_suffix(
                target_path.as_str(),
                "payload_size",
            );
            let target = if target_path.as_str().is_empty() {
                String::from_str(holder)
            } else {
                String::from_str(trim_type_prefix(target_path.as_str(), typename))
            };
            let entry = SlotEntry { target, owner: String::from_str(holder), payload };
            let ghost before = slots@;
            slots.insert(name, entry);
            proof {
                assert(all_paths.take(j + 1).drop_last() =~= all_paths.take(j as int));
                assert(entry@ == slot(ty.name@, owner@, path@));
                assert(slots@.map_values(|entry: SlotEntry| entry@) =~= before.map_values(
                    |entry: SlotEntry| entry@,
                ).insert(name@, entry@));
            }
            j = j + 1;
        }
        proof {
            assert(all_paths.take(j as int) =~= all_paths);
            assert(all_owners.take(i + 1).drop_last() =~= all_owners.take(i as int));
            assert(all_references.take(i + 1).drop_last() =~= all_references.take(i as int));
        }
        i = i + 1;
    }
    assert(all_owners.take(i as int) =~= all_owners);
    assert(all_references.take(i as int) =~= all_references);
    slots
}

/// How the names bound to a path change when one parameter follows.
proof fn lemma_bound_names_push(
    ty: ResolvedType,
    parameters: Seq<IrParameter>,
    p: IrParameter,
    path: Seq<char>,
)
    ensures
        bound_names(ty, parameters.push(p), path) == (if !p.derived && binding(ty, p.name@)
            == Binding::Field(path) {
            bound_names(ty, parameters, path).push(p.name@)
        } else {
            bound_names(ty, parameters, path)
        }),
{
    reveal(Seq::filter);
    assert(parameters.push(p).drop_last() =~= parameters);
    let fits = |p: IrParameter| !p.derived && binding(ty, p.name@) == Binding::Field(path);
    let name = |p: IrParameter| p.name@;
    if fits(p) {
        assert(parameters.filter(fits).push(p).map_values(name) =~= parameters.filter(
            fits,
        ).map_values(name).push(p.name@));
    }
}

/// How the field bindings change when one parameter follows.
proof fn lemma_field_bindings_push(ty: ResolvedType, parameters: Seq<IrParameter>, p: IrParameter)
    ensures
        field_bindings(ty, parameters.push(p)) == (match binding(ty, p.name@) {
            Binding::Field(path) if !p.derived => field_bindings(ty, parameters).insert(
                path,
                bound_names(ty, parameters, path).push(p.name@),
            ),
            _ => field_bindings(ty, parameters),
        }),
{
    assert forall|path: Seq<char>|
        #[trigger] bound_names(ty, parameters.push(p), path) == (if !p.derived && binding(
            ty,
            p.name@,
        ) == Binding::Field(path) {
            bound_names(ty, parameters, path).push(p.name@)
        } else {
            bound_names(ty, parameters, path)
        }) by {
        lemma_bound_names_push(ty, parameters, p, path);
    }
    let expected = match binding(ty, p.name@) {
        Binding::Field(path) if !p.derived => field_bindings(ty, parameters).insert(
            path,
            bound_names(ty, parameters, path).push(p.name@),
        ),
        _ => field_bindings(ty, parameters),
    };
    assert(field_bindings(ty, parameters.push(p)) =~= expected);
}

/// How the names that are asked for change when one parameter follows.
proof fn lemma_requested_push(parameters: Seq<IrParameter>, p: IrParameter, name: Seq<char>)
    ensures
        requested(parameters.push(p), name) == (requested(parameters, name) || (!p.derived
            && p.name@ == name)),
{
    let more = parameters.push(p);
    if requested(parameters, name) {
        let i = choose|i: int|
            0 <= i < parameters.len() && !(#[trigger] parameters[i]).derived && parameters[i].name@
                == name;
        assert(more[i] == parameters[i]);
    }
    if !p.derived && p.name@ == name {
        assert(more[parameters.len() as int] == p);
    }
    if requested(more, name) {
        let i = choose|i: int|
            0 <= i < more.len() && !(#[trigger] more[i]).derived && more[i].name@ == name;
        if i < parameters.len() {
            assert(parameters[i] == more[i]);
        }
    }
}

/// A field gives its value to just those parameters that are asked for and bound to it.
pub proof fn bound_names_are_requested(
    ty: ResolvedType,
    parameters: Seq<IrParameter>,
    path: Seq<char>,
    name: Seq<char>,
)
    ensures
        bound_names(ty, parameters, path).contains(name) <==> requested(parameters, name)
            && binding(ty, name) == Binding::Field(path),
    decreases parameters.len(),
{
    if parameters.len() == 0 {
        reveal(Seq::filter);
    } else {
        let earlier = parameters.drop_last();
        let p = parameters.last();
        assert(earlier.push(p) =~= parameters);
        bound_names_are_requested(ty, earlier, path, name);
        lemma_bound_names_push(ty, earlier, p, path);
        lemma_requested_push(earlier, p, name);
        let before = bound_names(ty, earlier, path);
        let after = bound_names(ty, parameters, path);
        if before.contains(name) {
            assert(after[before.index_of(name)] == name);
        }
        if !p.derived && binding(ty, p.name@) == Binding::Field(path) {
            assert(after.last() == p.name@);
        }
        if after.contains(name) && !before.contains(name) {
            let i = after.index_of(name);
            if i < before.len() {
                assert(before[i] == name);
            }
        }
    }
}

/// How the payload bindings change when one parameter follows.
proof fn lemma_payload_bindings_push(ty: ResolvedType, parameters: Seq<IrParameter>, p: IrParameter)
    ensures
        payload_bindings(ty, parameters.push(p)) == (match binding(ty, p.name@) {
            Binding::Payload(owner) if !p.derived => payload_bindings(ty, parameters).insert(
                p.name@,
                owner,
            ),
            _ => payload_bindings(ty, parameters),
        }),
{
    assert forall|name: Seq<char>|
        #[trigger] requested(parameters.push(p), name) == (requested(parameters, name) || (
        !p.derived && p.name@ == name)) by {
        lemma_requested_push(parameters, p, name);
    }
    let expected = match binding(ty, p.name@) {
        Binding::Payload(owner) if !p.derived => payload_bindings(ty, parameters).insert(
            p.name@,
            owner,
        ),
        _ => payload_bindings(ty, parameters),
    };
    assert(payload_bindings(ty, parameters.push(p)) =~= expected);
}

/// Derived parameters change no binding: leaving them out of the parameters makes no difference.
pub proof fn derived_parameters_change_nothing(ty: ResolvedType, parameters: Seq<IrParameter>)
    ensures
        field_bindings(ty, parameters) == field_bindings(
            ty,
            parameters.filter(|p: IrParameter| !p.derived),
        ),
        payload_bindings(ty, parameters) == payload_bindings(
            ty,
            parameters.filter(|p: IrParameter| !p.derived),
        ),
    decreases parameters.len(),
{
    reveal(Seq::filter);
    let read = |p: IrParameter| !p.derived;
    if parameters.len() == 0 {
        assert(parameters.filter(read) =~= parameters);
    } else {
        let earlier = parameters.drop_last();
        let p = parameters.last();
        assert(earlier.push(p) =~= parameters);
        derived_parameters_change_nothing(ty, earlier);
        lemma_field_bindings_push(ty, earlier, p);
        lemma_payload_bindings_push(ty, earlier, p);
        if read(p) {
            let kept = earlier.filter(read);
            lemma_field_bindings_push(ty, kept, p);
            lemma_payload_bindings_push(ty, kept, p);
            if let Binding::Field(path) = binding(ty, p.name@) {
                lemma_bound_names_of_bindings(ty, earlier, path);
                lemma_bound_names_of_bindings(ty, kept, path);
            }
        }
    }
}

/// The names bound to a path, read off the field bindings.
proof fn lemma_bound_names_of_bindings(
    ty: ResolvedType,
    parameters: Seq<IrParameter>,
    path: Seq<char>,
)
    ensures
        bound_names(ty, parameters, path) == (if field_bindings(ty, parameters).contains_key(path) {
            field_bindings(ty, parameters)[path]
        } else {
            Seq::empty()
        }),
{
    if !field_bindings(ty, parameters).contains_key(path) {
        assert(bound_names(ty, parameters, path) =~= Seq::<Seq<char>>::empty());
    }
}

/// Adds `name` to the names that the field at `path` gives a value to.
fn bind_field<'a>(fields: &mut FieldParams<'a>, path: String, name: &'a str)
    ensures
        field_params_view(final(fields)@) == field_params_view(old(fields)@).insert(
            path@,
            (if field_params_view(old(fields)@).contains_key(path@) {
                field_params_view(old(fields)@)[path@]
            } else {
                Seq::empty()
            }).push(name@),
        ),
{
    let ghost before = fields@;
    let mut names: Vec<&'a str> = match fields.remove(path.as_str()) {
        Some(names) => names,
        None => Vec::new(),
    };
    let ghost earlier = slices(names@);
    names.push(name);
    assert(slices(names@) =~= earlier.push(name@));
    assert(before.contains_key(path@) ==> earlier == field_params_view(before)[path@]);
    assert(!before.contains_key(path@) ==> earlier =~= Seq::empty());
    fields.insert(path, names);
    assert(field_params_view(fields@) =~= field_params_view(before).insert(
        path@,
        earlier.push(name@),
    ));
}

/// Assigns the parameters of `type_ir` that are read from data to the fields and payloads of
/// `resolved_type`.
pub fn build_param_mapping<'a>(resolved_type: &'a ResolvedType, type_ir: &'a TypeIr) -> (mapping: (
    FieldParams<'a>,
    StrMap<String>,
))
    ensures
        field_params_view(mapping.0@) == field_bindings(*resolved_type, type_ir.parameters@),
        text_values(mapping.1@) == payload_bindings(*resolved_type, type_ir.parameters@),
{
    let slots = collect_slots(resolved_type);
    let ghost ty = *resolved_type;
    let ghost parameters = type_ir.parameters@;
    let typename = resolved_type.name.as_str();
    let mut fields: FieldParams<'a> = StrMap::new();
    let mut payloads: StrMap<String> = StrMap::new();
    let mut i: usize = 0;
    proof {
        reveal(Seq::filter);
        assert(parameters.take(0) =~= Seq::<IrParameter>::empty());
        assert(field_params_view(fields@) =~= field_bindings(ty, parameters.take(0)));
        assert(text_values(payloads@) =~= payload_bindings(ty, parameters.take(0)));
    }
    while i < type_ir.parameters.len()
        invariant
            i <= type_ir.parameters.len(),
            ty == *resolved_type,
            typename@ == ty.name@,
            parameters == type_ir.parameters@,
            slots@.map_values(|entry: SlotEntry| entry@) == declared_slots(ty),
            field_params_view(fields@) == field_bindings(ty, parameters.take(i as int)),
            text_values(payloads@) == payload_bindings(ty, parameters.take(i as int)),
        decreases type_ir.parameters.len() - i,
    {
        let param: &'a IrParameter = &type_ir.parameters[i];
        let name: &'a str = param.name.as_str();
        proof {
            let earlier = parameters.take(i as int);
            assert(parameters.take(i + 1) =~= earlier.push(*param));
            lemma_field_bindings_push(ty, earlier, *param);
            lemma_payload_bindings_push(ty, earlier, *param);
            assert forall|key: Seq<char>|
                !field_bindings(ty, earlier).contains_key(key) implies #[trigger] bound_names(
                ty,
                earlier,
                key,
            ) == Seq::<Seq<char>>::empty() by {
                assert(bound_names(ty, earlier, key) =~= Seq::<Seq<char>>::empty());
            }
            assert forall|key: Seq<char>| #[trigger] slots@.contains_key(key) implies slots@[key]@
                == declared_slots(ty)[key] && declared_slots(ty).contains_key(key) by {
                assert(slots@.map_values(|entry: SlotEntry| entry@).contains_key(key));
            }
        }
        i = i + 1;
        if param.derived {
            continue ;
        }
        let path = normalize_binding_path(name);
        let inner = trim_type_prefix(path.as_str(), typename);
        let lookup = match slots.get(name) {
            Some(entry) => Some(entry),
            None => match slots.get(path.as_str()) {
                Some(entry) => Some(entry),
                None => slots.get(inner),
            },
        };
        let ghost payloads_before = payloads@;
        match lookup {
            Some(entry) => {
                if entry.payload {
                    payloads.insert(param.name.clone(), entry.owner.clone());
                    assert(text_values(payloads@) =~= text_values(payloads_before).insert(
                        name@,
                        entry.owner@,
                    ));
                } else {
                    bind_field(&mut fields, entry.target.clone(), name);
                }
            },
            None => {
                if path.as_str().is_empty() {
                    continue ;
                }
                if has_suffix(inner, "payload_size") {
                    let owner = if has_suffix(inner, ".payload_size") {
                        let end: usize = inner.unicode_len();
                        let tail: usize = ".payload_size".unicode_len();
                        let stem = inner.substring_char(0, end - tail);
                        assert(stem@ =~= inner@.take(inner@.len() - ".payload_size"@.len()));
                        String::from_str(stem)
                    } else {
                        String::from_str(inner)
                    };
                    payloads.insert(param.name.clone(), owner);
                    assert(text_values(payloads@) =~= text_values(payloads_before).insert(
                        name@,
                        owner@,
                    ));
                } else {
                    bind_field(&mut fields, String::from_str(inner), name);
                }
            },
        }
    }
    assert(parameters.take(i as int) =~= parameters);
    (fields, payloads)
}

} // verus!
