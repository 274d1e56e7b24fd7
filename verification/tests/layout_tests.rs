use abi_reflect::schema::{
    BinaryExpr, ExprKind, FieldRefExpr, FloatingPointType, IntegralType, IrParameter, LiteralExpr,
    PrimitiveType, ResolvedEnumVariant, ResolvedField, ResolvedSizeDiscriminatedVariant,
    ResolvedType, ResolvedTypeKind, Size, TypeIr, TypeResolver,
};
use abi_reflect::str_map::StrMap;
use abi_reflect::{ParamExtractor, ParamMap, ReflectError};

fn resolved(name: &str, size: Size, alignment: u64, kind: ResolvedTypeKind) -> ResolvedType {
    ResolvedType {
        name: name.to_string(),
        size,
        alignment,
        dynamic_params: StrMap::new(),
        kind,
    }
}

fn integral(int_type: IntegralType, bytes: u64) -> ResolvedType {
    resolved(
        "integral",
        Size::Const(bytes),
        bytes,
        ResolvedTypeKind::Primitive {
            prim_type: PrimitiveType::Integral(int_type),
        },
    )
}

fn u8_type() -> ResolvedType {
    integral(IntegralType::U8, 1)
}

fn u16_type() -> ResolvedType {
    integral(IntegralType::U16, 2)
}

fn u32_type() -> ResolvedType {
    integral(IntegralType::U32, 4)
}

fn f32_type() -> ResolvedType {
    resolved(
        "f32",
        Size::Const(4),
        4,
        ResolvedTypeKind::Primitive {
            prim_type: PrimitiveType::FloatingPoint(FloatingPointType::F32),
        },
    )
}

fn fields_of(fields: Vec<(&str, ResolvedType)>) -> Vec<ResolvedField> {
    fields
        .into_iter()
        .map(|(name, field_type)| ResolvedField {
            name: name.to_string(),
            field_type,
            offset: None,
        })
        .collect()
}

fn packed(name: &str, size: Size, fields: Vec<(&str, ResolvedType)>) -> ResolvedType {
    resolved(
        name,
        size,
        1,
        ResolvedTypeKind::Struct {
            fields: fields_of(fields),
            packed: true,
            custom_alignment: None,
        },
    )
}

fn aligned(alignment: u64, custom: Option<u64>, fields: Vec<(&str, ResolvedType)>) -> ResolvedType {
    resolved(
        "Aligned",
        Size::Variable,
        alignment,
        ResolvedTypeKind::Struct {
            fields: fields_of(fields),
            packed: false,
            custom_alignment: custom,
        },
    )
}

fn root(fields: Vec<(&str, ResolvedType)>) -> ResolvedType {
    packed("Root", Size::Variable, fields)
}

fn array(element_type: ResolvedType, size_expression: ExprKind, jagged: bool) -> ResolvedType {
    resolved(
        "array",
        Size::Variable,
        1,
        ResolvedTypeKind::Array {
            element_type: Box::new(element_type),
            size_expression,
            jagged,
        },
    )
}

fn choice(tag_expression: ExprKind, variants: Vec<(u64, ResolvedType)>) -> ResolvedType {
    resolved(
        "choice",
        Size::Variable,
        1,
        ResolvedTypeKind::Enum {
            tag_expression,
            variants: variants
                .into_iter()
                .map(|(tag_value, variant_type)| ResolvedEnumVariant {
                    name: "variant".to_string(),
                    tag_value,
                    variant_type,
                    requires_payload_size: false,
                })
                .collect(),
        },
    )
}

fn tail_union() -> ResolvedType {
    resolved(
        "tail",
        Size::Variable,
        1,
        ResolvedTypeKind::SizeDiscriminatedUnion {
            variants: vec![ResolvedSizeDiscriminatedVariant {
                name: "word".to_string(),
                expected_size: 4,
                variant_type: u32_type(),
            }],
        },
    )
}

fn union(size: Size) -> ResolvedType {
    resolved(
        "union",
        size,
        1,
        ResolvedTypeKind::Union {
            variants: fields_of(vec![("word", u32_type())]),
        },
    )
}

fn type_ref(target: &str) -> ResolvedType {
    resolved(
        "reference",
        Size::Variable,
        1,
        ResolvedTypeKind::TypeRef {
            target_name: target.to_string(),
        },
    )
}

fn count(n: u64) -> ExprKind {
    ExprKind::Literal(LiteralExpr::U64(n))
}

fn reference(path: &str) -> ExprKind {
    ExprKind::FieldRef(FieldRefExpr {
        path: vec![path.to_string()],
    })
}

fn asking_for(names: &[&str]) -> TypeIr {
    TypeIr {
        parameters: names
            .iter()
            .map(|name| IrParameter {
                name: name.to_string(),
                derived: false,
            })
            .collect(),
    }
}

fn try_with(
    types: Vec<ResolvedType>,
    ty: &ResolvedType,
    names: &[&str],
    data: &[u8],
    max_depth: usize,
) -> Option<Result<ParamMap, ReflectError>> {
    let mut resolver = TypeResolver::new();
    for known in types {
        resolver.types.insert(known.name.clone(), known);
    }
    let type_ir = asking_for(names);
    let extractor = ParamExtractor::new(&resolver, ty, &type_ir).unwrap();
    extractor.try_extract(data, max_depth)
}

fn run(ty: &ResolvedType, names: &[&str], data: &[u8]) -> Result<ParamMap, ReflectError> {
    try_with(vec![], ty, names, data, 0).unwrap()
}

fn values(params: &ParamMap) -> Vec<(String, u128)> {
    (0..params.len())
        .map(|i| (params.key_at(i).to_string(), *params.value_at(i)))
        .collect()
}

fn found(ty: &ResolvedType, names: &[&str], data: &[u8]) -> Vec<(String, u128)> {
    values(&run(ty, names, data).unwrap())
}

fn listed(entries: &[(&str, u128)]) -> Vec<(String, u128)> {
    entries
        .iter()
        .map(|(name, value)| (name.to_string(), *value))
        .collect()
}

fn unsupported(typename: &str, parameter: &str, reason: &str) -> ReflectError {
    ReflectError::UnsupportedDynamicParam {
        typename: typename.to_string(),
        parameter: parameter.to_string(),
        reason: reason.to_string(),
    }
}

fn too_small(typename: &str, required: u128, available: u64) -> ReflectError {
    ReflectError::BufferTooSmall {
        typename: typename.to_string(),
        required,
        available,
    }
}

#[test]
fn only_structs_can_be_roots() {
    let resolver = TypeResolver::new();
    let type_ir = asking_for(&[]);
    let error = ParamExtractor::new(&resolver, &u8_type(), &type_ir)
        .err()
        .unwrap();
    assert_eq!(
        error,
        unsupported(
            "integral",
            "<all>",
            "dynamic parameter extraction only supports struct roots"
        )
    );
}

#[test]
fn fields_of_every_integral_type_feed_parameters() {
    let ty = root(vec![
        ("a", u8_type()),
        ("b", integral(IntegralType::Char, 1)),
        ("c", u16_type()),
        ("d", u32_type()),
        ("e", integral(IntegralType::U64, 8)),
        ("f", integral(IntegralType::I8, 1)),
        ("g", integral(IntegralType::I16, 2)),
        ("h", integral(IntegralType::I32, 4)),
        ("i", integral(IntegralType::I64, 8)),
    ]);
    let data: Vec<u8> = (1..=31).collect();
    assert_eq!(
        found(&ty, &["i", "h", "g", "f", "e", "d", "c", "b", "a"], &data),
        listed(&[
            ("a", 0x01),
            ("b", 0x02),
            ("c", 0x0403),
            ("d", 0x08070605),
            ("e", 0x100f0e0d0c0b0a09),
            ("f", 0x11),
            ("g", 0x1312),
            ("h", 0x17161514),
            ("i", 0x1f1e1d1c1b1a1918),
        ])
    );
}

#[test]
fn floating_point_fields_are_passed_over() {
    let ty = root(vec![
        ("ratio", f32_type()),
        ("ratios", array(f32_type(), count(2), false)),
        ("n", u8_type()),
    ]);
    let mut data = vec![0xFF; 12];
    data.push(9);
    assert_eq!(found(&ty, &["n", "ratio"], &data), listed(&[("n", 9)]));
    assert_eq!(
        run(&ty, &["n"], &[0; 3]).unwrap_err(),
        too_small("Root", 4, 3)
    );
}

#[test]
fn fields_are_aligned_unless_packed() {
    let ty = aligned(4, None, vec![("a", u8_type()), ("b", u32_type())]);
    let data = [7, 0xEE, 0xEE, 0xEE, 1, 2, 0, 0];
    assert_eq!(
        found(&ty, &["a", "b"], &data),
        listed(&[("a", 7), ("b", 0x0201)])
    );
    let tight = root(vec![("a", u8_type()), ("b", u32_type())]);
    assert_eq!(found(&tight, &["b"], &data), listed(&[("b", 0x01EEEEEE)]));
}

#[test]
fn structs_end_at_their_own_alignment() {
    let inner = |custom| aligned(4, custom, vec![("x", u32_type()), ("y", u8_type())]);
    let data: Vec<u8> = (0..40).collect();
    let ty = root(vec![("inner", inner(None)), ("after", u8_type())]);
    assert_eq!(found(&ty, &["after"], &data), listed(&[("after", 8)]));
    let ty = root(vec![("inner", inner(Some(16))), ("after", u8_type())]);
    assert_eq!(found(&ty, &["after"], &data), listed(&[("after", 16)]));
    let ty = root(vec![("inner", inner(Some(1))), ("after", u8_type())]);
    assert_eq!(found(&ty, &["after"], &data), listed(&[("after", 5)]));
}

#[test]
fn missing_bytes_are_reported_with_the_whole_length() {
    let ty = root(vec![("a", u8_type()), ("b", u32_type())]);
    assert_eq!(run(&ty, &[], &[1, 2, 3]).unwrap_err(), too_small("Root", 4, 3));
    assert_eq!(run(&ty, &[], &[]).unwrap_err(), too_small("Root", 1, 0));
    let ty = aligned(4, None, vec![("a", u8_type()), ("b", u32_type())]);
    assert_eq!(run(&ty, &[], &[1]).unwrap_err(), too_small("Aligned", 4, 1));
    assert_eq!(
        run(&ty, &[], &[1]).unwrap_err().shortage_message().unwrap(),
        "type 'Aligned' requires 4 bytes but only 1 available"
    );
}

#[test]
fn failures_inside_of_nested_types_name_the_root() {
    let inner = packed("Inner", Size::Variable, vec![("n", u32_type())]);
    let ty = root(vec![("inner", inner)]);
    assert_eq!(run(&ty, &[], &[1, 2]).unwrap_err(), too_small("Root", 4, 2));
}

#[test]
fn negative_fields_fail_where_bound() {
    let ty = root(vec![
        ("shift", integral(IntegralType::I16, 2)),
        ("n", u8_type()),
    ]);
    let data = [0xFF, 0xFF, 3];
    assert_eq!(found(&ty, &["n"], &data), listed(&[("n", 3)]));
    assert_eq!(
        run(&ty, &["n", "shift", "Root.shift"], &data).unwrap_err(),
        ReflectError::NegativeDynamicParam {
            typename: "Root".to_string(),
            parameter: "shift".to_string(),
        }
    );
}

#[test]
fn all_names_of_a_field_get_its_value() {
    let ty = root(vec![("n", u8_type())]);
    assert_eq!(
        found(&ty, &["n", "Root.n", "Root::n", "../n", "missing", ""], &[5]),
        listed(&[("../n", 5), ("Root.n", 5), ("Root::n", 5), ("n", 5)])
    );
}

#[test]
fn derived_parameters_are_left_out() {
    let ty = root(vec![("n", u8_type()), ("m", u8_type())]);
    let resolver = TypeResolver::new();
    let type_ir = TypeIr {
        parameters: vec![
            IrParameter {
                name: "n".to_string(),
                derived: true,
            },
            IrParameter {
                name: "m".to_string(),
                derived: false,
            },
        ],
    };
    let extractor = ParamExtractor::new(&resolver, &ty, &type_ir).unwrap();
    let params = extractor.extract(&[1, 2]).unwrap();
    assert_eq!(values(&params), listed(&[("m", 2)]));
}

#[test]
fn elements_of_arrays_have_keys() {
    let ty = root(vec![
        ("n", u8_type()),
        ("items", array(u16_type(), reference("n"), false)),
        ("after", array(u8_type(), reference("items.1"), false)),
    ]);
    let data = [3, 1, 0, 2, 0, 3, 0, 9, 9];
    assert_eq!(
        found(&ty, &["items[1]", "items.2", "items.3", "after.payload_size"], &data),
        listed(&[("after.payload_size", 2), ("items.2", 3), ("items[1]", 2)])
    );
}

#[test]
fn elements_of_composite_arrays_are_walked() {
    let pair = || packed("Pair", Size::Const(2), vec![("x", u8_type()), ("y", u8_type())]);
    let ty = root(vec![("pairs", array(pair(), count(2), false)), ("z", u8_type())]);
    assert_eq!(
        found(&ty, &["pairs[0].y", "pairs[1].x", "z"], &[1, 2, 3, 4, 5]),
        listed(&[("pairs[0].y", 2), ("pairs[1].x", 3), ("z", 5)])
    );
    assert_eq!(run(&ty, &[], &[1, 2, 3]).unwrap_err(), too_small("Root", 4, 3));
}

#[test]
fn an_element_sees_no_more_than_its_own_bytes() {
    let narrow = packed("Narrow", Size::Const(2), vec![("x", u32_type())]);
    let ty = root(vec![("items", array(narrow, count(2), false))]);
    assert_eq!(run(&ty, &[], &[0; 8]).unwrap_err(), too_small("Root", 4, 8));
}

#[test]
fn jagged_arrays_take_what_each_element_takes() {
    let item = || {
        packed(
            "Item",
            Size::Variable,
            vec![
                ("len", u8_type()),
                ("bytes", array(u8_type(), reference("len"), false)),
            ],
        )
    };
    let ty = root(vec![("items", array(item(), count(2), true)), ("z", u8_type())]);
    assert_eq!(
        found(&ty, &["items[1].len", "z"], &[2, 7, 7, 1, 8, 42]),
        listed(&[("items[1].len", 1), ("z", 42)])
    );
    assert_eq!(run(&ty, &[], &[2, 7, 7, 5]).unwrap_err(), too_small("Root", 5, 4));
    let ty = root(vec![("items", array(item(), count(2), false))]);
    assert_eq!(
        run(&ty, &[], &[0; 9]).unwrap_err(),
        unsupported(
            "Root",
            "items",
            "arrays with variable-sized elements are not supported yet"
        )
    );
}

#[test]
fn empty_arrays_take_nothing() {
    let open = || packed("Open", Size::Variable, vec![("n", u8_type())]);
    let none = || packed("Empty", Size::Const(0), vec![("n", u8_type())]);
    let ty = root(vec![
        ("a", array(open(), count(0), false)),
        ("b", array(none(), count(1 << 40), false)),
        ("n", u8_type()),
    ]);
    assert_eq!(found(&ty, &["n"], &[5]), listed(&[("n", 5)]));
}

#[test]
fn array_sizes_can_overflow() {
    let wide = packed("Wide", Size::Const(u64::MAX), vec![]);
    let ty = root(vec![("items", array(wide, count(2), false))]);
    assert_eq!(
        run(&ty, &[], &[0; 4]).unwrap_err(),
        unsupported("Root", "items", "array size overflowed")
    );
}

#[test]
fn elements_narrower_than_their_values_have_no_value() {
    let narrow = || {
        resolved(
            "narrow",
            Size::Const(2),
            2,
            ResolvedTypeKind::Primitive {
                prim_type: PrimitiveType::Integral(IntegralType::U32),
            },
        )
    };
    let ty = root(vec![("items", array(narrow(), count(2), false))]);
    assert!(try_with(vec![], &ty, &[], &[0; 8], 9).is_none());
}

#[test]
fn enums_choose_the_first_variant_with_the_tag() {
    let body = choice(
        reference("kind"),
        vec![(1, u8_type()), (7, u16_type()), (7, u32_type())],
    );
    let ty = root(vec![("kind", u8_type()), ("body", body), ("z", u8_type())]);
    assert_eq!(
        found(&ty, &["body.tag", "body", "z"], &[7, 2, 1, 9]),
        listed(&[("body", 0x0102), ("body.tag", 7), ("z", 9)])
    );
    assert_eq!(
        run(&ty, &[], &[9, 0, 0, 0]).unwrap_err(),
        unsupported("Root", "body", "enum tag value 9 not found")
    );
}

#[test]
fn sizes_of_last_fields_feed_payload_parameters() {
    let inner = || packed("Inner", Size::Variable, vec![("x", u8_type()), ("y", u16_type())]);
    let ty = root(vec![("n", u8_type()), ("inner", inner())]);
    assert_eq!(
        found(&ty, &["inner.payload_size", "inner.y.payload_size"], &[1, 2, 3, 4]),
        listed(&[("inner.payload_size", 3), ("inner.y.payload_size", 2)])
    );
}

#[test]
fn tail_unions_take_the_rest() {
    let ty = root(vec![("n", u8_type()), ("tail", tail_union())]);
    assert_eq!(
        found(&ty, &["tail.payload_size", "n"], &[1, 2, 3, 4, 5, 6]),
        listed(&[("n", 1), ("tail.payload_size", 5)])
    );
    assert_eq!(
        found(&ty, &["tail.payload_size"], &[1]),
        listed(&[("tail.payload_size", 0)])
    );
    let ty = root(vec![("tail", tail_union()), ("n", u8_type())]);
    assert_eq!(
        run(&ty, &[], &[1, 2]).unwrap_err(),
        unsupported(
            "Root",
            "tail",
            "size-discriminated unions must be the final field"
        )
    );
}

#[test]
fn payload_sizes_that_stay_unknown_fail_by_the_first_name() {
    let ty = root(vec![("n", u8_type()), ("m", u8_type())]);
    assert_eq!(
        run(
            &ty,
            &["z.payload_size", "m.payload_size", "n.payload_size"],
            &[1, 2]
        )
        .unwrap_err(),
        unsupported(
            "Root",
            "n.payload_size",
            "payload size could not be determined"
        )
    );
}

#[test]
fn unions_have_their_size_as_value() {
    let ty = root(vec![
        ("u", union(Size::Const(3))),
        ("items", array(u8_type(), reference("u"), false)),
        ("z", u8_type()),
    ]);
    assert_eq!(
        found(&ty, &["u", "z"], &[9, 9, 9, 1, 1, 1, 7]),
        listed(&[("u", 3), ("z", 7)])
    );
    assert_eq!(run(&ty, &[], &[9]).unwrap_err(), too_small("Root", 3, 1));
    let ty = root(vec![("u", union(Size::Variable))]);
    assert_eq!(
        run(&ty, &[], &[9]).unwrap_err(),
        unsupported("Root", "u", "unions with variable size are not supported yet")
    );
}

#[test]
fn references_to_types_are_followed() {
    let header = || packed("Header", Size::Const(1), vec![("len", u8_type())]);
    let outer = || packed("Outer", Size::Variable, vec![("header", type_ref("Header"))]);
    let ty = root(vec![("outer", type_ref("Outer"))]);
    let types = || vec![header(), outer()];
    let names = ["outer.header.len"];
    for max_depth in [2, 3, 100] {
        let params = try_with(types(), &ty, &names, &[5], max_depth).unwrap().unwrap();
        assert_eq!(values(&params), listed(&[("outer.header.len", 5)]));
    }
    assert!(try_with(types(), &ty, &names, &[5], 1).is_none());
    assert!(try_with(types(), &ty, &names, &[5], 0).is_none());
    assert_eq!(
        try_with(vec![outer()], &ty, &names, &[5], 2).unwrap().unwrap_err(),
        unsupported("Root", "Header", "type reference target not found")
    );
}

#[test]
fn a_reference_to_a_last_field_stays_the_last_field() {
    let mut tail = tail_union();
    tail.name = "Tail".to_string();
    let ty = root(vec![("n", u8_type()), ("tail", type_ref("Tail"))]);
    let params = try_with(vec![tail], &ty, &["tail.payload_size"], &[1, 2, 3], 1)
        .unwrap()
        .unwrap();
    assert_eq!(values(&params), listed(&[("tail.payload_size", 2)]));
}

#[test]
fn references_in_a_circle_never_end() {
    let list = || packed("List", Size::Variable, vec![("next", type_ref("List"))]);
    let ty = root(vec![("list", type_ref("List"))]);
    for max_depth in [0, 1, 50] {
        assert!(try_with(vec![list()], &ty, &[], &[0; 4], max_depth).is_none());
    }
}

#[test]
fn siblings_are_found_in_the_innermost_scope() {
    let inner = packed(
        "Inner",
        Size::Variable,
        vec![
            ("len", u8_type()),
            ("bytes", array(u8_type(), reference("len"), false)),
        ],
    );
    let outer = packed("Outer", Size::Variable, vec![("len", u8_type()), ("inner", inner)]);
    let ty = root(vec![("outer", outer), ("z", u8_type())]);
    assert_eq!(found(&ty, &["z"], &[9, 2, 0, 0, 42]), listed(&[("z", 42)]));
}

#[test]
fn a_top_level_path_comes_before_the_scopes() {
    let inner = packed(
        "Inner",
        Size::Variable,
        vec![
            ("len", u8_type()),
            ("bytes", array(u8_type(), reference("len"), false)),
        ],
    );
    let ty = root(vec![("len", u8_type()), ("inner", inner), ("z", u8_type())]);
    assert_eq!(found(&ty, &["z"], &[1, 3, 0, 42]), listed(&[("z", 42)]));
}

#[test]
fn declared_references_say_where_values_come_from() {
    let mut ty = root(vec![
        ("len", u8_type()),
        ("body", array(u8_type(), reference("len"), false)),
    ]);
    let mut references = StrMap::new();
    let width = || PrimitiveType::Integral(IntegralType::U8);
    references.insert("_typeref_Root::len".to_string(), width());
    references.insert("_typeref_Any::payload_size".to_string(), width());
    ty.dynamic_params.insert("body".to_string(), references);
    assert_eq!(
        found(
            &ty,
            &["body._typeref_Root::len", "body._typeref_Any::payload_size"],
            &[2, 8, 8]
        ),
        listed(&[
            ("body._typeref_Any::payload_size", 2),
            ("body._typeref_Root::len", 2),
        ])
    );
}

#[test]
fn further_bytes_change_nothing_without_tail_unions() {
    let ty = root(vec![
        ("n", u8_type()),
        ("items", array(u16_type(), reference("n"), false)),
    ]);
    let names = ["n", "items[0]", "items.payload_size"];
    let data = [2, 1, 0, 2, 0];
    let mut longer = data.to_vec();
    longer.extend_from_slice(&[0xFF; 7]);
    assert_eq!(found(&ty, &names, &data), found(&ty, &names, &longer));
}

#[test]
fn extracting_twice_gives_the_same() {
    let ty = root(vec![("n", u8_type()), ("tail", tail_union())]);
    let resolver = TypeResolver::new();
    let type_ir = asking_for(&["n", "tail.payload_size"]);
    let extractor = ParamExtractor::new(&resolver, &ty, &type_ir).unwrap();
    let first = values(&extractor.extract(&[3, 1, 1]).unwrap());
    assert_eq!(first, listed(&[("n", 3), ("tail.payload_size", 2)]));
    assert_eq!(values(&extractor.extract(&[3, 1, 1]).unwrap()), first);
    assert_eq!(values(&extractor.try_extract(&[3, 1, 1], 0).unwrap().unwrap()), first);
}

#[test]
fn alignment_can_overflow() {
    let bytes = || array(u8_type(), count(3), false);
    let far = || resolved("far", Size::Const(1), u64::MAX, u8_type().kind);
    let ty = aligned(1, None, vec![("bytes", bytes()), ("far", far())]);
    assert_eq!(
        run(&ty, &[], &[0; 9]).unwrap_err(),
        unsupported("Aligned", "far", "alignment overflow")
    );
    let ty = aligned(u64::MAX, None, vec![("bytes", bytes())]);
    assert_eq!(
        run(&ty, &[], &[0; 9]).unwrap_err(),
        unsupported("Aligned", "struct", "alignment overflow")
    );
    let wide = || aligned(u64::MAX, None, vec![("x", u16_type())]);
    let ty = root(vec![("n", u8_type()), ("wide", wide())]);
    assert_eq!(
        run(&ty, &[], &[0; 9]).unwrap_err(),
        unsupported("Root", "wide", "alignment overflow")
    );
}

#[test]
fn jagged_array_sizes_can_overflow() {
    let item = aligned(
        1,
        Some(u64::MAX),
        vec![
            ("len", u8_type()),
            ("bytes", array(u8_type(), reference("len"), false)),
        ],
    );
    let ty = root(vec![("items", array(item, count(2), true))]);
    assert_eq!(
        run(&ty, &[], &[0, 1, 7, 7]).unwrap_err(),
        unsupported("Root", "items", "jagged array size overflowed")
    );
}

#[test]
fn an_ordinary_field_named_tag_keeps_its_value() {
    let inner = packed("Inner", Size::Variable, vec![("tag", u8_type())]);
    let body = choice(reference("inner.tag"), vec![(7, u8_type())]);
    let ty = root(vec![("inner", inner), ("body", body)]);
    assert_eq!(
        found(&ty, &["inner.tag", "body.tag", "body"], &[7, 9]),
        listed(&[("body", 9), ("body.tag", 7), ("inner.tag", 7)])
    );
}

#[test]
fn a_tag_gives_way_to_a_field_at_the_same_path() {
    let variant = packed("Variant", Size::Variable, vec![("tag", u8_type())]);
    let body = choice(reference("kind"), vec![(7, variant)]);
    let ty = root(vec![("kind", u8_type()), ("body", body)]);
    assert_eq!(
        found(&ty, &["body.tag"], &[7, 9]),
        listed(&[("body.tag", 9)])
    );
}

#[test]
fn values_fit_machine_integers() {
    let ty = root(vec![("n", integral(IntegralType::U64, 8))]);
    assert_eq!(
        found(&ty, &["n"], &[0xFF; 8]),
        listed(&[("n", u64::MAX as u128)])
    );
}

#[test]
fn unreached_tail_unions_do_not_count() {
    let mut tail = tail_union();
    tail.name = "Tail".to_string();
    let body = choice(reference("n"), vec![(1, u8_type())]);
    let ty = root(vec![("n", u8_type()), ("body", body)]);
    let extracted = |data: &[u8]| {
        let mut other = tail_union();
        other.name = "Other".to_string();
        values(&try_with(vec![other], &ty, &["n", "body"], data, 0).unwrap().unwrap())
    };
    assert_eq!(extracted(&[1, 2]), extracted(&[1, 2, 3, 4]));
    let open = root(vec![("n", u8_type()), ("tail", type_ref("Tail"))]);
    let params = try_with(vec![tail], &open, &["tail.payload_size"], &[1, 2, 3, 4], 1);
    assert_eq!(
        values(&params.unwrap().unwrap()),
        listed(&[("tail.payload_size", 3)])
    );
}

#[test]
fn structs_without_fields_take_nothing() {
    let none = || aligned(8, Some(16), vec![]);
    let ty = root(vec![("none", none()), ("z", u8_type())]);
    assert_eq!(found(&ty, &["z"], &[5]), listed(&[("z", 5)]));
}

#[test]
fn declared_offsets_make_no_difference() {
    let mut ty = root(vec![("a", u8_type()), ("b", u8_type())]);
    let plain = found(&ty, &["a", "b"], &[1, 2]);
    if let ResolvedTypeKind::Struct { fields, .. } = &mut ty.kind {
        fields[0].offset = Some(1);
        fields[1].offset = Some(100);
    }
    assert_eq!(found(&ty, &["a", "b"], &[1, 2]), plain);
    assert_eq!(plain, listed(&[("a", 1), ("b", 2)]));
}

#[test]
fn lengths_scaled_by_literals_always_have_a_value() {
    let scaled = ExprKind::Mul(BinaryExpr {
        left: Box::new(reference("n")),
        right: Box::new(count(4)),
    });
    let ty = root(vec![
        ("n", integral(IntegralType::U64, 8)),
        ("items", array(u8_type(), scaled, false)),
    ]);
    let resolver = TypeResolver::new();
    let type_ir = asking_for(&["items.payload_size"]);
    let extractor = ParamExtractor::new(&resolver, &ty, &type_ir).unwrap();
    let mut data = 2u64.to_le_bytes().to_vec();
    data.extend_from_slice(&[0; 9]);
    assert_eq!(
        values(&extractor.extract(&data).unwrap()),
        listed(&[("items.payload_size", 8)])
    );
    let error = extractor.extract(&[0xFF; 8]).unwrap_err();
    assert_eq!(error, too_small("Root", (usize::MAX - 3) as u128, 8));
}
