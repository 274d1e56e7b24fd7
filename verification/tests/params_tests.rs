use abi_reflect::schema::{
    ExprKind, FieldRefExpr, FloatingPointType, IntegralType, IrParameter, PrimitiveType,
    ResolvedEnumVariant, ResolvedField, ResolvedSizeDiscriminatedVariant, ResolvedType,
    ResolvedTypeKind, Size, TypeIr, TypeResolver,
};
use abi_reflect::str_map::StrMap;
use abi_reflect::{ParamExtractor, ReflectError};

fn primitive_type(name: &str, prim: PrimitiveType) -> ResolvedType {
    let size = match &prim {
        PrimitiveType::Integral(int) => match int {
            IntegralType::U8 | IntegralType::I8 | IntegralType::Char => 1,
            IntegralType::U16 | IntegralType::I16 => 2,
            IntegralType::U32 | IntegralType::I32 => 4,
            IntegralType::U64 | IntegralType::I64 => 8,
        },
        PrimitiveType::FloatingPoint(ft) => match ft {
            FloatingPointType::F16 => 2,
            FloatingPointType::F32 => 4,
            FloatingPointType::F64 => 8,
        },
    };
    ResolvedType {
        name: name.into(),
        size: Size::Const(size),
        alignment: 1,
        dynamic_params: StrMap::new(),
        kind: ResolvedTypeKind::Primitive { prim_type: prim },
    }
}

#[test]
fn extracts_payload_size_param_for_tail_sdu() {
    let fixed_field = primitive_type("Fixed", PrimitiveType::Integral(IntegralType::U8));
    let payload_variant =
        primitive_type("PayloadVariant", PrimitiveType::Integral(IntegralType::U32));
    let payload_union = ResolvedType {
        name: "PayloadUnion".into(),
        size: Size::Variable,
        alignment: 1,
        dynamic_params: StrMap::new(),
        kind: ResolvedTypeKind::SizeDiscriminatedUnion {
            variants: vec![ResolvedSizeDiscriminatedVariant {
                name: "Variant".into(),
                expected_size: 4,
                variant_type: payload_variant,
            }],
        },
    };

    let mut payload_refs = StrMap::new();
    payload_refs.insert(
        "payload.payload_size".into(),
        PrimitiveType::Integral(IntegralType::U64),
    );
    let mut dynamic_params = StrMap::new();
    dynamic_params.insert("payload".into(), payload_refs);

    let root_type = ResolvedType {
        name: "Container".into(),
        size: Size::Variable,
        alignment: 1,
        dynamic_params,
        kind: ResolvedTypeKind::Struct {
            fields: vec![
                ResolvedField {
                    name: "fixed".into(),
                    field_type: fixed_field,
                    offset: Some(0),
                },
                ResolvedField {
                    name: "payload".into(),
                    field_type: payload_union,
                    offset: Some(1),
                },
            ],
            packed: true,
            custom_alignment: None,
        },
    };

    let mut resolver = TypeResolver::new();
    resolver.types.insert(root_type.name.clone(), root_type);

    let type_ir = TypeIr {
        parameters: vec![IrParameter {
            name: "payload.payload_size".into(),
            derived: false,
        }],
    };

    let root_type = resolver.get_type_info("Container").expect("root type");
    let extractor = ParamExtractor::new(&resolver, root_type, &type_ir).expect("extractor");
    let mut buffer = vec![0xAB];
    buffer.extend_from_slice(&[0xDE, 0xAD, 0xBE, 0xEF]);

    let params = extractor.extract(&buffer).expect("params");
    assert_eq!(params.get("payload.payload_size"), Some(&4u128));
}

#[test]
fn records_enum_tag_parameters() {
    let tag_field = primitive_type("tag", PrimitiveType::Integral(IntegralType::U8));
    let variant_body = primitive_type("Body", PrimitiveType::Integral(IntegralType::U16));
    let enum_type = ResolvedType {
        name: "InnerEnum".into(),
        size: Size::Variable,
        alignment: 1,
        dynamic_params: StrMap::new(),
        kind: ResolvedTypeKind::Enum {
            tag_expression: ExprKind::FieldRef(FieldRefExpr {
                path: vec!["tag".into()],
            }),
            variants: vec![ResolvedEnumVariant {
                name: "Variant".into(),
                tag_value: 7,
                variant_type: variant_body,
                requires_payload_size: false,
            }],
        },
    };

    let mut dynamic_params = StrMap::new();
    let mut enum_refs = StrMap::new();
    enum_refs.insert("body.tag".into(), PrimitiveType::Integral(IntegralType::U8));
    dynamic_params.insert("body".into(), enum_refs);

    let root_type = ResolvedType {
        name: "Container".into(),
        size: Size::Variable,
        alignment: 1,
        dynamic_params,
        kind: ResolvedTypeKind::Struct {
            fields: vec![
                ResolvedField {
                    name: "tag".into(),
                    field_type: tag_field,
                    offset: Some(0),
                },
                ResolvedField {
                    name: "body".into(),
                    field_type: enum_type,
                    offset: Some(1),
                },
            ],
            packed: true,
            custom_alignment: None,
        },
    };

    let mut resolver = TypeResolver::new();
    resolver.types.insert(root_type.name.clone(), root_type);
    let type_ir = TypeIr {
        parameters: vec![IrParameter {
            name: "body.tag".into(),
            derived: false,
        }],
    };

    let root_type = resolver.get_type_info("Container").expect("root type");
    let extractor = ParamExtractor::new(&resolver, root_type, &type_ir).expect("extractor");
    let buffer = vec![7u8, 0x34, 0x12];
    let params = extractor.extract(&buffer).expect("params");
    assert_eq!(params.get("body.tag"), Some(&7u128));
}

#[test]
fn maps_type_qualified_params_to_parent_fields() {
    let tag_field = primitive_type("event_type", PrimitiveType::Integral(IntegralType::U8));
    let short_variant = primitive_type("Short", PrimitiveType::Integral(IntegralType::U8));
    let long_variant = primitive_type("Long", PrimitiveType::Integral(IntegralType::U16));

    let mut enum_param_refs = StrMap::new();
    let mut enum_refs = StrMap::new();
    enum_refs.insert(
        "event_type".into(),
        PrimitiveType::Integral(IntegralType::U8),
    );
    enum_param_refs.insert("Event::payload".into(), enum_refs);

    let payload_enum = ResolvedType {
        name: "Event::payload".into(),
        size: Size::Variable,
        alignment: 1,
        dynamic_params: enum_param_refs,
        kind: ResolvedTypeKind::Enum {
            tag_expression: ExprKind::FieldRef(FieldRefExpr {
                path: vec!["event_type".into()],
            }),
            variants: vec![
                ResolvedEnumVariant {
                    name: "Short".into(),
                    tag_value: 0,
                    variant_type: short_variant,
                    requires_payload_size: false,
                },
                ResolvedEnumVariant {
                    name: "Long".into(),
                    tag_value: 1,
                    variant_type: long_variant,
                    requires_payload_size: false,
                },
            ],
        },
    };

    let mut struct_dynamic = StrMap::new();
    let mut struct_refs = StrMap::new();
    struct_refs.insert(
        "event_type".into(),
        PrimitiveType::Integral(IntegralType::U8),
    );
    struct_dynamic.insert("payload".into(), struct_refs);

    let root_type = ResolvedType {
        name: "Event".into(),
        size: Size::Variable,
        alignment: 1,
        dynamic_params: struct_dynamic,
        kind: ResolvedTypeKind::Struct {
            fields: vec![
                ResolvedField {
                    name: "event_type".into(),
                    field_type: tag_field,
                    offset: Some(0),
                },
                ResolvedField {
                    name: "payload".into(),
                    field_type: payload_enum,
                    offset: None,
                },
            ],
            packed: true,
            custom_alignment: None,
        },
    };

    let mut resolver = TypeResolver::new();
    resolver.types.insert(root_type.name.clone(), root_type);

    let type_ir = TypeIr {
        parameters: vec![
            IrParameter {
                name: "payload.event_type".into(),
                derived: false,
            },
            IrParameter {
                name: "Event::payload.event_type".into(),
                derived: false,
            },
        ],
    };

    let root_type = resolver.get_type_info("Event").expect("root type");
    let extractor = ParamExtractor::new(&resolver, root_type, &type_ir).expect("extractor");
    let buffer = vec![1u8, 0xAB, 0xCD];
    let params = extractor.extract(&buffer).expect("params");
    assert_eq!(params.get("payload.event_type"), Some(&1u128));
    assert_eq!(params.get("Event::payload.event_type"), Some(&1u128));
}

#[test]
fn allows_negative_signed_fields_that_are_not_dynamic_params() {
    let tag_field = primitive_type("tag", PrimitiveType::Integral(IntegralType::U8));
    let exponent_field = primitive_type("exponent", PrimitiveType::Integral(IntegralType::I32));

    let root_type = ResolvedType {
        name: "Container".into(),
        size: Size::Const(5),
        alignment: 1,
        dynamic_params: StrMap::new(),
        kind: ResolvedTypeKind::Struct {
            fields: vec![
                ResolvedField {
                    name: "tag".into(),
                    field_type: tag_field,
                    offset: Some(0),
                },
                ResolvedField {
                    name: "exponent".into(),
                    field_type: exponent_field,
                    offset: Some(1),
                },
            ],
            packed: true,
            custom_alignment: None,
        },
    };

    let mut resolver = TypeResolver::new();
    resolver.types.insert(root_type.name.clone(), root_type);

    let type_ir = TypeIr {
        parameters: vec![IrParameter {
            name: "tag".into(),
            derived: false,
        }],
    };

    let root_type = resolver.get_type_info("Container").expect("root type");
    let extractor = ParamExtractor::new(&resolver, root_type, &type_ir).expect("extractor");
    let buffer = vec![7u8, 0xFF, 0xFF, 0xFF, 0xFF];

    let params = extractor.extract(&buffer).expect("params");
    assert_eq!(params.get("tag"), Some(&7u128));
}

#[test]
fn rejects_negative_signed_field_bound_as_dynamic_param() {
    let exponent_field = primitive_type("exponent", PrimitiveType::Integral(IntegralType::I32));

    let root_type = ResolvedType {
        name: "Container".into(),
        size: Size::Const(4),
        alignment: 1,
        dynamic_params: StrMap::new(),
        kind: ResolvedTypeKind::Struct {
            fields: vec![ResolvedField {
                name: "exponent".into(),
                field_type: exponent_field,
                offset: Some(0),
            }],
            packed: true,
            custom_alignment: None,
        },
    };

    let mut resolver = TypeResolver::new();
    resolver.types.insert(root_type.name.clone(), root_type);

    let type_ir = TypeIr {
        parameters: vec![IrParameter {
            name: "exponent".into(),
            derived: false,
        }],
    };

    let root_type = resolver.get_type_info("Container").expect("root type");
    let extractor = ParamExtractor::new(&resolver, root_type, &type_ir).expect("extractor");
    let buffer = vec![0xFF, 0xFF, 0xFF, 0xFF];

    let err = extractor
        .extract(&buffer)
        .expect_err("negative dynamic param");
    assert!(matches!(
        err,
        ReflectError::NegativeDynamicParam { ref parameter, .. } if parameter == "exponent"
    ));
}
