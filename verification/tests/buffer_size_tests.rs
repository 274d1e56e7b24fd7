use abi_reflect::schema::{
    ExprKind, FieldRefExpr, IntegralType, IrParameter, PrimitiveType, ResolvedField, ResolvedType,
    ResolvedTypeKind, Size, TypeIr, TypeResolver,
};
use abi_reflect::str_map::StrMap;
use abi_reflect::{ParamExtractor, ReflectError};

fn u32_type(name: &str) -> ResolvedType {
    ResolvedType {
        name: name.into(),
        size: Size::Const(4),
        alignment: 4,
        dynamic_params: StrMap::new(),
        kind: ResolvedTypeKind::Primitive {
            prim_type: PrimitiveType::Integral(IntegralType::U32),
        },
    }
}

#[test]
fn reports_actual_input_length_for_truncated_dynamic_array() {
    let payload = ResolvedType {
        name: "Payload".into(),
        size: Size::Variable,
        alignment: 4,
        dynamic_params: StrMap::new(),
        kind: ResolvedTypeKind::Struct {
            fields: vec![
                ResolvedField {
                    name: "count".into(),
                    field_type: u32_type("count"),
                    offset: Some(0),
                },
                ResolvedField {
                    name: "values".into(),
                    field_type: ResolvedType {
                        name: "values".into(),
                        size: Size::Variable,
                        alignment: 4,
                        dynamic_params: StrMap::new(),
                        kind: ResolvedTypeKind::Array {
                            element_type: Box::new(u32_type("value")),
                            size_expression: ExprKind::FieldRef(FieldRefExpr {
                                path: vec!["count".into()],
                            }),
                            jagged: false,
                        },
                    },
                    offset: Some(4),
                },
            ],
            packed: true,
            custom_alignment: None,
        },
    };
    let mut resolver = TypeResolver::new();
    resolver.types.insert(payload.name.clone(), payload);
    let type_ir = TypeIr {
        parameters: vec![IrParameter {
            name: "values.count".into(),
            derived: false,
        }],
    };
    let root_type = resolver.get_type_info("Payload").expect("root type");
    let extractor = ParamExtractor::new(&resolver, root_type, &type_ir).expect("extractor");

    let mut bytes = 12u32.to_le_bytes().to_vec();
    bytes.extend_from_slice(&[0; 12]);
    let error = extractor.extract(&bytes).unwrap_err();

    assert_eq!(
        error.shortage_message().unwrap(),
        "type 'Payload' requires 48 bytes but only 16 available"
    );
    assert!(matches!(
        error,
        ReflectError::BufferTooSmall {
            required: 48,
            available: 16,
            ..
        }
    ));
}
