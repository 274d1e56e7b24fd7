use abi_reflect::schema::{
    BinaryExpr, ExprKind, FieldRefExpr, IntegralType, IrParameter, LiteralExpr, PrimitiveType,
    ResolvedField, ResolvedType, ResolvedTypeKind, Size, TypeIr, TypeQueryExpr, TypeResolver,
    UnaryExpr,
};
use abi_reflect::errors::Halt;
use abi_reflect::mapping::FieldParams;
use abi_reflect::str_map::StrMap;
use abi_reflect::walker::StructWalker;
use abi_reflect::{ParamExtractor, ReflectError};

fn resolved(name: &str, size: Size, alignment: u64, kind: ResolvedTypeKind) -> ResolvedType {
    ResolvedType {
        name: name.to_string(),
        size,
        alignment,
        dynamic_params: StrMap::new(),
        kind,
    }
}

fn byte(int_type: IntegralType) -> ResolvedType {
    resolved(
        "byte",
        Size::Const(1),
        1,
        ResolvedTypeKind::Primitive {
            prim_type: PrimitiveType::Integral(int_type),
        },
    )
}

fn field(name: &str, field_type: ResolvedType) -> ResolvedField {
    ResolvedField {
        name: name.to_string(),
        field_type,
        offset: None,
    }
}

/// The length of an array whose length is `expr`, behind the fields `a` with the value 6 and `b`
/// with the value -3; `None` where the expression has no value.
fn evaluate(expr: ExprKind) -> Option<Result<u128, ReflectError>> {
    let out = resolved(
        "out",
        Size::Variable,
        1,
        ResolvedTypeKind::Array {
            element_type: Box::new(byte(IntegralType::U8)),
            size_expression: expr,
            jagged: false,
        },
    );
    let root = resolved(
        "Root",
        Size::Variable,
        1,
        ResolvedTypeKind::Struct {
            fields: vec![
                field("a", byte(IntegralType::U8)),
                field("b", byte(IntegralType::I8)),
                field("out", out),
            ],
            packed: true,
            custom_alignment: None,
        },
    );
    let mut resolver = TypeResolver::new();
    let empty_struct = || ResolvedTypeKind::Struct {
        fields: vec![],
        packed: true,
        custom_alignment: None,
    };
    resolver.types.insert(
        "Fixed".to_string(),
        resolved("Fixed", Size::Const(12), 8, empty_struct()),
    );
    resolver.types.insert(
        "Open".to_string(),
        resolved("Open", Size::Variable, 2, empty_struct()),
    );
    let type_ir = TypeIr {
        parameters: vec![IrParameter {
            name: "out.payload_size".to_string(),
            derived: false,
        }],
    };
    let extractor = ParamExtractor::new(&resolver, &root, &type_ir).unwrap();
    let mut data = vec![6u8, 0xFD];
    data.resize(400, 0);
    let params = extractor.try_extract(&data, 0)?;
    Some(params.map(|params| *params.get("out.payload_size").unwrap()))
}

fn value(expr: ExprKind) -> u128 {
    evaluate(expr).unwrap().unwrap()
}

fn failure(expr: ExprKind) -> (String, String) {
    match evaluate(expr).unwrap().unwrap_err() {
        ReflectError::UnsupportedDynamicParam {
            typename,
            parameter,
            reason,
        } => {
            assert_eq!(typename, "Root");
            (parameter, reason)
        }
        other => panic!("{other:?}"),
    }
}

fn failed(parameter: &str, reason: &str) -> (String, String) {
    (parameter.to_string(), reason.to_string())
}

fn lit(v: i64) -> ExprKind {
    ExprKind::Literal(LiteralExpr::I64(v))
}

fn reference(path: &str) -> ExprKind {
    ExprKind::FieldRef(FieldRefExpr {
        path: vec![path.to_string()],
    })
}

fn query(typename: &str) -> TypeQueryExpr {
    TypeQueryExpr {
        typename: typename.to_string(),
    }
}

fn two(left: ExprKind, right: ExprKind) -> BinaryExpr {
    BinaryExpr {
        left: Box::new(left),
        right: Box::new(right),
    }
}

fn one(operand: ExprKind) -> UnaryExpr {
    UnaryExpr {
        operand: Box::new(operand),
    }
}

/// `expr` moved up by ten, to make small negative values visible.
fn lifted(expr: ExprKind) -> ExprKind {
    ExprKind::Add(two(expr, lit(10)))
}

#[test]
fn literals_of_every_width() {
    assert_eq!(value(ExprKind::Literal(LiteralExpr::U64(7))), 7);
    assert_eq!(value(ExprKind::Literal(LiteralExpr::U32(7))), 7);
    assert_eq!(value(ExprKind::Literal(LiteralExpr::U16(7))), 7);
    assert_eq!(value(ExprKind::Literal(LiteralExpr::U8(7))), 7);
    assert_eq!(value(lifted(ExprKind::Literal(LiteralExpr::I64(-7)))), 3);
    assert_eq!(value(lifted(ExprKind::Literal(LiteralExpr::I32(-7)))), 3);
    assert_eq!(value(lifted(ExprKind::Literal(LiteralExpr::I16(-7)))), 3);
    assert_eq!(value(lifted(ExprKind::Literal(LiteralExpr::I8(-7)))), 3);
}

#[test]
fn references_to_fields() {
    assert_eq!(value(reference("a")), 6);
    assert_eq!(value(reference("../a")), 6);
    assert_eq!(value(lifted(reference("b"))), 7);
    assert_eq!(
        failure(reference("missing")),
        failed("missing", "required field value not available")
    );
}

#[test]
fn type_queries() {
    assert_eq!(value(ExprKind::Sizeof(query("Fixed"))), 12);
    assert_eq!(value(ExprKind::Alignof(query("Fixed"))), 8);
    assert_eq!(value(ExprKind::Alignof(query("Open"))), 2);
    assert_eq!(
        failure(ExprKind::Sizeof(query("Open"))),
        failed("Open", "sizeof of variable type unsupported")
    );
    assert_eq!(
        failure(ExprKind::Sizeof(query("None"))),
        failed("None", "sizeof target type not found")
    );
    assert_eq!(
        failure(ExprKind::Alignof(query("None"))),
        failed("None", "alignof target type not found")
    );
}

#[test]
fn arithmetic_operators() {
    assert_eq!(value(ExprKind::Add(two(reference("a"), lit(4)))), 10);
    assert_eq!(value(ExprKind::Sub(two(reference("a"), lit(4)))), 2);
    assert_eq!(value(ExprKind::Mul(two(reference("a"), lit(7)))), 42);
    assert_eq!(value(lifted(ExprKind::Div(two(lit(-7), lit(2))))), 7);
    assert_eq!(value(lifted(ExprKind::Mod(two(lit(-7), lit(2))))), 9);
    assert_eq!(value(ExprKind::Pow(two(lit(2), lit(5)))), 32);
    assert_eq!(value(lifted(ExprKind::Pow(two(lit(-2), lit(3))))), 2);
    assert_eq!(value(ExprKind::Pow(two(lit(5), lit((1 << 32) + 1)))), 5);
    assert_eq!(value(ExprKind::Neg(one(reference("b")))), 3);
}

#[test]
fn bit_operators() {
    assert_eq!(value(ExprKind::BitAnd(two(lit(6), lit(3)))), 2);
    assert_eq!(value(ExprKind::BitOr(two(lit(6), lit(9)))), 15);
    assert_eq!(value(ExprKind::BitXor(two(lit(6), lit(3)))), 5);
    assert_eq!(value(ExprKind::LeftShift(two(lit(3), lit(4)))), 48);
    assert_eq!(value(ExprKind::RightShift(two(lit(48), lit(4)))), 3);
    assert_eq!(value(ExprKind::BitNot(one(lit(-8)))), 7);
    assert_eq!(value(ExprKind::Popcount(one(lit(255)))), 8);
    assert_eq!(value(ExprKind::Popcount(one(lit(-1)))), 128);
}

#[test]
fn comparisons() {
    for (l, r) in [(1, 2), (2, 2), (3, 2), (-3, 2)] {
        let pair = || two(lit(l), lit(r));
        assert_eq!(value(ExprKind::Eq(pair())), (l == r) as u128);
        assert_eq!(value(ExprKind::Ne(pair())), (l != r) as u128);
        assert_eq!(value(ExprKind::Lt(pair())), (l < r) as u128);
        assert_eq!(value(ExprKind::Gt(pair())), (l > r) as u128);
        assert_eq!(value(ExprKind::Le(pair())), (l <= r) as u128);
        assert_eq!(value(ExprKind::Ge(pair())), (l >= r) as u128);
    }
}

#[test]
fn connectives() {
    for (l, r) in [(0, 0), (0, -1), (5, 0), (5, 2)] {
        let pair = || two(lit(l), lit(r));
        let (p, q) = (l != 0, r != 0);
        assert_eq!(value(ExprKind::And(pair())), (p && q) as u128);
        assert_eq!(value(ExprKind::Or(pair())), (p || q) as u128);
        assert_eq!(value(ExprKind::Xor(pair())), (p != q) as u128);
    }
    assert_eq!(value(ExprKind::Not(one(lit(0)))), 1);
    assert_eq!(value(ExprKind::Not(one(lit(-5)))), 0);
}

#[test]
fn connectives_evaluate_both_operands() {
    assert_eq!(
        failure(ExprKind::Or(two(lit(1), reference("missing")))),
        failed("missing", "required field value not available")
    );
    assert_eq!(
        failure(ExprKind::And(two(lit(0), reference("missing")))),
        failed("missing", "required field value not available")
    );
}

#[test]
fn the_left_operand_fails_first() {
    assert_eq!(
        failure(ExprKind::Add(two(reference("x"), reference("y")))),
        failed("x", "required field value not available")
    );
}

#[test]
fn rejected_operands() {
    assert_eq!(
        failure(ExprKind::Div(two(lit(1), lit(0)))),
        failed("expression", "division by zero")
    );
    assert_eq!(
        failure(ExprKind::Mod(two(lit(1), lit(0)))),
        failed("expression", "modulo by zero")
    );
    assert_eq!(
        failure(ExprKind::LeftShift(two(lit(1), lit(-1)))),
        failed("expression", "negative shift")
    );
    assert_eq!(
        failure(ExprKind::RightShift(two(lit(1), lit(-1)))),
        failed("expression", "negative shift")
    );
    assert_eq!(
        failure(ExprKind::Pow(two(lit(2), lit(-1)))),
        failed("pow", "negative exponent unsupported")
    );
}

#[test]
fn negative_lengths_are_described() {
    let reason = "expression evaluated to a negative value";
    assert_eq!(failure(lit(-1)), failed("literal", reason));
    assert_eq!(failure(reference("../b")), failed("field(b)", reason));
    assert_eq!(
        failure(ExprKind::Neg(one(lit(1)))),
        failed("expression", reason)
    );
    assert_eq!(
        failure(ExprKind::LeftShift(two(lit(1), lit(127)))),
        failed("expression", reason)
    );
}

#[test]
fn values_beyond_the_range_are_told_apart_from_errors() {
    let huge = || ExprKind::LeftShift(two(lit(1), lit(126)));
    let least = || ExprKind::LeftShift(two(lit(1), lit(127)));
    assert!(evaluate(ExprKind::Add(two(huge(), huge()))).is_none());
    assert!(evaluate(ExprKind::Sub(two(least(), lit(1)))).is_none());
    assert!(evaluate(ExprKind::Mul(two(huge(), lit(2)))).is_none());
    assert!(evaluate(ExprKind::Div(two(least(), lit(-1)))).is_none());
    assert!(evaluate(ExprKind::Mod(two(least(), lit(-1)))).is_none());
    assert!(evaluate(ExprKind::Pow(two(lit(2), lit(127)))).is_none());
    assert!(evaluate(ExprKind::Neg(one(least()))).is_none());
    assert!(evaluate(ExprKind::LeftShift(two(lit(1), lit(128)))).is_none());
    assert!(evaluate(ExprKind::RightShift(two(lit(1), lit(128)))).is_none());
}

#[test]
fn lengths_count_by_their_low_bits() {
    assert_eq!(value(ExprKind::Pow(two(lit(2), lit(64)))), 0);
    assert_eq!(
        value(ExprKind::Add(two(
            ExprKind::Pow(two(lit(2), lit(64))),
            lit(5)
        ))),
        5
    );
}

#[test]
fn expressions_can_be_evaluated_on_their_own() {
    let resolver = TypeResolver::new();
    let field_params: FieldParams = StrMap::new();
    let walker = StructWalker::new("T", &resolver, &field_params, &StrMap::new(), 0);
    let quotient = ExprKind::Div(two(lit(-7), lit(2)));
    let remainder = ExprKind::Mod(two(lit(-7), lit(2)));
    assert_eq!(walker.eval_expr_signed(&quotient), Ok(-3));
    assert_eq!(walker.eval_expr_signed(&remainder), Ok(-1));
    assert_eq!(walker.eval_expr(&lit(7)), Ok(7));
    assert_eq!(
        walker.eval_expr(&quotient),
        Err(Halt::Error(ReflectError::UnsupportedDynamicParam {
            typename: "T".to_string(),
            parameter: "expression".to_string(),
            reason: "expression evaluated to a negative value".to_string(),
        }))
    );
    assert_eq!(walker.lookup_field_value("a"), None);
    let overflow = ExprKind::Mul(two(
        ExprKind::LeftShift(two(lit(1), lit(126))),
        lit(2),
    ));
    assert_eq!(walker.eval_expr_signed(&overflow), Err(Halt::Undefined));
}
