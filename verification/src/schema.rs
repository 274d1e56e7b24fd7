//! The description of a binary layout: resolved types, size and tag expressions, and the
//! parameters that a layout depends on.

use vstd::prelude::*;

use crate::str_map::StrMap;

verus! {

/// The integral types a layout can hold, little-endian.
#[derive(Debug, Clone, Copy, PartialEq, Eq, Structural)]
pub enum IntegralType {
    U8,
    U16,
    U32,
    U64,
    I8,
    I16,
    I32,
    I64,
    Char,
}

/// The floating-point types a layout can hold.
#[derive(Debug, Clone, Copy, PartialEq, Eq, Structural)]
pub enum FloatingPointType {
    F16,
    F32,
    F64,
}

/// The primitive types a layout can hold.
#[derive(Debug, Clone, Copy, PartialEq, Eq, Structural)]
pub enum PrimitiveType {
    Integral(IntegralType),
    FloatingPoint(FloatingPointType),
}

/// A literal of a size or tag expression.
#[derive(Debug, Clone, Copy, PartialEq, Eq, Structural)]
pub enum LiteralExpr {
    U64(u64),
    U32(u32),
    U16(u16),
    U8(u8),
    I64(i64),
    I32(i32),
    I16(i16),
    I8(i8),
}

/// A reference to the value of a field that was read before.
#[derive(Debug)]
pub struct FieldRefExpr {
    pub path: Vec<String>,
}

/// A question about a named type.
#[derive(Debug)]
pub struct TypeQueryExpr {
    pub typename: String,
}

/// An operator with two operands.
#[derive(Debug)]
pub struct BinaryExpr {
    pub left: Box<ExprKind>,
    pub right: Box<ExprKind>,
}

/// An operator with one operand.
#[derive(Debug)]
pub struct UnaryExpr {
    pub operand: Box<ExprKind>,
}

/// An expression that gives the length of an array or the tag of an enum.
#[derive(Debug)]
pub enum ExprKind {
    Literal(LiteralExpr),
    FieldRef(FieldRefExpr),
    Sizeof(TypeQueryExpr),
    Alignof(TypeQueryExpr),
    Add(BinaryExpr),
    Sub(BinaryExpr),
    Mul(BinaryExpr),
    Div(BinaryExpr),
    Mod(BinaryExpr),
    Pow(BinaryExpr),
    BitAnd(BinaryExpr),
    BitOr(BinaryExpr),
    BitXor(BinaryExpr),
    LeftShift(BinaryExpr),
    RightShift(BinaryExpr),
    BitNot(UnaryExpr),
    Neg(UnaryExpr),
    Not(UnaryExpr),
    Popcount(UnaryExpr),
    Eq(BinaryExpr),
    Ne(BinaryExpr),
    Lt(BinaryExpr),
    Gt(BinaryExpr),
    Le(BinaryExpr),
    Ge(BinaryExpr),
    And(BinaryExpr),
    Or(BinaryExpr),
    Xor(BinaryExpr),
}

/// The size of a type in bytes, where it does not depend on the data.
#[derive(Debug, Clone, Copy, PartialEq, Eq, Structural)]
pub enum Size {
    Const(u64),
    Variable,
}

/// A field of a struct.
#[derive(Debug)]
pub struct ResolvedField {
    pub name: String,
    pub field_type: ResolvedType,
    pub offset: Option<u64>,
}

/// A variant of an enum, chosen by its tag.
#[derive(Debug)]
pub struct ResolvedEnumVariant {
    pub name: String,
    pub tag_value: u64,
    pub variant_type: ResolvedType,
    pub requires_payload_size: bool,
}

/// A variant of a union that is told apart by its size.
#[derive(Debug)]
pub struct ResolvedSizeDiscriminatedVariant {
    pub name: String,
    pub expected_size: u64,
    pub variant_type: ResolvedType,
}

/// What a type is made of.
#[derive(Debug)]
#[allow(inconsistent_fields)]
pub enum ResolvedTypeKind {
    Primitive { prim_type: PrimitiveType },
    Struct { fields: Vec<ResolvedField>, packed: bool, custom_alignment: Option<u64> },
    Array { element_type: Box<ResolvedType>, size_expression: ExprKind, jagged: bool },
    Enum { tag_expression: ExprKind, variants: Vec<ResolvedEnumVariant> },
    SizeDiscriminatedUnion { variants: Vec<ResolvedSizeDiscriminatedVariant> },
    Union { variants: Vec<ResolvedField> },
    TypeRef { target_name: String },
}

/// A type whose layout is known up to its parameters.
///
/// `dynamic_params` maps each owner of a parameter to the paths it refers to.
#[derive(Debug)]
pub struct ResolvedType {
    pub name: String,
    pub size: Size,
    pub alignment: u64,
    pub dynamic_params: StrMap<StrMap<PrimitiveType>>,
    pub kind: ResolvedTypeKind,
}

/// The types that can be referred to by name.
#[derive(Debug)]
pub struct TypeResolver {
    pub types: StrMap<ResolvedType>,
}

impl TypeResolver {
    /// Creates a resolver that knows no type.
    pub fn new() -> (resolver: Self)
        ensures
            resolver.types@ == Map::<Seq<char>, ResolvedType>::empty(),
    {
        TypeResolver { types: StrMap::new() }
    }

    /// Returns the type called `name`.
    pub fn get_type_info(&self, name: &str) -> (info: Option<&ResolvedType>)
        ensures
            match info {
                Some(ty) => self.types@.contains_key(name@) && *ty == self.types@[name@],
                None => !self.types@.contains_key(name@),
            },
    {
        self.types.get(name)
    }
}

/// A parameter that the layout of a type depends on.
///
/// A derived parameter follows from others and is never read from data.
#[derive(Debug)]
pub struct IrParameter {
    pub name: String,
    pub derived: bool,
}

/// The parameters of a type.
#[derive(Debug)]
pub struct TypeIr {
    pub parameters: Vec<IrParameter>,
}

} // verus!
