use abi_reflect::arith::{combine, count_set_bits, power, raise, BinaryOp};
use abi_reflect::errors::Halt;
use abi_reflect::primitives::{
    align_up, nonnegative_integral, primitive_size, read_integral_value,
};
use abi_reflect::schema::{FloatingPointType, IntegralType, PrimitiveType};
use abi_reflect::ReflectError;

fn read(int_type: IntegralType, data: &[u8]) -> i128 {
    read_integral_value(data, &PrimitiveType::Integral(int_type), "T", "p").unwrap()
}

#[test]
fn primitive_sizes() {
    let size = |int_type| primitive_size(&PrimitiveType::Integral(int_type));
    assert_eq!(size(IntegralType::U8), 1);
    assert_eq!(size(IntegralType::I8), 1);
    assert_eq!(size(IntegralType::Char), 1);
    assert_eq!(size(IntegralType::U16), 2);
    assert_eq!(size(IntegralType::I16), 2);
    assert_eq!(size(IntegralType::U32), 4);
    assert_eq!(size(IntegralType::I32), 4);
    assert_eq!(size(IntegralType::U64), 8);
    assert_eq!(size(IntegralType::I64), 8);
    let float = |ftype| primitive_size(&PrimitiveType::FloatingPoint(ftype));
    assert_eq!(float(FloatingPointType::F16), 2);
    assert_eq!(float(FloatingPointType::F32), 4);
    assert_eq!(float(FloatingPointType::F64), 8);
}

#[test]
fn unsigned_values_are_little_endian() {
    let data = [0x81, 0x02, 0x03, 0x84, 0x05, 0x06, 0x07, 0x88];
    assert_eq!(read(IntegralType::U8, &data), 0x81);
    assert_eq!(read(IntegralType::Char, &data), 0x81);
    assert_eq!(read(IntegralType::U16, &data), 0x0281);
    assert_eq!(read(IntegralType::U32, &data), 0x84030281);
    assert_eq!(read(IntegralType::U64, &data), 0x8807060584030281);
}

#[test]
fn signed_values_are_in_twos_complement() {
    assert_eq!(read(IntegralType::I8, &[0x7F]), 127);
    assert_eq!(read(IntegralType::I8, &[0x80]), -128);
    assert_eq!(read(IntegralType::I16, &[0xFE, 0xFF]), -2);
    assert_eq!(read(IntegralType::I16, &[0xFF, 0x7F]), 32767);
    assert_eq!(read(IntegralType::I32, &(-123456i32).to_le_bytes()), -123456);
    assert_eq!(read(IntegralType::I32, &i32::MIN.to_le_bytes()), i32::MIN as i128);
    assert_eq!(read(IntegralType::I64, &i64::MIN.to_le_bytes()), i64::MIN as i128);
    assert_eq!(read(IntegralType::I64, &i64::MAX.to_le_bytes()), i64::MAX as i128);
}

#[test]
fn floating_point_values_are_no_parameters() {
    let error = read_integral_value(
        &[],
        &PrimitiveType::FloatingPoint(FloatingPointType::F32),
        "T",
        "ratio",
    )
    .unwrap_err();
    assert_eq!(
        error,
        ReflectError::UnsupportedDynamicParam {
            typename: "T".to_string(),
            parameter: "ratio".to_string(),
            reason: "floating point values cannot drive dynamic parameters".to_string(),
        }
    );
    assert_eq!(error.shortage_message(), None);
}

#[test]
fn negative_values_are_no_parameter_values() {
    assert_eq!(nonnegative_integral(0, "T", "p"), Ok(0));
    assert_eq!(nonnegative_integral(i128::MAX, "T", "p"), Ok(i128::MAX as u128));
    let error = nonnegative_integral(-1, "T", "p").unwrap_err();
    assert_eq!(
        error,
        ReflectError::NegativeDynamicParam {
            typename: "T".to_string(),
            parameter: "p".to_string(),
        }
    );
    assert_eq!(error.shortage_message(), None);
}

#[test]
fn offsets_are_aligned_upwards() {
    assert_eq!(align_up(5, 0), Some(5));
    assert_eq!(align_up(5, 1), Some(5));
    assert_eq!(align_up(5, 4), Some(8));
    assert_eq!(align_up(8, 4), Some(8));
    assert_eq!(align_up(0, 16), Some(0));
    assert_eq!(align_up(usize::MAX - 1, 2), Some(usize::MAX - 1));
    assert_eq!(align_up(usize::MAX, 2), None);
}

#[test]
fn alignment_goes_by_low_bits() {
    assert_eq!(align_up(5, 6), Some(6));
    assert_eq!(align_up(4, 6), Some(6));
    assert_eq!(align_up(2, 6), Some(2));
}

#[test]
fn powers_fit_or_have_no_value() {
    assert_eq!(power(2, 126), Some(1i128 << 126));
    assert_eq!(power(2, 127), None);
    assert_eq!(power(-2, 127), Some(i128::MIN));
    assert_eq!(power(-2, 128), None);
    assert_eq!(power(0, 0), Some(1));
    assert_eq!(power(0, u32::MAX), Some(0));
    assert_eq!(power(1, u32::MAX), Some(1));
    assert_eq!(power(-1, u32::MAX), Some(-1));
    assert_eq!(power(-1, u32::MAX - 1), Some(1));
    assert_eq!(raise("T", 5, (1i128 << 32) + 1), Ok(5));
}

#[test]
fn set_bits_are_counted() {
    assert_eq!(count_set_bits(0), 0);
    assert_eq!(count_set_bits(0b1011), 3);
    assert_eq!(count_set_bits(u128::MAX), 128);
    assert_eq!(count_set_bits(1u128 << 127), 1);
}

#[test]
fn division_rounds_towards_zero() {
    for (l, r, quotient, remainder) in [
        (7, 2, 3, 1),
        (-7, 2, -3, -1),
        (7, -2, -3, 1),
        (-7, -2, 3, -1),
        (6, -3, -2, 0),
    ] {
        assert_eq!(combine("T", BinaryOp::Div, l, r), Ok(quotient));
        assert_eq!(combine("T", BinaryOp::Mod, l, r), Ok(remainder));
        assert_eq!(r * quotient + remainder, l);
    }
}

#[test]
fn results_beyond_the_range_have_no_value() {
    let cases = [
        (BinaryOp::Add, i128::MAX, 1),
        (BinaryOp::Sub, i128::MIN, 1),
        (BinaryOp::Mul, i128::MIN, -1),
        (BinaryOp::Div, i128::MIN, -1),
        (BinaryOp::Mod, i128::MIN, -1),
        (BinaryOp::LeftShift, 1, 128),
        (BinaryOp::RightShift, 1, 128),
    ];
    for (op, l, r) in cases {
        assert_eq!(combine("T", op, l, r), Err(Halt::Undefined));
    }
    assert_eq!(combine("T", BinaryOp::LeftShift, 1, 127), Ok(i128::MIN));
    assert_eq!(combine("T", BinaryOp::RightShift, -8, 1), Ok(-4));
}
