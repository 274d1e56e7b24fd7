//! Sizes, values and alignment of primitive fields.

use vstd::arithmetic::power::pow;
use vstd::arithmetic::power2::{lemma_pow2_pos, pow2};
use vstd::bits::{lemma_usize_low_bits_mask_is_mod, lemma_usize_pow2_no_overflow, low_bits_mask};
use vstd::prelude::*;

use crate::errors::{settled, unsupported, Failure, Outcome, ReflectError, ReflectResult};
use crate::schema::{FloatingPointType, IntegralType, PrimitiveType};

verus! {

/// How many bytes an integral value takes.
pub open spec fn integral_width(int_type: IntegralType) -> nat {
    match int_type {
        IntegralType::U8 | IntegralType::I8 | IntegralType::Char => 1,
        IntegralType::U16 | IntegralType::I16 => 2,
        IntegralType::U32 | IntegralType::I32 => 4,
        IntegralType::U64 | IntegralType::I64 => 8,
    }
}

/// How many bytes a primitive value takes.
pub open spec fn width(prim_type: PrimitiveType) -> nat {
    match prim_type {
        PrimitiveType::Integral(int_type) => integral_width(int_type),
        PrimitiveType::FloatingPoint(FloatingPointType::F16) => 2,
        PrimitiveType::FloatingPoint(FloatingPointType::F32) => 4,
        PrimitiveType::FloatingPoint(FloatingPointType::F64) => 8,
    }
}

/// Returns how many bytes a primitive value takes.
pub fn primitive_size(prim_type: &PrimitiveType) -> (size: usize)
    ensures
        size == width(*prim_type),
{
    match prim_type {
        PrimitiveType::Integral(int_type) => match int_type {
            IntegralType::U8 | IntegralType::I8 | IntegralType::Char => 1,
            IntegralType::U16 | IntegralType::I16 => 2,
            IntegralType::U32 | IntegralType::I32 => 4,
            IntegralType::U64 | IntegralType::I64 => 8,
        },
        PrimitiveType::FloatingPoint(ftype) => match ftype {
            FloatingPointType::F16 => 2,
            FloatingPointType::F32 => 4,
            FloatingPointType::F64 => 8,
        },
    }
}

/// The number whose base-256 digits are `bytes`, the least significant first.
pub open spec fn little_endian(bytes: Seq<u8>) -> nat
    decreases bytes.len(),
{
    if bytes.len() == 0 {
        0
    } else {
        bytes[0] as nat + 256 * little_endian(bytes.drop_first())
    }
}

/// Whether the type holds negative values too.
pub open spec fn is_signed(int_type: IntegralType) -> bool {
    match int_type {
        IntegralType::I8 | IntegralType::I16 | IntegralType::I32 | IntegralType::I64 => true,
        _ => false,
    }
}

/// The integral value that `data` begins with, in two's complement where the type is signed.
pub open spec fn integral_value(int_type: IntegralType, data: Seq<u8>) -> int {
    let raw = little_endian(data.take(integral_width(int_type) as int)) as int;
    let modulus = pow(256, integral_width(int_type));
    if is_signed(int_type) && 2 * raw >= modulus {
        raw - modulus
    } else {
        raw
    }
}

/// A number is smaller than the power of 256 that has one zero for each of its digits.
pub proof fn lemma_little_endian_bound(bytes: Seq<u8>)
    ensures
        little_endian(bytes) < pow(256, bytes.len()),
    decreases bytes.len(),
{
    reveal(pow);
    if bytes.len() > 0 {
        lemma_little_endian_bound(bytes.drop_first());
    }
}

/// The powers of 256 up to the eighth.
pub proof fn lemma_moduli()
    ensures
        pow(256, 1) == 0x100,
        pow(256, 2) == 0x1_0000,
        pow(256, 4) == 0x1_0000_0000,
        pow(256, 8) == 0x1_0000_0000_0000_0000,
{
    reveal_with_fuel(pow, 9);
}

/// The value of an integral type lies in the range of the type.
pub proof fn lemma_integral_range(int_type: IntegralType, data: Seq<u8>)
    requires
        integral_width(int_type) <= data.len(),
    ensures
        !is_signed(int_type) ==> 0 <= integral_value(int_type, data) < pow(
            256,
            integral_width(int_type),
        ),
        is_signed(int_type) ==> -pow(256, integral_width(int_type)) <= 2 * integral_value(
            int_type,
            data,
        ) < pow(256, integral_width(int_type)),
        -0x8000_0000_0000_0000 <= integral_value(int_type, data) < 0x1_0000_0000_0000_0000,
{
    lemma_moduli();
    lemma_little_endian_bound(data.take(integral_width(int_type) as int));
}

/// What reading a primitive value as a number gives.
pub open spec fn read_outcome(
    data: Seq<u8>,
    prim_type: PrimitiveType,
    typename: Seq<char>,
    parameter: Seq<char>,
) -> Outcome<i128> {
    match prim_type {
        PrimitiveType::Integral(int_type) => Outcome::Done(integral_value(int_type, data) as i128),
        PrimitiveType::FloatingPoint(_) => Outcome::Failed(
            Failure::Unsupported {
                typename,
                parameter,
                reason: "floating point values cannot drive dynamic parameters"@,
            },
        ),
    }
}

/// Reads the number that `data` begins with.
fn read_little_endian(data: &[u8], size: usize) -> (raw: u64)
    requires
        size <= 8,
        size <= data@.len(),
    ensures
        raw == little_endian(data@.take(size as int)),
{
    let mut raw: u64 = 0;
    let mut i: usize = size;
    let ghost bytes = data@.take(size as int);
    assert(bytes.skip(size as int) =~= Seq::<u8>::empty());
    while i > 0
        invariant
            i <= size <= 8,
            size <= data@.len(),
            bytes == data@.take(size as int),
            raw == little_endian(bytes.skip(i as int)),
        decreases i,
    {
        i = i - 1;
        proof {
            assert(bytes.skip(i as int).drop_first() =~= bytes.skip(i + 1));
            lemma_little_endian_bound(bytes.skip(i as int));
            lemma_moduli();
            vstd::arithmetic::power::lemma_pow_increases(256, (size - i) as nat, 8);
        }
        raw = data[i] as u64 + 256 * raw;
    }
    assert(bytes.skip(0) =~= bytes);
    raw
}

/// Reads the integral value that `data` begins with; a floating-point type is an error.
pub fn read_integral_value(
    data: &[u8],
    prim_type: &PrimitiveType,
    typename: &str,
    parameter: &str,
) -> (value: ReflectResult<i128>)
    requires
        prim_type is Integral ==> width(*prim_type) <= data@.len(),
    ensures
        settled(value) == read_outcome(data@, *prim_type, typename@, parameter@),
{
    match prim_type {
        PrimitiveType::Integral(int_type) => {
            let size: usize = primitive_size(prim_type);
            let raw: i128 = read_little_endian(data, size) as i128;
            proof {
                lemma_moduli();
                lemma_integral_range(*int_type, data@);
            }
            let value: i128 = match int_type {
                IntegralType::I8 => if raw >= 0x80 {
                    raw - 0x100
                } else {
                    raw
                },
                IntegralType::I16 => if raw >= 0x8000 {
                    raw - 0x1_0000
                } else {
                    raw
                },
                IntegralType::I32 => if raw >= 0x8000_0000 {
                    raw - 0x1_0000_0000
                } else {
                    raw
                },
                IntegralType::I64 => if raw >= 0x8000_0000_0000_0000 {
                    raw - 0x1_0000_0000_0000_0000
                } else {
                    raw
                },
                _ => raw,
            };
            Ok(value)
        },
        PrimitiveType::FloatingPoint(_) => Err(
            unsupported(
                typename,
                parameter,
                "floating point values cannot drive dynamic parameters",
            ),
        ),
    }
}

/// `value` as the value of a parameter; a negative one is a failure.
pub open spec fn parameter_value(
    value: i128,
    typename: Seq<char>,
    parameter: Seq<char>,
) -> Outcome<u128> {
    if value < 0 {
        Outcome::Failed(Failure::Negative { typename, parameter })
    } else {
        Outcome::Done(value as u128)
    }
}

/// Returns `value` as the value of a parameter; a negative one is an error.
pub fn nonnegative_integral(value: i128, typename: &str, parameter: &str) -> (param: ReflectResult<
    u128,
>)
    ensures
        settled(param) == parameter_value(value, typename@, parameter@),
{
    if value < 0 {
        return Err(
            ReflectError::NegativeDynamicParam {
                typename: String::from_str(typename),
                parameter: String::from_str(parameter),
            },
        );
    }
    Ok(value as u128)
}

/// Whether `alignment` can be used as a machine word.
pub open spec fn usable_alignment(alignment: u64) -> bool {
    alignment <= 1 || alignment as usize >= 1
}

/// The offset from `offset` on at which something with the given alignment starts: `offset` moved
/// up until its bits below the alignment are zero. `None` where no machine word can hold it.
pub open spec fn aligned(offset: usize, alignment: u64) -> Option<usize> {
    if alignment <= 1 {
        Some(offset)
    } else {
        let align = alignment as usize;
        let rest = offset & ((align - 1) as usize);
        if rest == 0 {
            Some(offset)
        } else if offset + (align - rest) <= usize::MAX {
            Some((offset + (align - rest)) as usize)
        } else {
            None
        }
    }
}

/// Returns the first offset from `offset` on that is aligned; `None` on overflow.
pub fn align_up(offset: usize, alignment: u64) -> (start: Option<usize>)
    requires
        usable_alignment(alignment),
    ensures
        start == aligned(offset, alignment),
{
    if alignment <= 1 {
        return Some(offset);
    }
    let align: usize = #[verifier::truncate]
    (alignment as usize);
    let mask: usize = align - 1;
    let rest: usize = offset & mask;
    if rest == 0 {
        Some(offset)
    } else {
        assert(rest <= mask) by (bit_vector)
            requires
                rest == offset & mask,
        ;
        offset.checked_add(align - rest)
    }
}

/// For a power of two, an aligned offset is the first multiple from the given offset on, and
/// missing only where that multiple does not fit a machine word.
pub proof fn aligned_is_next_multiple(offset: usize, alignment: u64, n: nat)
    requires
        n < usize::BITS,
        alignment == pow2(n),
    ensures
        match aligned(offset, alignment) {
            Some(start) => {
                &&& offset <= start < offset + alignment
                &&& start as int % alignment as int == 0
            },
            None => forall|start: int|
                offset <= start && #[trigger] (start % alignment as int) == 0 ==> start
                    > usize::MAX,
        },
{
    lemma_pow2_pos(n);
    if alignment > 1 {
        lemma_usize_pow2_no_overflow(n);
        lemma_usize_low_bits_mask_is_mod(offset, n);
        let align = alignment as int;
        let rest = offset as int % align;
        assert(alignment as usize == align);
        assert(low_bits_mask(n) as usize == alignment as usize - 1);
        if rest > 0 {
            let start = offset + (align - rest);
            assert(start % align == 0) by (nonlinear_arith)
                requires
                    start == offset + (align - rest),
                    rest == offset as int % align,
                    align > 0,
            {
                let q = offset as int / align;
                assert(offset == align * q + rest);
                assert(start == align * (q + 1));
                vstd::arithmetic::div_mod::lemma_mod_multiples_basic(q + 1, align);
                assert((q + 1) * align == align * (q + 1));
            }
            assert forall|s: int| offset <= s && #[trigger] (s % align) == 0 implies s >= start by {
                if s < start {
                    vstd::arithmetic::div_mod::lemma_fundamental_div_mod(s, align);
                    vstd::arithmetic::div_mod::lemma_fundamental_div_mod(offset as int, align);
                    let q = offset as int / align;
                    let k = s / align;
                    assert(false) by (nonlinear_arith)
                        requires
                            s == align * k,
                            offset == align * q + rest,
                            0 < rest < align,
                            offset <= s < align * q + align,
                    ;
                }
            }
        }
    } else {
        assert(offset as int % 1 == 0);
    }
}

} // verus!
