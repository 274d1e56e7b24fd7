//! What holds of the values read from data, and of where they are recorded.

use vstd::arithmetic::div_mod::{lemma_div_denominator, lemma_hoist_over_denominator};
use vstd::arithmetic::power::{lemma_pow_adds, lemma_pow_positive, pow};
use vstd::prelude::*;

use crate::errors::{Failure, Outcome, ReflectError};
use crate::invariants::fed_by;
use crate::model::{
    walk_field, with_integral, with_payload, with_tag, Env, Progress, Walk,
};
use crate::primitives::{
    aligned, integral_value, integral_width, lemma_integral_range, lemma_moduli, little_endian,
    parameter_value, usable_alignment, width,
};
use crate::schema::{
    FloatingPointType, IntegralType, PrimitiveType, ResolvedType, ResolvedTypeKind, Size,
};
use crate::text::dot_join;

verus! {

/// How many bytes a primitive value takes.
pub proof fn primitive_widths()
    ensures
        width(PrimitiveType::Integral(IntegralType::U8)) == 1,
        width(PrimitiveType::Integral(IntegralType::I8)) == 1,
        width(PrimitiveType::Integral(IntegralType::Char)) == 1,
        width(PrimitiveType::Integral(IntegralType::U16)) == 2,
        width(PrimitiveType::Integral(IntegralType::I16)) == 2,
        width(PrimitiveType::Integral(IntegralType::U32)) == 4,
        width(PrimitiveType::Integral(IntegralType::I32)) == 4,
        width(PrimitiveType::Integral(IntegralType::U64)) == 8,
        width(PrimitiveType::Integral(IntegralType::I64)) == 8,
        width(PrimitiveType::FloatingPoint(FloatingPointType::F16)) == 2,
        width(PrimitiveType::FloatingPoint(FloatingPointType::F32)) == 4,
        width(PrimitiveType::FloatingPoint(FloatingPointType::F64)) == 8,
{
}

proof fn lemma_digit(bytes: Seq<u8>, k: nat)
    requires
        k < bytes.len(),
    ensures
        (little_endian(bytes) as int / pow(256, k)) % 256 == bytes[k as int],
    decreases k,
{
    reveal(pow);
    let rest = little_endian(bytes.drop_first()) as int;
    let whole = little_endian(bytes) as int;
    assert(whole == bytes[0] as int + 256 * rest);
    if k == 0 {
        assert(whole / 1 == whole);
    } else {
        let less = (k - 1) as nat;
        lemma_digit(bytes.drop_first(), less);
        lemma_pow_positive(256, less);
        lemma_div_denominator(whole, 256, pow(256, less));
        assert(whole / 256 == rest);
        assert(pow(256, k) == 256 * pow(256, less));
        assert(bytes.drop_first()[less as int] == bytes[k as int]);
    }
}

/// The bytes of an integral value are its digits to the base 256, the least significant first and
/// negative values in two's complement, and the value lies in the range of its type.
pub proof fn bytes_are_digits(int_type: IntegralType, data: Seq<u8>, k: nat)
    requires
        width(PrimitiveType::Integral(int_type)) <= data.len(),
    ensures
        k < width(PrimitiveType::Integral(int_type)) ==> (integral_value(int_type, data) / pow(
            256,
            k,
        )) % 256 == data[k as int],
        match int_type {
            IntegralType::U8 | IntegralType::Char => 0 <= integral_value(int_type, data)
                <= u8::MAX,
            IntegralType::U16 => 0 <= integral_value(int_type, data) <= u16::MAX,
            IntegralType::U32 => 0 <= integral_value(int_type, data) <= u32::MAX,
            IntegralType::U64 => 0 <= integral_value(int_type, data) <= u64::MAX,
            IntegralType::I8 => i8::MIN <= integral_value(int_type, data) <= i8::MAX,
            IntegralType::I16 => i16::MIN <= integral_value(int_type, data) <= i16::MAX,
            IntegralType::I32 => i32::MIN <= integral_value(int_type, data) <= i32::MAX,
            IntegralType::I64 => i64::MIN <= integral_value(int_type, data) <= i64::MAX,
        },
{
    lemma_moduli();
    lemma_integral_range(int_type, data);
    let w = integral_width(int_type);
    if k < w {
        let bytes = data.take(w as int);
        let raw = little_endian(bytes) as int;
        lemma_digit(bytes, k);
        if integral_value(int_type, data) != raw {
            let d = pow(256, k);
            let above = pow(256, (w - k) as nat);
            let c = pow(256, (w - k - 1) as nat);
            reveal(pow);
            lemma_pow_positive(256, k);
            lemma_pow_adds(256, k, (w - k) as nat);
            lemma_hoist_over_denominator(raw, -above, d as nat);
            assert((-above) * d == -(d * above)) by (nonlinear_arith);
            assert(above == 256 * c);
            assert((raw / d - 256 * c) % 256 == (raw / d) % 256);
        }
    }
}

/// A value becomes that of a parameter unless it is negative, and a negative one fails by the name
/// of the parameter.
pub proof fn parameters_are_not_negative(value: i128, typename: Seq<char>, parameter: Seq<char>)
    ensures
        value >= 0 ==> (parameter_value(value, typename, parameter) matches Outcome::Done(v) && v
            == value),
        value < 0 ==> parameter_value(value, typename, parameter) == Outcome::<u128>::Failed(
            Failure::Negative { typename, parameter },
        ),
{
}

/// An offset stays where it is when it shares no bit with the alignment less one, and else moves up
/// by what those shared bits lack of the alignment. It is lost only where it leaves the machine word.
pub proof fn alignment_goes_by_shared_bits(offset: usize, alignment: u64)
    requires
        usable_alignment(alignment),
        alignment <= usize::MAX,
    ensures
        alignment <= 1 ==> aligned(offset, alignment) == Some(offset),
        alignment > 1 ==> ({
            let shared = offset & ((alignment - 1) as usize);
            let moved = offset + alignment - shared;
            &&& shared == 0 ==> aligned(offset, alignment) == Some(offset)
            &&& shared != 0 && moved <= usize::MAX ==> (aligned(offset, alignment) matches Some(
                start,
            ) && start == moved)
            &&& shared != 0 && moved > usize::MAX ==> aligned(offset, alignment) is None
        }),
{
    assert(alignment as usize == alignment);
    if alignment > 1 {
        let mask = (alignment - 1) as usize;
        let shared = offset & mask;
        assert(shared <= mask) by (bit_vector)
            requires
                shared == offset & mask,
        ;
    }
}

/// Reading an integral field notes its value under its path and gives it to the parameters that the
/// field feeds, and changes nothing else. Where it feeds any and the value is negative, none of them
/// gets one, and the first of them is blamed.
pub proof fn integral_fields_are_recorded(
    env: Env,
    at: Progress,
    path: Seq<Seq<char>>,
    value: i128,
    name: Seq<char>,
    key: Seq<char>,
)
    requires
        path.len() > 0,
    ensures
        match with_integral(env, at, path, value) {
            Walk::Done(next) => {
                &&& env.names_at(dot_join(path)).len() == 0 || value >= 0
                &&& next.values.contains_key(dot_join(path))
                &&& next.values[dot_join(path)] == value
                &&& key != dot_join(path) ==> {
                    &&& next.values.contains_key(key) <==> at.values.contains_key(key)
                    &&& next.values.contains_key(key) ==> next.values[key] == at.values[key]
                }
                &&& fed_by(env, dot_join(path), name) ==> next.params.contains_key(name)
                    && next.params[name] == value
                &&& !fed_by(env, dot_join(path), name) ==> {
                    &&& next.params.contains_key(name) <==> at.params.contains_key(name)
                    &&& next.params.contains_key(name) ==> next.params[name] == at.params[name]
                }
                &&& next.pending == at.pending
                &&& next.tagged == at.tagged
            },
            Walk::Failed(stop) => {
                &&& env.names_at(dot_join(path)).len() > 0 && value < 0
                &&& stop.failure == Failure::Negative {
                    typename: env.typename,
                    parameter: env.names_at(dot_join(path))[0],
                }
                &&& stop.path == path
                &&& stop.at.values == at.values.insert(dot_join(path), value)
                &&& stop.at.params == at.params
                &&& stop.at.pending == at.pending
                &&& stop.at.tagged == at.tagged
            },
            Walk::Undefined => false,
        },
{
    let names = env.names_at(dot_join(path));
    if names.len() == 0 {
        assert(!names.contains(name));
    }
}

/// The size of a field goes to the parameters that wait for it, which then wait no longer; nothing
/// else changes.
pub proof fn sizes_go_to_those_that_wait(
    at: Progress,
    path: Seq<Seq<char>>,
    size: usize,
    name: Seq<char>,
)
    ensures
        ({
            let next = with_payload(at, path, size);
            let waits = at.pending.contains_key(name) && at.pending[name] == dot_join(path);
            &&& waits ==> next.params.contains_key(name) && next.params[name] == size
                && !next.pending.contains_key(name)
            &&& !waits ==> {
                &&& next.params.contains_key(name) <==> at.params.contains_key(name)
                &&& next.params.contains_key(name) ==> next.params[name] == at.params[name]
                &&& next.pending.contains_key(name) <==> at.pending.contains_key(name)
                &&& next.pending.contains_key(name) ==> next.pending[name] == at.pending[name]
            }
            &&& next.values == at.values
            &&& next.tagged == at.tagged
        }),
{
}

/// The tag of an enum goes to the parameters that the path of the enum followed by `tag` feeds;
/// nothing else changes but that the tag is recorded there.
pub proof fn tags_go_to_their_parameters(
    env: Env,
    at: Progress,
    path: Seq<Seq<char>>,
    tag: u64,
    name: Seq<char>,
)
    ensures
        ({
            let next = with_tag(env, at, path, tag);
            let key = dot_join(path.push("tag"@));
            &&& fed_by(env, key, name) ==> next.params.contains_key(name) && next.params[name]
                == tag
            &&& !fed_by(env, key, name) ==> {
                &&& next.params.contains_key(name) <==> at.params.contains_key(name)
                &&& next.params.contains_key(name) ==> next.params[name] == at.params[name]
            }
            &&& next.values == at.values
            &&& next.pending == at.pending
            &&& next.tagged == at.tagged.insert(key)
        }),
{
}

/// A primitive field takes as many bytes as its type is wide, and fails where there are not so many.
/// An integral one is recorded with the value that the data begins with, a floating-point one leaves
/// everything as it was.
pub proof fn primitive_fields_take_their_width(
    env: Env,
    depth: nat,
    at: Progress,
    ty: ResolvedType,
    path: Seq<Seq<char>>,
    scopes: Seq<Seq<char>>,
    data: Seq<u8>,
)
    ensures
        ty.kind matches ResolvedTypeKind::Primitive { prim_type } ==> {
            let walked = walk_field(env, depth, at, ty, path, scopes, data, false);
            &&& width(prim_type) > data.len() ==> (walked matches Walk::Failed(stop) && {
                &&& stop.failure == Failure::TooSmall {
                    typename: env.typename,
                    required: width(prim_type),
                    available: env.available,
                }
                &&& stop.at == at
                &&& stop.path == path
            })
            &&& width(prim_type) <= data.len() ==> match prim_type {
                PrimitiveType::FloatingPoint(_) => walked matches Walk::Done((next, size)) && next
                    == at && size == width(prim_type),
                PrimitiveType::Integral(int_type) => match with_integral(
                    env,
                    at,
                    path,
                    integral_value(int_type, data) as i128,
                ) {
                    Walk::Done(recorded) => walked matches Walk::Done((next, size)) && next
                        == recorded && size == width(prim_type),
                    Walk::Failed(reason) => walked matches Walk::Failed(stop) && stop == reason,
                    Walk::Undefined => false,
                },
            }
        },
{
}

/// A union takes its constant size, whatever the bytes are, and counts as an integral field with that
/// size as its value. It fails where it has no constant size, or the data is shorter.
pub proof fn unions_take_their_size(
    env: Env,
    depth: nat,
    at: Progress,
    ty: ResolvedType,
    path: Seq<Seq<char>>,
    scopes: Seq<Seq<char>>,
    data: Seq<u8>,
    name: Seq<char>,
    key: Seq<char>,
)
    requires
        ty.kind is Union,
        path.len() > 0,
    ensures
        ({
            let walked = walk_field(env, depth, at, ty, path, scopes, data, false);
            match ty.size {
                Size::Variable => walked matches Walk::Failed(stop) && stop.failure
                    == env.unsupported(
                    dot_join(path),
                    "unions with variable size are not supported yet"@,
                ) && stop.at == at && stop.path == path,
                Size::Const(bytes) => {
                    &&& bytes as usize > data.len() ==> (walked matches Walk::Failed(stop) && {
                        &&& stop.failure == Failure::TooSmall {
                            typename: env.typename,
                            required: bytes as usize as nat,
                            available: env.available,
                        }
                        &&& stop.at == at
                        &&& stop.path == path
                    })
                    &&& bytes as usize <= data.len() ==> (walked matches Walk::Done((next, size))
                        && {
                        &&& size == bytes as usize
                        &&& next.values.contains_key(dot_join(path))
                        &&& next.values[dot_join(path)] == size
                        &&& key != dot_join(path) ==> {
                            &&& next.values.contains_key(key) <==> at.values.contains_key(key)
                            &&& next.values.contains_key(key) ==> next.values[key]
                                == at.values[key]
                        }
                        &&& fed_by(env, dot_join(path), name) ==> next.params.contains_key(name)
                            && next.params[name] == size
                        &&& !fed_by(env, dot_join(path), name) ==> {
                            &&& next.params.contains_key(name) <==> at.params.contains_key(name)
                            &&& next.params.contains_key(name) ==> next.params[name]
                                == at.params[name]
                        }
                        &&& next.pending == at.pending
                        &&& next.tagged == at.tagged
                    })
                },
            }
        }),
{
}

/// A union told by its size fails unless it is the last field, and leaves everything as it was.
pub proof fn unions_told_by_size_come_last(
    env: Env,
    depth: nat,
    at: Progress,
    ty: ResolvedType,
    path: Seq<Seq<char>>,
    scopes: Seq<Seq<char>>,
    data: Seq<u8>,
)
    requires
        ty.kind is SizeDiscriminatedUnion,
    ensures
        walk_field(env, depth, at, ty, path, scopes, data, false) matches Walk::Failed(stop) && {
            &&& stop.failure == env.unsupported(
                dot_join(path),
                "size-discriminated unions must be the final field"@,
            )
            &&& stop.at == at
            &&& stop.path == path
        },
{
}

/// What a failure tells: the type asked for, what could not be done and why, or how many bytes were
/// needed and how many there are.
pub proof fn failures_tell_their_parts(
    env: Env,
    parameter: Seq<char>,
    reason: Seq<char>,
    required: nat,
)
    ensures
        env.unsupported(parameter, reason) == (Failure::Unsupported {
            typename: env.typename,
            parameter,
            reason,
        }),
        env.shortage(required) == (Failure::TooSmall {
            typename: env.typename,
            required,
            available: env.available,
        }),
{
}

/// The parameters that a path feeds are those bound to it.
pub proof fn names_at_a_path_are_those_bound(env: Env, path: Seq<char>)
    ensures
        env.field_params.contains_key(path) ==> env.names_at(path) == env.field_params[path],
        !env.field_params.contains_key(path) ==> env.names_at(path).len() == 0,
{
}

/// An error shows each of its parts as it holds them.
pub proof fn errors_show_their_parts(error: ReflectError)
    ensures
        match error {
            ReflectError::UnsupportedDynamicParam { typename, parameter, reason } => {
                error@ == (Failure::Unsupported {
                    typename: typename@,
                    parameter: parameter@,
                    reason: reason@,
                })
            },
            ReflectError::NegativeDynamicParam { typename, parameter } => {
                error@ == (Failure::Negative { typename: typename@, parameter: parameter@ })
            },
            ReflectError::BufferTooSmall { typename, required, available } => {
                error@ == (Failure::TooSmall {
                    typename: typename@,
                    required: required as nat,
                    available: available as nat,
                })
            },
        },
{
}

} // verus!
