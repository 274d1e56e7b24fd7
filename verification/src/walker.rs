//! The walk over data along a type.

use vstd::hash_map::StringHashMap;
use vstd::prelude::*;
use vstd::slice::slice_subrange;

use crate::arith::{combine, count_set_bits, raise, BinaryOp, CompareOp, LogicalOp};
use crate::errors::{outcome, unsupported, Failure, Halt, Outcome, ReflectError, ReflectResult};
use crate::mapping::{field_params_view, slices, text_values, FieldParams};
use crate::model::{
    assigned, binary_value, compare_value, count_value, element_path, eval, field_start,
    field_value, finished, first_variant, logical_value, operands, scoped_value, stopped,
    struct_end, unstarted, walk_array, walk_elements, walk_field, walk_fields, walk_jagged, walk_primitive,
    walk_primitives, walk_sdu, walk_struct, walk_union, walk_variant, with_integral, with_payload,
    with_tag, with_value, Env, Progress, Walk,
};
use crate::names::{expr_name, flatten_field_ref, path_key, texts};
use crate::primitives::{
    align_up, nonnegative_integral, parameter_value, primitive_size, read_integral_value,
};
use crate::schema::{
    BinaryExpr, ExprKind, LiteralExpr, PrimitiveType, ResolvedEnumVariant, ResolvedField,
    ResolvedType, ResolvedTypeKind, Size, TypeResolver,
};
use crate::str_map::{is_least, StrMap};
use crate::text::{append_dot, decimal_text, dot_join, same_text};

verus! {

/// The values of parameters by name.
pub type ParamMap = StrMap<u128>;

/// A walk in progress.
pub struct StructWalker<'a> {
    typename: &'a str,
    buffer_len: usize,
    resolver: &'a TypeResolver,
    field_params: &'a FieldParams<'a>,
    params: ParamMap,
    value_lookup: StringHashMap<i128>,
    remaining_payload: StrMap<String>,
    scope_stack: Vec<String>,
    tagged: Ghost<Set<Seq<char>>>,
}

/// The result of a walk is the one that the model gives, and so is what it leaves behind: `now` is
/// what is known then, and `place` the path it is at where it stopped.
pub open spec fn follows(
    result: Result<usize, Halt>,
    walked: Walk<(Progress, usize)>,
    now: Progress,
    place: Seq<Seq<char>>,
) -> bool {
    match walked {
        Walk::Done((next, size)) => result == Ok::<usize, Halt>(size) && now == next,
        Walk::Failed(stop) => {
            &&& result matches Err(Halt::Error(error)) && error@ == stop.failure
            &&& now == stop.at
            &&& place == stop.path
        },
        Walk::Undefined => result matches Err(Halt::Undefined),
    }
}

/// The same of a walk whose size is known beforehand.
pub open spec fn follows_unsized(
    result: Result<(), Halt>,
    walked: Walk<Progress>,
    now: Progress,
    place: Seq<Seq<char>>,
) -> bool {
    match walked {
        Walk::Done(next) => result is Ok && now == next,
        Walk::Failed(stop) => {
            &&& result matches Err(Halt::Error(error)) && error@ == stop.failure
            &&& now == stop.at
            &&& place == stop.path
        },
        Walk::Undefined => result matches Err(Halt::Undefined),
    }
}

/// A walk may go `depth` references deep: that is its budget, or it has none and needs none.
pub open spec fn admits<T>(budget: Option<usize>, depth: nat, walked: Walk<T>) -> bool {
    match budget {
        Some(levels) => levels == depth,
        None => walked !is Undefined,
    }
}

/// A walk over an array with its length evaluated.
pub open spec fn array_outcome(
    env: Env,
    depth: nat,
    at: Progress,
    element_type: ResolvedType,
    size_expression: ExprKind,
    jagged: bool,
    path: Seq<Seq<char>>,
    scopes: Seq<Seq<char>>,
    data: Seq<u8>,
) -> Walk<(Progress, usize)> {
    match count_value(env, at.values, scopes, size_expression) {
        Outcome::Failed(failure) => stopped(at, path, failure),
        Outcome::Undefined => Walk::Undefined,
        Outcome::Done(count) => walk_array(
            env,
            depth,
            at,
            element_type,
            jagged,
            count as usize,
            path,
            scopes,
            data,
        ),
    }
}

/// An array of `count` elements is turned down as a whole: the elements have no common size and are
/// not walked one by one, or their bytes cannot be counted or are not all there.
pub open spec fn turned_down(
    element_type: ResolvedType,
    jagged: bool,
    count: usize,
    len: nat,
) -> bool {
    count > 0 && match element_type.size {
        Size::Variable => !jagged,
        Size::Const(value) => value as usize * count > len,
    }
}

/// A walk over an enum with its tag evaluated.
pub open spec fn enum_outcome(
    env: Env,
    depth: nat,
    at: Progress,
    tag_expression: ExprKind,
    variants: Seq<ResolvedEnumVariant>,
    path: Seq<Seq<char>>,
    scopes: Seq<Seq<char>>,
    data: Seq<u8>,
) -> Walk<(Progress, usize)> {
    match count_value(env, at.values, scopes, tag_expression) {
        Outcome::Failed(failure) => stopped(at, path, failure),
        Outcome::Undefined => Walk::Undefined,
        Outcome::Done(tag) => walk_variant(
            env,
            depth,
            at,
            variants,
            tag as u64,
            path,
            scopes,
            data,
        ),
    }
}

/// Some variant has the given tag.
pub open spec fn has_tag(variants: Seq<ResolvedEnumVariant>, tag: u64) -> bool {
    exists|i: int| first_variant(variants, tag, i)
}

/// Finds the first variant with the given tag.
fn find_variant(variants: &Vec<ResolvedEnumVariant>, tag: u64) -> (found: Option<usize>)
    ensures
        match found {
            Some(i) => first_variant(variants@, tag, i as int),
            None => forall|i: int| !first_variant(variants@, tag, i),
        },
{
    let mut i: usize = 0;
    while i < variants.len()
        invariant
            i <= variants.len(),
            forall|j: int| 0 <= j < i ==> (#[trigger] variants@[j]).tag_value != tag,
        decreases variants.len() - i,
    {
        if variants[i].tag_value == tag {
            return Some(i);
        }
        i = i + 1;
    }
    None
}

/// Element `i` of an array lies within the array.
proof fn lemma_element_in_array(i: int, count: int, size: int)
    requires
        0 <= i < count,
        0 <= size,
    ensures
        0 <= i * size,
        i * size + size <= size * count,
{
    assert(0 <= i * size && i * size + size <= size * count) by (nonlinear_arith)
        requires
            0 <= i < count,
            0 <= size,
    ;
}

/// What a prefix contains that is longer by one.
proof fn lemma_longer_prefix(names: Seq<Seq<char>>, k: int)
    requires
        0 <= k < names.len(),
    ensures
        forall|name: Seq<char>| #[trigger]
            names.take(k + 1).contains(name) == (names.take(k).contains(name) || name == names[k]),
{
    let shorter = names.take(k);
    let longer = names.take(k + 1);
    assert forall|name: Seq<char>| #[trigger] longer.contains(name) == (shorter.contains(name)
        || name == names[k]) by {
        if shorter.contains(name) {
            assert(longer[shorter.index_of(name)] == name);
        }
        if name == names[k] {
            assert(longer[k] == name);
        }
        if longer.contains(name) {
            let i = longer.index_of(name);
            if i < k {
                assert(shorter[i] == name);
            }
        }
    }
}

impl<'a> StructWalker<'a> {
    /// What stays the same during the walk.
    pub closed spec fn env(self) -> Env {
        Env {
            typename: self.typename@,
            available: self.buffer_len as nat,
            types: self.resolver.types@,
            field_params: field_params_view(self.field_params@),
        }
    }

    /// What the walk has found out so far.
    pub closed spec fn progress(self) -> Progress {
        Progress {
            params: self.params@,
            values: self.value_lookup@,
            pending: text_values(self.remaining_payload@),
            tagged: self.tagged@,
        }
    }

    /// The paths of the structs that the walk is in, the innermost last.
    pub closed spec fn scopes(self) -> Seq<Seq<char>> {
        texts(self.scope_stack@)
    }

    /// Starts a walk over data of the given length.
    pub fn new(
        typename: &'a str,
        resolver: &'a TypeResolver,
        field_params: &'a FieldParams<'a>,
        payload_targets: &StrMap<String>,
        buffer_len: usize,
    ) -> (walker: Self)
        ensures
            walker.env() == (Env {
                typename: typename@,
                available: buffer_len as nat,
                types: resolver.types@,
                field_params: field_params_view(field_params@),
            }),
            walker.progress() == unstarted(text_values(payload_targets@)),
            walker.scopes() == seq![Seq::<char>::empty()],
    {
        let mut scope_stack: Vec<String> = Vec::new();
        scope_stack.push(String::new());
        let remaining_payload = payload_targets.clone();
        proof {
            assert(remaining_payload.values() =~= payload_targets.values());
            assert(texts(scope_stack@) =~= seq![Seq::<char>::empty()]);
        }
        StructWalker {
            typename,
            buffer_len,
            resolver,
            field_params,
            params: StrMap::new(),
            value_lookup: StringHashMap::new(),
            remaining_payload,
            scope_stack,
            tagged: Ghost(Set::empty()),
        }
    }

    /// Builds the error for a field that cannot be aligned.
    fn align_error(&self, field: &str) -> (error: ReflectError)
        ensures
            error@ == self.env().unsupported(field@, "alignment overflow"@),
    {
        unsupported(self.typename, field, "alignment overflow")
    }

    /// Builds the error for data that is too short.
    fn buffer_error(&self, required: u64) -> (error: ReflectError)
        ensures
            error@ == self.env().shortage(required as nat),
    {
        ReflectError::BufferTooSmall {
            typename: String::from_str(self.typename),
            required: required as u128,
            available: self.buffer_len as u64,
        }
    }

    /// Finds the value that a reference to `key` stands for.
    pub fn lookup_field_value(&self, key: &str) -> (value: Option<i128>)
        ensures
            value == field_value(self.progress().values, self.scopes(), key@),
    {
        if let Some(value) = self.value_lookup.get(key) {
            return Some(*value);
        }
        let mut i: usize = self.scope_stack.len();
        let ghost all = self.scopes();
        assert(all.take(i as int) =~= all);
        while i > 0
            invariant
                i <= self.scope_stack.len(),
                all == self.scopes(),
                field_value(self.progress().values, all, key@) == scoped_value(
                    self.progress().values,
                    all.take(i as int),
                    key@,
                ),
            decreases i,
        {
            let scope = self.scope_stack[i - 1].as_str();
            assert(all.take(i as int).last() == scope@);
            assert(all.take(i as int).drop_last() =~= all.take(i - 1));
            i = i - 1;
            if scope.is_empty() {
                continue ;
            }
            let mut candidate = String::from_str(scope);
            if !key.is_empty() {
                append_dot(&mut candidate);
                candidate.append(key);
            }
            if let Some(value) = self.value_lookup.get(candidate.as_str()) {
                return Some(*value);
            }
        }
        None
    }

    /// Evaluates both operands, the left one first.
    fn eval_operands(&self, expr: &BinaryExpr) -> (values: Result<(i128, i128), Halt>)
        ensures
            outcome(values) == operands(
                self.env(),
                self.progress().values,
                self.scopes(),
                *expr,
            ),
        decreases expr, 0nat,
    {
        match self.eval_expr_signed(&expr.left) {
            Ok(l) => match self.eval_expr_signed(&expr.right) {
                Ok(r) => Ok((l, r)),
                Err(halt) => Err(halt),
            },
            Err(halt) => Err(halt),
        }
    }

    /// Evaluates an arithmetic operator.
    fn binary(&self, op: BinaryOp, expr: &BinaryExpr) -> (value: Result<i128, Halt>)
        ensures
            outcome(value) == binary_value(
                self.env(),
                op,
                operands(self.env(), self.progress().values, self.scopes(), *expr),
            ),
        decreases expr, 1nat,
    {
        match self.eval_operands(expr) {
            Ok((l, r)) => combine(self.typename, op, l, r),
            Err(halt) => Err(halt),
        }
    }

    /// Evaluates a comparison.
    fn compare(&self, op: CompareOp, expr: &BinaryExpr) -> (value: Result<i128, Halt>)
        ensures
            outcome(value) == compare_value(
                op,
                operands(self.env(), self.progress().values, self.scopes(), *expr),
            ),
        decreases expr, 1nat,
    {
        match self.eval_operands(expr) {
            Ok((l, r)) => {
                let holds: bool = match op {
                    CompareOp::Eq => l == r,
                    CompareOp::Ne => l != r,
                    CompareOp::Lt => l < r,
                    CompareOp::Gt => l > r,
                    CompareOp::Le => l <= r,
                    CompareOp::Ge => l >= r,
                };
                Ok(if holds { 1 } else { 0 })
            },
            Err(halt) => Err(halt),
        }
    }

    /// Evaluates a connective; both operands are evaluated in any case.
    fn logical(&self, op: LogicalOp, expr: &BinaryExpr) -> (value: Result<i128, Halt>)
        ensures
            outcome(value) == logical_value(
                op,
                operands(self.env(), self.progress().values, self.scopes(), *expr),
            ),
        decreases expr, 1nat,
    {
        match self.eval_operands(expr) {
            Ok((l, r)) => {
                let holds: bool = match op {
                    LogicalOp::And => l != 0 && r != 0,
                    LogicalOp::Or => l != 0 || r != 0,
                    LogicalOp::Xor => (l != 0) != (r != 0),
                };
                Ok(if holds { 1 } else { 0 })
            },
            Err(halt) => Err(halt),
        }
    }

    /// Evaluates an expression.
    pub fn eval_expr_signed(&self, expr: &ExprKind) -> (value: Result<i128, Halt>)
        ensures
            outcome(value) == eval(self.env(), self.progress().values, self.scopes(), *expr),
        decreases expr, 2nat,
    {
        match expr {
            ExprKind::Literal(literal) => Ok(
                match literal {
                    LiteralExpr::U64(v) => *v as i128,
                    LiteralExpr::U32(v) => *v as i128,
                    LiteralExpr::U16(v) => *v as i128,
                    LiteralExpr::U8(v) => *v as i128,
                    LiteralExpr::I64(v) => *v as i128,
                    LiteralExpr::I32(v) => *v as i128,
                    LiteralExpr::I16(v) => *v as i128,
                    LiteralExpr::I8(v) => *v as i128,
                },
            ),
            ExprKind::FieldRef(field_ref) => {
                let key = flatten_field_ref(field_ref);
                match self.lookup_field_value(key.as_str()) {
                    Some(value) => Ok(value),
                    None => Err(
                        Halt::Error(
                            unsupported(
                                self.typename,
                                key.as_str(),
                                "required field value not available",
                            ),
                        ),
                    ),
                }
            },
            ExprKind::Sizeof(query) => {
                let target = query.typename.as_str();
                match self.resolver.get_type_info(target) {
                    None => Err(
                        Halt::Error(
                            unsupported(self.typename, target, "sizeof target type not found"),
                        ),
                    ),
                    Some(ty) => match ty.size {
                        Size::Const(value) => Ok(value as i128),
                        Size::Variable => Err(
                            Halt::Error(
                                unsupported(
                                    self.typename,
                                    target,
                                    "sizeof of variable type unsupported",
                                ),
                            ),
                        ),
                    },
                }
            },
            ExprKind::Alignof(query) => {
                let target = query.typename.as_str();
                match self.resolver.get_type_info(target) {
                    None => Err(
                        Halt::Error(
                            unsupported(self.typename, target, "alignof target type not found"),
                        ),
                    ),
                    Some(ty) => Ok(ty.alignment as i128),
                }
            },
            ExprKind::Add(e) => self.binary(BinaryOp::Add, e),
            ExprKind::Sub(e) => self.binary(BinaryOp::Sub, e),
            ExprKind::Mul(e) => self.binary(BinaryOp::Mul, e),
            ExprKind::Div(e) => self.binary(BinaryOp::Div, e),
            ExprKind::Mod(e) => self.binary(BinaryOp::Mod, e),
            ExprKind::Pow(e) => match self.eval_operands(e) {
                Ok((l, r)) => raise(self.typename, l, r),
                Err(halt) => Err(halt),
            },
            ExprKind::BitAnd(e) => self.binary(BinaryOp::BitAnd, e),
            ExprKind::BitOr(e) => self.binary(BinaryOp::BitOr, e),
            ExprKind::BitXor(e) => self.binary(BinaryOp::BitXor, e),
            ExprKind::LeftShift(e) => self.binary(BinaryOp::LeftShift, e),
            ExprKind::RightShift(e) => self.binary(BinaryOp::RightShift, e),
            ExprKind::BitNot(e) => match self.eval_expr_signed(&e.operand) {
                Ok(v) => Ok(!v),
                Err(halt) => Err(halt),
            },
            ExprKind::Neg(e) => match self.eval_expr_signed(&e.operand) {
                Ok(v) => if v == i128::MIN {
                    Err(Halt::Undefined)
                } else {
                    Ok(-v)
                },
                Err(halt) => Err(halt),
            },
            ExprKind::Not(e) => match self.eval_expr_signed(&e.operand) {
                Ok(v) => Ok(if v == 0 { 1 } else { 0 }),
                Err(halt) => Err(halt),
            },
            ExprKind::Popcount(e) => match self.eval_expr_signed(&e.operand) {
                Ok(v) => {
                    let bits: u128 = #[verifier::truncate]
                    (v as u128);
                    Ok(count_set_bits(bits) as i128)
                },
                Err(halt) => Err(halt),
            },
            ExprKind::Eq(e) => self.compare(CompareOp::Eq, e),
            ExprKind::Ne(e) => self.compare(CompareOp::Ne, e),
            ExprKind::Lt(e) => self.compare(CompareOp::Lt, e),
            ExprKind::Gt(e) => self.compare(CompareOp::Gt, e),
            ExprKind::Le(e) => self.compare(CompareOp::Le, e),
            ExprKind::Ge(e) => self.compare(CompareOp::Ge, e),
            ExprKind::And(e) => self.logical(LogicalOp::And, e),
            ExprKind::Or(e) => self.logical(LogicalOp::Or, e),
            ExprKind::Xor(e) => self.logical(LogicalOp::Xor, e),
        }
    }

    /// Evaluates an expression that counts something.
    pub fn eval_expr(&self, expr: &ExprKind) -> (value: Result<u128, Halt>)
        ensures
            outcome(value) == count_value(
                self.env(),
                self.progress().values,
                self.scopes(),
                *expr,
            ),
    {
        match self.eval_expr_signed(expr) {
            Ok(value) => {
                if value < 0 {
                    let name = expr_name(expr);
                    Err(
                        Halt::Error(
                            unsupported(
                                self.typename,
                                name.as_str(),
                                "expression evaluated to a negative value",
                            ),
                        ),
                    )
                } else {
                    Ok(value as u128)
                }
            },
            Err(halt) => Err(halt),
        }
    }

    /// Everything but the findings is as it was in `earlier`.
    pub closed spec fn only_progressed(self, earlier: Self) -> bool {
        &&& self.typename == earlier.typename
        &&& self.buffer_len == earlier.buffer_len
        &&& self.resolver == earlier.resolver
        &&& self.field_params == earlier.field_params
        &&& self.scope_stack@ == earlier.scope_stack@
    }

    /// Gives all of `names` the same value.
    fn assign(&mut self, names: &Vec<&'a str>, value: u128)
        ensures
            final(self).only_progressed(*old(self)),
            final(self).progress() == (Progress {
                params: assigned(old(self).progress().params, slices(names@), value),
                ..old(self).progress()
            }),
    {
        let mut i: usize = 0;
        let ghost start = self.params@;
        let ghost all = slices(names@);
        assert(assigned(start, all.take(0), value) =~= start);
        while i < names.len()
            invariant
                i <= names.len(),
                all == slices(names@),
                start == old(self).params@,
                self.only_progressed(*old(self)),
                self.value_lookup == old(self).value_lookup,
                self.tagged == old(self).tagged,
                self.remaining_payload == old(self).remaining_payload,
                self.params@ == assigned(start, all.take(i as int), value),
            decreases names.len() - i,
        {
            self.params.insert(String::from_str(names[i]), value);
            proof {
                lemma_longer_prefix(all, i as int);
                assert(self.params@ =~= assigned(start, all.take(i + 1), value));
            }
            i = i + 1;
        }
        assert(all.take(i as int) =~= all);
    }

    /// Gives the parameters bound to `key` the value `value`.
    fn insert_param_value(&mut self, key: &str, value: u128)
        ensures
            final(self).only_progressed(*old(self)),
            final(self).progress() == (Progress {
                params: assigned(
                    old(self).progress().params,
                    old(self).env().names_at(key@),
                    value,
                ),
                ..old(self).progress()
            }),
    {
        let field_params: &'a FieldParams<'a> = self.field_params;
        match field_params.get(key) {
            Some(names) => {
                self.assign(names, value);
            },
            None => {
                assert(assigned(
                    self.params@,
                    Seq::empty(),
                    value,
                ) =~= self.params@);
            },
        }
    }

    /// Gives the parameters bound to `key` the value of an integral field.
    pub fn insert_field_params(&mut self, key: &str, value: i128) -> (result: ReflectResult<()>)
        ensures
            final(self).only_progressed(*old(self)),
            ({
                let names = old(self).env().names_at(key@);
                if names.len() == 0 {
                    result is Ok && final(self).progress() == old(self).progress()
                } else {
                    match parameter_value(value, old(self).env().typename, names[0]) {
                        Outcome::Done(param) => {
                            &&& result is Ok
                            &&& final(self).progress() == (Progress {
                                params: assigned(old(self).progress().params, names, param),
                                ..old(self).progress()
                            })
                        },
                        Outcome::Failed(failure) => result matches Err(error) && error@ == failure,
                        Outcome::Undefined => false,
                    }
                }
            }),
            result is Err ==> final(self).progress() == old(self).progress(),
    {
        let field_params: &'a FieldParams<'a> = self.field_params;
        match field_params.get(key) {
            Some(names) => {
                if names.len() > 0 {
                    match nonnegative_integral(value, self.typename, names[0]) {
                        Ok(param) => {
                            self.assign(names, param);
                        },
                        Err(error) => {
                            return Err(error);
                        },
                    }
                }
                Ok(())
            },
            None => Ok(()),
        }
    }

    /// Notes the value of the field at `path`.
    fn store_field_value(&mut self, path: &[String], value: i128)
        ensures
            final(self).only_progressed(*old(self)),
            final(self).progress() == with_value(old(self).progress(), texts(path@), value),
    {
        if path.len() == 0 {
            return ;
        }
        self.value_lookup.insert(path_key(path), value);
    }

    /// Records an integral field: notes its value and gives it to the parameters bound to it.
    fn record_integral(&mut self, path: &[String], value: i128) -> (result: ReflectResult<()>)
        ensures
            final(self).only_progressed(*old(self)),
            match with_integral(old(self).env(), old(self).progress(), texts(path@), value) {
                Walk::Done(next) => result is Ok && final(self).progress() == next,
                Walk::Failed(stop) => {
                    &&& result matches Err(error) && error@ == stop.failure
                    &&& final(self).progress() == stop.at
                },
                Walk::Undefined => false,
            },
    {
        let key = path_key(path);
        self.store_field_value(path, value);
        self.insert_field_params(key.as_str(), value)
    }

    /// Gives the parameters bound to the tag of the enum at `path` the value of the tag.
    fn record_enum_tag(&mut self, path: &Vec<String>, tag_value: u64)
        ensures
            final(self).only_progressed(*old(self)),
            final(self).progress() == with_tag(
                old(self).env(),
                old(self).progress(),
                texts(path@),
                tag_value,
            ),
    {
        let mut key = path_key(path.as_slice());
        if path.len() > 0 {
            append_dot(&mut key);
        }
        key.append("tag");
        proof {
            crate::names::lemma_join_push(texts(path@), "tag"@);
            assert(key@ =~= dot_join(texts(path@).push("tag"@)));
        }
        self.insert_param_value(key.as_str(), tag_value as u128);
        proof {
            self.tagged@ = self.tagged@.insert(key@);
        }
    }

    /// Gives the parameters that wait for the size of the field at `path` that size.
    fn record_payload(&mut self, path: &[String], size: usize)
        ensures
            final(self).only_progressed(*old(self)),
            final(self).progress() == with_payload(old(self).progress(), texts(path@), size),
    {
        let key = path_key(path);
        let mut matched: Vec<String> = Vec::new();
        let ghost pending = self.remaining_payload@;
        let ghost fits = |name: Seq<char>| pending.contains_key(name) && pending[name]@ == key@;
        let len: usize = self.remaining_payload.len();
        let mut i: usize = 0;
        while i < len
            invariant
                i <= len,
                len == self.remaining_payload.keys().len(),
                pending == self.remaining_payload@,
                fits == (|name: Seq<char>| pending.contains_key(name) && pending[name]@ == key@),
                forall|j: int| 0 <= j < matched.len() ==> fits((#[trigger] matched[j])@),
                forall|j: int|
                    0 <= j < i && fits(#[trigger] self.remaining_payload.keys()[j]) ==> texts(
                        matched@,
                    ).contains(self.remaining_payload.keys()[j]),
            decreases len - i,
        {
            let name = self.remaining_payload.key_at(i);
            let target = self.remaining_payload.value_at(i);
            if same_text(target.as_str(), key.as_str()) {
                let ghost earlier = matched@;
                matched.push(String::from_str(name));
                proof {
                    assert(texts(matched@)[earlier.len() as int] == name@);
                    assert forall|n: Seq<char>| #[trigger] texts(earlier).contains(n) implies texts(
                        matched@,
                    ).contains(n) by {
                        let j = texts(earlier).index_of(n);
                        assert(texts(matched@)[j] == n);
                    }
                    assert(fits(name@));
                }
            }
            i = i + 1;
        }
        assert forall|name: Seq<char>| #[trigger] fits(name) == texts(matched@).contains(name) by {
            if fits(name) {
                let j = self.remaining_payload.keys().index_of(name);
                assert(fits(self.remaining_payload.keys()[j]));
            }
            if texts(matched@).contains(name) {
                let j = texts(matched@).index_of(name);
                assert(matched[j]@ == name);
            }
        }
        let ghost names = texts(matched@);
        let ghost params = self.params@;
        let mut k: usize = 0;
        assert(assigned(params, names.take(0), size as u128) =~= params);
        while k < matched.len()
            invariant
                k <= matched.len(),
                names == texts(matched@),
                params == old(self).params@,
                pending == old(self).remaining_payload@,
                self.only_progressed(*old(self)),
                self.value_lookup == old(self).value_lookup,
                self.tagged == old(self).tagged,
                forall|name: Seq<char>|
                    #[trigger] self.params@.contains_key(name) == (params.contains_key(name)
                        || names.take(k as int).contains(name)),
                forall|name: Seq<char>|
                    #[trigger] self.params@.contains_key(name) ==> self.params@[name] == (
                    if names.take(k as int).contains(name) {
                        size as u128
                    } else {
                        params[name]
                    }),
                forall|name: Seq<char>|
                    #[trigger] self.remaining_payload@.contains_key(name) == (pending.contains_key(
                        name,
                    ) && !names.take(k as int).contains(name)),
                forall|name: Seq<char>|
                    #[trigger] self.remaining_payload@.contains_key(name)
                        ==> self.remaining_payload@[name] == pending[name],
            decreases matched.len() - k,
        {
            let name = matched[k].as_str();
            proof {
                lemma_longer_prefix(names, k as int);
            }
            self.params.insert(String::from_str(name), size as u128);
            self.remaining_payload.remove(name);
            k = k + 1;
        }
        proof {
            assert(names.take(k as int) =~= names);
            let expected = with_payload(old(self).progress(), texts(path@), size);
            assert forall|name: Seq<char>| names.contains(name) == (#[trigger] text_values(
                pending,
            ).contains_key(name) && text_values(pending)[name] == key@) by {
                assert(fits(name) == names.contains(name));
            }
            assert(self.params@ =~= expected.params);
            assert(text_values(self.remaining_payload@) =~= expected.pending);
        }
    }

    /// Records the size of the field at `path`, where it is the last one.
    fn record_tail_payload(&mut self, path: &[String], consumed: usize, is_last: bool)
        ensures
            final(self).only_progressed(*old(self)),
            final(self).progress() == (if is_last {
                with_payload(old(self).progress(), texts(path@), consumed)
            } else {
                old(self).progress()
            }),
    {
        if is_last {
            self.record_payload(path, consumed);
        }
    }

    /// Ends the walk: gives the values of the parameters, unless one still waits for a size.
    pub fn finish(self) -> (params: ReflectResult<ParamMap>)
        ensures
            match finished(self.env(), self.progress()) {
                Outcome::Done(found) => params matches Ok(map) && map@ == found,
                Outcome::Failed(failure) => params matches Err(error) && error@ == failure,
                Outcome::Undefined => false,
            },
            params matches Err(error) ==> (error@ matches Failure::Unsupported { parameter, .. }
                && is_least(self.progress().pending.dom(), parameter)),
    {
        let ghost pending = self.progress().pending;
        if self.remaining_payload.len() > 0 {
            let missing = self.remaining_payload.key_at(0);
            proof {
                let keys = self.remaining_payload.keys();
                assert(pending.contains_key(missing@));
                assert forall|name: Seq<char>| #[trigger] pending.dom().contains(name) implies name
                    == missing@ || crate::str_map::before(missing@, name) by {
                    let j = keys.index_of(name);
                    assert(keys[j] == name);
                }
                assert(is_least(pending.dom(), missing@));
                let chosen = choose|name: Seq<char>| is_least(pending.dom(), name);
                crate::str_map::lemma_least_unique(pending.dom(), missing@, chosen);
            }
            return Err(
                unsupported(self.typename, missing, "payload size could not be determined"),
            );
        }
        assert(pending =~= Map::<Seq<char>, Seq<char>>::empty());
        Ok(self.params)
    }

    /// Reads the primitive field at `path`.
    fn read_primitive(&mut self, path: &[String], data: &[u8], prim_type: &PrimitiveType) -> (result:
        Result<usize, Halt>)
        ensures
            final(self).only_progressed(*old(self)),
            follows(
                result,
                walk_primitive(
                    old(self).env(),
                    old(self).progress(),
                    *prim_type,
                    texts(path@),
                    data@,
                ),
                final(self).progress(),
                texts(path@),
            ),
    {
        let size: usize = primitive_size(prim_type);
        if size > data.len() {
            return Err(Halt::Error(self.buffer_error(size as u64)));
        }
        match prim_type {
            PrimitiveType::Integral(int_type) => {
                let key = path_key(path);
                match read_integral_value(data, prim_type, self.typename, key.as_str()) {
                    Ok(value) => match self.record_integral(path, value) {
                        Ok(_) => Ok(size),
                        Err(error) => Err(Halt::Error(error)),
                    },
                    Err(error) => Err(Halt::Error(error)),
                }
            },
            PrimitiveType::FloatingPoint(_) => Ok(size),
        }
    }

    /// Walks over a field whose type is told by the size of the data left.
    pub fn process_sdu(&mut self, path: &[String], data: &[u8], is_last: bool) -> (result: Result<
        usize,
        Halt,
    >)
        ensures
            final(self).only_progressed(*old(self)),
            follows(
                result,
                walk_sdu(old(self).env(), old(self).progress(), texts(path@), data@, is_last),
                final(self).progress(),
                texts(path@),
            ),
            result is Err ==> final(self).progress() == old(self).progress(),
    {
        if !is_last {
            let key = path_key(path);
            return Err(
                Halt::Error(
                    unsupported(
                        self.typename,
                        key.as_str(),
                        "size-discriminated unions must be the final field",
                    ),
                ),
            );
        }
        self.record_payload(path, data.len());
        Ok(data.len())
    }

    /// Walks over a union.
    pub fn process_union(&mut self, size: Size, path: &[String], data: &[u8]) -> (result: Result<
        usize,
        Halt,
    >)
        ensures
            final(self).only_progressed(*old(self)),
            follows(
                result,
                walk_union(old(self).env(), old(self).progress(), size, texts(path@), data@),
                final(self).progress(),
                texts(path@),
            ),
            result is Err ==> final(self).progress() == old(self).progress(),
    {
        let key = path_key(path);
        let bytes: usize = match size {
            Size::Const(value) => #[verifier::truncate]
            (value as usize),
            Size::Variable => {
                return Err(
                    Halt::Error(
                        unsupported(
                            self.typename,
                            key.as_str(),
                            "unions with variable size are not supported yet",
                        ),
                    ),
                );
            },
        };
        if bytes > data.len() {
            return Err(Halt::Error(self.buffer_error(bytes as u64)));
        }
        self.store_field_value(path, bytes as i128);
        self.insert_param_value(key.as_str(), bytes as u128);
        Ok(bytes)
    }

    /// Finds where the next field of a struct starts.
    fn locate_field(&self, field: &ResolvedField, packed: bool, cursor: usize, len: usize) -> (start:
        Result<usize, Halt>)
        ensures
            outcome(start) == field_start(self.env(), *field, packed, cursor, len as nat),
    {
        let mut start: usize = cursor;
        if !packed {
            let alignment: u64 = field.field_type.alignment;
            if alignment > 1 && #[verifier::truncate]
            (alignment as usize) < 1 {
                return Err(Halt::Undefined);
            }
            match align_up(cursor, alignment) {
                Some(offset) => {
                    start = offset;
                },
                None => {
                    return Err(Halt::Error(self.align_error(field.name.as_str())));
                },
            }
        }
        if start > len {
            return Err(Halt::Error(self.buffer_error(start as u64)));
        }
        Ok(start)
    }

    /// Finds where a struct ends.
    fn locate_end(&self, packed: bool, alignment: u64, cursor: usize) -> (end: Result<usize, Halt>)
        ensures
            outcome(end) == struct_end(self.env(), packed, alignment, cursor),
    {
        if packed || alignment <= 1 {
            return Ok(cursor);
        }
        if #[verifier::truncate]
        (alignment as usize) < 1 {
            return Err(Halt::Undefined);
        }
        match align_up(cursor, alignment) {
            Some(end) => Ok(end),
            None => Err(Halt::Error(self.align_error("struct"))),
        }
    }

    /// Walks over a struct, which becomes the innermost scope.
    pub fn process_struct(
        &mut self,
        ty: &ResolvedType,
        path: &mut Vec<String>,
        data: &[u8],
        budget: Option<usize>,
        Ghost(depth): Ghost<nat>,
    ) -> (result: Result<usize, Halt>)
        requires
            admits(
                budget,
                depth,
                walk_struct(
                    old(self).env(),
                    depth,
                    old(self).progress(),
                    *ty,
                    texts(old(path)@),
                    old(self).scopes(),
                    data@,
                ),
            ),
        ensures
            final(self).only_progressed(*old(self)),
            final(self).env() == old(self).env(),
            final(self).scopes() == old(self).scopes(),
            result is Ok ==> final(path)@ == old(path)@,
            follows(
                result,
                walk_struct(
                    old(self).env(),
                    depth,
                    old(self).progress(),
                    *ty,
                    texts(old(path)@),
                    old(self).scopes(),
                    data@,
                ),
                final(self).progress(),
                texts(final(path)@),
            ),
        decreases depth, ty, 1nat,
    {
        let scope = path_key(path.as_slice());
        let ghost inner = self.scopes().push(scope@);
        self.scope_stack.push(scope);
        assert(self.scopes() =~= inner);
        let result = self.process_struct_inner(ty, path, data, budget, Ghost(depth), Ghost(
            old(self).scopes(),
        ));
        self.scope_stack.pop();
        assert(self.scope_stack@ =~= old(self).scope_stack@);
        result
    }

    /// Walks over the fields of a struct, which is the innermost scope already.
    pub fn process_struct_inner(
        &mut self,
        ty: &ResolvedType,
        path: &mut Vec<String>,
        data: &[u8],
        budget: Option<usize>,
        Ghost(depth): Ghost<nat>,
        Ghost(outer): Ghost<Seq<Seq<char>>>,
    ) -> (result: Result<usize, Halt>)
        requires
            old(self).scopes() == outer.push(dot_join(texts(old(path)@))),
            admits(
                budget,
                depth,
                walk_struct(
                    old(self).env(),
                    depth,
                    old(self).progress(),
                    *ty,
                    texts(old(path)@),
                    outer,
                    data@,
                ),
            ),
        ensures
            final(self).only_progressed(*old(self)),
            result is Ok ==> final(path)@ == old(path)@,
            follows(
                result,
                walk_struct(
                    old(self).env(),
                    depth,
                    old(self).progress(),
                    *ty,
                    texts(old(path)@),
                    outer,
                    data@,
                ),
                final(self).progress(),
                texts(final(path)@),
            ),
        decreases depth, ty, 0nat,
    {
        match &ty.kind {
            ResolvedTypeKind::Struct { fields, packed, custom_alignment } => {
                let packed: bool = *packed;
                let mut cursor: usize = 0;
                let mut i: usize = 0;
                let ghost env = self.env();
                let ghost scopes = self.scopes();
                let ghost place = texts(path@);
                let ghost whole = walk_fields(
                    env,
                    depth,
                    self.progress(),
                    fields@,
                    0,
                    packed,
                    0,
                    place,
                    scopes,
                    data@,
                );
                while i < fields.len()
                    invariant
                        i <= fields.len(),
                        ty.kind matches ResolvedTypeKind::Struct { fields: f, packed: p, .. }
                            && f == *fields && p == packed,
                        self.only_progressed(*old(self)),
                        path@ == old(path)@,
                        env == old(self).env(),
                        scopes == old(self).scopes(),
                        place == texts(old(path)@),
                        old(self).scopes() == outer.push(dot_join(place)),
                        whole == walk_fields(
                            env,
                            depth,
                            old(self).progress(),
                            fields@,
                            0,
                            packed,
                            0,
                            place,
                            scopes,
                            data@,
                        ),
                        whole == walk_fields(
                            env,
                            depth,
                            self.progress(),
                            fields@,
                            i as int,
                            packed,
                            cursor,
                            place,
                            scopes,
                            data@,
                        ),
                        admits(budget, depth, whole),
                    decreases fields.len() - i,
                {
                    let field = &fields[i];
                    assert(self.env() == env && self.scopes() == scopes);
                    let start: usize = match self.locate_field(field, packed, cursor, data.len()) {
                        Ok(start) => start,
                        Err(halt) => {
                            return Err(halt);
                        },
                    };
                    let rest = slice_subrange(data, start, data.len());
                    assert(rest@ =~= data@.skip(start as int));
                    path.push(field.name.clone());
                    assert(texts(path@) =~= place.push(field.name@));
                    let is_last: bool = i + 1 == fields.len();
                    let consumed: usize = match self.process_field(
                        &field.field_type,
                        path,
                        rest,
                        is_last,
                        budget,
                        Ghost(depth),
                    ) {
                        Ok(consumed) => consumed,
                        Err(halt) => {
                            return Err(halt);
                        },
                    };
                    path.pop();
                    assert(path@ =~= old(path)@);
                    match start.checked_add(consumed) {
                        Some(end) => {
                            cursor = end;
                        },
                        None => {
                            return Err(Halt::Error(self.align_error(field.name.as_str())));
                        },
                    }
                    i = i + 1;
                }
                let alignment: u64 = match custom_alignment {
                    Some(alignment) => *alignment,
                    None => ty.alignment,
                };
                self.locate_end(packed, alignment, cursor)
            },
            _ => Err(
                Halt::Error(
                    unsupported(
                        self.typename,
                        "<struct>",
                        "expected struct type for parameter extraction",
                    ),
                ),
            ),
        }
    }

    /// Walks over the elements of an array whose elements differ in size.
    fn process_jagged(
        &mut self,
        element_type: &ResolvedType,
        count: usize,
        path: &mut Vec<String>,
        data: &[u8],
        budget: Option<usize>,
        Ghost(depth): Ghost<nat>,
    ) -> (result: Result<usize, Halt>)
        requires
            admits(
                budget,
                depth,
                walk_jagged(
                    old(self).env(),
                    depth,
                    old(self).progress(),
                    *element_type,
                    0,
                    count,
                    0,
                    texts(old(path)@),
                    old(self).scopes(),
                    data@,
                ),
            ),
        ensures
            final(self).only_progressed(*old(self)),
            result is Ok ==> final(path)@ == old(path)@,
            follows(
                result,
                walk_jagged(
                    old(self).env(),
                    depth,
                    old(self).progress(),
                    *element_type,
                    0,
                    count,
                    0,
                    texts(old(path)@),
                    old(self).scopes(),
                    data@,
                ),
                final(self).progress(),
                texts(final(path)@),
            ),
        decreases depth, element_type, 3nat,
    {
        let mut cursor: usize = 0;
        let mut i: usize = 0;
        let ghost env = self.env();
        let ghost scopes = self.scopes();
        let ghost place = texts(path@);
        let ghost whole = walk_jagged(
            env,
            depth,
            self.progress(),
            *element_type,
            0,
            count,
            0,
            place,
            scopes,
            data@,
        );
        while i < count
            invariant
                i <= count,
                self.only_progressed(*old(self)),
                path@ == old(path)@,
                env == old(self).env(),
                scopes == old(self).scopes(),
                place == texts(old(path)@),
                whole == walk_jagged(
                    env,
                    depth,
                    old(self).progress(),
                    *element_type,
                    0,
                    count,
                    0,
                    place,
                    scopes,
                    data@,
                ),
                whole == walk_jagged(
                    env,
                    depth,
                    self.progress(),
                    *element_type,
                    i,
                    count,
                    cursor,
                    place,
                    scopes,
                    data@,
                ),
                admits(budget, depth, whole),
            decreases count - i,
        {
            assert(self.env() == env && self.scopes() == scopes);
            if cursor > data.len() {
                return Err(Halt::Error(self.buffer_error(cursor as u64)));
            }
            let rest = slice_subrange(data, cursor, data.len());
            assert(rest@ =~= data@.skip(cursor as int));
            path.push(decimal_text(i as u128));
            assert(texts(path@) =~= element_path(place, i));
            let consumed: usize = match self.process_field(
                element_type,
                path,
                rest,
                false,
                budget,
                Ghost(depth),
            ) {
                Ok(consumed) => consumed,
                Err(halt) => {
                    return Err(halt);
                },
            };
            path.pop();
            assert(path@ =~= old(path)@);
            match cursor.checked_add(consumed) {
                Some(end) => {
                    cursor = end;
                },
                None => {
                    let key = path_key(path.as_slice());
                    return Err(
                        Halt::Error(
                            unsupported(
                                self.typename,
                                key.as_str(),
                                "jagged array size overflowed",
                            ),
                        ),
                    );
                },
            }
            i = i + 1;
        }
        Ok(cursor)
    }

    /// Walks over the elements of an array of composite values, each `size` bytes wide.
    fn process_elements(
        &mut self,
        element_type: &ResolvedType,
        count: usize,
        size: usize,
        path: &mut Vec<String>,
        data: &[u8],
        budget: Option<usize>,
        Ghost(depth): Ghost<nat>,
    ) -> (result: Result<(), Halt>)
        requires
            size * count <= data@.len(),
            admits(
                budget,
                depth,
                walk_elements(
                    old(self).env(),
                    depth,
                    old(self).progress(),
                    *element_type,
                    0,
                    count,
                    size,
                    texts(old(path)@),
                    old(self).scopes(),
                    data@,
                ),
            ),
        ensures
            final(self).only_progressed(*old(self)),
            result is Ok ==> final(path)@ == old(path)@,
            follows_unsized(
                result,
                walk_elements(
                    old(self).env(),
                    depth,
                    old(self).progress(),
                    *element_type,
                    0,
                    count,
                    size,
                    texts(old(path)@),
                    old(self).scopes(),
                    data@,
                ),
                final(self).progress(),
                texts(final(path)@),
            ),
        decreases depth, element_type, 3nat,
    {
        let mut i: usize = 0;
        let ghost env = self.env();
        let ghost scopes = self.scopes();
        let ghost place = texts(path@);
        let ghost whole = walk_elements(
            env,
            depth,
            self.progress(),
            *element_type,
            0,
            count,
            size,
            place,
            scopes,
            data@,
        );
        while i < count
            invariant
                i <= count,
                size * count <= data@.len(),
                self.only_progressed(*old(self)),
                path@ == old(path)@,
                env == old(self).env(),
                scopes == old(self).scopes(),
                place == texts(old(path)@),
                whole == walk_elements(
                    env,
                    depth,
                    old(self).progress(),
                    *element_type,
                    0,
                    count,
                    size,
                    place,
                    scopes,
                    data@,
                ),
                whole == walk_elements(
                    env,
                    depth,
                    self.progress(),
                    *element_type,
                    i,
                    count,
                    size,
                    place,
                    scopes,
                    data@,
                ),
                admits(budget, depth, whole),
            decreases count - i,
        {
            assert(self.env() == env && self.scopes() == scopes);
            proof {
                lemma_element_in_array(i as int, count as int, size as int);
                assert(data@.len() == data.len());
            }
            let from: usize = i * size;
            let element = slice_subrange(data, from, from + size);
            path.push(decimal_text(i as u128));
            assert(texts(path@) =~= element_path(place, i));
            match self.process_field(element_type, path, element, false, budget, Ghost(depth)) {
                Ok(_) => {},
                Err(halt) => {
                    return Err(halt);
                },
            }
            path.pop();
            assert(path@ =~= old(path)@);
            i = i + 1;
        }
        Ok(())
    }

    /// Reads the elements of an array of primitive values, each `size` bytes wide.
    fn process_primitives(
        &mut self,
        prim_type: &PrimitiveType,
        count: usize,
        size: usize,
        path: &mut Vec<String>,
        data: &[u8],
    ) -> (result: Result<(), Halt>)
        requires
            size * count <= data@.len(),
        ensures
            final(self).only_progressed(*old(self)),
            result is Ok ==> final(path)@ == old(path)@,
            follows_unsized(
                result,
                walk_primitives(
                    old(self).env(),
                    old(self).progress(),
                    *prim_type,
                    0,
                    count,
                    size,
                    texts(old(path)@),
                    data@,
                ),
                final(self).progress(),
                texts(final(path)@),
            ),
    {
        match prim_type {
            PrimitiveType::FloatingPoint(_) => {
                return Ok(());
            },
            PrimitiveType::Integral(_) => {},
        }
        let mut i: usize = 0;
        let ghost env = self.env();
        let ghost place = texts(path@);
        let ghost whole = walk_primitives(
            env,
            self.progress(),
            *prim_type,
            0,
            count,
            size,
            place,
            data@,
        );
        while i < count
            invariant
                i <= count,
                size * count <= data@.len(),
                prim_type is Integral,
                self.only_progressed(*old(self)),
                path@ == old(path)@,
                env == old(self).env(),
                place == texts(old(path)@),
                whole == walk_primitives(
                    env,
                    old(self).progress(),
                    *prim_type,
                    0,
                    count,
                    size,
                    place,
                    data@,
                ),
                whole == walk_primitives(
                    env,
                    self.progress(),
                    *prim_type,
                    i,
                    count,
                    size,
                    place,
                    data@,
                ),
            decreases count - i,
        {
            assert(self.env() == env);
            if size < primitive_size(prim_type) {
                return Err(Halt::Undefined);
            }
            proof {
                lemma_element_in_array(i as int, count as int, size as int);
                assert(data@.len() == data.len());
            }
            let from: usize = i * size;
            let element = slice_subrange(data, from, from + size);
            path.push(decimal_text(i as u128));
            assert(texts(path@) =~= element_path(place, i));
            let key = path_key(path.as_slice());
            match read_integral_value(element, prim_type, self.typename, key.as_str()) {
                Ok(value) => match self.record_integral(path.as_slice(), value) {
                    Ok(_) => {},
                    Err(error) => {
                        return Err(Halt::Error(error));
                    },
                },
                Err(error) => {
                    return Err(Halt::Error(error));
                },
            }
            path.pop();
            assert(path@ =~= old(path)@);
            i = i + 1;
        }
        Ok(())
    }

    /// Walks over an array.
    pub fn process_array(
        &mut self,
        element_type: &ResolvedType,
        size_expression: &ExprKind,
        jagged: bool,
        path: &mut Vec<String>,
        data: &[u8],
        budget: Option<usize>,
        Ghost(depth): Ghost<nat>,
    ) -> (result: Result<usize, Halt>)
        requires
            admits(
                budget,
                depth,
                array_outcome(
                    old(self).env(),
                    depth,
                    old(self).progress(),
                    *element_type,
                    *size_expression,
                    jagged,
                    texts(old(path)@),
                    old(self).scopes(),
                    data@,
                ),
            ),
        ensures
            final(self).only_progressed(*old(self)),
            result is Ok ==> final(path)@ == old(path)@,
            follows(
                result,
                array_outcome(
                    old(self).env(),
                    depth,
                    old(self).progress(),
                    *element_type,
                    *size_expression,
                    jagged,
                    texts(old(path)@),
                    old(self).scopes(),
                    data@,
                ),
                final(self).progress(),
                texts(final(path)@),
            ),
            count_value(
                old(self).env(),
                old(self).progress().values,
                old(self).scopes(),
                *size_expression,
            ) matches Outcome::Done(count) ==> (turned_down(
                *element_type,
                jagged,
                count as usize,
                data@.len(),
            ) ==> {
                &&& final(self).progress() == old(self).progress()
                &&& final(path)@ == old(path)@
            }),
        decreases depth, element_type, 4nat,
    {
        let count: usize = match self.eval_expr(size_expression) {
            Ok(count) => #[verifier::truncate]
            (count as usize),
            Err(halt) => {
                return Err(halt);
            },
        };
        if element_type.size == Size::Const(0) || count == 0 {
            return Ok(0);
        }
        match element_type.size {
            Size::Variable => {
                if jagged {
                    return self.process_jagged(
                        element_type,
                        count,
                        path,
                        data,
                        budget,
                        Ghost(depth),
                    );
                }
                let key = path_key(path.as_slice());
                Err(
                    Halt::Error(
                        unsupported(
                            self.typename,
                            key.as_str(),
                            "arrays with variable-sized elements are not supported yet",
                        ),
                    ),
                )
            },
            Size::Const(value) => {
                let size: usize = #[verifier::truncate]
                (value as usize);
                let bytes: usize = match size.checked_mul(count) {
                    Some(bytes) => bytes,
                    None => {
                        let key = path_key(path.as_slice());
                        return Err(
                            Halt::Error(
                                unsupported(self.typename, key.as_str(), "array size overflowed"),
                            ),
                        );
                    },
                };
                if bytes > data.len() {
                    return Err(Halt::Error(self.buffer_error(bytes as u64)));
                }
                let walked = match &element_type.kind {
                    ResolvedTypeKind::Primitive { prim_type } => self.process_primitives(
                        prim_type,
                        count,
                        size,
                        path,
                        data,
                    ),
                    _ => self.process_elements(
                        element_type,
                        count,
                        size,
                        path,
                        data,
                        budget,
                        Ghost(depth),
                    ),
                };
                match walked {
                    Ok(_) => Ok(bytes),
                    Err(halt) => Err(halt),
                }
            },
        }
    }

    /// Walks over an enum.
    pub fn process_enum(
        &mut self,
        tag_expression: &ExprKind,
        variants: &Vec<ResolvedEnumVariant>,
        path: &mut Vec<String>,
        data: &[u8],
        budget: Option<usize>,
        Ghost(depth): Ghost<nat>,
    ) -> (result: Result<usize, Halt>)
        requires
            admits(
                budget,
                depth,
                enum_outcome(
                    old(self).env(),
                    depth,
                    old(self).progress(),
                    *tag_expression,
                    variants@,
                    texts(old(path)@),
                    old(self).scopes(),
                    data@,
                ),
            ),
        ensures
            final(self).only_progressed(*old(self)),
            result is Ok ==> final(path)@ == old(path)@,
            follows(
                result,
                enum_outcome(
                    old(self).env(),
                    depth,
                    old(self).progress(),
                    *tag_expression,
                    variants@,
                    texts(old(path)@),
                    old(self).scopes(),
                    data@,
                ),
                final(self).progress(),
                texts(final(path)@),
            ),
            count_value(
                old(self).env(),
                old(self).progress().values,
                old(self).scopes(),
                *tag_expression,
            ) matches Outcome::Done(tag) ==> (!has_tag(variants@, tag as u64) ==> {
                &&& final(self).progress() == old(self).progress()
                &&& final(path)@ == old(path)@
            }),
        decreases depth, variants, 0nat,
    {
        let tag: u64 = match self.eval_expr(tag_expression) {
            Ok(tag) => #[verifier::truncate]
            (tag as u64),
            Err(halt) => {
                return Err(halt);
            },
        };
        match find_variant(variants, tag) {
            Some(i) => {
                proof {
                    let k = choose|k: int| first_variant(variants@, tag, k);
                    assert(first_variant(variants@, tag, i as int));
                    assert(first_variant(variants@, tag, k));
                    assert(k == i) by {
                        if k < i {
                            assert(variants@[k].tag_value != tag);
                        } else if i < k {
                            assert(variants@[i as int].tag_value != tag);
                        }
                    }
                }
                self.record_enum_tag(path, tag);
                self.process_field(
                    &variants[i].variant_type,
                    path,
                    data,
                    false,
                    budget,
                    Ghost(depth),
                )
            },
            None => {
                let key = path_key(path.as_slice());
                let mut reason = String::from_str("enum tag value ");
                reason.append(decimal_text(tag as u128).as_str());
                reason.append(" not found");
                Err(Halt::Error(unsupported(self.typename, key.as_str(), reason.as_str())))
            },
        }
    }

    /// Walks over the field at `path`, which `data` begins with, and returns how many bytes it
    /// takes.
    pub fn process_field(
        &mut self,
        ty: &ResolvedType,
        path: &mut Vec<String>,
        data: &[u8],
        is_last: bool,
        budget: Option<usize>,
        Ghost(depth): Ghost<nat>,
    ) -> (result: Result<usize, Halt>)
        requires
            admits(
                budget,
                depth,
                walk_field(
                    old(self).env(),
                    depth,
                    old(self).progress(),
                    *ty,
                    texts(old(path)@),
                    old(self).scopes(),
                    data@,
                    is_last,
                ),
            ),
        ensures
            final(self).only_progressed(*old(self)),
            result is Ok ==> final(path)@ == old(path)@,
            follows(
                result,
                walk_field(
                    old(self).env(),
                    depth,
                    old(self).progress(),
                    *ty,
                    texts(old(path)@),
                    old(self).scopes(),
                    data@,
                    is_last,
                ),
                final(self).progress(),
                texts(final(path)@),
            ),
            ty.kind matches ResolvedTypeKind::TypeRef { target_name } ==> (
            !old(self).env().types.contains_key(target_name@) ==> {
                &&& final(self).progress() == old(self).progress()
                &&& final(path)@ == old(path)@
            }),
        decreases depth, ty, 2nat,
    {
        let walked = match &ty.kind {
            ResolvedTypeKind::Primitive { prim_type } => self.read_primitive(
                path.as_slice(),
                data,
                prim_type,
            ),
            ResolvedTypeKind::Struct { .. } => self.process_struct(
                ty,
                path,
                data,
                budget,
                Ghost(depth),
            ),
            ResolvedTypeKind::Array { element_type, size_expression, jagged } => self.process_array(
                element_type,
                size_expression,
                *jagged,
                path,
                data,
                budget,
                Ghost(depth),
            ),
            ResolvedTypeKind::Enum { tag_expression, variants } => self.process_enum(
                tag_expression,
                variants,
                path,
                data,
                budget,
                Ghost(depth),
            ),
            ResolvedTypeKind::SizeDiscriminatedUnion { .. } => self.process_sdu(
                path.as_slice(),
                data,
                is_last,
            ),
            ResolvedTypeKind::Union { .. } => self.process_union(ty.size, path.as_slice(), data),
            ResolvedTypeKind::TypeRef { target_name } => {
                let resolver: &'a TypeResolver = self.resolver;
                match resolver.get_type_info(target_name.as_str()) {
                    None => {
                        return Err(
                            Halt::Error(
                                unsupported(
                                    self.typename,
                                    target_name.as_str(),
                                    "type reference target not found",
                                ),
                            ),
                        );
                    },
                    Some(target) => {
                        let left: Option<usize> = match budget {
                            Some(levels) => {
                                if levels == 0 {
                                    return Err(Halt::Undefined);
                                }
                                Some(levels - 1)
                            },
                            None => None,
                        };
                        return self.process_field(
                            target,
                            path,
                            data,
                            is_last,
                            left,
                            Ghost((depth - 1) as nat),
                        );
                    },
                }
            },
        };
        match walked {
            Ok(consumed) => {
                self.record_tail_payload(path.as_slice(), consumed, is_last);
                Ok(consumed)
            },
            Err(halt) => Err(halt),
        }
    }
}

} // verus!
