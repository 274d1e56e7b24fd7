//! Extraction of the parameters of a type from data.

use vstd::pervasive::unreached;
use vstd::prelude::*;

use crate::depth::{always_defined, depth_is_immaterial, extraction_is_defined};
use crate::errors::{unsupported, Failure, Halt, Outcome, ReflectResult};
use crate::mapping::{
    build_param_mapping, field_bindings, field_params_view, payload_bindings, text_values,
    FieldParams,
};
use crate::model::{extraction, Env};
use crate::names::texts;
use crate::schema::{ResolvedType, ResolvedTypeKind, TypeIr, TypeResolver};
use crate::str_map::StrMap;
use crate::walker::{ParamMap, StructWalker};

verus! {

/// Extracts the parameters that the layout of a struct depends on from data with that layout.
pub struct ParamExtractor<'a> {
    typename: &'a str,
    resolved_type: &'a ResolvedType,
    resolver: &'a TypeResolver,
    field_params: FieldParams<'a>,
    payload_targets: StrMap<String>,
}

/// The model of the result of an extraction.
pub open spec fn extracted(result: ReflectResult<ParamMap>) -> Outcome<Map<Seq<char>, u128>> {
    match result {
        Ok(params) => Outcome::Done(params@),
        Err(error) => Outcome::Failed(error@),
    }
}

/// What stays the same while the parameters that `type_ir` asks for are extracted from `len` bytes
/// laid out as the struct `ty`.
pub open spec fn environment(
    types: Map<Seq<char>, ResolvedType>,
    ty: ResolvedType,
    type_ir: TypeIr,
    len: nat,
) -> Env {
    Env {
        typename: ty.name@,
        available: len,
        types,
        field_params: field_bindings(ty, type_ir.parameters@),
    }
}

/// The parameters of `data`, laid out as the struct `ty`, that `type_ir` asks for. References to
/// types are followed at most `depth` levels deep.
pub open spec fn parameters_of(
    types: Map<Seq<char>, ResolvedType>,
    ty: ResolvedType,
    type_ir: TypeIr,
    depth: nat,
    data: Seq<u8>,
) -> Outcome<Map<Seq<char>, u128>> {
    extraction(
        environment(types, ty, type_ir, data.len()),
        depth,
        ty,
        payload_bindings(ty, type_ir.parameters@),
        data,
    )
}

impl<'a> ParamExtractor<'a> {
    /// The struct whose parameters are extracted.
    pub closed spec fn root(self) -> ResolvedType {
        *self.resolved_type
    }

    /// The types that can be referred to by name.
    pub closed spec fn types(self) -> Map<Seq<char>, ResolvedType> {
        self.resolver.types@
    }

    /// The names of the parameters that each field path gives a value to.
    pub closed spec fn field_params(self) -> Map<Seq<char>, Seq<Seq<char>>> {
        field_params_view(self.field_params@)
    }

    /// The parameters that take the size of a field, and the path of that field.
    pub closed spec fn payload_targets(self) -> Map<Seq<char>, Seq<char>> {
        text_values(self.payload_targets@)
    }

    #[verifier::type_invariant]
    spec fn well_formed(self) -> bool {
        self.typename@ == self.resolved_type.name@
    }

    /// What extraction from `data` gives when references to types are followed at most `depth`
    /// levels deep.
    pub open spec fn outcome(self, depth: nat, data: Seq<u8>) -> Outcome<Map<Seq<char>, u128>> {
        extraction(
            Env {
                typename: self.root().name@,
                available: data.len(),
                types: self.types(),
                field_params: self.field_params(),
            },
            depth,
            self.root(),
            self.payload_targets(),
            data,
        )
    }

    /// Prepares the extraction of the parameters of `type_ir`. The type must be a struct.
    pub fn new(
        resolver: &'a TypeResolver,
        resolved_type: &'a ResolvedType,
        type_ir: &'a TypeIr,
    ) -> (extractor: ReflectResult<Self>)
        ensures
            match extractor {
                Ok(extractor) => {
                    &&& resolved_type.kind is Struct
                    &&& extractor.root() == *resolved_type
                    &&& extractor.types() == resolver.types@
                    &&& extractor.field_params() == field_bindings(
                        *resolved_type,
                        type_ir.parameters@,
                    )
                    &&& extractor.payload_targets() == payload_bindings(
                        *resolved_type,
                        type_ir.parameters@,
                    )
                    &&& forall|depth: nat, data: Seq<u8>| #[trigger]
                        extractor.outcome(depth, data) == parameters_of(
                            resolver.types@,
                            *resolved_type,
                            *type_ir,
                            depth,
                            data,
                        )
                },
                Err(error) => {
                    &&& resolved_type.kind !is Struct
                    &&& error@ == (Failure::Unsupported {
                        typename: resolved_type.name@,
                        parameter: "<all>"@,
                        reason: "dynamic parameter extraction only supports struct roots"@,
                    })
                },
            },
    {
        match &resolved_type.kind {
            ResolvedTypeKind::Struct { .. } => {},
            _ => {
                return Err(
                    unsupported(
                        resolved_type.name.as_str(),
                        "<all>",
                        "dynamic parameter extraction only supports struct roots",
                    ),
                );
            },
        }
        let (field_params, payload_targets) = build_param_mapping(resolved_type, type_ir);
        Ok(
            ParamExtractor {
                typename: resolved_type.name.as_str(),
                resolved_type,
                resolver,
                field_params,
                payload_targets,
            },
        )
    }

    fn run(&self, data: &[u8], budget: Option<usize>, Ghost(depth): Ghost<nat>) -> (result: Option<
        ReflectResult<ParamMap>,
    >)
        requires
            match budget {
                Some(levels) => levels == depth,
                None => self.outcome(depth, data@) !is Undefined,
            },
        ensures
            match result {
                Some(result) => extracted(result) == self.outcome(depth, data@),
                None => self.outcome(depth, data@) is Undefined,
            },
    {
        proof {
            use_type_invariant(self);
        }
        let mut walker = StructWalker::new(
            self.typename,
            self.resolver,
            &self.field_params,
            &self.payload_targets,
            data.len(),
        );
        let mut path: Vec<String> = Vec::new();
        assert(texts(path@) =~= Seq::<Seq<char>>::empty());
        match walker.process_struct(self.resolved_type, &mut path, data, budget, Ghost(depth)) {
            Ok(_) => Some(walker.finish()),
            Err(Halt::Error(error)) => Some(Err(error)),
            Err(Halt::Undefined) => None,
        }
    }

    /// Extracts the parameters from `data`.
    ///
    /// Every expression must have a value, and every chain of type references that the data leads
    /// along must end; [`ParamExtractor::try_extract`] tells where that is not so.
    pub fn extract(&self, data: &[u8]) -> (params: ReflectResult<ParamMap>)
        requires
            exists|depth: nat| self.outcome(depth, data@) !is Undefined,
        ensures
            forall|depth: nat| #[trigger]
                self.outcome(depth, data@) !is Undefined ==> extracted(params) == self.outcome(
                    depth,
                    data@,
                ),
    {
        let ghost depth = choose|depth: nat| self.outcome(depth, data@) !is Undefined;
        proof {
            assert forall|other: nat| #[trigger] self.outcome(other, data@) !is Undefined implies
                self.outcome(other, data@) == self.outcome(depth, data@) by {
                let env = Env {
                    typename: self.root().name@,
                    available: data@.len(),
                    types: self.types(),
                    field_params: self.field_params(),
                };
                let pending = self.payload_targets();
                if other <= depth {
                    depth_is_immaterial(env, other, depth, self.root(), pending, data@);
                } else {
                    depth_is_immaterial(env, depth, other, self.root(), pending, data@);
                }
            }
        }
        match self.run(data, None, Ghost(depth)) {
            Some(params) => params,
            None => unreached(),
        }
    }

    /// Extracts the parameters from `data`, following type references at most `max_depth` levels
    /// deep; `None` where that is not enough, or an expression has no value.
    pub fn try_extract(&self, data: &[u8], max_depth: usize) -> (params: Option<
        ReflectResult<ParamMap>,
    >)
        ensures
            match params {
                Some(params) => extracted(params) == self.outcome(max_depth as nat, data@),
                None => self.outcome(max_depth as nat, data@) is Undefined,
            },
    {
        self.run(data, Some(max_depth), Ghost(max_depth as nat))
    }

    /// Where nothing along the type can be undefined, parameters can be extracted from all data.
    pub proof fn extraction_is_possible(self, depth: nat, data: Seq<u8>)
        requires
            always_defined(self.types(), self.root(), depth),
        ensures
            self.outcome(depth, data) !is Undefined,
    {
        let env = Env {
            typename: self.root().name@,
            available: data.len(),
            types: self.types(),
            field_params: self.field_params(),
        };
        extraction_is_defined(env, depth, self.root(), self.payload_targets(), data);
    }
}

} // verus!
