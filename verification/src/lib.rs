//! Extraction of dynamic layout parameters from binary data.
//!
//! The layout of a struct may depend on values that the data itself holds: the length of an array,
//! the tag of an enum, the size of a trailing payload. [`extractor::ParamExtractor`] walks over
//! data along a resolved type and collects those values by the names of the parameters they are
//! bound to.

pub mod arith;
pub mod bounds;
pub mod depth;
pub mod errors;
pub mod expr_laws;
pub mod extractor;
pub mod invariants;
pub mod laws;
pub mod layout_laws;
pub mod lookahead;
pub mod mapping;
pub mod mapping_laws;
pub mod model;
pub mod names;
pub mod path_laws;
pub mod primitives;
pub mod schema;
pub mod str_map;
pub mod struct_laws;
pub mod text;
pub mod text_laws;
pub mod value_laws;
pub mod walker;

pub use errors::{ReflectError, ReflectResult};
pub use extractor::ParamExtractor;
pub use walker::ParamMap;
