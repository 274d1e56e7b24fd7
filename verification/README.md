# abi_reflect

Extraction of dynamic layout parameters from binary data, verified with Verus.

The layout of a struct may depend on values that the data holds itself: the length of an array, the
tag of an enum, the size of a trailing payload. `ParamExtractor` walks over data along a resolved
type and collects those values under the names of the parameters they are bound to.

## Layout

- `schema`: resolved types, expressions and parameters.
- `errors`: why extraction fails, and the model of a result.
- `text`, `names`: texts, and the names and paths made of them.
- `str_map`: a map walked in the order of its keys.
- `primitives`, `arith`: values, sizes and alignment of fields; arithmetic of expressions.
- `mapping`: which field or payload each parameter gets its value from.
- `model`: what a walk over data means.
- `walker`, `extractor`: the walk itself, and the interface to it.
- `bounds`: which values an expression can have, told from the expression alone.
- `depth`: how deep type references have to be followed, and when extraction is defined.
- `invariants`, `lookahead`, `laws`: what holds of every extraction.
- `expr_laws`, `struct_laws`, `path_laws`: what holds of expressions, structs and paths.

## Where extraction is undefined

Extraction has no result where

- an arithmetic result leaves the range of 128-bit integers,
- a value is shifted by 128 bits or more,
- an array element is narrower than the value read from it,
- the low machine word of an alignment is zero, though the alignment is not,
- type references go on without end.

`ParamExtractor::extract` asks its caller to rule these out; `depth` has a condition on types that
does. `ParamExtractor::try_extract` follows references to a given depth and returns `None` instead.
