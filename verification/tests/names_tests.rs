use abi_reflect::names::{
    canonical_param_name, expr_name, flatten_field_ref, normalize_binding_path, path_key,
    strip_typeref_prefix, trim_type_prefix,
};
use abi_reflect::schema::{
    BinaryExpr, ExprKind, FieldRefExpr, LiteralExpr, TypeQueryExpr, UnaryExpr,
};
use abi_reflect::text::{decimal_text, has_prefix, has_suffix, same_text};

fn field_ref(parts: &[&str]) -> FieldRefExpr {
    FieldRefExpr {
        path: parts.iter().map(|part| part.to_string()).collect(),
    }
}

#[test]
fn canonical_name_joins_owner_and_path() {
    assert_eq!(canonical_param_name("body", "tag"), "body.tag");
    assert_eq!(canonical_param_name("body", "bodytag"), "body.bodytag");
    assert_eq!(canonical_param_name("", "tag"), ".tag");
}

#[test]
fn canonical_name_does_not_repeat_the_owner() {
    assert_eq!(canonical_param_name("body", ""), "body");
    assert_eq!(canonical_param_name("body", "body"), "body");
    assert_eq!(canonical_param_name("body", "body.tag"), "body.tag");
}

#[test]
fn canonical_name_of_a_canonical_name_is_itself() {
    for path in ["", "body", "tag", "body.tag", "body.", ".body"] {
        let once = canonical_param_name("body", path);
        assert!(once == "body" || once.starts_with("body."));
        assert_eq!(canonical_param_name("body", &once), once);
    }
}

#[test]
fn normalizing_drops_relative_steps() {
    assert_eq!(normalize_binding_path("../../a/b"), "a.b");
    assert_eq!(normalize_binding_path("./a"), "a");
    assert_eq!(normalize_binding_path(".././a"), "a");
    assert_eq!(normalize_binding_path("./../a"), "a");
    assert_eq!(normalize_binding_path("../"), "");
}

#[test]
fn normalizing_unifies_separators() {
    assert_eq!(normalize_binding_path("a::b[3].c"), "a.b.3.c");
    assert_eq!(normalize_binding_path("a/b::c"), "a.b.c");
    assert_eq!(normalize_binding_path("a:::b"), "a.:b");
    assert_eq!(normalize_binding_path("Event::payload"), "Event.payload");
    assert_eq!(normalize_binding_path("grüße[0]"), "grüße.0");
}

#[test]
fn normalizing_drops_empty_segments() {
    assert_eq!(normalize_binding_path(""), "");
    assert_eq!(normalize_binding_path("..."), "");
    assert_eq!(normalize_binding_path("..a..b.."), "a.b");
    assert_eq!(normalize_binding_path("a[]b"), "a.b");
}

#[test]
fn normalizing_keeps_normal_paths() {
    for path in ["a", "a.b", "a.b.3.c", "payload.payload_size", "a:b"] {
        assert_eq!(normalize_binding_path(path), path);
    }
}

#[test]
fn normalizing_twice_differs_only_where_colons_are_left() {
    for path in ["../x/y[1]::z", "./..a", "[a][b]", "::"] {
        let once = normalize_binding_path(path);
        assert_eq!(normalize_binding_path(&once), once);
    }
    assert_eq!(normalize_binding_path("a:]:b"), "a::b");
    assert_eq!(normalize_binding_path("a::b"), "a.b");
}

#[test]
fn typeref_marker_and_type_are_stripped() {
    assert_eq!(strip_typeref_prefix("_typeref_Header::len"), "len");
    assert_eq!(strip_typeref_prefix("_typeref_a::b::c"), "b::c");
    assert_eq!(strip_typeref_prefix("_typeref_Header"), "Header");
    assert_eq!(strip_typeref_prefix("_typeref_:::x"), ":x");
    assert_eq!(strip_typeref_prefix("_typeref_"), "");
    assert_eq!(strip_typeref_prefix("Header::len"), "Header::len");
}

#[test]
fn type_prefix_is_trimmed() {
    assert_eq!(trim_type_prefix("Event.payload", "Event"), "payload");
    assert_eq!(trim_type_prefix("Event", "Event"), "");
    assert_eq!(trim_type_prefix("Events.x", "Event"), "s.x");
    assert_eq!(trim_type_prefix("payload", "Event"), "payload");
    assert_eq!(trim_type_prefix("", "Event"), "");
    assert_eq!(trim_type_prefix(".x", ""), "x");
}

#[test]
fn path_key_joins_with_dots() {
    assert_eq!(path_key(&[]), "");
    assert_eq!(path_key(&["a".to_string()]), "a");
    assert_eq!(
        path_key(&["a".to_string(), "0".to_string(), "b".to_string()]),
        "a.0.b"
    );
}

#[test]
fn field_references_are_flattened() {
    assert_eq!(flatten_field_ref(&field_ref(&["tag"])), "tag");
    assert_eq!(flatten_field_ref(&field_ref(&["..", "tag"])), "tag");
    assert_eq!(flatten_field_ref(&field_ref(&["../a/..b", "c"])), "a.b.c");
    assert_eq!(flatten_field_ref(&field_ref(&["...x", "//"])), ".x");
    assert_eq!(flatten_field_ref(&field_ref(&[])), "");
}

#[test]
fn expressions_are_described() {
    let one = || Box::new(ExprKind::Literal(LiteralExpr::U8(1)));
    assert_eq!(expr_name(&one()), "literal");
    assert_eq!(
        expr_name(&ExprKind::FieldRef(field_ref(&["../a", "b"]))),
        "field(a.b)"
    );
    assert_eq!(
        expr_name(&ExprKind::Sizeof(TypeQueryExpr {
            typename: "Header".to_string()
        })),
        "sizeof(Header)"
    );
    assert_eq!(
        expr_name(&ExprKind::Alignof(TypeQueryExpr {
            typename: "Header".to_string()
        })),
        "alignof(Header)"
    );
    assert_eq!(
        expr_name(&ExprKind::Add(BinaryExpr {
            left: one(),
            right: one()
        })),
        "expression"
    );
    assert_eq!(
        expr_name(&ExprKind::Neg(UnaryExpr { operand: one() })),
        "expression"
    );
}

#[test]
fn numbers_are_written_in_decimal() {
    assert_eq!(decimal_text(0), "0");
    assert_eq!(decimal_text(9), "9");
    assert_eq!(decimal_text(10), "10");
    assert_eq!(decimal_text(1234567890), "1234567890");
    assert_eq!(
        decimal_text(u128::MAX),
        "340282366920938463463374607431768211455"
    );
    assert_ne!(decimal_text(11), decimal_text(111));
}

#[test]
fn texts_are_told_apart_by_their_characters() {
    assert!(same_text("größe", "größe"));
    assert!(!same_text("größe", "große"));
    assert!(!same_text("a", "ab"));
    assert!(has_prefix("größe", "grö"));
    assert!(has_prefix("a", ""));
    assert!(!has_prefix("a", "ab"));
    assert!(has_suffix("größe", "öße"));
    assert!(!has_suffix("größe", "gr"));
}

#[test]
fn normalizing_distributes_over_slashes() {
    for a in ["", "a", "..", "x[0]", "a:", "./p::q"] {
        for b in ["", "b", "../b", "./b", ":b", "[1]"] {
            let parts = [normalize_binding_path(a), normalize_binding_path(b)];
            let expected: Vec<&str> = parts
                .iter()
                .map(|part| part.as_str())
                .filter(|part| !part.is_empty())
                .collect();
            assert_eq!(
                normalize_binding_path(&format!("{a}/{b}")),
                expected.join(".")
            );
        }
    }
}
