use i18n_codegen::catalog::CodegenError;
use i18n_codegen::render::{generate_locales_strings_struct, is_ascii_paths, render_schema};
use i18n_codegen::path::proper_prefix;
use i18n_codegen::schema::{compile_schema, find_conflict, is_sorted_paths, longest, Field,
    FieldKind, RecordType, Schema};

fn path(segments: &[&str]) -> Vec<String> {
    segments.iter().map(|s| s.to_string()).collect()
}

fn field(name: &str, kind: FieldKind) -> Field {
    Field { name: name.to_string(), kind }
}

#[test]
fn schema_of_nested_and_leaf_paths() {
    let paths = vec![path(&["a", "x"]), path(&["a", "y"]), path(&["b"])];
    let schema = compile_schema(&paths).unwrap();
    assert_eq!(
        schema,
        Schema {
            records: vec![
                RecordType {
                    prefix: path(&[]),
                    fields: vec![field("a", FieldKind::Nested), field("b", FieldKind::Leaf)],
                },
                RecordType {
                    prefix: path(&["a"]),
                    fields: vec![field("x", FieldKind::Leaf), field("y", FieldKind::Leaf)],
                },
            ],
        }
    );
}

#[test]
fn schema_conflict_of_leaf_and_prefix() {
    let paths = vec![path(&["a"]), path(&["a", "b"])];
    assert_eq!(compile_schema(&paths), Err(CodegenError::SchemaConflict));
    assert!(find_conflict(&paths));
    assert_eq!(generate_locales_strings_struct(&paths), Err(CodegenError::SchemaConflict));
}

#[test]
fn schema_conflict_is_found_in_any_order() {
    let paths = vec![path(&["a", "b", "c"]), path(&["x"]), path(&["a", "b"])];
    assert_eq!(compile_schema(&paths), Err(CodegenError::SchemaConflict));
}

#[test]
fn conflicts_of_sorted_and_unsorted_paths() {
    let sorted = vec![path(&["a"]), path(&["a", "b"]), path(&["c"])];
    assert!(is_sorted_paths(&sorted));
    assert!(find_conflict(&sorted));
    let far = vec![path(&["a", "b"]), path(&["a", "b", "c", "d"]), path(&["a", "c"])];
    assert!(is_sorted_paths(&far));
    assert!(find_conflict(&far));
    let clean = vec![path(&["a", "b"]), path(&["a", "c"]), path(&["ab"]), path(&["b"])];
    assert!(is_sorted_paths(&clean));
    assert!(!find_conflict(&clean));
    let unsorted = vec![path(&["b", "c"]), path(&["a"]), path(&["b"])];
    assert!(!is_sorted_paths(&unsorted));
    assert!(find_conflict(&unsorted));
    let unsorted_clean = vec![path(&["b", "c"]), path(&["a"]), path(&["b", "a"])];
    assert!(!is_sorted_paths(&unsorted_clean));
    assert!(!find_conflict(&unsorted_clean));
    assert!(!is_sorted_paths(&vec![path(&["a"]), path(&["a"])]));
    assert!(!find_conflict(&vec![path(&["a"]), path(&["a"])]));
    assert!(!find_conflict(&Vec::new()));
}

#[test]
fn proper_prefixes() {
    assert!(proper_prefix(&path(&["a"]), &path(&["a", "b"])));
    assert!(proper_prefix(&path(&[]), &path(&["a"])));
    assert!(!proper_prefix(&path(&["a", "b"]), &path(&["a", "b"])));
    assert!(!proper_prefix(&path(&["a", "b"]), &path(&["a"])));
    assert!(!proper_prefix(&path(&["a"]), &path(&["ab", "c"])));
}

#[test]
fn schema_of_no_paths_is_the_empty_root() {
    let paths: Vec<Vec<String>> = Vec::new();
    let schema = compile_schema(&paths).unwrap();
    assert_eq!(schema, Schema { records: vec![RecordType { prefix: path(&[]), fields: vec![] }] });
    assert_eq!(render_schema(&schema), "pub struct Strings {\n}\n");
}

#[test]
fn schema_is_the_same_when_compiled_twice() {
    let paths = vec![
        path(&["home", "body"]),
        path(&["home", "title"]),
        path(&["site", "nav", "about"]),
        path(&["site", "nav", "home"]),
        path(&["site", "title"]),
    ];
    assert_eq!(compile_schema(&paths), compile_schema(&paths));
}

#[test]
fn schema_groups_by_the_whole_prefix() {
    let paths = vec![path(&["a", "x", "p"]), path(&["b", "x", "q"])];
    let schema = compile_schema(&paths).unwrap();
    assert_eq!(
        schema.records,
        vec![
            RecordType {
                prefix: path(&[]),
                fields: vec![field("a", FieldKind::Nested), field("b", FieldKind::Nested)],
            },
            RecordType { prefix: path(&["a"]), fields: vec![field("x", FieldKind::Nested)] },
            RecordType { prefix: path(&["b"]), fields: vec![field("x", FieldKind::Nested)] },
            RecordType { prefix: path(&["a", "x"]), fields: vec![field("p", FieldKind::Leaf)] },
            RecordType { prefix: path(&["b", "x"]), fields: vec![field("q", FieldKind::Leaf)] },
        ]
    );
}

#[test]
fn schema_names_a_repeated_path_once() {
    let paths = vec![path(&["a"]), path(&["a"]), path(&["b"])];
    let schema = compile_schema(&paths).unwrap();
    assert_eq!(
        schema.records,
        vec![RecordType {
            prefix: path(&[]),
            fields: vec![field("a", FieldKind::Leaf), field("b", FieldKind::Leaf)],
        }]
    );
}

#[test]
fn longest_path_length() {
    assert_eq!(longest(&vec![path(&["a"]), path(&["a", "b", "c"]), path(&["d", "e"])]), 3);
    assert_eq!(longest(&Vec::new()), 0);
}

#[test]
fn schema_text_of_nested_and_leaf_paths() {
    let paths = vec![path(&["a", "x"]), path(&["a", "y"]), path(&["b"])];
    let text = generate_locales_strings_struct(&paths).unwrap();
    assert_eq!(
        text,
        "pub struct Strings {\n    pub a: StringsA,\n    pub b: &'static str,\n}\n\npub struct StringsA {\n    pub x: &'static str,\n    pub y: &'static str,\n}\n"
    );
}

#[test]
fn schema_text_converts_the_cases() {
    let paths = vec![path(&["site-info", "pageTitle"])];
    let text = generate_locales_strings_struct(&paths).unwrap();
    assert_eq!(
        text,
        "pub struct Strings {\n    pub site_info: StringsSiteInfo,\n}\n\npub struct StringsSiteInfo {\n    pub page_title: &'static str,\n}\n"
    );
}

#[test]
fn paths_in_ascii_text() {
    assert!(is_ascii_paths(&vec![path(&["a", "b"]), path(&[])]));
    assert!(!is_ascii_paths(&vec![path(&["a", "b"]), path(&["stra\u{df}e"])]));
}

#[test]
fn schema_fields_stand_in_order_of_first_appearance() {
    let paths = vec![path(&["b"]), path(&["a", "y"]), path(&["a", "x"]), path(&["a", "y"])];
    let schema = compile_schema(&paths).unwrap();
    assert_eq!(
        schema.records,
        vec![
            RecordType {
                prefix: path(&[]),
                fields: vec![field("b", FieldKind::Leaf), field("a", FieldKind::Nested)],
            },
            RecordType {
                prefix: path(&["a"]),
                fields: vec![
                    field("y", FieldKind::Leaf),
                    field("x", FieldKind::Leaf),
                    field("y", FieldKind::Leaf),
                ],
            },
        ]
    );
    let sorted = vec![path(&["a", "x"]), path(&["a", "y"]), path(&["b"]), path(&["c", "d"])];
    let schema = compile_schema(&sorted).unwrap();
    let names: Vec<Vec<String>> = schema
        .records
        .iter()
        .map(|r| r.fields.iter().map(|f| f.name.clone()).collect())
        .collect();
    assert_eq!(names, vec![path(&["a", "b", "c"]), path(&["x", "y"]), path(&["d"])]);
}
