use i18n_codegen::catalog::{CodegenError, EmitEntry, EmitValue, StringValuePathPair};
use i18n_codegen::merge::{is_sorted, merge, LocaleStringWithDefaultIter};

fn path(segments: &[&str]) -> Vec<String> {
    segments.iter().map(|s| s.to_string()).collect()
}

fn pair(segments: &[&str], value: &str) -> StringValuePathPair {
    StringValuePathPair { path: path(segments), value: value.to_string() }
}

fn literal(segments: &[&str], value: &str) -> EmitEntry {
    EmitEntry { path: path(segments), value: EmitValue::Literal(value.to_string()) }
}

fn fallback(segments: &[&str]) -> EmitEntry {
    EmitEntry { path: path(segments), value: EmitValue::FallbackRef(path(segments)) }
}

fn default_catalog() -> Vec<StringValuePathPair> {
    vec![
        pair(&["footer", "about"], "About"),
        pair(&["footer", "legal", "privacy"], "Privacy"),
        pair(&["footer", "legal", "terms"], "Terms"),
        pair(&["home", "body"], "Hello"),
        pair(&["home", "title"], "Welcome"),
        pair(&["zoo"], "Zoo"),
    ]
}

#[test]
fn merge_takes_own_value_and_falls_back() {
    let d = vec![pair(&["home", "title"], "Welcome"), pair(&["home", "body"], "Hello")];
    let l = vec![pair(&["home", "title"], "Bienvenue")];
    let merged = merge(&d, &l).unwrap();
    assert_eq!(merged, vec![literal(&["home", "title"], "Bienvenue"), fallback(&["home", "body"])]);
}

#[test]
fn merge_without_default_fails() {
    let d: Vec<StringValuePathPair> = Vec::new();
    let l = vec![pair(&["home", "title"], "Bienvenue")];
    assert_eq!(merge(&d, &l), Err(CodegenError::MissingDefaultLocale));
    assert_eq!(merge(&d, &d), Err(CodegenError::MissingDefaultLocale));
}

#[test]
fn merge_drops_paths_that_the_default_lacks() {
    let d = vec![pair(&["home", "body"], "Hello"), pair(&["home", "title"], "Welcome")];
    let with_extra = vec![
        pair(&["extra"], "?"),
        pair(&["home", "body"], "Bonjour"),
        pair(&["home", "more"], "?"),
        pair(&["home", "title"], "Bienvenue"),
        pair(&["zzz"], "?"),
    ];
    let without = vec![pair(&["home", "body"], "Bonjour"), pair(&["home", "title"], "Bienvenue")];
    let merged = merge(&d, &with_extra).unwrap();
    assert_eq!(merged, merge(&d, &without).unwrap());
    assert_eq!(
        merged,
        vec![literal(&["home", "body"], "Bonjour"), literal(&["home", "title"], "Bienvenue")]
    );
    assert!(merged.iter().all(|e| e.path != path(&["extra"])));
}

#[test]
fn merge_keeps_the_length_and_the_paths_of_the_default() {
    let d = default_catalog();
    let locales = vec![
        Vec::new(),
        vec![pair(&["home", "title"], "x")],
        vec![pair(&["a"], "x"), pair(&["footer", "legal", "terms"], "y"), pair(&["zoo"], "z")],
        default_catalog(),
    ];
    for l in locales {
        let merged = merge(&d, &l).unwrap();
        assert_eq!(merged.len(), d.len());
        for (e, p) in merged.iter().zip(d.iter()) {
            assert_eq!(e.path, p.path);
        }
    }
}

#[test]
fn merge_with_itself_gives_literals_only() {
    let d = default_catalog();
    let merged = merge(&d, &d).unwrap();
    let expected: Vec<EmitEntry> = d
        .iter()
        .map(|p| EmitEntry { path: p.path.clone(), value: EmitValue::Literal(p.value.clone()) })
        .collect();
    assert_eq!(merged, expected);
}

#[test]
fn merge_of_sorted_catalogs_finds_every_own_value() {
    let d = default_catalog();
    let l = vec![
        pair(&["footer", "legal", "privacy"], "Vie privee"),
        pair(&["home", "body"], "Bonjour"),
        pair(&["zoo"], "Jardin"),
    ];
    assert!(is_sorted(&d));
    assert!(is_sorted(&l));
    assert_eq!(
        merge(&d, &l).unwrap(),
        vec![
            fallback(&["footer", "about"]),
            literal(&["footer", "legal", "privacy"], "Vie privee"),
            fallback(&["footer", "legal", "terms"]),
            literal(&["home", "body"], "Bonjour"),
            fallback(&["home", "title"]),
            literal(&["zoo"], "Jardin"),
        ]
    );
}

#[test]
fn merge_with_empty_locale_falls_back_everywhere() {
    let d = default_catalog();
    let merged = merge(&d, &Vec::new()).unwrap();
    let expected: Vec<EmitEntry> = d
        .iter()
        .map(|p| EmitEntry { path: p.path.clone(), value: EmitValue::FallbackRef(p.path.clone()) })
        .collect();
    assert_eq!(merged, expected);
}

#[test]
fn sortedness_of_catalogs() {
    assert!(is_sorted(&Vec::new()));
    assert!(is_sorted(&vec![pair(&["a"], "1")]));
    assert!(is_sorted(&vec![pair(&["a"], "1"), pair(&["a", "b"], "2"), pair(&["b"], "3")]));
    assert!(!is_sorted(&vec![pair(&["home", "title"], "1"), pair(&["home", "body"], "2")]));
    assert!(!is_sorted(&vec![pair(&["a"], "1"), pair(&["a"], "2")]));
}

#[test]
fn cursor_hands_out_the_merged_sequence() {
    let d = vec![pair(&["home", "title"], "Welcome"), pair(&["home", "body"], "Hello")];
    let l = vec![pair(&["home", "title"], "Bienvenue")];
    let mut it = LocaleStringWithDefaultIter::new(l, d).unwrap();
    assert_eq!(it.next(), Some(literal(&["home", "title"], "Bienvenue")));
    assert_eq!(it.next(), Some(fallback(&["home", "body"])));
    assert_eq!(it.next(), None);
    assert_eq!(it.next(), None);
}

#[test]
fn cursor_agrees_with_merge() {
    let d = default_catalog();
    let l = vec![pair(&["aaa"], "?"), pair(&["home", "body"], "Bonjour"), pair(&["zoo"], "Jardin")];
    let mut it = LocaleStringWithDefaultIter::new(l.clone(), d.clone()).unwrap();
    let mut seen = Vec::new();
    while let Some(e) = it.next() {
        seen.push(e);
    }
    assert_eq!(seen, merge(&d, &l).unwrap());
}

#[test]
fn cursor_over_no_default_fails() {
    let r = LocaleStringWithDefaultIter::new(vec![pair(&["a"], "x")], Vec::new());
    assert_eq!(r.err(), Some(CodegenError::MissingDefaultLocale));
    let r = LocaleStringWithDefaultIter::new(Vec::new(), Vec::new());
    assert_eq!(r.err(), Some(CodegenError::MissingDefaultLocale));
}

#[test]
fn cursor_over_a_default_with_an_empty_locale() {
    let mut it = LocaleStringWithDefaultIter::new(Vec::new(), vec![pair(&["a"], "1")]).unwrap();
    assert_eq!(it.next(), Some(fallback(&["a"])));
    assert_eq!(it.next(), None);
}
