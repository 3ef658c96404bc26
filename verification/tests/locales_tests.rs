use i18n_codegen::catalog::{CodegenError, EmitEntry, EmitValue, StringValuePathPair};
use i18n_codegen::locales::{catalog_paths, generate_locales, generate_locales_enum,
    literal_entries_of};
use i18n_codegen::naming::is_ascii_path;
use i18n_codegen::storage::{is_nameable_catalog, LocaleStrings, Storage};

fn path(segments: &[&str]) -> Vec<String> {
    segments.iter().map(|s| s.to_string()).collect()
}

fn pair(segments: &[&str], value: &str) -> StringValuePathPair {
    StringValuePathPair { path: path(segments), value: value.to_string() }
}

fn locale(name: &str, strings: Option<Vec<StringValuePathPair>>) -> LocaleStrings {
    LocaleStrings { locale: name.to_string(), strings }
}

fn english() -> Vec<StringValuePathPair> {
    vec![pair(&["home", "body"], "Hello"), pair(&["home", "title"], "Welcome")]
}

#[test]
fn storage_lookups() {
    let storage = Storage {
        default_locale: "en".to_string(),
        locales: vec![locale("en", Some(english())), locale("fr", None)],
    };
    assert_eq!(storage.default_locale(), "en");
    assert_eq!(storage.all_locales(), vec!["en".to_string(), "fr".to_string()]);
    assert_eq!(storage.get(&"en".to_string()), Some(&english()));
    assert_eq!(storage.get(&"fr".to_string()), None);
    assert_eq!(storage.get(&"de".to_string()), None);
    assert_eq!(storage.get_default(), Some(&english()));
    assert!(storage.is_nameable());
}

#[test]
fn storage_that_cannot_be_named() {
    let storage = Storage {
        default_locale: "en".to_string(),
        locales: vec![locale("en", Some(vec![pair(&["caf\u{e9}"], "x")]))],
    };
    assert!(!storage.is_nameable());
    let storage = Storage {
        default_locale: "en".to_string(),
        locales: vec![locale("en", Some(vec![pair(&[], "x")]))],
    };
    assert!(!storage.is_nameable());
    let storage = Storage {
        default_locale: "en".to_string(),
        locales: vec![locale("en", Some(english())), locale("fran\u{e7}ais", None)],
    };
    assert!(!storage.is_nameable());
    assert!(is_ascii_path(&path(&["a", "b"])));
    assert!(!is_ascii_path(&path(&["a", "\u{fc}"])));
    assert!(is_nameable_catalog(&english()));
}

#[test]
fn catalog_helpers() {
    assert_eq!(catalog_paths(&english()), vec![path(&["home", "body"]), path(&["home", "title"])]);
    assert_eq!(
        literal_entries_of(&english()),
        vec![
            EmitEntry {
                path: path(&["home", "body"]),
                value: EmitValue::Literal("Hello".to_string()),
            },
            EmitEntry {
                path: path(&["home", "title"]),
                value: EmitValue::Literal("Welcome".to_string()),
            },
        ]
    );
}

#[test]
fn enum_text_of_two_locales() {
    let text =
        generate_locales_enum(&vec!["en".to_string(), "nl-BE".to_string()], &"en".to_string());
    let expected = "pub enum Locales {
    En,
    NlBe,
}

impl Locales {
    pub fn strings(&self) -> &Strings {
        match self {
            Self::En => &STRINGS_DEFAULT,
            Self::NlBe => &STRINGS_NL_BE,
        }
    }

    pub fn as_str(&self) -> &str {
        match self {
            Self::En => \"en\",
            Self::NlBe => \"nl-be\",
        }
    }
}

impl From<&str> for Locales {
    fn from(s: &str) -> Self {
        match s.to_lowercase().trim() {
            \"en\" => Self::En,
            \"nl-be\" => Self::NlBe,
            _ => DEFAULT_LOCALE,
        }
    }
}

pub const DEFAULT_LOCALE: Locales = Locales::En;

";
    assert_eq!(text, expected);
}

#[test]
fn enum_text_lowers_and_trims_the_name() {
    let text = generate_locales_enum(&vec![" EN ".to_string()], &"fr".to_string());
    assert!(text.contains("            \"en\" => Self::En,\n"));
    assert!(text.contains("            Self::En => &STRINGS_EN,\n"));
    assert!(text.contains("pub const DEFAULT_LOCALE: Locales = Locales::Fr;\n\n"));
}

#[test]
fn locales_text_of_default_and_partial_locale() {
    let storage = Storage {
        default_locale: "en".to_string(),
        locales: vec![
            locale("en", Some(english())),
            locale("fr", Some(vec![pair(&["extra"], "?"), pair(&["home", "title"], "Bienvenue")])),
        ],
    };
    let text = generate_locales(&storage).unwrap();
    let enum_text = generate_locales_enum(&storage.all_locales(), &"en".to_string());
    let rest = "pub struct Strings {
    pub home: StringsHome,
}

pub struct StringsHome {
    pub body: &'static str,
    pub title: &'static str,
}

const STRINGS_DEFAULT: Strings = Strings {
    home: StringsHome {
        body: r################\"Hello\"################,
        title: r################\"Welcome\"################,
    },
};

const STRINGS_FR: Strings = Strings {
    home: StringsHome {
        body: STRINGS_DEFAULT.home.body,
        title: r################\"Bienvenue\"################,
    },
};
";
    assert_eq!(text, format!("{}{}", enum_text, rest));
}

#[test]
fn locales_without_default_catalog() {
    let storage = Storage {
        default_locale: "en".to_string(),
        locales: vec![locale("fr", Some(english()))],
    };
    assert_eq!(generate_locales(&storage), Err(CodegenError::MissingDefaultLocale));
    let storage = Storage {
        default_locale: "en".to_string(),
        locales: vec![locale("en", None), locale("fr", Some(english()))],
    };
    assert_eq!(generate_locales(&storage), Err(CodegenError::MissingDefaultLocale));
    let storage = Storage {
        default_locale: "en".to_string(),
        locales: vec![locale("en", Some(Vec::new()))],
    };
    assert_eq!(generate_locales(&storage), Err(CodegenError::MissingDefaultLocale));
}

#[test]
fn locales_with_conflicting_paths() {
    let storage = Storage {
        default_locale: "en".to_string(),
        locales: vec![
            locale("en", Some(vec![pair(&["a"], "1"), pair(&["a", "b"], "2")])),
            locale("fr", None),
        ],
    };
    assert_eq!(generate_locales(&storage), Err(CodegenError::SchemaConflict));
}

#[test]
fn locales_with_unresolved_catalog() {
    let storage = Storage {
        default_locale: "en".to_string(),
        locales: vec![locale("en", Some(english())), locale("fr", None)],
    };
    assert_eq!(generate_locales(&storage), Err(CodegenError::UnresolvedCatalog));
}
