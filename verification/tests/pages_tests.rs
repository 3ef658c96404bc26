use i18n_codegen::pages::{generate_pages, generate_pages_imports, generate_pages_is_static_root,
    generate_pages_local_utility_functions, generate_pages_mod_docs,
    generate_pages_static_pages, generate_pages_static_response, generate_pages_templates_mod,
    get_templates, is_nameable_pages, StaticPages};
use i18n_codegen::storage::{LocaleStrings, Storage};

fn names(items: &[&str]) -> Vec<String> {
    items.iter().map(|s| s.to_string()).collect()
}

#[test]
fn templates_start_with_not_found() {
    let (not_found, templates) =
        get_templates(&"not_found".to_string(), &names(&["about", "not_found", "terms"]));
    assert_eq!(not_found, "not_found");
    assert_eq!(templates, names(&["not_found", "about", "terms"]));
    let (_, templates) = get_templates(&"not_found".to_string(), &names(&[]));
    assert_eq!(templates, names(&["not_found"]));
}

#[test]
fn pages_mod_docs_text() {
    assert_eq!(
        generate_pages_mod_docs(),
        "//! this pages module is auto-generated by the plabayo-news-builder::i18n crate.
//! DO NOT MODIFY MANUALLY AS IT WILL BE OVERWRITTEN NEXT TIME YOU BUILD USING CARGO!!!
//! ... Best to also not check in this file into remote repo.
"
    );
}

#[test]
fn pages_imports_text() {
    assert_eq!(
        generate_pages_imports(),
        "use actix_web::{http::StatusCode, HttpResponse};
use lazy_static::lazy_static;

use crate::site::assets;
use crate::site::l18n::locales::Locale;
use crate::site::SITE_INFO;

"
    );
}

#[test]
fn pages_local_utility_functions_text() {
    assert_eq!(
        generate_pages_local_utility_functions(),
        "fn static_page(status_code: StatusCode, body: &'static str) -> HttpResponse {
    HttpResponse::build(status_code)
        .content_type(\"text/html\")
        .body(body)
}

"
    );
}

#[test]
fn pages_static_response_text() {
    let text = generate_pages_static_response(
        &names(&["not_found", "about", "terms-of-use"]),
        &"not_found".to_string(),
    );
    assert_eq!(
        text,
        "pub async fn static_response(locale: Locale, endpoint: &str) -> HttpResponse {
    match endpoint {
        PAGE_ABOUT_ENDPOINT => static_page_about(locale),
        PAGE_TERMS_OF_USE_ENDPOINT => static_page_terms_of_use(locale),
        _ => static_page_not_found(locale),
    }
}

"
    );
}

#[test]
fn pages_is_static_root_text() {
    let text =
        generate_pages_is_static_root(&names(&["not_found", "about"]), &"not_found".to_string());
    assert_eq!(
        text,
        "pub fn is_static_root(root: &str) -> bool {
    matches!(
        root.to_lowercase().as_str(),
        assets::ROOT
            | PAGE_ABOUT_ENDPOINT
    )
}

"
    );
}

#[test]
fn pages_static_pages_text() {
    let text = generate_pages_static_pages(
        &names(&["en", "nl-BE"]),
        &names(&["not_found", "terms-of-use"]),
        &"not_found".to_string(),
    );
    assert_eq!(
        text,
        "fn static_page_not_found(locale: Locale) -> HttpResponse {
    static_page(
        StatusCode::NOT_FOUND,
        match locale {
            Locale::En => PAGE_NOT_FOUND_EN.as_str(),
            Locale::NlBe => PAGE_NOT_FOUND_NL_BE.as_str(),
        },
    )
}

const PAGE_NOT_FOUND_PATH: &str = \"/not-found\";

lazy_static! {
    static ref PAGE_NOT_FOUND_EN: String =
        templates::NotFound::response_body(Locale::En, PAGE_NOT_FOUND_PATH, &SITE_INFO);
    static ref PAGE_NOT_FOUND_NL_BE: String =
        templates::NotFound::response_body(Locale::NlBe, PAGE_NOT_FOUND_PATH, &SITE_INFO);
}

fn static_page_terms_of_use(locale: Locale) -> HttpResponse {
    static_page(
        StatusCode::OK,
        match locale {
            Locale::En => PAGE_TERMS_OF_USE_EN.as_str(),
            Locale::NlBe => PAGE_TERMS_OF_USE_NL_BE.as_str(),
        },
    )
}

const PAGE_TERMS_OF_USE_ENDPOINT: &str = \"terms-of-use\";
const PAGE_TERMS_OF_USE_PATH: &str = \"/terms-of-use\";

lazy_static! {
    static ref PAGE_TERMS_OF_USE_EN: String =
        templates::TermsOfUse::response_body(Locale::En, PAGE_TERMS_OF_USE_PATH, &SITE_INFO);
    static ref PAGE_TERMS_OF_USE_NL_BE: String =
        templates::TermsOfUse::response_body(Locale::NlBe, PAGE_TERMS_OF_USE_PATH, &SITE_INFO);
}

"
    );
}

#[test]
fn pages_templates_mod_text() {
    let text = generate_pages_templates_mod(&names(&["not_found"]), &"pages".to_string());
    assert_eq!(
        text,
        "mod templates {
    use askama::Template;

    use super::*;

    use crate::site::templates::PageState;
    use crate::site::SiteInfo;

    #[derive(Template)]
    #[template(path = \"pages/not_found.html\", escape = \"none\")]
    pub struct NotFound<'a> {
        site_info: &'a SiteInfo,
        page: PageState<'a>,
    }

    impl<'a> NotFound<'a> {
        pub fn response_body(locale: Locale, path: &'a str, info: &'a SiteInfo) -> String {
            NotFound {
                site_info: info,
                // TODO: make userInfo not required for static pages at this point?!
                page: PageState::new(locale, path, None, None),
            }
            .render()
            .unwrap()
        }
    }
}
"
    );
}

#[test]
fn pages_text_is_the_parts_in_order() {
    let storage = Storage {
        default_locale: "en".to_string(),
        locales: vec![
            LocaleStrings { locale: "en".to_string(), strings: None },
            LocaleStrings { locale: "fr".to_string(), strings: None },
        ],
    };
    let cfg = StaticPages {
        path: "site/templates/pages".to_string(),
        not_found: "not_found".to_string(),
        templates_dir: "pages".to_string(),
    };
    let found = names(&["about", "not_found"]);
    let locales = names(&["en", "fr"]);
    let templates = names(&["not_found", "about"]);
    let not_found = "not_found".to_string();
    let expected = [
        generate_pages_mod_docs(),
        generate_pages_imports(),
        generate_pages_static_response(&templates, &not_found),
        generate_pages_local_utility_functions(),
        generate_pages_is_static_root(&templates, &not_found),
        generate_pages_static_pages(&locales, &templates, &not_found),
        generate_pages_templates_mod(&templates, &"pages".to_string()),
    ]
    .concat();
    assert_eq!(generate_pages(&storage, &cfg, &found), expected);
}

#[test]
fn pages_that_can_be_named() {
    let storage = Storage {
        default_locale: "en".to_string(),
        locales: vec![LocaleStrings { locale: "en".to_string(), strings: None }],
    };
    let cfg = StaticPages {
        path: "site/templates/pages".to_string(),
        not_found: "not_found".to_string(),
        templates_dir: "pages".to_string(),
    };
    assert!(is_nameable_pages(&storage, &cfg, &names(&["about"])));
    assert!(!is_nameable_pages(&storage, &cfg, &names(&["\u{fc}ber"])));
    let odd = StaticPages { not_found: "pas-trouv\u{e9}".to_string(), ..cfg.clone() };
    assert!(!is_nameable_pages(&storage, &odd, &names(&["about"])));
    let other = Storage {
        default_locale: "en".to_string(),
        locales: vec![LocaleStrings { locale: "fran\u{e7}ais".to_string(), strings: None }],
    };
    assert!(!is_nameable_pages(&other, &cfg, &names(&["about"])));
}
