//! The pages module as generated text: the static pages of a site, one
//! function and one body for each template and locale.

use vstd::prelude::*;
use vstd::string::StringExecFns;
use vstd::string::StringExecFnsIsAscii;
use vstd::utf8::is_ascii_chars;
use crate::naming::{all_ascii, cased, is_ascii_path, to_case, CaseStyle};
use crate::storage::{locale_names, Storage};
use crate::views::lemma_deep_view;

verus! {

/// The module documentation of the generated pages.
pub const MOD_DOCS: &'static str = "//! this pages module is auto-generated by the plabayo-news-builder::i18n crate.
//! DO NOT MODIFY MANUALLY AS IT WILL BE OVERWRITTEN NEXT TIME YOU BUILD USING CARGO!!!
//! ... Best to also not check in this file into remote repo.
";

/// The imports of the generated pages.
pub const IMPORTS: &'static str = "use actix_web::{http::StatusCode, HttpResponse};
use lazy_static::lazy_static;

use crate::site::assets;
use crate::site::l18n::locales::Locale;
use crate::site::SITE_INFO;

";

/// The helper of the generated pages that builds a response.
pub const LOCAL_UTILITY_FUNCTIONS: &'static str = "fn static_page(status_code: StatusCode, body: &'static str) -> HttpResponse {
    HttpResponse::build(status_code)
        .content_type(\"text/html\")
        .body(body)
}

";

/// What opens the function that answers an endpoint.
pub const RESPONSE_HEAD: &'static str = "pub async fn static_response(locale: Locale, endpoint: &str) -> HttpResponse {
    match endpoint {
";

/// What closes the function that answers an endpoint.
pub const RESPONSE_TAIL: &'static str = "    }
}

";

/// What opens the test for a static root.
pub const ROOT_HEAD: &'static str = "pub fn is_static_root(root: &str) -> bool {
    matches!(
        root.to_lowercase().as_str(),
        assets::ROOT
";

/// What closes the test for a static root.
pub const ROOT_TAIL: &'static str = "    )
}

";

/// What stands between the name of a page function and its status.
pub const PAGE_STATUS: &'static str = "(locale: Locale) -> HttpResponse {
    static_page(
        StatusCode::";

/// What stands between the status of a page and its bodies by locale.
pub const PAGE_MATCH: &'static str = ",
        match locale {
";

/// What closes a page function.
pub const PAGE_TAIL: &'static str = "        },
    )
}

";

/// What opens the module of the template types.
pub const TEMPLATES_HEAD: &'static str = "mod templates {
    use askama::Template;

    use super::*;

    use crate::site::templates::PageState;
    use crate::site::SiteInfo;";

/// What opens the attributes of a template type.
pub const TEMPLATE_ATTRIBUTES: &'static str = "

    #[derive(Template)]
    #[template(path = \"";

/// What stands between the file of a template and the name of its type.
pub const TEMPLATE_STRUCT: &'static str = ".html\", escape = \"none\")]
    pub struct ";

/// What stands between the name of a template type and its methods.
pub const TEMPLATE_IMPL: &'static str = "<'a> {
        site_info: &'a SiteInfo,
        page: PageState<'a>,
    }

    impl<'a> ";

/// What stands between the methods of a template type and the value that is rendered.
pub const TEMPLATE_BODY: &'static str = "<'a> {
        pub fn response_body(locale: Locale, path: &'a str, info: &'a SiteInfo) -> String {
            ";

/// What closes a template type.
pub const TEMPLATE_TAIL: &'static str = " {
                site_info: info,
                // TODO: make userInfo not required for static pages at this point?!
                page: PageState::new(locale, path, None, None),
            }
            .render()
            .unwrap()
        }
    }";

/// What closes the module of the template types.
pub const TEMPLATES_TAIL: &'static str = "
}
";

/// What stands between the name of a body and the template that renders it.
pub const BODY_TYPE: &'static str = ": String =
        templates::";

/// Where the templates of the static pages are, and which of them answers
/// what is not found.
#[derive(Clone, Debug, PartialEq, Eq)]
pub struct StaticPages {
    pub path: String,
    pub not_found: String,
    pub templates_dir: String,
}

/// The templates to generate pages for: `not_found` first, then the first `n`
/// names that are not `not_found`.
pub open spec fn templates_of(not_found: Seq<char>, names: Seq<Seq<char>>, n: nat) -> Seq<
    Seq<char>,
>
    decreases n,
{
    if n == 0 {
        seq![not_found]
    } else if names[n - 1] == not_found {
        templates_of(not_found, names, (n - 1) as nat)
    } else {
        templates_of(not_found, names, (n - 1) as nat).push(names[n - 1])
    }
}

/// The name of the template for what is not found, and all templates: that
/// one first, then every name found that differs from it, in order.
pub fn get_templates(not_found: &String, names: &Vec<String>) -> (r: (String, Vec<String>))
    ensures
        r.0@ == not_found@,
        r.1.deep_view() == templates_of(not_found@, names.deep_view(), names.len() as nat),
{
    let ghost nv = names.deep_view();
    let mut templates: Vec<String> = Vec::new();
    templates.push(not_found.clone());
    let mut i: usize = 0;
    proof {
        lemma_deep_view(*names);
    }
    assert(templates.deep_view() =~= templates_of(not_found@, nv, 0));
    while i < names.len()
        invariant
            i <= names.len(),
            nv == names.deep_view(),
            nv.len() == names@.len(),
            forall|k: int| 0 <= k < names@.len() ==> #[trigger] nv[k] == names@[k]@,
            templates.deep_view() == templates_of(not_found@, nv, i as nat),
        decreases names.len() - i,
    {
        if names[i] != *not_found {
            let ghost before = templates;
            templates.push(names[i].clone());
            assert(templates.deep_view() =~= before.deep_view().push(nv[i as int]));
        }
        i = i + 1;
    }
    (not_found.clone(), templates)
}

/// The module documentation of the generated pages.
pub open spec fn mod_docs_text() -> Seq<char> {
    MOD_DOCS@
}

/// The imports of the generated pages.
pub open spec fn imports_text() -> Seq<char> {
    IMPORTS@
}

/// The helper that builds a response from a status and a body.
pub open spec fn local_utility_functions_text() -> Seq<char> {
    LOCAL_UTILITY_FUNCTIONS@
}

/// The module documentation of the generated pages.
pub fn generate_pages_mod_docs() -> (r: String)
    ensures
        r@ == mod_docs_text(),
{
    let mut out = String::new();
    out.append(MOD_DOCS);
    assert(out@ =~= mod_docs_text());
    out
}

/// The imports of the generated pages.
pub fn generate_pages_imports() -> (r: String)
    ensures
        r@ == imports_text(),
{
    let mut out = String::new();
    out.append(IMPORTS);
    assert(out@ =~= imports_text());
    out
}

/// The helper that builds a response from a status and a body.
pub fn generate_pages_local_utility_functions() -> (r: String)
    ensures
        r@ == local_utility_functions_text(),
{
    let mut out = String::new();
    out.append(LOCAL_UTILITY_FUNCTIONS);
    assert(out@ =~= local_utility_functions_text());
    out
}

/// The arm that answers the endpoint of `template`.
pub open spec fn response_arm(template: Seq<char>) -> Seq<char> {
    "        PAGE_"@ + cased(template, CaseStyle::ScreamingSnake) + "_ENDPOINT => static_page_"@
        + cased(template, CaseStyle::Snake) + "(locale),\n"@
}

/// The arms of the first `n` templates but `not_found`.
pub open spec fn response_arms(templates: Seq<Seq<char>>, not_found: Seq<char>, n: nat) -> Seq<
    char,
>
    decreases n,
{
    if n == 0 {
        Seq::empty()
    } else if templates[n - 1] == not_found {
        response_arms(templates, not_found, (n - 1) as nat)
    } else {
        response_arms(templates, not_found, (n - 1) as nat) + response_arm(templates[n - 1])
    }
}

/// The function that answers an endpoint with its static page, and any other
/// endpoint with the page for what is not found.
pub open spec fn static_response_text(templates: Seq<Seq<char>>, not_found: Seq<char>) -> Seq<
    char,
> {
    RESPONSE_HEAD@ + response_arms(templates, not_found, templates.len())
        + "        _ => static_page_"@ + cased(not_found, CaseStyle::Snake) + "(locale),\n"@
        + RESPONSE_TAIL@
}

/// The function that answers an endpoint with its static page: one arm for
/// each template but `not_found`, which answers every other endpoint.
pub fn generate_pages_static_response(templates: &Vec<String>, not_found: &String) -> (r: String)
    requires
        all_ascii(templates.deep_view()),
        is_ascii_chars(not_found@),
    ensures
        r@ == static_response_text(templates.deep_view(), not_found@),
{
    let ghost tv = templates.deep_view();
    let mut out = String::new();
    out.append(RESPONSE_HEAD);
    let ghost head = out@;
    let mut i: usize = 0;
    proof {
        lemma_deep_view(*templates);
    }
    assert(out@ =~= head + response_arms(tv, not_found@, 0));
    while i < templates.len()
        invariant
            i <= templates.len(),
            tv == templates.deep_view(),
            all_ascii(tv),
            tv.len() == templates@.len(),
            forall|k: int| 0 <= k < templates@.len() ==> #[trigger] tv[k] == templates@[k]@,
            out@ == head + response_arms(tv, not_found@, i as nat),
        decreases templates.len() - i,
    {
        if templates[i] != *not_found {
            assert(is_ascii_chars(tv[i as int]));
            let screaming = to_case(templates[i].as_str(), CaseStyle::ScreamingSnake);
            let snake = to_case(templates[i].as_str(), CaseStyle::Snake);
            let ghost before = out@;
            out.append("        PAGE_");
            out.append(screaming.as_str());
            out.append("_ENDPOINT => static_page_");
            out.append(snake.as_str());
            out.append("(locale),\n");
            assert(out@ =~= before + response_arm(tv[i as int]));
        }
        i = i + 1;
        assert(out@ =~= head + response_arms(tv, not_found@, i as nat));
    }
    let ghost arms = out@;
    let snake = to_case(not_found.as_str(), CaseStyle::Snake);
    out.append("        _ => static_page_");
    out.append(snake.as_str());
    out.append("(locale),\n");
    out.append(RESPONSE_TAIL);
    assert(out@ =~= static_response_text(tv, not_found@));
    out
}

/// The alternative that matches the endpoint of `template`.
pub open spec fn root_arm(template: Seq<char>) -> Seq<char> {
    "            | PAGE_"@ + cased(template, CaseStyle::ScreamingSnake) + "_ENDPOINT\n"@
}

/// The alternatives of the first `n` templates but `not_found`.
pub open spec fn root_arms(templates: Seq<Seq<char>>, not_found: Seq<char>, n: nat) -> Seq<char>
    decreases n,
{
    if n == 0 {
        Seq::empty()
    } else if templates[n - 1] == not_found {
        root_arms(templates, not_found, (n - 1) as nat)
    } else {
        root_arms(templates, not_found, (n - 1) as nat) + root_arm(templates[n - 1])
    }
}

/// The function that tells whether a root is that of the assets or of a
/// static page.
pub open spec fn is_static_root_text(templates: Seq<Seq<char>>, not_found: Seq<char>) -> Seq<char> {
    ROOT_HEAD@ + root_arms(templates, not_found, templates.len()) + ROOT_TAIL@
}

/// The function that tells whether a root is that of the assets or of a
/// static page: one alternative for each template but `not_found`.
pub fn generate_pages_is_static_root(templates: &Vec<String>, not_found: &String) -> (r: String)
    requires
        all_ascii(templates.deep_view()),
    ensures
        r@ == is_static_root_text(templates.deep_view(), not_found@),
{
    let ghost tv = templates.deep_view();
    let mut out = String::new();
    out.append(ROOT_HEAD);
    let ghost head = out@;
    let mut i: usize = 0;
    proof {
        lemma_deep_view(*templates);
    }
    assert(out@ =~= head + root_arms(tv, not_found@, 0));
    while i < templates.len()
        invariant
            i <= templates.len(),
            tv == templates.deep_view(),
            all_ascii(tv),
            tv.len() == templates@.len(),
            forall|k: int| 0 <= k < templates@.len() ==> #[trigger] tv[k] == templates@[k]@,
            out@ == head + root_arms(tv, not_found@, i as nat),
        decreases templates.len() - i,
    {
        if templates[i] != *not_found {
            assert(is_ascii_chars(tv[i as int]));
            let screaming = to_case(templates[i].as_str(), CaseStyle::ScreamingSnake);
            out.append("            | PAGE_");
            out.append(screaming.as_str());
            out.append("_ENDPOINT\n");
        }
        i = i + 1;
        assert(out@ =~= head + root_arms(tv, not_found@, i as nat));
    }
    out.append(ROOT_TAIL);
    assert(out@ =~= is_static_root_text(tv, not_found@));
    out
}

/// The name of the body of `template` in `locale`.
pub open spec fn body_name(template: Seq<char>, locale: Seq<char>) -> Seq<char> {
    "PAGE_"@ + cased(template, CaseStyle::ScreamingSnake) + "_"@ + cased(
        locale,
        CaseStyle::ScreamingSnake,
    )
}

/// The arm that gives `locale` its body of `template`.
pub open spec fn body_arm(template: Seq<char>, locale: Seq<char>) -> Seq<char> {
    "            Locale::"@ + cased(locale, CaseStyle::Pascal) + " => "@ + body_name(
        template,
        locale,
    ) + ".as_str(),\n"@
}

/// The arms that give the first `n` locales their bodies of `template`.
pub open spec fn body_arms(template: Seq<char>, locales: Seq<Seq<char>>, n: nat) -> Seq<char>
    decreases n,
{
    if n == 0 {
        Seq::empty()
    } else {
        body_arms(template, locales, (n - 1) as nat) + body_arm(template, locales[n - 1])
    }
}

/// The lazily rendered body of `template` in `locale`.
pub open spec fn body_ref(template: Seq<char>, locale: Seq<char>) -> Seq<char> {
    "    static ref "@ + body_name(template, locale) + BODY_TYPE@ + cased(
        template,
        CaseStyle::Pascal,
    ) + "::response_body(Locale::"@ + cased(locale, CaseStyle::Pascal) + ", PAGE_"@ + cased(
        template,
        CaseStyle::ScreamingSnake,
    ) + "_PATH, &SITE_INFO);\n"@
}

/// The bodies of `template` in the first `n` locales.
pub open spec fn body_refs(template: Seq<char>, locales: Seq<Seq<char>>, n: nat) -> Seq<char>
    decreases n,
{
    if n == 0 {
        Seq::empty()
    } else {
        body_refs(template, locales, (n - 1) as nat) + body_ref(template, locales[n - 1])
    }
}

/// The constant of the endpoint of `template`; `not_found` has none.
pub open spec fn endpoint_text(template: Seq<char>, not_found: Seq<char>) -> Seq<char> {
    if template == not_found {
        Seq::empty()
    } else {
        "const PAGE_"@ + cased(template, CaseStyle::ScreamingSnake) + "_ENDPOINT: &str = \""@
            + cased(template, CaseStyle::Kebab) + "\";\n"@
    }
}

/// The head of the function of one template, up to the choice by locale.
pub open spec fn page_head_text(template: Seq<char>, not_found: Seq<char>) -> Seq<char> {
    "fn static_page_"@ + cased(template, CaseStyle::Snake) + PAGE_STATUS@ + (if template == not_found {
        "NOT_FOUND"@
    } else {
        "OK"@
    }) + PAGE_MATCH@
}

/// The constant of the path of `template`, and the opening of its bodies.
pub open spec fn page_path_text(template: Seq<char>) -> Seq<char> {
    "const PAGE_"@ + cased(template, CaseStyle::ScreamingSnake) + "_PATH: &str = \"/"@ + cased(
        template,
        CaseStyle::Kebab,
    ) + "\";\n\nlazy_static! {\n"@
}

/// The static page of one template: its function, which answers `NOT_FOUND`
/// for `not_found` and `OK` for any other, its endpoint and path, and its
/// body in each locale.
pub open spec fn static_page_text(
    template: Seq<char>,
    locales: Seq<Seq<char>>,
    not_found: Seq<char>,
) -> Seq<char> {
    page_head_text(template, not_found) + body_arms(template, locales, locales.len()) + PAGE_TAIL@
        + endpoint_text(template, not_found) + page_path_text(template) + body_refs(
        template,
        locales,
        locales.len(),
    ) + "}\n\n"@
}

/// The static pages of the first `n` templates.
pub open spec fn static_pages_text(
    locales: Seq<Seq<char>>,
    templates: Seq<Seq<char>>,
    not_found: Seq<char>,
    n: nat,
) -> Seq<char>
    decreases n,
{
    if n == 0 {
        Seq::empty()
    } else {
        static_pages_text(locales, templates, not_found, (n - 1) as nat) + static_page_text(
            templates[n - 1],
            locales,
            not_found,
        )
    }
}

fn push_body_name(out: &mut String, screaming: &String, locale: &String)
    requires
        is_ascii_chars(locale@),
    ensures
        final(out)@ == old(out)@ + "PAGE_"@ + screaming@ + "_"@ + cased(
            locale@,
            CaseStyle::ScreamingSnake,
        ),
{
    let name = to_case(locale.as_str(), CaseStyle::ScreamingSnake);
    out.append("PAGE_");
    out.append(screaming.as_str());
    out.append("_");
    out.append(name.as_str());
}

fn push_body_arms(
    out: &mut String,
    screaming: &String,
    locales: &Vec<String>,
    Ghost(template): Ghost<Seq<char>>,
)
    requires
        all_ascii(locales.deep_view()),
        screaming@ == cased(template, CaseStyle::ScreamingSnake),
    ensures
        final(out)@ == old(out)@ + body_arms(template, locales.deep_view(), locales.len() as nat),
{
    let ghost start = out@;
    let ghost lv = locales.deep_view();
    let mut i: usize = 0;
    proof {
        lemma_deep_view(*locales);
    }
    assert(out@ =~= start + body_arms(template, lv, 0));
    while i < locales.len()
        invariant
            i <= locales.len(),
            lv == locales.deep_view(),
            all_ascii(lv),
            lv.len() == locales@.len(),
            forall|k: int| 0 <= k < locales@.len() ==> #[trigger] lv[k] == locales@[k]@,
            screaming@ == cased(template, CaseStyle::ScreamingSnake),
            out@ == start + body_arms(template, lv, i as nat),
        decreases locales.len() - i,
    {
        assert(is_ascii_chars(lv[i as int]));
        let pascal = to_case(locales[i].as_str(), CaseStyle::Pascal);
        let ghost before = out@;
        out.append("            Locale::");
        out.append(pascal.as_str());
        out.append(" => ");
        push_body_name(out, screaming, &locales[i]);
        out.append(".as_str(),\n");
        assert(out@ =~= before + body_arm(template, lv[i as int]));
        i = i + 1;
        assert(out@ =~= start + body_arms(template, lv, i as nat));
    }
}

fn push_body_refs(
    out: &mut String,
    screaming: &String,
    pascal: &String,
    locales: &Vec<String>,
    Ghost(template): Ghost<Seq<char>>,
)
    requires
        all_ascii(locales.deep_view()),
        screaming@ == cased(template, CaseStyle::ScreamingSnake),
        pascal@ == cased(template, CaseStyle::Pascal),
    ensures
        final(out)@ == old(out)@ + body_refs(template, locales.deep_view(), locales.len() as nat),
{
    let ghost start = out@;
    let ghost lv = locales.deep_view();
    let mut i: usize = 0;
    proof {
        lemma_deep_view(*locales);
    }
    assert(out@ =~= start + body_refs(template, lv, 0));
    while i < locales.len()
        invariant
            i <= locales.len(),
            lv == locales.deep_view(),
            all_ascii(lv),
            lv.len() == locales@.len(),
            forall|k: int| 0 <= k < locales@.len() ==> #[trigger] lv[k] == locales@[k]@,
            screaming@ == cased(template, CaseStyle::ScreamingSnake),
            pascal@ == cased(template, CaseStyle::Pascal),
            out@ == start + body_refs(template, lv, i as nat),
        decreases locales.len() - i,
    {
        assert(is_ascii_chars(lv[i as int]));
        let locale_pascal = to_case(locales[i].as_str(), CaseStyle::Pascal);
        let ghost before = out@;
        out.append("    static ref ");
        push_body_name(out, screaming, &locales[i]);
        out.append(BODY_TYPE);
        out.append(pascal.as_str());
        let ghost half = out@;
        assert(half =~= before + ("    static ref "@ + body_name(template, lv[i as int]) + BODY_TYPE@
            + pascal@));
        out.append("::response_body(Locale::");
        out.append(locale_pascal.as_str());
        out.append(", PAGE_");
        out.append(screaming.as_str());
        out.append("_PATH, &SITE_INFO);\n");
        assert(out@ =~= before + body_ref(template, lv[i as int]));
        i = i + 1;
        assert(out@ =~= start + body_refs(template, lv, i as nat));
    }
}

fn push_page_head(out: &mut String, template: &String, not_found: &String)
    requires
        is_ascii_chars(template@),
    ensures
        final(out)@ == old(out)@ + page_head_text(template@, not_found@),
{
    let ghost start = out@;
    let snake = to_case(template.as_str(), CaseStyle::Snake);
    out.append("fn static_page_");
    out.append(snake.as_str());
    out.append(PAGE_STATUS);
    if *template == *not_found {
        out.append("NOT_FOUND");
    } else {
        out.append("OK");
    }
    out.append(PAGE_MATCH);
    assert(out@ =~= start + page_head_text(template@, not_found@));
}

fn push_page_paths(out: &mut String, template: &String, not_found: &String)
    requires
        is_ascii_chars(template@),
    ensures
        final(out)@ == old(out)@ + endpoint_text(template@, not_found@) + page_path_text(template@),
{
    let ghost start = out@;
    let screaming = to_case(template.as_str(), CaseStyle::ScreamingSnake);
    let kebab = to_case(template.as_str(), CaseStyle::Kebab);
    if *template != *not_found {
        out.append("const PAGE_");
        out.append(screaming.as_str());
        out.append("_ENDPOINT: &str = \"");
        out.append(kebab.as_str());
        out.append("\";\n");
    }
    let ghost middle = out@;
    assert(middle =~= start + endpoint_text(template@, not_found@));
    out.append("const PAGE_");
    out.append(screaming.as_str());
    out.append("_PATH: &str = \"/");
    out.append(kebab.as_str());
    out.append("\";\n\nlazy_static! {\n");
    assert(out@ =~= middle + page_path_text(template@));
}

fn push_static_page(out: &mut String, template: &String, locales: &Vec<String>, not_found: &String)
    requires
        all_ascii(locales.deep_view()),
        is_ascii_chars(template@),
    ensures
        final(out)@ == old(out)@ + static_page_text(template@, locales.deep_view(), not_found@),
{
    let ghost start = out@;
    let screaming = to_case(template.as_str(), CaseStyle::ScreamingSnake);
    let pascal = to_case(template.as_str(), CaseStyle::Pascal);
    push_page_head(out, template, not_found);
    push_body_arms(out, &screaming, locales, Ghost(template@));
    out.append(PAGE_TAIL);
    push_page_paths(out, template, not_found);
    push_body_refs(out, &screaming, &pascal, locales, Ghost(template@));
    out.append("}\n\n");
    assert(out@ =~= start + static_page_text(template@, locales.deep_view(), not_found@));
}

/// The static pages: for each template its function, its endpoint and path,
/// and its body in each locale.
pub fn generate_pages_static_pages(
    locales: &Vec<String>,
    templates: &Vec<String>,
    not_found: &String,
) -> (r: String)
    requires
        all_ascii(locales.deep_view()),
        all_ascii(templates.deep_view()),
    ensures
        r@ == static_pages_text(
            locales.deep_view(),
            templates.deep_view(),
            not_found@,
            templates.len() as nat,
        ),
{
    let ghost tv = templates.deep_view();
    let ghost lv = locales.deep_view();
    let mut out = String::new();
    let mut i: usize = 0;
    proof {
        lemma_deep_view(*templates);
    }
    assert(out@ =~= static_pages_text(lv, tv, not_found@, 0));
    while i < templates.len()
        invariant
            i <= templates.len(),
            tv == templates.deep_view(),
            lv == locales.deep_view(),
            all_ascii(tv),
            all_ascii(lv),
            tv.len() == templates@.len(),
            forall|k: int| 0 <= k < templates@.len() ==> #[trigger] tv[k] == templates@[k]@,
            out@ == static_pages_text(lv, tv, not_found@, i as nat),
        decreases templates.len() - i,
    {
        assert(is_ascii_chars(tv[i as int]));
        push_static_page(&mut out, &templates[i], locales, not_found);
        i = i + 1;
    }
    out
}

/// The attributes that tie the type of a template to its file.
pub open spec fn template_attribute_text(template: Seq<char>, templates_dir: Seq<char>) -> Seq<
    char,
> {
    TEMPLATE_ATTRIBUTES@ + templates_dir + "/"@ + template + TEMPLATE_STRUCT@
}

/// The type named `name` with the function that renders its body.
pub open spec fn template_type_text(name: Seq<char>) -> Seq<char> {
    name + TEMPLATE_IMPL@ + name + TEMPLATE_BODY@ + name + TEMPLATE_TAIL@
}

/// The type of one template with the function that renders its body.
pub open spec fn template_text(template: Seq<char>, templates_dir: Seq<char>) -> Seq<char> {
    template_attribute_text(template, templates_dir) + template_type_text(
        cased(template, CaseStyle::Pascal),
    )
}

/// The types of the first `n` templates.
pub open spec fn templates_text(templates: Seq<Seq<char>>, templates_dir: Seq<char>, n: nat) -> Seq<
    char,
>
    decreases n,
{
    if n == 0 {
        Seq::empty()
    } else {
        templates_text(templates, templates_dir, (n - 1) as nat) + template_text(
            templates[n - 1],
            templates_dir,
        )
    }
}

/// The module of the template types.
pub open spec fn templates_mod_text(templates: Seq<Seq<char>>, templates_dir: Seq<char>) -> Seq<
    char,
> {
    TEMPLATES_HEAD@ + templates_text(templates, templates_dir, templates.len()) + TEMPLATES_TAIL@
}

/// The module of the template types: for each template the type that is
/// rendered from its file under `templates_dir`.
pub fn generate_pages_templates_mod(templates: &Vec<String>, templates_dir: &String) -> (r: String)
    requires
        all_ascii(templates.deep_view()),
    ensures
        r@ == templates_mod_text(templates.deep_view(), templates_dir@),
{
    let ghost tv = templates.deep_view();
    let mut out = String::new();
    out.append(TEMPLATES_HEAD);
    let ghost head = out@;
    let mut i: usize = 0;
    proof {
        lemma_deep_view(*templates);
    }
    assert(out@ =~= head + templates_text(tv, templates_dir@, 0));
    while i < templates.len()
        invariant
            i <= templates.len(),
            tv == templates.deep_view(),
            all_ascii(tv),
            tv.len() == templates@.len(),
            forall|k: int| 0 <= k < templates@.len() ==> #[trigger] tv[k] == templates@[k]@,
            out@ == head + templates_text(tv, templates_dir@, i as nat),
        decreases templates.len() - i,
    {
        assert(is_ascii_chars(tv[i as int]));
        let pascal = to_case(templates[i].as_str(), CaseStyle::Pascal);
        let ghost before = out@;
        out.append(TEMPLATE_ATTRIBUTES);
        out.append(templates_dir.as_str());
        out.append("/");
        out.append(templates[i].as_str());
        out.append(TEMPLATE_STRUCT);
        let ghost middle = out@;
        assert(middle =~= before + template_attribute_text(tv[i as int], templates_dir@));
        out.append(pascal.as_str());
        out.append(TEMPLATE_IMPL);
        out.append(pascal.as_str());
        out.append(TEMPLATE_BODY);
        out.append(pascal.as_str());
        out.append(TEMPLATE_TAIL);
        assert(out@ =~= middle + template_type_text(pascal@));
        i = i + 1;
        assert(out@ =~= head + templates_text(tv, templates_dir@, i as nat));
    }
    out.append(TEMPLATES_TAIL);
    assert(out@ =~= templates_mod_text(tv, templates_dir@));
    out
}

/// The text of the pages module after its file header.
pub open spec fn pages_text(
    locales: Seq<Seq<char>>,
    templates: Seq<Seq<char>>,
    not_found: Seq<char>,
    templates_dir: Seq<char>,
) -> Seq<char> {
    mod_docs_text() + imports_text() + static_response_text(templates, not_found)
        + local_utility_functions_text() + is_static_root_text(templates, not_found)
        + static_pages_text(locales, templates, not_found, templates.len()) + templates_mod_text(
        templates,
        templates_dir,
    )
}

/// The locales and the templates are ASCII text, and so is the name of the
/// template for what is not found.
pub open spec fn nameable_pages(
    locales: Seq<Seq<char>>,
    not_found: Seq<char>,
    names: Seq<Seq<char>>,
) -> bool {
    &&& all_ascii(locales)
    &&& all_ascii(names)
    &&& is_ascii_chars(not_found)
}

/// Whether the locales of `storage`, the template for what is not found and
/// the templates named `names` are ASCII text.
pub fn is_nameable_pages(storage: &Storage, cfg: &StaticPages, names: &Vec<String>) -> (r: bool)
    ensures
        r == nameable_pages(locale_names(storage@), cfg.not_found@, names.deep_view()),
{
    let locales = storage.all_locales();
    is_ascii_path(&locales) && is_ascii_path(names) && cfg.not_found.is_ascii()
}

proof fn lemma_templates_ascii(not_found: Seq<char>, names: Seq<Seq<char>>, n: nat)
    requires
        all_ascii(names),
        is_ascii_chars(not_found),
        n <= names.len(),
    ensures
        all_ascii(templates_of(not_found, names, n)),
    decreases n,
{
    if n > 0 {
        lemma_templates_ascii(not_found, names, (n - 1) as nat);
        assert(is_ascii_chars(names[n - 1]));
    }
}

/// The text of the pages module, after its file header, for the locales of
/// `storage` and the templates named `names`: the documentation, the imports,
/// the function that answers an endpoint, the response helper, the test for a
/// static root, the static pages and the template types, in this order. The
/// template `cfg.not_found` comes first among the templates and answers
/// every endpoint that no other template has.
pub fn generate_pages(storage: &Storage, cfg: &StaticPages, names: &Vec<String>) -> (r: String)
    requires
        nameable_pages(locale_names(storage@), cfg.not_found@, names.deep_view()),
    ensures
        r@ == pages_text(
            locale_names(storage@),
            templates_of(cfg.not_found@, names.deep_view(), names.len() as nat),
            cfg.not_found@,
            cfg.templates_dir@,
        ),
{
    let locales = storage.all_locales();
    let (not_found, templates) = get_templates(&cfg.not_found, names);
    proof {
        lemma_deep_view(*names);
        lemma_templates_ascii(cfg.not_found@, names.deep_view(), names.len() as nat);
    }
    let mut out = generate_pages_mod_docs();
    let imports = generate_pages_imports();
    out.append(imports.as_str());
    let response = generate_pages_static_response(&templates, &not_found);
    out.append(response.as_str());
    let utility = generate_pages_local_utility_functions();
    out.append(utility.as_str());
    let root = generate_pages_is_static_root(&templates, &not_found);
    out.append(root.as_str());
    let pages = generate_pages_static_pages(&locales, &templates, &not_found);
    out.append(pages.as_str());
    let module = generate_pages_templates_mod(&templates, &cfg.templates_dir);
    out.append(module.as_str());
    out
}

} // verus!
