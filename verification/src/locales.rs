//! The locales module as generated text: the enumeration of the locales, the
//! schema of the default locale, and one instance for each locale.

use vstd::prelude::*;
use vstd::string::StringExecFns;
use vstd::utf8::is_ascii_chars;
use crate::catalog::{paths_of, CodegenError, EmitEntry, EmitEntryView, EmitValue, EmitValueView,
    PairView, StringValuePathPair};
use crate::merge::{merge, merged};
use crate::naming::{all_ascii, cased, lowercase, lowercase_of, to_case, trimmed, trimmed_of,
    CaseStyle};
use crate::path::has_conflict;
use crate::render::{ascii_paths, generate_locales_strings_instance,
    generate_locales_strings_struct, instance_text, renderable_entries, renderable_entry,
    schema_text};
use crate::schema::schema_of;
use crate::storage::{catalog_of, locale_names, nameable, nameable_catalog, Storage,
    StorageView};
use crate::views::{clone_path, lemma_deep_view};

verus! {

/// What opens the method that gives a locale its instance.
pub const STRINGS_METHOD_HEAD: &'static str = "impl Locales {
    pub fn strings(&self) -> &Strings {
        match self {
";

/// What opens the method that gives a locale its name.
pub const AS_STR_METHOD_HEAD: &'static str = "    pub fn as_str(&self) -> &str {
        match self {";

/// What closes the methods of the enumeration.
pub const METHODS_TAIL: &'static str = "
        }
    }
}

";

/// What opens the conversion from a name to its locale.
pub const CONVERSION_HEAD: &'static str = "impl From<&str> for Locales {
    fn from(s: &str) -> Self {
        match s.to_lowercase().trim() {
";

/// What closes the conversion from a name to its locale.
pub const CONVERSION_TAIL: &'static str = "        }
    }
}

";

/// The variant of one locale in the enumeration.
pub open spec fn variant_line(locale: Seq<char>) -> Seq<char> {
    "    "@ + cased(locale, CaseStyle::Pascal) + ",\n"@
}

/// The name of the instance of a locale: `STRINGS_DEFAULT` for the default
/// locale, `STRINGS_` and the locale in screaming snake case for another.
pub open spec fn instance_name(locale: Seq<char>, default_locale: Seq<char>) -> Seq<char> {
    "STRINGS_"@ + if locale == default_locale {
        "DEFAULT"@
    } else {
        cased(locale, CaseStyle::ScreamingSnake)
    }
}

/// The arm that gives a locale its instance.
pub open spec fn strings_arm(locale: Seq<char>, default_locale: Seq<char>) -> Seq<char> {
    "            Self::"@ + cased(locale, CaseStyle::Pascal) + " => &"@ + instance_name(
        locale,
        default_locale,
    ) + ",\n"@
}

/// The arm that gives a locale its name in kebab case.
pub open spec fn as_str_arm(locale: Seq<char>) -> Seq<char> {
    "\n            Self::"@ + cased(locale, CaseStyle::Pascal) + " => \""@ + cased(
        locale,
        CaseStyle::Kebab,
    ) + "\","@
}

/// The arm that finds a locale by its lower-cased and trimmed name.
pub open spec fn from_arm(locale: Seq<char>) -> Seq<char> {
    "            \""@ + trimmed_of(lowercase_of(locale)) + "\" => Self::"@ + cased(
        locale,
        CaseStyle::Pascal,
    ) + ",\n"@
}

/// The variants of the first `n` locales.
pub open spec fn variant_lines(locales: Seq<Seq<char>>, n: nat) -> Seq<char>
    decreases n,
{
    if n == 0 {
        Seq::empty()
    } else {
        variant_lines(locales, (n - 1) as nat) + variant_line(locales[n - 1])
    }
}

/// The arms that give the first `n` locales their instances.
pub open spec fn strings_arms(locales: Seq<Seq<char>>, default_locale: Seq<char>, n: nat) -> Seq<
    char,
>
    decreases n,
{
    if n == 0 {
        Seq::empty()
    } else {
        strings_arms(locales, default_locale, (n - 1) as nat) + strings_arm(
            locales[n - 1],
            default_locale,
        )
    }
}

/// The arms that give the first `n` locales their names.
pub open spec fn as_str_arms(locales: Seq<Seq<char>>, n: nat) -> Seq<char>
    decreases n,
{
    if n == 0 {
        Seq::empty()
    } else {
        as_str_arms(locales, (n - 1) as nat) + as_str_arm(locales[n - 1])
    }
}

/// The arms that find the first `n` locales by name.
pub open spec fn from_arms(locales: Seq<Seq<char>>, n: nat) -> Seq<char>
    decreases n,
{
    if n == 0 {
        Seq::empty()
    } else {
        from_arms(locales, (n - 1) as nat) + from_arm(locales[n - 1])
    }
}

/// The enumeration of the locales with its methods, its conversion from a
/// name, and the constant of the default locale.
pub open spec fn enum_text(locales: Seq<Seq<char>>, default_locale: Seq<char>) -> Seq<char> {
    declaration_text(locales) + methods_text(locales, default_locale) + conversion_text(locales)
        + default_constant_text(default_locale)
}

/// The enumeration itself: one variant for each locale.
pub open spec fn declaration_text(locales: Seq<Seq<char>>) -> Seq<char> {
    "pub enum Locales {\n"@ + variant_lines(locales, locales.len()) + "}\n\n"@
}

/// The methods that give a locale its instance and its name.
pub open spec fn methods_text(locales: Seq<Seq<char>>, default_locale: Seq<char>) -> Seq<char> {
    STRINGS_METHOD_HEAD@
        + strings_arms(locales, default_locale, locales.len()) + "        }\n    }\n\n"@
        + AS_STR_METHOD_HEAD@ + as_str_arms(
        locales,
        locales.len(),
    ) + METHODS_TAIL@
}

/// The conversion from a name to its locale, the default locale for a name
/// that is none.
pub open spec fn conversion_text(locales: Seq<Seq<char>>) -> Seq<char> {
    CONVERSION_HEAD@
        + from_arms(locales, locales.len()) + "            _ => DEFAULT_LOCALE,\n"@
        + CONVERSION_TAIL@
}

/// The constant of the default locale.
pub open spec fn default_constant_text(default_locale: Seq<char>) -> Seq<char> {
    "pub const DEFAULT_LOCALE: Locales = Locales::"@ + cased(default_locale, CaseStyle::Pascal)
        + ";\n\n"@
}

fn push_variants(out: &mut String, locales: &Vec<String>)
    requires
        all_ascii(locales.deep_view()),
    ensures
        final(out)@ == old(out)@ + variant_lines(locales.deep_view(), locales.len() as nat),
{
    let ghost start = out@;
    let ghost lv = locales.deep_view();
    proof {
        lemma_deep_view(*locales);
    }
    let mut i: usize = 0;
    assert(out@ =~= start + variant_lines(lv, 0));
    while i < locales.len()
        invariant
            i <= locales.len(),
            lv == locales.deep_view(),
            all_ascii(lv),
            lv.len() == locales@.len(),
            forall|k: int| 0 <= k < locales@.len() ==> #[trigger] lv[k] == locales@[k]@,
            out@ == start + variant_lines(lv, i as nat),
        decreases locales.len() - i,
    {
        assert(is_ascii_chars(lv[i as int]));
        let pascal = to_case(locales[i].as_str(), CaseStyle::Pascal);
        out.append("    ");
        out.append(pascal.as_str());
        out.append(",\n");
        i = i + 1;
        assert(out@ =~= start + variant_lines(lv, i as nat));
    }
}

fn push_strings_arms(out: &mut String, locales: &Vec<String>, default_locale: &String)
    requires
        all_ascii(locales.deep_view()),
    ensures
        final(out)@ == old(out)@ + strings_arms(
            locales.deep_view(),
            default_locale@,
            locales.len() as nat,
        ),
{
    let ghost start = out@;
    let ghost lv = locales.deep_view();
    proof {
        lemma_deep_view(*locales);
    }
    let mut i: usize = 0;
    assert(out@ =~= start + strings_arms(lv, default_locale@, 0));
    while i < locales.len()
        invariant
            i <= locales.len(),
            lv == locales.deep_view(),
            all_ascii(lv),
            lv.len() == locales@.len(),
            forall|k: int| 0 <= k < locales@.len() ==> #[trigger] lv[k] == locales@[k]@,
            out@ == start + strings_arms(lv, default_locale@, i as nat),
        decreases locales.len() - i,
    {
        assert(is_ascii_chars(lv[i as int]));
        let pascal = to_case(locales[i].as_str(), CaseStyle::Pascal);
        out.append("            Self::");
        out.append(pascal.as_str());
        out.append(" => &");
        out.append("STRINGS_");
        if locales[i] == *default_locale {
            out.append("DEFAULT");
        } else {
            let screaming = to_case(locales[i].as_str(), CaseStyle::ScreamingSnake);
            out.append(screaming.as_str());
        }
        out.append(",\n");
        i = i + 1;
        assert(out@ =~= start + strings_arms(lv, default_locale@, i as nat));
    }
}

fn push_as_str_arms(out: &mut String, locales: &Vec<String>)
    requires
        all_ascii(locales.deep_view()),
    ensures
        final(out)@ == old(out)@ + as_str_arms(locales.deep_view(), locales.len() as nat),
{
    let ghost start = out@;
    let ghost lv = locales.deep_view();
    proof {
        lemma_deep_view(*locales);
    }
    let mut i: usize = 0;
    assert(out@ =~= start + as_str_arms(lv, 0));
    while i < locales.len()
        invariant
            i <= locales.len(),
            lv == locales.deep_view(),
            all_ascii(lv),
            lv.len() == locales@.len(),
            forall|k: int| 0 <= k < locales@.len() ==> #[trigger] lv[k] == locales@[k]@,
            out@ == start + as_str_arms(lv, i as nat),
        decreases locales.len() - i,
    {
        assert(is_ascii_chars(lv[i as int]));
        let pascal = to_case(locales[i].as_str(), CaseStyle::Pascal);
        let kebab = to_case(locales[i].as_str(), CaseStyle::Kebab);
        out.append("\n            Self::");
        out.append(pascal.as_str());
        out.append(" => \"");
        out.append(kebab.as_str());
        out.append("\",");
        i = i + 1;
        assert(out@ =~= start + as_str_arms(lv, i as nat));
    }
}

fn push_from_arms(out: &mut String, locales: &Vec<String>)
    requires
        all_ascii(locales.deep_view()),
    ensures
        final(out)@ == old(out)@ + from_arms(locales.deep_view(), locales.len() as nat),
{
    let ghost start = out@;
    let ghost lv = locales.deep_view();
    proof {
        lemma_deep_view(*locales);
    }
    let mut i: usize = 0;
    assert(out@ =~= start + from_arms(lv, 0));
    while i < locales.len()
        invariant
            i <= locales.len(),
            lv == locales.deep_view(),
            all_ascii(lv),
            lv.len() == locales@.len(),
            forall|k: int| 0 <= k < locales@.len() ==> #[trigger] lv[k] == locales@[k]@,
            out@ == start + from_arms(lv, i as nat),
        decreases locales.len() - i,
    {
        assert(is_ascii_chars(lv[i as int]));
        let pascal = to_case(locales[i].as_str(), CaseStyle::Pascal);
        let lower = lowercase(locales[i].as_str());
        let name = trimmed(lower.as_str());
        out.append("            \"");
        out.append(name);
        out.append("\" => Self::");
        out.append(pascal.as_str());
        out.append(",\n");
        i = i + 1;
        assert(out@ =~= start + from_arms(lv, i as nat));
    }
}

/// The text of the enumeration of `locales`: one variant for each locale in
/// Pascal case, the method that gives a locale its instance, the method that
/// gives it its name in kebab case, the conversion from a lower-cased and
/// trimmed name, and the constant of the default locale.
pub fn generate_locales_enum(locales: &Vec<String>, default_locale: &String) -> (r: String)
    requires
        all_ascii(locales.deep_view()),
        is_ascii_chars(default_locale@),
    ensures
        r@ == enum_text(locales.deep_view(), default_locale@),
{
    let ghost lv = locales.deep_view();
    let mut out = String::new();
    out.append("pub enum Locales {\n");
    push_variants(&mut out, locales);
    out.append("}\n\n");
    let ghost declared = out@;
    assert(declared =~= declaration_text(lv));
    out.append(STRINGS_METHOD_HEAD);
    push_strings_arms(&mut out, locales, default_locale);
    out.append("        }\n    }\n\n");
    out.append(AS_STR_METHOD_HEAD);
    push_as_str_arms(&mut out, locales);
    out.append(METHODS_TAIL);
    let ghost with_methods = out@;
    assert(with_methods =~= declared + methods_text(lv, default_locale@));
    out.append(CONVERSION_HEAD);
    push_from_arms(&mut out, locales);
    out.append("            _ => DEFAULT_LOCALE,\n");
    out.append(CONVERSION_TAIL);
    let ghost converted = out@;
    assert(converted =~= with_methods + conversion_text(lv));
    out.append("pub const DEFAULT_LOCALE: Locales = Locales::");
    let pascal = to_case(default_locale.as_str(), CaseStyle::Pascal);
    out.append(pascal.as_str());
    out.append(";\n\n");
    assert(out@ =~= converted + default_constant_text(default_locale@));
    out
}

/// The entries of a catalog that stands for itself: each value a literal.
pub open spec fn literal_entries(pairs: Seq<PairView>) -> Seq<EmitEntryView> {
    Seq::new(
        pairs.len(),
        |i: int|
            EmitEntryView { path: pairs[i].path, value: EmitValueView::Literal(pairs[i].value) },
    )
}

/// The instances of the first `n` locales but the default one, each merged
/// into the default catalog `d`; `UnresolvedCatalog` where one of them has no
/// catalog.
pub open spec fn instances_text(s: StorageView, d: Seq<PairView>, n: nat) -> Result<
    Seq<char>,
    CodegenError,
>
    decreases n,
{
    if n == 0 {
        Ok(Seq::empty())
    } else {
        let locale = s.locales[n - 1].locale;
        match instances_text(s, d, (n - 1) as nat) {
            Err(e) => Err(e),
            Ok(text) => if locale == s.default_locale {
                Ok(text)
            } else {
                match catalog_of(s, locale) {
                    None => Err(CodegenError::UnresolvedCatalog),
                    Some(pairs) => Ok(
                        text + instance_text(
                            "STRINGS_"@ + cased(locale, CaseStyle::ScreamingSnake),
                            merged(d, pairs),
                        ),
                    ),
                }
            },
        }
    }
}

/// The text of the locales module, or why there is none: the enumeration of
/// the locales, the schema of the default catalog, the default instance, and
/// the instance of every other locale in order. A missing or empty default
/// catalog comes first among the errors, then a conflict among its paths,
/// then a locale without a catalog.
pub open spec fn locales_text(s: StorageView) -> Result<Seq<char>, CodegenError> {
    match catalog_of(s, s.default_locale) {
        None => Err(CodegenError::MissingDefaultLocale),
        Some(d) => if d.len() == 0 {
            Err(CodegenError::MissingDefaultLocale)
        } else if has_conflict(paths_of(d)) {
            Err(CodegenError::SchemaConflict)
        } else {
            match instances_text(s, d, s.locales.len()) {
                Err(e) => Err(e),
                Ok(rest) => Ok(
                    enum_text(locale_names(s), s.default_locale) + schema_text(
                        schema_of(paths_of(d)),
                    ) + instance_text("STRINGS_DEFAULT"@, literal_entries(d)) + rest,
                ),
            }
        },
    }
}

/// One of the first `n` locales is not the default one and has no catalog.
pub open spec fn some_unresolved(s: StorageView, n: nat) -> bool {
    exists|i: int|
        0 <= i < n && (#[trigger] s.locales[i]).locale != s.default_locale && catalog_of(
            s,
            s.locales[i].locale,
        ) is None
}

proof fn lemma_instances_fail(s: StorageView, d: Seq<PairView>, n: nat)
    requires
        n <= s.locales.len(),
    ensures
        some_unresolved(s, n) <==> instances_text(s, d, n) is Err,
        instances_text(s, d, n) is Err ==> instances_text(s, d, n) == Err::<
            Seq<char>,
            CodegenError,
        >(CodegenError::UnresolvedCatalog),
    decreases n,
{
    if n > 0 {
        lemma_instances_fail(s, d, (n - 1) as nat);
        let locale = s.locales[n - 1].locale;
        if some_unresolved(s, (n - 1) as nat) {
            let i = choose|i: int|
                0 <= i < n - 1 && (#[trigger] s.locales[i]).locale != s.default_locale
                    && catalog_of(s, s.locales[i].locale) is None;
            assert(0 <= i < n && s.locales[i].locale != s.default_locale);
        } else if locale != s.default_locale && catalog_of(s, locale) is None {
            assert(s.locales[n - 1].locale != s.default_locale);
        } else if some_unresolved(s, n) {
            let i = choose|i: int|
                0 <= i < n && (#[trigger] s.locales[i]).locale != s.default_locale && catalog_of(
                    s,
                    s.locales[i].locale,
                ) is None;
            assert(i < n - 1);
        }
    }
}

/// When a generation fails, and with which error. It fails with
/// `MissingDefaultLocale` exactly where the default locale has no catalog or
/// an empty one; otherwise with `SchemaConflict` exactly where a path of the
/// default catalog is a proper prefix of another; otherwise with
/// `UnresolvedCatalog` exactly where another locale has no catalog; and
/// otherwise it succeeds.
pub proof fn generation_fails_exactly(s: StorageView)
    ensures
        locales_text(s) == Err::<Seq<char>, CodegenError>(CodegenError::MissingDefaultLocale)
            <==> (catalog_of(s, s.default_locale) matches Some(d) ==> d.len() == 0),
        locales_text(s) == Err::<Seq<char>, CodegenError>(CodegenError::SchemaConflict) <==> (
        catalog_of(s, s.default_locale) matches Some(d) && d.len() > 0 && has_conflict(
            paths_of(d),
        )),
        locales_text(s) == Err::<Seq<char>, CodegenError>(CodegenError::UnresolvedCatalog) <==> (
        catalog_of(s, s.default_locale) matches Some(d) && d.len() > 0 && !has_conflict(
            paths_of(d),
        ) && some_unresolved(s, s.locales.len())),
        locales_text(s) is Ok <==> (catalog_of(s, s.default_locale) matches Some(d) && d.len() > 0
            && !has_conflict(paths_of(d)) && !some_unresolved(s, s.locales.len())),
{
    match catalog_of(s, s.default_locale) {
        None => {},
        Some(d) => {
            lemma_instances_fail(s, d, s.locales.len());
        },
    }
}

/// A generated text, or the error, in contracts.
pub open spec fn text_view(r: Result<String, CodegenError>) -> Result<Seq<char>, CodegenError> {
    match r {
        Ok(text) => Ok(text@),
        Err(e) => Err(e),
    }
}

/// The entries of a catalog with each value as a literal.
pub fn literal_entries_of(pairs: &Vec<StringValuePathPair>) -> (r: Vec<EmitEntry>)
    ensures
        r.deep_view() == literal_entries(pairs.deep_view()),
{
    let mut out: Vec<EmitEntry> = Vec::new();
    let mut i: usize = 0;
    proof {
        lemma_deep_view(*pairs);
    }
    while i < pairs.len()
        invariant
            i <= pairs.len(),
            out@.len() == i,
            forall|j: int|
                0 <= j < i ==> (#[trigger] out@[j]).deep_view() == literal_entries(
                    pairs.deep_view(),
                )[j],
        decreases pairs.len() - i,
    {
        out.push(
            EmitEntry {
                path: clone_path(&pairs[i].path),
                value: EmitValue::Literal(pairs[i].value.clone()),
            },
        );
        i = i + 1;
    }
    assert(out.deep_view() =~= literal_entries(pairs.deep_view()));
    out
}

/// The paths of a catalog, in order.
pub fn catalog_paths(pairs: &Vec<StringValuePathPair>) -> (r: Vec<Vec<String>>)
    ensures
        r.deep_view() == paths_of(pairs.deep_view()),
{
    let mut out: Vec<Vec<String>> = Vec::new();
    let mut i: usize = 0;
    proof {
        lemma_deep_view(*pairs);
    }
    while i < pairs.len()
        invariant
            i <= pairs.len(),
            out@.len() == i,
            forall|j: int|
                0 <= j < i ==> (#[trigger] out@[j]).deep_view() == pairs.deep_view()[j].path,
        decreases pairs.len() - i,
    {
        out.push(clone_path(&pairs[i].path));
        i = i + 1;
    }
    assert(out.deep_view() =~= paths_of(pairs.deep_view()));
    out
}

proof fn lemma_merged_renderable(d: Seq<PairView>, l: Seq<PairView>)
    requires
        nameable_catalog(d),
    ensures
        renderable_entries(merged(d, l)),
        renderable_entries(literal_entries(d)),
        ascii_paths(paths_of(d)),
{
    assert forall|i: int| 0 <= i < merged(d, l).len() implies renderable_entry(
        #[trigger] merged(d, l)[i],
    ) by {
        assert(d[i].path.len() > 0 && all_ascii(d[i].path));
    }
    assert forall|i: int| 0 <= i < literal_entries(d).len() implies renderable_entry(
        #[trigger] literal_entries(d)[i],
    ) by {
        assert(d[i].path.len() > 0 && all_ascii(d[i].path));
    }
    assert forall|i: int| 0 <= i < paths_of(d).len() implies all_ascii(
        #[trigger] paths_of(d)[i],
    ) by {
        assert(d[i].path.len() > 0 && all_ascii(d[i].path));
    }
}

/// The text of the locales module for what `storage` holds: the enumeration
/// of the locales, the record types of the default catalog, its instance
/// `STRINGS_DEFAULT`, and for every other locale the instance of its catalog
/// merged into the default one. Nothing is kept of a generation that fails.
pub fn generate_locales(storage: &Storage) -> (r: Result<String, CodegenError>)
    requires
        nameable(storage@),
    ensures
        text_view(r) == locales_text(storage@),
{
    let ghost sv = storage@;
    let default_pairs = match storage.get_default() {
        Some(pairs) => pairs,
        None => {
            return Err(CodegenError::MissingDefaultLocale);
        },
    };
    if default_pairs.len() == 0 {
        proof {
            lemma_deep_view(*default_pairs);
        }
        return Err(CodegenError::MissingDefaultLocale);
    }
    let ghost d = default_pairs.deep_view();
    proof {
        lemma_deep_view(*default_pairs);
        lemma_deep_view(storage.locales);
        lemma_merged_renderable(d, d);
    }
    let names = storage.all_locales();
    let paths = catalog_paths(default_pairs);
    let schema = match generate_locales_strings_struct(&paths) {
        Ok(text) => text,
        Err(e) => {
            return Err(e);
        },
    };
    let mut rest = String::new();
    let mut i: usize = 0;
    assert(rest@ =~= Seq::<char>::empty());
    while i < storage.locales.len()
        invariant
            i <= storage.locales.len(),
            sv == storage@,
            d == default_pairs.deep_view(),
            d.len() > 0,
            nameable(sv),
            nameable_catalog(d),
            catalog_of(sv, sv.default_locale) == Some(d),
            !has_conflict(paths_of(d)),
            sv.locales.len() == storage.locales@.len(),
            forall|k: int|
                0 <= k < storage.locales@.len() ==> #[trigger] sv.locales[k]
                    == storage.locales@[k].deep_view(),
            instances_text(sv, d, i as nat) == Ok::<Seq<char>, CodegenError>(rest@),
        decreases storage.locales.len() - i,
    {
        let locale = &storage.locales[i].locale;
        assert(sv.locales[i as int].locale == locale@);
        if *locale != storage.default_locale {
            let pairs = match storage.get(locale) {
                Some(pairs) => pairs,
                None => {
                    proof {
                        assert(sv.locales[i as int].locale != sv.default_locale && catalog_of(
                            sv,
                            sv.locales[i as int].locale,
                        ) is None);
                        lemma_instances_fail(sv, d, sv.locales.len());
                    }
                    return Err(CodegenError::UnresolvedCatalog);
                },
            };
            let entries = match merge(default_pairs, pairs) {
                Ok(entries) => entries,
                Err(e) => {
                    return Err(e);
                },
            };
            proof {
                lemma_merged_renderable(d, pairs.deep_view());
                assert(is_ascii_chars(locale_names(sv)[i as int]));
            }
            let mut name = String::new();
            name.append("STRINGS_");
            let screaming = to_case(locale.as_str(), CaseStyle::ScreamingSnake);
            name.append(screaming.as_str());
            assert(name@ =~= "STRINGS_"@ + cased(locale@, CaseStyle::ScreamingSnake));
            let text = generate_locales_strings_instance(name.as_str(), &entries);
            rest.append(text.as_str());
        }
        i = i + 1;
    }
    let mut out = generate_locales_enum(&names, &storage.default_locale);
    out.append(schema.as_str());
    let entries = literal_entries_of(default_pairs);
    let text = generate_locales_strings_instance("STRINGS_DEFAULT", &entries);
    out.append(text.as_str());
    out.append(rest.as_str());
    Ok(out)
}

} // verus!
