//! Catalog storage: the locales in order, each with its catalog where it has
//! one, and the default locale.

use vstd::prelude::*;
use vstd::string::StringExecFnsIsAscii;
use vstd::utf8::is_ascii_chars;
use crate::catalog::{PairView, StringValuePathPair};
use crate::naming::{all_ascii, is_ascii_path};
use crate::views::lemma_deep_view;

verus! {

/// One locale and its catalog, `None` where storage lists the locale without
/// one.
#[derive(Clone, Debug, PartialEq, Eq)]
pub struct LocaleStrings {
    pub locale: String,
    pub strings: Option<Vec<StringValuePathPair>>,
}

/// A locale with its catalog in contracts.
pub struct LocaleStringsView {
    pub locale: Seq<char>,
    pub strings: Option<Seq<PairView>>,
}

impl View for LocaleStrings {
    type V = LocaleStringsView;

    open spec fn view(&self) -> LocaleStringsView {
        LocaleStringsView {
            locale: self.locale@,
            strings: match self.strings {
                Some(pairs) => Some(pairs.deep_view()),
                None => None,
            },
        }
    }
}

impl DeepView for LocaleStrings {
    type V = LocaleStringsView;

    open spec fn deep_view(&self) -> LocaleStringsView {
        self@
    }
}

/// All locales, and which of them is the default.
#[derive(Clone, Debug, PartialEq, Eq)]
pub struct Storage {
    pub default_locale: String,
    pub locales: Vec<LocaleStrings>,
}

/// Storage in contracts.
pub struct StorageView {
    pub default_locale: Seq<char>,
    pub locales: Seq<LocaleStringsView>,
}

impl View for Storage {
    type V = StorageView;

    open spec fn view(&self) -> StorageView {
        StorageView { default_locale: self.default_locale@, locales: self.locales.deep_view() }
    }
}

/// Index of the first locale from `from` on that is named `locale`, or the
/// number of locales where there is none.
pub open spec fn position_of(locales: Seq<LocaleStringsView>, locale: Seq<char>, from: nat) -> nat
    decreases locales.len() - from,
{
    if from < locales.len() && locales[from as int].locale != locale {
        position_of(locales, locale, from + 1)
    } else {
        from
    }
}

/// The catalog of the first locale named `locale`, if there is such a
/// locale and it has one.
pub open spec fn catalog_of(s: StorageView, locale: Seq<char>) -> Option<Seq<PairView>> {
    let i = position_of(s.locales, locale, 0);
    if i < s.locales.len() {
        s.locales[i as int].strings
    } else {
        None
    }
}

/// The names of the locales, in order.
pub open spec fn locale_names(s: StorageView) -> Seq<Seq<char>> {
    Seq::new(s.locales.len(), |i: int| s.locales[i].locale)
}

/// Every path of the catalog has a segment, and every segment is ASCII text.
pub open spec fn nameable_catalog(pairs: Seq<PairView>) -> bool {
    forall|i: int|
        0 <= i < pairs.len() ==> (#[trigger] pairs[i]).path.len() > 0 && all_ascii(pairs[i].path)
}

/// What the generated text names can be named: the locales and the paths of
/// the default catalog are ASCII text, and none of these paths is empty.
pub open spec fn nameable(s: StorageView) -> bool {
    &&& is_ascii_chars(s.default_locale)
    &&& all_ascii(locale_names(s))
    &&& catalog_of(s, s.default_locale) matches Some(d) ==> nameable_catalog(d)
}

impl Storage {
    /// The name of the default locale.
    pub fn default_locale(&self) -> (r: &String)
        ensures
            r@ == self@.default_locale,
    {
        &self.default_locale
    }

    /// The names of all locales, in order.
    pub fn all_locales(&self) -> (r: Vec<String>)
        ensures
            r.deep_view() == locale_names(self@),
    {
        let mut names: Vec<String> = Vec::new();
        let mut i: usize = 0;
        proof {
            lemma_deep_view(self.locales);
        }
        while i < self.locales.len()
            invariant
                i <= self.locales.len(),
                names@.len() == i,
                forall|j: int| 0 <= j < i ==> names@[j]@ == self.locales@[j].locale@,
            decreases self.locales.len() - i,
        {
            names.push(self.locales[i].locale.clone());
            i = i + 1;
        }
        assert(names.deep_view() =~= locale_names(self@));
        names
    }

    /// The catalog of `locale`.
    pub fn get(&self, locale: &String) -> (r: Option<&Vec<StringValuePathPair>>)
        ensures
            match r {
                Some(pairs) => catalog_of(self@, locale@) == Some(pairs.deep_view()),
                None => catalog_of(self@, locale@) is None,
            },
    {
        let mut i: usize = 0;
        proof {
            lemma_deep_view(self.locales);
        }
        while i < self.locales.len() && self.locales[i].locale != *locale
            invariant
                i <= self.locales.len(),
                self@.locales.len() == self.locales@.len(),
                forall|k: int|
                    0 <= k < self.locales@.len() ==> #[trigger] self@.locales[k]
                        == self.locales@[k].deep_view(),
                position_of(self@.locales, locale@, i as nat) == position_of(
                    self@.locales,
                    locale@,
                    0,
                ),
            decreases self.locales.len() - i,
        {
            i = i + 1;
        }
        if i < self.locales.len() {
            match &self.locales[i].strings {
                Some(pairs) => Some(pairs),
                None => None,
            }
        } else {
            None
        }
    }

    /// The catalog of the default locale.
    pub fn get_default(&self) -> (r: Option<&Vec<StringValuePathPair>>)
        ensures
            match r {
                Some(pairs) => catalog_of(self@, self@.default_locale) == Some(pairs.deep_view()),
                None => catalog_of(self@, self@.default_locale) is None,
            },
    {
        self.get(&self.default_locale)
    }

    /// Whether the generated text can name what the storage holds.
    pub fn is_nameable(&self) -> (r: bool)
        ensures
            r == nameable(self@),
    {
        if !self.default_locale.is_ascii() {
            return false;
        }
        proof {
            lemma_deep_view(self.locales);
        }
        let mut i: usize = 0;
        while i < self.locales.len()
            invariant
                i <= self.locales.len(),
                self@.locales.len() == self.locales@.len(),
                forall|k: int|
                    0 <= k < self.locales@.len() ==> #[trigger] self@.locales[k]
                        == self.locales@[k].deep_view(),
                forall|k: int| 0 <= k < i ==> is_ascii_chars(#[trigger] locale_names(self@)[k]),
            decreases self.locales.len() - i,
        {
            if !self.locales[i].locale.is_ascii() {
                assert(!is_ascii_chars(locale_names(self@)[i as int]));
                return false;
            }
            i = i + 1;
        }
        match self.get_default() {
            Some(pairs) => is_nameable_catalog(pairs),
            None => true,
        }
    }
}

/// Whether every path of the catalog has a segment and is ASCII text.
pub fn is_nameable_catalog(pairs: &Vec<StringValuePathPair>) -> (r: bool)
    ensures
        r == nameable_catalog(pairs.deep_view()),
{
    proof {
        lemma_deep_view(*pairs);
    }
    let mut i: usize = 0;
    while i < pairs.len()
        invariant
            i <= pairs.len(),
            pairs.deep_view().len() == pairs@.len(),
            forall|k: int| 0 <= k < pairs@.len() ==> #[trigger] pairs.deep_view()[k] == pairs@[k]@,
            forall|k: int|
                0 <= k < i ==> (#[trigger] pairs.deep_view()[k]).path.len() > 0 && all_ascii(
                    pairs.deep_view()[k].path,
                ),
        decreases pairs.len() - i,
    {
        proof {
            lemma_deep_view(pairs@[i as int].path);
        }
        if pairs[i].path.len() == 0 || !is_ascii_path(&pairs[i].path) {
            assert(!(pairs.deep_view()[i as int].path.len() > 0 && all_ascii(
                pairs.deep_view()[i as int].path,
            )));
            return false;
        }
        i = i + 1;
    }
    true
}

} // verus!
