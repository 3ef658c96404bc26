//! Identifier naming and the other string operations that the library takes
//! from outside: case conversion, lower-casing and trimming. What they
//! return is believed, not proved.

use vstd::prelude::*;
use vstd::string::StringExecFnsIsAscii;
use vstd::utf8::is_ascii_chars;
use crate::views::lemma_deep_view;

verus! {

/// The identifier cases that the generated text uses.
#[derive(Clone, Copy, Debug, PartialEq, Eq, Structural)]
pub enum CaseStyle {
    Pascal,
    Snake,
    ScreamingSnake,
    Kebab,
}

/// What `convert_case` makes of the text `s` in the case `style`.
pub uninterp spec fn cased(s: Seq<char>, style: CaseStyle) -> Seq<char>;

/// What `str::to_lowercase` makes of `s`.
pub uninterp spec fn lowercase_of(s: Seq<char>) -> Seq<char>;

/// What `str::trim` leaves of `s`.
pub uninterp spec fn trimmed_of(s: Seq<char>) -> Seq<char>;

/// Every segment converted to the case `style`.
pub open spec fn cased_all(segments: Seq<Seq<char>>, style: CaseStyle) -> Seq<Seq<char>> {
    Seq::new(segments.len(), |i: int| cased(segments[i], style))
}

/// Every segment is ASCII text.
pub open spec fn all_ascii(segments: Seq<Seq<char>>) -> bool {
    forall|i: int| 0 <= i < segments.len() ==> is_ascii_chars(#[trigger] segments[i])
}

/// Calls `convert_case::Casing::to_case` on `s`: the result is a function of
/// the text and the case alone, and nothing more is claimed of it. The
/// conversion cuts words at byte positions that it counts in characters, so
/// text outside ASCII can make it panic: such text is left out.
#[verifier::external_body]
pub(crate) fn to_case(s: &str, style: CaseStyle) -> (r: String)
    requires
        is_ascii_chars(s@),
    ensures
        r@ == cased(s@, style),
{
    let case = match style {
        CaseStyle::Pascal => convert_case::Case::Pascal,
        CaseStyle::Snake => convert_case::Case::Snake,
        CaseStyle::ScreamingSnake => convert_case::Case::ScreamingSnake,
        CaseStyle::Kebab => convert_case::Case::Kebab,
    };
    convert_case::Casing::to_case(s, case)
}

/// Calls `str::to_lowercase`: the result is a function of the text alone.
#[verifier::external_body]
pub(crate) fn lowercase(s: &str) -> (r: String)
    ensures
        r@ == lowercase_of(s@),
{
    s.to_lowercase()
}

/// Calls `str::trim`: the result is a function of the text alone.
#[verifier::external_body]
pub(crate) fn trimmed(s: &str) -> (r: &str)
    ensures
        r@ == trimmed_of(s@),
{
    s.trim()
}

/// Whether every segment of the path is ASCII text.
pub fn is_ascii_path(path: &Vec<String>) -> (r: bool)
    ensures
        r == all_ascii(path.deep_view()),
{
    proof {
        lemma_deep_view(*path);
    }
    let mut i: usize = 0;
    while i < path.len()
        invariant
            i <= path.len(),
            path.deep_view().len() == path@.len(),
            forall|k: int| 0 <= k < path@.len() ==> #[trigger] path.deep_view()[k] == path@[k]@,
            forall|k: int| 0 <= k < i ==> is_ascii_chars(#[trigger] path.deep_view()[k]),
        decreases path.len() - i,
    {
        if !path[i].is_ascii() {
            assert(!is_ascii_chars(path.deep_view()[i as int]));
            return false;
        }
        i = i + 1;
    }
    true
}

/// The first `n` segments of `path`, each in the case `style`.
pub(crate) fn cased_segments(path: &Vec<String>, n: usize, style: CaseStyle) -> (r: Vec<String>)
    requires
        n <= path.len(),
        all_ascii(path.deep_view()),
    ensures
        r.deep_view() == cased_all(path.deep_view().take(n as int), style),
{
    let mut r: Vec<String> = Vec::new();
    let mut i: usize = 0;
    while i < n
        invariant
            i <= n <= path.len(),
            all_ascii(path.deep_view()),
            r@.len() == i,
            forall|j: int| 0 <= j < i ==> r@[j]@ == cased(path@[j]@, style),
        decreases n - i,
    {
        assert(path.deep_view()[i as int] == path@[i as int]@);
        r.push(to_case(path[i].as_str(), style));
        i = i + 1;
    }
    assert(r.deep_view() =~= cased_all(path.deep_view().take(n as int), style));
    r
}

} // verus!
