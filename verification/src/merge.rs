//! The fallback merge: a locale's partial catalog laid over the default
//! catalog in one forward sweep with two cursors.

use vstd::prelude::*;
use crate::catalog::{paths_of, CodegenError, EmitEntry, EmitEntryView, EmitValue, EmitValueView,
    PairView, StringValuePathPair};
use crate::order::{lemma_path_lt_irreflexive, lemma_path_lt_transitive,
    lemma_sorted_by_neighbours};
use crate::path::{path_equal, path_less, path_lt, paths_sorted};
use crate::views::{clone_path, lemma_deep_view, lemma_deep_view_push};

verus! {

/// Where the locale cursor stands once every entry from `c` on that sorts
/// strictly before `d` has been passed over.
pub open spec fn skip_orphans(l: Seq<PairView>, c: nat, d: Seq<Seq<char>>) -> nat
    decreases l.len() - c,
{
    if c < l.len() && path_lt(l[c as int].path, d) {
        skip_orphans(l, c + 1, d)
    } else {
        c
    }
}

/// Whether the locale, with its cursor at `c`, has a value of its own for `d`.
pub open spec fn has_own(l: Seq<PairView>, c: nat, d: Seq<Seq<char>>) -> bool {
    let j = skip_orphans(l, c, d);
    j < l.len() && l[j as int].path == d
}

/// What the merge puts at the default entry `d` with the locale cursor at `c`.
pub open spec fn merged_entry(l: Seq<PairView>, c: nat, d: PairView) -> EmitEntryView {
    let j = skip_orphans(l, c, d.path);
    EmitEntryView {
        path: d.path,
        value: if has_own(l, c, d.path) {
            EmitValueView::Literal(l[j as int].value)
        } else {
            EmitValueView::FallbackRef(d.path)
        },
    }
}

/// Where the locale cursor stands after the default path `d` was handled.
pub open spec fn cursor_after(l: Seq<PairView>, c: nat, d: Seq<Seq<char>>) -> nat {
    let j = skip_orphans(l, c, d);
    if has_own(l, c, d) {
        j + 1
    } else {
        j
    }
}

/// Where the locale cursor stands before the `n`-th default entry is handled.
pub open spec fn cursor_before(d: Seq<PairView>, l: Seq<PairView>, n: nat) -> nat
    decreases n,
{
    if n == 0 || n > d.len() {
        0
    } else {
        cursor_after(l, cursor_before(d, l, (n - 1) as nat), d[n - 1].path)
    }
}

/// The merge of the default catalog `d` with the locale catalog `l`.
pub open spec fn merged(d: Seq<PairView>, l: Seq<PairView>) -> Seq<EmitEntryView> {
    Seq::new(d.len(), |i: int| merged_entry(l, cursor_before(d, l, i as nat), d[i]))
}

proof fn lemma_skip_orphans(l: Seq<PairView>, c: nat, p: Seq<Seq<char>>)
    requires
        c <= l.len(),
    ensures
        c <= skip_orphans(l, c, p) <= l.len(),
        forall|j: int| c <= j < skip_orphans(l, c, p) ==> path_lt((#[trigger] l[j]).path, p),
        skip_orphans(l, c, p) < l.len() ==> !path_lt(l[skip_orphans(l, c, p) as int].path, p),
    decreases l.len() - c,
{
    if c < l.len() && path_lt(l[c as int].path, p) {
        lemma_skip_orphans(l, c + 1, p);
    }
}

/// The locale cursor never leaves the locale catalog.
pub proof fn lemma_cursor_bounds(d: Seq<PairView>, l: Seq<PairView>, n: nat)
    ensures
        cursor_before(d, l, n) <= l.len(),
    decreases n,
{
    if n == 0 || n > d.len() {
    } else {
        lemma_cursor_bounds(d, l, (n - 1) as nat);
        lemma_skip_orphans(l, cursor_before(d, l, (n - 1) as nat), d[n - 1].path);
    }
}

/// Handles one default entry: passes over the orphans, then takes the
/// locale's value or falls back.
fn merge_step(pairs: &Vec<StringValuePathPair>, cursor: usize, default_pair: &StringValuePathPair)
    -> (r: (EmitEntry, usize))
    requires
        cursor <= pairs.len(),
    ensures
        r.0.deep_view() == merged_entry(pairs.deep_view(), cursor as nat, default_pair@),
        r.1 == cursor_after(pairs.deep_view(), cursor as nat, default_pair@.path),
        r.1 <= pairs.len(),
{
    let mut j: usize = cursor;
    proof {
        lemma_deep_view(*pairs);
    }
    while j < pairs.len() && path_less(&pairs[j].path, &default_pair.path)
        invariant
            cursor <= j <= pairs.len(),
            pairs.deep_view().len() == pairs@.len(),
            forall|i: int| 0 <= i < pairs@.len() ==> #[trigger] pairs.deep_view()[i] == pairs@[i]@,
            skip_orphans(pairs.deep_view(), j as nat, default_pair@.path) == skip_orphans(
                pairs.deep_view(),
                cursor as nat,
                default_pair@.path,
            ),
        decreases pairs.len() - j,
    {
        j = j + 1;
    }
    assert(skip_orphans(pairs.deep_view(), j as nat, default_pair@.path) == j);
    let path = clone_path(&default_pair.path);
    if j < pairs.len() && path_equal(&pairs[j].path, &default_pair.path) {
        (EmitEntry { path, value: EmitValue::Literal(pairs[j].value.clone()) }, j + 1)
    } else {
        (EmitEntry { path, value: EmitValue::FallbackRef(clone_path(&default_pair.path)) }, j)
    }
}

/// Merges the locale catalog `pairs` into the default catalog
/// `default_pairs`: one entry for each default path, in the default's
/// order, with the locale's own value where it has one and a reference to the
/// default's value where it has none. Locale entries whose path the default
/// does not hold are passed over. An empty default catalog is an error.
pub fn merge(default_pairs: &Vec<StringValuePathPair>, pairs: &Vec<StringValuePathPair>) -> (r:
    Result<Vec<EmitEntry>, CodegenError>)
    ensures
        default_pairs.len() == 0 <==> r is Err,
        r is Err ==> r == Err::<Vec<EmitEntry>, CodegenError>(CodegenError::MissingDefaultLocale),
        r matches Ok(v) ==> v.deep_view() == merged(default_pairs.deep_view(), pairs.deep_view()),
{
    if default_pairs.len() == 0 {
        return Err(CodegenError::MissingDefaultLocale);
    }
    let mut out: Vec<EmitEntry> = Vec::new();
    let mut cursor: usize = 0;
    let mut n: usize = 0;
    let ghost d = default_pairs.deep_view();
    let ghost l = pairs.deep_view();
    proof {
        lemma_deep_view(*default_pairs);
    }
    while n < default_pairs.len()
        invariant
            n <= default_pairs.len(),
            d == default_pairs.deep_view(),
            l == pairs.deep_view(),
            d.len() == default_pairs@.len(),
            forall|i: int| 0 <= i < default_pairs@.len() ==> #[trigger] d[i] == default_pairs@[i]@,
            cursor <= pairs.len(),
            cursor == cursor_before(d, l, n as nat),
            out.deep_view() == merged(d, l).take(n as int),
        decreases default_pairs.len() - n,
    {
        let ghost before = out;
        let (entry, next) = merge_step(pairs, cursor, &default_pairs[n]);
        out.push(entry);
        proof {
            lemma_deep_view_push(before, out, entry);
            assert(merged(d, l).take(n + 1) =~= merged(d, l).take(n as int).push(merged(d, l)[n as int]));
        }
        cursor = next;
        n = n + 1;
    }
    assert(merged(d, l).take(n as int) =~= merged(d, l));
    Ok(out)
}

/// The merge as a cursor: each call of `next` hands out the next position of
/// the merged sequence. There is no cursor over an empty default catalog.
pub struct LocaleStringWithDefaultIter {
    pairs: Vec<StringValuePathPair>,
    default_pairs: Vec<StringValuePathPair>,
    cursor: usize,
    position: usize,
}

impl LocaleStringWithDefaultIter {
    /// The locale catalog that is merged.
    pub closed spec fn locale_view(&self) -> Seq<PairView> {
        self.pairs.deep_view()
    }

    /// The default catalog that it is merged into.
    pub closed spec fn default_view(&self) -> Seq<PairView> {
        self.default_pairs.deep_view()
    }

    /// How many positions have been handed out.
    pub closed spec fn position(&self) -> nat {
        self.position as nat
    }

    /// The default catalog is not empty, and the cursors stand where the
    /// sweep has brought them.
    pub closed spec fn wf(&self) -> bool {
        &&& self.default_pairs.len() > 0
        &&& self.position <= self.default_pairs.len()
        &&& self.cursor <= self.pairs.len()
        &&& self.cursor == cursor_before(
            self.default_pairs.deep_view(),
            self.pairs.deep_view(),
            self.position as nat,
        )
    }

    /// A cursor at the start of the merge of `pairs` into `default_pairs`.
    /// An empty default catalog has no merge: it is `MissingDefaultLocale`.
    pub fn new(pairs: Vec<StringValuePathPair>, default_pairs: Vec<StringValuePathPair>) -> (r:
        Result<LocaleStringWithDefaultIter, CodegenError>)
        ensures
            default_pairs.len() == 0 <==> r is Err,
            r is Err ==> r == Err::<LocaleStringWithDefaultIter, CodegenError>(
                CodegenError::MissingDefaultLocale,
            ),
            r matches Ok(it) ==> {
                &&& it.wf()
                &&& it.position() == 0
                &&& it.locale_view() == pairs.deep_view()
                &&& it.default_view() == default_pairs.deep_view()
            },
    {
        if default_pairs.len() == 0 {
            return Err(CodegenError::MissingDefaultLocale);
        }
        Ok(LocaleStringWithDefaultIter { pairs, default_pairs, cursor: 0, position: 0 })
    }

    /// A cursor always stands over a default catalog that is not empty.
    pub proof fn lemma_default_is_not_empty(&self)
        requires
            self.wf(),
        ensures
            self.default_view().len() > 0,
            self.position() <= self.default_view().len(),
    {
        lemma_deep_view(self.default_pairs);
    }

    /// The next position of the merged sequence, or `None` once every default
    /// entry has been handled.
    pub fn next(&mut self) -> (r: Option<EmitEntry>)
        requires
            old(self).wf(),
        ensures
            final(self).wf(),
            final(self).locale_view() == old(self).locale_view(),
            final(self).default_view() == old(self).default_view(),
            old(self).position() < old(self).default_view().len() ==> {
                &&& r matches Some(e)
                &&& e.deep_view() == merged(old(self).default_view(), old(self).locale_view())[old(
                    self,
                ).position() as int]
                &&& final(self).position() == old(self).position() + 1
            },
            old(self).position() >= old(self).default_view().len() ==> {
                &&& r is None
                &&& final(self).position() == old(self).position()
            },
    {
        proof {
            lemma_deep_view(self.default_pairs);
        }
        if self.position >= self.default_pairs.len() {
            return None;
        }
        let (entry, next) = merge_step(&self.pairs, self.cursor, &self.default_pairs[self.position]);
        self.cursor = next;
        self.position = self.position + 1;
        Some(entry)
    }
}

/// The merged sequence has one entry for each default entry, with the same
/// path at the same place, whatever the two catalogs hold.
pub proof fn merged_follows_default(d: Seq<PairView>, l: Seq<PairView>)
    ensures
        merged(d, l).len() == d.len(),
        forall|i: int| 0 <= i < d.len() ==> (#[trigger] merged(d, l)[i]).path == d[i].path,
        merged(d, l).map_values(|e: EmitEntryView| e.path) == d.map_values(|p: PairView| p.path),
{
    assert(merged(d, l).map_values(|e: EmitEntryView| e.path) =~= d.map_values(
        |p: PairView| p.path,
    ));
}

/// Every position is a literal or a reference to the default at that very
/// path, and a literal is a value that the locale catalog holds for the path.
pub proof fn merged_values(d: Seq<PairView>, l: Seq<PairView>, i: int)
    requires
        0 <= i < d.len(),
    ensures
        match merged(d, l)[i].value {
            EmitValueView::Literal(v) => exists|j: int|
                0 <= j < l.len() && (#[trigger] l[j]).path == d[i].path && l[j].value == v,
            EmitValueView::FallbackRef(p) => p == d[i].path,
        },
{
    let c = cursor_before(d, l, i as nat);
    lemma_cursor_bounds(d, l, i as nat);
    lemma_skip_orphans(l, c, d[i].path);
    if has_own(l, c, d[i].path) {
        let j = skip_orphans(l, c, d[i].path) as int;
        assert(l[j].path == d[i].path && l[j].value == merged(d, l)[i].value->Literal_0);
    }
}

proof fn lemma_cursor_on_itself(d: Seq<PairView>, n: nat)
    requires
        n <= d.len(),
    ensures
        cursor_before(d, d, n) == n,
    decreases n,
{
    if n > 0 {
        lemma_cursor_on_itself(d, (n - 1) as nat);
        lemma_path_lt_irreflexive(d[n - 1].path);
    }
}

/// Merging a catalog with itself gives literals only: every position holds
/// the catalog's own value.
pub proof fn merged_with_itself(d: Seq<PairView>)
    ensures
        merged(d, d).len() == d.len(),
        forall|i: int| 0 <= i < d.len() ==> (#[trigger] merged(d, d)[i]).value
            == EmitValueView::Literal(d[i].value),
{
    assert forall|i: int| 0 <= i < d.len() implies (#[trigger] merged(d, d)[i]).value
        == EmitValueView::Literal(d[i].value) by {
        lemma_cursor_on_itself(d, i as nat);
        lemma_path_lt_irreflexive(d[i].path);
    }
}

/// A path that the default catalog does not hold stands nowhere in the merged
/// sequence, whether the locale catalog holds it or not.
pub proof fn orphan_paths_are_dropped(d: Seq<PairView>, l: Seq<PairView>, p: Seq<Seq<char>>)
    requires
        forall|i: int| 0 <= i < d.len() ==> (#[trigger] d[i]).path != p,
    ensures
        forall|i: int| 0 <= i < merged(d, l).len() ==> (#[trigger] merged(d, l)[i]).path != p,
{
    assert forall|i: int| 0 <= i < merged(d, l).len() implies (#[trigger] merged(d, l)[i]).path
        != p by {
        assert(d[i].path != p);
    }
}

/// The paths of the catalog ascend strictly: each sorts before every later
/// one, so none stands twice.
pub open spec fn strictly_sorted(c: Seq<PairView>) -> bool {
    paths_sorted(paths_of(c))
}

proof fn lemma_sorted_catalog(c: Seq<PairView>)
    requires
        strictly_sorted(c),
    ensures
        forall|i: int, j: int|
            #![trigger c[i], c[j]]
            0 <= i < j < c.len() ==> path_lt(c[i].path, c[j].path),
{
    let paths = paths_of(c);
    assert forall|i: int, j: int|
        #![trigger c[i], c[j]]
        0 <= i < j < c.len() implies path_lt(c[i].path, c[j].path) by {
        assert(path_lt(paths[i], paths[j]));
    }
}

/// Whether the catalog is sorted by path, with no path twice.
pub fn is_sorted(pairs: &Vec<StringValuePathPair>) -> (r: bool)
    ensures
        r == strictly_sorted(pairs.deep_view()),
{
    let ghost c = pairs.deep_view();
    let ghost paths = paths_of(c);
    proof {
        lemma_deep_view(*pairs);
        lemma_sorted_by_neighbours(paths);
    }
    let mut i: usize = 1;
    while i < pairs.len()
        invariant
            1 <= i,
            c == pairs.deep_view(),
            paths == paths_of(c),
            c.len() == pairs@.len(),
            forall|k: int| 0 <= k < pairs@.len() ==> #[trigger] c[k] == pairs@[k]@,
            forall|k: int| 0 <= k && k + 1 < i ==> path_lt(#[trigger] paths[k], paths[k + 1]),
        decreases pairs.len() - i,
    {
        if !path_less(&pairs[i - 1].path, &pairs[i].path) {
            assert(!path_lt(paths[i - 1], paths[i - 1 + 1]));
            return false;
        }
        i = i + 1;
    }
    true
}

proof fn lemma_cursor_behind(d: Seq<PairView>, l: Seq<PairView>, n: nat)
    requires
        strictly_sorted(d),
        n < d.len(),
    ensures
        cursor_before(d, l, n) <= l.len(),
        forall|j: int|
            0 <= j < cursor_before(d, l, n) ==> path_lt((#[trigger] l[j]).path, d[n as int].path),
    decreases n,
{
    if n > 0 {
        let before = cursor_before(d, l, (n - 1) as nat);
        let p = d[n - 1].path;
        lemma_sorted_catalog(d);
        lemma_cursor_behind(d, l, (n - 1) as nat);
        lemma_skip_orphans(l, before, p);
        assert(path_lt(d[n - 1].path, d[n as int].path));
        assert forall|j: int| 0 <= j < cursor_before(d, l, n) implies path_lt(
            (#[trigger] l[j]).path,
            d[n as int].path,
        ) by {
            if l[j].path != p {
                assert(path_lt(l[j].path, p));
                lemma_path_lt_transitive(l[j].path, p, d[n as int].path);
            }
        }
    }
}

/// Where both catalogs are sorted, a default path that the locale catalog
/// holds gets the locale's value for it.
pub proof fn merged_takes_own_value(d: Seq<PairView>, l: Seq<PairView>, i: int, j: int)
    requires
        strictly_sorted(d),
        strictly_sorted(l),
        0 <= i < d.len(),
        0 <= j < l.len(),
        l[j].path == d[i].path,
    ensures
        merged(d, l)[i].value == EmitValueView::Literal(l[j].value),
{
    let c = cursor_before(d, l, i as nat);
    let p = d[i].path;
    lemma_sorted_catalog(l);
    lemma_cursor_behind(d, l, i as nat);
    lemma_skip_orphans(l, c, p);
    lemma_path_lt_irreflexive(p);
    let found = skip_orphans(l, c, p) as int;
    if j < c {
        assert(path_lt(l[j].path, p));
    }
    if j < found {
        assert(path_lt(l[j].path, p));
    }
    if found < j {
        assert(path_lt(l[found].path, l[j].path));
    }
}

/// A default path that the locale catalog does not hold gets the reference
/// to the default, whatever the order of the catalogs.
pub proof fn merged_falls_back(d: Seq<PairView>, l: Seq<PairView>, i: int)
    requires
        0 <= i < d.len(),
        forall|j: int| 0 <= j < l.len() ==> (#[trigger] l[j]).path != d[i].path,
    ensures
        merged(d, l)[i].value == EmitValueView::FallbackRef(d[i].path),
{
    let c = cursor_before(d, l, i as nat);
    lemma_cursor_bounds(d, l, i as nat);
    lemma_skip_orphans(l, c, d[i].path);
    if has_own(l, c, d[i].path) {
        assert(l[skip_orphans(l, c, d[i].path) as int].path == d[i].path);
    }
}

} // verus!
