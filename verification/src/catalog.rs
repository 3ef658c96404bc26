//! Catalog entries, what a merge or an emission attaches to a path, and the
//! errors of generation.

use vstd::prelude::*;

verus! {

/// One entry of a locale's catalog: a key path and the raw value found there.
#[derive(Clone, Debug, PartialEq, Eq)]
pub struct StringValuePathPair {
    pub path: Vec<String>,
    pub value: String,
}

/// A catalog entry in contracts.
pub struct PairView {
    pub path: Seq<Seq<char>>,
    pub value: Seq<char>,
}

impl View for StringValuePathPair {
    type V = PairView;

    open spec fn view(&self) -> PairView {
        PairView { path: self.path.deep_view(), value: self.value@ }
    }
}

impl DeepView for StringValuePathPair {
    type V = PairView;

    open spec fn deep_view(&self) -> PairView {
        self@
    }
}

/// The paths of a catalog, in order.
pub open spec fn paths_of(pairs: Seq<PairView>) -> Seq<Seq<Seq<char>>> {
    Seq::new(pairs.len(), |i: int| pairs[i].path)
}

/// What stands at a path of one locale's instance.
#[derive(Clone, Debug, PartialEq, Eq)]
pub enum EmitValue {
    /// The locale's own text.
    Literal(String),
    /// A reference to the field of the default instance at the given path.
    FallbackRef(Vec<String>),
}

/// An emitted value in contracts.
pub enum EmitValueView {
    Literal(Seq<char>),
    FallbackRef(Seq<Seq<char>>),
}

impl View for EmitValue {
    type V = EmitValueView;

    open spec fn view(&self) -> EmitValueView {
        match self {
            EmitValue::Literal(s) => EmitValueView::Literal(s@),
            EmitValue::FallbackRef(p) => EmitValueView::FallbackRef(p.deep_view()),
        }
    }
}

impl DeepView for EmitValue {
    type V = EmitValueView;

    open spec fn deep_view(&self) -> EmitValueView {
        self@
    }
}

/// One position of a locale's instance: a path and what stands there.
#[derive(Clone, Debug, PartialEq, Eq)]
pub struct EmitEntry {
    pub path: Vec<String>,
    pub value: EmitValue,
}

/// An instance position in contracts.
pub struct EmitEntryView {
    pub path: Seq<Seq<char>>,
    pub value: EmitValueView,
}

impl View for EmitEntry {
    type V = EmitEntryView;

    open spec fn view(&self) -> EmitEntryView {
        EmitEntryView { path: self.path.deep_view(), value: self.value@ }
    }
}

impl DeepView for EmitEntry {
    type V = EmitEntryView;

    open spec fn deep_view(&self) -> EmitEntryView {
        self@
    }
}

/// The paths of the entries, in order.
pub open spec fn entry_paths(entries: Seq<EmitEntryView>) -> Seq<Seq<Seq<char>>> {
    Seq::new(entries.len(), |i: int| entries[i].path)
}

/// Why a generation stops. Each of them is fatal: nothing is retried and no
/// partial output is kept.
#[derive(Clone, Copy, Debug, PartialEq, Eq, Structural)]
pub enum CodegenError {
    /// No default catalog is available, or it is empty.
    MissingDefaultLocale,
    /// A key path is a leaf and also a prefix of another path.
    SchemaConflict,
    /// A locale is listed without a catalog.
    UnresolvedCatalog,
}

} // verus!
