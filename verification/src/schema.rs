//! The schema compiler: nested record types from a flat list of key paths,
//! peeled off layer by layer.

use vstd::prelude::*;
use crate::catalog::CodegenError;
use crate::order::{lemma_conflict_between_neighbours, lemma_sorted_by_neighbours,
    neighbours_conflict};
use crate::path::{common_prefix, common_prefix_len, has_conflict, is_proper_prefix, path_less,
    path_lt, paths_sorted, proper_prefix};
use crate::views::{clone_prefix, lemma_deep_view, lemma_deep_view_push};

verus! {

/// Whether a field holds a string or another record.
#[derive(Clone, Copy, Debug, PartialEq, Eq, Structural)]
pub enum FieldKind {
    Leaf,
    Nested,
}

/// One field of a record type, named by a raw path segment. A nested field
/// refers to the record type whose prefix is the record's prefix extended by
/// the field's name.
#[derive(Clone, Debug, PartialEq, Eq)]
pub struct Field {
    pub name: String,
    pub kind: FieldKind,
}

/// A field in contracts.
pub struct FieldView {
    pub name: Seq<char>,
    pub kind: FieldKind,
}

impl View for Field {
    type V = FieldView;

    open spec fn view(&self) -> FieldView {
        FieldView { name: self.name@, kind: self.kind }
    }
}

impl DeepView for Field {
    type V = FieldView;

    open spec fn deep_view(&self) -> FieldView {
        self@
    }
}

/// One record type: the key prefix that it stands for, which names it, and its
/// fields in order. The root record has the empty prefix.
#[derive(Clone, Debug, PartialEq, Eq)]
pub struct RecordType {
    pub prefix: Vec<String>,
    pub fields: Vec<Field>,
}

/// A record type in contracts.
pub struct RecordView {
    pub prefix: Seq<Seq<char>>,
    pub fields: Seq<FieldView>,
}

impl View for RecordType {
    type V = RecordView;

    open spec fn view(&self) -> RecordView {
        RecordView { prefix: self.prefix.deep_view(), fields: self.fields.deep_view() }
    }
}

impl DeepView for RecordType {
    type V = RecordView;

    open spec fn deep_view(&self) -> RecordView {
        self@
    }
}

/// The record types of one catalog, the root first, then layer by layer.
#[derive(Clone, Debug, PartialEq, Eq)]
pub struct Schema {
    pub records: Vec<RecordType>,
}

impl View for Schema {
    type V = Seq<RecordView>;

    open spec fn view(&self) -> Seq<RecordView> {
        self.records.deep_view()
    }
}

/// Length of the longest path.
pub open spec fn max_len(paths: Seq<Seq<Seq<char>>>) -> nat
    decreases paths.len(),
{
    if paths.len() == 0 {
        0
    } else {
        let m = max_len(paths.drop_last());
        if paths.last().len() > m {
            paths.last().len()
        } else {
            m
        }
    }
}

/// No path is longer than the longest.
pub proof fn lemma_max_len(paths: Seq<Seq<Seq<char>>>, k: int)
    requires
        0 <= k < paths.len(),
    ensures
        paths[k].len() <= max_len(paths),
    decreases paths.len(),
{
    if k < paths.len() - 1 {
        lemma_max_len(paths.drop_last(), k);
    }
}

/// Index of the last of the first `n` paths that is longer than `layer`, or
/// -1 where there is none.
pub open spec fn last_deeper(paths: Seq<Seq<Seq<char>>>, layer: nat, n: nat) -> int
    decreases n,
{
    if n == 0 {
        -1
    } else if paths[n - 1].len() > layer {
        n - 1
    } else {
        last_deeper(paths, layer, (n - 1) as nat)
    }
}

/// The field that the path `p` gives to its record at `layer`.
pub open spec fn field_of(p: Seq<Seq<char>>, layer: nat) -> FieldView {
    FieldView {
        name: p[layer as int],
        kind: if p.len() == layer + 1 {
            FieldKind::Leaf
        } else {
            FieldKind::Nested
        },
    }
}

/// The record `r` with one more field.
pub open spec fn with_field(r: RecordView, f: FieldView) -> RecordView {
    RecordView { prefix: r.prefix, fields: r.fields.push(f) }
}

/// The record types that the first `n` paths give at `layer`. Paths no longer
/// than the layer are passed over. A path opens a record where its prefix
/// through the layer differs from that of the path before it, and adds a field
/// where its next segment is new.
pub open spec fn layer_records(paths: Seq<Seq<Seq<char>>>, layer: nat, n: nat) -> Seq<RecordView>
    decreases n,
{
    if n == 0 {
        Seq::empty()
    } else {
        let before = layer_records(paths, layer, (n - 1) as nat);
        let p = paths[n - 1];
        let j = last_deeper(paths, layer, (n - 1) as nat);
        if p.len() <= layer {
            before
        } else if j < 0 || common_prefix_len(paths[j], p) < layer {
            before.push(
                RecordView { prefix: p.take(layer as int), fields: seq![field_of(p, layer)] },
            )
        } else if common_prefix_len(paths[j], p) == layer && before.len() > 0 {
            before.update(before.len() - 1, with_field(before.last(), field_of(p, layer)))
        } else {
            before
        }
    }
}

/// The record types of the layers below `upto`.
pub open spec fn schema_layers(paths: Seq<Seq<Seq<char>>>, upto: nat) -> Seq<RecordView>
    decreases upto,
{
    if upto == 0 {
        Seq::empty()
    } else {
        schema_layers(paths, (upto - 1) as nat) + layer_records(
            paths,
            (upto - 1) as nat,
            paths.len(),
        )
    }
}

/// The root record of a catalog without paths.
pub open spec fn empty_root() -> RecordView {
    RecordView { prefix: Seq::empty(), fields: Seq::empty() }
}

/// The schema of a list of paths: the root record, then the records of each
/// further layer, as deep as the longest path.
pub open spec fn schema_of(paths: Seq<Seq<Seq<char>>>) -> Seq<RecordView> {
    if max_len(paths) == 0 {
        seq![empty_root()]
    } else {
        schema_layers(paths, max_len(paths))
    }
}

/// What compiling `paths` may return.
pub open spec fn compiles_to(
    paths: Seq<Seq<Seq<char>>>,
    r: Result<Seq<RecordView>, CodegenError>,
) -> bool {
    if has_conflict(paths) {
        r == Err::<Seq<RecordView>, CodegenError>(CodegenError::SchemaConflict)
    } else {
        r == Ok::<Seq<RecordView>, CodegenError>(schema_of(paths))
    }
}

/// The result of a compilation in contracts.
pub open spec fn result_view(r: Result<Schema, CodegenError>) -> Result<
    Seq<RecordView>,
    CodegenError,
> {
    match r {
        Ok(s) => Ok(s@),
        Err(e) => Err(e),
    }
}

/// Whether the paths are sorted, with no path twice.
pub fn is_sorted_paths(paths: &Vec<Vec<String>>) -> (r: bool)
    ensures
        r == paths_sorted(paths.deep_view()),
{
    let ghost pv = paths.deep_view();
    proof {
        lemma_deep_view(*paths);
        lemma_sorted_by_neighbours(pv);
    }
    let mut i: usize = 1;
    while i < paths.len()
        invariant
            1 <= i,
            pv == paths.deep_view(),
            pv.len() == paths@.len(),
            forall|k: int| 0 <= k < paths@.len() ==> #[trigger] pv[k] == paths@[k].deep_view(),
            forall|k: int| 0 <= k && k + 1 < i ==> path_lt(#[trigger] pv[k], pv[k + 1]),
        decreases paths.len() - i,
    {
        if !path_less(&paths[i - 1], &paths[i]) {
            assert(!path_lt(pv[i - 1], pv[i - 1 + 1]));
            return false;
        }
        i = i + 1;
    }
    true
}

/// Whether some path of sorted paths is a proper prefix of another: among
/// sorted paths it is enough to look at neighbours.
fn sorted_conflict(paths: &Vec<Vec<String>>) -> (r: bool)
    requires
        paths_sorted(paths.deep_view()),
    ensures
        r == has_conflict(paths.deep_view()),
{
    let ghost pv = paths.deep_view();
    proof {
        lemma_deep_view(*paths);
        lemma_conflict_between_neighbours(pv);
    }
    let mut i: usize = 1;
    while i < paths.len()
        invariant
            1 <= i,
            pv == paths.deep_view(),
            pv.len() == paths@.len(),
            has_conflict(pv) <==> neighbours_conflict(pv),
            forall|k: int| 0 <= k < paths@.len() ==> #[trigger] pv[k] == paths@[k].deep_view(),
            forall|k: int| 0 <= k && k + 1 < i ==> !is_proper_prefix(#[trigger] pv[k], pv[k + 1]),
        decreases paths.len() - i,
    {
        if proper_prefix(&paths[i - 1], &paths[i]) {
            assert(is_proper_prefix(pv[i - 1], pv[i - 1 + 1]));
            return true;
        }
        i = i + 1;
    }
    false
}

/// Whether some path is a proper prefix of another. Sorted paths are
/// decided in one pass; paths in any other order by comparing each with each.
pub fn find_conflict(paths: &Vec<Vec<String>>) -> (r: bool)
    ensures
        r == has_conflict(paths.deep_view()),
{
    if is_sorted_paths(paths) {
        sorted_conflict(paths)
    } else {
        any_conflict(paths)
    }
}

fn any_conflict(paths: &Vec<Vec<String>>) -> (r: bool)
    ensures
        r == has_conflict(paths.deep_view()),
{
    let ghost pv = paths.deep_view();
    proof {
        lemma_deep_view(*paths);
    }
    let mut i: usize = 0;
    while i < paths.len()
        invariant
            i <= paths.len(),
            pv == paths.deep_view(),
            pv.len() == paths@.len(),
            forall|k: int| 0 <= k < paths@.len() ==> #[trigger] pv[k] == paths@[k].deep_view(),
            forall|a: int, b: int|
                0 <= a < i && 0 <= b < pv.len() ==> !#[trigger] is_proper_prefix(pv[a], pv[b]),
        decreases paths.len() - i,
    {
        let mut j: usize = 0;
        while j < paths.len()
            invariant
                i < paths.len(),
                j <= paths.len(),
                pv == paths.deep_view(),
                pv.len() == paths@.len(),
                forall|k: int| 0 <= k < paths@.len() ==> #[trigger] pv[k] == paths@[k].deep_view(),
                forall|b: int| 0 <= b < j ==> !#[trigger] is_proper_prefix(pv[i as int], pv[b]),
            decreases paths.len() - j,
        {
            if proper_prefix(&paths[i], &paths[j]) {
                assert(is_proper_prefix(pv[i as int], pv[j as int]));
                return true;
            }
            j = j + 1;
        }
        i = i + 1;
    }
    false
}

/// Length of the longest path.
pub fn longest(paths: &Vec<Vec<String>>) -> (m: usize)
    ensures
        m == max_len(paths.deep_view()),
{
    let ghost pv = paths.deep_view();
    proof {
        lemma_deep_view(*paths);
    }
    let mut m: usize = 0;
    let mut i: usize = 0;
    while i < paths.len()
        invariant
            i <= paths.len(),
            pv == paths.deep_view(),
            pv.len() == paths@.len(),
            forall|k: int| 0 <= k < paths@.len() ==> #[trigger] pv[k] == paths@[k].deep_view(),
            m == max_len(pv.take(i as int)),
        decreases paths.len() - i,
    {
        proof {
            assert(pv.take(i + 1).drop_last() =~= pv.take(i as int));
            lemma_deep_view(paths@[i as int]);
        }
        if paths[i].len() > m {
            m = paths[i].len();
        }
        i = i + 1;
    }
    assert(pv.take(i as int) =~= pv);
    m
}

/// The record types of one layer.
fn compile_layer(paths: &Vec<Vec<String>>, layer: usize) -> (r: Vec<RecordType>)
    ensures
        r.deep_view() == layer_records(paths.deep_view(), layer as nat, paths.len() as nat),
{
    let ghost pv = paths.deep_view();
    proof {
        lemma_deep_view(*paths);
    }
    let mut records: Vec<RecordType> = Vec::new();
    let mut have_prev = false;
    let mut prev: usize = 0;
    let mut i: usize = 0;
    assert(records.deep_view() =~= layer_records(pv, layer as nat, 0));
    while i < paths.len()
        invariant
            i <= paths.len(),
            pv == paths.deep_view(),
            pv.len() == paths@.len(),
            forall|k: int| 0 <= k < paths@.len() ==> #[trigger] pv[k] == paths@[k].deep_view(),
            records.deep_view() == layer_records(pv, layer as nat, i as nat),
            have_prev ==> prev < i && prev == last_deeper(pv, layer as nat, i as nat),
            !have_prev ==> last_deeper(pv, layer as nat, i as nat) == -1,
        decreases paths.len() - i,
    {
        let p = &paths[i];
        proof {
            lemma_deep_view(*p);
        }
        if p.len() > layer {
            let k = if have_prev {
                common_prefix(&paths[prev], p)
            } else {
                0
            };
            let kind = if p.len() == layer + 1 {
                FieldKind::Leaf
            } else {
                FieldKind::Nested
            };
            let field = Field { name: p[layer].clone(), kind };
            assert(field.deep_view() == field_of(pv[i as int], layer as nat));
            let ghost before = records;
            if !have_prev || k < layer {
                let mut fields: Vec<Field> = Vec::new();
                fields.push(field);
                let record = RecordType { prefix: clone_prefix(p, layer), fields };
                assert(record.fields.deep_view() =~= seq![field_of(pv[i as int], layer as nat)]);
                records.push(record);
                proof {
                    lemma_deep_view_push(before, records, record);
                }
            } else if k == layer {
                match records.pop() {
                    Some(mut record) => {
                        let ghost shorter = records;
                        let ghost old_record = record;
                        record.fields.push(field);
                        proof {
                            lemma_deep_view_push(old_record.fields, record.fields, field);
                        }
                        records.push(record);
                        proof {
                            lemma_deep_view(before);
                            lemma_deep_view(shorter);
                            lemma_deep_view_push(shorter, records, record);
                            assert(records.deep_view() =~= before.deep_view().update(
                                before.deep_view().len() - 1,
                                with_field(before.deep_view().last(), field.deep_view()),
                            ));
                        }
                    },
                    None => {},
                }
            }
            have_prev = true;
            prev = i;
        }
        i = i + 1;
    }
    records
}

/// Compiles the key paths of a catalog into its schema. The root record comes
/// first and holds one field for each first segment; each further layer adds
/// one record for each run of paths that share the prefix through that layer,
/// with one field for each next segment, in the order in which the paths
/// stand. Where a path is a proper prefix of another the paths have no schema,
/// and the result is `SchemaConflict`.
pub fn compile_schema(paths: &Vec<Vec<String>>) -> (r: Result<Schema, CodegenError>)
    ensures
        compiles_to(paths.deep_view(), result_view(r)),
{
    if find_conflict(paths) {
        return Err(CodegenError::SchemaConflict);
    }
    let ghost pv = paths.deep_view();
    let depth = longest(paths);
    let mut records: Vec<RecordType> = Vec::new();
    if depth == 0 {
        let root = RecordType { prefix: Vec::new(), fields: Vec::new() };
        assert(root.deep_view().prefix =~= empty_root().prefix);
        assert(root.deep_view().fields =~= empty_root().fields);
        records.push(root);
        assert(records.deep_view() =~= seq![empty_root()]);
        return Ok(Schema { records });
    }
    let mut layer: usize = 0;
    assert(records.deep_view() =~= schema_layers(pv, 0));
    while layer < depth
        invariant
            layer <= depth,
            pv == paths.deep_view(),
            records.deep_view() == schema_layers(pv, layer as nat),
        decreases depth - layer,
    {
        let ghost before = records;
        let mut found = compile_layer(paths, layer);
        let ghost added = found;
        records.append(&mut found);
        proof {
            lemma_deep_view(before);
            lemma_deep_view(added);
            lemma_deep_view(records);
            assert(records.deep_view() =~= before.deep_view() + added.deep_view());
        }
        layer = layer + 1;
    }
    Ok(Schema { records })
}

/// Compiling is a function of the paths: two compilations of the same paths
/// give the same record types with the same fields in the same order, or the
/// same error.
pub proof fn compiling_is_deterministic(
    paths: Seq<Seq<Seq<char>>>,
    first: Result<Seq<RecordView>, CodegenError>,
    second: Result<Seq<RecordView>, CodegenError>,
)
    requires
        compiles_to(paths, first),
        compiles_to(paths, second),
    ensures
        first == second,
{
}

} // verus!
