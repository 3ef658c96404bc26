//! The generated text of a schema and of a locale's instance.

use vstd::prelude::*;
use vstd::string::StringExecFns;
use vstd::utf8::is_ascii_chars;
use crate::catalog::{CodegenError, EmitEntry, EmitEntryView, EmitValue, EmitValueView};
use crate::instance::{closes, instance_markers, markers_of, markers_upto, opens, previous_path,
    shared_depth, step_markers, Marker, MarkerView};
use crate::naming::{all_ascii, cased, cased_all, cased_segments, is_ascii_path, to_case,
    CaseStyle};
use crate::path::has_conflict;
use crate::schema::{compile_schema, field_of, layer_records, schema_layers, schema_of, with_field,
    max_len, FieldKind, FieldView, RecordType, RecordView, Schema};
use crate::text::{indent, join, joined, push_indent, push_record_name, record_name};
use crate::views::{clone_path, lemma_deep_view};

verus! {

/// The declaration of one field of the record for `prefix`: a string slice
/// for a leaf, the record type of the extended prefix for a nested field.
pub open spec fn field_text(prefix: Seq<Seq<char>>, f: FieldView) -> Seq<char> {
    "    pub "@ + cased(f.name, CaseStyle::Snake) + ": "@ + (match f.kind {
        FieldKind::Leaf => "&'static str"@,
        FieldKind::Nested => record_name(prefix.push(f.name)),
    }) + ",\n"@
}

/// The declarations of the first `n` fields.
pub open spec fn fields_text(prefix: Seq<Seq<char>>, fields: Seq<FieldView>, n: nat) -> Seq<char>
    decreases n,
{
    if n == 0 {
        Seq::empty()
    } else {
        fields_text(prefix, fields, (n - 1) as nat) + field_text(prefix, fields[n - 1])
    }
}

/// The declaration of one record type.
pub open spec fn record_text(r: RecordView) -> Seq<char> {
    "pub struct "@ + record_name(r.prefix) + " {\n"@ + fields_text(
        r.prefix,
        r.fields,
        r.fields.len(),
    ) + "}\n"@
}

/// The declarations of the first `n` record types, an empty line between
/// each two of them.
pub open spec fn records_text(records: Seq<RecordView>, n: nat) -> Seq<char>
    decreases n,
{
    if n == 0 {
        Seq::empty()
    } else if n == 1 {
        record_text(records[0])
    } else {
        records_text(records, (n - 1) as nat) + "\n"@ + record_text(records[n - 1])
    }
}

/// The text of a schema.
pub open spec fn schema_text(records: Seq<RecordView>) -> Seq<char> {
    records_text(records, records.len())
}

/// The prefix and the field names of the record are ASCII text.
pub open spec fn ascii_record(r: RecordView) -> bool {
    &&& all_ascii(r.prefix)
    &&& forall|j: int| 0 <= j < r.fields.len() ==> is_ascii_chars((#[trigger] r.fields[j]).name)
}

/// Every record is named in ASCII text.
pub open spec fn ascii_records(records: Seq<RecordView>) -> bool {
    forall|i: int| 0 <= i < records.len() ==> ascii_record(#[trigger] records[i])
}

/// Every segment of every path is ASCII text.
pub open spec fn ascii_paths(paths: Seq<Seq<Seq<char>>>) -> bool {
    forall|i: int| 0 <= i < paths.len() ==> all_ascii(#[trigger] paths[i])
}

fn push_field(out: &mut String, prefix: &Vec<String>, name: &String, kind: FieldKind)
    requires
        all_ascii(prefix.deep_view()),
        is_ascii_chars(name@),
    ensures
        final(out)@ == old(out)@ + field_text(
            prefix.deep_view(),
            FieldView { name: name@, kind: kind },
        ),
{
    let ghost start = out@;
    let snake = to_case(name.as_str(), CaseStyle::Snake);
    out.append("    pub ");
    out.append(snake.as_str());
    out.append(": ");
    match kind {
        FieldKind::Leaf => {
            out.append("&'static str");
        },
        FieldKind::Nested => {
            let mut full = clone_path(prefix);
            full.push(name.clone());
            proof {
                lemma_deep_view(full);
                lemma_deep_view(*prefix);
                assert(full.deep_view() =~= prefix.deep_view().push(name@));
                assert(full.deep_view().take(full.len() as int) =~= full.deep_view());
            }
            push_record_name(out, &full, full.len());
        },
    }
    out.append(",\n");
    assert(out@ =~= start + field_text(prefix.deep_view(), FieldView { name: name@, kind: kind }));
}

fn push_record(out: &mut String, record: &RecordType)
    requires
        ascii_record(record.deep_view()),
    ensures
        final(out)@ == old(out)@ + record_text(record.deep_view()),
{
    let ghost start = out@;
    let ghost rv = record.deep_view();
    proof {
        lemma_deep_view(record.prefix);
        lemma_deep_view(record.fields);
        assert(rv.prefix.take(record.prefix.len() as int) =~= rv.prefix);
    }
    out.append("pub struct ");
    push_record_name(out, &record.prefix, record.prefix.len());
    out.append(" {\n");
    let ghost head = out@;
    let mut j: usize = 0;
    assert(out@ =~= head + fields_text(rv.prefix, rv.fields, 0));
    while j < record.fields.len()
        invariant
            j <= record.fields.len(),
            rv == record.deep_view(),
            ascii_record(rv),
            rv.fields.len() == record.fields@.len(),
            forall|k: int|
                0 <= k < record.fields@.len() ==> #[trigger] rv.fields[k]
                    == record.fields@[k].deep_view(),
            out@ == head + fields_text(rv.prefix, rv.fields, j as nat),
        decreases record.fields.len() - j,
    {
        let field = &record.fields[j];
        assert(rv.fields[j as int] == field.deep_view());
        push_field(out, &record.prefix, &field.name, field.kind);
        j = j + 1;
        assert(out@ =~= head + fields_text(rv.prefix, rv.fields, j as nat));
    }
    out.append("}\n");
    assert(out@ =~= start + record_text(rv));
}

/// The text of a schema: one `pub struct` for each record type, in order.
pub fn render_schema(schema: &Schema) -> (r: String)
    requires
        ascii_records(schema@),
    ensures
        r@ == schema_text(schema@),
{
    let ghost sv = schema@;
    let mut out = String::new();
    let mut i: usize = 0;
    proof {
        lemma_deep_view(schema.records);
    }
    assert(out@ =~= records_text(sv, 0));
    while i < schema.records.len()
        invariant
            i <= schema.records.len(),
            sv == schema@,
            ascii_records(sv),
            sv.len() == schema.records@.len(),
            forall|k: int|
                0 <= k < schema.records@.len() ==> #[trigger] sv[k]
                    == schema.records@[k].deep_view(),
            out@ == records_text(sv, i as nat),
        decreases schema.records.len() - i,
    {
        if i > 0 {
            out.append("\n");
        }
        assert(ascii_record(sv[i as int]));
        push_record(&mut out, &schema.records[i]);
        i = i + 1;
        assert(out@ =~= records_text(sv, i as nat));
    }
    out
}

proof fn lemma_ascii_layer(paths: Seq<Seq<Seq<char>>>, layer: nat, n: nat)
    requires
        ascii_paths(paths),
        n <= paths.len(),
    ensures
        ascii_records(layer_records(paths, layer, n)),
    decreases n,
{
    if n > 0 {
        lemma_ascii_layer(paths, layer, (n - 1) as nat);
        let before = layer_records(paths, layer, (n - 1) as nat);
        let p = paths[n - 1];
        assert(all_ascii(p));
        if p.len() > layer {
            let f = field_of(p, layer);
            assert(is_ascii_chars(p[layer as int]));
            let fresh = RecordView { prefix: p.take(layer as int), fields: seq![f] };
            assert(ascii_record(fresh)) by {
                assert forall|i: int| 0 <= i < fresh.prefix.len() implies is_ascii_chars(
                    #[trigger] fresh.prefix[i],
                ) by {
                    assert(fresh.prefix[i] == p[i]);
                }
            }
            if before.len() > 0 {
                let grown = with_field(before.last(), f);
                assert(ascii_record(before.last()));
                assert(ascii_record(grown)) by {
                    assert forall|j: int| 0 <= j < grown.fields.len() implies is_ascii_chars(
                        (#[trigger] grown.fields[j]).name,
                    ) by {
                        if j < before.last().fields.len() {
                            assert(grown.fields[j] == before.last().fields[j]);
                        }
                    }
                }
            }
        }
    }
}

proof fn lemma_ascii_layers(paths: Seq<Seq<Seq<char>>>, upto: nat)
    requires
        ascii_paths(paths),
    ensures
        ascii_records(schema_layers(paths, upto)),
    decreases upto,
{
    if upto > 0 {
        lemma_ascii_layers(paths, (upto - 1) as nat);
        lemma_ascii_layer(paths, (upto - 1) as nat, paths.len());
    }
}

/// The schema of paths in ASCII text is named in ASCII text.
pub proof fn lemma_ascii_schema(paths: Seq<Seq<Seq<char>>>)
    requires
        ascii_paths(paths),
    ensures
        ascii_records(schema_of(paths)),
{
    lemma_ascii_layers(paths, max_len(paths));
}

/// Whether every segment of every path is ASCII text.
pub fn is_ascii_paths(paths: &Vec<Vec<String>>) -> (r: bool)
    ensures
        r == ascii_paths(paths.deep_view()),
{
    let ghost pv = paths.deep_view();
    proof {
        lemma_deep_view(*paths);
    }
    let mut i: usize = 0;
    while i < paths.len()
        invariant
            i <= paths.len(),
            pv == paths.deep_view(),
            pv.len() == paths@.len(),
            forall|k: int| 0 <= k < paths@.len() ==> #[trigger] pv[k] == paths@[k].deep_view(),
            forall|k: int| 0 <= k < i ==> all_ascii(#[trigger] pv[k]),
        decreases paths.len() - i,
    {
        if !is_ascii_path(&paths[i]) {
            assert(!all_ascii(pv[i as int]));
            return false;
        }
        i = i + 1;
    }
    true
}

/// The text of the schema of `paths`: the declarations of the record types
/// that the paths compile to, or `SchemaConflict` where a path is a proper
/// prefix of another.
pub fn generate_locales_strings_struct(paths: &Vec<Vec<String>>) -> (r: Result<
    String,
    CodegenError,
>)
    requires
        ascii_paths(paths.deep_view()),
    ensures
        has_conflict(paths.deep_view()) <==> r is Err,
        r is Err ==> r == Err::<String, CodegenError>(CodegenError::SchemaConflict),
        r matches Ok(text) ==> text@ == schema_text(schema_of(paths.deep_view())),
{
    match compile_schema(paths) {
        Ok(schema) => {
            proof {
                lemma_ascii_schema(paths.deep_view());
            }
            Ok(render_schema(&schema))
        },
        Err(e) => Err(e),
    }
}

/// What opens the raw string constant of a literal.
pub open spec fn raw_open() -> Seq<char> {
    "r################\""@
}

/// What closes the raw string constant of a literal.
pub open spec fn raw_close() -> Seq<char> {
    "\"################"@
}

/// The expression for a value: a raw string constant for a literal, the
/// field of the default instance at the same path for a reference.
pub open spec fn value_text(v: EmitValueView) -> Seq<char> {
    match v {
        EmitValueView::Literal(s) => raw_open() + s + raw_close(),
        EmitValueView::FallbackRef(p) => "STRINGS_DEFAULT."@ + joined(
            cased_all(p, CaseStyle::Snake),
            "."@,
        ),
    }
}

/// The line of one marker, indented by the length of its path.
pub open spec fn marker_text(m: MarkerView) -> Seq<char> {
    match m {
        MarkerView::Open(p) => indent(p.len()) + cased(p.last(), CaseStyle::Snake) + ": "@
            + record_name(p) + " {\n"@,
        MarkerView::Close(p) => indent(p.len()) + "},\n"@,
        MarkerView::Leaf(e) => indent(e.path.len()) + cased(e.path.last(), CaseStyle::Snake)
            + ": "@ + value_text(e.value) + ",\n"@,
    }
}

/// The lines of the first `n` markers.
pub open spec fn markers_text(ms: Seq<MarkerView>, n: nat) -> Seq<char>
    decreases n,
{
    if n == 0 {
        Seq::empty()
    } else {
        markers_text(ms, (n - 1) as nat) + marker_text(ms[n - 1])
    }
}

/// The text of the instance named `const_name` that holds `entries`.
pub open spec fn instance_text(const_name: Seq<char>, entries: Seq<EmitEntryView>) -> Seq<char> {
    "\nconst "@ + const_name + ": Strings = Strings {\n"@ + markers_text(
        markers_of(entries),
        markers_of(entries).len(),
    ) + "};\n"@
}

/// The marker names a field: its path is not empty, and what is converted to
/// an identifier is ASCII text.
pub open spec fn renderable_marker(m: MarkerView) -> bool {
    match m {
        MarkerView::Open(p) => p.len() > 0 && all_ascii(p),
        MarkerView::Close(p) => true,
        MarkerView::Leaf(e) => renderable_entry(e),
    }
}

/// The entry names a field: its path is not empty and is ASCII text, and so
/// is the path that it refers to, if it refers to one.
pub open spec fn renderable_entry(e: EmitEntryView) -> bool {
    &&& e.path.len() > 0
    &&& all_ascii(e.path)
    &&& e.value matches EmitValueView::FallbackRef(p) ==> all_ascii(p)
}

/// Every marker names a field.
pub open spec fn renderable_markers(ms: Seq<MarkerView>) -> bool {
    forall|j: int| 0 <= j < ms.len() ==> renderable_marker(#[trigger] ms[j])
}

/// Every entry names a field.
pub open spec fn renderable_entries(entries: Seq<EmitEntryView>) -> bool {
    forall|i: int| 0 <= i < entries.len() ==> renderable_entry(#[trigger] entries[i])
}

/// Whether every entry names a field: its path is not empty and is ASCII
/// text, and so is the path that it refers to, if it refers to one.
pub fn is_renderable(entries: &Vec<EmitEntry>) -> (r: bool)
    ensures
        r == renderable_entries(entries.deep_view()),
{
    let ghost ev = entries.deep_view();
    proof {
        lemma_deep_view(*entries);
    }
    let mut i: usize = 0;
    while i < entries.len()
        invariant
            i <= entries.len(),
            ev == entries.deep_view(),
            ev.len() == entries@.len(),
            forall|k: int| 0 <= k < entries@.len() ==> #[trigger] ev[k] == entries@[k].deep_view(),
            forall|k: int| 0 <= k < i ==> renderable_entry(#[trigger] ev[k]),
        decreases entries.len() - i,
    {
        let entry = &entries[i];
        proof {
            lemma_deep_view(entry.path);
        }
        let refers = match &entry.value {
            EmitValue::Literal(_) => true,
            EmitValue::FallbackRef(p) => is_ascii_path(p),
        };
        if entry.path.len() == 0 || !is_ascii_path(&entry.path) || !refers {
            assert(!renderable_entry(ev[i as int]));
            return false;
        }
        i = i + 1;
    }
    true
}

fn push_value(out: &mut String, value: &EmitValue)
    requires
        value@ matches EmitValueView::FallbackRef(p) ==> all_ascii(p),
    ensures
        final(out)@ == old(out)@ + value_text(value@),
{
    let ghost start = out@;
    match value {
        EmitValue::Literal(s) => {
            out.append("r################\"");
            out.append(s.as_str());
            out.append("\"################");
        },
        EmitValue::FallbackRef(p) => {
            let parts = cased_segments(p, p.len(), CaseStyle::Snake);
            let dotted = join(&parts, ".");
            proof {
                lemma_deep_view(*p);
                assert(p.deep_view().take(p.len() as int) =~= p.deep_view());
            }
            out.append("STRINGS_DEFAULT.");
            out.append(dotted.as_str());
        },
    }
    assert(out@ =~= start + value_text(value@));
}

fn push_marker(out: &mut String, marker: &Marker)
    requires
        renderable_marker(marker@),
    ensures
        final(out)@ == old(out)@ + marker_text(marker@),
{
    let ghost start = out@;
    match marker {
        Marker::Open(p) => {
            proof {
                lemma_deep_view(*p);
                assert(p.deep_view().take(p.len() as int) =~= p.deep_view());
                assert(is_ascii_chars(p.deep_view()[p.len() - 1]));
            }
            let key = to_case(p[p.len() - 1].as_str(), CaseStyle::Snake);
            push_indent(out, p.len());
            out.append(key.as_str());
            out.append(": ");
            push_record_name(out, p, p.len());
            out.append(" {\n");
        },
        Marker::Close(p) => {
            proof {
                lemma_deep_view(*p);
            }
            push_indent(out, p.len());
            out.append("},\n");
        },
        Marker::Leaf(e) => {
            proof {
                lemma_deep_view(e.path);
                assert(is_ascii_chars(e.path.deep_view()[e.path.len() - 1]));
            }
            let key = to_case(e.path[e.path.len() - 1].as_str(), CaseStyle::Snake);
            push_indent(out, e.path.len());
            out.append(key.as_str());
            out.append(": ");
            push_value(out, &e.value);
            out.append(",\n");
        },
    }
    assert(out@ =~= start + marker_text(marker@));
}

/// The lines of the markers, one for each.
pub fn render_markers(markers: &Vec<Marker>) -> (r: String)
    requires
        renderable_markers(markers.deep_view()),
    ensures
        r@ == markers_text(markers.deep_view(), markers.len() as nat),
{
    let ghost mv = markers.deep_view();
    let mut out = String::new();
    let mut i: usize = 0;
    proof {
        lemma_deep_view(*markers);
    }
    assert(out@ =~= markers_text(mv, 0));
    while i < markers.len()
        invariant
            i <= markers.len(),
            mv == markers.deep_view(),
            renderable_markers(mv),
            mv.len() == markers@.len(),
            forall|k: int| 0 <= k < markers@.len() ==> #[trigger] mv[k] == markers@[k].deep_view(),
            out@ == markers_text(mv, i as nat),
        decreases markers.len() - i,
    {
        assert(renderable_marker(mv[i as int]));
        push_marker(&mut out, &markers[i]);
        i = i + 1;
        assert(out@ =~= markers_text(mv, i as nat));
    }
    out
}

proof fn lemma_renderable_upto(entries: Seq<EmitEntryView>, n: nat)
    requires
        renderable_entries(entries),
        n <= entries.len(),
    ensures
        renderable_markers(markers_upto(entries, n)),
    decreases n,
{
    if n > 0 {
        lemma_renderable_upto(entries, (n - 1) as nat);
        let prev = previous_path(entries, (n - 1) as nat);
        let e = entries[n - 1];
        let k = shared_depth(prev, e.path);
        assert(renderable_entry(e));
        assert(renderable_markers(opens(e.path, k))) by {
            assert forall|j: int| 0 <= j < opens(e.path, k).len() implies renderable_marker(
                #[trigger] opens(e.path, k)[j],
            ) by {
                let p = e.path.take(k + j + 1);
                assert forall|i: int| 0 <= i < p.len() implies is_ascii_chars(#[trigger] p[i]) by {
                    assert(p[i] == e.path[i]);
                }
            }
        }
        assert(renderable_markers(closes(prev, k)));
        assert(renderable_markers(seq![MarkerView::Leaf(e)]));
        assert(renderable_markers(step_markers(prev, e)));
    }
}

/// The markers of entries that name their fields name their fields too.
pub proof fn lemma_renderable_markers(entries: Seq<EmitEntryView>)
    requires
        renderable_entries(entries),
    ensures
        renderable_markers(markers_of(entries)),
{
    lemma_renderable_upto(entries, entries.len());
    assert(renderable_markers(closes(previous_path(entries, entries.len()), 0)));
}

/// The text of one locale's instance: a constant named `const_name` whose
/// initialiser nests as the entries' paths do. Each group opens with its
/// field and record type and closes again, each entry assigns its field, and
/// every line is indented by its depth.
pub fn generate_locales_strings_instance(const_name: &str, entries: &Vec<EmitEntry>) -> (r: String)
    requires
        renderable_entries(entries.deep_view()),
    ensures
        r@ == instance_text(const_name@, entries.deep_view()),
{
    let markers = instance_markers(entries);
    proof {
        lemma_renderable_markers(entries.deep_view());
        lemma_deep_view(markers);
    }
    let body = render_markers(&markers);
    let mut out = String::new();
    out.append("\nconst ");
    out.append(const_name);
    out.append(": Strings = Strings {\n");
    out.append(body.as_str());
    out.append("};\n");
    assert(out@ =~= instance_text(const_name@, entries.deep_view()));
    out
}

} // verus!
