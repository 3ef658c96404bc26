//! What the schema of a list of paths holds: a field for every path at every
//! layer, and no field that no path asks for; for sorted paths, nothing
//! twice, and every field in the order in which the paths first ask for it.

use vstd::prelude::*;
use crate::order::{lemma_char_order, lemma_lex_irreflexive, lemma_lex_transitive,
    lemma_path_between, lemma_path_lt_asymmetric};
use crate::path::{char_order, common_prefix_len, ends_common_prefix, has_conflict,
    is_proper_prefix, lemma_common_prefix_len, lemma_common_prefix_unique, lemma_shared_take,
    path_lt, paths_sorted, segment_lt};
use crate::schema::{field_of, last_deeper, layer_records, lemma_max_len, max_len, schema_layers,
    schema_of, with_field, FieldView, RecordView};

verus! {

/// Some record for `prefix` holds the field `f`.
pub open spec fn has_field(records: Seq<RecordView>, prefix: Seq<Seq<char>>, f: FieldView) -> bool {
    exists|i: int, j: int|
        0 <= i < records.len() && 0 <= j < records[i].fields.len() && records[i].prefix == prefix
            && #[trigger] records[i].fields[j] == f
}

/// Some path gives the record for `prefix` the field `f`.
pub open spec fn asked_for(paths: Seq<Seq<Seq<char>>>, prefix: Seq<Seq<char>>, f: FieldView) -> bool {
    exists|k: int|
        0 <= k < paths.len() && prefix.len() < (#[trigger] paths[k]).len() && paths[k].take(
            prefix.len() as int,
        ) == prefix && field_of(paths[k], prefix.len()) == f
}

/// Every field of every record is asked for by some path.
pub open spec fn all_asked_for(paths: Seq<Seq<Seq<char>>>, records: Seq<RecordView>) -> bool {
    forall|i: int, j: int|
        0 <= i < records.len() && 0 <= j < records[i].fields.len() ==> asked_for(
            paths,
            records[i].prefix,
            #[trigger] records[i].fields[j],
        )
}

proof fn lemma_last_deeper(paths: Seq<Seq<Seq<char>>>, layer: nat, n: nat)
    requires
        n <= paths.len(),
    ensures
        -1 <= last_deeper(paths, layer, n) < n,
        last_deeper(paths, layer, n) >= 0 ==> paths[last_deeper(paths, layer, n)].len() > layer,
    decreases n,
{
    if n > 0 {
        lemma_last_deeper(paths, layer, (n - 1) as nat);
    }
}

/// Two conflict-free paths that agree beyond `layer` give the same field there.
proof fn lemma_same_field(paths: Seq<Seq<Seq<char>>>, a: int, b: int, layer: nat)
    requires
        !has_conflict(paths),
        0 <= a < paths.len(),
        0 <= b < paths.len(),
        paths[a].len() > layer,
        paths[b].len() > layer,
        common_prefix_len(paths[a], paths[b]) > layer,
    ensures
        field_of(paths[a], layer) == field_of(paths[b], layer),
{
    let p = paths[a];
    let q = paths[b];
    lemma_common_prefix_len(p, q);
    assert(p[layer as int] == q[layer as int]);
    if p.len() == layer + 1 && q.len() > layer + 1 {
        assert(q.take(p.len() as int) =~= p);
        assert(is_proper_prefix(paths[a], paths[b]));
    }
    if q.len() == layer + 1 && p.len() > layer + 1 {
        assert(p.take(q.len() as int) =~= q);
        assert(is_proper_prefix(paths[b], paths[a]));
    }
}

proof fn lemma_has_field_stays_pushed(
    records: Seq<RecordView>,
    r: RecordView,
    prefix: Seq<Seq<char>>,
    f: FieldView,
)
    requires
        has_field(records, prefix, f),
    ensures
        has_field(records.push(r), prefix, f),
{
    let (i, j) = choose|i: int, j: int|
        0 <= i < records.len() && 0 <= j < records[i].fields.len() && records[i].prefix == prefix
            && #[trigger] records[i].fields[j] == f;
    assert(records.push(r)[i].fields[j] == f);
}

proof fn lemma_has_field_stays_grown(
    records: Seq<RecordView>,
    g: FieldView,
    prefix: Seq<Seq<char>>,
    f: FieldView,
)
    requires
        records.len() > 0,
        has_field(records, prefix, f),
    ensures
        has_field(
            records.update(records.len() - 1, with_field(records.last(), g)),
            prefix,
            f,
        ),
{
    let (i, j) = choose|i: int, j: int|
        0 <= i < records.len() && 0 <= j < records[i].fields.len() && records[i].prefix == prefix
            && #[trigger] records[i].fields[j] == f;
    let grown = records.update(records.len() - 1, with_field(records.last(), g));
    assert(grown[i].fields[j] == f);
}

/// The last record of a layer is that of the last path that reaches the
/// layer, and its last field is that path's.
proof fn lemma_layer_tail(paths: Seq<Seq<Seq<char>>>, layer: nat, n: nat)
    requires
        !has_conflict(paths),
        n <= paths.len(),
        last_deeper(paths, layer, n) >= 0,
    ensures
        layer_records(paths, layer, n).len() > 0,
        layer_records(paths, layer, n).last().prefix == paths[last_deeper(paths, layer, n)].take(
            layer as int,
        ),
        layer_records(paths, layer, n).last().fields.len() > 0,
        layer_records(paths, layer, n).last().fields.last() == field_of(
            paths[last_deeper(paths, layer, n)],
            layer,
        ),
    decreases n,
{
    let p = paths[n - 1];
    let j = last_deeper(paths, layer, (n - 1) as nat);
    lemma_last_deeper(paths, layer, (n - 1) as nat);
    if p.len() <= layer {
        lemma_layer_tail(paths, layer, (n - 1) as nat);
    } else if j < 0 || common_prefix_len(paths[j], p) < layer {
    } else {
        lemma_layer_tail(paths, layer, (n - 1) as nat);
        lemma_common_prefix_len(paths[j], p);
        assert(paths[j].take(layer as int) =~= p.take(layer as int));
        if common_prefix_len(paths[j], p) > layer {
            lemma_same_field(paths, j, n - 1, layer);
        }
    }
}

proof fn lemma_layer_complete(paths: Seq<Seq<Seq<char>>>, layer: nat, n: nat, k: int)
    requires
        !has_conflict(paths),
        n <= paths.len(),
        0 <= k < n,
        paths[k].len() > layer,
    ensures
        has_field(layer_records(paths, layer, n), paths[k].take(layer as int), field_of(paths[k], layer)),
    decreases n,
{
    let records = layer_records(paths, layer, n);
    if k == n - 1 {
        lemma_layer_tail(paths, layer, n);
        let i = records.len() - 1;
        let j = records[i].fields.len() - 1;
        assert(records[i].fields[j] == field_of(paths[k], layer));
    } else {
        lemma_layer_complete(paths, layer, (n - 1) as nat, k);
        let before = layer_records(paths, layer, (n - 1) as nat);
        let p = paths[n - 1];
        let j = last_deeper(paths, layer, (n - 1) as nat);
        let f = field_of(paths[k], layer);
        let prefix = paths[k].take(layer as int);
        if p.len() <= layer {
        } else if j < 0 || common_prefix_len(paths[j], p) < layer {
            lemma_has_field_stays_pushed(
                before,
                RecordView { prefix: p.take(layer as int), fields: seq![field_of(p, layer)] },
                prefix,
                f,
            );
        } else if common_prefix_len(paths[j], p) == layer && before.len() > 0 {
            lemma_has_field_stays_grown(before, field_of(p, layer), prefix, f);
        }
    }
}

proof fn lemma_layers_complete(paths: Seq<Seq<Seq<char>>>, upto: nat, k: int, layer: nat)
    requires
        !has_conflict(paths),
        0 <= k < paths.len(),
        layer < paths[k].len(),
        layer < upto,
    ensures
        has_field(schema_layers(paths, upto), paths[k].take(layer as int), field_of(paths[k], layer)),
    decreases upto,
{
    let below = schema_layers(paths, (upto - 1) as nat);
    let top = layer_records(paths, (upto - 1) as nat, paths.len());
    let prefix = paths[k].take(layer as int);
    let f = field_of(paths[k], layer);
    if layer == upto - 1 {
        lemma_layer_complete(paths, layer, paths.len(), k);
        let (i, j) = choose|i: int, j: int|
            0 <= i < top.len() && 0 <= j < top[i].fields.len() && top[i].prefix == prefix
                && #[trigger] top[i].fields[j] == f;
        assert((below + top)[below.len() + i].fields[j] == f);
    } else {
        lemma_layers_complete(paths, (upto - 1) as nat, k, layer);
        let (i, j) = choose|i: int, j: int|
            0 <= i < below.len() && 0 <= j < below[i].fields.len() && below[i].prefix == prefix
                && #[trigger] below[i].fields[j] == f;
        assert((below + top)[i].fields[j] == f);
    }
}

proof fn lemma_layers_sound(paths: Seq<Seq<Seq<char>>>, upto: nat)
    requires
        !has_conflict(paths),
    ensures
        all_asked_for(paths, schema_layers(paths, upto)),
    decreases upto,
{
    if upto > 0 {
        lemma_layers_sound(paths, (upto - 1) as nat);
        lemma_layer_origin(paths, (upto - 1) as nat, paths.len());
        assert(paths.take(paths.len() as int) =~= paths);
        let below = schema_layers(paths, (upto - 1) as nat);
        let top = layer_records(paths, (upto - 1) as nat, paths.len());
        let all = schema_layers(paths, upto);
        assert forall|i: int, m: int|
            0 <= i < all.len() && 0 <= m < all[i].fields.len() implies asked_for(
            paths,
            all[i].prefix,
            #[trigger] all[i].fields[m],
        ) by {
            if i < below.len() {
                assert(all[i].fields[m] == below[i].fields[m]);
            } else {
                assert(all[i].fields[m] == top[i - below.len()].fields[m]);
            }
        }
    }
}

/// The schema of conflict-free paths holds every path: at each layer of a
/// path, a record for the path's prefix through that layer holds the field of
/// the path's next segment, a leaf where the path ends there and a nested
/// field where it goes on.
pub proof fn schema_holds_every_path(paths: Seq<Seq<Seq<char>>>, k: int, layer: nat)
    requires
        !has_conflict(paths),
        0 <= k < paths.len(),
        layer < paths[k].len(),
    ensures
        has_field(schema_of(paths), paths[k].take(layer as int), field_of(paths[k], layer)),
{
    lemma_max_len(paths, k);
    lemma_layers_complete(paths, max_len(paths), k, layer);
}

/// The schema of conflict-free paths holds nothing else: every field of
/// every record is the field that some path gives to that record.
pub proof fn schema_holds_only_paths(paths: Seq<Seq<Seq<char>>>)
    requires
        !has_conflict(paths),
    ensures
        all_asked_for(paths, schema_of(paths)),
{
    lemma_layers_sound(paths, max_len(paths));
}

/// No two records stand for the same prefix.
pub open spec fn distinct_prefixes(records: Seq<RecordView>) -> bool {
    forall|i: int, j: int|
        #![trigger records[i], records[j]]
        0 <= i < j < records.len() ==> records[i].prefix != records[j].prefix
}

/// No record holds two fields of the same name.
pub open spec fn distinct_names(records: Seq<RecordView>) -> bool {
    forall|i: int, a: int, b: int|
        #![trigger records[i].fields[a], records[i].fields[b]]
        0 <= i < records.len() && 0 <= a < b < records[i].fields.len() ==> records[i].fields[a].name
            != records[i].fields[b].name
}

/// Every record stands for a prefix of `len` segments and has a field.
pub open spec fn records_of_layer(records: Seq<RecordView>, len: nat) -> bool {
    forall|i: int|
        0 <= i < records.len() ==> (#[trigger] records[i]).prefix.len() == len
            && records[i].fields.len() > 0
}

proof fn lemma_last_deeper_max(paths: Seq<Seq<Seq<char>>>, layer: nat, n: nat, c: int)
    requires
        n <= paths.len(),
        0 <= c < n,
        paths[c].len() > layer,
    ensures
        last_deeper(paths, layer, n) >= c,
    decreases n,
{
    if c < n - 1 {
        lemma_last_deeper_max(paths, layer, (n - 1) as nat, c);
    }
}

/// Every field of a layer comes from one of the paths seen so far, and every
/// record of the layer has a field.
proof fn lemma_layer_origin(paths: Seq<Seq<Seq<char>>>, layer: nat, n: nat)
    requires
        !has_conflict(paths),
        n <= paths.len(),
    ensures
        all_asked_for(paths.take(n as int), layer_records(paths, layer, n)),
        records_of_layer(layer_records(paths, layer, n), layer),
    decreases n,
{
    if n > 0 {
        lemma_layer_origin(paths, layer, (n - 1) as nat);
        let before = layer_records(paths, layer, (n - 1) as nat);
        let after = layer_records(paths, layer, n);
        let seen = paths.take(n as int);
        let earlier = paths.take(n - 1);
        let p = paths[n - 1];
        let j = last_deeper(paths, layer, (n - 1) as nat);
        lemma_last_deeper(paths, layer, (n - 1) as nat);
        assert forall|prefix: Seq<Seq<char>>, f: FieldView|
            asked_for(earlier, prefix, f) implies asked_for(seen, prefix, f) by {
            let k = choose|k: int|
                0 <= k < earlier.len() && prefix.len() < (#[trigger] earlier[k]).len()
                    && earlier[k].take(prefix.len() as int) == prefix && field_of(
                    earlier[k],
                    prefix.len(),
                ) == f;
            assert(seen[k] == earlier[k]);
        }
        if p.len() > layer {
            let f = field_of(p, layer);
            assert(asked_for(seen, p.take(layer as int), f)) by {
                assert(seen[n - 1] == p);
            }
            if j < 0 || common_prefix_len(paths[j], p) < layer {
                assert forall|i: int, m: int|
                    0 <= i < after.len() && 0 <= m < after[i].fields.len() implies asked_for(
                    seen,
                    after[i].prefix,
                    #[trigger] after[i].fields[m],
                ) by {
                    if i < before.len() {
                        assert(after[i].fields[m] == before[i].fields[m]);
                    }
                }
            } else if common_prefix_len(paths[j], p) == layer && before.len() > 0 {
                lemma_layer_tail(paths, layer, (n - 1) as nat);
                lemma_common_prefix_len(paths[j], p);
                assert(paths[j].take(layer as int) =~= p.take(layer as int));
                assert forall|i: int, m: int|
                    0 <= i < after.len() && 0 <= m < after[i].fields.len() implies asked_for(
                    seen,
                    after[i].prefix,
                    #[trigger] after[i].fields[m],
                ) by {
                    if i < before.len() - 1 {
                        assert(after[i].fields[m] == before[i].fields[m]);
                    } else if m < before[i].fields.len() {
                        assert(after[i].fields[m] == before[i].fields[m]);
                    }
                }
            }
        } else {
            assert forall|i: int, m: int|
                0 <= i < after.len() && 0 <= m < after[i].fields.len() implies asked_for(
                seen,
                after[i].prefix,
                #[trigger] after[i].fields[m],
            ) by {
                assert(asked_for(earlier, before[i].prefix, before[i].fields[m]));
            }
        }
    }
}

/// A path that asks for a field of a prefix shares the prefix, and beyond it
/// the field's name, with any path that does the same.
proof fn lemma_origin_is_behind(
    paths: Seq<Seq<Seq<char>>>,
    layer: nat,
    n: nat,
    prefix: Seq<Seq<char>>,
    f: FieldView,
) -> (c: int)
    requires
        paths_sorted(paths),
        1 <= n <= paths.len(),
        paths[n - 1].len() > layer,
        prefix.len() == layer,
        asked_for(paths.take(n - 1), prefix, f),
        paths[n - 1].take(layer as int) == prefix,
    ensures
        0 <= c <= last_deeper(paths, layer, (n - 1) as nat),
        paths[c].len() > layer,
        paths[c].take(layer as int) == prefix,
        paths[c][layer as int] == f.name,
        common_prefix_len(paths[last_deeper(paths, layer, (n - 1) as nat)], paths[n - 1]) >= layer,
        f.name == paths[n - 1][layer as int] ==> common_prefix_len(
            paths[last_deeper(paths, layer, (n - 1) as nat)],
            paths[n - 1],
        ) > layer,
{
    let earlier = paths.take(n - 1);
    let p = paths[n - 1];
    let c = choose|k: int|
        0 <= k < earlier.len() && prefix.len() < (#[trigger] earlier[k]).len() && earlier[k].take(
            prefix.len() as int,
        ) == prefix && field_of(earlier[k], prefix.len()) == f;
    assert(earlier[c] == paths[c]);
    let j = last_deeper(paths, layer, (n - 1) as nat);
    lemma_last_deeper_max(paths, layer, (n - 1) as nat, c);
    lemma_last_deeper(paths, layer, (n - 1) as nat);
    lemma_shared_take(paths[c], p, layer as int);
    assert(path_lt(paths[j], paths[n - 1]));
    if c < j {
        assert(path_lt(paths[c], paths[j]));
        lemma_path_between(paths[c], paths[j], p, layer);
    }
    if f.name == p[layer as int] {
        assert(paths[c].take(layer as int + 1) =~= p.take(layer as int + 1)) by {
            assert forall|x: int| 0 <= x < layer + 1 implies paths[c][x] == p[x] by {
                if x < layer {
                    assert(paths[c].take(layer as int)[x] == p.take(layer as int)[x]);
                }
            }
        }
        lemma_shared_take(paths[c], p, layer as int + 1);
        if c < j {
            lemma_path_between(paths[c], paths[j], p, layer + 1);
        }
    }
    c
}

proof fn lemma_layer_unambiguous(paths: Seq<Seq<Seq<char>>>, layer: nat, n: nat)
    requires
        paths_sorted(paths),
        !has_conflict(paths),
        n <= paths.len(),
    ensures
        distinct_prefixes(layer_records(paths, layer, n)),
        distinct_names(layer_records(paths, layer, n)),
    decreases n,
{
    if n > 0 {
        lemma_layer_unambiguous(paths, layer, (n - 1) as nat);
        lemma_layer_origin(paths, layer, (n - 1) as nat);
        let before = layer_records(paths, layer, (n - 1) as nat);
        let after = layer_records(paths, layer, n);
        let p = paths[n - 1];
        let j = last_deeper(paths, layer, (n - 1) as nat);
        lemma_last_deeper(paths, layer, (n - 1) as nat);
        if p.len() <= layer {
        } else if j < 0 || common_prefix_len(paths[j], p) < layer {
            assert forall|i: int, k: int|
                #![trigger after[i], after[k]]
                0 <= i < k < after.len() implies after[i].prefix != after[k].prefix by {
                if k == before.len() {
                    assert(after[i] == before[i]);
                    if before[i].prefix == p.take(layer as int) {
                        assert(asked_for(paths.take(n - 1), before[i].prefix, before[i].fields[0]));
                        lemma_origin_is_behind(paths, layer, n, before[i].prefix, before[i].fields[0]);
                    }
                } else {
                    assert(after[i] == before[i] && after[k] == before[k]);
                }
            }
            assert forall|i: int, a: int, b: int|
                #![trigger after[i].fields[a], after[i].fields[b]]
                0 <= i < after.len() && 0 <= a < b < after[i].fields.len() implies after[i].fields[a].name
                != after[i].fields[b].name by {
                assert(after[i] == before[i]);
                assert(before[i].fields[a].name != before[i].fields[b].name);
            }
        } else if common_prefix_len(paths[j], p) == layer && before.len() > 0 {
            lemma_layer_tail(paths, layer, (n - 1) as nat);
            lemma_common_prefix_len(paths[j], p);
            assert(paths[j].take(layer as int) =~= p.take(layer as int));
            let last = before.len() - 1;
            assert forall|i: int, k: int|
                #![trigger after[i], after[k]]
                0 <= i < k < after.len() implies after[i].prefix != after[k].prefix by {
                assert(after[i].prefix == before[i].prefix);
                assert(after[k].prefix == before[k].prefix);
            }
            assert forall|i: int, a: int, b: int|
                #![trigger after[i].fields[a], after[i].fields[b]]
                0 <= i < after.len() && 0 <= a < b < after[i].fields.len() implies after[i].fields[a].name
                != after[i].fields[b].name by {
                if i < last {
                    assert(after[i] == before[i]);
                    assert(before[i].fields[a].name != before[i].fields[b].name);
                } else if b < before[last].fields.len() {
                    assert(after[i].fields[a] == before[last].fields[a]);
                    assert(after[i].fields[b] == before[last].fields[b]);
                    assert(before[last].fields[a].name != before[last].fields[b].name);
                } else {
                    assert(after[i].fields[a] == before[last].fields[a]);
                    assert(after[i].fields[b] == field_of(p, layer));
                    assert(asked_for(paths.take(n - 1), before[last].prefix, before[last].fields[a]));
                    lemma_origin_is_behind(
                        paths,
                        layer,
                        n,
                        before[last].prefix,
                        before[last].fields[a],
                    );
                }
            }
        }
    }
}

proof fn lemma_layers_unambiguous(paths: Seq<Seq<Seq<char>>>, upto: nat)
    requires
        paths_sorted(paths),
        !has_conflict(paths),
    ensures
        distinct_prefixes(schema_layers(paths, upto)),
        distinct_names(schema_layers(paths, upto)),
        forall|i: int|
            0 <= i < schema_layers(paths, upto).len() ==> (#[trigger] schema_layers(
                paths,
                upto,
            )[i]).prefix.len() < upto,
    decreases upto,
{
    if upto > 0 {
        lemma_layers_unambiguous(paths, (upto - 1) as nat);
        lemma_layer_unambiguous(paths, (upto - 1) as nat, paths.len());
        lemma_layer_origin(paths, (upto - 1) as nat, paths.len());
        let below = schema_layers(paths, (upto - 1) as nat);
        let top = layer_records(paths, (upto - 1) as nat, paths.len());
        let all = schema_layers(paths, upto);
        assert forall|i: int| 0 <= i < all.len() implies (#[trigger] all[i]).prefix.len() < upto by {
            if i < below.len() {
                assert(all[i] == below[i]);
            } else {
                assert(all[i] == top[i - below.len()]);
            }
        }
        assert forall|i: int, k: int|
            #![trigger all[i], all[k]]
            0 <= i < k < all.len() implies all[i].prefix != all[k].prefix by {
            if k < below.len() {
                assert(all[i] == below[i] && all[k] == below[k]);
            } else if i < below.len() {
                assert(all[i] == below[i] && all[k] == top[k - below.len()]);
            } else {
                assert(all[i] == top[i - below.len()] && all[k] == top[k - below.len()]);
            }
        }
        assert forall|i: int, a: int, b: int|
            #![trigger all[i].fields[a], all[i].fields[b]]
            0 <= i < all.len() && 0 <= a < b < all[i].fields.len() implies all[i].fields[a].name
            != all[i].fields[b].name by {
            if i < below.len() {
                assert(all[i] == below[i]);
                assert(below[i].fields[a].name != below[i].fields[b].name);
            } else {
                let t = i - below.len();
                assert(all[i] == top[t]);
                assert(top[t].fields[a].name != top[t].fields[b].name);
            }
        }
    }
}

/// The schema of sorted, conflict-free paths declares nothing twice: no two
/// of its records stand for the same prefix, and no record holds two fields
/// of the same name.
pub proof fn sorted_schema_is_unambiguous(paths: Seq<Seq<Seq<char>>>)
    requires
        paths_sorted(paths),
        !has_conflict(paths),
    ensures
        distinct_prefixes(schema_of(paths)),
        distinct_names(schema_of(paths)),
{
    lemma_layers_unambiguous(paths, max_len(paths));
}

proof fn lemma_longest_is_deeper(paths: Seq<Seq<Seq<char>>>, layer: nat)
    requires
        max_len(paths) > layer,
    ensures
        last_deeper(paths, layer, paths.len()) >= 0,
    decreases paths.len(),
{
    if paths.len() > 0 && paths.last().len() <= layer {
        let shorter = paths.drop_last();
        lemma_longest_is_deeper(shorter, layer);
        let k = last_deeper(shorter, layer, shorter.len());
        lemma_last_deeper(shorter, layer, shorter.len());
        assert(paths[k] == shorter[k]);
        lemma_last_deeper_max(paths, layer, paths.len(), k);
    }
}

proof fn lemma_root_layer(paths: Seq<Seq<Seq<char>>>, n: nat)
    requires
        n <= paths.len(),
    ensures
        layer_records(paths, 0, n).len() == if last_deeper(paths, 0, n) >= 0 {
            1int
        } else {
            0int
        },
    decreases n,
{
    if n > 0 {
        lemma_root_layer(paths, (n - 1) as nat);
    }
}

proof fn lemma_root_first(paths: Seq<Seq<Seq<char>>>, upto: nat)
    requires
        !has_conflict(paths),
        max_len(paths) > 0,
        upto >= 1,
    ensures
        schema_layers(paths, upto).len() >= 1,
        schema_layers(paths, upto)[0].prefix.len() == 0,
        forall|i: int|
            1 <= i < schema_layers(paths, upto).len() ==> (#[trigger] schema_layers(
                paths,
                upto,
            )[i]).prefix.len() > 0,
    decreases upto,
{
    let below = schema_layers(paths, (upto - 1) as nat);
    let top = layer_records(paths, (upto - 1) as nat, paths.len());
    let all = schema_layers(paths, upto);
    lemma_layer_origin(paths, (upto - 1) as nat, paths.len());
    if upto == 1 {
        lemma_longest_is_deeper(paths, 0);
        lemma_root_layer(paths, paths.len());
        assert(below =~= Seq::empty());
        assert(all =~= top);
    } else {
        lemma_root_first(paths, (upto - 1) as nat);
        assert(all[0] == below[0]);
        assert forall|i: int| 1 <= i < all.len() implies (#[trigger] all[i]).prefix.len() > 0 by {
            if i < below.len() {
                assert(all[i] == below[i]);
            } else {
                assert(all[i] == top[i - below.len()]);
            }
        }
    }
}

/// The schema of conflict-free paths is rooted: its first record is the root,
/// with the empty prefix, and every other record stands for a prefix of at
/// least one segment.
pub proof fn schema_starts_with_root(paths: Seq<Seq<Seq<char>>>)
    requires
        !has_conflict(paths),
    ensures
        schema_of(paths).len() >= 1,
        schema_of(paths)[0].prefix.len() == 0,
        forall|i: int|
            1 <= i < schema_of(paths).len() ==> (#[trigger] schema_of(paths)[i]).prefix.len() > 0,
{
    if max_len(paths) > 0 {
        lemma_root_first(paths, max_len(paths));
    }
}

/// The path `p` asks the record for `prefix` for the field `f`: it goes on
/// beyond the prefix, and `f` is the field of its next segment.
pub open spec fn asks_for(p: Seq<Seq<char>>, prefix: Seq<Seq<char>>, f: FieldView) -> bool {
    &&& prefix.len() < p.len()
    &&& p.take(prefix.len() as int) == prefix
    &&& field_of(p, prefix.len()) == f
}

/// In every record each field's name sorts before the names of the fields
/// after it.
pub open spec fn names_ascend(records: Seq<RecordView>) -> bool {
    forall|i: int, a: int, b: int|
        #![trigger records[i].fields[a], records[i].fields[b]]
        0 <= i < records.len() && 0 <= a < b < records[i].fields.len() ==> segment_lt(
            records[i].fields[a].name,
            records[i].fields[b].name,
        )
}

proof fn lemma_layer_ascends(paths: Seq<Seq<Seq<char>>>, layer: nat, n: nat)
    requires
        paths_sorted(paths),
        !has_conflict(paths),
        n <= paths.len(),
    ensures
        names_ascend(layer_records(paths, layer, n)),
    decreases n,
{
    if n > 0 {
        lemma_layer_ascends(paths, layer, (n - 1) as nat);
        let before = layer_records(paths, layer, (n - 1) as nat);
        let after = layer_records(paths, layer, n);
        let p = paths[n - 1];
        let j = last_deeper(paths, layer, (n - 1) as nat);
        lemma_last_deeper(paths, layer, (n - 1) as nat);
        if p.len() <= layer {
        } else if j < 0 || common_prefix_len(paths[j], p) < layer {
            assert forall|i: int, a: int, b: int|
                #![trigger after[i].fields[a], after[i].fields[b]]
                0 <= i < after.len() && 0 <= a < b < after[i].fields.len() implies segment_lt(
                after[i].fields[a].name,
                after[i].fields[b].name,
            ) by {
                assert(after[i] == before[i]);
                assert(segment_lt(before[i].fields[a].name, before[i].fields[b].name));
            }
        } else if common_prefix_len(paths[j], p) == layer && before.len() > 0 {
            lemma_layer_tail(paths, layer, (n - 1) as nat);
            lemma_common_prefix_len(paths[j], p);
            lemma_char_order();
            let last = before.len() - 1;
            let end = before[last].fields.len() - 1;
            assert(path_lt(paths[j], paths[n - 1]));
            assert(segment_lt(before[last].fields[end].name, p[layer as int]));
            assert forall|i: int, a: int, b: int|
                #![trigger after[i].fields[a], after[i].fields[b]]
                0 <= i < after.len() && 0 <= a < b < after[i].fields.len() implies segment_lt(
                after[i].fields[a].name,
                after[i].fields[b].name,
            ) by {
                if i < last {
                    assert(after[i] == before[i]);
                    assert(segment_lt(before[i].fields[a].name, before[i].fields[b].name));
                } else if b <= end {
                    assert(after[i].fields[a] == before[last].fields[a]);
                    assert(after[i].fields[b] == before[last].fields[b]);
                    assert(segment_lt(before[last].fields[a].name, before[last].fields[b].name));
                } else {
                    assert(after[i].fields[a] == before[last].fields[a]);
                    assert(after[i].fields[b] == field_of(p, layer));
                    if a < end {
                        assert(segment_lt(
                            before[last].fields[a].name,
                            before[last].fields[end].name,
                        ));
                        lemma_lex_transitive(
                            before[last].fields[a].name,
                            before[last].fields[end].name,
                            p[layer as int],
                            char_order(),
                        );
                    }
                }
            }
        }
    }
}

proof fn lemma_layers_ascend(paths: Seq<Seq<Seq<char>>>, upto: nat)
    requires
        paths_sorted(paths),
        !has_conflict(paths),
    ensures
        names_ascend(schema_layers(paths, upto)),
    decreases upto,
{
    if upto > 0 {
        lemma_layers_ascend(paths, (upto - 1) as nat);
        lemma_layer_ascends(paths, (upto - 1) as nat, paths.len());
        let below = schema_layers(paths, (upto - 1) as nat);
        let top = layer_records(paths, (upto - 1) as nat, paths.len());
        let all = schema_layers(paths, upto);
        assert forall|i: int, a: int, b: int|
            #![trigger all[i].fields[a], all[i].fields[b]]
            0 <= i < all.len() && 0 <= a < b < all[i].fields.len() implies segment_lt(
            all[i].fields[a].name,
            all[i].fields[b].name,
        ) by {
            if i < below.len() {
                assert(all[i] == below[i]);
                assert(segment_lt(below[i].fields[a].name, below[i].fields[b].name));
            } else {
                let t = i - below.len();
                assert(all[i] == top[t]);
                assert(segment_lt(top[t].fields[a].name, top[t].fields[b].name));
            }
        }
    }
}

/// In the schema of sorted, conflict-free paths the fields of every record
/// stand in the order of their names, which is the order of the paths.
pub proof fn sorted_fields_ascend(paths: Seq<Seq<Seq<char>>>)
    requires
        paths_sorted(paths),
        !has_conflict(paths),
    ensures
        names_ascend(schema_of(paths)),
{
    lemma_layers_ascend(paths, max_len(paths));
}

/// In the schema of sorted, conflict-free paths the fields of a record stand
/// in the order of first appearance: every path that asks for a field stands
/// before every path that asks for a later field of the same record, and so
/// does the first of them.
pub proof fn fields_follow_first_appearance(
    paths: Seq<Seq<Seq<char>>>,
    i: int,
    a: int,
    b: int,
    first: int,
    second: int,
)
    requires
        paths_sorted(paths),
        !has_conflict(paths),
        0 <= i < schema_of(paths).len(),
        0 <= a < b < schema_of(paths)[i].fields.len(),
        0 <= first < paths.len(),
        0 <= second < paths.len(),
        asks_for(paths[first], schema_of(paths)[i].prefix, schema_of(paths)[i].fields[a]),
        asks_for(paths[second], schema_of(paths)[i].prefix, schema_of(paths)[i].fields[b]),
    ensures
        first < second,
{
    let record = schema_of(paths)[i];
    let p = paths[first];
    let q = paths[second];
    let layer = record.prefix.len() as int;
    sorted_fields_ascend(paths);
    assert(segment_lt(record.fields[a].name, record.fields[b].name));
    lemma_lex_irreflexive(record.fields[a].name, char_order());
    assert(ends_common_prefix(p, q, layer)) by {
        assert forall|x: int| 0 <= x < layer implies p[x] == q[x] by {
            assert(p.take(layer)[x] == p[x]);
            assert(q.take(layer)[x] == q[x]);
        }
    }
    lemma_common_prefix_unique(p, q, layer);
    assert(path_lt(p, q));
    if second < first {
        assert(path_lt(paths[second], paths[first]));
        lemma_path_lt_asymmetric(p, q);
    }
}

/// Some path asks the record for `prefix` for the field `f` before some path
/// asks it for the field `g`.
pub open spec fn asked_before(
    paths: Seq<Seq<Seq<char>>>,
    prefix: Seq<Seq<char>>,
    f: FieldView,
    g: FieldView,
) -> bool {
    exists|first: int, second: int|
        #![trigger paths[first], paths[second]]
        0 <= first < second < paths.len() && asks_for(paths[first], prefix, f) && asks_for(
            paths[second],
            prefix,
            g,
        )
}

/// For any two fields of a record, some path asks for the earlier field
/// before some path asks for the later one.
pub open spec fn asked_in_turn(paths: Seq<Seq<Seq<char>>>, records: Seq<RecordView>) -> bool {
    forall|i: int, a: int, b: int|
        #![trigger records[i].fields[a], records[i].fields[b]]
        0 <= i < records.len() && 0 <= a < b < records[i].fields.len() ==> asked_before(
            paths,
            records[i].prefix,
            records[i].fields[a],
            records[i].fields[b],
        )
}

proof fn lemma_turn_stays(
    paths: Seq<Seq<Seq<char>>>,
    n: nat,
    prefix: Seq<Seq<char>>,
    f: FieldView,
    g: FieldView,
)
    requires
        1 <= n <= paths.len(),
        asked_before(paths.take(n - 1), prefix, f, g),
    ensures
        asked_before(paths.take(n as int), prefix, f, g),
{
    let earlier = paths.take(n - 1);
    let seen = paths.take(n as int);
    let (first, second) = choose|first: int, second: int|
        #![trigger earlier[first], earlier[second]]
        0 <= first < second < earlier.len() && asks_for(earlier[first], prefix, f) && asks_for(
            earlier[second],
            prefix,
            g,
        );
    assert(seen[first] == earlier[first] && seen[second] == earlier[second]);
    assert(0 <= first < second < seen.len());
}

proof fn lemma_layer_in_turn(paths: Seq<Seq<Seq<char>>>, layer: nat, n: nat)
    requires
        !has_conflict(paths),
        n <= paths.len(),
    ensures
        asked_in_turn(paths.take(n as int), layer_records(paths, layer, n)),
    decreases n,
{
    if n > 0 {
        lemma_layer_in_turn(paths, layer, (n - 1) as nat);
        lemma_layer_origin(paths, layer, (n - 1) as nat);
        let before = layer_records(paths, layer, (n - 1) as nat);
        let after = layer_records(paths, layer, n);
        let earlier = paths.take(n - 1);
        let seen = paths.take(n as int);
        let p = paths[n - 1];
        let j = last_deeper(paths, layer, (n - 1) as nat);
        lemma_last_deeper(paths, layer, (n - 1) as nat);
        let grows = p.len() > layer && !(j < 0 || common_prefix_len(paths[j], p) < layer)
            && common_prefix_len(paths[j], p) == layer && before.len() > 0;
        if grows {
            lemma_layer_tail(paths, layer, (n - 1) as nat);
            lemma_common_prefix_len(paths[j], p);
            assert(paths[j].take(layer as int) =~= p.take(layer as int));
        }
        assert forall|i: int, a: int, b: int|
            #![trigger after[i].fields[a], after[i].fields[b]]
            0 <= i < after.len() && 0 <= a < b < after[i].fields.len() implies asked_before(
            seen,
            after[i].prefix,
            after[i].fields[a],
            after[i].fields[b],
        ) by {
            if grows && i == before.len() - 1 && b == before[i].fields.len() {
                assert(after[i].fields[a] == before[i].fields[a]);
                assert(asked_for(earlier, before[i].prefix, before[i].fields[a]));
                let first = choose|k: int|
                    0 <= k < earlier.len() && before[i].prefix.len() < (#[trigger] earlier[k]).len()
                        && earlier[k].take(before[i].prefix.len() as int) == before[i].prefix
                        && field_of(earlier[k], before[i].prefix.len()) == before[i].fields[a];
                assert(seen[first] == earlier[first]);
                assert(seen[n - 1] == p);
                assert(asks_for(seen[first], after[i].prefix, after[i].fields[a]));
                assert(asks_for(seen[n - 1], after[i].prefix, after[i].fields[b]));
            } else {
                assert(i < before.len());
                assert(after[i].prefix == before[i].prefix);
                assert(after[i].fields[a] == before[i].fields[a]);
                assert(after[i].fields[b] == before[i].fields[b]);
                lemma_turn_stays(
                    paths,
                    n,
                    before[i].prefix,
                    before[i].fields[a],
                    before[i].fields[b],
                );
            }
        }
    }
}

proof fn lemma_layers_in_turn(paths: Seq<Seq<Seq<char>>>, upto: nat)
    requires
        !has_conflict(paths),
    ensures
        asked_in_turn(paths, schema_layers(paths, upto)),
    decreases upto,
{
    if upto > 0 {
        lemma_layers_in_turn(paths, (upto - 1) as nat);
        lemma_layer_in_turn(paths, (upto - 1) as nat, paths.len());
        assert(paths.take(paths.len() as int) =~= paths);
        let below = schema_layers(paths, (upto - 1) as nat);
        let top = layer_records(paths, (upto - 1) as nat, paths.len());
        let all = schema_layers(paths, upto);
        assert forall|i: int, a: int, b: int|
            #![trigger all[i].fields[a], all[i].fields[b]]
            0 <= i < all.len() && 0 <= a < b < all[i].fields.len() implies asked_before(
            paths,
            all[i].prefix,
            all[i].fields[a],
            all[i].fields[b],
        ) by {
            if i < below.len() {
                assert(all[i] == below[i]);
                assert(asked_before(
                    paths,
                    below[i].prefix,
                    below[i].fields[a],
                    below[i].fields[b],
                ));
            } else {
                let t = i - below.len();
                assert(all[i] == top[t]);
                assert(asked_before(paths, top[t].prefix, top[t].fields[a], top[t].fields[b]));
            }
        }
    }
}

/// In the schema of conflict-free paths, sorted or not, the fields of a
/// record stand in the order in which the paths ask for them: for any two of
/// them, a path asks for the earlier field before a path asks for the later.
pub proof fn fields_are_asked_in_turn(paths: Seq<Seq<Seq<char>>>)
    requires
        !has_conflict(paths),
    ensures
        asked_in_turn(paths, schema_of(paths)),
{
    lemma_layers_in_turn(paths, max_len(paths));
}

} // verus!
