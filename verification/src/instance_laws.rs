//! How an emission fits the schema of its paths, how deep it nests, that its
//! nesting is a matter of the paths alone, and what sorted entries add to
//! it: no group opens twice.

use vstd::prelude::*;
use crate::catalog::{entry_paths, EmitEntryView};
use crate::instance::{closes, group_depth, markers_of, markers_upto, net_depth, opens,
    previous_path, shared_depth, shared_depth_of_neighbours, step_markers, MarkerView};
use crate::order::lemma_path_between;
use crate::path::{common_prefix_len, has_conflict, is_proper_prefix, lemma_shared_take, path_lt,
    paths_sorted};
use crate::schema::{field_of, lemma_max_len, max_len, schema_of, FieldKind, FieldView};
use crate::schema_laws::{has_field, schema_holds_every_path};

verus! {

/// Each entry's path sorts before that of every later entry.
spec fn entries_sorted(entries: Seq<EmitEntryView>) -> bool {
    forall|i: int, j: int|
        #![trigger entries[i], entries[j]]
        0 <= i < j < entries.len() ==> path_lt(entries[i].path, entries[j].path)
}

/// No entry's path is a proper prefix of another's.
spec fn entries_conflict_free(entries: Seq<EmitEntryView>) -> bool {
    forall|i: int, j: int|
        #![trigger entries[i], entries[j]]
        0 <= i < entries.len() && 0 <= j < entries.len() ==> !is_proper_prefix(
            entries[i].path,
            entries[j].path,
        )
}

proof fn lemma_sorted_entries(entries: Seq<EmitEntryView>)
    requires
        paths_sorted(entry_paths(entries)),
    ensures
        entries_sorted(entries),
{
    let paths = entry_paths(entries);
    assert forall|i: int, j: int|
        #![trigger entries[i], entries[j]]
        0 <= i < j < entries.len() implies path_lt(entries[i].path, entries[j].path) by {
        assert(path_lt(paths[i], paths[j]));
    }
}

/// No two of the markers open the same group.
pub open spec fn opens_once(ms: Seq<MarkerView>) -> bool {
    forall|x: int, y: int|
        #![trigger ms[x], ms[y]]
        0 <= x < y < ms.len() && ms[x] is Open && ms[y] is Open ==> ms[x] != ms[y]
}

/// One of the first `n` entries stands inside the group `q`.
pub open spec fn opened_by(entries: Seq<EmitEntryView>, n: nat, q: Seq<Seq<char>>) -> bool {
    exists|c: int|
        0 <= c < n && 0 < q.len() < (#[trigger] entries[c]).path.len() && entries[c].path.take(
            q.len() as int,
        ) == q
}

/// Every group that the markers open is one that some of the first `n`
/// entries stands in.
pub open spec fn opened_by_entries(entries: Seq<EmitEntryView>, n: nat, ms: Seq<MarkerView>) -> bool {
    forall|x: int|
        0 <= x < ms.len() && (#[trigger] ms[x]) is Open ==> opened_by(entries, n, ms[x]->Open_0)
}

proof fn lemma_neighbours_share(entries: Seq<EmitEntryView>, n: int)
    requires
        entries_sorted(entries),
        entries_conflict_free(entries),
        2 <= n <= entries.len(),
    ensures
        shared_depth(entries[n - 2].path, entries[n - 1].path) == common_prefix_len(
            entries[n - 2].path,
            entries[n - 1].path,
        ),
{
    assert(path_lt(entries[n - 2].path, entries[n - 1].path));
    assert(!is_proper_prefix(entries[n - 2].path, entries[n - 1].path));
    shared_depth_of_neighbours(entries[n - 2].path, entries[n - 1].path);
}

/// What a step opens: the groups of the entry beyond the shared ones.
proof fn lemma_step_opens(prev: Seq<Seq<char>>, e: EmitEntryView, x: int)
    requires
        0 <= x < step_markers(prev, e).len(),
        step_markers(prev, e)[x] is Open,
    ensures
        shared_depth(prev, e.path) < (step_markers(prev, e)[x]->Open_0).len() < e.path.len(),
        step_markers(prev, e)[x]->Open_0 == e.path.take(
            (step_markers(prev, e)[x]->Open_0).len() as int,
        ),
{
    let k = shared_depth(prev, e.path);
    let c = closes(prev, k);
    let o = opens(e.path, k);
    let step = step_markers(prev, e);
    if x < c.len() {
        assert(step[x] == c[x]);
    } else if x < c.len() + o.len() {
        let m = k + (x - c.len()) + 1;
        assert(step[x] == o[x - c.len()]);
        assert(e.path.take(m).take(m) =~= e.path.take(m));
    } else {
        assert(step[x] == MarkerView::Leaf(e));
    }
}

/// Every leaf among the markers is one of the first `n` entries.
pub open spec fn leaves_from_entries(entries: Seq<EmitEntryView>, n: nat, ms: Seq<MarkerView>) -> bool {
    forall|x: int|
        0 <= x < ms.len() && (#[trigger] ms[x]) is Leaf ==> exists|c: int|
            0 <= c < n && #[trigger] entries[c] == ms[x]->Leaf_0
}

proof fn lemma_marker_origin(entries: Seq<EmitEntryView>, n: nat)
    requires
        n <= entries.len(),
    ensures
        opened_by_entries(entries, n, markers_upto(entries, n)),
        leaves_from_entries(entries, n, markers_upto(entries, n)),
    decreases n,
{
    if n > 0 {
        lemma_marker_origin(entries, (n - 1) as nat);
        let old_ms = markers_upto(entries, (n - 1) as nat);
        let prev = previous_path(entries, (n - 1) as nat);
        let e = entries[n - 1];
        let step = step_markers(prev, e);
        let all = markers_upto(entries, n);
        let k = shared_depth(prev, e.path);
        assert forall|x: int| 0 <= x < all.len() && (#[trigger] all[x]) is Leaf implies exists|
            c: int,
        |
            0 <= c < n && #[trigger] entries[c] == all[x]->Leaf_0 by {
            if x < old_ms.len() {
                assert(all[x] == old_ms[x]);
                let c = choose|c: int| 0 <= c < n - 1 && #[trigger] entries[c] == old_ms[x]->Leaf_0;
                assert(0 <= c < n && entries[c] == all[x]->Leaf_0);
            } else {
                let sx = x - old_ms.len();
                let cl = closes(prev, k);
                let op = opens(e.path, k);
                assert(all[x] == step[sx]);
                if sx < cl.len() {
                    assert(step[sx] == cl[sx]);
                } else if sx < cl.len() + op.len() {
                    assert(step[sx] == op[sx - cl.len()]);
                } else {
                    assert(step[sx] == MarkerView::Leaf(e));
                    assert(entries[n - 1] == all[x]->Leaf_0);
                }
            }
        }
        assert forall|x: int| 0 <= x < all.len() && (#[trigger] all[x]) is Open implies opened_by(
            entries,
            n,
            all[x]->Open_0,
        ) by {
            if x < old_ms.len() {
                assert(all[x] == old_ms[x]);
                let q = old_ms[x]->Open_0;
                assert(opened_by(entries, (n - 1) as nat, q));
                let c = choose|c: int|
                    0 <= c < n - 1 && 0 < q.len() < (#[trigger] entries[c]).path.len()
                        && entries[c].path.take(q.len() as int) == q;
                assert(0 <= c < n && 0 < q.len() < entries[c].path.len());
            } else {
                assert(all[x] == step[x - old_ms.len()]);
                lemma_step_opens(prev, e, x - old_ms.len());
                assert(entries[n - 1].path.take((all[x]->Open_0).len() as int) == all[x]->Open_0);
            }
        }
    }
}

proof fn lemma_opens_upto(entries: Seq<EmitEntryView>, n: nat)
    requires
        entries_sorted(entries),
        entries_conflict_free(entries),
        n <= entries.len(),
    ensures
        opens_once(markers_upto(entries, n)),
    decreases n,
{
    if n > 0 {
        lemma_opens_upto(entries, (n - 1) as nat);
        lemma_marker_origin(entries, (n - 1) as nat);
        let old_ms = markers_upto(entries, (n - 1) as nat);
        let prev = previous_path(entries, (n - 1) as nat);
        let e = entries[n - 1];
        let step = step_markers(prev, e);
        let all = markers_upto(entries, n);
        let k = shared_depth(prev, e.path);
        assert forall|x: int, y: int|
            #![trigger all[x], all[y]]
            0 <= x < y < all.len() && all[x] is Open && all[y] is Open implies all[x]
            != all[y] by {
            if y < old_ms.len() {
                assert(all[x] == old_ms[x] && all[y] == old_ms[y]);
            } else if x >= old_ms.len() {
                let sx = x - old_ms.len();
                let sy = y - old_ms.len();
                assert(all[x] == step[sx] && all[y] == step[sy]);
                let c = closes(prev, k);
                let o = opens(e.path, k);
                lemma_step_opens(prev, e, sx);
                lemma_step_opens(prev, e, sy);
                if sx < c.len() {
                    assert(step[sx] == c[sx]);
                } else if sy < c.len() + o.len() {
                    assert(step[sx] == o[sx - c.len()]);
                    assert(step[sy] == o[sy - c.len()]);
                    assert((step[sx]->Open_0).len() == k + (sx - c.len()) + 1);
                    assert((step[sy]->Open_0).len() == k + (sy - c.len()) + 1);
                } else {
                    assert(step[sy] == MarkerView::Leaf(e));
                }
            } else {
                let sy = y - old_ms.len();
                assert(all[x] == old_ms[x] && all[y] == step[sy]);
                lemma_step_opens(prev, e, sy);
                let q = old_ms[x]->Open_0;
                if q == step[sy]->Open_0 {
                    assert(opened_by(entries, (n - 1) as nat, q));
                    let c = choose|c: int|
                        0 <= c < n - 1 && 0 < q.len() < (#[trigger] entries[c]).path.len()
                            && entries[c].path.take(q.len() as int) == q;
                    lemma_neighbours_share(entries, n as int);
                    lemma_shared_take(entries[c].path, e.path, q.len() as int);
                    if c < n - 2 {
                        assert(path_lt(entries[c].path, entries[n - 2].path));
                        assert(path_lt(entries[n - 2].path, entries[n - 1].path));
                        lemma_path_between(entries[c].path, prev, e.path, q.len());
                    }
                }
            }
        }
    }
}

/// In the markers of sorted, conflict-free entries no group opens twice: the
/// initialiser names each nested field once.
pub proof fn sorted_groups_open_once(entries: Seq<EmitEntryView>)
    requires
        paths_sorted(entry_paths(entries)),
        !has_conflict(entry_paths(entries)),
    ensures
        opens_once(markers_of(entries)),
{
    lemma_sorted_entries(entries);
    lemma_conflict_free_paths(entries);
    lemma_opens_upto(entries, entries.len());
    let body = markers_upto(entries, entries.len());
    let tail = closes(previous_path(entries, entries.len()), 0);
    let all = markers_of(entries);
    assert forall|x: int, y: int|
        #![trigger all[x], all[y]]
        0 <= x < y < all.len() && all[x] is Open && all[y] is Open implies all[x] != all[y] by {
        if y < body.len() {
            assert(all[x] == body[x] && all[y] == body[y]);
        } else {
            assert(all[y] == tail[y - body.len()]);
        }
    }
}

proof fn lemma_conflict_free_paths(entries: Seq<EmitEntryView>)
    ensures
        entries_conflict_free(entries) <==> !has_conflict(entry_paths(entries)),
{
    let paths = entry_paths(entries);
    if has_conflict(paths) {
        let (i, j) = choose|i: int, j: int|
            0 <= i < paths.len() && 0 <= j < paths.len() && #[trigger] is_proper_prefix(
                paths[i],
                paths[j],
            );
        assert(is_proper_prefix(entries[i].path, entries[j].path));
    }
    if !entries_conflict_free(entries) {
        let (i, j) = choose|i: int, j: int|
            #![trigger entries[i], entries[j]]
            0 <= i < entries.len() && 0 <= j < entries.len() && is_proper_prefix(
                entries[i].path,
                entries[j].path,
            );
        assert(is_proper_prefix(paths[i], paths[j]));
    }
}

/// The marker has its place in the schema: the group that it opens is a
/// nested field of the record of the group around it, and the leaf that it
/// assigns is a leaf field of the record of the leaf's group.
pub open spec fn fits_schema(paths: Seq<Seq<Seq<char>>>, m: MarkerView) -> bool {
    match m {
        MarkerView::Open(q) => has_field(
            schema_of(paths),
            q.drop_last(),
            FieldView { name: q.last(), kind: FieldKind::Nested },
        ),
        MarkerView::Close(q) => true,
        MarkerView::Leaf(e) => e.path.len() > 0 ==> has_field(
            schema_of(paths),
            e.path.drop_last(),
            FieldView { name: e.path.last(), kind: FieldKind::Leaf },
        ),
    }
}

/// The emission of conflict-free entries fits the schema of their paths:
/// whatever the emitter opens or assigns is a field of the record type that
/// the schema compiler made for that place.
pub proof fn instance_fits_schema(entries: Seq<EmitEntryView>)
    requires
        !has_conflict(entry_paths(entries)),
    ensures
        forall|x: int|
            0 <= x < markers_of(entries).len() ==> fits_schema(
                entry_paths(entries),
                #[trigger] markers_of(entries)[x],
            ),
{
    let paths = entry_paths(entries);
    let body = markers_upto(entries, entries.len());
    let tail = closes(previous_path(entries, entries.len()), 0);
    let all = markers_of(entries);
    lemma_conflict_free_paths(entries);
    lemma_marker_origin(entries, entries.len());
    assert forall|x: int| 0 <= x < all.len() implies fits_schema(paths, #[trigger] all[x]) by {
        if x < body.len() {
            assert(all[x] == body[x]);
            match body[x] {
                MarkerView::Open(q) => {
                    assert(opened_by(entries, entries.len(), q));
                    let c = choose|c: int|
                        0 <= c < entries.len() && 0 < q.len() < (#[trigger] entries[c]).path.len()
                            && entries[c].path.take(q.len() as int) == q;
                    let layer = (q.len() - 1) as nat;
                    assert(paths[c] == entries[c].path);
                    schema_holds_every_path(paths, c, layer);
                    assert(paths[c].take(layer as int) =~= q.drop_last());
                    assert(field_of(paths[c], layer) == FieldView {
                        name: q.last(),
                        kind: FieldKind::Nested,
                    });
                },
                MarkerView::Close(q) => {},
                MarkerView::Leaf(e) => {
                    let c = choose|c: int| 0 <= c < entries.len() && #[trigger] entries[c] == e;
                    if e.path.len() > 0 {
                        let layer = (e.path.len() - 1) as nat;
                        assert(paths[c] == e.path);
                        schema_holds_every_path(paths, c, layer);
                        assert(paths[c].take(layer as int) =~= e.path.drop_last());
                    }
                },
            }
        } else {
            assert(all[x] == tail[x - body.len()]);
        }
    }
}

/// Two markers are the same step of a nesting: they open the same group,
/// close the same group, or assign the leaf at the same path.
pub open spec fn same_step(a: MarkerView, b: MarkerView) -> bool {
    match (a, b) {
        (MarkerView::Open(p), MarkerView::Open(q)) => p == q,
        (MarkerView::Close(p), MarkerView::Close(q)) => p == q,
        (MarkerView::Leaf(e), MarkerView::Leaf(f)) => e.path == f.path,
        _ => false,
    }
}

/// Two emissions nest alike: step by step they are the same but for the
/// values of their leaves.
pub open spec fn same_nesting(a: Seq<MarkerView>, b: Seq<MarkerView>) -> bool {
    &&& a.len() == b.len()
    &&& forall|x: int| 0 <= x < a.len() ==> same_step(#[trigger] a[x], b[x])
}

proof fn lemma_same_nesting_upto(first: Seq<EmitEntryView>, second: Seq<EmitEntryView>, n: nat)
    requires
        entry_paths(first) == entry_paths(second),
        n <= first.len(),
    ensures
        same_nesting(markers_upto(first, n), markers_upto(second, n)),
        previous_path(first, n) == previous_path(second, n),
    decreases n,
{
    assert(first.len() == entry_paths(first).len());
    assert(second.len() == entry_paths(second).len());
    if n > 0 {
        lemma_same_nesting_upto(first, second, (n - 1) as nat);
        assert(entry_paths(first)[n - 1] == first[n - 1].path);
        assert(entry_paths(second)[n - 1] == second[n - 1].path);
        let prev = previous_path(first, (n - 1) as nat);
        let a = markers_upto(first, (n - 1) as nat);
        let b = markers_upto(second, (n - 1) as nat);
        let sa = step_markers(prev, first[n - 1]);
        let sb = step_markers(prev, second[n - 1]);
        let k = shared_depth(prev, first[n - 1].path);
        let shared = closes(prev, k) + opens(first[n - 1].path, k);
        assert(sa.len() == sb.len());
        assert forall|x: int| 0 <= x < sa.len() implies same_step(#[trigger] sa[x], sb[x]) by {
            if x < shared.len() {
                assert(sa[x] == shared[x]);
                assert(sb[x] == shared[x]);
            }
        }
        assert forall|x: int| 0 <= x < (a + sa).len() implies same_step(
            #[trigger] (a + sa)[x],
            (b + sb)[x],
        ) by {
            if x < a.len() {
                assert(same_step(a[x], b[x]));
            } else {
                assert(same_step(sa[x - a.len()], sb[x - a.len()]));
            }
        }
    }
}

/// The nesting of an instance depends on the paths alone: entries with the
/// same paths give the same groups, opened and closed at the same steps, and
/// leaves at the same paths, whatever their values are.
pub proof fn nesting_depends_on_paths(first: Seq<EmitEntryView>, second: Seq<EmitEntryView>)
    requires
        entry_paths(first) == entry_paths(second),
    ensures
        same_nesting(markers_of(first), markers_of(second)),
{
    assert(first.len() == entry_paths(first).len());
    assert(second.len() == entry_paths(second).len());
    lemma_same_nesting_upto(first, second, first.len());
    let a = markers_upto(first, first.len());
    let b = markers_upto(second, second.len());
    let tail = closes(previous_path(first, first.len()), 0);
    assert forall|x: int| 0 <= x < (a + tail).len() implies same_step(
        #[trigger] (a + tail)[x],
        (b + tail)[x],
    ) by {
        if x < a.len() {
            assert(same_step(a[x], b[x]));
        }
    }
}

/// The deepest that an instance of the paths nests: the length of the
/// longest path less one, for the leaf itself.
pub open spec fn deepest(paths: Seq<Seq<Seq<char>>>) -> nat {
    if max_len(paths) == 0 {
        0
    } else {
        (max_len(paths) - 1) as nat
    }
}

proof fn lemma_net_concat(a: Seq<MarkerView>, b: Seq<MarkerView>)
    ensures
        net_depth(a + b) == net_depth(a) + net_depth(b),
    decreases a.len(),
{
    if a.len() == 0 {
        assert(a + b =~= b);
    } else {
        assert((a + b).skip(1) =~= a.skip(1) + b);
        lemma_net_concat(a.skip(1), b);
    }
}

proof fn lemma_net_closes(ms: Seq<MarkerView>)
    requires
        forall|j: int| 0 <= j < ms.len() ==> (#[trigger] ms[j]) is Close,
    ensures
        net_depth(ms) == -ms.len(),
    decreases ms.len(),
{
    if ms.len() > 0 {
        lemma_net_closes(ms.skip(1));
    }
}

proof fn lemma_net_opens(ms: Seq<MarkerView>)
    requires
        forall|j: int| 0 <= j < ms.len() ==> (#[trigger] ms[j]) is Open,
    ensures
        net_depth(ms) == ms.len(),
    decreases ms.len(),
{
    if ms.len() > 0 {
        lemma_net_opens(ms.skip(1));
    }
}

/// Within one step the depth goes down from that of the leaf before to what
/// the two paths share, and up again to that of the leaf.
proof fn lemma_net_step(prev: Seq<Seq<char>>, e: EmitEntryView, y: int)
    requires
        0 <= y <= step_markers(prev, e).len(),
    ensures
        0 <= group_depth(prev) + net_depth(step_markers(prev, e).take(y)),
        group_depth(prev) + net_depth(step_markers(prev, e).take(y)) <= group_depth(prev)
            || group_depth(prev) + net_depth(step_markers(prev, e).take(y)) <= group_depth(
            e.path,
        ),
        y == step_markers(prev, e).len() ==> group_depth(prev) + net_depth(
            step_markers(prev, e).take(y),
        ) == group_depth(e.path),
{
    let k = shared_depth(prev, e.path);
    let c = closes(prev, k);
    let o = opens(e.path, k);
    let leaf = seq![MarkerView::Leaf(e)];
    let step = step_markers(prev, e);
    if y <= c.len() {
        assert(step.take(y) =~= c.take(y));
        lemma_net_closes(c.take(y));
    } else if y <= c.len() + o.len() {
        assert(step.take(y) =~= c + o.take(y - c.len()));
        lemma_net_concat(c, o.take(y - c.len()));
        lemma_net_closes(c);
        lemma_net_opens(o.take(y - c.len()));
    } else {
        assert(step.take(y) =~= c + (o + leaf));
        lemma_net_concat(c, o + leaf);
        lemma_net_concat(o, leaf);
        lemma_net_closes(c);
        lemma_net_opens(o);
        assert(net_depth(leaf) == 0) by {
            reveal_with_fuel(net_depth, 2);
            assert(leaf.skip(1) =~= Seq::empty());
        }
    }
}

proof fn lemma_net_upto(entries: Seq<EmitEntryView>, n: nat)
    requires
        n <= entries.len(),
    ensures
        net_depth(markers_upto(entries, n)) == group_depth(previous_path(entries, n)),
    decreases n,
{
    if n > 0 {
        lemma_net_upto(entries, (n - 1) as nat);
        let prev = previous_path(entries, (n - 1) as nat);
        let step = step_markers(prev, entries[n - 1]);
        lemma_net_step(prev, entries[n - 1], step.len() as int);
        assert(step.take(step.len() as int) =~= step);
        lemma_net_concat(markers_upto(entries, (n - 1) as nat), step);
    }
}

proof fn lemma_path_depth(entries: Seq<EmitEntryView>, n: nat)
    requires
        n <= entries.len(),
    ensures
        group_depth(previous_path(entries, n)) <= deepest(entry_paths(entries)),
{
    if n > 0 {
        lemma_max_len(entry_paths(entries), n - 1);
    }
}

proof fn lemma_depth_upto(entries: Seq<EmitEntryView>, n: nat, x: int)
    requires
        n <= entries.len(),
        0 <= x <= markers_upto(entries, n).len(),
    ensures
        0 <= net_depth(markers_upto(entries, n).take(x)) <= deepest(entry_paths(entries)),
    decreases n,
{
    let all = markers_upto(entries, n);
    if n == 0 {
        assert(all.take(x) =~= Seq::empty());
    } else {
        let before = markers_upto(entries, (n - 1) as nat);
        let prev = previous_path(entries, (n - 1) as nat);
        let step = step_markers(prev, entries[n - 1]);
        if x <= before.len() {
            assert(all.take(x) =~= before.take(x));
            lemma_depth_upto(entries, (n - 1) as nat, x);
        } else {
            let y = x - before.len();
            assert(all.take(x) =~= before + step.take(y));
            lemma_net_concat(before, step.take(y));
            lemma_net_upto(entries, (n - 1) as nat);
            lemma_net_step(prev, entries[n - 1], y);
            lemma_path_depth(entries, (n - 1) as nat);
            lemma_path_depth(entries, n);
        }
    }
}

/// At no step of an emission are more groups open than the longest path has
/// segments before its last, and never fewer than none.
pub proof fn open_depth_is_bounded(entries: Seq<EmitEntryView>, x: int)
    requires
        0 <= x <= markers_of(entries).len(),
    ensures
        0 <= net_depth(markers_of(entries).take(x)) <= deepest(entry_paths(entries)),
{
    let body = markers_upto(entries, entries.len());
    let last = previous_path(entries, entries.len());
    let tail = closes(last, 0);
    let all = markers_of(entries);
    if x <= body.len() {
        assert(all.take(x) =~= body.take(x));
        lemma_depth_upto(entries, entries.len(), x);
    } else {
        let y = x - body.len();
        assert(all.take(x) =~= body + tail.take(y));
        lemma_net_concat(body, tail.take(y));
        lemma_net_upto(entries, entries.len());
        lemma_net_closes(tail.take(y));
        lemma_path_depth(entries, entries.len());
    }
}

} // verus!
