//! The instance emitter's structure: the groups that open and close around
//! the leaves of one locale's instance.

use vstd::prelude::*;
use crate::catalog::{EmitEntry, EmitEntryView, EmitValue};
use crate::order::{lemma_path_lt_asymmetric, lemma_path_lt_irreflexive, lemma_prefix_sorts_first};
use crate::path::{common_prefix, common_prefix_len, is_proper_prefix, lemma_common_prefix_len,
    path_lt};
use crate::views::{clone_path, clone_prefix, lemma_deep_view, lemma_deep_view_push};

verus! {

/// One step of an emission.
#[derive(Clone, Debug, PartialEq, Eq)]
pub enum Marker {
    /// The nested group of the given prefix opens.
    Open(Vec<String>),
    /// The nested group of the given prefix closes.
    Close(Vec<String>),
    /// The field at the entry's path is assigned the entry's value.
    Leaf(EmitEntry),
}

/// A marker in contracts.
pub enum MarkerView {
    Open(Seq<Seq<char>>),
    Close(Seq<Seq<char>>),
    Leaf(EmitEntryView),
}

impl View for Marker {
    type V = MarkerView;

    open spec fn view(&self) -> MarkerView {
        match self {
            Marker::Open(p) => MarkerView::Open(p.deep_view()),
            Marker::Close(p) => MarkerView::Close(p.deep_view()),
            Marker::Leaf(e) => MarkerView::Leaf(e@),
        }
    }
}

impl DeepView for Marker {
    type V = MarkerView;

    open spec fn deep_view(&self) -> MarkerView {
        self@
    }
}

/// Number of nested groups around the leaf at path `p`.
pub open spec fn group_depth(p: Seq<Seq<char>>) -> nat {
    if p.len() == 0 {
        0
    } else {
        (p.len() - 1) as nat
    }
}

/// The groups around the leaf at path `p`, the outermost first: one for each
/// proper prefix of `p` but the empty one.
pub open spec fn groups_of(p: Seq<Seq<char>>) -> Seq<Seq<Seq<char>>> {
    Seq::new(group_depth(p), |j: int| p.take(j + 1))
}

/// Number of groups that stay open from the leaf at `prev` to the leaf at
/// `cur`: the length of their common prefix, and no more than either has.
pub open spec fn shared_depth(prev: Seq<Seq<char>>, cur: Seq<Seq<char>>) -> nat {
    let k = common_prefix_len(prev, cur);
    let a = group_depth(prev);
    let b = group_depth(cur);
    if k <= a && k <= b {
        k
    } else if a <= b {
        a
    } else {
        b
    }
}

/// The markers that close the groups around `prev`, the innermost first, until
/// `down_to` of them are left open.
pub open spec fn closes(prev: Seq<Seq<char>>, down_to: nat) -> Seq<MarkerView> {
    Seq::new(
        (group_depth(prev) - down_to) as nat,
        |j: int| MarkerView::Close(prev.take(group_depth(prev) - j)),
    )
}

/// The markers that open the groups around `cur`, the outermost first, where
/// `from` of them are open already.
pub open spec fn opens(cur: Seq<Seq<char>>, from: nat) -> Seq<MarkerView> {
    Seq::new((group_depth(cur) - from) as nat, |j: int| MarkerView::Open(cur.take(from + j + 1)))
}

/// The markers of one entry that follows the leaf at `prev`.
pub open spec fn step_markers(prev: Seq<Seq<char>>, e: EmitEntryView) -> Seq<MarkerView> {
    let k = shared_depth(prev, e.path);
    closes(prev, k) + opens(e.path, k) + seq![MarkerView::Leaf(e)]
}

/// The path of the entry before the `n`-th, empty for the first.
pub open spec fn previous_path(entries: Seq<EmitEntryView>, n: nat) -> Seq<Seq<char>> {
    if n == 0 || n > entries.len() {
        Seq::empty()
    } else {
        entries[n - 1].path
    }
}

/// The markers of the first `n` entries.
pub open spec fn markers_upto(entries: Seq<EmitEntryView>, n: nat) -> Seq<MarkerView>
    decreases n,
{
    if n == 0 {
        Seq::empty()
    } else {
        markers_upto(entries, (n - 1) as nat) + step_markers(
            previous_path(entries, (n - 1) as nat),
            entries[n - 1],
        )
    }
}

/// The markers of an instance: those of its entries, then the closing of the
/// groups that the last entry left open.
pub open spec fn markers_of(entries: Seq<EmitEntryView>) -> Seq<MarkerView> {
    markers_upto(entries, entries.len()) + closes(previous_path(entries, entries.len()), 0)
}

/// Runs the markers over the stack of open groups. A group closes only as the
/// innermost open one, and a leaf stands only inside the groups of its own
/// path: otherwise the run fails.
pub open spec fn run_markers(ms: Seq<MarkerView>, stack: Seq<Seq<Seq<char>>>) -> Option<
    Seq<Seq<Seq<char>>>,
>
    decreases ms.len(),
{
    if ms.len() == 0 {
        Some(stack)
    } else {
        match ms[0] {
            MarkerView::Open(p) => run_markers(ms.skip(1), stack.push(p)),
            MarkerView::Close(p) => if stack.len() > 0 && stack.last() == p {
                run_markers(ms.skip(1), stack.drop_last())
            } else {
                None
            },
            MarkerView::Leaf(e) => if stack == groups_of(e.path) {
                run_markers(ms.skip(1), stack)
            } else {
                None
            },
        }
    }
}

/// The markers run from no open group to no open group.
pub open spec fn balanced(ms: Seq<MarkerView>) -> bool {
    run_markers(ms, Seq::empty()) == Some(Seq::<Seq<Seq<char>>>::empty())
}

/// Groups opened less groups closed.
pub open spec fn net_depth(ms: Seq<MarkerView>) -> int
    decreases ms.len(),
{
    if ms.len() == 0 {
        0
    } else {
        net_depth(ms.skip(1)) + match ms[0] {
            MarkerView::Open(p) => 1int,
            MarkerView::Close(p) => -1int,
            MarkerView::Leaf(e) => 0int,
        }
    }
}

/// The entries of the leaves among the markers, in order.
pub open spec fn leaves_of(ms: Seq<MarkerView>) -> Seq<EmitEntryView>
    decreases ms.len(),
{
    if ms.len() == 0 {
        Seq::empty()
    } else {
        match ms.last() {
            MarkerView::Leaf(e) => leaves_of(ms.drop_last()).push(e),
            _ => leaves_of(ms.drop_last()),
        }
    }
}

/// A copy of an entry.
pub fn clone_entry(e: &EmitEntry) -> (r: EmitEntry)
    ensures
        r.deep_view() == e.deep_view(),
{
    let value = match &e.value {
        EmitValue::Literal(s) => EmitValue::Literal(s.clone()),
        EmitValue::FallbackRef(p) => EmitValue::FallbackRef(clone_path(p)),
    };
    EmitEntry { path: clone_path(&e.path), value }
}

/// Number of nested groups around the leaf at `p`.
pub fn depth_of(p: &Vec<String>) -> (d: usize)
    ensures
        d == group_depth(p.deep_view()),
{
    proof {
        lemma_deep_view(*p);
    }
    if p.len() == 0 {
        0
    } else {
        p.len() - 1
    }
}

fn close_groups(out: &mut Vec<Marker>, prev: &Vec<String>, down_to: usize)
    requires
        down_to <= group_depth(prev.deep_view()),
    ensures
        final(out).deep_view() == old(out).deep_view() + closes(prev.deep_view(), down_to as nat),
{
    let depth = depth_of(prev);
    let ghost start = out.deep_view();
    let ghost all = closes(prev.deep_view(), down_to as nat);
    let mut level: usize = depth;
    proof {
        lemma_deep_view(*prev);
        assert(out.deep_view() =~= start + all.take(0));
    }
    while level > down_to
        invariant
            down_to <= level <= depth,
            depth == group_depth(prev.deep_view()),
            prev.deep_view().len() == prev@.len(),
            all == closes(prev.deep_view(), down_to as nat),
            out.deep_view() == start + all.take(depth - level),
        decreases level,
    {
        let ghost before = *out;
        let marker = Marker::Close(clone_prefix(prev, level));
        out.push(marker);
        proof {
            lemma_deep_view_push(before, *out, marker);
            assert(all.take(depth - level + 1) =~= all.take(depth - level).push(
                all[depth - level],
            ));
            assert(out.deep_view() =~= start + all.take(depth - level + 1));
        }
        level = level - 1;
    }
    assert(all.take(depth - level) =~= all);
}

fn open_groups(out: &mut Vec<Marker>, cur: &Vec<String>, from: usize)
    requires
        from <= group_depth(cur.deep_view()),
    ensures
        final(out).deep_view() == old(out).deep_view() + opens(cur.deep_view(), from as nat),
{
    let depth = depth_of(cur);
    let ghost start = out.deep_view();
    let ghost all = opens(cur.deep_view(), from as nat);
    let mut level: usize = from;
    proof {
        lemma_deep_view(*cur);
        assert(out.deep_view() =~= start + all.take(0));
    }
    while level < depth
        invariant
            from <= level <= depth,
            depth == group_depth(cur.deep_view()),
            cur.deep_view().len() == cur@.len(),
            all == opens(cur.deep_view(), from as nat),
            out.deep_view() == start + all.take(level - from),
        decreases depth - level,
    {
        let ghost before = *out;
        let marker = Marker::Open(clone_prefix(cur, level + 1));
        out.push(marker);
        proof {
            lemma_deep_view_push(before, *out, marker);
            assert(all.take(level - from + 1) =~= all.take(level - from).push(all[level - from]));
            assert(out.deep_view() =~= start + all.take(level - from + 1));
        }
        level = level + 1;
    }
    assert(all.take(level - from) =~= all);
}

/// Number of groups that stay open from the leaf at `prev` to the leaf at `cur`.
pub fn shared_groups(prev: &Vec<String>, cur: &Vec<String>) -> (k: usize)
    ensures
        k == shared_depth(prev.deep_view(), cur.deep_view()),
{
    let k = common_prefix(prev, cur);
    let a = depth_of(prev);
    let b = depth_of(cur);
    if k <= a && k <= b {
        k
    } else if a <= b {
        a
    } else {
        b
    }
}

/// The markers of one instance. For each entry, in order: the groups of the
/// entry before it close, the innermost first, down to what the two paths
/// share; the further groups of the entry open, the outermost first; then
/// comes the entry's leaf. After the last entry every open group closes.
pub fn instance_markers(entries: &Vec<EmitEntry>) -> (r: Vec<Marker>)
    ensures
        r.deep_view() == markers_of(entries.deep_view()),
        balanced(r.deep_view()),
        net_depth(r.deep_view()) == 0,
        leaves_of(r.deep_view()) == entries.deep_view(),
{
    let ghost ev = entries.deep_view();
    let mut out: Vec<Marker> = Vec::new();
    let nothing: Vec<String> = Vec::new();
    let mut i: usize = 0;
    proof {
        lemma_deep_view(*entries);
        lemma_deep_view(nothing);
        assert(nothing.deep_view() =~= Seq::empty());
        assert(out.deep_view() =~= markers_upto(ev, 0));
    }
    while i < entries.len()
        invariant
            i <= entries.len(),
            ev == entries.deep_view(),
            ev.len() == entries@.len(),
            forall|k: int| 0 <= k < entries@.len() ==> #[trigger] ev[k] == entries@[k].deep_view(),
            nothing.deep_view() == Seq::<Seq<char>>::empty(),
            out.deep_view() == markers_upto(ev, i as nat),
        decreases entries.len() - i,
    {
        let cur = &entries[i].path;
        let prev: &Vec<String> = if i > 0 {
            &entries[i - 1].path
        } else {
            &nothing
        };
        assert(prev.deep_view() == previous_path(ev, i as nat));
        let k = shared_groups(prev, cur);
        close_groups(&mut out, prev, k);
        open_groups(&mut out, cur, k);
        let ghost before = out;
        let marker = Marker::Leaf(clone_entry(&entries[i]));
        out.push(marker);
        proof {
            lemma_deep_view_push(before, out, marker);
            assert(out.deep_view() =~= markers_upto(ev, i as nat) + step_markers(
                previous_path(ev, i as nat),
                ev[i as int],
            ));
        }
        i = i + 1;
    }
    let last: &Vec<String> = if i > 0 {
        &entries[i - 1].path
    } else {
        &nothing
    };
    close_groups(&mut out, last, 0);
    proof {
        markers_are_balanced(ev);
        balanced_has_no_net_depth(markers_of(ev));
        markers_keep_the_entries(ev);
    }
    out
}

proof fn lemma_run_concat(a: Seq<MarkerView>, b: Seq<MarkerView>, stack: Seq<Seq<Seq<char>>>)
    ensures
        run_markers(a + b, stack) == match run_markers(a, stack) {
            Some(t) => run_markers(b, t),
            None => None,
        },
    decreases a.len(),
{
    if a.len() == 0 {
        assert(a + b =~= b);
    } else {
        assert((a + b).skip(1) =~= a.skip(1) + b);
        assert((a + b)[0] == a[0]);
        match a[0] {
            MarkerView::Open(p) => lemma_run_concat(a.skip(1), b, stack.push(p)),
            MarkerView::Close(p) => if stack.len() > 0 && stack.last() == p {
                lemma_run_concat(a.skip(1), b, stack.drop_last())
            },
            MarkerView::Leaf(e) => if stack == groups_of(e.path) {
                lemma_run_concat(a.skip(1), b, stack)
            },
        }
    }
}

proof fn lemma_run_closes(prev: Seq<Seq<char>>, down_to: nat)
    requires
        down_to <= group_depth(prev),
    ensures
        run_markers(closes(prev, down_to), groups_of(prev)) == Some(
            groups_of(prev).take(down_to as int),
        ),
    decreases prev.len(),
{
    let d = group_depth(prev);
    if d == down_to {
        assert(groups_of(prev).take(down_to as int) =~= groups_of(prev));
    } else {
        let shorter = prev.drop_last();
        assert(closes(prev, down_to).skip(1) =~= closes(shorter, down_to)) by {
            assert forall|j: int| 0 <= j < d - down_to - 1 implies #[trigger] closes(
                prev,
                down_to,
            ).skip(1)[j] == closes(shorter, down_to)[j] by {
                assert(prev.take(d - (j + 1)) =~= shorter.take(group_depth(shorter) - j));
            }
        }
        assert(groups_of(prev).drop_last() =~= groups_of(shorter)) by {
            assert forall|j: int| 0 <= j < d - 1 implies #[trigger] groups_of(prev).drop_last()[j]
                == groups_of(shorter)[j] by {
                assert(prev.take(j + 1) =~= shorter.take(j + 1));
            }
        }
        assert(groups_of(shorter).take(down_to as int) =~= groups_of(prev).take(down_to as int));
        lemma_run_closes(shorter, down_to);
    }
}

proof fn lemma_run_opens(cur: Seq<Seq<char>>, from: nat)
    requires
        from <= group_depth(cur),
    ensures
        run_markers(opens(cur, from), groups_of(cur).take(from as int)) == Some(groups_of(cur)),
    decreases group_depth(cur) - from,
{
    let d = group_depth(cur);
    if from == d {
        assert(groups_of(cur).take(from as int) =~= groups_of(cur));
    } else {
        assert(opens(cur, from).skip(1) =~= opens(cur, from + 1));
        assert(groups_of(cur).take(from as int).push(cur.take(from as int + 1)) =~= groups_of(
            cur,
        ).take(from as int + 1));
        lemma_run_opens(cur, from + 1);
    }
}

proof fn lemma_shared_groups(prev: Seq<Seq<char>>, cur: Seq<Seq<char>>)
    ensures
        shared_depth(prev, cur) <= group_depth(prev),
        shared_depth(prev, cur) <= group_depth(cur),
        groups_of(prev).take(shared_depth(prev, cur) as int) == groups_of(cur).take(
            shared_depth(prev, cur) as int,
        ),
{
    let k = shared_depth(prev, cur);
    lemma_common_prefix_len(prev, cur);
    assert forall|j: int| 0 <= j < k implies #[trigger] groups_of(prev)[j] == groups_of(cur)[j] by {
        assert(prev.take(j + 1) =~= cur.take(j + 1));
    }
    assert(groups_of(prev).take(k as int) =~= groups_of(cur).take(k as int));
}

proof fn lemma_run_upto(entries: Seq<EmitEntryView>, n: nat)
    requires
        n <= entries.len(),
    ensures
        run_markers(markers_upto(entries, n), Seq::empty()) == Some(
            groups_of(previous_path(entries, n)),
        ),
    decreases n,
{
    if n == 0 {
        assert(groups_of(previous_path(entries, 0)) =~= Seq::empty());
    } else {
        let prev = previous_path(entries, (n - 1) as nat);
        let e = entries[n - 1];
        let k = shared_depth(prev, e.path);
        let start = Seq::<Seq<Seq<char>>>::empty();
        lemma_run_upto(entries, (n - 1) as nat);
        lemma_shared_groups(prev, e.path);
        lemma_run_closes(prev, k);
        lemma_run_opens(e.path, k);
        let leaf = seq![MarkerView::Leaf(e)];
        assert(run_markers(leaf, groups_of(e.path)) == Some(groups_of(e.path))) by {
            reveal_with_fuel(run_markers, 2);
            assert(leaf.skip(1) =~= Seq::empty());
        }
        lemma_run_concat(opens(e.path, k), leaf, groups_of(e.path).take(k as int));
        lemma_run_concat(closes(prev, k), opens(e.path, k) + leaf, groups_of(prev));
        assert(step_markers(prev, e) =~= closes(prev, k) + (opens(e.path, k) + leaf));
        lemma_run_concat(markers_upto(entries, (n - 1) as nat), step_markers(prev, e), start);
    }
}

/// The markers of any entries are balanced: every group that opens closes
/// again, as the innermost open one, every leaf stands inside the groups of
/// its own path, and no group is open at the end.
pub proof fn markers_are_balanced(entries: Seq<EmitEntryView>)
    ensures
        balanced(markers_of(entries)),
{
    let last = previous_path(entries, entries.len());
    lemma_run_upto(entries, entries.len());
    lemma_run_closes(last, 0);
    lemma_run_concat(markers_upto(entries, entries.len()), closes(last, 0), Seq::empty());
    assert(groups_of(last).take(0) =~= Seq::empty());
}

proof fn lemma_run_depth(ms: Seq<MarkerView>, stack: Seq<Seq<Seq<char>>>)
    requires
        run_markers(ms, stack) is Some,
    ensures
        run_markers(ms, stack)->0.len() == stack.len() + net_depth(ms),
    decreases ms.len(),
{
    if ms.len() > 0 {
        match ms[0] {
            MarkerView::Open(p) => lemma_run_depth(ms.skip(1), stack.push(p)),
            MarkerView::Close(p) => lemma_run_depth(ms.skip(1), stack.drop_last()),
            MarkerView::Leaf(e) => lemma_run_depth(ms.skip(1), stack),
        }
    }
}

/// Balanced markers open as many groups as they close: their net depth is
/// zero at the end.
pub proof fn balanced_has_no_net_depth(ms: Seq<MarkerView>)
    requires
        balanced(ms),
    ensures
        net_depth(ms) == 0,
{
    lemma_run_depth(ms, Seq::empty());
}

/// Where `prev` sorts before `cur` and is no prefix of it, the groups that
/// stay open between them are exactly those of their common prefix.
pub proof fn shared_depth_of_neighbours(prev: Seq<Seq<char>>, cur: Seq<Seq<char>>)
    requires
        path_lt(prev, cur),
        !is_proper_prefix(prev, cur),
    ensures
        shared_depth(prev, cur) == common_prefix_len(prev, cur),
{
    lemma_common_prefix_len(prev, cur);
    let k = common_prefix_len(prev, cur) as int;
    if k == prev.len() {
        if prev.len() == cur.len() {
            assert(prev =~= cur);
            lemma_path_lt_irreflexive(prev);
        } else {
            assert(cur.take(prev.len() as int) =~= prev);
        }
    } else if k == cur.len() {
        assert(prev.take(cur.len() as int) =~= cur);
        lemma_prefix_sorts_first(cur, prev);
        lemma_path_lt_asymmetric(prev, cur);
    }
}

proof fn lemma_leaves_concat(a: Seq<MarkerView>, b: Seq<MarkerView>)
    ensures
        leaves_of(a + b) == leaves_of(a) + leaves_of(b),
    decreases b.len(),
{
    if b.len() == 0 {
        assert(a + b =~= a);
        assert(leaves_of(a) + leaves_of(b) =~= leaves_of(a));
    } else {
        assert((a + b).drop_last() =~= a + b.drop_last());
        lemma_leaves_concat(a, b.drop_last());
        match b.last() {
            MarkerView::Leaf(e) => {
                assert(leaves_of(a + b) =~= leaves_of(a) + leaves_of(b));
            },
            _ => {},
        }
    }
}

proof fn lemma_no_leaves(ms: Seq<MarkerView>)
    requires
        forall|j: int| 0 <= j < ms.len() ==> !(#[trigger] ms[j] is Leaf),
    ensures
        leaves_of(ms) == Seq::<EmitEntryView>::empty(),
    decreases ms.len(),
{
    if ms.len() > 0 {
        lemma_no_leaves(ms.drop_last());
    }
}

proof fn lemma_leaves_upto(entries: Seq<EmitEntryView>, n: nat)
    requires
        n <= entries.len(),
    ensures
        leaves_of(markers_upto(entries, n)) == entries.take(n as int),
    decreases n,
{
    if n == 0 {
        assert(entries.take(0) =~= Seq::empty());
    } else {
        let prev = previous_path(entries, (n - 1) as nat);
        let e = entries[n - 1];
        let k = shared_depth(prev, e.path);
        let leaf = seq![MarkerView::Leaf(e)];
        lemma_leaves_upto(entries, (n - 1) as nat);
        lemma_no_leaves(closes(prev, k));
        lemma_no_leaves(opens(e.path, k));
        lemma_leaves_concat(closes(prev, k), opens(e.path, k));
        lemma_leaves_concat(closes(prev, k) + opens(e.path, k), leaf);
        assert(leaves_of(leaf) =~= seq![e]) by {
            reveal_with_fuel(leaves_of, 2);
            assert(leaf.drop_last() =~= Seq::empty());
        }
        lemma_leaves_concat(markers_upto(entries, (n - 1) as nat), step_markers(prev, e));
        assert(entries.take(n as int) =~= entries.take(n - 1).push(e));
    }
}

/// The leaves among the markers are the entries themselves: one leaf for each
/// entry, in the order of the entries.
pub proof fn markers_keep_the_entries(entries: Seq<EmitEntryView>)
    ensures
        leaves_of(markers_of(entries)) == entries,
{
    let last = previous_path(entries, entries.len());
    lemma_leaves_upto(entries, entries.len());
    lemma_no_leaves(closes(last, 0));
    lemma_leaves_concat(markers_upto(entries, entries.len()), closes(last, 0));
    assert(entries.take(entries.len() as int) =~= entries);
}

} // verus!
