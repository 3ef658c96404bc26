//! The order of key paths is a strict total order, as the orders of segments
//! and of characters below it are.

use vstd::prelude::*;
use crate::path::{char_order, common_prefix_len, has_conflict, is_proper_prefix,
    lemma_common_prefix_len, lemma_common_prefix_unique, lemma_shared_take, lex_lt, path_lt,
    paths_ascending, paths_sorted, segment_order};

verus! {

/// `lt` is irreflexive and transitive, and it orders any two different values.
pub open spec fn strict_total<T>(lt: spec_fn(T, T) -> bool) -> bool {
    &&& forall|x: T| !#[trigger] lt(x, x)
    &&& forall|x: T, y: T, z: T| #[trigger] lt(x, y) && #[trigger] lt(y, z) ==> lt(x, z)
    &&& forall|x: T, y: T| x != y ==> #[trigger] lt(x, y) || #[trigger] lt(y, x)
}

/// The common prefix of `a` and `b` is that of `b` and `a`.
pub proof fn lemma_common_prefix_symmetric<T>(a: Seq<T>, b: Seq<T>)
    ensures
        common_prefix_len(a, b) == common_prefix_len(b, a),
{
    lemma_common_prefix_len(a, b);
    lemma_common_prefix_unique(b, a, common_prefix_len(a, b) as int);
}

/// No sequence sorts before itself.
pub proof fn lemma_lex_irreflexive<T>(a: Seq<T>, lt: spec_fn(T, T) -> bool)
    ensures
        !lex_lt(a, a, lt),
{
    lemma_common_prefix_unique(a, a, a.len() as int);
}

/// Of two different sequences one sorts before the other.
pub proof fn lemma_lex_total<T>(a: Seq<T>, b: Seq<T>, lt: spec_fn(T, T) -> bool)
    requires
        strict_total(lt),
    ensures
        a == b || lex_lt(a, b, lt) || lex_lt(b, a, lt),
{
    lemma_common_prefix_len(a, b);
    lemma_common_prefix_symmetric(a, b);
    let k = common_prefix_len(a, b) as int;
    if k < a.len() && k < b.len() {
        assert(lt(a[k], b[k]) || lt(b[k], a[k]));
    } else if a.len() == b.len() {
        assert(a =~= b);
    }
}

/// Lexicographic order is transitive where the order of the elements is.
pub proof fn lemma_lex_transitive<T>(a: Seq<T>, b: Seq<T>, c: Seq<T>, lt: spec_fn(T, T) -> bool)
    requires
        strict_total(lt),
        lex_lt(a, b, lt),
        lex_lt(b, c, lt),
    ensures
        lex_lt(a, c, lt),
{
    lemma_common_prefix_len(a, b);
    lemma_common_prefix_len(b, c);
    let k1 = common_prefix_len(a, b) as int;
    let k2 = common_prefix_len(b, c) as int;
    if k1 < k2 {
        assert(b[k1] == c[k1]);
        if k1 < a.len() {
            assert(lt(a[k1], b[k1]));
            assert(a[k1] != c[k1]);
        }
        lemma_common_prefix_unique(a, c, k1);
    } else if k2 < k1 {
        assert(a[k2] == b[k2]);
        assert(lt(b[k2], c[k2]));
        assert(a[k2] != c[k2]);
        lemma_common_prefix_unique(a, c, k2);
    } else {
        if k1 < a.len() {
            assert(lt(a[k1], b[k1]));
            assert(lt(b[k1], c[k1]));
            assert(lt(a[k1], c[k1]));
            assert(a[k1] != c[k1]);
        }
        lemma_common_prefix_unique(a, c, k1);
    }
}

/// Characters are strictly and totally ordered by code point.
pub proof fn lemma_char_order()
    ensures
        strict_total(char_order()),
{
}

/// Segments are strictly and totally ordered.
pub proof fn lemma_segment_order()
    ensures
        strict_total(segment_order()),
{
    let lt = segment_order();
    lemma_char_order();
    assert forall|x: Seq<char>| !#[trigger] lt(x, x) by {
        lemma_lex_irreflexive(x, char_order());
    }
    assert forall|x: Seq<char>, y: Seq<char>, z: Seq<char>| #[trigger]
        lt(x, y) && #[trigger] lt(y, z) implies lt(x, z) by {
        lemma_lex_transitive(x, y, z, char_order());
    }
    assert forall|x: Seq<char>, y: Seq<char>| x != y implies #[trigger] lt(x, y) || #[trigger] lt(
        y,
        x,
    ) by {
        lemma_lex_total(x, y, char_order());
    }
}

/// No path sorts before itself.
pub proof fn lemma_path_lt_irreflexive(a: Seq<Seq<char>>)
    ensures
        !path_lt(a, a),
{
    lemma_lex_irreflexive(a, segment_order());
}

/// Where `a` sorts before `b` and `b` before `c`, `a` sorts before `c`.
pub proof fn lemma_path_lt_transitive(a: Seq<Seq<char>>, b: Seq<Seq<char>>, c: Seq<Seq<char>>)
    requires
        path_lt(a, b),
        path_lt(b, c),
    ensures
        path_lt(a, c),
{
    lemma_segment_order();
    lemma_lex_transitive(a, b, c, segment_order());
}

/// Two paths are the same, or one of them sorts before the other.
pub proof fn lemma_path_lt_total(a: Seq<Seq<char>>, b: Seq<Seq<char>>)
    ensures
        a == b || path_lt(a, b) || path_lt(b, a),
{
    lemma_segment_order();
    lemma_lex_total(a, b, segment_order());
}

/// Of two paths at most one sorts before the other.
pub proof fn lemma_path_lt_asymmetric(a: Seq<Seq<char>>, b: Seq<Seq<char>>)
    requires
        path_lt(a, b),
    ensures
        !path_lt(b, a),
{
    if path_lt(b, a) {
        lemma_path_lt_transitive(a, b, a);
        lemma_path_lt_irreflexive(a);
    }
}

/// What sorts between two sequences shares the prefix that the two share.
pub proof fn lemma_lex_between<T>(
    a: Seq<T>,
    b: Seq<T>,
    c: Seq<T>,
    n: nat,
    lt: spec_fn(T, T) -> bool,
)
    requires
        strict_total(lt),
        lex_lt(a, b, lt),
        lex_lt(b, c, lt),
        common_prefix_len(a, c) >= n,
    ensures
        common_prefix_len(a, b) >= n,
        common_prefix_len(b, c) >= n,
{
    lemma_common_prefix_len(a, b);
    lemma_common_prefix_len(b, c);
    lemma_common_prefix_len(a, c);
    let k = common_prefix_len(a, b) as int;
    if k < n {
        assert(lt(a[k], b[k]));
        assert(a[k] == c[k]);
        lemma_common_prefix_unique(b, c, k);
        assert(lt(b[k], c[k]));
        assert(lt(a[k], a[k]));
    }
    let m = common_prefix_len(b, c) as int;
    if m < n {
        assert(a[m] == b[m]);
        assert(a[m] == c[m]);
    }
}

/// A path that sorts between two paths shares the prefix that the two share.
pub proof fn lemma_path_between(
    a: Seq<Seq<char>>,
    b: Seq<Seq<char>>,
    c: Seq<Seq<char>>,
    n: nat,
)
    requires
        path_lt(a, b),
        path_lt(b, c),
        common_prefix_len(a, c) >= n,
    ensures
        common_prefix_len(a, b) >= n,
        common_prefix_len(b, c) >= n,
{
    lemma_segment_order();
    lemma_lex_between(a, b, c, n, segment_order());
}

/// A proper prefix of a path sorts before the path.
pub proof fn lemma_prefix_sorts_first(a: Seq<Seq<char>>, b: Seq<Seq<char>>)
    requires
        is_proper_prefix(a, b),
    ensures
        path_lt(a, b),
{
    assert(a.take(a.len() as int) =~= a);
    lemma_shared_take(a, b, a.len() as int);
    lemma_common_prefix_len(a, b);
}

proof fn lemma_ascending_upto(paths: Seq<Seq<Seq<char>>>, i: int, j: int)
    requires
        paths_ascending(paths),
        0 <= i < j < paths.len(),
    ensures
        path_lt(paths[i], paths[j]),
    decreases j - i,
{
    if i + 1 < j {
        lemma_ascending_upto(paths, i, j - 1);
        assert(path_lt(paths[j - 1], paths[j - 1 + 1]));
        lemma_path_lt_transitive(paths[i], paths[j - 1], paths[j]);
    }
}

/// Paths are sorted exactly where each of them sorts before the next.
pub proof fn lemma_sorted_by_neighbours(paths: Seq<Seq<Seq<char>>>)
    ensures
        paths_ascending(paths) <==> paths_sorted(paths),
{
    if paths_ascending(paths) {
        assert forall|i: int, j: int|
            #![trigger paths[i], paths[j]]
            0 <= i < j < paths.len() implies path_lt(paths[i], paths[j]) by {
            lemma_ascending_upto(paths, i, j);
        }
    }
    if paths_sorted(paths) {
        assert forall|i: int| 0 <= i && i + 1 < paths.len() implies path_lt(
            #[trigger] paths[i],
            paths[i + 1],
        ) by {
            assert(path_lt(paths[i], paths[i + 1]));
        }
    }
}

/// Some path is a proper prefix of the next.
pub open spec fn neighbours_conflict(paths: Seq<Seq<Seq<char>>>) -> bool {
    exists|i: int|
        0 <= i && i + 1 < paths.len() && is_proper_prefix(#[trigger] paths[i], paths[i + 1])
}

/// Among sorted paths a conflict shows between two neighbours: a path that
/// is a proper prefix of any path is one of the path next to it.
pub proof fn lemma_conflict_between_neighbours(paths: Seq<Seq<Seq<char>>>)
    requires
        paths_sorted(paths),
    ensures
        has_conflict(paths) <==> neighbours_conflict(paths),
{
    if has_conflict(paths) {
        let (i, j) = choose|i: int, j: int|
            0 <= i < paths.len() && 0 <= j < paths.len() && #[trigger] is_proper_prefix(
                paths[i],
                paths[j],
            );
        let a = paths[i];
        let c = paths[j];
        lemma_prefix_sorts_first(a, c);
        if j < i {
            assert(path_lt(paths[j], paths[i]));
            lemma_path_lt_asymmetric(a, c);
        }
        let b = paths[i + 1];
        assert(path_lt(paths[i], paths[i + 1]));
        if i + 1 < j {
            assert(path_lt(paths[i + 1], paths[j]));
            assert(a.take(a.len() as int) =~= a);
            lemma_shared_take(a, c, a.len() as int);
            lemma_path_between(a, b, c, a.len());
            lemma_common_prefix_len(a, b);
            assert(b.take(a.len() as int) =~= a);
        }
        assert(is_proper_prefix(paths[i], paths[i + 1]));
    }
    if neighbours_conflict(paths) {
        let i = choose|i: int|
            0 <= i && i + 1 < paths.len() && is_proper_prefix(#[trigger] paths[i], paths[i + 1]);
        assert(is_proper_prefix(paths[i], paths[i + 1]));
    }
}

} // verus!
