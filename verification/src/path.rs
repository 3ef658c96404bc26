//! Key paths: their common prefixes and the order that every stage shares.

use vstd::prelude::*;
use crate::views::lemma_deep_view;

verus! {

/// `a` and `b` hold the same elements at every position below `k`.
pub open spec fn agree_upto<T>(a: Seq<T>, b: Seq<T>, k: int) -> bool {
    &&& 0 <= k <= a.len()
    &&& k <= b.len()
    &&& forall|i: int| 0 <= i < k ==> a[i] == b[i]
}

/// First position at or after `i` where `a` and `b` differ or one of them ends.
pub open spec fn first_difference<T>(a: Seq<T>, b: Seq<T>, i: nat) -> nat
    decreases a.len() - i,
{
    if i < a.len() && i < b.len() && a[i as int] == b[i as int] {
        first_difference(a, b, i + 1)
    } else {
        i
    }
}

/// Length of the longest common prefix of `a` and `b`.
pub open spec fn common_prefix_len<T>(a: Seq<T>, b: Seq<T>) -> nat {
    first_difference(a, b, 0)
}

/// `k` is where the common prefix of `a` and `b` ends.
pub open spec fn ends_common_prefix<T>(a: Seq<T>, b: Seq<T>, k: int) -> bool {
    &&& agree_upto(a, b, k)
    &&& k < a.len() && k < b.len() ==> a[k] != b[k]
}

proof fn lemma_first_difference<T>(a: Seq<T>, b: Seq<T>, i: nat)
    requires
        agree_upto(a, b, i as int),
    ensures
        ends_common_prefix(a, b, first_difference(a, b, i) as int),
        i <= first_difference(a, b, i),
    decreases a.len() - i,
{
    if i < a.len() && i < b.len() && a[i as int] == b[i as int] {
        lemma_first_difference(a, b, i + 1);
    }
}

/// The common prefix length is the one position that ends the common prefix.
pub proof fn lemma_common_prefix_len<T>(a: Seq<T>, b: Seq<T>)
    ensures
        ends_common_prefix(a, b, common_prefix_len(a, b) as int),
{
    lemma_first_difference(a, b, 0);
}

/// Any position that ends the common prefix is the common prefix length.
pub proof fn lemma_common_prefix_unique<T>(a: Seq<T>, b: Seq<T>, k: int)
    requires
        ends_common_prefix(a, b, k),
    ensures
        k == common_prefix_len(a, b),
{
    lemma_common_prefix_len(a, b);
    let c = common_prefix_len(a, b) as int;
    if k < c {
        assert(a[k] == b[k]);
    } else if c < k {
        assert(a[c] == b[c]);
    }
}

/// Lexicographic order on sequences over the element order `lt`: the first
/// difference decides, and a proper prefix sorts first.
pub open spec fn lex_lt<T>(a: Seq<T>, b: Seq<T>, lt: spec_fn(T, T) -> bool) -> bool {
    let k = common_prefix_len(a, b) as int;
    if k < a.len() && k < b.len() {
        lt(a[k], b[k])
    } else {
        a.len() < b.len()
    }
}

/// Order of two characters: by code point.
pub open spec fn char_order() -> spec_fn(char, char) -> bool {
    |x: char, y: char| x < y
}

/// Order of two segments: lexicographic by code point.
pub open spec fn segment_lt(x: Seq<char>, y: Seq<char>) -> bool {
    lex_lt(x, y, char_order())
}

/// The order of segments as a relation, for use as the element order of paths.
pub open spec fn segment_order() -> spec_fn(Seq<char>, Seq<char>) -> bool {
    |x: Seq<char>, y: Seq<char>| segment_lt(x, y)
}

/// The order of key paths: segment by segment, a proper prefix first.
pub open spec fn path_lt(a: Seq<Seq<char>>, b: Seq<Seq<char>>) -> bool {
    lex_lt(a, b, segment_order())
}

/// `a` is a prefix of `b` and shorter than it.
pub open spec fn is_proper_prefix<T>(a: Seq<T>, b: Seq<T>) -> bool {
    a.len() < b.len() && b.take(a.len() as int) == a
}

/// Some path is a leaf and also a prefix of another path.
pub open spec fn has_conflict(paths: Seq<Seq<Seq<char>>>) -> bool {
    exists|i: int, j: int|
        0 <= i < paths.len() && 0 <= j < paths.len() && #[trigger] is_proper_prefix(
            paths[i],
            paths[j],
        )
}

/// The paths ascend strictly: each sorts before every later one, so none
/// stands twice.
pub open spec fn paths_sorted(paths: Seq<Seq<Seq<char>>>) -> bool {
    forall|i: int, j: int|
        #![trigger paths[i], paths[j]]
        0 <= i < j < paths.len() ==> path_lt(paths[i], paths[j])
}

/// Each path sorts before the next.
pub open spec fn paths_ascending(paths: Seq<Seq<Seq<char>>>) -> bool {
    forall|i: int| 0 <= i && i + 1 < paths.len() ==> path_lt(#[trigger] paths[i], paths[i + 1])
}

/// Sequences with the same first `n` elements share a prefix of that length.
pub proof fn lemma_shared_take<T>(a: Seq<T>, b: Seq<T>, n: int)
    requires
        0 <= n <= a.len(),
        n <= b.len(),
        a.take(n) == b.take(n),
    ensures
        common_prefix_len(a, b) >= n,
{
    lemma_common_prefix_len(a, b);
    let k = common_prefix_len(a, b) as int;
    if k < n {
        assert(a.take(n)[k] == a[k]);
        assert(b.take(n)[k] == b[k]);
        assert(a[k] == b[k]);
    }
}

/// Compares two strings with `<` of `str`, which std documents as the
/// lexicographic order of their bytes, that is of their code points.
#[verifier::external_body]
fn segment_less(a: &str, b: &str) -> (r: bool)
    ensures
        r == segment_lt(a@, b@),
{
    a < b
}

/// Length of the longest common prefix of `a` and `b`.
pub fn common_prefix(a: &Vec<String>, b: &Vec<String>) -> (k: usize)
    ensures
        k == common_prefix_len(a.deep_view(), b.deep_view()),
{
    let mut i: usize = 0;
    proof {
        lemma_deep_view(*a);
        lemma_deep_view(*b);
    }
    while i < a.len() && i < b.len()
        invariant
            agree_upto(a.deep_view(), b.deep_view(), i as int),
            a.deep_view().len() == a@.len(),
            b.deep_view().len() == b@.len(),
            forall|j: int| 0 <= j < a@.len() ==> #[trigger] a.deep_view()[j] == a@[j]@,
            forall|j: int| 0 <= j < b@.len() ==> #[trigger] b.deep_view()[j] == b@[j]@,
        ensures
            ends_common_prefix(a.deep_view(), b.deep_view(), i as int),
        decreases a.len() - i,
    {
        if a[i] != b[i] {
            break;
        }
        i = i + 1;
    }
    proof {
        lemma_common_prefix_unique(a.deep_view(), b.deep_view(), i as int);
    }
    i
}

/// Whether `a` sorts strictly before `b`.
pub fn path_less(a: &Vec<String>, b: &Vec<String>) -> (r: bool)
    ensures
        r == path_lt(a.deep_view(), b.deep_view()),
{
    let k = common_prefix(a, b);
    proof {
        lemma_deep_view(*a);
        lemma_deep_view(*b);
    }
    if k < a.len() && k < b.len() {
        segment_less(a[k].as_str(), b[k].as_str())
    } else {
        a.len() < b.len()
    }
}

/// Whether `a` is a prefix of `b` and shorter than it.
pub fn proper_prefix(a: &Vec<String>, b: &Vec<String>) -> (r: bool)
    ensures
        r == is_proper_prefix(a.deep_view(), b.deep_view()),
{
    if a.len() < b.len() {
        let k = common_prefix(a, b);
        proof {
            let av = a.deep_view();
            let bv = b.deep_view();
            lemma_common_prefix_len(av, bv);
            if k == a.len() {
                assert(bv.take(av.len() as int) =~= av);
            } else if bv.take(av.len() as int) == av {
                assert(av.take(av.len() as int) =~= av);
                lemma_shared_take(av, bv, av.len() as int);
            }
        }
        k == a.len()
    } else {
        false
    }
}

/// Whether `a` and `b` are the same path.
pub fn path_equal(a: &Vec<String>, b: &Vec<String>) -> (r: bool)
    ensures
        r == (a.deep_view() == b.deep_view()),
{
    let k = common_prefix(a, b);
    proof {
        lemma_common_prefix_len(a.deep_view(), b.deep_view());
        if k == a.len() && k == b.len() {
            assert(a.deep_view() =~= b.deep_view());
        }
    }
    k == a.len() && k == b.len()
}

} // verus!
