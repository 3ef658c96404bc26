//! How vectors of the library's values are read in contracts.

use vstd::prelude::*;

verus! {

/// The deep view of a vector is the sequence of its elements' deep views.
pub proof fn lemma_deep_view<T: DeepView>(v: Vec<T>)
    ensures
        v.deep_view().len() == v@.len(),
        forall|i: int| 0 <= i < v@.len() ==> #[trigger] v.deep_view()[i] == v@[i].deep_view(),
{
}

/// Pushing an element pushes its deep view.
pub proof fn lemma_deep_view_push<T: DeepView>(before: Vec<T>, after: Vec<T>, x: T)
    requires
        after@ == before@.push(x),
    ensures
        after.deep_view() == before.deep_view().push(x.deep_view()),
{
    assert(after.deep_view() =~= before.deep_view().push(x.deep_view()));
}

/// A copy of `p`, segment by segment.
pub fn clone_path(p: &Vec<String>) -> (r: Vec<String>)
    ensures
        r.deep_view() == p.deep_view(),
{
    clone_prefix(p, p.len())
}

/// A copy of the first `n` segments of `p`.
pub fn clone_prefix(p: &Vec<String>, n: usize) -> (r: Vec<String>)
    requires
        n <= p.len(),
    ensures
        r.deep_view() == p.deep_view().take(n as int),
{
    let mut r: Vec<String> = Vec::new();
    let mut i: usize = 0;
    while i < n
        invariant
            i <= n <= p.len(),
            r@.len() == i,
            forall|j: int| 0 <= j < i ==> r@[j]@ == p@[j]@,
        decreases n - i,
    {
        r.push(p[i].clone());
        i = i + 1;
    }
    assert(r.deep_view() =~= p.deep_view().take(n as int));
    r
}

} // verus!
