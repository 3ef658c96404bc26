//! Pieces of generated text that several generators share.

use vstd::prelude::*;
use vstd::string::StringExecFns;
use crate::naming::{all_ascii, cased_all, cased_segments, CaseStyle};
use crate::views::lemma_deep_view;

verus! {

/// The parts in order with `sep` between each two of them.
pub open spec fn joined(parts: Seq<Seq<char>>, sep: Seq<char>) -> Seq<char>
    decreases parts.len(),
{
    if parts.len() == 0 {
        Seq::empty()
    } else if parts.len() == 1 {
        parts[0]
    } else {
        joined(parts.drop_last(), sep) + sep + parts.last()
    }
}

/// The parts joined into one text, with `sep` between each two of them.
pub fn join(parts: &Vec<String>, sep: &str) -> (r: String)
    ensures
        r@ == joined(parts.deep_view(), sep@),
{
    let ghost pv = parts.deep_view();
    let mut out = String::new();
    let mut i: usize = 0;
    proof {
        lemma_deep_view(*parts);
    }
    assert(pv.take(0) =~= Seq::<Seq<char>>::empty());
    while i < parts.len()
        invariant
            i <= parts.len(),
            pv == parts.deep_view(),
            pv.len() == parts@.len(),
            forall|k: int| 0 <= k < parts@.len() ==> #[trigger] pv[k] == parts@[k]@,
            out@ == joined(pv.take(i as int), sep@),
        decreases parts.len() - i,
    {
        let ghost before = out@;
        if i > 0 {
            out.append(sep);
        }
        out.append(parts[i].as_str());
        proof {
            assert(pv.take(i + 1).drop_last() =~= pv.take(i as int));
            assert(pv.take(i + 1).last() == pv[i as int]);
            if i == 0 {
                assert(out@ =~= pv[0]);
            } else {
                assert(out@ =~= before + sep@ + pv[i as int]);
            }
        }
        i = i + 1;
    }
    assert(pv.take(i as int) =~= pv);
    out
}

/// `n` levels of indentation, four spaces each.
pub open spec fn indent(n: nat) -> Seq<char>
    decreases n,
{
    if n == 0 {
        Seq::empty()
    } else {
        indent((n - 1) as nat) + "    "@
    }
}

/// The name of the record type for the key prefix `prefix`: `Strings`
/// followed by the prefix's segments in Pascal case.
pub open spec fn record_name(prefix: Seq<Seq<char>>) -> Seq<char> {
    "Strings"@ + joined(cased_all(prefix, CaseStyle::Pascal), ""@)
}

/// Appends `n` levels of indentation.
pub(crate) fn push_indent(out: &mut String, n: usize)
    ensures
        final(out)@ == old(out)@ + indent(n as nat),
{
    let ghost start = out@;
    let mut i: usize = 0;
    assert(out@ =~= start + indent(0));
    while i < n
        invariant
            i <= n,
            out@ == start + indent(i as nat),
        decreases n - i,
    {
        out.append("    ");
        i = i + 1;
        assert(out@ =~= start + indent(i as nat));
    }
}

/// Appends the name of the record type for the first `n` segments of `path`.
pub(crate) fn push_record_name(out: &mut String, path: &Vec<String>, n: usize)
    requires
        n <= path.len(),
        all_ascii(path.deep_view()),
    ensures
        final(out)@ == old(out)@ + record_name(path.deep_view().take(n as int)),
{
    let ghost start = out@;
    let parts = cased_segments(path, n, CaseStyle::Pascal);
    let name = join(&parts, "");
    out.append("Strings");
    out.append(name.as_str());
    assert(out@ =~= start + record_name(path.deep_view().take(n as int)));
}

} // verus!
