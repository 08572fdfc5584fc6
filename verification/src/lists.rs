//! What filtering leaves of a list.

use vstd::prelude::*;

verus! {

/// Every item of a filtered list comes from the list: it passes the filter, and
/// as many items before it do as stand before it in the result.
pub proof fn lemma_filter_from<A>(s: Seq<A>, keep: spec_fn(A) -> bool, j: int) -> (i: int)
    requires
        0 <= j < s.filter(keep).len(),
    ensures
        0 <= i < s.len(),
        s[i] == s.filter(keep)[j],
        keep(s[i]),
        s.take(i).filter(keep).len() == j,
    decreases s.len(),
{
    reveal(Seq::filter);
    if s.len() == 0 {
        0
    } else {
        let n = s.len() - 1;
        assert(s.drop_last() =~= s.take(n));
        if j == s.take(n).filter(keep).len() {
            n
        } else {
            let i = lemma_filter_from(s.take(n), keep, j);
            assert(s.take(n).take(i) =~= s.take(i));
            i
        }
    }
}

} // verus!
