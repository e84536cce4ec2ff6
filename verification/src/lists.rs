//! Facts about lists that several proofs share.

use vstd::prelude::*;

verus! {

/// A list with one more item holds what it held and that item.
pub proof fn lemma_pushed_contains<T>(seen: Seq<T>, d: T)
    ensures
        forall|x: T| seen.push(d).contains(x) <==> seen.contains(x) || x == d,
{
    let grown = seen.push(d);
    assert forall|x: T| grown.contains(x) <==> seen.contains(x) || x == d by {
        if seen.contains(x) {
            let i = choose|i: int| 0 <= i < seen.len() && seen[i] == x;
            assert(grown[i] == x);
        }
        if x == d {
            assert(grown[seen.len() as int] == x);
        }
        if grown.contains(x) {
            let i = choose|i: int| 0 <= i < grown.len() && grown[i] == x;
            if i < seen.len() {
                assert(seen[i] == x);
            }
        }
    }
}

} // verus!
