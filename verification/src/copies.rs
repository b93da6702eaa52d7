//! What the contracts say of values that were cloned.

use vstd::prelude::*;

verus! {

/// A clone of a `T` is always equal to the value it was made from.
pub open spec fn faithful_clone<T: Clone>() -> bool {
    forall|a: T, b: T| #[trigger] cloned(a, b) ==> a == b
}

/// `copies` lists, place by place, a clone of each value of `sources`.
pub open spec fn clones_of<T: Clone>(sources: Seq<T>, copies: Seq<T>) -> bool {
    &&& copies.len() == sources.len()
    &&& forall|i: int| 0 <= i < sources.len() ==> cloned(sources[i], #[trigger] copies[i])
}

/// Where clones are faithful, a sequence of clones is the sequence itself.
pub proof fn lemma_faithful_clones<T: Clone>(sources: Seq<T>, copies: Seq<T>)
    requires
        faithful_clone::<T>(),
        clones_of(sources, copies),
    ensures
        copies == sources,
{
    assert(copies =~= sources);
}

/// Clones of two sequences, one after the other, are clones of the two
/// joined.
pub proof fn lemma_clones_join<T: Clone>(
    a: Seq<T>,
    a_copies: Seq<T>,
    b: Seq<T>,
    b_copies: Seq<T>,
)
    requires
        clones_of(a, a_copies),
        clones_of(b, b_copies),
    ensures
        clones_of(a + b, a_copies + b_copies),
{
    let joined = a_copies + b_copies;
    assert forall|i: int| 0 <= i < (a + b).len() implies cloned((a + b)[i], #[trigger] joined[i]) by {
        if i < a.len() {
            assert(cloned(a[i], a_copies[i]));
        } else {
            assert(cloned(b[i - a.len()], b_copies[i - a.len()]));
        }
    }
}

} // verus!
