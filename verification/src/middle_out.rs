//! The order in which the values of a sorted sequence are inserted into an
//! empty tree so that the tree comes out balanced: the midpoint first, then
//! the run before it in the same way, then the run after it.

use crate::copies::{clones_of, faithful_clone, lemma_faithful_clones};
use vstd::prelude::*;
use vstd::seq_lib::{lemma_multiset_commutative, to_multiset_contains};

verus! {

/// The place of the midpoint in a run of `len` values; of the two middle
/// places of a run of even length, the first.
pub open spec fn midpoint(len: nat) -> int
    recommends
        len > 0,
{
    (len - 1) / 2
}

/// The midpoint of `s`, then the values before it in midpoint order, then
/// the values after it in midpoint order.
pub open spec fn midpoint_order<T>(s: Seq<T>) -> Seq<T>
    decreases s.len(),
{
    if s.len() == 0 {
        Seq::empty()
    } else {
        let mid = midpoint(s.len());
        seq![s[mid]] + midpoint_order(s.take(mid)) + midpoint_order(s.skip(mid + 1))
    }
}

/// The midpoint order is a rearrangement: it holds each value as often as
/// the sequence does, and so has its length and exactly its values.
pub proof fn lemma_midpoint_order_permutes<T>(s: Seq<T>)
    ensures
        midpoint_order(s).to_multiset() == s.to_multiset(),
        midpoint_order(s).len() == s.len(),
        forall|v: T| #[trigger] midpoint_order(s).contains(v) <==> s.contains(v),
    decreases s.len(),
{
    broadcast use vstd::multiset::group_multiset_axioms;

    let out = midpoint_order(s);
    if s.len() == 0 {
        assert(out =~= s);
    } else {
        let mid = midpoint(s.len());
        let before = s.take(mid);
        let after = s.skip(mid + 1);
        lemma_midpoint_order_permutes(before);
        lemma_midpoint_order_permutes(after);
        assert(s =~= before + seq![s[mid]] + after);
        lemma_multiset_commutative(before + seq![s[mid]], after);
        lemma_multiset_commutative(before, seq![s[mid]]);
        lemma_multiset_commutative(seq![s[mid]] + midpoint_order(before), midpoint_order(after));
        lemma_multiset_commutative(seq![s[mid]], midpoint_order(before));
        assert(out.to_multiset() =~= s.to_multiset());
    }
    out.to_multiset_ensures();
    s.to_multiset_ensures();
    assert forall|v: T| #[trigger] out.contains(v) <==> s.contains(v) by {
        to_multiset_contains(out, v);
        to_multiset_contains(s, v);
    }
}

/// Appends to `order` clones of the values of `values[lo..hi]`, in
/// midpoint order.
fn emit_run<T: Clone>(values: &[T], lo: usize, hi: usize, order: &mut Vec<T>)
    requires
        lo <= hi <= values@.len(),
    ensures
        final(order)@.len() == old(order)@.len() + (hi - lo),
        final(order)@.take(old(order)@.len() as int) == old(order)@,
        clones_of(
            midpoint_order(values@.subrange(lo as int, hi as int)),
            final(order)@.skip(old(order)@.len() as int),
        ),
    decreases hi - lo,
{
    let ghost run = values@.subrange(lo as int, hi as int);
    let ghost before = order@;
    if lo < hi {
        let mid = lo + (hi - 1 - lo) / 2;
        order.push(values[mid].clone());
        let ghost first = order@;
        emit_run(values, lo, mid, order);
        let ghost second = order@;
        emit_run(values, mid + 1, hi, order);
        proof {
            let m = midpoint(run.len());
            assert(m == mid - lo);
            assert(run.take(m) =~= values@.subrange(lo as int, mid as int));
            assert(run.skip(m + 1) =~= values@.subrange(mid + 1, hi as int));
            let n = before.len() as int;
            let out = order@.skip(n);
            let goal = midpoint_order(run);
            assert(order@.take(n) =~= before) by {
                assert(second.take(n) =~= first.take(n));
                assert(order@.take(n) =~= second.take(n));
            }
            assert forall|i: int| 0 <= i < goal.len() implies cloned(goal[i], #[trigger] out[i]) by {
                let left = midpoint_order(run.take(m));
                let right = midpoint_order(run.skip(m + 1));
                if i == 0 {
                    assert(out[0] == first[n]);
                    assert(first[n] == second.take(first.len() as int)[n]);
                    assert(second[n] == order@.take(second.len() as int)[n]);
                } else if i <= left.len() {
                    assert(goal[i] == left[i - 1]);
                    assert(cloned(left[i - 1], second.skip(first.len() as int)[i - 1]));
                    assert(second[n + i] == order@.take(second.len() as int)[n + i]);
                } else {
                    assert(goal[i] == right[i - 1 - left.len()]);
                    assert(cloned(
                        right[i - 1 - left.len()],
                        order@.skip(second.len() as int)[i - 1 - left.len()],
                    ));
                }
            }
        }
    } else {
        assert(run.len() == 0);
        assert(order@.take(before.len() as int) =~= before);
    }
}

/// Lists clones of `values` in midpoint order: the midpoint first, then
/// the values before it in the same way, then the values after it.
///
/// Inserted in this order into an empty search tree, the values of an
/// ascending sequence form a balanced tree.
pub fn middle_out<T: Clone>(values: &[T]) -> (order: Vec<T>)
    ensures
        clones_of(midpoint_order(values@), order@),
        faithful_clone::<T>() ==> order@ == midpoint_order(values@),
        faithful_clone::<T>() ==> order@.to_multiset() == values@.to_multiset(),
{
    let mut order: Vec<T> = Vec::new();
    emit_run(values, 0, values.len(), &mut order);
    proof {
        assert(values@.subrange(0, values@.len() as int) =~= values@);
        assert(order@.skip(0) =~= order@);
        if faithful_clone::<T>() {
            lemma_faithful_clones(midpoint_order(values@), order@);
            lemma_midpoint_order_permutes(values@);
        }
    }
    order
}

} // verus!
