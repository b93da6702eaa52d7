//! Sequences of ordered values: what it means for one to ascend, and what
//! inserting a value into, or deleting a value from, its contents gives.

use crate::order::{
    equivalent, lemma_precedes_transitive, lemma_trichotomy, precedes, total_order,
};
use vstd::prelude::*;

verus! {

/// Every value of `s` is strictly smaller than `bound`.
pub open spec fn all_precede<T: Ord>(s: Seq<T>, bound: T) -> bool {
    forall|i: int| 0 <= i < s.len() ==> precedes(#[trigger] s[i], bound)
}

/// Every value of `s` is strictly greater than `bound`.
pub open spec fn all_follow<T: Ord>(s: Seq<T>, bound: T) -> bool {
    forall|i: int| 0 <= i < s.len() ==> precedes(bound, #[trigger] s[i])
}

/// `s` is strictly ascending: each value is smaller than all later ones.
pub open spec fn ascending<T: Ord>(s: Seq<T>) -> bool {
    forall|i: int, j: int| 0 <= i < j < s.len() ==> precedes(#[trigger] s[i], #[trigger] s[j])
}

/// `s` has a value equivalent to `v`.
pub open spec fn holds<T: Ord>(s: Seq<T>, v: T) -> bool {
    exists|i: int| 0 <= i < s.len() && equivalent(#[trigger] s[i], v)
}

/// The values strictly smaller than `v`.
pub open spec fn below<T: Ord>(v: T) -> spec_fn(T) -> bool {
    |x: T| precedes(x, v)
}

/// The values strictly greater than `v`.
pub open spec fn above<T: Ord>(v: T) -> spec_fn(T) -> bool {
    |x: T| precedes(v, x)
}

/// The values that are not equivalent to `v`.
pub open spec fn apart_from<T: Ord>(v: T) -> spec_fn(T) -> bool {
    |x: T| !equivalent(x, v)
}

/// The contents `s` after `v` has been added to them: `s` itself where it
/// already holds an equivalent value, and otherwise the smaller values of
/// `s`, then `v`, then the greater ones.
#[verifier::opaque]
pub open spec fn with_value<T: Ord>(s: Seq<T>, v: T) -> Seq<T> {
    if holds(s, v) {
        s
    } else {
        s.filter(below(v)) + seq![v] + s.filter(above(v))
    }
}

/// The contents `s` after every value equivalent to `target` has been
/// taken out, the others staying in their order.
pub open spec fn without<T: Ord>(s: Seq<T>, target: T) -> Seq<T> {
    s.filter(apart_from(target))
}

/// A filter that every value passes changes nothing.
pub proof fn lemma_filter_keeps_all<A>(s: Seq<A>, pred: spec_fn(A) -> bool)
    requires
        forall|i: int| 0 <= i < s.len() ==> pred(#[trigger] s[i]),
    ensures
        s.filter(pred) == s,
    decreases s.len(),
{
    if s.len() == 0 {
        reveal(Seq::filter);
    } else {
        lemma_filter_keeps_all(s.drop_last(), pred);
        s.drop_last().lemma_filter_push(s.last(), pred);
        assert(s.drop_last().push(s.last()) =~= s);
    }
}

/// A filter that no value passes leaves nothing.
pub proof fn lemma_filter_drops_all<A>(s: Seq<A>, pred: spec_fn(A) -> bool)
    requires
        forall|i: int| 0 <= i < s.len() ==> !pred(#[trigger] s[i]),
    ensures
        s.filter(pred) == Seq::<A>::empty(),
    decreases s.len(),
{
    if s.len() == 0 {
        reveal(Seq::filter);
        assert(s =~= Seq::<A>::empty());
    } else {
        lemma_filter_drops_all(s.drop_last(), pred);
        s.drop_last().lemma_filter_push(s.last(), pred);
        assert(s.drop_last().push(s.last()) =~= s);
    }
}

/// Whatever a filter lets through was in the sequence.
pub proof fn lemma_filter_members<A>(s: Seq<A>, pred: spec_fn(A) -> bool)
    ensures
        forall|k: int|
            0 <= k < s.filter(pred).len() ==> pred(#[trigger] s.filter(pred)[k]) && s.contains(
                s.filter(pred)[k],
            ),
{
    let kept = s.filter(pred);
    assert forall|k: int| 0 <= k < kept.len() implies pred(#[trigger] kept[k]) && s.contains(
        kept[k],
    ) by {
        s.lemma_filter_pred(pred, k);
        assert(kept.contains(kept[k]));
        s.lemma_filter_contains_rev(pred, kept[k]);
    }
}

/// Filtering an ascending sequence leaves an ascending sequence.
pub proof fn lemma_filter_ascending<T: Ord>(s: Seq<T>, pred: spec_fn(T) -> bool)
    requires
        ascending(s),
    ensures
        ascending(s.filter(pred)),
    decreases s.len(),
{
    if s.len() == 0 {
        reveal(Seq::filter);
    } else {
        let front = s.drop_last();
        lemma_filter_ascending(front, pred);
        front.lemma_filter_push(s.last(), pred);
        assert(front.push(s.last()) =~= s);
        lemma_filter_members(front, pred);
        let kept = front.filter(pred);
        assert forall|k: int| 0 <= k < kept.len() implies precedes(#[trigger] kept[k], s.last()) by {
            assert(front.contains(kept[k]));
            let j = choose|j: int| 0 <= j < front.len() && front[j] == kept[k];
            assert(precedes(s[j], s[s.len() - 1]));
        }
    }
}

/// Two ascending runs around a value that separates them form one
/// ascending run.
pub proof fn lemma_ascending_join<T: Ord>(l: Seq<T>, x: T, r: Seq<T>)
    requires
        total_order::<T>(),
        ascending(l),
        ascending(r),
        all_precede(l, x),
        all_follow(r, x),
    ensures
        ascending(l + seq![x] + r),
{
    let s = l + seq![x] + r;
    assert forall|i: int, j: int| 0 <= i < j < s.len() implies precedes(
        #[trigger] s[i],
        #[trigger] s[j],
    ) by {
        if j < l.len() {
            assert(precedes(l[i], l[j]));
        } else if j == l.len() {
            assert(precedes(l[i], x));
        } else if i < l.len() {
            assert(precedes(l[i], x));
            assert(precedes(x, r[j - l.len() - 1]));
            lemma_precedes_transitive(l[i], x, r[j - l.len() - 1]);
        } else if i == l.len() {
            assert(precedes(x, r[j - l.len() - 1]));
        } else {
            assert(precedes(r[i - l.len() - 1], r[j - l.len() - 1]));
        }
    }
}

/// Deleting a value that the contents do not hold leaves them as they are.
pub proof fn lemma_without_absent<T: Ord>(s: Seq<T>, target: T)
    requires
        !holds(s, target),
    ensures
        without(s, target) == s,
{
    lemma_filter_keeps_all(s, apart_from(target));
}

/// Deleting from ascending contents leaves ascending contents that hold
/// nothing equivalent to the deleted value, and keeps every other value.
pub proof fn lemma_without_ascending<T: Ord>(s: Seq<T>, target: T)
    requires
        ascending(s),
    ensures
        ascending(without(s, target)),
        !holds(without(s, target), target),
        forall|i: int|
            0 <= i < s.len() && !equivalent(#[trigger] s[i], target) ==> without(
                s,
                target,
            ).contains(s[i]),
{
    lemma_filter_ascending(s, apart_from(target));
    lemma_filter_members(s, apart_from(target));
    assert forall|i: int| 0 <= i < s.len() && !equivalent(#[trigger] s[i], target) implies without(
        s,
        target,
    ).contains(s[i]) by {
        s.lemma_filter_contains(apart_from(target), i);
    }
}

/// Nothing is left of the contents exactly when every value of them is
/// equivalent to the deleted one.
pub proof fn lemma_without_empty<T: Ord>(s: Seq<T>, target: T)
    ensures
        without(s, target).len() == 0 <==> forall|i: int|
            0 <= i < s.len() ==> equivalent(#[trigger] s[i], target),
{
    if forall|i: int| 0 <= i < s.len() ==> equivalent(#[trigger] s[i], target) {
        lemma_filter_drops_all(s, apart_from(target));
    } else {
        let i = choose|i: int| 0 <= i < s.len() && !equivalent(#[trigger] s[i], target);
        s.lemma_filter_contains(apart_from(target), i);
    }
}

/// Joined contents hold a value exactly when one of the two parts does.
pub proof fn lemma_holds_join<T: Ord>(a: Seq<T>, b: Seq<T>, v: T)
    ensures
        holds(a + b, v) <==> holds(a, v) || holds(b, v),
{
    let s = a + b;
    if holds(s, v) {
        let i = choose|i: int| 0 <= i < s.len() && equivalent(#[trigger] s[i], v);
        if i < a.len() {
            assert(equivalent(a[i], v));
        } else {
            assert(equivalent(b[i - a.len()], v));
        }
    }
    if holds(a, v) {
        let i = choose|i: int| 0 <= i < a.len() && equivalent(#[trigger] a[i], v);
        assert(equivalent(s[i], v));
    }
    if holds(b, v) {
        let i = choose|i: int| 0 <= i < b.len() && equivalent(#[trigger] b[i], v);
        assert(equivalent(s[i + a.len()], v));
    }
}

/// Contents that are all greater than `v` do not hold it, and a filter for
/// the greater values keeps them all while one for the smaller drops them.
pub proof fn lemma_all_follow<T: Ord>(s: Seq<T>, v: T)
    requires
        total_order::<T>(),
        all_follow(s, v),
    ensures
        !holds(s, v),
        s.filter(above(v)) == s,
        s.filter(below(v)) == Seq::<T>::empty(),
{
    assert forall|i: int| 0 <= i < s.len() implies above(v)(#[trigger] s[i]) && !below(v)(s[i])
        && !equivalent(s[i], v) by {
        assert(precedes(v, s[i]));
        lemma_trichotomy(s[i], v);
    }
    lemma_filter_keeps_all(s, above(v));
    lemma_filter_drops_all(s, below(v));
}

/// Contents that are all smaller than `v` do not hold it, and a filter for
/// the smaller values keeps them all while one for the greater drops them.
pub proof fn lemma_all_precede<T: Ord>(s: Seq<T>, v: T)
    requires
        total_order::<T>(),
        all_precede(s, v),
    ensures
        !holds(s, v),
        s.filter(below(v)) == s,
        s.filter(above(v)) == Seq::<T>::empty(),
{
    assert forall|i: int| 0 <= i < s.len() implies below(v)(#[trigger] s[i]) && !above(v)(s[i])
        && !equivalent(s[i], v) by {
        assert(precedes(s[i], v));
        lemma_trichotomy(s[i], v);
    }
    lemma_filter_keeps_all(s, below(v));
    lemma_filter_drops_all(s, above(v));
}

/// A value added to contents whose end is all greater than it is added to
/// what stands before that end.
pub proof fn lemma_with_value_front<T: Ord>(front: Seq<T>, back: Seq<T>, v: T)
    requires
        total_order::<T>(),
        all_follow(back, v),
    ensures
        with_value(front + back, v) == with_value(front, v) + back,
{
    reveal(with_value);
    lemma_all_follow(back, v);
    lemma_holds_join(front, back, v);
    if !holds(front, v) {
        Seq::filter_distributes_over_add(front, back, below(v));
        Seq::filter_distributes_over_add(front, back, above(v));
        let lo = front.filter(below(v));
        let hi = front.filter(above(v));
        assert(lo + Seq::<T>::empty() =~= lo);
        assert(lo + seq![v] + (hi + back) =~= lo + seq![v] + hi + back);
    }
}

/// A value added to contents whose beginning is all smaller than it is
/// added to what stands after that beginning.
pub proof fn lemma_with_value_back<T: Ord>(front: Seq<T>, back: Seq<T>, v: T)
    requires
        total_order::<T>(),
        all_precede(front, v),
    ensures
        with_value(front + back, v) == front + with_value(back, v),
{
    reveal(with_value);
    lemma_all_precede(front, v);
    lemma_holds_join(front, back, v);
    if !holds(back, v) {
        Seq::filter_distributes_over_add(front, back, below(v));
        Seq::filter_distributes_over_add(front, back, above(v));
        let lo = back.filter(below(v));
        let hi = back.filter(above(v));
        assert(Seq::<T>::empty() + hi =~= hi);
        assert(front + lo + seq![v] + hi =~= front + (lo + seq![v] + hi));
    }
}

/// Adding a value smaller than `x` to contents that `x` splits into a
/// smaller run `l` and a greater run `r` adds it to `l`.
pub proof fn lemma_with_value_smaller<T: Ord>(l: Seq<T>, x: T, r: Seq<T>, v: T)
    requires
        total_order::<T>(),
        all_follow(r, x),
        precedes(v, x),
    ensures
        with_value(l + seq![x] + r, v) == with_value(l, v) + seq![x] + r,
{
    let back = seq![x] + r;
    assert(all_follow(back, v)) by {
        assert forall|i: int| 0 <= i < back.len() implies precedes(v, #[trigger] back[i]) by {
            if i > 0 {
                assert(precedes(x, r[i - 1]));
                lemma_precedes_transitive(v, x, r[i - 1]);
            }
        }
    }
    lemma_with_value_front(l, back, v);
    assert(l + back =~= l + seq![x] + r);
    assert(with_value(l, v) + back =~= with_value(l, v) + seq![x] + r);
}

/// Adding a value greater than `x` to contents that `x` splits into a
/// smaller run `l` and a greater run `r` adds it to `r`.
pub proof fn lemma_with_value_greater<T: Ord>(l: Seq<T>, x: T, r: Seq<T>, v: T)
    requires
        total_order::<T>(),
        all_precede(l, x),
        precedes(x, v),
    ensures
        with_value(l + seq![x] + r, v) == l + seq![x] + with_value(r, v),
{
    let front = l + seq![x];
    assert(all_precede(front, v)) by {
        assert forall|i: int| 0 <= i < front.len() implies precedes(#[trigger] front[i], v) by {
            if i < l.len() {
                assert(precedes(l[i], x));
                lemma_precedes_transitive(l[i], x, v);
            }
        }
    }
    lemma_with_value_back(front, r, v);
}

/// Adding a value to contents that hold an equivalent one changes nothing.
pub proof fn lemma_with_value_equivalent<T: Ord>(l: Seq<T>, x: T, r: Seq<T>, v: T)
    requires
        equivalent(x, v),
    ensures
        with_value(l + seq![x] + r, v) == l + seq![x] + r,
{
    reveal(with_value);
    let s = l + seq![x] + r;
    assert(equivalent(s[l.len() as int], v));
}

/// Adding a value to no contents gives that value alone.
pub proof fn lemma_with_value_alone<T: Ord>(v: T)
    ensures
        with_value(Seq::<T>::empty(), v) == seq![v],
{
    reveal(with_value);
    let none = Seq::<T>::empty();
    lemma_filter_keeps_all(none, below(v));
    lemma_filter_keeps_all(none, above(v));
    assert(none + seq![v] + none =~= seq![v]);
}

/// A bound above the contents and above the value added to them is a
/// bound above the result; likewise for a bound below.
pub proof fn lemma_with_value_bounded<T: Ord>(s: Seq<T>, v: T, bound: T)
    ensures
        all_precede(s, bound) && precedes(v, bound) ==> all_precede(with_value(s, v), bound),
        all_follow(s, bound) && precedes(bound, v) ==> all_follow(with_value(s, v), bound),
{
    lemma_with_value_members(s, v);
    let w = with_value(s, v);
    assert forall|i: int| 0 <= i < w.len() implies (w[i] == v || exists|j: int|
        0 <= j < s.len() && s[j] == #[trigger] w[i]) by {
        if w[i] != v {
            assert(s.contains(w[i]));
        }
    }
}

/// Adding a value brings in nothing but that value.
pub proof fn lemma_with_value_members<T: Ord>(s: Seq<T>, v: T)
    ensures
        forall|i: int|
            0 <= i < with_value(s, v).len() ==> #[trigger] with_value(s, v)[i] == v || s.contains(
                with_value(s, v)[i],
            ),
{
    reveal(with_value);
    let w = with_value(s, v);
    lemma_filter_members(s, below(v));
    lemma_filter_members(s, above(v));
    assert forall|i: int| 0 <= i < w.len() implies #[trigger] w[i] == v || s.contains(w[i]) by {
        if holds(s, v) {
            assert(s.contains(s[i]));
        } else {
            let lo = s.filter(below(v));
            let hi = s.filter(above(v));
            if i < lo.len() {
                assert(w[i] == lo[i]);
            } else if i > lo.len() {
                assert(w[i] == hi[i - lo.len() - 1]);
            }
        }
    }
}

} // verus!
