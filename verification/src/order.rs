//! The vocabulary of total orders that the tree's contracts are written in.

use std::cmp::Ordering;
use vstd::prelude::*;
use vstd::std_specs::cmp::{OrdSpec, PartialEqSpec, PartialOrdSpec};

verus! {

/// `T`'s comparison operators agree with one another and form a lawful
/// total order, so that `cmp`, `partial_cmp`, `==` and `!=` can be reasoned
/// about through [`precedes`] and [`equivalent`].
pub open spec fn total_order<T: Ord>() -> bool {
    vstd::laws_cmp::obeys_cmp::<T>()
}

/// `a` is strictly smaller than `b`.
pub open spec fn precedes<T: Ord>(a: T, b: T) -> bool {
    a.cmp_spec(&b) == Ordering::Less
}

/// `a` is strictly greater than `b`.
pub open spec fn follows<T: Ord>(a: T, b: T) -> bool {
    a.cmp_spec(&b) == Ordering::Greater
}

/// `a` and `b` occupy the same place in the order.
pub open spec fn equivalent<T: Ord>(a: T, b: T) -> bool {
    a.cmp_spec(&b) == Ordering::Equal
}

/// The comparisons that a totally ordered type carries out are the ones
/// that [`precedes`], [`follows`] and [`equivalent`] speak of, and `==`
/// holds exactly of equivalent values.
pub proof fn lemma_comparisons_agree<T: Ord>()
    requires
        total_order::<T>(),
    ensures
        T::obeys_cmp_spec(),
        T::obeys_partial_cmp_spec(),
        T::obeys_eq_spec(),
        forall|a: T, b: T| #[trigger] a.eq_spec(&b) <==> equivalent(a, b),
        forall|a: T, b: T| #[trigger] a.partial_cmp_spec(&b) == Some(a.cmp_spec(&b)),
{
    reveal(vstd::laws_cmp::obeys_cmp_partial_ord);
    reveal(vstd::laws_cmp::obeys_cmp_ord);
    reveal(vstd::laws_cmp::obeys_partial_cmp_spec_properties);
}

/// On a totally ordered type, `==` holds exactly of equivalent values.
pub proof fn lemma_equality_agrees<T: Ord>()
    requires
        total_order::<T>(),
    ensures
        T::obeys_eq_spec(),
        forall|a: T, b: T| #[trigger] a.eq_spec(&b) <==> equivalent(a, b),
{
    lemma_comparisons_agree::<T>();
}

/// Of two values, exactly one of three holds: the first precedes the
/// second, they are equivalent, or the second precedes the first.
pub proof fn lemma_trichotomy<T: Ord>(a: T, b: T)
    requires
        total_order::<T>(),
    ensures
        precedes(a, b) || equivalent(a, b) || precedes(b, a),
        !(precedes(a, b) && equivalent(a, b)),
        !(precedes(a, b) && precedes(b, a)),
        !(equivalent(a, b) && precedes(b, a)),
        precedes(b, a) <==> follows(a, b),
        equivalent(a, b) <==> equivalent(b, a),
{
    lemma_comparisons_agree::<T>();
    reveal(vstd::laws_cmp::obeys_partial_cmp_spec_properties);
    reveal(vstd::laws_eq::obeys_eq_spec_properties);
    assert(a.partial_cmp_spec(&b) == Some(a.cmp_spec(&b)));
    assert(b.partial_cmp_spec(&a) == Some(b.cmp_spec(&a)));
    assert(a.eq_spec(&b) <==> b.eq_spec(&a));
}

/// Strict order is transitive.
pub proof fn lemma_precedes_transitive<T: Ord>(a: T, b: T, c: T)
    requires
        total_order::<T>(),
        precedes(a, b),
        precedes(b, c),
    ensures
        precedes(a, c),
{
    lemma_comparisons_agree::<T>();
    reveal(vstd::laws_cmp::obeys_partial_cmp_spec_properties);
    assert(a.partial_cmp_spec(&b) == Some(Ordering::Less));
    assert(b.partial_cmp_spec(&c) == Some(Ordering::Less));
    assert(a.partial_cmp_spec(&c) == Some(Ordering::Less));
}

/// Equivalence is transitive.
pub proof fn lemma_equivalent_transitive<T: Ord>(a: T, b: T, c: T)
    requires
        total_order::<T>(),
        equivalent(a, b),
        equivalent(b, c),
    ensures
        equivalent(a, c),
{
    lemma_comparisons_agree::<T>();
    reveal(vstd::laws_eq::obeys_eq_spec_properties);
    assert(a.eq_spec(&b));
    assert(b.eq_spec(&c));
    assert(a.eq_spec(&c));
}

/// Equivalent values compare alike against any third value.
pub proof fn lemma_equivalent_compares_alike<T: Ord>(a: T, b: T, c: T)
    requires
        total_order::<T>(),
        equivalent(a, b),
    ensures
        precedes(a, c) <==> precedes(b, c),
        precedes(c, a) <==> precedes(c, b),
        equivalent(a, c) <==> equivalent(b, c),
{
    lemma_trichotomy(a, b);
    lemma_trichotomy(a, c);
    lemma_trichotomy(b, c);
    if equivalent(a, c) {
        lemma_equivalent_transitive(b, a, c);
    }
    if equivalent(b, c) {
        lemma_equivalent_transitive(a, b, c);
    }
    if precedes(a, c) && precedes(c, b) {
        lemma_precedes_transitive(a, c, b);
    }
    if precedes(b, c) && precedes(c, a) {
        lemma_precedes_transitive(b, c, a);
    }
}

} // verus!
