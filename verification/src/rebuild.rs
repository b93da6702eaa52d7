//! The laws of rebuilding: inserting ascending contents in midpoint order
//! gives the balanced search tree over them, and so deletion leaves a
//! balanced search tree over what remains.

use crate::middle_out::{lemma_midpoint_order_permutes, midpoint, midpoint_order};
use crate::order::{equivalent, lemma_trichotomy, precedes, total_order};
use crate::sorted::{
    all_follow, all_precede, ascending, holds, lemma_without_absent, lemma_without_ascending,
    lemma_without_empty, without,
};
use crate::tree::{lemma_search_tree_ascending, Tree};
use vstd::arithmetic::power2::{lemma2_to64, lemma_pow2_strictly_increases, lemma_pow2_unfold, pow2};
use vstd::prelude::*;

verus! {

/// Inserting one run of values and then another is inserting the two runs
/// joined.
pub proof fn lemma_grow_join<T: Ord>(tree: Tree<T>, a: Seq<T>, b: Seq<T>)
    ensures
        tree.grow(a + b) == tree.grow(a).grow(b),
    decreases b.len(),
{
    if b.len() == 0 {
        assert(a + b =~= a);
    } else {
        lemma_grow_join(tree, a, b.drop_last());
        assert((a + b).drop_last() =~= a + b.drop_last());
    }
}

/// Values that are all smaller than the root grow the left subtree and
/// leave the rest of the tree alone.
pub proof fn lemma_grow_left<T: Ord>(left: Tree<T>, value: T, right: Tree<T>, values: Seq<T>)
    requires
        all_precede(values, value),
    ensures
        (Tree::Fork { left: Box::new(left), value, right: Box::new(right) }).grow(values) == (
        Tree::Fork { left: Box::new(left.grow(values)), value, right: Box::new(right) }),
    decreases values.len(),
{
    if values.len() > 0 {
        let front = values.drop_last();
        assert forall|i: int| 0 <= i < front.len() implies precedes(#[trigger] front[i], value) by {
            assert(front[i] == values[i]);
        }
        lemma_grow_left(left, value, right, front);
        assert(precedes(values[values.len() - 1], value));
    }
}

/// Values that are all greater than the root grow the right subtree and
/// leave the rest of the tree alone.
pub proof fn lemma_grow_right<T: Ord>(left: Tree<T>, value: T, right: Tree<T>, values: Seq<T>)
    requires
        total_order::<T>(),
        all_follow(values, value),
    ensures
        (Tree::Fork { left: Box::new(left), value, right: Box::new(right) }).grow(values) == (
        Tree::Fork { left: Box::new(left), value, right: Box::new(right.grow(values)) }),
    decreases values.len(),
{
    if values.len() > 0 {
        let front = values.drop_last();
        assert forall|i: int| 0 <= i < front.len() implies precedes(value, #[trigger] front[i]) by {
            assert(front[i] == values[i]);
        }
        lemma_grow_right(left, value, right, front);
        assert(precedes(value, values[values.len() - 1]));
        lemma_trichotomy(values.last(), value);
    }
}

/// The in-order traversal of the balanced tree over `s` is `s`.
pub proof fn lemma_balanced_in_order<T>(s: Seq<T>)
    ensures
        Tree::balanced(s).in_order() == s,
    decreases s.len(),
{
    if s.len() == 0 {
        assert(Tree::balanced(s).in_order() =~= s);
    } else {
        let mid = midpoint(s.len());
        lemma_balanced_in_order(s.take(mid));
        lemma_balanced_in_order(s.skip(mid + 1));
        assert(s.take(mid) + seq![s[mid]] + s.skip(mid + 1) =~= s);
    }
}

/// The balanced tree over ascending contents is a search tree.
pub proof fn lemma_balanced_search_tree<T: Ord>(s: Seq<T>)
    requires
        ascending(s),
    ensures
        Tree::balanced(s).is_search_tree(),
    decreases s.len(),
{
    if s.len() > 0 {
        let mid = midpoint(s.len());
        let before = s.take(mid);
        let after = s.skip(mid + 1);
        assert(ascending(before)) by {
            assert forall|i: int, j: int| 0 <= i < j < before.len() implies precedes(
                #[trigger] before[i],
                #[trigger] before[j],
            ) by {
                assert(precedes(s[i], s[j]));
            }
        }
        assert(ascending(after)) by {
            assert forall|i: int, j: int| 0 <= i < j < after.len() implies precedes(
                #[trigger] after[i],
                #[trigger] after[j],
            ) by {
                assert(precedes(s[i + mid + 1], s[j + mid + 1]));
            }
        }
        lemma_balanced_search_tree(before);
        lemma_balanced_search_tree(after);
        lemma_balanced_in_order(before);
        lemma_balanced_in_order(after);
        assert forall|i: int| 0 <= i < before.len() implies precedes(#[trigger] before[i], s[mid]) by {
            assert(precedes(s[i], s[mid]));
        }
        assert forall|i: int| 0 <= i < after.len() implies precedes(s[mid], #[trigger] after[i]) by {
            assert(precedes(s[mid], s[i + mid + 1]));
        }
    }
}

/// Inserting ascending contents into an empty tree in midpoint order
/// gives the balanced tree over them.
pub proof fn lemma_midpoint_order_grows_balanced<T: Ord>(s: Seq<T>)
    requires
        total_order::<T>(),
        ascending(s),
    ensures
        Tree::grown_from(midpoint_order(s)) == Tree::balanced(s),
    decreases s.len(),
{
    if s.len() > 0 {
        let mid = midpoint(s.len());
        let before = s.take(mid);
        let after = s.skip(mid + 1);
        let first = midpoint_order(before);
        let second = midpoint_order(after);
        assert(ascending(before) && ascending(after)) by {
            assert forall|i: int, j: int| 0 <= i < j < before.len() implies precedes(
                #[trigger] before[i],
                #[trigger] before[j],
            ) by {
                assert(precedes(s[i], s[j]));
            }
            assert forall|i: int, j: int| 0 <= i < j < after.len() implies precedes(
                #[trigger] after[i],
                #[trigger] after[j],
            ) by {
                assert(precedes(s[i + mid + 1], s[j + mid + 1]));
            }
        }
        lemma_midpoint_order_grows_balanced(before);
        lemma_midpoint_order_grows_balanced(after);
        lemma_midpoint_order_permutes(before);
        lemma_midpoint_order_permutes(after);
        assert(all_precede(first, s[mid])) by {
            assert forall|i: int| 0 <= i < first.len() implies precedes(#[trigger] first[i], s[mid]) by {
                assert(first.contains(first[i]));
                let j = choose|j: int| 0 <= j < before.len() && before[j] == first[i];
                assert(precedes(s[j], s[mid]));
            }
        }
        assert(all_follow(second, s[mid])) by {
            assert forall|i: int| 0 <= i < second.len() implies precedes(s[mid], #[trigger] second[i]) by {
                assert(second.contains(second[i]));
                let j = choose|j: int| 0 <= j < after.len() && after[j] == second[i];
                assert(precedes(s[mid], s[j + mid + 1]));
            }
        }
        let root = seq![s[mid]];
        let empty = Tree::<T>::Empty;
        assert(empty.grow(root) == Tree::leaf(s[mid])) by {
            assert(root.drop_last() =~= Seq::<T>::empty());
            assert(empty.grow(root.drop_last()) == empty);
        }
        lemma_grow_join(empty, root + first, second);
        lemma_grow_join(empty, root, first);
        lemma_grow_left(empty, s[mid], empty, first);
        lemma_grow_right(empty.grow(first), s[mid], empty, second);
    }
}

/// Deleting from a search tree leaves the balanced search tree over the
/// contents without the values equivalent to the deleted one: its in-order
/// traversal is what remains of the contents, and is strictly ascending.
pub proof fn lemma_delete<T: Ord>(tree: Tree<T>, target: T)
    requires
        total_order::<T>(),
        tree.is_search_tree(),
    ensures
        tree.delete(target) == Tree::balanced(without(tree.in_order(), target)),
        tree.delete(target).in_order() == without(tree.in_order(), target),
        tree.delete(target).is_search_tree(),
        ascending(tree.delete(target).in_order()),
{
    let rest = without(tree.in_order(), target);
    lemma_search_tree_ascending(tree);
    lemma_without_ascending(tree.in_order(), target);
    lemma_midpoint_order_grows_balanced(rest);
    lemma_balanced_search_tree(rest);
    lemma_balanced_in_order(rest);
}

/// Deleting the only value of a tree leaves the empty tree.
pub proof fn lemma_delete_sole_value<T: Ord>(tree: Tree<T>, target: T)
    requires
        tree.in_order().len() == 1,
        equivalent(tree.in_order()[0], target),
    ensures
        tree.delete(target) == Tree::<T>::Empty,
{
    lemma_without_empty(tree.in_order(), target);
    assert(without(tree.in_order(), target) =~= Seq::<T>::empty());
}

/// Deleting a value that a search tree does not hold leaves its contents
/// as they are.
pub proof fn lemma_delete_absent<T: Ord>(tree: Tree<T>, target: T)
    requires
        total_order::<T>(),
        tree.is_search_tree(),
        !holds(tree.in_order(), target),
    ensures
        tree.delete(target).in_order() == tree.in_order(),
{
    lemma_delete(tree, target);
    lemma_without_absent(tree.in_order(), target);
}

/// What deleting leaves is empty exactly when every value of the tree is
/// equivalent to the deleted one.
pub proof fn lemma_delete_empty<T: Ord>(tree: Tree<T>, target: T)
    ensures
        tree.delete(target) == Tree::<T>::Empty <==> without(tree.in_order(), target).len() == 0,
{
    let rest = without(tree.in_order(), target);
    lemma_midpoint_order_permutes(rest);
    let order = midpoint_order(rest);
    if rest.len() > 0 {
        assert(Tree::<T>::Empty.grow(order.drop_last()).insert(order.last()) != Tree::<T>::Empty);
    }
}

/// Ascending contents, inserted in midpoint order into an empty tree, give
/// a tree as low as a tree with as many values can be: its height is the
/// number of binary digits of their count.
pub proof fn lemma_rebuilt_height<T: Ord>(s: Seq<T>)
    requires
        total_order::<T>(),
        ascending(s),
    ensures
        s.len() < pow2(Tree::grown_from(midpoint_order(s)).height()),
        s.len() > 0 ==> pow2((Tree::grown_from(midpoint_order(s)).height() - 1) as nat) <= s.len(),
{
    lemma_midpoint_order_grows_balanced(s);
    lemma_balanced_height(s);
}

/// A tree of height `h` has fewer than `2^h` values.
pub proof fn lemma_height_bounds_size<T>(tree: Tree<T>)
    ensures
        tree.in_order().len() < pow2(tree.height()),
    decreases tree,
{
    match tree {
        Tree::Empty => {
            lemma2_to64();
        },
        Tree::Fork { left, value, right } => {
            lemma_height_bounds_size(*left);
            lemma_height_bounds_size(*right);
            let h = tree.height();
            lemma_pow2_unfold(h);
            let below = (h - 1) as nat;
            if left.height() < below {
                lemma_pow2_strictly_increases(left.height(), below);
            }
            if right.height() < below {
                lemma_pow2_strictly_increases(right.height(), below);
            }
        },
    }
}

/// The balanced tree is as low as a tree with as many values can be: with
/// height `h > 0` it has at least `2^(h-1)` values, and no tree has `2^h`.
pub proof fn lemma_balanced_height<T>(s: Seq<T>)
    ensures
        s.len() < pow2(Tree::balanced(s).height()),
        s.len() > 0 ==> pow2((Tree::balanced(s).height() - 1) as nat) <= s.len(),
        s.len() == 0 <==> Tree::balanced(s).height() == 0,
    decreases s.len(),
{
    lemma_balanced_in_order(s);
    lemma_height_bounds_size(Tree::balanced(s));
    if s.len() > 0 {
        let mid = midpoint(s.len());
        let before = s.take(mid);
        let after = s.skip(mid + 1);
        let hl = Tree::balanced(before).height();
        let hr = Tree::balanced(after).height();
        lemma_balanced_height(before);
        lemma_balanced_height(after);
        assert(before.len() <= after.len() <= before.len() + 1);
        if hl > hr {
            let under = (hl - 1) as nat;
            if hr < under {
                lemma_pow2_strictly_increases(hr, under);
            }
        } else if hr > 0 {
            lemma_pow2_unfold(hr);
        } else {
            lemma2_to64();
        }
    }
}

} // verus!
