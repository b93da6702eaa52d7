//! The mathematical model of the tree: a binary tree as a value, its
//! traversals, the search-tree property, and what insertion does to it.

use crate::middle_out::{midpoint, midpoint_order};
use crate::order::{
    equivalent, lemma_equivalent_compares_alike, lemma_trichotomy, precedes, total_order,
};
use crate::sorted::{
    all_follow, all_precede, ascending, holds, lemma_ascending_join, lemma_holds_join,
    lemma_with_value_alone, lemma_with_value_bounded, lemma_with_value_equivalent,
    lemma_with_value_greater, lemma_with_value_smaller, with_value, without,
};
use std::cmp::Ordering;
use vstd::prelude::*;
use vstd::std_specs::cmp::OrdSpec;

verus! {

/// A binary tree as a mathematical value: either empty, or a value with a
/// left and a right subtree.
pub enum Tree<T> {
    Empty,
    Fork { left: Box<Tree<T>>, value: T, right: Box<Tree<T>> },
}

impl<T> Tree<T> {
    /// The tree that holds `value` and nothing else.
    pub open spec fn leaf(value: T) -> Self {
        Tree::Fork { left: Box::new(Tree::Empty), value, right: Box::new(Tree::Empty) }
    }

    /// Left subtree, then the value, then the right subtree.
    pub open spec fn in_order(self) -> Seq<T>
        decreases self,
    {
        match self {
            Tree::Empty => Seq::empty(),
            Tree::Fork { left, value, right } => left.in_order() + seq![value] + right.in_order(),
        }
    }

    /// The value, then the left subtree, then the right subtree.
    pub open spec fn pre_order(self) -> Seq<T>
        decreases self,
    {
        match self {
            Tree::Empty => Seq::empty(),
            Tree::Fork { left, value, right } => seq![value] + left.pre_order() + right.pre_order(),
        }
    }

    /// The tree over the ascending contents `s` that has the midpoint of `s`
    /// at its root, and below it, left and right, the trees built likewise
    /// over the values before and after the midpoint.
    pub open spec fn balanced(s: Seq<T>) -> Self
        decreases s.len(),
    {
        if s.len() == 0 {
            Tree::Empty
        } else {
            let mid = midpoint(s.len());
            Tree::Fork {
                left: Box::new(Self::balanced(s.take(mid))),
                value: s[mid],
                right: Box::new(Self::balanced(s.skip(mid + 1))),
            }
        }
    }

    /// The number of nodes on the longest way from the root downwards.
    pub open spec fn height(self) -> nat
        decreases self,
    {
        match self {
            Tree::Empty => 0,
            Tree::Fork { left, value, right } => {
                let l = left.height();
                let r = right.height();
                if l >= r {
                    l + 1
                } else {
                    r + 1
                }
            },
        }
    }
}

impl<T: Ord> Tree<T> {
    /// At every node, all values to the left are smaller than the node's
    /// value and all values to the right are greater.
    pub open spec fn is_search_tree(self) -> bool
        decreases self,
    {
        match self {
            Tree::Empty => true,
            Tree::Fork { left, value, right } => {
                &&& left.is_search_tree()
                &&& right.is_search_tree()
                &&& all_precede(left.in_order(), value)
                &&& all_follow(right.in_order(), value)
            },
        }
    }

    /// The tree after `v` has descended from the root to the first free
    /// place, going left where it is smaller and right where it is greater;
    /// the tree itself where `v` meets an equivalent value on its way.
    pub open spec fn insert(self, v: T) -> Self
        decreases self,
    {
        match self {
            Tree::Empty => Tree::leaf(v),
            Tree::Fork { left, value, right } => match v.cmp_spec(&value) {
                Ordering::Less => Tree::Fork { left: Box::new(left.insert(v)), value, right },
                Ordering::Greater => Tree::Fork { left, value, right: Box::new(right.insert(v)) },
                Ordering::Equal => self,
            },
        }
    }

    /// The tree after the values of `values` have been inserted into it one
    /// by one, from the first to the last.
    pub open spec fn grow(self, values: Seq<T>) -> Self
        decreases values.len(),
    {
        if values.len() == 0 {
            self
        } else {
            self.grow(values.drop_last()).insert(values.last())
        }
    }

    /// The tree that inserting `values` one by one into an empty tree
    /// gives.
    pub open spec fn grown_from(values: Seq<T>) -> Self {
        Tree::Empty.grow(values)
    }

    /// The tree that deleting `target` leaves: what remains of the sorted
    /// contents once the values equivalent to `target` are taken out,
    /// inserted in midpoint order into an empty tree.
    pub open spec fn delete(self, target: T) -> Self {
        Tree::grown_from(midpoint_order(without(self.in_order(), target)))
    }
}

/// The in-order traversal of a search tree is strictly ascending.
pub proof fn lemma_search_tree_ascending<T: Ord>(tree: Tree<T>)
    requires
        total_order::<T>(),
        tree.is_search_tree(),
    ensures
        ascending(tree.in_order()),
    decreases tree,
{
    match tree {
        Tree::Empty => {},
        Tree::Fork { left, value, right } => {
            lemma_search_tree_ascending(*left);
            lemma_search_tree_ascending(*right);
            lemma_ascending_join(left.in_order(), value, right.in_order());
        },
    }
}

/// Inserting into a search tree gives a search tree, whose contents are
/// those of the tree with the value added.
pub proof fn lemma_insert<T: Ord>(tree: Tree<T>, v: T)
    requires
        total_order::<T>(),
        tree.is_search_tree(),
    ensures
        tree.insert(v).is_search_tree(),
        tree.insert(v).in_order() == with_value(tree.in_order(), v),
    decreases tree,
{
    match tree {
        Tree::Empty => {
            lemma_with_value_alone(v);
            assert(Tree::leaf(v).in_order() =~= seq![v]);
        },
        Tree::Fork { left, value, right } => {
            let l = left.in_order();
            let r = right.in_order();
            lemma_trichotomy(v, value);
            if precedes(v, value) {
                lemma_insert(*left, v);
                lemma_with_value_smaller(l, value, r, v);
                lemma_with_value_bounded(l, v, value);
            } else if precedes(value, v) {
                lemma_insert(*right, v);
                lemma_with_value_greater(l, value, r, v);
                lemma_with_value_bounded(r, v, value);
            } else {
                lemma_with_value_equivalent(l, value, r, v);
            }
        },
    }
}

/// Whatever values are inserted one by one into a search tree, the result
/// is a search tree, and its in-order traversal is strictly ascending.
pub proof fn lemma_grow<T: Ord>(tree: Tree<T>, values: Seq<T>)
    requires
        total_order::<T>(),
        tree.is_search_tree(),
    ensures
        tree.grow(values).is_search_tree(),
        ascending(tree.grow(values).in_order()),
    decreases values.len(),
{
    if values.len() > 0 {
        lemma_grow(tree, values.drop_last());
        lemma_insert(tree.grow(values.drop_last()), values.last());
    }
    lemma_search_tree_ascending(tree.grow(values));
}

/// Inserting a value that a search tree already holds changes nothing.
pub proof fn lemma_insert_present<T: Ord>(tree: Tree<T>, v: T)
    requires
        total_order::<T>(),
        tree.is_search_tree(),
        holds(tree.in_order(), v),
    ensures
        tree.insert(v) == tree,
        tree.insert(v).in_order() == tree.in_order(),
    decreases tree,
{
    match tree {
        Tree::Empty => {},
        Tree::Fork { left, value, right } => {
            let l = left.in_order();
            let r = right.in_order();
            lemma_trichotomy(v, value);
            lemma_holds_join(l + seq![value], r, v);
            lemma_holds_join(l, seq![value], v);
            if holds(seq![value], v) {
                let i = choose|i: int| 0 <= i < 1 && equivalent(#[trigger] seq![value][i], v);
                assert(equivalent(value, v));
            }
            if precedes(v, value) {
                if holds(r, v) {
                    let i = choose|i: int| 0 <= i < r.len() && equivalent(#[trigger] r[i], v);
                    lemma_equivalent_compares_alike(r[i], v, value);
                    lemma_trichotomy(r[i], value);
                }
                lemma_insert_present(*left, v);
            } else if precedes(value, v) {
                if holds(l, v) {
                    let i = choose|i: int| 0 <= i < l.len() && equivalent(#[trigger] l[i], v);
                    lemma_equivalent_compares_alike(l[i], v, value);
                    lemma_trichotomy(l[i], value);
                }
                lemma_insert_present(*right, v);
            }
        },
    }
}

} // verus!
