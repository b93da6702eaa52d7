//! The tree itself: a node that owns its two subtrees.

use crate::copies::{clones_of, faithful_clone, lemma_clones_join, lemma_faithful_clones};
use crate::middle_out::{lemma_midpoint_order_permutes, middle_out};
use crate::order::{lemma_comparisons_agree, lemma_equality_agrees, total_order};
use crate::rebuild::{lemma_delete, lemma_delete_empty};
use crate::sorted::{apart_from, ascending, with_value, without};
use crate::tree::{lemma_insert, lemma_search_tree_ascending, Tree};
use std::cmp::Ordering;
use vstd::prelude::*;

verus! {

/// A non-empty binary search tree: a value, and to its left and right the
/// subtrees of the smaller and of the greater values.
///
/// Its view is the [`Tree`] of the same shape, which is a search tree at
/// all times.
pub struct Node<T: Clone + Ord> {
    value: T,
    left: Option<Box<Node<T>>>,
    right: Option<Box<Node<T>>>,
}

/// The order in which [`Node::get_values`] lists the values of a tree.
pub enum Traversal {
    InOrder,
    PreOrder,
}

impl Traversal {
    /// The values of `tree`, listed in this order.
    pub open spec fn listing<T>(self, tree: Tree<T>) -> Seq<T> {
        match self {
            Traversal::InOrder => tree.in_order(),
            Traversal::PreOrder => tree.pre_order(),
        }
    }
}

impl<T: Clone + Ord> View for Node<T> {
    type V = Tree<T>;

    closed spec fn view(&self) -> Tree<T> {
        self.shape()
    }
}

impl<T: Clone + Ord> Node<T> {
    spec fn shape(&self) -> Tree<T>
        decreases self,
    {
        Tree::Fork {
            left: Box::new(Self::subtree(self.left)),
            value: self.value,
            right: Box::new(Self::subtree(self.right)),
        }
    }

    spec fn subtree(child: Option<Box<Node<T>>>) -> Tree<T>
        decreases child,
    {
        match child {
            None => Tree::Empty,
            Some(node) => node.shape(),
        }
    }

    #[verifier::type_invariant]
    spec fn ordered(&self) -> bool {
        self.shape().is_search_tree()
    }

    /// A tree is never empty.
    pub proof fn lemma_nonempty(&self)
        ensures
            self@ is Fork,
    {
    }

    /// A tree that holds `value` alone.
    pub fn new(value: T) -> (node: Self)
        ensures
            node@ == Tree::leaf(value),
            node@.is_search_tree(),
    {
        proof {
            assert(Tree::<T>::Empty.is_search_tree());
            assert(Tree::<T>::Empty.in_order().len() == 0);
        }
        Node { value, left: None, right: None }
    }

    /// Inserts `value` where the search from the root ends, unless an
    /// equivalent value is met on the way: then nothing changes.
    pub fn insert(&mut self, value: T)
        requires
            total_order::<T>(),
        ensures
            final(self)@ == old(self)@.insert(value),
            final(self)@.in_order() == with_value(old(self)@.in_order(), value),
            final(self)@.is_search_tree(),
        decreases *old(self),
    {
        proof {
            use_type_invariant(&*self);
            lemma_comparisons_agree::<T>();
            lemma_insert(self@, value);
            assert(Tree::<T>::Empty.insert(value) == Tree::leaf(value));
            assert(Tree::<T>::Empty.is_search_tree());
            assert(Tree::<T>::Empty.in_order().len() == 0);
        }
        // A child is moved out while it changes, so that this node is a
        // search tree at every call.
        match value.cmp(&self.value) {
            Ordering::Less => {
                let mut child = None;
                std::mem::swap(&mut child, &mut self.left);
                match child {
                    Some(mut node) => {
                        node.insert(value);
                        self.left = Some(node);
                    },
                    None => self.left = Some(Box::new(Self::new(value))),
                }
            },
            Ordering::Greater => {
                let mut child = None;
                std::mem::swap(&mut child, &mut self.right);
                match child {
                    Some(mut node) => {
                        node.insert(value);
                        self.right = Some(node);
                    },
                    None => self.right = Some(Box::new(Self::new(value))),
                }
            },
            Ordering::Equal => (),
        }
    }

    /// Lists clones of all values of the tree in the given order.
    pub fn get_values(&self, order: &Traversal) -> (values: Vec<T>)
        ensures
            clones_of(order.listing(self@), values@),
            faithful_clone::<T>() ==> values@ == order.listing(self@),
            self@.is_search_tree(),
            total_order::<T>() ==> ascending(self@.in_order()),
            total_order::<T>() && faithful_clone::<T>() && order is InOrder ==> ascending(values@),
        decreases self,
    {
        proof {
            use_type_invariant(self);
            if total_order::<T>() {
                lemma_search_tree_ascending(self@);
            }
        }
        let mut left = match &self.left {
            Some(node) => node.get_values(order),
            None => Vec::new(),
        };
        let mut middle = vec![self.value.clone()];
        let mut right = match &self.right {
            Some(node) => node.get_values(order),
            None => Vec::new(),
        };
        let ghost l = order.listing(Self::subtree(self.left));
        let ghost r = order.listing(Self::subtree(self.right));
        let ghost m = seq![self.value];
        assert(clones_of(m, middle@));
        let values = match order {
            Traversal::InOrder => {
                proof {
                    lemma_clones_join(l, left@, m, middle@);
                    lemma_clones_join(l + m, left@ + middle@, r, right@);
                }
                left.append(&mut middle);
                left.append(&mut right);
                left
            },
            Traversal::PreOrder => {
                proof {
                    lemma_clones_join(m, middle@, l, left@);
                    lemma_clones_join(m + l, middle@ + left@, r, right@);
                }
                middle.append(&mut left);
                middle.append(&mut right);
                middle
            },
        };
        proof {
            if faithful_clone::<T>() {
                lemma_faithful_clones(order.listing(self@), values@);
            }
        }
        values
    }

    /// The values of `values` that are not equal to `target`, in their
    /// order.
    fn discard(values: Vec<T>, target: &T) -> (kept: Vec<T>)
        requires
            total_order::<T>(),
        ensures
            kept@ == without(values@, *target),
    {
        let mut kept: Vec<T> = Vec::new();
        let ghost all = values@;
        proof {
            reveal(Seq::filter);
        }
        for v in it: values
            invariant
                total_order::<T>(),
                it.seq() == all,
                kept@ == without(all.take(it.index() as int), *target),
        {
            proof {
                lemma_equality_agrees::<T>();
                let seen = all.take(it.index() as int);
                seen.lemma_filter_push(v, apart_from(*target));
                assert(seen.push(v) =~= all.take(it.index() + 1));
            }
            if v != *target {
                kept.push(v);
            }
        }
        proof {
            assert(all.take(all.len() as int) =~= all);
        }
        kept
    }

    /// The tree without the values equal to `value`, rebuilt from its
    /// sorted contents in midpoint order and therefore balanced; `None`
    /// where no value is left.
    pub fn delete(&self, value: &T) -> (remaining: Option<Self>)
        requires
            total_order::<T>(),
            faithful_clone::<T>(),
        ensures
            match remaining {
                None => self@.delete(*value) == Tree::<T>::Empty,
                Some(tree) => tree@ == self@.delete(*value),
            },
            remaining is None <==> without(self@.in_order(), *value).len() == 0,
            remaining matches Some(tree) ==> {
                &&& tree@ == Tree::balanced(without(self@.in_order(), *value))
                &&& tree@.in_order() == without(self@.in_order(), *value)
                &&& tree@.is_search_tree()
                &&& ascending(tree@.in_order())
            },
    {
        proof {
            use_type_invariant(self);
            lemma_delete(self@, *value);
            lemma_delete_empty(self@, *value);
        }
        let values = self.get_values(&Traversal::InOrder);
        let values = Self::discard(values, value);
        let ghost rest = values@;
        let values = middle_out(&values);
        proof {
            lemma_midpoint_order_permutes(rest);
        }
        if values.is_empty() {
            None
        } else {
            let first = values[0].clone();
            assert(cloned(values@[0], first));
            let mut root = Self::new(first);
            proof {
                let one = values@.take(1);
                assert(one.drop_last() =~= Seq::<T>::empty());
                assert(Tree::<T>::Empty.grow(one.drop_last()) == Tree::<T>::Empty);
                assert(Tree::<T>::Empty.insert(one.last()) == Tree::leaf(one.last()));
            }
            for i in 1..values.len()
                invariant
                    total_order::<T>(),
                    faithful_clone::<T>(),
                    root@ == Tree::grown_from(values@.take(i as int)),
            {
                proof {
                    assert(values@.take(i + 1).drop_last() =~= values@.take(i as int));
                }
                let next = values[i].clone();
                assert(cloned(values@[i as int], next));
                root.insert(next);
            }
            proof {
                assert(values@.take(values@.len() as int) =~= values@);
            }
            Some(root)
        }
    }
}

} // verus!
