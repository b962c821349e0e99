//! The walk that visits an entry before its two subtrees.

use vstd::prelude::*;
use crate::tree::{link_shape, node_shape, Node, BST};

verus! {

/// A pre-order walk in progress: the subtrees still to visit, the next one last.
pub struct PreOrderIter<'a, K, V> {
    stack: Vec<&'a Box<Node<K, V>>>,
}

/// The entries of the waiting subtrees, the last subtree first.
pub open(crate) spec fn owed_before<K, V>(stack: Seq<&Box<Node<K, V>>>) -> Seq<(K, V)>
    decreases stack.len(),
{
    if stack.len() == 0 {
        Seq::empty()
    } else {
        node_shape(**stack.last()).pre_order() + owed_before(stack.drop_last())
    }
}

impl<'a, K, V> PreOrderIter<'a, K, V> {
    /// The entries that the walk has yet to yield, in the order it will yield them.
    pub closed spec fn remaining(self) -> Seq<(K, V)> {
        owed_before(self.stack@)
    }
}

impl<K: Ord, V: PartialEq> BST<K, V> {
    /// A walk over the entries: the entry itself, then left subtree, then right subtree.
    pub fn preorder<'a>(&'a self) -> (iter: PreOrderIter<'a, K, V>)
        ensures
            iter.remaining() == self@.pre_order(),
    {
        let mut stack = Vec::new();
        match self.root.as_ref() {
            Some(root) => {
                proof {
                    lemma_push(stack@, root);
                }
                stack.push(root);
            },
            None => {},
        }
        PreOrderIter { stack }
    }
}

impl<'a, K: Ord, V: PartialEq> PreOrderIter<'a, K, V> {
    /// Yields the next entry of the walk, or `None` once every entry was yielded.
    pub fn next(&mut self) -> (item: Option<(&'a K, &'a V)>)
        ensures
            match item {
                Some((key, value)) => {
                    &&& old(self).remaining().len() > 0
                    &&& (*key, *value) == old(self).remaining().first()
                    &&& final(self).remaining() == old(self).remaining().drop_first()
                },
                None => {
                    &&& old(self).remaining().len() == 0
                    &&& final(self).remaining().len() == 0
                },
            },
    {
        let ghost waiting = self.stack@;
        match self.stack.pop() {
            Some(node) => {
                proof {
                    assert(self.stack@ == waiting.drop_last());
                    assert(waiting.last() == node);
                }
                match node.right.as_ref() {
                    Some(right) => {
                        proof {
                            lemma_push(self.stack@, right);
                        }
                        self.stack.push(right);
                    },
                    None => {},
                }
                match node.left.as_ref() {
                    Some(left) => {
                        proof {
                            lemma_push(self.stack@, left);
                        }
                        self.stack.push(left);
                    },
                    None => {},
                }
                proof {
                    let shape = node_shape(**node);
                    assert(shape.pre_order() == seq![(node.key, node.value)]
                        + link_shape(node.left).pre_order() + link_shape(node.right).pre_order());
                    assert(self.remaining() =~= old(self).remaining().drop_first());
                }
                Some((&node.key, &node.value))
            },
            None => None,
        }
    }
}

/// What one more waiting subtree adds to what is owed.
proof fn lemma_push<K, V>(stack: Seq<&Box<Node<K, V>>>, top: &Box<Node<K, V>>)
    ensures
        owed_before(stack.push(top)) == node_shape(**top).pre_order() + owed_before(stack),
{
    assert(stack.push(top).drop_last() == stack);
    assert(stack.push(top).last() == top);
}

} // verus!
