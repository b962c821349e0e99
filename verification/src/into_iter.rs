//! The walk that takes the tree apart and hands out its entries.

use vstd::prelude::*;
use crate::tree::{link_shape, node_shape, Node, BST};

verus! {

/// A consuming walk in progress: the subtrees still to take apart, the next one last.
pub struct IntoIter<K, V> {
    stack: Vec<Box<Node<K, V>>>,
}

/// The entries of the waiting subtrees, the last subtree first.
pub open(crate) spec fn owed_owned<K, V>(stack: Seq<Box<Node<K, V>>>) -> Seq<(K, V)>
    decreases stack.len(),
{
    if stack.len() == 0 {
        Seq::empty()
    } else {
        node_shape(*stack.last()).pre_order() + owed_owned(stack.drop_last())
    }
}

impl<K, V> IntoIter<K, V> {
    /// The entries that the walk has yet to yield, in the order it will yield them.
    pub closed spec fn remaining(self) -> Seq<(K, V)> {
        owed_owned(self.stack@)
    }
}

impl<K: Ord, V: PartialEq> BST<K, V> {
    /// Takes the tree and walks it: the entry itself, then left subtree, then right subtree.
    pub fn into_iter(self) -> (iter: IntoIter<K, V>)
        ensures
            iter.remaining() == self@.pre_order(),
    {
        let mut stack = Vec::new();
        match self.root {
            Some(root) => {
                proof {
                    lemma_push(stack@, root);
                }
                stack.push(root);
            },
            None => {},
        }
        IntoIter { stack }
    }
}

impl<K: Ord, V: PartialEq> IntoIter<K, V> {
    /// Yields the next entry of the walk, or `None` once every entry was yielded.
    pub fn next(&mut self) -> (item: Option<(K, V)>)
        ensures
            match item {
                Some(entry) => {
                    &&& old(self).remaining().len() > 0
                    &&& entry == old(self).remaining().first()
                    &&& final(self).remaining() == old(self).remaining().drop_first()
                },
                None => {
                    &&& old(self).remaining().len() == 0
                    &&& final(self).remaining().len() == 0
                },
            },
    {
        let ghost waiting = self.stack@;
        match self.stack.pop() {
            Some(node) => {
                proof {
                    assert(self.stack@ == waiting.drop_last());
                    assert(waiting.last() == node);
                }
                let ghost shape = node_shape(*node);
                let Node { left, right, key, value } = *node;
                proof {
                    assert(shape.pre_order() == seq![(key, value)] + link_shape(left).pre_order()
                        + link_shape(right).pre_order());
                }
                match right {
                    Some(right) => {
                        proof {
                            lemma_push(self.stack@, right);
                        }
                        self.stack.push(right);
                    },
                    None => {},
                }
                match left {
                    Some(left) => {
                        proof {
                            lemma_push(self.stack@, left);
                        }
                        self.stack.push(left);
                    },
                    None => {},
                }
                proof {
                    assert(self.remaining() =~= old(self).remaining().drop_first());
                }
                Some((key, value))
            },
            None => None,
        }
    }
}

/// What one more waiting subtree adds to what is owed.
proof fn lemma_push<K, V>(stack: Seq<Box<Node<K, V>>>, top: Box<Node<K, V>>)
    ensures
        owed_owned(stack.push(top)) == node_shape(*top).pre_order() + owed_owned(stack),
{
    assert(stack.push(top).drop_last() == stack);
    assert(stack.push(top).last() == top);
}

} // verus!
