//! The walk that visits an entry between its two subtrees.

use vstd::prelude::*;
use crate::tree::{link_shape, ref_shape, Node, BST};

verus! {

/// An in-order walk in progress: the ancestors whose entry and right subtree are still to
/// come, and the subtree that the walk is about to descend into.
pub struct InOrderIter<'a, K, V> {
    stack: Vec<&'a Box<Node<K, V>>>,
    current: Option<&'a Box<Node<K, V>>>,
}

/// What the waiting ancestors still owe, the last one first: its entry, then its right
/// subtree.
pub open(crate) spec fn owed_between<K, V>(stack: Seq<&Box<Node<K, V>>>) -> Seq<(K, V)>
    decreases stack.len(),
{
    if stack.len() == 0 {
        Seq::empty()
    } else {
        let node = stack.last();
        seq![(node.key, node.value)] + link_shape(node.right).in_order() + owed_between(
            stack.drop_last(),
        )
    }
}

impl<'a, K, V> InOrderIter<'a, K, V> {
    /// The entries that the walk has yet to yield, in the order it will yield them.
    pub closed spec fn remaining(self) -> Seq<(K, V)> {
        ref_shape(self.current).in_order() + owed_between(self.stack@)
    }
}

impl<K: Ord, V: PartialEq> BST<K, V> {
    /// A walk over the entries: left subtree, the entry itself, then right subtree.
    pub fn inorder<'a>(&'a self) -> (iter: InOrderIter<'a, K, V>)
        ensures
            iter.remaining() == self@.in_order(),
    {
        InOrderIter { stack: Vec::new(), current: self.root.as_ref() }
    }
}

impl<'a, K: Ord, V: PartialEq> InOrderIter<'a, K, V> {
    /// Yields the next entry of the walk, or `None` once every entry was yielded.
    pub fn next(&mut self) -> (item: Option<(&'a K, &'a V)>)
        ensures
            match item {
                Some((key, value)) => {
                    &&& old(self).remaining().len() > 0
                    &&& (*key, *value) == old(self).remaining().first()
                    &&& final(self).remaining() == old(self).remaining().drop_first()
                },
                None => {
                    &&& old(self).remaining().len() == 0
                    &&& final(self).remaining().len() == 0
                },
            },
    {
        loop
            invariant
                self.remaining() == old(self).remaining(),
            decreases ref_shape(self.current).size(),
        {
            match self.current {
                Some(current) => {
                    proof {
                        lemma_push(self.stack@, current);
                    }
                    self.stack.push(current);
                    self.current = current.left.as_ref();
                },
                None => {
                    let ghost waiting = self.stack@;
                    match self.stack.pop() {
                        Some(node) => {
                            proof {
                                assert(self.stack@ == waiting.drop_last());
                                assert(waiting.last() == node);
                            }
                            self.current = node.right.as_ref();
                            return Some((&node.key, &node.value));
                        },
                        None => {
                            return None;
                        },
                    }
                },
            }
        }
    }
}

/// What one more waiting ancestor adds to what is owed.
proof fn lemma_push<K, V>(stack: Seq<&Box<Node<K, V>>>, top: &Box<Node<K, V>>)
    ensures
        owed_between(stack.push(top)) == seq![(top.key, top.value)] + link_shape(
            top.right,
        ).in_order() + owed_between(stack),
{
    assert(stack.push(top).drop_last() == stack);
    assert(stack.push(top).last() == top);
}

} // verus!
