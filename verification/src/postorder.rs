//! The walk that visits an entry after both of its subtrees.

use vstd::prelude::*;
use crate::tree::{link_shape, ref_shape, Node, BST};

verus! {

/// A post-order walk in progress.
///
/// Each waiting node carries a mark that tells whether its right subtree has been entered.
/// The mark stands in for asking whether the node's right child is the one met just before:
/// it tells the two visits of a node apart by position, so equal keys cannot confuse it.
pub struct PostOrderIter<'a, K, V> {
    stack: Vec<(&'a Box<Node<K, V>>, bool)>,
    current: Option<&'a Box<Node<K, V>>>,
}

/// What the waiting nodes still owe, the last one first: its right subtree unless that was
/// entered already, then its own entry.
pub open(crate) spec fn owed_after<K, V>(stack: Seq<(&Box<Node<K, V>>, bool)>) -> Seq<(K, V)>
    decreases stack.len(),
{
    if stack.len() == 0 {
        Seq::empty()
    } else {
        let (node, entered) = stack.last();
        let right = if entered {
            Seq::empty()
        } else {
            link_shape(node.right).post_order()
        };
        right.push((node.key, node.value)) + owed_after(stack.drop_last())
    }
}

/// A bound on the steps that the waiting nodes can still take before one is yielded.
pub open(crate) spec fn steps_after<K, V>(stack: Seq<(&Box<Node<K, V>>, bool)>) -> nat
    decreases stack.len(),
{
    if stack.len() == 0 {
        0
    } else {
        let (node, entered) = stack.last();
        let own = if entered {
            1
        } else {
            2 + 3 * link_shape(node.right).size()
        };
        own + steps_after(stack.drop_last())
    }
}

impl<'a, K, V> PostOrderIter<'a, K, V> {
    /// The entries that the walk has yet to yield, in the order it will yield them.
    pub closed spec fn remaining(self) -> Seq<(K, V)> {
        ref_shape(self.current).post_order() + owed_after(self.stack@)
    }

    /// A bound on the steps left before the next entry.
    closed spec fn steps(self) -> nat {
        3 * ref_shape(self.current).size() + steps_after(self.stack@)
    }
}

impl<K: Ord, V: PartialEq> BST<K, V> {
    /// A walk over the entries: left subtree, right subtree, then the entry itself.
    pub fn postorder<'a>(&'a self) -> (iter: PostOrderIter<'a, K, V>)
        ensures
            iter.remaining() == self@.post_order(),
    {
        PostOrderIter { stack: Vec::new(), current: self.root.as_ref() }
    }
}

impl<'a, K: Ord, V: PartialEq> PostOrderIter<'a, K, V> {
    /// Yields the next entry of the walk, or `None` once every entry was yielded.
    pub fn next(&mut self) -> (item: Option<(&'a K, &'a V)>)
        ensures
            match item {
                Some((key, value)) => {
                    &&& old(self).remaining().len() > 0
                    &&& (*key, *value) == old(self).remaining().first()
                    &&& final(self).remaining() == old(self).remaining().drop_first()
                },
                None => {
                    &&& old(self).remaining().len() == 0
                    &&& final(self).remaining().len() == 0
                },
            },
    {
        loop
            invariant
                self.remaining() == old(self).remaining(),
            decreases self.steps(),
        {
            let ghost entry_steps = self.steps();
            loop
                invariant
                    self.remaining() == old(self).remaining(),
                    self.steps() <= entry_steps,
                ensures
                    self.current is None,
                decreases ref_shape(self.current).size(),
            {
                match self.current {
                    None => {
                        break ;
                    },
                    Some(current) => {
                        proof {
                            lemma_push(self.stack@, (current, false));
                        }
                        self.stack.push((current, false));
                        self.current = current.left.as_ref();
                    },
                }
            }
            let ghost waiting = self.stack@;
            match self.stack.pop() {
                None => {
                    return None;
                },
                Some((node, entered)) => {
                    proof {
                        assert(self.stack@ == waiting.drop_last());
                        assert(waiting.last() == (node, entered));
                    }
                    if !entered && node.right.is_some() {
                        proof {
                            lemma_push(self.stack@, (node, true));
                        }
                        self.stack.push((node, true));
                        self.current = node.right.as_ref();
                    } else {
                        self.current = None;
                        return Some((&node.key, &node.value));
                    }
                },
            }
        }
    }
}

/// What one more waiting node adds to what is owed and to the steps left.
proof fn lemma_push<K, V>(stack: Seq<(&Box<Node<K, V>>, bool)>, top: (&Box<Node<K, V>>, bool))
    ensures
        owed_after(stack.push(top)) == (if top.1 {
            Seq::empty()
        } else {
            link_shape(top.0.right).post_order()
        }).push((top.0.key, top.0.value)) + owed_after(stack),
        steps_after(stack.push(top)) == (if top.1 {
            1
        } else {
            2 + 3 * link_shape(top.0.right).size()
        }) + steps_after(stack),
{
    assert(stack.push(top).drop_last() == stack);
    assert(stack.push(top).last() == top);
}

} // verus!
