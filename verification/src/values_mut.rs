//! The walk that hands out every value for change, level by level.

use vstd::prelude::*;
use crate::rewrite::walk_step;
use crate::shape::{breadth_first, values_in_turn, values_of, Shape};
use crate::tree::{link_shape, node_shape, Node, BST};

verus! {

/// A walk over the values in progress: the subtrees still to visit, the next one first.
///
/// The walk holds the tree's only mutable borrow, so nothing else reads or changes the tree
/// while it lives. The subtrees wait in a `Vec`, in the order in which they joined: taking
/// the next one from its front costs a pass over those that wait, and in return a walk
/// that is dropped is known to leave them as they are.
pub struct ValuesMut<'a, K, V> {
    queue: Vec<&'a mut Box<Node<K, V>>>,
}

/// The trees that queued nodes hold.
pub open(crate) spec fn held<K, V>(queue: Seq<&mut Box<Node<K, V>>>) -> Seq<Shape<K, V>> {
    Seq::new(queue.len(), |i: int| node_shape(**queue[i]))
}

impl<'a, K, V> ValuesMut<'a, K, V> {
    /// The borrowed nodes that wait in the queue, the next one first.
    pub closed spec fn queued(self) -> Seq<&'a mut Box<Node<K, V>>> {
        self.queue@
    }

    /// The subtrees still to visit as they are now, the next one first.
    pub open spec fn now(self) -> Seq<Shape<K, V>> {
        Seq::new(self.queued().len(), |i: int| node_shape(**self.queued()[i]))
    }

    /// The values that the walk has yet to hand out as they are now, in the order in which
    /// it will hand them out.
    pub open spec fn pending(self) -> Seq<V> {
        values_in_turn(self.now())
    }
}

impl<K: Ord, V: PartialEq> BST<K, V> {
    /// A walk that hands out each value of the tree for change, from the top level down
    /// and left to right within a level. Keys and links stay as they are.
    pub fn values_mut<'a>(&'a mut self) -> (iter: ValuesMut<'a, K, V>)
        ensures
            iter.now() == if old(self)@ is Fork { seq![old(self)@] } else { Seq::empty() },
            iter.pending() == values_of(old(self)@.level_order()),
            final(self)@ == if old(self)@ is Fork {
                node_shape(**final(iter.queued()[0]))
            } else {
                Shape::Empty
            },
    {
        let mut queue = Vec::new();
        match self.root.as_mut() {
            Some(root) => {
                queue.push(root);
            },
            None => {},
        }
        let iter = ValuesMut { queue };
        proof {
            let tree = old(self)@;
            assert(iter.now() =~= if tree is Fork { seq![tree] } else { Seq::empty() });
            if tree is Empty {
                assert(seq![tree].drop_first() =~= Seq::empty());
                assert(breadth_first(seq![tree]) == breadth_first(Seq::<Shape<K, V>>::empty()));
            }
        }
        iter
    }
}

impl<'a, K: Ord, V: PartialEq> ValuesMut<'a, K, V> {
    /// Hands out the next value, or `None` once every value was handed out.
    ///
    /// The subtree at the front leaves the queue and the subtrees under its root join at the
    /// back. What the queued subtrees are in the end follows one step of the walk: the
    /// subtree that left is its key with whatever is written to the value handed out, over
    /// whatever the subtrees under it are in the end, and the others are what they are in
    /// the queue behind.
    pub fn next(&mut self) -> (item: Option<&'a mut V>)
        ensures
            match item {
                Some(value) => {
                    let before = old(self).queued();
                    let behind = final(self).queued();
                    &&& *value == old(self).now()[0]->value
                    &&& old(self).pending() == seq![*value] + final(self).pending()
                    &&& final(self).now() == old(self).now().drop_first() + old(self).now()[0].kids()
                    &&& walk_step(
                        old(self).now(),
                        Seq::new(before.len(), |i: int| node_shape(**final(before[i]))),
                        *final(value),
                        Seq::new(behind.len(), |i: int| node_shape(**final(behind[i]))),
                    )
                },
                None => {
                    &&& old(self).queued().len() == 0
                    &&& old(self).pending().len() == 0
                    &&& final(self).queued() == old(self).queued()
                },
            },
    {
        let ghost before = self.queue@;
        if self.queue.len() == 0 {
            return None;
        }
        let node = self.queue.remove(0);
        let ghost top = node_shape(**node);
        let ghost waiting = self.queue@;
        let ghost left_now = link_shape(node.left);
        let ghost right_now = link_shape(node.right);
        if let Some(left) = &mut node.left {
            self.queue.push(left);
        }
        let ghost with_left = self.queue@;
        if let Some(right) = &mut node.right {
            self.queue.push(right);
        }
        let value = &mut node.value;
        proof {
            let behind = self.queue@;
            let rest = before.len() - 1;
            assert(waiting =~= before.drop_first());
            assert(top == old(self).now()[0]);
            let l = left_now.alone();
            let r = right_now.alone();
            assert(held(with_left) =~= held(waiting) + l);
            assert(held(behind) =~= held(with_left) + r);
            assert(self.now() =~= old(self).now().drop_first() + top.kids());
            assert(breadth_first(old(self).now()) == seq![top] + breadth_first(self.now()));
            assert(old(self).pending() =~= seq![top->value] + self.pending());
            let after = Seq::new(before.len(), |i: int| node_shape(**final(before[i])));
            let after_behind = Seq::new(behind.len(), |i: int| node_shape(**final(behind[i])));
            assert(after =~= seq![top.refilled(*final(value), after_behind.skip(rest))]
                + after_behind.take(rest));
        }
        Some(value)
    }
}

impl<'a, K, V> ValuesMut<'a, K, V> {
    /// A walk that is dropped hands out nothing more, so the subtrees that still wait end
    /// as they are at that moment.
    pub proof fn lemma_dropped_walk_leaves_the_rest(self)
        requires
            has_resolved(self),
        ensures
            forall|i: int|
                0 <= i < self.queued().len() ==> *final(#[trigger] self.queued()[i])
                    == *self.queued()[i],
            Seq::new(self.queued().len(), |i: int| node_shape(**final(self.queued()[i])))
                == self.now(),
    {
        assert forall|i: int| 0 <= i < self.queued().len() implies *final(#[trigger] self.queued()[i])
            == *self.queued()[i] by {
            assert(has_resolved(self.queue));
            assert(has_resolved(self.queue@[i]));
        }
        assert(Seq::new(self.queued().len(), |i: int| node_shape(**final(self.queued()[i])))
            =~= self.now());
    }
}

} // verus!
