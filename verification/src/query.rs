//! Questions asked of a whole tree.

use vstd::prelude::*;
use crate::order::{equality_as_specified, lemma_equal_is_fixed, may_equal, same_value};
use crate::shape::{
    breadth_first, forest_size, lemma_forest_size_concat, lemma_kids_size, scan_to_leaf, Shape,
};
use crate::tree::{link_shape, node_shape, Node, BST};
use std::collections::VecDeque;

verus! {

/// The trees that a queue of nodes stands for.
pub open(crate) spec fn queued<K, V>(queue: Seq<&Box<Node<K, V>>>) -> Seq<Shape<K, V>> {
    Seq::new(queue.len(), |i: int| node_shape(**queue[i]))
}

impl<K: Ord, V: PartialEq> BST<K, V> {
    /// Whether some entry holds a value equal to `value`.
    ///
    /// The entries are tried in pre-order, and the search stops at the first match.
    pub fn contains_val(&self, value: &V) -> (found: bool)
        ensures
            found ==> exists|i: int|
                0 <= i < self@.pre_order().len() && may_equal(
                    #[trigger] self@.pre_order()[i].1,
                    *value,
                    true,
                ),
            !found ==> forall|i: int|
                0 <= i < self@.pre_order().len() ==> may_equal(
                    #[trigger] self@.pre_order()[i].1,
                    *value,
                    false,
                ),
            equality_as_specified::<V>() ==> found == self@.has_value(*value),
    {
        let mut iter = self.preorder();
        let ghost entries = self@.pre_order();
        let ghost mut seen: int = 0;
        loop
            invariant
                entries == self@.pre_order(),
                0 <= seen <= entries.len(),
                iter.remaining() == entries.skip(seen),
                forall|i: int| 0 <= i < seen ==> may_equal(#[trigger] entries[i].1, *value, false),
            decreases entries.len() - seen,
        {
            match iter.next() {
                Some(entry) => {
                    assert(entries.skip(seen).first() == entries[seen]);
                    assert(entries.skip(seen).drop_first() == entries.skip(seen + 1));
                    if *entry.1 == *value {
                        proof {
                            assert(may_equal(entries[seen].1, *value, true));
                            if equality_as_specified::<V>() {
                                lemma_equal_is_fixed(entries[seen].1, *value, true);
                            }
                        }
                        return true;
                    }
                    proof {
                        seen = seen + 1;
                    }
                },
                None => {
                    proof {
                        if equality_as_specified::<V>() {
                            assert forall|i: int| 0 <= i < entries.len() implies !same_value(
                                #[trigger] entries[i].1,
                                *value,
                            ) by {
                                lemma_equal_is_fixed(entries[i].1, *value, false);
                            }
                        }
                    }
                    return false;
                },
            }
        }
    }

    /// The count of a level-order scan that stops at the first entry without children:
    /// 0 for the empty tree, 1 for a single entry.
    ///
    /// The scan takes the entries from the top level down, each level left to right, and
    /// counts each entry it takes. It ends with the first entry that has no child, so on a
    /// tree whose levels are uneven the count is not the length of the longest branch.
    /// The count stops at `usize::MAX`, which no tree that fits in memory reaches.
    pub fn height(&self) -> (levels: usize)
        ensures
            levels == if self@.levels_scanned() <= usize::MAX {
                self@.levels_scanned()
            } else {
                usize::MAX as nat
            },
    {
        let mut queue: VecDeque<&Box<Node<K, V>>> = VecDeque::new();
        match self.root.as_ref() {
            Some(root) => {
                queue.push_back(root);
                assert(queued(queue@) == seq![self@]);
            },
            None => {
                assert(queued(queue@) == Seq::<Shape<K, V>>::empty());
                assert(breadth_first(seq![self@]) == breadth_first(seq![self@].drop_first()));
            },
        }
        let mut levels: usize = 0;
        let ghost mut counted: nat = 0;
        loop
            invariant_except_break
                counted + scan_to_leaf(breadth_first(queued(queue@))) == self@.levels_scanned(),
            invariant
                levels == if counted <= usize::MAX { counted } else { usize::MAX as nat },
            ensures
                counted == self@.levels_scanned(),
            decreases forest_size(queued(queue@)),
        {
            let ghost row = queued(queue@);
            match queue.pop_front() {
                None => {
                    break ;
                },
                Some(node) => {
                    let ghost top = node_shape(**node);
                    let ghost rest = queued(queue@);
                    proof {
                        assert(rest == row.drop_first());
                        assert(row[0] == top);
                        lemma_kids_size(top);
                    }
                    if levels < usize::MAX {
                        levels += 1;
                    }
                    proof {
                        counted = counted + 1;
                    }
                    let ghost waiting = queue@;
                    match node.left.as_ref() {
                        Some(left) => {
                            queue.push_back(left);
                        },
                        None => {},
                    }
                    let ghost with_left = queue@;
                    match node.right.as_ref() {
                        Some(right) => {
                            queue.push_back(right);
                        },
                        None => {},
                    }
                    proof {
                        let l = link_shape(node.left).alone();
                        let r = link_shape(node.right).alone();
                        assert(queued(with_left) =~= rest + l);
                        assert(queued(queue@) =~= rest + l + r);
                        assert(rest + l + r =~= rest + (l + r));
                        lemma_forest_size_concat(rest, top.kids());
                        assert(breadth_first(row) == seq![top] + breadth_first(rest + top.kids()));
                        assert((seq![top] + breadth_first(rest + top.kids())).drop_first()
                            == breadth_first(rest + top.kids()));
                    }
                    if node.left.is_none() && node.right.is_none() {
                        break ;
                    }
                },
            }
        }
        levels
    }
}

} // verus!
