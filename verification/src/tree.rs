//! Nodes, links and the tree itself.

use vstd::prelude::*;
use crate::laws::{lemma_attach_keeps_order, lemma_hung_size, lemma_route_is_fixed};
use crate::order::compares_as_specified;
use crate::shape::Shape;

verus! {

/// An owning edge to a child: absent, or exactly one boxed node.
pub type Link<K, V> = Option<Box<Node<K, V>>>;

/// One entry of the tree with its two subtrees.
#[derive(Debug)]
pub struct Node<K, V> {
    pub(crate) left: Link<K, V>,
    pub(crate) right: Link<K, V>,
    pub(crate) key: K,
    pub(crate) value: V,
}

/// A tree is a single link to its root.
#[derive(Debug)]
pub struct BST<K, V> {
    pub root: Link<K, V>,
}

/// What a link holds.
pub open spec fn link_shape<K, V>(link: Link<K, V>) -> Shape<K, V>
    decreases link,
{
    match link {
        None => Shape::Empty,
        Some(node) => node_shape(*node),
    }
}

/// What a node holds: its entry between what its two links hold.
pub open(crate) spec fn node_shape<K, V>(node: Node<K, V>) -> Shape<K, V>
    decreases node,
{
    Shape::Fork {
        left: Box::new(link_shape(node.left)),
        key: node.key,
        value: node.value,
        right: Box::new(link_shape(node.right)),
    }
}

/// What a borrowed link holds.
pub open spec fn ref_shape<K, V>(link: Option<&Box<Node<K, V>>>) -> Shape<K, V> {
    match link {
        None => Shape::Empty,
        Some(node) => node_shape(**node),
    }
}

impl<K, V> View for Node<K, V> {
    type V = Shape<K, V>;

    open spec fn view(&self) -> Shape<K, V> {
        node_shape(*self)
    }
}

impl<K, V> View for BST<K, V> {
    type V = Shape<K, V>;

    open spec fn view(&self) -> Shape<K, V> {
        link_shape(self.root)
    }
}

impl<K: Ord, V: PartialEq> Node<K, V> {
    /// A leaf holding `key` and `value`.
    pub fn new(key: K, value: V) -> (node: Self)
        ensures
            node@ == Shape::leaf(key, value),
    {
        Self { left: None, right: None, key, value }
    }
}

impl<K: Ord, V: PartialEq> BST<K, V> {
    /// Hangs `input` at the empty place that the walk from the root reaches.
    ///
    /// The walk goes right at every entry whose key `input`'s key is at least, so equal keys
    /// line up to the right of the first; it goes left at the others. Nothing that was in
    /// the tree moves, and a node that comes with subtrees of its own is hung with them.
    /// A tree in search-tree order stays in that order when a leaf is hung.
    pub fn insert(&mut self, input: Node<K, V>)
        ensures
            exists|path: Seq<bool>| #[trigger]
                old(self)@.lands(final(self)@, input@->key, path, input@),
            final(self)@.size() == old(self)@.size() + input@.size(),
            compares_as_specified::<K>() ==> final(self)@ == old(self)@.attach(input@->key, input@),
            compares_as_specified::<K>() && old(self)@.ordered() && input@.is_leaf()
                ==> final(self)@.ordered(),
    {
        let ghost start = self@;
        let ghost sub = input@;
        let ghost key = input.key;
        let ghost mut walked: Seq<bool> = Seq::empty();
        let mut current = &mut self.root;
        loop
            invariant
                sub == input@,
                key == input.key,
                forall|rest: Seq<bool>| #[trigger]
                    link_shape(*current).lands(link_shape(*final(current)), key, rest, sub)
                        ==> start.lands(
                        link_shape(after_borrow(self.root)),
                        key,
                        walked + rest,
                        sub,
                    ),
            ensures
                *current is None,
            decreases *current,
        {
            let ghost here = link_shape(*current);
            let ghost here_after = link_shape(*final(current));
            let ghost so_far = walked;
            match current {
                None => {
                    break ;
                },
                Some(node) => {
                    if input.key >= node.key {
                        current = &mut node.right;
                        proof {
                            walked = so_far.push(true);
                        }
                    } else {
                        current = &mut node.left;
                        proof {
                            walked = so_far.push(false);
                        }
                    }
                },
            }
            proof {
                let turn = walked.last();
                assert forall|rest: Seq<bool>| #[trigger]
                    link_shape(*current).lands(
                        link_shape(*final(current)),
                        key,
                        rest,
                        sub,
                    ) implies start.lands(
                    link_shape(after_borrow(self.root)),
                    key,
                    walked + rest,
                    sub,
                ) by {
                    let longer = seq![turn] + rest;
                    assert(longer.drop_first() == rest);
                    assert(here.lands(here_after, key, longer, sub));
                    assert(so_far + longer == walked + rest);
                }
            }
        }
        *current = Some(Box::new(input));
        proof {
            assert(Shape::<K, V>::Empty.lands(sub, key, Seq::empty(), sub));
            assert(walked + Seq::empty() == walked);
            lemma_hung_size(start, key, walked, sub);
            if compares_as_specified::<K>() {
                lemma_route_is_fixed(start, key, walked, sub);
                if start.ordered() && sub.is_leaf() {
                    lemma_attach_keeps_order(start, sub->key, sub->value);
                }
            }
        }
    }
}

} // verus!
