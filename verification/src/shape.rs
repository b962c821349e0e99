//! The mathematical tree that stands for a tree's contents, and its walks.

use vstd::prelude::*;
use crate::order::{at_least, may_go_right, same_value};

verus! {

/// A binary tree of entries: what a link holds, seen as a value.
pub enum Shape<K, V> {
    Empty,
    Fork { left: Box<Shape<K, V>>, key: K, value: V, right: Box<Shape<K, V>> },
}

impl<K, V> Shape<K, V> {
    /// A tree of one entry.
    pub open spec fn leaf(key: K, value: V) -> Self {
        Shape::Fork { left: Box::new(Shape::Empty), key, value, right: Box::new(Shape::Empty) }
    }

    /// Whether the tree is a single entry.
    pub open spec fn is_leaf(self) -> bool {
        self is Fork && *self->left is Empty && *self->right is Empty
    }

    /// The entry at the root of a tree that is not empty.
    pub open spec fn entry(self) -> (K, V)
        recommends
            self is Fork,
    {
        (self->key, self->value)
    }

    /// The row that holds this tree alone, or nothing where the tree is empty.
    pub open spec fn alone(self) -> Seq<Shape<K, V>> {
        if self is Fork {
            seq![self]
        } else {
            Seq::empty()
        }
    }

    /// The subtrees directly under the root that are not empty, left before right.
    pub open spec fn kids(self) -> Seq<Shape<K, V>> {
        match self {
            Shape::Empty => Seq::empty(),
            Shape::Fork { left, right, .. } => left.alone() + right.alone(),
        }
    }

    /// The tree with `value` at its root and the trees of `kids` in the places of the
    /// subtrees under the root, left before right.
    pub open spec fn refilled(self, value: V, kids: Seq<Shape<K, V>>) -> Shape<K, V> {
        match self {
            Shape::Empty => Shape::Empty,
            Shape::Fork { left, key, right, .. } => Shape::Fork {
                left: Box::new(if *left is Fork { kids[0] } else { Shape::Empty }),
                key,
                value,
                right: Box::new(
                    if *right is Fork {
                        kids[if *left is Fork { 1int } else { 0int }]
                    } else {
                        Shape::Empty
                    },
                ),
            },
        }
    }

    /// The tree with `sub` in the empty place that `path` leads to from the root: at each
    /// step `true` goes to the right subtree and `false` to the left one.
    pub open spec fn hung_at(self, path: Seq<bool>, sub: Shape<K, V>) -> Shape<K, V>
        decreases self,
    {
        match self {
            Shape::Empty => sub,
            Shape::Fork { left, key, value, right } => if path.len() == 0 {
                self
            } else if path[0] {
                Shape::Fork { left, key, value, right: Box::new(right.hung_at(path.drop_first(), sub)) }
            } else {
                Shape::Fork { left: Box::new(left.hung_at(path.drop_first(), sub)), key, value, right }
            },
        }
    }

    /// Number of entries.
    pub open spec fn size(self) -> nat
        decreases self,
    {
        match self {
            Shape::Empty => 0,
            Shape::Fork { left, right, .. } => left.size() + 1 + right.size(),
        }
    }

    /// Left subtree, entry, right subtree.
    pub open spec fn in_order(self) -> Seq<(K, V)>
        decreases self,
    {
        match self {
            Shape::Empty => Seq::empty(),
            Shape::Fork { left, key, value, right } => left.in_order().push((key, value))
                + right.in_order(),
        }
    }

    /// Entry, left subtree, right subtree.
    pub open spec fn pre_order(self) -> Seq<(K, V)>
        decreases self,
    {
        match self {
            Shape::Empty => Seq::empty(),
            Shape::Fork { left, key, value, right } => seq![(key, value)] + left.pre_order()
                + right.pre_order(),
        }
    }

    /// Left subtree, right subtree, entry.
    pub open spec fn post_order(self) -> Seq<(K, V)>
        decreases self,
    {
        match self {
            Shape::Empty => Seq::empty(),
            Shape::Fork { left, key, value, right } => (left.post_order()
                + right.post_order()).push((key, value)),
        }
    }

    /// The subtrees of this tree from the top level down, each level left to right.
    pub open spec fn level_order_subtrees(self) -> Seq<Shape<K, V>> {
        breadth_first(seq![self])
    }

    /// The entries from the top level down, each level left to right.
    pub open spec fn level_order(self) -> Seq<(K, V)> {
        roots(self.level_order_subtrees())
    }

    /// The count that a scan from the top level down reaches when it stops at the first
    /// entry without children: 0 for the empty tree, 1 for a single entry.
    pub open spec fn levels_scanned(self) -> nat {
        scan_to_leaf(self.level_order_subtrees())
    }

    /// Every key of the tree satisfies `p`.
    pub open spec fn every_key(self, p: spec_fn(K) -> bool) -> bool
        decreases self,
    {
        match self {
            Shape::Empty => true,
            Shape::Fork { left, key, right, .. } => left.every_key(p) && p(key) && right.every_key(
                p,
            ),
        }
    }

    /// The same places hold the same keys; only values may differ.
    pub open spec fn same_keys(self, other: Shape<K, V>) -> bool
        decreases self,
    {
        match (self, other) {
            (Shape::Empty, Shape::Empty) => true,
            (
                Shape::Fork { left: l1, key: k1, right: r1, .. },
                Shape::Fork { left: l2, key: k2, right: r2, .. },
            ) => k1 == k2 && l1.same_keys(*l2) && r1.same_keys(*r2),
            _ => false,
        }
    }
}

/// Total number of entries in a row of trees.
pub open spec fn forest_size<K, V>(forest: Seq<Shape<K, V>>) -> nat
    decreases forest.len(),
{
    if forest.len() == 0 {
        0
    } else {
        forest[0].size() + forest_size(forest.drop_first())
    }
}

/// The entries at the roots of a row of trees.
pub open spec fn roots<K, V>(forest: Seq<Shape<K, V>>) -> Seq<(K, V)> {
    Seq::new(forest.len(), |i: int| forest[i].entry())
}

/// The values of a sequence of entries.
pub open spec fn values_of<K, V>(entries: Seq<(K, V)>) -> Seq<V> {
    Seq::new(entries.len(), |i: int| entries[i].1)
}

/// The values that a walk of the row as a queue meets, in the order in which it meets
/// them.
pub open spec fn values_in_turn<K, V>(forest: Seq<Shape<K, V>>) -> Seq<V> {
    values_of(roots(breadth_first(forest)))
}

/// The size of a row of trees is the sum over its two parts.
pub proof fn lemma_forest_size_concat<K, V>(a: Seq<Shape<K, V>>, b: Seq<Shape<K, V>>)
    ensures
        forest_size(a + b) == forest_size(a) + forest_size(b),
    decreases a.len(),
{
    if a.len() == 0 {
        assert(a + b =~= b);
    } else {
        assert((a + b).drop_first() =~= a.drop_first() + b);
        lemma_forest_size_concat(a.drop_first(), b);
    }
}

/// A tree alone in a row is as large as the row.
pub proof fn lemma_alone_size<K, V>(tree: Shape<K, V>)
    ensures
        forest_size(tree.alone()) == tree.size(),
{
    if tree is Fork {
        assert(tree.alone().drop_first() =~= Seq::empty());
        assert(forest_size(tree.alone().drop_first()) == 0);
    }
}

/// The subtrees under a root hold every entry of the tree but the one at the root.
pub proof fn lemma_kids_size<K, V>(tree: Shape<K, V>)
    requires
        tree is Fork,
    ensures
        forest_size(tree.kids()) + 1 == tree.size(),
{
    lemma_alone_size(*tree->left);
    lemma_alone_size(*tree->right);
    lemma_forest_size_concat(tree->left.alone(), tree->right.alone());
}

/// The non-empty trees met when the row is walked as a queue: the first tree leaves the
/// front, and the subtrees under its root join at the back.
pub open spec fn breadth_first<K, V>(forest: Seq<Shape<K, V>>) -> Seq<Shape<K, V>>
    decreases forest_size(forest), forest.len(),
    via breadth_first_decreases::<K, V>
{
    if forest.len() == 0 {
        Seq::empty()
    } else if forest[0] is Empty {
        breadth_first(forest.drop_first())
    } else {
        seq![forest[0]] + breadth_first(forest.drop_first() + forest[0].kids())
    }
}

#[via_fn]
proof fn breadth_first_decreases<K, V>(forest: Seq<Shape<K, V>>) {
    if forest.len() > 0 {
        if forest[0] is Fork {
            lemma_forest_size_concat(forest.drop_first(), forest[0].kids());
            lemma_kids_size(forest[0]);
        }
    }
}

/// The keys of `entries` never step down: each is at least every key before it.
pub open spec fn sorted_by_key<K: PartialOrd, V>(entries: Seq<(K, V)>) -> bool {
    forall|i: int, j: int|
        0 <= i < j < entries.len() ==> at_least(#[trigger] entries[j].0, #[trigger] entries[i].0)
}

/// How many trees of the row are passed until one without subtrees under its root has
/// been passed, that one included; all of them where there is none.
pub open spec fn scan_to_leaf<K, V>(row: Seq<Shape<K, V>>) -> nat
    decreases row.len(),
{
    if row.len() == 0 {
        0
    } else if row[0].kids().len() == 0 {
        1
    } else {
        1 + scan_to_leaf(row.drop_first())
    }
}

/// Whether some entry of the sequence holds a value equal to `value`.
pub open spec fn yields_value<K, V: PartialEq>(entries: Seq<(K, V)>, value: V) -> bool {
    exists|i: int| 0 <= i < entries.len() && same_value(#[trigger] entries[i].1, value)
}

impl<K, V: PartialEq> Shape<K, V> {
    /// Whether some entry of the tree holds a value equal to `value`.
    pub open spec fn has_value(self, value: V) -> bool {
        yields_value(self.pre_order(), value)
    }
}

impl<K: PartialOrd, V> Shape<K, V> {
    /// Whether `path` is a way that the walk for `key` may take from the root to an empty
    /// place: at each entry it turns right (`true`) or left (`false`) as `>=` answers.
    pub open spec fn routed(self, key: K, path: Seq<bool>) -> bool
        decreases self,
    {
        match self {
            Shape::Empty => path.len() == 0,
            Shape::Fork { left, key: k, right, .. } => {
                &&& path.len() > 0
                &&& may_go_right(key, k, path[0])
                &&& if path[0] {
                    right.routed(key, path.drop_first())
                } else {
                    left.routed(key, path.drop_first())
                }
            },
        }
    }

    /// `after` is `self` with `sub` at the end of `path`, a way that the walk for `key`
    /// may take.
    pub open spec fn lands(
        self,
        after: Shape<K, V>,
        key: K,
        path: Seq<bool>,
        sub: Shape<K, V>,
    ) -> bool {
        self.routed(key, path) && after == self.hung_at(path, sub)
    }

    /// The tree with `sub` hung at the empty place that the walk from the root reaches,
    /// going right at every key that `key` is at least, left at the others.
    pub open spec fn attach(self, key: K, sub: Shape<K, V>) -> Shape<K, V>
        decreases self,
    {
        match self {
            Shape::Empty => sub,
            Shape::Fork { left, key: k, value, right } => if at_least(key, k) {
                Shape::Fork { left, key: k, value, right: Box::new(right.attach(key, sub)) }
            } else {
                Shape::Fork { left: Box::new(left.attach(key, sub)), key: k, value, right }
            },
        }
    }

    /// The tree that grows from the empty tree when the entries of `pairs` are hung one
    /// after the other, each as a leaf.
    pub open spec fn grown(pairs: Seq<(K, V)>) -> Shape<K, V>
        decreases pairs.len(),
    {
        if pairs.len() == 0 {
            Shape::Empty
        } else {
            let (key, value) = pairs.last();
            Self::grown(pairs.drop_last()).attach(key, Shape::leaf(key, value))
        }
    }

    /// The search-tree order: under every entry, the keys on the left are not at least its
    /// key, and the keys on the right are.
    pub open spec fn ordered(self) -> bool
        decreases self,
    {
        match self {
            Shape::Empty => true,
            Shape::Fork { left, key, right, .. } => {
                &&& left.ordered()
                &&& right.ordered()
                &&& left.every_key(|k: K| !at_least(k, key))
                &&& right.every_key(|k: K| at_least(k, key))
            },
        }
    }
}

} // verus!
