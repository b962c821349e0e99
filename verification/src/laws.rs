//! What holds of every tree: the order of its keys, its size, and what its walks yield.

use vstd::prelude::*;
use crate::order::{at_least, compares_as_specified, lemma_turn_is_fixed, total_order};
use crate::shape::{sorted_by_key, Shape};

verus! {

/// Every key of a tree satisfies `p` exactly if every key of its in-order walk does.
pub proof fn lemma_every_key_in_order<K, V>(tree: Shape<K, V>, p: spec_fn(K) -> bool)
    ensures
        tree.every_key(p) <==> forall|i: int|
            0 <= i < tree.in_order().len() ==> p(#[trigger] tree.in_order()[i].0),
    decreases tree,
{
    match tree {
        Shape::Empty => {
            assert(tree.in_order().len() == 0);
        },
        Shape::Fork { left, key, value, right } => {
            lemma_every_key_in_order(*left, p);
            lemma_every_key_in_order(*right, p);
            let l = left.in_order();
            let r = right.in_order();
            let all = tree.in_order();
            assert(all == l.push((key, value)) + r);
            if tree.every_key(p) {
                assert forall|i: int| 0 <= i < all.len() implies p(#[trigger] all[i].0) by {
                    if i < l.len() {
                        assert(all[i] == l[i]);
                    } else if i == l.len() {
                    } else {
                        assert(all[i] == r[i - l.len() - 1]);
                    }
                }
            }
            if forall|i: int| 0 <= i < all.len() ==> p(#[trigger] all[i].0) {
                assert forall|i: int| 0 <= i < l.len() implies p(#[trigger] l[i].0) by {
                    assert(all[i] == l[i]);
                }
                assert forall|i: int| 0 <= i < r.len() implies p(#[trigger] r[i].0) by {
                    assert(all[i + l.len() + 1] == r[i]);
                }
                assert(all[l.len() as int] == (key, value));
                assert(p(all[l.len() as int].0));
            }
        },
    }
}

/// If `p` holds of every key of a tree and of every key of what is hung into it,
/// it holds of every key of the result.
pub proof fn lemma_attach_every_key<K: PartialOrd, V>(
    tree: Shape<K, V>,
    key: K,
    sub: Shape<K, V>,
    p: spec_fn(K) -> bool,
)
    requires
        tree.every_key(p),
        sub.every_key(p),
    ensures
        tree.attach(key, sub).every_key(p),
    decreases tree,
{
    match tree {
        Shape::Empty => {},
        Shape::Fork { left, key: k, value, right } => {
            if at_least(key, k) {
                lemma_attach_every_key(*right, key, sub, p);
            } else {
                lemma_attach_every_key(*left, key, sub, p);
            }
        },
    }
}

/// Hanging a leaf into a tree that is in search-tree order leaves it in that order.
pub proof fn lemma_attach_keeps_order<K: PartialOrd, V>(tree: Shape<K, V>, key: K, value: V)
    requires
        tree.ordered(),
    ensures
        tree.attach(key, Shape::leaf(key, value)).ordered(),
    decreases tree,
{
    let leaf = Shape::leaf(key, value);
    let none = Shape::<K, V>::Empty;
    assert(none.ordered());
    match tree {
        Shape::Empty => {
            assert(none.every_key(|k: K| !at_least(k, key)));
            assert(none.every_key(|k: K| at_least(k, key)));
        },
        Shape::Fork { left, key: k, value: v, right } => {
            if at_least(key, k) {
                let p = |x: K| at_least(x, k);
                assert(none.every_key(p));
                assert(leaf.every_key(p));
                lemma_attach_keeps_order(*right, key, value);
                lemma_attach_every_key(*right, key, leaf, p);
            } else {
                let p = |x: K| !at_least(x, k);
                assert(none.every_key(p));
                assert(leaf.every_key(p));
                lemma_attach_keeps_order(*left, key, value);
                lemma_attach_every_key(*left, key, leaf, p);
            }
        },
    }
}

/// Where `vstd` fixes comparisons, the walk for a key can take one way only, and hanging
/// a tree at its end is hanging it by the key.
pub proof fn lemma_route_is_fixed<K: PartialOrd, V>(
    tree: Shape<K, V>,
    key: K,
    path: Seq<bool>,
    sub: Shape<K, V>,
)
    requires
        compares_as_specified::<K>(),
        tree.routed(key, path),
    ensures
        tree.hung_at(path, sub) == tree.attach(key, sub),
    decreases tree,
{
    match tree {
        Shape::Empty => {},
        Shape::Fork { left, key: k, value, right } => {
            lemma_turn_is_fixed(key, k, path[0]);
            if path[0] {
                lemma_route_is_fixed(*right, key, path.drop_first(), sub);
            } else {
                lemma_route_is_fixed(*left, key, path.drop_first(), sub);
            }
        },
    }
}

/// A tree hung at the end of a way to an empty place adds its size to the tree's: nothing
/// is dropped and nothing is counted twice, whatever the comparisons answered.
pub proof fn lemma_hung_size<K: PartialOrd, V>(
    tree: Shape<K, V>,
    key: K,
    path: Seq<bool>,
    sub: Shape<K, V>,
)
    requires
        tree.routed(key, path),
    ensures
        tree.hung_at(path, sub).size() == tree.size() + sub.size(),
    decreases tree,
{
    match tree {
        Shape::Empty => {},
        Shape::Fork { left, key: k, value, right } => {
            if path[0] {
                lemma_hung_size(*right, key, path.drop_first(), sub);
            } else {
                lemma_hung_size(*left, key, path.drop_first(), sub);
            }
        },
    }
}

/// Hanging a tree into another adds up their sizes.
pub proof fn lemma_attach_size<K: PartialOrd, V>(tree: Shape<K, V>, key: K, sub: Shape<K, V>)
    ensures
        tree.attach(key, sub).size() == tree.size() + sub.size(),
    decreases tree,
{
    match tree {
        Shape::Empty => {},
        Shape::Fork { left, key: k, value, right } => {
            if at_least(key, k) {
                lemma_attach_size(*right, key, sub);
            } else {
                lemma_attach_size(*left, key, sub);
            }
        },
    }
}

/// A tree grown from the empty tree by hanging leaves is in search-tree order.
pub proof fn lemma_grown_is_ordered<K: PartialOrd, V>(pairs: Seq<(K, V)>)
    ensures
        Shape::grown(pairs).ordered(),
    decreases pairs.len(),
{
    if pairs.len() > 0 {
        lemma_grown_is_ordered(pairs.drop_last());
        lemma_attach_keeps_order(Shape::grown(pairs.drop_last()), pairs.last().0, pairs.last().1);
    }
}

/// In a tree in search-tree order over totally ordered keys, the keys of the in-order
/// walk never step down.
pub proof fn lemma_in_order_sorted<K: PartialOrd, V>(tree: Shape<K, V>)
    requires
        total_order::<K>(),
        tree.ordered(),
    ensures
        sorted_by_key(tree.in_order()),
    decreases tree,
{
    match tree {
        Shape::Empty => {},
        Shape::Fork { left, key, value, right } => {
            lemma_in_order_sorted(*left);
            lemma_in_order_sorted(*right);
            lemma_every_key_in_order(*left, |k: K| !at_least(k, key));
            lemma_every_key_in_order(*right, |k: K| at_least(k, key));
            let l = left.in_order();
            let r = right.in_order();
            let all = tree.in_order();
            assert(all == l.push((key, value)) + r);
            assert forall|i: int, j: int| 0 <= i < j < all.len() implies at_least(
                #[trigger] all[j].0,
                #[trigger] all[i].0,
            ) by {
                let m = l.len() as int;
                if j < m {
                    assert(all[i] == l[i] && all[j] == l[j]);
                } else if j == m {
                    assert(all[i] == l[i]);
                    assert(!at_least(l[i].0, key));
                    assert(at_least(l[i].0, key) || at_least(key, l[i].0));
                } else {
                    assert(all[j] == r[j - m - 1]);
                    assert(at_least(r[j - m - 1].0, key));
                    if i < m {
                        assert(all[i] == l[i]);
                        assert(!at_least(l[i].0, key));
                        assert(at_least(l[i].0, key) || at_least(key, l[i].0));
                        assert(at_least(r[j - m - 1].0, key) && at_least(key, l[i].0));
                    } else if i == m {
                    } else {
                        assert(all[i] == r[i - m - 1]);
                    }
                }
            }
        },
    }
}

/// Whatever entries are inserted into an empty tree, in whatever order, the in-order walk
/// of the result yields keys that never step down.
pub proof fn law_in_order_is_sorted<K: PartialOrd, V>(pairs: Seq<(K, V)>)
    requires
        total_order::<K>(),
    ensures
        sorted_by_key(Shape::grown(pairs).in_order()),
{
    lemma_grown_is_ordered(pairs);
    lemma_in_order_sorted(Shape::grown(pairs));
}

/// The pre-order walk of a tree that is not empty starts with the entry at the root.
pub proof fn law_pre_order_starts_at_root<K, V>(tree: Shape<K, V>)
    requires
        tree is Fork,
    ensures
        tree.pre_order().len() > 0,
        tree.pre_order().first() == tree.entry(),
{
}

/// A tree grown by inserting entries one by one holds as many entries as were inserted:
/// none is dropped, whether keys repeat or not.
pub proof fn law_size_counts_insertions<K: PartialOrd, V>(pairs: Seq<(K, V)>)
    ensures
        Shape::grown(pairs).size() == pairs.len(),
    decreases pairs.len(),
{
    if pairs.len() > 0 {
        law_size_counts_insertions(pairs.drop_last());
        let (key, value) = pairs.last();
        lemma_attach_size(Shape::grown(pairs.drop_last()), key, Shape::leaf(key, value));
        assert(Shape::<K, V>::Empty.size() == 0);
        assert(Shape::leaf(key, value).size() == 1);
    }
}

/// A leaf whose key is at least every key of the tree ends up last in the in-order walk.
pub proof fn lemma_attach_greatest<K: PartialOrd, V>(tree: Shape<K, V>, key: K, value: V)
    requires
        tree.every_key(|k: K| at_least(key, k)),
    ensures
        tree.attach(key, Shape::leaf(key, value)).in_order() == tree.in_order().push((key, value)),
    decreases tree,
{
    match tree {
        Shape::Empty => {
            assert(Shape::leaf(key, value).in_order() =~= Seq::empty().push((key, value)));
        },
        Shape::Fork { left, key: k, value: v, right } => {
            lemma_attach_greatest(*right, key, value);
            assert(tree.attach(key, Shape::leaf(key, value)).in_order() =~= tree.in_order().push(
                (key, value),
            ));
        },
    }
}

/// Entries inserted in an order in which keys never step down come out of the in-order
/// walk in the order they went in.
pub proof fn lemma_grown_from_sorted<K: PartialOrd, V>(pairs: Seq<(K, V)>)
    requires
        sorted_by_key(pairs),
    ensures
        Shape::grown(pairs).in_order() == pairs,
    decreases pairs.len(),
{
    if pairs.len() == 0 {
        assert(Shape::<K, V>::grown(pairs).in_order() =~= pairs);
    } else {
        let (key, value) = pairs.last();
        let before = pairs.drop_last();
        let tree = Shape::grown(before);
        assert(sorted_by_key(before)) by {
            assert forall|i: int, j: int| 0 <= i < j < before.len() implies at_least(
                #[trigger] before[j].0,
                #[trigger] before[i].0,
            ) by {
                assert(before[i] == pairs[i] && before[j] == pairs[j]);
            }
        }
        lemma_grown_from_sorted(before);
        assert forall|i: int| 0 <= i < tree.in_order().len() implies (|k: K| at_least(key, k))(
            #[trigger] tree.in_order()[i].0,
        ) by {
            assert(before[i] == pairs[i]);
            assert(pairs[pairs.len() - 1] == (key, value));
            assert(at_least(pairs[pairs.len() - 1].0, pairs[i].0));
        }
        lemma_every_key_in_order(tree, |k: K| at_least(key, k));
        lemma_attach_greatest(tree, key, value);
        assert(before.push((key, value)) =~= pairs);
    }
}

/// Round trip: the entries of an in-order walk, inserted again into an empty tree in that
/// order, give a tree whose in-order walk yields the same sequence. The shape may differ.
pub proof fn law_in_order_round_trip<K: PartialOrd, V>(tree: Shape<K, V>)
    requires
        total_order::<K>(),
        tree.ordered(),
    ensures
        Shape::grown(tree.in_order()).in_order() == tree.in_order(),
{
    lemma_in_order_sorted(tree);
    lemma_grown_from_sorted(tree.in_order());
}

/// Round trip for a tree grown by insertions, whatever was inserted and in whatever order.
pub proof fn law_round_trip_after_insertions<K: PartialOrd, V>(pairs: Seq<(K, V)>)
    requires
        total_order::<K>(),
    ensures
        Shape::grown(Shape::grown(pairs).in_order()).in_order() == Shape::grown(pairs).in_order(),
{
    lemma_grown_is_ordered(pairs);
    law_in_order_round_trip(Shape::grown(pairs));
}

} // verus!
