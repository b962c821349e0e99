//! The walks of one tree yield the same entries, each in its own order.

use vstd::prelude::*;
use vstd::multiset::Multiset;
use vstd::multiset::{group_multiset_axioms, lemma_multiset_empty_len};
use vstd::seq_lib::{
    lemma_multiset_commutative, to_multiset_build, to_multiset_contains, to_multiset_len,
};
use crate::order::same_value;
use crate::shape::{
    breadth_first, forest_size, lemma_forest_size_concat, lemma_kids_size, roots, yields_value,
    Shape,
};

verus! {

/// The entries of a row of trees, counted as often as they occur.
pub open spec fn forest_entries<K, V>(forest: Seq<Shape<K, V>>) -> Multiset<(K, V)>
    decreases forest.len(),
{
    if forest.len() == 0 {
        Multiset::empty()
    } else {
        forest[0].pre_order().to_multiset().add(forest_entries(forest.drop_first()))
    }
}

/// A sequence without items has none to count.
pub proof fn lemma_nothing_to_count<A>()
    ensures
        Seq::<A>::empty().to_multiset() == Multiset::<A>::empty(),
{
    let none = Seq::<A>::empty();
    to_multiset_len(none);
    lemma_multiset_empty_len(none.to_multiset());
}

/// A sequence of one item counts that item once.
pub proof fn lemma_one_to_count<A>(item: A)
    ensures
        seq![item].to_multiset() == Multiset::<A>::empty().insert(item),
{
    lemma_nothing_to_count::<A>();
    to_multiset_build(Seq::<A>::empty(), item);
    assert(seq![item] =~= Seq::<A>::empty().push(item));
}

/// Each depth-first walk yields as many entries as the tree holds.
pub proof fn lemma_walk_lengths<K, V>(tree: Shape<K, V>)
    ensures
        tree.in_order().len() == tree.size(),
        tree.pre_order().len() == tree.size(),
        tree.post_order().len() == tree.size(),
    decreases tree,
{
    match tree {
        Shape::Empty => {},
        Shape::Fork { left, key, value, right } => {
            lemma_walk_lengths(*left);
            lemma_walk_lengths(*right);
        },
    }
}

/// The in-order, pre-order and post-order walks of a tree yield the same entries, each as
/// often as the others.
pub proof fn lemma_depth_first_walks_agree<K, V>(tree: Shape<K, V>)
    ensures
        tree.in_order().to_multiset() == tree.pre_order().to_multiset(),
        tree.post_order().to_multiset() == tree.pre_order().to_multiset(),
    decreases tree,
{
    match tree {
        Shape::Empty => {
            assert(tree.in_order() =~= tree.pre_order());
            assert(tree.post_order() =~= tree.pre_order());
        },
        Shape::Fork { left, key, value, right } => {
            lemma_depth_first_walks_agree(*left);
            lemma_depth_first_walks_agree(*right);
            let e = (key, value);
            let li = left.in_order();
            let ri = right.in_order();
            let lp = left.pre_order();
            let rp = right.pre_order();
            let lo = left.post_order();
            let ro = right.post_order();
            broadcast use group_multiset_axioms;

            to_multiset_build(li, e);
            lemma_multiset_commutative(li.push(e), ri);
            lemma_one_to_count(e);
            lemma_multiset_commutative(seq![e], lp);
            lemma_multiset_commutative(seq![e] + lp, rp);
            lemma_multiset_commutative(lo, ro);
            to_multiset_build(lo + ro, e);
            assert(tree.in_order().to_multiset() =~= tree.pre_order().to_multiset());
            assert(tree.post_order().to_multiset() =~= tree.pre_order().to_multiset());
        },
    }
}

/// The entries of a row of trees are those of its two parts together.
pub proof fn lemma_forest_entries_concat<K, V>(a: Seq<Shape<K, V>>, b: Seq<Shape<K, V>>)
    ensures
        forest_entries(a + b) == forest_entries(a).add(forest_entries(b)),
    decreases a.len(),
{
    broadcast use group_multiset_axioms;

    if a.len() == 0 {
        assert(a + b =~= b);
        assert(forest_entries(a + b) =~= forest_entries(a).add(forest_entries(b)));
    } else {
        assert((a + b).drop_first() =~= a.drop_first() + b);
        lemma_forest_entries_concat(a.drop_first(), b);
        assert(forest_entries(a + b) =~= forest_entries(a).add(forest_entries(b)));
    }
}

/// A tree alone in a row has the entries of the row.
pub proof fn lemma_alone_entries<K, V>(tree: Shape<K, V>)
    ensures
        forest_entries(tree.alone()) == tree.pre_order().to_multiset(),
{
    broadcast use group_multiset_axioms;

    lemma_nothing_to_count::<(K, V)>();
    let none = Seq::<Shape<K, V>>::empty();
    assert(forest_entries(none) =~= Multiset::empty());
    if tree is Fork {
        assert(tree.alone().drop_first() =~= none);
        assert(forest_entries(tree.alone()) =~= tree.pre_order().to_multiset());
    } else {
        assert(tree.pre_order() =~= Seq::empty());
    }
}

/// The entries of a tree are the entry at its root and the entries of the subtrees under
/// the root.
pub proof fn lemma_kids_entries<K, V>(tree: Shape<K, V>)
    requires
        tree is Fork,
    ensures
        forest_entries(tree.kids()).insert(tree.entry()) == tree.pre_order().to_multiset(),
{
    broadcast use group_multiset_axioms;

    let left = *tree->left;
    let right = *tree->right;
    let e = tree.entry();
    lemma_alone_entries(left);
    lemma_alone_entries(right);
    lemma_forest_entries_concat(left.alone(), right.alone());
    lemma_one_to_count(e);
    lemma_multiset_commutative(seq![e], left.pre_order());
    lemma_multiset_commutative(seq![e] + left.pre_order(), right.pre_order());
    assert(forest_entries(tree.kids()).insert(e) =~= tree.pre_order().to_multiset());
}

/// A walk of a row of trees as a queue meets every entry of the row, each as often as it
/// occurs, and only trees that are not empty.
pub proof fn lemma_breadth_first_entries<K, V>(forest: Seq<Shape<K, V>>)
    ensures
        roots(breadth_first(forest)).to_multiset() == forest_entries(forest),
        breadth_first(forest).len() == forest_size(forest),
        forall|i: int| 0 <= i < breadth_first(forest).len() ==> #[trigger] breadth_first(forest)[i] is Fork,
    decreases forest_size(forest), forest.len(),
{
    broadcast use group_multiset_axioms;

    let walk = breadth_first(forest);
    lemma_nothing_to_count::<(K, V)>();
    if forest.len() == 0 {
        assert(roots(walk) =~= Seq::empty());
    } else if forest[0] is Empty {
        lemma_breadth_first_entries(forest.drop_first());
        assert(forest[0].pre_order() =~= Seq::empty());
        assert(forest_entries(forest) =~= forest_entries(forest.drop_first()));
    } else {
        let top = forest[0];
        let next = forest.drop_first() + top.kids();
        lemma_forest_size_concat(forest.drop_first(), top.kids());
        lemma_kids_size(top);
        lemma_breadth_first_entries(next);
        lemma_forest_entries_concat(forest.drop_first(), top.kids());
        lemma_kids_entries(top);
        let e = top.entry();
        assert(roots(walk) =~= seq![e] + roots(breadth_first(next)));
        lemma_one_to_count(e);
        lemma_multiset_commutative(seq![e], roots(breadth_first(next)));
        assert(roots(walk).to_multiset() =~= forest_entries(forest));
    }
}

/// Every walk of a tree yields the same entries, each as often as the others, and as many
/// as the tree holds: what one walk yields, any other yields too, and nothing else.
pub proof fn law_walks_yield_the_same_entries<K, V>(tree: Shape<K, V>)
    ensures
        tree.in_order().to_multiset() == tree.pre_order().to_multiset(),
        tree.post_order().to_multiset() == tree.pre_order().to_multiset(),
        tree.level_order().to_multiset() == tree.pre_order().to_multiset(),
        tree.in_order().len() == tree.size(),
        tree.pre_order().len() == tree.size(),
        tree.post_order().len() == tree.size(),
        tree.level_order().len() == tree.size(),
{
    broadcast use group_multiset_axioms;

    lemma_nothing_to_count::<(K, V)>();
    lemma_walk_lengths(tree);
    lemma_depth_first_walks_agree(tree);
    lemma_breadth_first_entries(seq![tree]);
    assert(seq![tree].drop_first() =~= Seq::empty());
    assert(forest_entries(seq![tree].drop_first()) =~= Multiset::empty());
    assert(forest_entries(seq![tree]) =~= tree.pre_order().to_multiset());
    assert(forest_size(seq![tree].drop_first()) == 0);
}

/// Two sequences with the same entries hold the same values.
pub proof fn lemma_same_entries_same_values<K, V: PartialEq>(
    a: Seq<(K, V)>,
    b: Seq<(K, V)>,
    value: V,
)
    requires
        a.to_multiset() == b.to_multiset(),
        yields_value(a, value),
    ensures
        yields_value(b, value),
{
    let i = choose|i: int| 0 <= i < a.len() && same_value(#[trigger] a[i].1, value);
    let entry = a[i];
    assert(a.contains(entry));
    to_multiset_contains(a, entry);
    to_multiset_contains(b, entry);
    let j = choose|j: int| 0 <= j < b.len() && b[j] == entry;
    assert(same_value(b[j].1, value));
}

/// A value is in the tree exactly if a walk yields it, whichever walk it is.
pub proof fn law_value_found_by_every_walk<K, V: PartialEq>(tree: Shape<K, V>, value: V)
    ensures
        tree.has_value(value) == yields_value(tree.pre_order(), value),
        tree.has_value(value) == yields_value(tree.in_order(), value),
        tree.has_value(value) == yields_value(tree.post_order(), value),
        tree.has_value(value) == yields_value(tree.level_order(), value),
        !Shape::<K, V>::Empty.has_value(value),
{
    law_walks_yield_the_same_entries(tree);
    let pre = tree.pre_order();
    if yields_value(pre, value) {
        lemma_same_entries_same_values(pre, tree.in_order(), value);
        lemma_same_entries_same_values(pre, tree.post_order(), value);
        lemma_same_entries_same_values(pre, tree.level_order(), value);
    }
    if yields_value(tree.in_order(), value) {
        lemma_same_entries_same_values(tree.in_order(), pre, value);
    }
    if yields_value(tree.post_order(), value) {
        lemma_same_entries_same_values(tree.post_order(), pre, value);
    }
    if yields_value(tree.level_order(), value) {
        lemma_same_entries_same_values(tree.level_order(), pre, value);
    }
    assert(Shape::<K, V>::Empty.pre_order().len() == 0);
}

} // verus!
