//! What a tree becomes when its values are written anew, level by level.

use vstd::prelude::*;
use vstd::seq_lib::to_multiset_contains;
use crate::order::same_value;
use crate::shape::{
    breadth_first, forest_size, lemma_forest_size_concat, lemma_kids_size, values_in_turn,
    values_of, Shape,
};
use crate::walks::{law_walks_yield_the_same_entries, lemma_breadth_first_entries};

verus! {

/// The row of trees with its values replaced by `values`, in the order in which a walk of
/// the row as a queue meets them. Keys and places stay.
pub open spec fn overwritten<K, V>(forest: Seq<Shape<K, V>>, values: Seq<V>) -> Seq<Shape<K, V>>
    decreases forest_size(forest), forest.len(),
    via overwritten_decreases::<K, V>
{
    if forest.len() == 0 {
        Seq::empty()
    } else if forest[0] is Empty {
        seq![Shape::Empty] + overwritten(forest.drop_first(), values)
    } else {
        let top = forest[0];
        let rest = forest.len() - 1;
        let later = overwritten(forest.drop_first() + top.kids(), values.drop_first());
        seq![top.refilled(values[0], later.skip(rest))] + later.take(rest)
    }
}

#[via_fn]
proof fn overwritten_decreases<K, V>(forest: Seq<Shape<K, V>>, values: Seq<V>) {
    if forest.len() > 0 {
        if forest[0] is Fork {
            lemma_forest_size_concat(forest.drop_first(), forest[0].kids());
            lemma_kids_size(forest[0]);
        }
    }
}

/// One step of a walk over the values of a row of trees.
///
/// Before the step the row is `now`; the step writes `value` to the root of the first tree,
/// takes that tree from the front and puts the subtrees under its root at the back. If
/// the row that waits after the step ends as `behind`, the row before the step ends as
/// `after`: the first tree with `value` at its root over the last trees of `behind`, then
/// the other trees of `behind`.
pub open spec fn walk_step<K, V>(
    now: Seq<Shape<K, V>>,
    after: Seq<Shape<K, V>>,
    value: V,
    behind: Seq<Shape<K, V>>,
) -> bool {
    &&& now.len() > 0
    &&& now[0] is Fork
    &&& behind.len() == now.len() - 1 + now[0].kids().len()
    &&& after == seq![now[0].refilled(value, behind.skip(now.len() - 1))] + behind.take(
        now.len() - 1,
    )
}

/// A walk over the values of the row `now` that writes the values of `written` in turn
/// and then stops, whether or not anything still waits, and leaves the row as `after`.
/// What the walk did not reach stays as it is.
pub open spec fn walked<K, V>(
    now: Seq<Shape<K, V>>,
    after: Seq<Shape<K, V>>,
    written: Seq<V>,
) -> bool
    decreases written.len(),
{
    if written.len() == 0 {
        after == now
    } else {
        exists|behind: Seq<Shape<K, V>>|
            {
                &&& #[trigger] walk_step(now, after, written[0], behind)
                &&& walked(now.drop_first() + now[0].kids(), behind, written.drop_first())
            }
    }
}

/// A walk over the values of a tree that writes the values of `written` in turn and then
/// stops, and leaves the tree as `after`. The walk of an empty tree has nothing to write.
pub open spec fn tree_walked<K, V>(tree: Shape<K, V>, after: Shape<K, V>, written: Seq<V>) -> bool {
    if tree is Fork {
        walked(seq![tree], seq![after], written)
    } else {
        after is Empty && written.len() == 0
    }
}

/// The values in turn of a row that starts with a tree that is not empty: the value at
/// that tree's root, then those of the row that waits after one step.
pub proof fn lemma_values_in_turn_step<K, V>(forest: Seq<Shape<K, V>>)
    requires
        forest.len() > 0,
        forest[0] is Fork,
    ensures
        values_in_turn(forest) == seq![forest[0]->value] + values_in_turn(
            forest.drop_first() + forest[0].kids(),
        ),
{
    let next = forest.drop_first() + forest[0].kids();
    assert(breadth_first(forest) == seq![forest[0]] + breadth_first(next));
    assert(values_in_turn(forest) =~= seq![forest[0]->value] + values_in_turn(next));
}

/// Where each tree of `later` has the keys of the tree at its place in a row that ends with
/// the subtrees under the root of `top`, the last trees of `later` fit under that root:
/// `top` refilled over them keeps its keys, and they are the subtrees under its root.
pub proof fn lemma_refilled_over<K, V>(
    top: Shape<K, V>,
    value: V,
    row: Seq<Shape<K, V>>,
    later: Seq<Shape<K, V>>,
    rest: int,
)
    requires
        top is Fork,
        0 <= rest,
        row.len() == rest + top.kids().len(),
        row.skip(rest) == top.kids(),
        later.len() == row.len(),
        forall|i: int| 0 <= i < row.len() ==> (#[trigger] row[i]).same_keys(later[i]),
    ensures
        top.same_keys(top.refilled(value, later.skip(rest))),
        top.refilled(value, later.skip(rest)).kids() == later.skip(rest),
{
    let left = *top->left;
    let right = *top->right;
    let under = later.skip(rest);
    let under_now = row.skip(rest);
    if left is Fork {
        assert(under_now[0] == left);
        assert(row[rest] == left);
        assert(under[0] == later[rest]);
        assert(left.same_keys(later[rest]));
    }
    if right is Fork {
        let at = if left is Fork { 1int } else { 0int };
        assert(under_now[at] == right);
        assert(row[rest + at] == right);
        assert(under[at] == later[rest + at]);
        assert(right.same_keys(later[rest + at]));
    }
    assert(Shape::<K, V>::Empty.same_keys(Shape::Empty));
    assert(top.refilled(value, under).kids() =~= under);
}

/// Writing values anew keeps every tree of the row in its place, with its keys where they
/// were.
pub proof fn lemma_overwritten_keeps_keys<K, V>(forest: Seq<Shape<K, V>>, values: Seq<V>)
    ensures
        overwritten(forest, values).len() == forest.len(),
        forall|i: int|
            0 <= i < forest.len() ==> (#[trigger] forest[i]).same_keys(
                overwritten(forest, values)[i],
            ),
    decreases forest_size(forest), forest.len(),
{
    let result = overwritten(forest, values);
    if forest.len() == 0 {
    } else if forest[0] is Empty {
        lemma_overwritten_keeps_keys(forest.drop_first(), values);
        let tail = overwritten(forest.drop_first(), values);
        assert forall|i: int| 0 <= i < forest.len() implies (#[trigger] forest[i]).same_keys(
            result[i],
        ) by {
            if i > 0 {
                assert(forest[i] == forest.drop_first()[i - 1]);
                assert(result[i] == tail[i - 1]);
            }
        }
    } else {
        let top = forest[0];
        let rest = forest.len() - 1;
        let next = forest.drop_first() + top.kids();
        let later = overwritten(next, values.drop_first());
        lemma_forest_size_concat(forest.drop_first(), top.kids());
        lemma_kids_size(top);
        lemma_overwritten_keeps_keys(next, values.drop_first());
        assert(next.skip(rest) =~= top.kids());
        lemma_refilled_over(top, values[0], next, later, rest);
        assert forall|i: int| 0 <= i < forest.len() implies (#[trigger] forest[i]).same_keys(
            result[i],
        ) by {
            if i > 0 {
                assert(forest[i] == next[i - 1]);
                assert(result[i] == later[i - 1]);
            }
        }
    }
}

/// After values were written anew, a walk of the row as a queue meets exactly the values
/// written, in the order given.
pub proof fn lemma_overwritten_values<K, V>(forest: Seq<Shape<K, V>>, values: Seq<V>)
    requires
        values.len() == forest_size(forest),
    ensures
        values_in_turn(overwritten(forest, values)) == values,
    decreases forest_size(forest), forest.len(),
{
    let result = overwritten(forest, values);
    if forest.len() == 0 {
        assert(values_in_turn(result) =~= values);
    } else if forest[0] is Empty {
        lemma_overwritten_values(forest.drop_first(), values);
        assert(result.drop_first() =~= overwritten(forest.drop_first(), values));
    } else {
        let top = forest[0];
        let rest = forest.len() - 1;
        let next = forest.drop_first() + top.kids();
        let later = overwritten(next, values.drop_first());
        lemma_forest_size_concat(forest.drop_first(), top.kids());
        lemma_kids_size(top);
        lemma_overwritten_values(next, values.drop_first());
        lemma_overwritten_keeps_keys(next, values.drop_first());
        assert(next.skip(rest) =~= top.kids());
        lemma_refilled_over(top, values[0], next, later, rest);
        assert(result.drop_first() + result[0].kids() =~= later);
        lemma_values_in_turn_step(result);
        assert(seq![values[0]] + values.drop_first() =~= values);
    }
}

/// Writing to a row of trees the values that it holds changes nothing.
pub proof fn lemma_overwritten_with_its_own<K, V>(forest: Seq<Shape<K, V>>)
    ensures
        overwritten(forest, values_in_turn(forest)) == forest,
    decreases forest_size(forest), forest.len(),
{
    let values = values_in_turn(forest);
    if forest.len() == 0 {
        assert(overwritten(forest, values) =~= forest);
    } else if forest[0] is Empty {
        lemma_overwritten_with_its_own(forest.drop_first());
        assert(breadth_first(forest) == breadth_first(forest.drop_first()));
        assert(overwritten(forest, values) =~= forest);
    } else {
        let top = forest[0];
        let rest = forest.len() - 1;
        let next = forest.drop_first() + top.kids();
        lemma_forest_size_concat(forest.drop_first(), top.kids());
        lemma_kids_size(top);
        lemma_overwritten_with_its_own(next);
        lemma_values_in_turn_step(forest);
        assert(values.drop_first() =~= values_in_turn(next));
        assert(next.skip(rest) =~= top.kids());
        assert(next.take(rest) =~= forest.drop_first());
        assert(top.refilled(top->value, top.kids()) == top);
        assert(overwritten(forest, values) =~= forest);
    }
}

/// A walk over the values writes at most one value for each entry, and leaves the row
/// overwritten, in level order, with what it wrote followed by the values that it did
/// not reach.
pub proof fn law_walk_overwrites<K, V>(
    now: Seq<Shape<K, V>>,
    after: Seq<Shape<K, V>>,
    written: Seq<V>,
)
    requires
        walked(now, after, written),
    ensures
        written.len() <= forest_size(now),
        after == overwritten(now, written + values_in_turn(now).skip(written.len() as int)),
    decreases written.len(),
{
    let count = written.len() as int;
    lemma_breadth_first_entries(now);
    if count == 0 {
        lemma_overwritten_with_its_own(now);
        assert(written + values_in_turn(now).skip(count) =~= values_in_turn(now));
    } else {
        let next = now.drop_first() + now[0].kids();
        let behind = choose|behind: Seq<Shape<K, V>>|
            {
                &&& #[trigger] walk_step(now, after, written[0], behind)
                &&& walked(next, behind, written.drop_first())
            };
        law_walk_overwrites(next, behind, written.drop_first());
        lemma_breadth_first_entries(next);
        lemma_forest_size_concat(now.drop_first(), now[0].kids());
        lemma_kids_size(now[0]);
        lemma_values_in_turn_step(now);
        let values = written + values_in_turn(now).skip(count);
        assert(values.drop_first() =~= written.drop_first() + values_in_turn(next).skip(
            count - 1,
        ));
        assert(values[0] == written[0]);
    }
}

/// A tree whose values were written anew keeps its keys and places, and its level-order
/// walk yields the values written.
pub proof fn lemma_overwritten_tree<K, V>(tree: Shape<K, V>, values: Seq<V>)
    requires
        values.len() == tree.size(),
    ensures
        overwritten(seq![tree], values).len() == 1,
        tree.same_keys(overwritten(seq![tree], values)[0]),
        values_of(overwritten(seq![tree], values)[0].level_order()) == values,
{
    let row = seq![tree];
    assert(forest_size(row.drop_first()) == 0);
    lemma_overwritten_keeps_keys(row, values);
    lemma_overwritten_values(row, values);
    assert(row[0] == tree);
    assert(overwritten(row, values) =~= seq![overwritten(row, values)[0]]);
}

/// A walk over the values of a tree changes values only, whatever it writes and wherever
/// it stops: every key stays in its place, and the level-order walk of the tree afterwards
/// yields the values written, followed by the values that the walk did not reach.
pub proof fn law_walk_changes_values_only<K, V>(
    tree: Shape<K, V>,
    after: Shape<K, V>,
    written: Seq<V>,
)
    requires
        tree_walked(tree, after, written),
    ensures
        tree.same_keys(after),
        written.len() <= tree.size(),
        values_of(after.level_order()) == written + values_of(tree.level_order()).skip(
            written.len() as int,
        ),
{
    let left = values_of(tree.level_order()).skip(written.len() as int);
    if tree is Fork {
        let row = seq![tree];
        law_walk_overwrites(row, seq![after], written);
        assert(forest_size(row.drop_first()) == 0);
        lemma_breadth_first_entries(row);
        lemma_overwritten_tree(tree, written + left);
        assert(seq![after][0] == after);
    } else {
        assert(seq![after].drop_first() =~= Seq::empty());
        assert(breadth_first(seq![after]) == breadth_first(Seq::<Shape<K, V>>::empty()));
        assert(seq![tree].drop_first() =~= Seq::empty());
        assert(breadth_first(seq![tree]) == breadth_first(Seq::<Shape<K, V>>::empty()));
        assert(values_of(after.level_order()) =~= written + left);
    }
}

/// A walk over the values of a tree that is dropped before it wrote anything leaves the
/// tree as it was.
pub proof fn law_untouched_walk_changes_nothing<K, V>(tree: Shape<K, V>, after: Shape<K, V>)
    requires
        tree_walked(tree, after, Seq::empty()),
    ensures
        after == tree,
{
    if tree is Fork {
        assert(seq![after][0] == seq![tree][0]);
    }
}

/// `values` with `replacement` in the place of every value equal to `sentinel`.
pub open spec fn replaced<V: PartialEq>(values: Seq<V>, sentinel: V, replacement: V) -> Seq<V> {
    Seq::new(
        values.len(),
        |i: int| if same_value(values[i], sentinel) { replacement } else { values[i] },
    )
}

/// When every value equal to `sentinel` is overwritten with `replacement` and the others
/// are left as they are, the tree keeps its keys and places, no value equal to `sentinel`
/// is left, and if there was one, a value equal to `replacement` is there.
pub proof fn lemma_replaced_values_show<K, V: PartialEq>(
    tree: Shape<K, V>,
    sentinel: V,
    replacement: V,
)
    requires
        same_value(replacement, replacement),
        !same_value(replacement, sentinel),
    ensures
        ({
            let written = replaced(values_of(tree.level_order()), sentinel, replacement);
            let after = overwritten(seq![tree], written)[0];
            &&& tree.same_keys(after)
            &&& values_of(after.level_order()) == written
            &&& !after.has_value(sentinel)
            &&& tree.has_value(sentinel) ==> after.has_value(replacement)
        }),
{
    let was = tree.level_order();
    let written = replaced(values_of(was), sentinel, replacement);
    let after = overwritten(seq![tree], written)[0];
    law_walks_yield_the_same_entries(tree);
    lemma_overwritten_tree(tree, written);
    law_walks_yield_the_same_entries(after);
    let is = after.level_order();
    assert(values_of(is) == written);
    if after.has_value(sentinel) {
        let i = choose|i: int|
            0 <= i < after.pre_order().len() && same_value(
                #[trigger] after.pre_order()[i].1,
                sentinel,
            );
        let entry = after.pre_order()[i];
        to_multiset_contains(after.pre_order(), entry);
        to_multiset_contains(is, entry);
        assert(after.pre_order().contains(entry));
        let j = choose|j: int| 0 <= j < is.len() && is[j] == entry;
        assert(values_of(is)[j] == entry.1);
        assert(written[j] == entry.1);
        assert(false);
    }
    if tree.has_value(sentinel) {
        let i = choose|i: int|
            0 <= i < tree.pre_order().len() && same_value(
                #[trigger] tree.pre_order()[i].1,
                sentinel,
            );
        let entry = tree.pre_order()[i];
        to_multiset_contains(tree.pre_order(), entry);
        to_multiset_contains(was, entry);
        assert(tree.pre_order().contains(entry));
        let j = choose|j: int| 0 <= j < was.len() && was[j] == entry;
        assert(values_of(was)[j] == entry.1);
        assert(written[j] == replacement);
        assert(values_of(is)[j] == replacement);
        let found = is[j];
        assert(is.contains(found));
        to_multiset_contains(is, found);
        to_multiset_contains(after.pre_order(), found);
        let k = choose|k: int| 0 <= k < after.pre_order().len() && after.pre_order()[k] == found;
        assert(same_value(after.pre_order()[k].1, replacement));
    }
}

/// A walk over the values of a tree that writes `replacement` over every value equal to
/// `sentinel` and writes the others back as they were changes values only: every key stays
/// in its place. Afterwards no value equal to `sentinel` is in the tree, and if there was
/// one, a value equal to `replacement` is.
pub proof fn law_replaced_values_show<K, V: PartialEq>(
    tree: Shape<K, V>,
    after: Shape<K, V>,
    written: Seq<V>,
    sentinel: V,
    replacement: V,
)
    requires
        tree_walked(tree, after, written),
        written == replaced(values_of(tree.level_order()), sentinel, replacement),
        same_value(replacement, replacement),
        !same_value(replacement, sentinel),
    ensures
        tree.same_keys(after),
        values_of(after.level_order()) == written,
        !after.has_value(sentinel),
        tree.has_value(sentinel) ==> after.has_value(replacement),
{
    law_walk_changes_values_only(tree, after, written);
    if tree is Fork {
        let row = seq![tree];
        law_walk_overwrites(row, seq![after], written);
        lemma_breadth_first_entries(row);
        assert(written + values_in_turn(row).skip(written.len() as int) =~= written);
        lemma_replaced_values_show(tree, sentinel, replacement);
        assert(seq![after][0] == after);
    } else {
        assert(tree.pre_order().len() == 0);
        assert(after.pre_order().len() == 0);
    }
}

} // verus!
