//! The level-order walk goes by depth: all of one level, left to right, before the next.

use vstd::prelude::*;
use crate::shape::{breadth_first, forest_size, lemma_forest_size_concat, lemma_kids_size, Shape};

verus! {

impl<K, V> Shape<K, V> {
    /// The number of levels: 0 for the empty tree, else one more than the deeper subtree.
    pub open spec fn depth(self) -> nat
        decreases self,
    {
        match self {
            Shape::Empty => 0,
            Shape::Fork { left, right, .. } => 1 + if left.depth() >= right.depth() {
                left.depth()
            } else {
                right.depth()
            },
        }
    }

    /// The subtrees rooted `depth` links below the root, left to right.
    pub open spec fn row(self, depth: nat) -> Seq<Shape<K, V>>
        decreases self,
    {
        match self {
            Shape::Empty => Seq::empty(),
            Shape::Fork { left, right, .. } => if depth == 0 {
                seq![self]
            } else {
                left.row((depth - 1) as nat) + right.row((depth - 1) as nat)
            },
        }
    }

    /// The rows above `depth`, from the root's down.
    pub open spec fn rows_above(self, depth: nat) -> Seq<Shape<K, V>>
        decreases depth,
    {
        if depth == 0 {
            Seq::empty()
        } else {
            self.rows_above((depth - 1) as nat) + self.row((depth - 1) as nat)
        }
    }
}

/// The subtrees rooted `depth` links below the roots of a row of trees, left to right.
pub open spec fn forest_row<K, V>(forest: Seq<Shape<K, V>>, depth: nat) -> Seq<Shape<K, V>>
    decreases forest.len(),
{
    if forest.len() == 0 {
        Seq::empty()
    } else {
        forest[0].row(depth) + forest_row(forest.drop_first(), depth)
    }
}

/// The rows of a row of trees above `depth`, from the roots' down.
pub open spec fn forest_rows_above<K, V>(forest: Seq<Shape<K, V>>, depth: nat) -> Seq<Shape<K, V>>
    decreases depth,
{
    if depth == 0 {
        Seq::empty()
    } else {
        forest_rows_above(forest, (depth - 1) as nat) + forest_row(forest, (depth - 1) as nat)
    }
}

/// The deepest of a row of trees.
pub open spec fn forest_depth<K, V>(forest: Seq<Shape<K, V>>) -> nat
    decreases forest.len(),
{
    if forest.len() == 0 {
        0
    } else {
        let rest = forest_depth(forest.drop_first());
        if forest[0].depth() >= rest {
            forest[0].depth()
        } else {
            rest
        }
    }
}

/// The row of a row of trees is that of its first part followed by that of its second.
pub proof fn lemma_forest_row_concat<K, V>(a: Seq<Shape<K, V>>, b: Seq<Shape<K, V>>, depth: nat)
    ensures
        forest_row(a + b, depth) == forest_row(a, depth) + forest_row(b, depth),
    decreases a.len(),
{
    if a.len() == 0 {
        assert(a + b =~= b);
        assert(forest_row(a, depth) + forest_row(b, depth) =~= forest_row(b, depth));
    } else {
        assert((a + b).drop_first() =~= a.drop_first() + b);
        lemma_forest_row_concat(a.drop_first(), b, depth);
        assert(forest_row(a + b, depth) =~= forest_row(a, depth) + forest_row(b, depth));
    }
}

/// The depth of a row of trees is the greater of the depths of its two parts.
pub proof fn lemma_forest_depth_concat<K, V>(a: Seq<Shape<K, V>>, b: Seq<Shape<K, V>>)
    ensures
        forest_depth(a + b) == if forest_depth(a) >= forest_depth(b) {
            forest_depth(a)
        } else {
            forest_depth(b)
        },
    decreases a.len(),
{
    if a.len() == 0 {
        assert(a + b =~= b);
    } else {
        assert((a + b).drop_first() =~= a.drop_first() + b);
        lemma_forest_depth_concat(a.drop_first(), b);
    }
}

/// A tree alone in a row has the rows and the depth of the row.
pub proof fn lemma_alone_rows<K, V>(tree: Shape<K, V>, depth: nat)
    ensures
        forest_row(tree.alone(), depth) == tree.row(depth),
        forest_depth(tree.alone()) == tree.depth(),
{
    let none = Seq::<Shape<K, V>>::empty();
    assert(forest_row(none, depth) =~= none);
    assert(forest_depth(none) == 0);
    if tree is Fork {
        assert(tree.alone().drop_first() =~= none);
        assert(forest_row(tree.alone(), depth) =~= tree.row(depth));
    }
}

/// One level down in a tree is the top level of the subtrees under its root.
pub proof fn lemma_row_of_kids<K, V>(tree: Shape<K, V>, depth: nat)
    ensures
        tree.row(depth + 1) == forest_row(tree.kids(), depth),
        tree is Fork ==> forest_depth(tree.kids()) + 1 == tree.depth(),
{
    match tree {
        Shape::Empty => {
            assert(forest_row(tree.kids(), depth) =~= Seq::empty());
        },
        Shape::Fork { left, right, .. } => {
            lemma_alone_rows(*left, depth);
            lemma_alone_rows(*right, depth);
            lemma_forest_row_concat(left.alone(), right.alone(), depth);
            lemma_forest_depth_concat(left.alone(), right.alone());
        },
    }
}

/// The subtrees under the roots of a row of trees, left to right.
pub open spec fn forest_kids<K, V>(forest: Seq<Shape<K, V>>) -> Seq<Shape<K, V>>
    decreases forest.len(),
{
    if forest.len() == 0 {
        Seq::empty()
    } else {
        forest[0].kids() + forest_kids(forest.drop_first())
    }
}

/// One level down in a row of trees is the top level of the subtrees under its roots, and
/// those are less deep by one.
pub proof fn lemma_forest_row_of_kids<K, V>(forest: Seq<Shape<K, V>>, depth: nat)
    ensures
        forest_row(forest, depth + 1) == forest_row(forest_kids(forest), depth),
        forest_depth(forest) > 0 ==> forest_depth(forest_kids(forest)) + 1 == forest_depth(forest),
        forest_depth(forest) == 0 ==> forest_kids(forest).len() == 0 && forest_row(forest, 0).len()
            == 0,
        forest_size(forest_kids(forest)) + forest_row(forest, 0).len() == forest_size(forest),
    decreases forest.len(),
{
    if forest.len() == 0 {
    } else {
        let top = forest[0];
        let rest = forest.drop_first();
        lemma_forest_row_of_kids(rest, depth);
        lemma_row_of_kids(top, depth);
        lemma_forest_row_concat(top.kids(), forest_kids(rest), depth);
        lemma_forest_depth_concat(top.kids(), forest_kids(rest));
        lemma_forest_size_concat(top.kids(), forest_kids(rest));
        if top is Fork {
            lemma_kids_size(top);
        } else {
            assert(top.kids() =~= Seq::empty());
            assert(forest_size(top.kids()) == 0);
        }
    }
}

/// A walk of a row of trees as a queue first meets the trees at the front, then goes on
/// with what is behind them, followed by the subtrees under their roots.
pub proof fn lemma_breadth_first_front<K, V>(front: Seq<Shape<K, V>>, behind: Seq<Shape<K, V>>)
    ensures
        breadth_first(front + behind) == forest_row(front, 0) + breadth_first(
            behind + forest_kids(front),
        ),
    decreases front.len(),
{
    if front.len() == 0 {
        assert(front + behind =~= behind);
        assert(behind + forest_kids(front) =~= behind);
        assert(forest_row(front, 0) + breadth_first(behind) =~= breadth_first(behind));
    } else {
        let top = front[0];
        let rest = front.drop_first();
        let all = front + behind;
        assert(all.drop_first() =~= rest + behind);
        assert(all[0] == top);
        if top is Empty {
            lemma_breadth_first_front(rest, behind);
            assert(top.kids() =~= Seq::empty());
            assert(forest_kids(front) =~= forest_kids(rest));
            assert(forest_row(front, 0) =~= forest_row(rest, 0));
        } else {
            lemma_breadth_first_front(rest, behind + top.kids());
            assert(all.drop_first() + top.kids() =~= rest + (behind + top.kids()));
            assert(behind + top.kids() + forest_kids(rest) =~= behind + forest_kids(front));
            assert(forest_row(front, 0) =~= seq![top] + forest_row(rest, 0));
            assert(seq![top] + (forest_row(rest, 0) + breadth_first(behind + forest_kids(front)))
                =~= forest_row(front, 0) + breadth_first(behind + forest_kids(front)));
        }
    }
}

/// The rows of a row of trees above a depth are its top row followed by the rows of the
/// subtrees under its roots above one depth less.
pub proof fn lemma_rows_from_the_top<K, V>(forest: Seq<Shape<K, V>>, depth: nat)
    ensures
        forest_rows_above(forest, depth + 1) == forest_row(forest, 0) + forest_rows_above(
            forest_kids(forest),
            depth,
        ),
    decreases depth,
{
    if depth == 0 {
        assert(forest_rows_above(forest, 1) =~= forest_row(forest, 0)) by {
            assert(forest_rows_above(forest, 0) =~= Seq::empty());
        }
        assert(forest_rows_above(forest_kids(forest), 0) =~= Seq::empty());
        assert(forest_row(forest, 0) + Seq::<Shape<K, V>>::empty() =~= forest_row(forest, 0));
    } else {
        lemma_rows_from_the_top(forest, (depth - 1) as nat);
        lemma_forest_row_of_kids(forest, (depth - 1) as nat);
        assert(forest_rows_above(forest, depth + 1) =~= forest_row(forest, 0) + forest_rows_above(
            forest_kids(forest),
            depth,
        ));
    }
}

/// A walk of a row of trees as a queue goes by depth: it meets the top row, then the row
/// below, and so on down to the deepest.
pub proof fn lemma_breadth_first_goes_by_depth<K, V>(forest: Seq<Shape<K, V>>, depth: nat)
    requires
        depth >= forest_depth(forest),
    ensures
        breadth_first(forest) == forest_rows_above(forest, depth),
    decreases depth,
{
    let none = Seq::<Shape<K, V>>::empty();
    lemma_breadth_first_front(forest, none);
    assert(forest + none =~= forest);
    assert(none + forest_kids(forest) =~= forest_kids(forest));
    lemma_forest_row_of_kids(forest, 0);
    if forest_depth(forest) == 0 {
        assert(forest_kids(forest) =~= none);
        assert(forest_row(forest, 0) =~= none);
        assert(breadth_first(forest) =~= none);
        lemma_no_rows_below(forest, depth);
    } else {
        lemma_breadth_first_goes_by_depth(forest_kids(forest), (depth - 1) as nat);
        lemma_rows_from_the_top(forest, (depth - 1) as nat);
    }
}

/// A row of empty trees has no rows.
pub proof fn lemma_no_rows_below<K, V>(forest: Seq<Shape<K, V>>, depth: nat)
    requires
        forest_depth(forest) == 0,
    ensures
        forest_rows_above(forest, depth).len() == 0,
    decreases depth,
{
    if depth > 0 {
        lemma_no_rows_below(forest, (depth - 1) as nat);
        lemma_empty_trees_have_no_row(forest, (depth - 1) as nat);
    }
}

/// A row of empty trees has nothing at any depth.
pub proof fn lemma_empty_trees_have_no_row<K, V>(forest: Seq<Shape<K, V>>, depth: nat)
    requires
        forest_depth(forest) == 0,
    ensures
        forest_row(forest, depth).len() == 0,
    decreases forest.len(),
{
    if forest.len() > 0 {
        lemma_empty_trees_have_no_row(forest.drop_first(), depth);
    }
}

/// The level-order walk of a tree meets the root, then the row below it left to right,
/// then the next row, down to the deepest.
pub proof fn law_level_order_goes_by_depth<K, V>(tree: Shape<K, V>)
    ensures
        tree.level_order_subtrees() == tree.rows_above(tree.depth()),
{
    let row = seq![tree];
    assert(row.drop_first() =~= Seq::empty());
    assert(forest_depth(row.drop_first()) == 0);
    lemma_breadth_first_goes_by_depth(row, tree.depth());
    lemma_single_tree_rows(tree, tree.depth());
}

/// The rows of a row of one tree are the rows of that tree.
pub proof fn lemma_single_tree_rows<K, V>(tree: Shape<K, V>, depth: nat)
    ensures
        forest_rows_above(seq![tree], depth) == tree.rows_above(depth),
    decreases depth,
{
    if depth > 0 {
        let below = (depth - 1) as nat;
        lemma_single_tree_rows(tree, below);
        let row = seq![tree];
        assert(row.drop_first() =~= Seq::empty());
        assert(forest_row(row.drop_first(), below) =~= Seq::empty());
        assert(forest_row(row, below) =~= tree.row(below));
    }
}

} // verus!
