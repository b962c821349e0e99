use search_tree::{Node, BST};

fn tree_of(keys: &[i32]) -> BST<i32, usize> {
    let mut tree = BST { root: None };
    for (at, key) in keys.iter().enumerate() {
        tree.insert(Node::new(*key, at));
    }
    tree
}

fn in_order_of(tree: &BST<i32, usize>) -> Vec<(i32, usize)> {
    let mut out = Vec::new();
    let mut walk = tree.inorder();
    while let Some((key, value)) = walk.next() {
        out.push((*key, *value));
    }
    out
}

fn pre_order_of(tree: &BST<i32, usize>) -> Vec<(i32, usize)> {
    let mut out = Vec::new();
    let mut walk = tree.preorder();
    while let Some((key, value)) = walk.next() {
        out.push((*key, *value));
    }
    out
}

fn post_order_of(tree: &BST<i32, usize>) -> Vec<(i32, usize)> {
    let mut out = Vec::new();
    let mut walk = tree.postorder();
    while let Some((key, value)) = walk.next() {
        out.push((*key, *value));
    }
    out
}

fn keys_of(entries: &[(i32, usize)]) -> Vec<i32> {
    entries.iter().map(|entry| entry.0).collect()
}

#[test]
fn empty_tree_yields_nothing() {
    let mut tree: BST<i32, usize> = BST { root: None };
    assert_eq!(tree.inorder().next(), None);
    assert_eq!(tree.preorder().next(), None);
    assert_eq!(tree.postorder().next(), None);
    assert_eq!(tree.values_mut().next(), None);
    assert_eq!(tree.height(), 0);
    assert!(!tree.contains_val(&0));
    assert_eq!(tree.into_iter().next(), None);
}

#[test]
fn insert_into_empty_tree_makes_the_root() {
    let mut tree: BST<i32, usize> = BST { root: None };
    tree.insert(Node::new(9, 90));
    assert!(tree.root.is_some());
    assert_eq!(pre_order_of(&tree), vec![(9, 90)]);
}

#[test]
fn single_entry_is_yielded_once_by_every_walk() {
    let mut tree = tree_of(&[3]);
    let mut walk = tree.inorder();
    assert_eq!(walk.next(), Some((&3, &0)));
    assert_eq!(walk.next(), None);
    assert_eq!(walk.next(), None);
    assert_eq!(pre_order_of(&tree), vec![(3, 0)]);
    assert_eq!(post_order_of(&tree), vec![(3, 0)]);
    assert_eq!(tree.height(), 1);
    let mut values = tree.values_mut();
    assert_eq!(values.next(), Some(&mut 0));
    assert_eq!(values.next(), None);
}

#[test]
fn greater_key_goes_right() {
    let tree = tree_of(&[5, 11]);
    assert_eq!(keys_of(&pre_order_of(&tree)), vec![5, 11]);
    assert_eq!(keys_of(&in_order_of(&tree)), vec![5, 11]);
    assert_eq!(keys_of(&post_order_of(&tree)), vec![11, 5]);
    assert_eq!(tree.height(), 2);
}

#[test]
fn smaller_key_goes_left() {
    let tree = tree_of(&[5, 2]);
    assert_eq!(keys_of(&pre_order_of(&tree)), vec![5, 2]);
    assert_eq!(keys_of(&in_order_of(&tree)), vec![2, 5]);
    assert_eq!(keys_of(&post_order_of(&tree)), vec![2, 5]);
}

#[test]
fn equal_keys_line_up_to_the_right() {
    let tree = tree_of(&[5, 5, 5]);
    assert_eq!(in_order_of(&tree), vec![(5, 0), (5, 1), (5, 2)]);
    assert_eq!(pre_order_of(&tree), vec![(5, 0), (5, 1), (5, 2)]);
    assert_eq!(post_order_of(&tree), vec![(5, 2), (5, 1), (5, 0)]);
    assert_eq!(tree.height(), 3);
}

#[test]
fn post_order_with_repeated_keys_in_both_subtrees() {
    let tree = tree_of(&[4, 2, 4, 2, 6, 4, 6]);
    assert_eq!(
        post_order_of(&tree),
        vec![(2, 3), (2, 1), (4, 5), (6, 6), (6, 4), (4, 2), (4, 0)]
    );
    assert_eq!(
        in_order_of(&tree),
        vec![(2, 1), (2, 3), (4, 0), (4, 2), (4, 5), (6, 4), (6, 6)]
    );
}

#[test]
fn height_of_seven_keys() {
    let tree = tree_of(&[5, 8, 11, 2, 4, 7, 10]);
    assert_eq!(tree.height(), 4);
    assert_eq!(keys_of(&pre_order_of(&tree)), vec![5, 2, 4, 8, 7, 11, 10]);
    assert_eq!(keys_of(&in_order_of(&tree)), vec![2, 4, 5, 7, 8, 10, 11]);
}

#[test]
fn height_stops_at_the_first_entry_without_children() {
    let tree = tree_of(&[2, 1, 3, 4, 5]);
    assert_eq!(tree.height(), 2);
    let chain = tree_of(&[1, 2, 3, 4, 5]);
    assert_eq!(chain.height(), 5);
    let full = tree_of(&[4, 2, 6, 1, 3, 5, 7]);
    assert_eq!(full.height(), 4);
}

#[test]
fn walks_of_seven_keys() {
    let tree = tree_of(&[4, 2, 1, 3, 6, 5, 7]);
    assert_eq!(keys_of(&in_order_of(&tree)), vec![1, 2, 3, 4, 5, 6, 7]);
    assert_eq!(keys_of(&pre_order_of(&tree)), vec![4, 2, 1, 3, 6, 5, 7]);
    assert_eq!(keys_of(&post_order_of(&tree)), vec![1, 3, 2, 5, 7, 6, 4]);
}

#[test]
fn in_order_keys_never_step_down() {
    let keys = [8, 3, 10, 1, 6, 14, 4, 7, 13, 3, 8, 0, -5, 6, 6];
    let tree = tree_of(&keys);
    let walked = keys_of(&in_order_of(&tree));
    let mut sorted = keys.to_vec();
    sorted.sort();
    assert_eq!(walked, sorted);
}

#[test]
fn pre_order_starts_at_the_root() {
    let tree = tree_of(&[8, 3, 10, 1]);
    assert_eq!(tree.preorder().next(), Some((&8, &0)));
}

#[test]
fn every_inserted_entry_is_kept() {
    let keys = [8, 3, 10, 1, 6, 14, 4, 7, 13];
    let tree = tree_of(&keys);
    assert_eq!(in_order_of(&tree).len(), 9);
    assert_eq!(pre_order_of(&tree).len(), 9);
    assert_eq!(post_order_of(&tree).len(), 9);
    let repeated = tree_of(&[1, 1, 2, 2, 1]);
    assert_eq!(in_order_of(&repeated).len(), 5);
}

#[test]
fn in_order_round_trip() {
    let tree = tree_of(&[8, 3, 10, 1, 6, 14, 3, 8]);
    let first = in_order_of(&tree);
    let mut again = BST { root: None };
    for (key, value) in first.iter() {
        again.insert(Node::new(*key, *value));
    }
    assert_eq!(in_order_of(&again), first);
    assert_eq!(pre_order_of(&again), first);
}

#[test]
fn contains_val_finds_what_is_there() {
    let tree = tree_of(&[8, 3, 10, 1, 6]);
    for value in 0..5 {
        assert!(tree.contains_val(&value));
    }
    assert!(!tree.contains_val(&5));
    assert!(!tree.contains_val(&usize::MAX));
}

#[test]
fn values_mut_changes_values_only() {
    let mut tree = tree_of(&[4, 2, 6, 1, 3, 5, 7]);
    let keys_before = keys_of(&pre_order_of(&tree));
    let mut walk = tree.values_mut();
    while let Some(value) = walk.next() {
        if *value == 2 {
            *value = 200;
        }
    }
    assert!(tree.contains_val(&200));
    assert!(!tree.contains_val(&2));
    assert_eq!(keys_of(&pre_order_of(&tree)), keys_before);
    assert_eq!(
        pre_order_of(&tree),
        vec![(4, 0), (2, 1), (1, 3), (3, 4), (6, 200), (5, 5), (7, 6)]
    );
}

#[test]
fn values_mut_goes_level_by_level() {
    let mut tree = tree_of(&[4, 2, 6, 1, 3, 5, 7]);
    let mut walk = tree.values_mut();
    let mut seen = Vec::new();
    let mut next = 10;
    while let Some(value) = walk.next() {
        seen.push(*value);
        *value = next;
        next += 1;
    }
    assert_eq!(seen, vec![0, 1, 2, 3, 4, 5, 6]);
    assert_eq!(
        in_order_of(&tree),
        vec![(1, 13), (2, 11), (3, 14), (4, 10), (5, 15), (6, 12), (7, 16)]
    );
}

#[test]
fn values_mut_dropped_untouched_changes_nothing() {
    let mut tree = tree_of(&[4, 2, 6, 1, 3, 5, 7]);
    let before = pre_order_of(&tree);
    {
        let _walk = tree.values_mut();
    }
    assert_eq!(pre_order_of(&tree), before);
    {
        let mut walk = tree.values_mut();
        assert_eq!(walk.next(), Some(&mut 0));
        assert_eq!(walk.next(), Some(&mut 1));
    }
    assert_eq!(pre_order_of(&tree), before);
    assert_eq!(keys_of(&in_order_of(&tree)), vec![1, 2, 3, 4, 5, 6, 7]);
}

#[test]
fn values_mut_left_early_keeps_the_rest() {
    let mut tree = tree_of(&[4, 2, 6]);
    {
        let mut walk = tree.values_mut();
        if let Some(value) = walk.next() {
            *value = 40;
        }
    }
    assert_eq!(pre_order_of(&tree), vec![(4, 40), (2, 1), (6, 2)]);
    let mut wide = tree_of(&[4, 2, 6, 1, 3, 5, 7]);
    {
        let mut walk = wide.values_mut();
        let mut next = 100;
        for _ in 0..4 {
            if let Some(value) = walk.next() {
                *value = next;
                next += 1;
            }
        }
    }
    assert_eq!(
        pre_order_of(&wide),
        vec![(4, 100), (2, 101), (1, 103), (3, 4), (6, 102), (5, 5), (7, 6)]
    );
}

#[test]
fn into_iter_yields_what_the_walks_yield() {
    let keys = [8, 3, 10, 1, 6, 14, 3];
    let tree = tree_of(&keys);
    let pre = pre_order_of(&tree);
    let mut sorted = in_order_of(&tree);
    let mut drained = Vec::new();
    let mut walk = tree.into_iter();
    while let Some(entry) = walk.next() {
        drained.push(entry);
    }
    assert_eq!(drained, pre);
    drained.sort();
    sorted.sort();
    assert_eq!(drained, sorted);
}

#[test]
fn insert_hangs_a_whole_subtree() {
    let mut tree = tree_of(&[5, 3]);
    let mut other = tree_of(&[9, 8, 10]);
    let sub = other.root.take().unwrap();
    tree.insert(*sub);
    assert_eq!(keys_of(&pre_order_of(&tree)), vec![5, 3, 9, 8, 10]);
}
