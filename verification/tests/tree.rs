use rbtree_threaded::{Color, NodeKey, Tree, TreeError};

fn check_black_heights(tree: &Tree<usize>, node: Option<NodeKey>) -> usize {
    match node {
        None => 1,
        Some(key) => {
            let left_height = check_black_heights(tree, tree.get_left(key).unwrap());
            let right_height = check_black_heights(tree, tree.get_right(key).unwrap());
            if left_height != right_height {
                panic!(
                    "Invalid black height for node at {:?}",
                    tree.get_contents(key).unwrap()
                )
            }
            if tree.get_color(node) == Color::RED {
                left_height
            } else {
                left_height + 1
            }
        }
    }
}

fn get_level_order(tree: &Tree<usize>) -> String {
    let mut out = "".to_string();
    if tree.root.is_some() {
        let mut queue = vec![tree.root.unwrap()];
        while !queue.is_empty() {
            let current_node = queue[0];
            out = format!("{}{:?} ", &out, tree.get_contents(current_node).unwrap());
            let left = tree.get_left(current_node).unwrap();
            let right = tree.get_right(current_node).unwrap();
            if left.is_some() {
                queue.push(left.unwrap());
            }
            if right.is_some() {
                queue.push(right.unwrap());
            }
            queue.remove(0);
        }
    }
    out
}

fn get_nodes_order(tree: &Tree<usize>) -> String {
    let mut out = "".to_string();
    let mut node = tree.get_leftmost_node();
    while node.is_some() {
        out = format!("{}{:?} ", out, tree.get_contents(node.unwrap()).unwrap());
        node = tree.get_next(node.unwrap()).unwrap();
    }
    out
}

#[test]
fn insertion_test() {
    let mut tree: Tree<usize> = Tree::new();

    let seven = tree.create_root(7).unwrap();
    assert_eq!(check_black_heights(&tree, tree.root), 2);
    assert_eq!(get_level_order(&tree), "7 ");
    assert_eq!(get_nodes_order(&tree), "7 ");

    let six = tree.insert_before(seven, 6).unwrap();
    assert_eq!(check_black_heights(&tree, tree.root), 2);
    assert_eq!(get_level_order(&tree), "7 6 ");
    assert_eq!(get_nodes_order(&tree), "6 7 ");

    let five = tree.insert_before(six, 5).unwrap();
    assert_eq!(check_black_heights(&tree, tree.root), 2);
    assert_eq!(get_level_order(&tree), "6 5 7 ");
    assert_eq!(get_nodes_order(&tree), "5 6 7 ");

    let four = tree.insert_before(five, 4).unwrap();
    assert_eq!(check_black_heights(&tree, tree.root), 3);
    assert_eq!(get_level_order(&tree), "6 5 7 4 ");
    assert_eq!(get_nodes_order(&tree), "4 5 6 7 ");

    let three = tree.insert_before(four, 3).unwrap();
    assert_eq!(check_black_heights(&tree, tree.root), 3);
    assert_eq!(get_level_order(&tree), "6 4 7 3 5 ");
    assert_eq!(get_nodes_order(&tree), "3 4 5 6 7 ");

    let two = tree.insert_before(three, 2).unwrap();
    assert_eq!(check_black_heights(&tree, tree.root), 3);
    assert_eq!(get_level_order(&tree), "6 4 7 3 5 2 ");
    assert_eq!(get_nodes_order(&tree), "2 3 4 5 6 7 ");

    let _one = tree.insert_before(two, 1).unwrap();
    assert_eq!(get_level_order(&tree), "6 4 7 2 5 1 3 ");
    assert_eq!(get_nodes_order(&tree), "1 2 3 4 5 6 7 ");

    assert_eq!(check_black_heights(&tree, tree.root), 3);
}

#[test]
fn deletion_test() {
    let mut tree: Tree<usize> = Tree::new();

    let seven = tree.create_root(7).unwrap();

    let three = tree.insert_before(seven, 3).unwrap();
    let eighteen = tree.insert_after(seven, 18).unwrap();
    let ten = tree.insert_after(seven, 10).unwrap();
    let twentytwo = tree.insert_after(eighteen, 22).unwrap();
    let _eight = tree.insert_before(ten, 8).unwrap();
    let eleven = tree.insert_after(ten, 11).unwrap();
    let _twentysix = tree.insert_after(twentytwo, 26).unwrap();
    let _two = tree.insert_before(three, 2).unwrap();
    let _six = tree.insert_before(seven, 6).unwrap();
    let _thirteen = tree.insert_after(eleven, 13).unwrap();

    assert_eq!(get_level_order(&tree), "10 7 18 3 8 11 22 2 6 13 26 ");
    assert_eq!(get_nodes_order(&tree), "2 3 6 7 8 10 11 13 18 22 26 ");
    assert_eq!(check_black_heights(&tree, tree.root), 3);

    tree.delete_node(eighteen).unwrap();
    assert_eq!(get_level_order(&tree), "10 7 22 3 8 11 26 2 6 13 ");
    assert_eq!(get_nodes_order(&tree), "2 3 6 7 8 10 11 13 22 26 ");
    tree.delete_node(eleven).unwrap();
    assert_eq!(get_level_order(&tree), "10 7 22 3 8 13 26 2 6 ");
    assert_eq!(get_nodes_order(&tree), "2 3 6 7 8 10 13 22 26 ");
    tree.delete_node(three).unwrap();
    assert_eq!(get_level_order(&tree), "10 7 22 6 8 13 26 2 ");
    assert_eq!(get_nodes_order(&tree), "2 6 7 8 10 13 22 26 ");
    tree.delete_node(ten).unwrap();
    assert_eq!(get_level_order(&tree), "13 7 22 6 8 26 2 ");
    assert_eq!(get_nodes_order(&tree), "2 6 7 8 13 22 26 ");
    tree.delete_node(twentytwo).unwrap();
    assert_eq!(get_level_order(&tree), "13 7 26 6 8 2 ");
    assert_eq!(get_nodes_order(&tree), "2 6 7 8 13 26 ");

    assert_eq!(check_black_heights(&tree, tree.root), 3);
}

/// The payloads met by an in-order walk of the subtree under `node`.
fn in_order(tree: &Tree<usize>, node: Option<NodeKey>, out: &mut Vec<usize>) {
    if let Some(key) = node {
        in_order(tree, tree.get_left(key).unwrap(), out);
        out.push(*tree.get_contents(key).unwrap());
        in_order(tree, tree.get_right(key).unwrap(), out);
    }
}

/// The payloads met by following `next` from the leftmost node.
fn chain(tree: &Tree<usize>) -> Vec<usize> {
    let mut out = Vec::new();
    let mut node = tree.get_leftmost_node();
    while let Some(key) = node {
        out.push(*tree.get_contents(key).unwrap());
        node = tree.get_next(key).unwrap();
    }
    out
}

/// The payloads met by following `prev` from `last`, in reverse.
fn chain_back(tree: &Tree<usize>, last: Option<NodeKey>) -> Vec<usize> {
    let mut out = Vec::new();
    let mut node = last;
    while let Some(key) = node {
        out.push(*tree.get_contents(key).unwrap());
        node = tree.get_prev(key).unwrap();
    }
    out.reverse();
    out
}

fn no_red_red(tree: &Tree<usize>, node: Option<NodeKey>) {
    if let Some(key) = node {
        let left = tree.get_left(key).unwrap();
        let right = tree.get_right(key).unwrap();
        if tree.get_color(node) == Color::RED {
            assert_eq!(tree.get_color(left), Color::BLACK);
            assert_eq!(tree.get_color(right), Color::BLACK);
        }
        if let Some(child) = left {
            assert_eq!(tree.get_parent(child).unwrap(), Some(key));
        }
        if let Some(child) = right {
            assert_eq!(tree.get_parent(child).unwrap(), Some(key));
        }
        no_red_red(tree, left);
        no_red_red(tree, right);
    }
}

/// Checks every invariant of the tree against the expected order.
fn check_all(tree: &Tree<usize>, expected: &[usize]) {
    let mut walk = Vec::new();
    in_order(tree, tree.root, &mut walk);
    assert_eq!(walk, expected);
    assert_eq!(chain(tree), expected);
    assert_eq!(tree.len(), expected.len());
    assert_eq!(tree.has_root(), !expected.is_empty());
    check_black_heights(tree, tree.root);
    no_red_red(tree, tree.root);
    assert_eq!(tree.get_color(tree.root), Color::BLACK);
    if let Some(root) = tree.root {
        assert_eq!(tree.get_parent(root).unwrap(), None);
    }
}

/// A tree that holds `0..count` in order, with the handles by payload.
fn build(count: usize) -> (Tree<usize>, Vec<NodeKey>) {
    let mut tree: Tree<usize> = Tree::new();
    let mut keys = Vec::new();
    if count > 0 {
        keys.push(tree.create_root(0).unwrap());
        for value in 1..count {
            let key = tree.insert_after(keys[value - 1], value).unwrap();
            keys.push(key);
        }
    }
    (tree, keys)
}

#[test]
fn new_tree_is_empty() {
    let tree: Tree<usize> = Tree::new();
    assert!(!tree.has_root());
    assert_eq!(tree.len(), 0);
    assert_eq!(tree.get_leftmost_node(), None);
    check_all(&tree, &[]);
}

#[test]
fn root_is_created_black() {
    let mut tree: Tree<usize> = Tree::new();
    let root = tree.create_root(42).unwrap();
    assert_eq!(tree.root, Some(root));
    assert_eq!(tree.get_color(Some(root)), Color::BLACK);
    assert_eq!(tree.get_left(root), Ok(None));
    assert_eq!(tree.get_right(root), Ok(None));
    assert_eq!(tree.get_parent(root), Ok(None));
    assert_eq!(tree.get_prev(root), Ok(None));
    assert_eq!(tree.get_next(root), Ok(None));
    assert_eq!(tree.get_contents(root), Ok(&42));
    check_all(&tree, &[42]);
}

#[test]
fn second_root_is_refused_and_changes_nothing() {
    let mut tree: Tree<usize> = Tree::new();
    let root = tree.create_root(1).unwrap();
    let left = tree.insert_before(root, 0).unwrap();
    assert_eq!(tree.create_root(9), Err(TreeError::RootExists));
    assert_eq!(tree.root, Some(root));
    assert_eq!(tree.len(), 2);
    assert_eq!(tree.get_left(root), Ok(Some(left)));
    check_all(&tree, &[0, 1]);
}

#[test]
fn new_node_is_red_under_black_root() {
    let mut tree: Tree<usize> = Tree::new();
    let root = tree.create_root(1).unwrap();
    let after = tree.insert_after(root, 2).unwrap();
    assert_eq!(tree.get_color(Some(after)), Color::RED);
    assert_eq!(tree.get_right(root), Ok(Some(after)));
    assert_eq!(tree.get_parent(after), Ok(Some(root)));
    assert_eq!(tree.get_next(root), Ok(Some(after)));
    assert_eq!(tree.get_prev(after), Ok(Some(root)));
    let before = tree.insert_before(root, 0).unwrap();
    assert_eq!(tree.get_color(Some(before)), Color::RED);
    assert_eq!(tree.get_left(root), Ok(Some(before)));
    assert_eq!(tree.get_prev(root), Ok(Some(before)));
    assert_eq!(tree.get_next(before), Ok(Some(root)));
    check_all(&tree, &[0, 1, 2]);
}

#[test]
fn insert_after_goes_under_successor_when_right_is_taken() {
    let mut tree: Tree<usize> = Tree::new();
    let root = tree.create_root(10).unwrap();
    let right = tree.insert_after(root, 30).unwrap();
    let _left = tree.insert_before(root, 5).unwrap();
    let middle = tree.insert_after(root, 20).unwrap();
    assert_eq!(tree.get_left(right), Ok(Some(middle)));
    assert_eq!(tree.get_parent(middle), Ok(Some(right)));
    check_all(&tree, &[5, 10, 20, 30]);
}

#[test]
fn insert_before_goes_under_predecessor_when_left_is_taken() {
    let mut tree: Tree<usize> = Tree::new();
    let root = tree.create_root(10).unwrap();
    let left = tree.insert_before(root, 5).unwrap();
    let _right = tree.insert_after(root, 30).unwrap();
    let middle = tree.insert_before(root, 7).unwrap();
    assert_eq!(tree.get_right(left), Ok(Some(middle)));
    assert_eq!(tree.get_parent(middle), Ok(Some(left)));
    check_all(&tree, &[5, 7, 10, 30]);
}

#[test]
fn invariants_hold_after_every_insertion() {
    let mut tree: Tree<usize> = Tree::new();
    let mut keys = vec![tree.create_root(500).unwrap()];
    let mut expected = vec![500];
    // A fixed scramble of positions and sides
    let mut seed: usize = 12345;
    for value in 0..200 {
        seed = (seed * 1103515245 + 12345) % 2147483648;
        let at = seed % keys.len();
        if seed % 2 == 0 {
            let key = tree.insert_after(keys[at], value).unwrap();
            keys.insert(at + 1, key);
            expected.insert(at + 1, value);
        } else {
            let key = tree.insert_before(keys[at], value).unwrap();
            keys.insert(at, key);
            expected.insert(at, value);
        }
        check_all(&tree, &expected);
        assert_eq!(chain_back(&tree, Some(*keys.last().unwrap())), expected);
    }
}

#[test]
fn every_node_can_be_deleted_in_any_order() {
    for count in 1..9 {
        // Every rotation of the order of deletion, forward and backward
        for start in 0..count {
            for backward in [false, true] {
                let (mut tree, keys) = build(count);
                let mut expected: Vec<usize> = (0..count).collect();
                check_all(&tree, &expected);
                for step in 0..count {
                    let mut victim = (start + step) % count;
                    if backward {
                        victim = count - 1 - victim;
                    }
                    tree.delete_node(keys[victim]).unwrap();
                    expected.retain(|value| *value != victim);
                    check_all(&tree, &expected);
                    assert_eq!(tree.get_contents(keys[victim]), Err(TreeError::InvalidHandle));
                }
                assert!(!tree.has_root());
                assert_eq!(tree.root, None);
            }
        }
    }
}

#[test]
fn scrambled_deletion_keeps_invariants() {
    let (mut tree, keys) = build(120);
    let mut expected: Vec<usize> = (0..120).collect();
    let mut seed: usize = 987;
    while !expected.is_empty() {
        seed = (seed * 1103515245 + 12345) % 2147483648;
        let victim = expected[seed % expected.len()];
        tree.delete_node(keys[victim]).unwrap();
        expected.retain(|value| *value != victim);
        check_all(&tree, &expected);
    }
    assert!(!tree.has_root());
}

#[test]
fn deleting_a_root_with_one_child_leaves_the_child_alone() {
    let mut tree: Tree<usize> = Tree::new();
    let root = tree.create_root(7).unwrap();
    let left = tree.insert_before(root, 3).unwrap();
    tree.delete_node(root).unwrap();
    assert_eq!(tree.root, Some(left));
    assert_eq!(tree.get_color(Some(left)), Color::BLACK);
    assert_eq!(tree.get_left(left), Ok(None));
    assert_eq!(tree.get_right(left), Ok(None));
    assert_eq!(tree.get_parent(left), Ok(None));
    assert_eq!(tree.get_prev(left), Ok(None));
    assert_eq!(tree.get_next(left), Ok(None));
    check_all(&tree, &[3]);

    let mut tree: Tree<usize> = Tree::new();
    let root = tree.create_root(7).unwrap();
    let right = tree.insert_after(root, 18).unwrap();
    tree.delete_node(root).unwrap();
    assert_eq!(tree.root, Some(right));
    assert_eq!(tree.get_prev(right), Ok(None));
    assert_eq!(tree.get_next(right), Ok(None));
    check_all(&tree, &[18]);
    // The tree can grow again from what is left
    let before = tree.insert_before(right, 1).unwrap();
    assert_eq!(tree.get_prev(right), Ok(Some(before)));
    check_all(&tree, &[1, 18]);
}

#[test]
fn deleting_the_last_node_empties_the_tree() {
    let mut tree: Tree<usize> = Tree::new();
    let root = tree.create_root(7).unwrap();
    assert_eq!(tree.delete_node(root), Ok(()));
    assert!(!tree.has_root());
    assert_eq!(tree.len(), 0);
    // A new root can be made afterwards
    let again = tree.create_root(8).unwrap();
    check_all(&tree, &[8]);
    assert_eq!(tree.get_contents(again), Ok(&8));
}

#[test]
fn deleting_a_node_with_two_children_keeps_the_handles_of_the_others() {
    let (mut tree, keys) = build(7);
    // With seven nodes the root has a child on either side
    let root = tree.root.unwrap();
    assert!(tree.get_left(root).unwrap().is_some());
    assert!(tree.get_right(root).unwrap().is_some());
    let gone = *tree.get_contents(root).unwrap();
    tree.delete_node(root).unwrap();
    let expected: Vec<usize> = (0..7).filter(|value| *value != gone).collect();
    check_all(&tree, &expected);
    for value in expected {
        assert_eq!(tree.get_contents(keys[value]), Ok(&value));
    }
}

#[test]
fn stale_and_foreign_handles_are_refused() {
    let mut tree: Tree<usize> = Tree::new();
    let root = tree.create_root(1).unwrap();
    let gone = tree.insert_after(root, 2).unwrap();
    tree.delete_node(gone).unwrap();
    assert_eq!(tree.get_left(gone), Err(TreeError::InvalidHandle));
    assert_eq!(tree.get_right(gone), Err(TreeError::InvalidHandle));
    assert_eq!(tree.get_parent(gone), Err(TreeError::InvalidHandle));
    assert_eq!(tree.get_prev(gone), Err(TreeError::InvalidHandle));
    assert_eq!(tree.get_next(gone), Err(TreeError::InvalidHandle));
    assert_eq!(tree.get_contents(gone), Err(TreeError::InvalidHandle));
    assert_eq!(tree.set_contents(gone, 5), Err(TreeError::InvalidHandle));
    assert!(tree.get_mut_contents(gone).is_err());
    assert_eq!(tree.insert_after(gone, 5), Err(TreeError::InvalidHandle));
    assert_eq!(tree.insert_before(gone, 5), Err(TreeError::InvalidHandle));
    assert_eq!(tree.delete_node(gone), Err(TreeError::InvalidHandle));
    assert_eq!(tree.get_color(Some(gone)), Color::BLACK);
    check_all(&tree, &[1]);
    // A handle that was reused by the store is a new one
    let fresh = tree.insert_after(root, 3).unwrap();
    assert_ne!(fresh, gone);
    assert_eq!(tree.get_contents(gone), Err(TreeError::InvalidHandle));
    assert_eq!(tree.get_contents(fresh), Ok(&3));
    check_all(&tree, &[1, 3]);
}

#[test]
fn contents_can_be_read_and_written() {
    let (mut tree, keys) = build(5);
    assert_eq!(tree.set_contents(keys[2], 20), Ok(()));
    assert_eq!(tree.get_contents(keys[2]), Ok(&20));
    *tree.get_mut_contents(keys[3]).unwrap() += 27;
    assert_eq!(tree.get_contents(keys[3]), Ok(&30));
    check_all(&tree, &[0, 1, 20, 30, 4]);
}

#[test]
fn missing_node_counts_as_black() {
    let tree: Tree<usize> = Tree::new();
    assert_eq!(tree.get_color(None), Color::BLACK);
}

#[test]
fn leftmost_node_is_the_first_of_the_order() {
    let (mut tree, keys) = build(10);
    assert_eq!(tree.get_leftmost_node(), Some(keys[0]));
    tree.delete_node(keys[0]).unwrap();
    assert_eq!(tree.get_leftmost_node(), Some(keys[1]));
    let first = tree.insert_before(keys[1], 100).unwrap();
    assert_eq!(tree.get_leftmost_node(), Some(first));
}
