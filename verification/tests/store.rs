use rbtree_threaded::{Color, Node, NodeStore};

#[test]
fn new_node_is_red_and_unlinked() {
    let node = Node::new(5usize);
    assert_eq!(node.contents, 5);
    assert_eq!(node.color, Color::RED);
    assert!(node.parent.is_none());
    assert!(node.left.is_none());
    assert!(node.right.is_none());
    assert!(node.prev.is_none());
    assert!(node.next.is_none());
}

#[test]
fn new_store_is_empty() {
    let store: NodeStore<usize> = NodeStore::new();
    assert_eq!(store.len(), 0);
}

#[test]
fn store_gives_back_what_was_put_in() {
    let mut store: NodeStore<usize> = NodeStore::new();
    let a = store.insert(Node::new(1));
    let b = store.insert(Node::new(2));
    let c = store.insert(Node::new(3));
    assert_ne!(a, b);
    assert_ne!(b, c);
    assert_ne!(a, c);
    assert_eq!(store.len(), 3);
    assert!(store.contains_key(a));
    assert_eq!(store.get(a).unwrap().contents, 1);
    assert_eq!(store.get(b).unwrap().contents, 2);
    assert_eq!(store.get(c).unwrap().contents, 3);
}

#[test]
fn store_remove_takes_one_node_and_keeps_the_others() {
    let mut store: NodeStore<usize> = NodeStore::new();
    let a = store.insert(Node::new(1));
    let b = store.insert(Node::new(2));
    let c = store.insert(Node::new(3));
    // Removing the first moves the last record into its place
    let removed = store.remove(a).unwrap();
    assert_eq!(removed.contents, 1);
    assert_eq!(store.len(), 2);
    assert!(!store.contains_key(a));
    assert!(store.get(a).is_none());
    assert!(store.remove(a).is_none());
    assert_eq!(store.get(b).unwrap().contents, 2);
    assert_eq!(store.get(c).unwrap().contents, 3);
    assert_eq!(store.remove(c).unwrap().contents, 3);
    assert_eq!(store.get(b).unwrap().contents, 2);
    assert_eq!(store.remove(b).unwrap().contents, 2);
    assert_eq!(store.len(), 0);
}

#[test]
fn store_never_hands_out_a_removed_handle_again() {
    let mut store: NodeStore<usize> = NodeStore::new();
    let a = store.insert(Node::new(1));
    store.remove(a);
    let b = store.insert(Node::new(2));
    assert_ne!(a, b);
    assert!(store.get(a).is_none());
    assert_eq!(store.get(b).unwrap().contents, 2);
}

#[test]
fn store_node_can_be_changed_in_place() {
    let mut store: NodeStore<usize> = NodeStore::new();
    let a = store.insert(Node::new(1));
    let b = store.insert(Node::new(2));
    store.get_mut(a).unwrap().contents = 10;
    store.get_mut(a).unwrap().next = Some(b);
    store.get_mut(b).unwrap().color = Color::BLACK;
    assert_eq!(store.get(a).unwrap().contents, 10);
    assert_eq!(store.get(a).unwrap().next, Some(b));
    assert_eq!(store.get(b).unwrap().contents, 2);
    assert_eq!(store.get(b).unwrap().color, Color::BLACK);
    store.remove(a);
    assert!(store.get_mut(a).is_none());
}
