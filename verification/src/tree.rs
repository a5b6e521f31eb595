//! The tree itself: its state, what makes it well formed, and the constant
//! time reads and writes that everything else is built from.

use vstd::prelude::*;
use crate::model::{
    aligned, chain_inv, chain_ok, color_of, color_ok, colors_inv, lemma_same_links_tree, link_ok,
    link_to, pos_ok, same_chain, same_chain_at, same_links, same_links_at, slot_ok, tree_inv,
    Shape,
};
use crate::node::{link_eq, Color, Node, NodeKey, NodeType};
use crate::store::NodeStore;

verus! {

/// Why an operation on a tree was refused.
#[derive(PartialEq, Eq, Structural, Copy, Clone, Debug)]
pub enum TreeError {
    /// The tree already has a root.
    RootExists,
    /// The handle names no live node of this tree.
    InvalidHandle,
    /// The tree holds as many nodes as its store can take.
    Full,
}

/// A red-black tree threaded by an order chain. It owns the node store and
/// the handle of the root.
pub struct Tree<T: Copy> {
    /// The nodes, by handle.
    pub(crate) nodes: NodeStore<T>,
    /// The handle of the root; none while the tree is empty.
    pub root: Option<NodeKey>,
    /// The live handles in order, leftmost first.
    pub(crate) order: Ghost<Seq<NodeKey>>,
    /// Each node's index in the in-order walk and the range of its subtree.
    pub(crate) shape: Ghost<Shape>,
    /// Each node's black-height.
    pub(crate) heights: Ghost<Map<NodeKey, nat>>,
}

/// How `node` hangs under its parent in `m`.
pub open spec fn node_type_of<T: Copy>(m: Map<NodeKey, Node<T>>, node: NodeKey) -> NodeType {
    match m[node].parent {
        Some(q) => if m[q].left == Some(node) {
            NodeType::LeftChild
        } else {
            NodeType::RightChild
        },
        None => NodeType::Orphan,
    }
}

/// The nodes `m` with `contents` as the payload of `node`.
pub open spec fn with_contents<T: Copy>(
    m: Map<NodeKey, Node<T>>,
    node: NodeKey,
    contents: T,
) -> Map<NodeKey, Node<T>> {
    m.insert(node, Node { contents, ..m[node] })
}

/// The other child of the parent of `node` in `m`.
pub open spec fn sibling_of<T: Copy>(m: Map<NodeKey, Node<T>>, node: NodeKey) -> Option<NodeKey> {
    match m[node].parent {
        Some(q) => if m[q].left == Some(node) {
            m[q].right
        } else {
            m[q].left
        },
        None => None,
    }
}

impl<T: Copy> View for Tree<T> {
    type V = Seq<NodeKey>;

    /// The live handles in order, leftmost first.
    open(crate) spec fn view(&self) -> Seq<NodeKey> {
        self.order@
    }
}

impl<T: Copy> Tree<T> {
    /// The live handles, each with its node.
    pub open(crate) spec fn map(&self) -> Map<NodeKey, Node<T>> {
        self.nodes@
    }

    /// The handle of the root, if the tree has one.
    pub open(crate) spec fn root(&self) -> Option<NodeKey> {
        self.root
    }

    /// Whether `node` is a live handle of this tree.
    pub open spec fn contains(&self, node: NodeKey) -> bool {
        self.map().dom().contains(node)
    }

    /// The payload of every live node.
    pub open spec fn contents(&self) -> Map<NodeKey, T> {
        Map::new(|k: NodeKey| self.contains(k), |k: NodeKey| self.map()[k].contents)
    }

    /// The black-height that the tree records for each node.
    pub open(crate) spec fn heights(&self) -> Map<NodeKey, nat> {
        self.heights@
    }

    /// The index and the subtree range that the tree records for each node.
    pub open(crate) spec fn shape(&self) -> Shape {
        self.shape@
    }

    /// The store is sound and the tree links form a binary tree.
    pub open(crate) spec fn linked(&self) -> bool {
        &&& self.nodes.wf()
        &&& tree_inv(self.map(), self.root, self.shape@, self.order@.len() as int)
    }

    /// The order chain lists every live node once, in the order of an
    /// in-order walk of the tree.
    pub open(crate) spec fn threaded(&self) -> bool {
        &&& self.map().dom().finite()
        &&& self.map().dom().len() == self.order@.len()
        &&& chain_inv(self.map(), self.order@)
        &&& aligned(self.map(), self.order@, self.shape@.pos)
    }

    /// The colors obey the red-black rules and the root is black.
    pub open(crate) spec fn balanced(&self) -> bool {
        &&& colors_inv(self.map(), self.heights@, None, None, None)
        &&& color_of(self.map(), self.root) == Color::BLACK
    }

    /// Every invariant of the tree holds.
    pub open(crate) spec fn wf(&self) -> bool {
        &&& self.linked()
        &&& self.threaded()
        &&& self.balanced()
    }

    /// The index of a live node in the order.
    pub open(crate) spec fn index_of(&self, node: NodeKey) -> int {
        self.shape@.pos[node]
    }

    /// The root and the recorded order, shape and heights are those of
    /// `before`.
    pub open(crate) spec fn same_frame(&self, before: &Self) -> bool {
        &&& self.root == before.root
        &&& self.order@ == before.order@
        &&& self.shape@ == before.shape@
        &&& self.heights@ == before.heights@
    }

    /// Create a new empty tree.
    pub fn new() -> (tree: Self)
        ensures
            tree.wf(),
            tree@ == Seq::<NodeKey>::empty(),
            tree.map() == Map::<NodeKey, Node<T>>::empty(),
            tree.root().is_none(),
    {
        let tree = Tree {
            nodes: NodeStore::new(),
            root: None,
            order: Ghost(Seq::empty()),
            shape: Ghost(
                Shape {
                    pos: Map::total(|k: NodeKey| 0int),
                    lo: Map::total(|k: NodeKey| 0int),
                    hi: Map::total(|k: NodeKey| 0int),
                },
            ),
            heights: Ghost(Map::total(|k: NodeKey| 1nat)),
        };
        tree
    }

    /// Whether the tree has a root node.
    pub fn has_root(&self) -> (yes: bool)
        ensures
            yes == self.root().is_some(),
            self.wf() ==> yes == (self@.len() > 0),
    {
        self.root.is_some()
    }

    /// The number of live nodes.
    pub fn len(&self) -> (n: usize)
        requires
            self.wf(),
        ensures
            n == self@.len(),
    {
        self.nodes.len()
    }

    /// The record of a live node.
    pub(crate) fn node(&self, node: NodeKey) -> (found: &Node<T>)
        requires
            self.nodes.wf(),
            self.contains(node),
        ensures
            *found == self.map()[node],
    {
        self.nodes.get(node).unwrap()
    }

    /// Sets the right child of a live node.
    pub(crate) fn set_right(&mut self, node: NodeKey, right: Option<NodeKey>)
        requires
            old(self).nodes.wf(),
            old(self).contains(node),
        ensures
            final(self).nodes.wf(),
            final(self).same_frame(old(self)),
            final(self).map() == old(self).map().insert(
                node,
                Node { right, ..old(self).map()[node] },
            ),
    {
        let found = self.nodes.get_mut(node).unwrap();
        found.right = right;
    }

    /// Sets the left child of a live node.
    pub(crate) fn set_left(&mut self, node: NodeKey, left: Option<NodeKey>)
        requires
            old(self).nodes.wf(),
            old(self).contains(node),
        ensures
            final(self).nodes.wf(),
            final(self).same_frame(old(self)),
            final(self).map() == old(self).map().insert(
                node,
                Node { left, ..old(self).map()[node] },
            ),
    {
        let found = self.nodes.get_mut(node).unwrap();
        found.left = left;
    }

    /// Sets the parent of a live node.
    pub(crate) fn set_parent(&mut self, node: NodeKey, parent: Option<NodeKey>)
        requires
            old(self).nodes.wf(),
            old(self).contains(node),
        ensures
            final(self).nodes.wf(),
            final(self).same_frame(old(self)),
            final(self).map() == old(self).map().insert(
                node,
                Node { parent, ..old(self).map()[node] },
            ),
    {
        let found = self.nodes.get_mut(node).unwrap();
        found.parent = parent;
    }

    /// Sets the predecessor in the order chain of a live node.
    pub(crate) fn set_prev(&mut self, node: NodeKey, prev: Option<NodeKey>)
        requires
            old(self).nodes.wf(),
            old(self).contains(node),
        ensures
            final(self).nodes.wf(),
            final(self).same_frame(old(self)),
            final(self).map() == old(self).map().insert(
                node,
                Node { prev, ..old(self).map()[node] },
            ),
    {
        let found = self.nodes.get_mut(node).unwrap();
        found.prev = prev;
    }

    /// Sets the successor in the order chain of a live node.
    pub(crate) fn set_next(&mut self, node: NodeKey, next: Option<NodeKey>)
        requires
            old(self).nodes.wf(),
            old(self).contains(node),
        ensures
            final(self).nodes.wf(),
            final(self).same_frame(old(self)),
            final(self).map() == old(self).map().insert(
                node,
                Node { next, ..old(self).map()[node] },
            ),
    {
        let found = self.nodes.get_mut(node).unwrap();
        found.next = next;
    }

    /// Sets the color of a live node.
    pub(crate) fn set_color(&mut self, node: NodeKey, color: Color)
        requires
            old(self).nodes.wf(),
            old(self).contains(node),
        ensures
            final(self).nodes.wf(),
            final(self).same_frame(old(self)),
            final(self).map() == old(self).map().insert(
                node,
                Node { color, ..old(self).map()[node] },
            ),
            same_links(old(self).map(), final(self).map()),
            same_chain(old(self).map(), final(self).map()),
            old(self).linked() ==> final(self).linked(),
    {
        let found = self.nodes.get_mut(node).unwrap();
        found.color = color;
        proof {
            let a = old(self).map();
            let b = self.map();
            assert(a.dom() =~= b.dom());
            assert forall|k: NodeKey| a.dom().contains(k) implies #[trigger] same_links_at(a, b, k) by {}
            assert forall|k: NodeKey| a.dom().contains(k) implies #[trigger] same_chain_at(a, b, k) by {}
            if old(self).linked() {
                lemma_same_links_tree(a, b, self.root, self.shape@, self.order@.len() as int);
            }
        }
    }

    /// The color of a node; a missing node counts as black.
    pub fn get_color(&self, node: Option<NodeKey>) -> (color: Color)
        requires
            self.wf(),
        ensures
            color == color_of(self.map(), node),
    {
        self.color_at(node)
    }

    /// The color of a node; a missing node counts as black.
    pub(crate) fn color_at(&self, node: Option<NodeKey>) -> (color: Color)
        requires
            self.nodes.wf(),
        ensures
            color == color_of(self.map(), node),
    {
        match node {
            None => Color::BLACK,
            Some(k) => match self.nodes.get(k) {
                Some(found) => found.color,
                None => Color::BLACK,
            },
        }
    }

    /// Whether `node` is a left child, a right child, or has no parent.
    pub(crate) fn get_node_type(&self, node: NodeKey) -> (kind: NodeType)
        requires
            self.nodes.wf(),
            self.contains(node),
            self.map()[node].parent.is_some() ==> self.contains(self.map()[node].parent.unwrap()),
        ensures
            kind == node_type_of(self.map(), node),
    {
        let parent = self.node(node).parent;
        match parent {
            Some(q) => {
                if link_eq(self.node(q).left, Some(node)) {
                    NodeType::LeftChild
                } else {
                    NodeType::RightChild
                }
            },
            None => NodeType::Orphan,
        }
    }

    /// The other node under the parent of `node`.
    pub(crate) fn get_sibling(&self, node: NodeKey) -> (sibling: Option<NodeKey>)
        requires
            self.nodes.wf(),
            self.contains(node),
            self.map()[node].parent.is_some() ==> self.contains(self.map()[node].parent.unwrap()),
        ensures
            sibling == sibling_of(self.map(), node),
    {
        let parent = self.node(node).parent;
        match self.get_node_type(node) {
            NodeType::LeftChild => self.node(parent.unwrap()).right,
            NodeType::RightChild => self.node(parent.unwrap()).left,
            NodeType::Orphan => None,
        }
    }

    /// The sibling of the parent of `node`.
    pub(crate) fn get_uncle(&self, node: NodeKey) -> (uncle: Option<NodeKey>)
        requires
            self.linked(),
            self.contains(node),
        ensures
            uncle == (match self.map()[node].parent {
                Some(q) => sibling_of(self.map(), q),
                None => None,
            }),
    {
        proof {
            let n = self.order@.len() as int;
            assert(link_ok(self.map(), self.root, self.shape@, n, node));
            if self.map()[node].parent.is_some() {
                assert(link_ok(self.map(), self.root, self.shape@, n, self.map()[node].parent.unwrap()));
            }
        }
        let parent = self.node(node).parent;
        match parent {
            Some(q) => {
                let grandparent = self.node(q).parent;
                match self.get_node_type(q) {
                    NodeType::LeftChild => self.node(grandparent.unwrap()).right,
                    NodeType::RightChild => self.node(grandparent.unwrap()).left,
                    NodeType::Orphan => None,
                }
            },
            None => None,
        }
    }

    /// The right child of a live node.
    pub fn get_right(&self, node: NodeKey) -> (found: Result<Option<NodeKey>, TreeError>)
        requires
            self.wf(),
        ensures
            found == (if self.contains(node) {
                Ok::<Option<NodeKey>, TreeError>(self.map()[node].right)
            } else {
                Err(TreeError::InvalidHandle)
            }),
    {
        match self.nodes.get(node) {
            Some(found) => Ok(found.right),
            None => Err(TreeError::InvalidHandle),
        }
    }

    /// The left child of a live node.
    pub fn get_left(&self, node: NodeKey) -> (found: Result<Option<NodeKey>, TreeError>)
        requires
            self.wf(),
        ensures
            found == (if self.contains(node) {
                Ok::<Option<NodeKey>, TreeError>(self.map()[node].left)
            } else {
                Err(TreeError::InvalidHandle)
            }),
    {
        match self.nodes.get(node) {
            Some(found) => Ok(found.left),
            None => Err(TreeError::InvalidHandle),
        }
    }

    /// The parent of a live node.
    pub fn get_parent(&self, node: NodeKey) -> (found: Result<Option<NodeKey>, TreeError>)
        requires
            self.wf(),
        ensures
            found == (if self.contains(node) {
                Ok::<Option<NodeKey>, TreeError>(self.map()[node].parent)
            } else {
                Err(TreeError::InvalidHandle)
            }),
    {
        match self.nodes.get(node) {
            Some(found) => Ok(found.parent),
            None => Err(TreeError::InvalidHandle),
        }
    }

    /// The node just before a live node in the order, if there is one.
    pub fn get_prev(&self, node: NodeKey) -> (found: Result<Option<NodeKey>, TreeError>)
        requires
            self.wf(),
        ensures
            found == (if self.contains(node) {
                Ok::<Option<NodeKey>, TreeError>(link_to(self@, self.index_of(node) - 1))
            } else {
                Err(TreeError::InvalidHandle)
            }),
    {
        proof {
            if self.contains(node) {
                assert(pos_ok(self.order@, self.shape@.pos, node));
                assert(chain_ok(self.map(), self.order@, self.shape@.pos[node]));
            }
        }
        match self.nodes.get(node) {
            Some(found) => Ok(found.prev),
            None => Err(TreeError::InvalidHandle),
        }
    }

    /// The node just after a live node in the order, if there is one.
    pub fn get_next(&self, node: NodeKey) -> (found: Result<Option<NodeKey>, TreeError>)
        requires
            self.wf(),
        ensures
            found == (if self.contains(node) {
                Ok::<Option<NodeKey>, TreeError>(link_to(self@, self.index_of(node) + 1))
            } else {
                Err(TreeError::InvalidHandle)
            }),
    {
        proof {
            if self.contains(node) {
                assert(pos_ok(self.order@, self.shape@.pos, node));
                assert(chain_ok(self.map(), self.order@, self.shape@.pos[node]));
            }
        }
        match self.nodes.get(node) {
            Some(found) => Ok(found.next),
            None => Err(TreeError::InvalidHandle),
        }
    }

    /// Whether the nodes `m` would make this tree sound: the links, the
    /// order chain and the colors of `m` are as this tree records them.
    pub open(crate) spec fn sound_with(&self, m: Map<NodeKey, Node<T>>) -> bool {
        &&& tree_inv(m, self.root, self.shape@, self.order@.len() as int)
        &&& m.dom().finite()
        &&& m.dom().len() == self.order@.len()
        &&& chain_inv(m, self.order@)
        &&& aligned(m, self.order@, self.shape@.pos)
        &&& colors_inv(m, self.heights@, None, None, None)
        &&& color_of(m, self.root) == Color::BLACK
    }

    /// A tree stays sound whatever a node holds.
    pub(crate) proof fn lemma_new_contents(self, node: NodeKey, contents: T)
        requires
            self.wf(),
            self.contains(node),
        ensures
            self.sound_with(with_contents(self.map(), node, contents)),
    {
        let a = self.map();
        let b = with_contents(a, node, contents);
        let n = self.order@.len() as int;
        assert(a.dom() =~= b.dom());
        assert forall|k: NodeKey| a.dom().contains(k) implies #[trigger] same_links_at(a, b, k) by {}
        lemma_same_links_tree(a, b, self.root, self.shape@, n);
        assert forall|i: int| 0 <= i < self.order@.len() implies #[trigger] chain_ok(
            b,
            self.order@,
            i,
        ) by {
            assert(chain_ok(a, self.order@, i));
        }
        assert forall|k: NodeKey| b.dom().contains(k) implies #[trigger] pos_ok(
            self.order@,
            self.shape@.pos,
            k,
        ) by {
            assert(pos_ok(self.order@, self.shape@.pos, k));
        }
        assert forall|i: int| 0 <= i < self.order@.len() implies #[trigger] slot_ok(
            b,
            self.order@,
            self.shape@.pos,
            i,
        ) by {
            assert(slot_ok(a, self.order@, self.shape@.pos, i));
        }
        assert forall|k: NodeKey| b.dom().contains(k) implies #[trigger] color_ok(
            b,
            self.heights@,
            k,
            None,
            None,
        ) by {
            assert(color_ok(a, self.heights@, k, None, None));
        }
    }

    /// Replaces the payload of a live node.
    pub fn set_contents(&mut self, node: NodeKey, contents: T) -> (done: Result<(), TreeError>)
        requires
            old(self).wf(),
        ensures
            final(self).wf(),
            final(self)@ == old(self)@,
            match done {
                Ok(_) => {
                    &&& old(self).contains(node)
                    &&& final(self).map() == with_contents(old(self).map(), node, contents)
                    &&& final(self).contents() == old(self).contents().insert(node, contents)
                },
                Err(e) => {
                    &&& e == TreeError::InvalidHandle
                    &&& !old(self).contains(node)
                    &&& *final(self) == *old(self)
                },
            },
    {
        if !self.nodes.contains_key(node) {
            return Err(TreeError::InvalidHandle);
        }
        proof {
            self.lemma_new_contents(node, contents);
        }
        let found = self.nodes.get_mut(node).unwrap();
        found.contents = contents;
        proof {
            assert(self.contents() =~= old(self).contents().insert(node, contents));
        }
        Ok(())
    }

    /// The payload of a live node.
    pub fn get_contents(&self, node: NodeKey) -> (found: Result<&T, TreeError>)
        requires
            self.wf(),
        ensures
            match found {
                Ok(contents) => self.contains(node) && *contents == self.contents()[node],
                Err(e) => e == TreeError::InvalidHandle && !self.contains(node),
            },
    {
        match self.nodes.get(node) {
            Some(found) => Ok(&found.contents),
            None => Err(TreeError::InvalidHandle),
        }
    }

    /// The payload of a live node, open to change. Whatever is written
    /// there, only that payload changes.
    pub fn get_mut_contents(&mut self, node: NodeKey) -> (found: Result<&mut T, TreeError>)
        requires
            old(self).wf(),
        ensures
            final(self).wf(),
            final(self)@ == old(self)@,
            match found {
                Ok(contents) => {
                    &&& old(self).contains(node)
                    &&& *contents == old(self).contents()[node]
                    &&& final(self).map() == with_contents(old(self).map(), node, *final(contents))
                },
                Err(e) => {
                    &&& e == TreeError::InvalidHandle
                    &&& !old(self).contains(node)
                    &&& *final(self) == *old(self)
                },
            },
    {
        if !self.nodes.contains_key(node) {
            return Err(TreeError::InvalidHandle);
        }
        proof {
            let m = self.map();
            assert forall|new: Node<T>| new == (Node { contents: new.contents, ..m[node] })
                implies self.sound_with(#[trigger] m.insert(node, new)) by {
                self.lemma_new_contents(node, new.contents);
            }
        }
        let found = self.nodes.get_mut(node).unwrap();
        Ok(&mut found.contents)
    }

    /// The first node of the order: the one reached from the root by
    /// going left as long as there is a left child.
    pub fn get_leftmost_node(&self) -> (first: Option<NodeKey>)
        requires
            self.wf(),
        ensures
            first == link_to(self@, 0),
    {
        let mut node = self.root;
        if node.is_some() {
            proof {
                assert(link_ok(
                    self.map(),
                    self.root,
                    self.shape@,
                    self.order@.len() as int,
                    node.unwrap(),
                ));
            }
            while self.node(node.unwrap()).left.is_some()
                invariant
                    self.wf(),
                    node.is_some(),
                    self.contains(node.unwrap()),
                    self.shape@.lo[node.unwrap()] == 0,
                    0 <= self.shape@.pos[node.unwrap()],
                decreases self.shape@.pos[node.unwrap()],
            {
                proof {
                    let n = self.order@.len() as int;
                    let k = node.unwrap();
                    assert(link_ok(self.map(), self.root, self.shape@, n, k));
                    assert(link_ok(self.map(), self.root, self.shape@, n, self.map()[k].left.unwrap()));
                }
                node = self.node(node.unwrap()).left;
            }
            proof {
                let n = self.order@.len() as int;
                let k = node.unwrap();
                assert(link_ok(self.map(), self.root, self.shape@, n, k));
                assert(pos_ok(self.order@, self.shape@.pos, k));
            }
        }
        node
    }
}

} // verus!
