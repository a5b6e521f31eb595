//! Rotations: local changes of the tree's shape that keep its in-order
//! sequence.

use vstd::prelude::*;
use crate::model::{
    link_ok, same_chain, same_chain_at, same_color_at, same_colors, tree_inv, Shape,
};
use crate::node::{Node, NodeKey, NodeType};
use crate::tree::Tree;

verus! {

/// The root after `by` has taken the place of `p`.
pub open spec fn replace_root<T: Copy>(
    m: Map<NodeKey, Node<T>>,
    root: Option<NodeKey>,
    p: NodeKey,
    by: Option<NodeKey>,
) -> Option<NodeKey> {
    if m[p].parent.is_none() {
        by
    } else {
        root
    }
}

/// Node `g` with `by` in the child slot that held `p`.
pub open spec fn with_child<T: Copy>(g: Node<T>, p: NodeKey, by: Option<NodeKey>) -> Node<T> {
    if g.left == Some(p) {
        Node { left: by, ..g }
    } else {
        Node { right: by, ..g }
    }
}

/// The nodes after a left rotation at `p`: the right child `q` of `p` takes
/// the place of `p`, `p` becomes the left child of `q`, and the former left
/// child of `q` becomes the right child of `p`.
pub open spec fn rotated_left<T: Copy>(m: Map<NodeKey, Node<T>>, p: NodeKey) -> Map<NodeKey, Node<T>> {
    let q = m[p].right.unwrap();
    Map::new(
        |k: NodeKey| m.dom().contains(k),
        |k: NodeKey|
            if k == p {
                Node { right: m[q].left, parent: Some(q), ..m[p] }
            } else if k == q {
                Node { left: Some(p), parent: m[p].parent, ..m[q] }
            } else if m[q].left == Some(k) {
                Node { parent: Some(p), ..m[k] }
            } else if m[p].parent == Some(k) {
                with_child(m[k], p, Some(q))
            } else {
                m[k]
            },
    )
}

/// The nodes after a right rotation at `p`, the mirror image of a left
/// rotation.
pub open spec fn rotated_right<T: Copy>(m: Map<NodeKey, Node<T>>, p: NodeKey) -> Map<NodeKey, Node<T>> {
    let q = m[p].left.unwrap();
    Map::new(
        |k: NodeKey| m.dom().contains(k),
        |k: NodeKey|
            if k == p {
                Node { left: m[q].right, parent: Some(q), ..m[p] }
            } else if k == q {
                Node { right: Some(p), parent: m[p].parent, ..m[q] }
            } else if m[q].right == Some(k) {
                Node { parent: Some(p), ..m[k] }
            } else if m[p].parent == Some(k) {
                with_child(m[k], p, Some(q))
            } else {
                m[k]
            },
    )
}

/// The subtree ranges after a left rotation at `p`.
pub open spec fn rotated_left_shape<T: Copy>(m: Map<NodeKey, Node<T>>, sh: Shape, p: NodeKey) -> Shape {
    let q = m[p].right.unwrap();
    Shape { pos: sh.pos, lo: sh.lo.insert(q, sh.lo[p]), hi: sh.hi.insert(p, sh.pos[q]) }
}

/// The subtree ranges after a right rotation at `p`.
pub open spec fn rotated_right_shape<T: Copy>(m: Map<NodeKey, Node<T>>, sh: Shape, p: NodeKey) -> Shape {
    let q = m[p].left.unwrap();
    Shape { pos: sh.pos, lo: sh.lo.insert(p, sh.pos[q] + 1), hi: sh.hi.insert(q, sh.hi[p]) }
}

/// A left rotation keeps the links a binary tree with the same in-order
/// sequence.
#[verifier::rlimit(30)]
pub proof fn lemma_rotated_left<T: Copy>(
    m: Map<NodeKey, Node<T>>,
    root: Option<NodeKey>,
    sh: Shape,
    n: int,
    p: NodeKey,
)
    requires
        tree_inv(m, root, sh, n),
        m.dom().contains(p),
        m[p].right.is_some(),
    ensures
        tree_inv(
            rotated_left(m, p),
            replace_root(m, root, p, m[p].right),
            rotated_left_shape(m, sh, p),
            n,
        ),
        rotated_left(m, p).dom() =~= m.dom(),
        same_chain(m, rotated_left(m, p)),
        same_colors(m, rotated_left(m, p)),
{
    let q = m[p].right.unwrap();
    let m2 = rotated_left(m, p);
    let root2 = replace_root(m, root, p, m[p].right);
    let sh2 = rotated_left_shape(m, sh, p);
    assert(link_ok(m, root, sh, n, p));
    assert(link_ok(m, root, sh, n, q));
    if m[q].left.is_some() {
        assert(link_ok(m, root, sh, n, m[q].left.unwrap()));
    }
    if m[p].parent.is_some() {
        assert(link_ok(m, root, sh, n, m[p].parent.unwrap()));
    }
    assert forall|k: NodeKey| m2.dom().contains(k) implies #[trigger] link_ok(m2, root2, sh2, n, k) by {
        assert(link_ok(m, root, sh, n, k));
        if m[k].left.is_some() {
            assert(link_ok(m, root, sh, n, m[k].left.unwrap()));
        }
        if m[k].right.is_some() {
            assert(link_ok(m, root, sh, n, m[k].right.unwrap()));
        }
        if m[k].parent.is_some() {
            assert(link_ok(m, root, sh, n, m[k].parent.unwrap()));
        }
    }
    if root.is_some() {
        assert(link_ok(m, root, sh, n, root.unwrap()));
    }
    assert forall|k: NodeKey| m.dom().contains(k) implies #[trigger] same_chain_at(m, m2, k) by {}
    assert forall|k: NodeKey| m.dom().contains(k) implies #[trigger] same_color_at(m, m2, k) by {}
}

/// A right rotation keeps the links a binary tree with the same in-order
/// sequence.
#[verifier::rlimit(30)]
pub proof fn lemma_rotated_right<T: Copy>(
    m: Map<NodeKey, Node<T>>,
    root: Option<NodeKey>,
    sh: Shape,
    n: int,
    p: NodeKey,
)
    requires
        tree_inv(m, root, sh, n),
        m.dom().contains(p),
        m[p].left.is_some(),
    ensures
        tree_inv(
            rotated_right(m, p),
            replace_root(m, root, p, m[p].left),
            rotated_right_shape(m, sh, p),
            n,
        ),
        rotated_right(m, p).dom() =~= m.dom(),
        same_chain(m, rotated_right(m, p)),
        same_colors(m, rotated_right(m, p)),
{
    let q = m[p].left.unwrap();
    let m2 = rotated_right(m, p);
    let root2 = replace_root(m, root, p, m[p].left);
    let sh2 = rotated_right_shape(m, sh, p);
    assert(link_ok(m, root, sh, n, p));
    assert(link_ok(m, root, sh, n, q));
    if m[q].right.is_some() {
        assert(link_ok(m, root, sh, n, m[q].right.unwrap()));
    }
    if m[p].parent.is_some() {
        assert(link_ok(m, root, sh, n, m[p].parent.unwrap()));
    }
    assert forall|k: NodeKey| m2.dom().contains(k) implies #[trigger] link_ok(m2, root2, sh2, n, k) by {
        assert(link_ok(m, root, sh, n, k));
        if m[k].left.is_some() {
            assert(link_ok(m, root, sh, n, m[k].left.unwrap()));
        }
        if m[k].right.is_some() {
            assert(link_ok(m, root, sh, n, m[k].right.unwrap()));
        }
        if m[k].parent.is_some() {
            assert(link_ok(m, root, sh, n, m[k].parent.unwrap()));
        }
    }
    if root.is_some() {
        assert(link_ok(m, root, sh, n, root.unwrap()));
    }
    assert forall|k: NodeKey| m.dom().contains(k) implies #[trigger] same_chain_at(m, m2, k) by {}
    assert forall|k: NodeKey| m.dom().contains(k) implies #[trigger] same_color_at(m, m2, k) by {}
}

impl<T: Copy> Tree<T> {
    /// Rotates the nodes to the left
    ///
    /// ```text
    ///    p              q
    ///   / \            / \
    ///  a   q   -->    p   c
    ///     / \        / \
    ///    b   c      a   b
    /// ```
    pub(crate) fn left_rotate(&mut self, rotation_root: NodeKey)
        requires
            old(self).linked(),
            old(self).contains(rotation_root),
            old(self).map()[rotation_root].right.is_some(),
        ensures
            final(self).linked(),
            final(self).map() == rotated_left(old(self).map(), rotation_root),
            final(self).root() == replace_root(
                old(self).map(),
                old(self).root(),
                rotation_root,
                old(self).map()[rotation_root].right,
            ),
            final(self).shape() == rotated_left_shape(
                old(self).map(),
                old(self).shape(),
                rotation_root,
            ),
            final(self)@ == old(self)@,
            final(self).heights() == old(self).heights(),
            same_chain(old(self).map(), final(self).map()),
            same_colors(old(self).map(), final(self).map()),
    {
        let ghost m = self.map();
        let ghost n = self.order@.len() as int;
        proof {
            lemma_rotated_left(m, self.root, self.shape@, n, rotation_root);
            assert(link_ok(m, self.root, self.shape@, n, rotation_root));
            let q = m[rotation_root].right.unwrap();
            assert(link_ok(m, self.root, self.shape@, n, q));
            if m[q].left.is_some() {
                assert(link_ok(m, self.root, self.shape@, n, m[q].left.unwrap()));
            }
            if m[rotation_root].parent.is_some() {
                assert(link_ok(m, self.root, self.shape@, n, m[rotation_root].parent.unwrap()));
            }
        }
        // Left rotation so pivot is to the right
        let pivot = self.node(rotation_root).right.unwrap();
        let pivot_left = self.node(pivot).left;
        let parent = self.node(rotation_root).parent;
        let kind = self.get_node_type(rotation_root);
        // The left child of the pivot becomes the right child of the rotation root
        self.set_right(rotation_root, pivot_left);
        if pivot_left.is_some() {
            self.set_parent(pivot_left.unwrap(), Some(rotation_root));
        }
        // The pivot replaces the rotation root in the tree

        self.set_parent(pivot, parent);
        match kind {
            NodeType::LeftChild => self.set_left(parent.unwrap(), Some(pivot)),
            NodeType::RightChild => self.set_right(parent.unwrap(), Some(pivot)),
            NodeType::Orphan => self.root = Some(pivot),
        }
        // Set the left child of the pivot to be the rotation root
        self.set_left(pivot, Some(rotation_root));
        self.set_parent(rotation_root, Some(pivot));
        proof {
            self.shape@ = rotated_left_shape(m, self.shape@, rotation_root);
            assert(self.map() =~= rotated_left(m, rotation_root));
        }
    }

    /// Rotates the nodes to the right
    ///
    /// ```text
    ///     q             p
    ///    / \           / \
    ///   p   c  -->    a   q
    ///  / \               / \
    /// a   b             b   c
    /// ```
    pub(crate) fn right_rotate(&mut self, rotation_root: NodeKey)
        requires
            old(self).linked(),
            old(self).contains(rotation_root),
            old(self).map()[rotation_root].left.is_some(),
        ensures
            final(self).linked(),
            final(self).map() == rotated_right(old(self).map(), rotation_root),
            final(self).root() == replace_root(
                old(self).map(),
                old(self).root(),
                rotation_root,
                old(self).map()[rotation_root].left,
            ),
            final(self).shape() == rotated_right_shape(
                old(self).map(),
                old(self).shape(),
                rotation_root,
            ),
            final(self)@ == old(self)@,
            final(self).heights() == old(self).heights(),
            same_chain(old(self).map(), final(self).map()),
            same_colors(old(self).map(), final(self).map()),
    {
        let ghost m = self.map();
        let ghost n = self.order@.len() as int;
        proof {
            lemma_rotated_right(m, self.root, self.shape@, n, rotation_root);
            assert(link_ok(m, self.root, self.shape@, n, rotation_root));
            let q = m[rotation_root].left.unwrap();
            assert(link_ok(m, self.root, self.shape@, n, q));
            if m[q].right.is_some() {
                assert(link_ok(m, self.root, self.shape@, n, m[q].right.unwrap()));
            }
            if m[rotation_root].parent.is_some() {
                assert(link_ok(m, self.root, self.shape@, n, m[rotation_root].parent.unwrap()));
            }
        }
        // Right rotation so pivot is to the left
        let pivot = self.node(rotation_root).left.unwrap();
        let pivot_right = self.node(pivot).right;
        let parent = self.node(rotation_root).parent;
        let kind = self.get_node_type(rotation_root);
        // The right child of the pivot becomes the left child of the rotation root
        self.set_left(rotation_root, pivot_right);
        if pivot_right.is_some() {
            self.set_parent(pivot_right.unwrap(), Some(rotation_root));
        }
        // The pivot replaces the rotation root in the tree

        self.set_parent(pivot, parent);
        match kind {
            NodeType::LeftChild => self.set_left(parent.unwrap(), Some(pivot)),
            NodeType::RightChild => self.set_right(parent.unwrap(), Some(pivot)),
            NodeType::Orphan => self.root = Some(pivot),
        }
        // Set the right child of the pivot to be the rotation root
        self.set_right(pivot, Some(rotation_root));
        self.set_parent(rotation_root, Some(pivot));
        proof {
            self.shape@ = rotated_right_shape(m, self.shape@, rotation_root);
            assert(self.map() =~= rotated_right(m, rotation_root));
        }
    }
}

} // verus!
