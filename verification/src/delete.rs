//! Deletion: a node leaves the tree by its handle, and the colors are
//! repaired where its leaving left one black node too few.

use vstd::prelude::*;
use crate::fixup::{
    made_up,
    lemma_far_nephew_left, lemma_far_nephew_right, lemma_near_nephew_left,
    lemma_near_nephew_right, lemma_red_sibling_left, lemma_red_sibling_right, lemma_short_by,
    lemma_shortage_ends, lemma_shortage_moves_up, short_at,
};
use crate::insert::lemma_same_chain_trans;
use crate::model::{
    aligned, chain_inv, chain_ok, color_of, color_ok, colors_inv, lemma_first_of_subtree,
    lemma_same_chain, link_ok, pos_ok, same_chain, same_chain_at, slot_ok, tree_inv,
};
use crate::model::Shape;
use crate::node::{link_eq, Color, Node, NodeKey, NodeType};
use crate::swap::{lemma_swapped, swap_link, swapped, swapped_heights, swapped_shape};
use crate::tree::{sibling_of, Tree, TreeError};
use crate::unlink::{
    deleted, departed,
    lemma_height_positive, lemma_lone_child, lemma_unlink_root_steps, lemma_unlink_steps,
    lemma_unlinked_chain, lemma_unlinked_colors, lemma_unlinked_tree, only_child, shrunk_shape,
    spliced, unlinked, unlinked_heights, unlinked_root,
};

verus! {

/// A shortage at a node without a parent is none: no node counts that
/// subtree as one of its sides.
pub proof fn lemma_short_at_root<T: Copy>(
    m: Map<NodeKey, Node<T>>,
    root: Option<NodeKey>,
    sh: crate::model::Shape,
    n: int,
    bh: Map<NodeKey, nat>,
    v: NodeKey,
    x: NodeKey,
)
    requires
        tree_inv(m, root, sh, n),
        colors_inv(m, bh, Some(v), Some(x), None),
        m.dom().contains(x),
        m[x].parent.is_none(),
    ensures
        colors_inv(m, bh, Some(v), None, None),
{
    assert forall|k: NodeKey| m.dom().contains(k) && Some(k) != Some(v) implies #[trigger] color_ok(
        m,
        bh,
        k,
        None,
        None,
    ) by {
        assert(color_ok(m, bh, k, Some(x), None));
        assert(link_ok(m, root, sh, n, k));
    }
}

/// A black leaf that is marked as missing leaves its own place one black
/// node short and the colors elsewhere as they were.
pub proof fn lemma_mark_missing<T: Copy>(
    m: Map<NodeKey, Node<T>>,
    root: Option<NodeKey>,
    sh: crate::model::Shape,
    n: int,
    bh: Map<NodeKey, nat>,
    v: NodeKey,
)
    requires
        tree_inv(m, root, sh, n),
        colors_inv(m, bh, None, None, None),
        m.dom().contains(v),
        m[v].color == Color::BLACK,
        m[v].left.is_none(),
        m[v].right.is_none(),
    ensures
        colors_inv(m, bh.insert(v, 1), Some(v), Some(v), None),
{
    assert(color_ok(m, bh, v, None, None));
    assert forall|k: NodeKey| m.dom().contains(k) && Some(k) != Some(v) implies #[trigger] color_ok(
        m,
        bh.insert(v, 1),
        k,
        Some(v),
        None,
    ) by {
        assert(color_ok(m, bh, k, None, None));
    }
}

impl<T: Copy> Tree<T> {
    /// Fix a double black node that has been caused by deleting a node:
    /// the black leaf `node` is about to leave, and on return the tree is
    /// balanced as it will be without it.
    pub(crate) fn fix_double_black(&mut self, node: NodeKey)
        requires
            old(self).linked(),
            old(self).balanced(),
            old(self).contains(node),
            old(self).map()[node].color == Color::BLACK,
            old(self).map()[node].left.is_none(),
            old(self).map()[node].right.is_none(),
            old(self).map()[node].parent.is_some(),
        ensures
            final(self).linked(),
            colors_inv(final(self).map(), final(self).heights(), Some(node), None, None),
            color_of(final(self).map(), final(self).root()) == Color::BLACK,
            final(self).heights()[node] == 1,
            final(self).map()[node] == old(self).map()[node],
            same_chain(old(self).map(), final(self).map()),
            final(self)@ == old(self)@,
            final(self).shape().pos == old(self).shape().pos,
            (final(self).map(), final(self).root()) == made_up(
                old(self).map(),
                old(self).root(),
                node,
                2 * old(self)@.len(),
            ),
    {
        let ghost v = node;
        let ghost n = self.order@.len() as int;
        let ghost mut done = false;
        let ghost goal = made_up(self.map(), self.root, node, 2 * self.order@.len());
        let ghost mut rounds: nat = 2 * self.order@.len();
        let mut node = node;
        proof {
            lemma_mark_missing(self.map(), self.root, self.shape@, n, self.heights@, v);
            self.heights@ = self.heights@.insert(v, 1);
            assert(link_ok(self.map(), self.root, self.shape@, n, v));
            assert forall|k: NodeKey| self.map().dom().contains(k) implies #[trigger] same_chain_at(
                self.map(),
                self.map(),
                k,
            ) by {}
        }
        while !link_eq(Some(node), self.root)
            invariant_except_break
                !done,
                rounds >= 2 * (n - (self.shape@.hi[node] - self.shape@.lo[node])) + (if color_of(
                    self.map(),
                    sibling_of(self.map(), node),
                ) == Color::RED {
                    2int
                } else {
                    1int
                }),
            invariant
                self.linked(),
                n == self.order@.len(),
                self.order@ == old(self).order@,
                self.shape@.pos == old(self).shape@.pos,
                same_chain(old(self).map(), self.map()),
                self.map()[v] == old(self).map()[v],
                old(self).map()[v].left.is_none(),
                old(self).map()[v].right.is_none(),
                old(self).map()[v].parent.is_some(),
                self.contains(node),
                self.contains(v),
                self.heights@[v] == 1,
                color_of(self.map(), self.root) == Color::BLACK,
                !done ==> short_at(self.map(), self.root, self.shape@, n, self.heights@, v, node),
                done ==> colors_inv(self.map(), self.heights@, Some(v), None, None),
                !done ==> made_up(self.map(), self.root, node, rounds) == goal,
                done ==> (self.map(), self.root) == goal,
            ensures
                done || Some(node) == self.root,
            decreases
                n - (self.shape@.hi[node] - self.shape@.lo[node]),
                (match self.map()[node].parent {
                    Some(q) => self.shape@.hi[q] - self.shape@.lo[q],
                    None => 0,
                }),
        {
            let ghost m0 = self.map();
            let ghost root0 = self.root;
            let ghost sh0 = self.shape@;
            let ghost bh0 = self.heights@;
            let ghost x = node;
            proof {
                assert(link_ok(m0, root0, sh0, n, node));
                lemma_short_by(m0, root0, sh0, n, bh0, v, node);
                assert(link_ok(m0, root0, sh0, n, m0[node].parent.unwrap()));
            }
            let sibling = self.get_sibling(node);
            let parent = self.node(node).parent;
            if sibling.is_none() {
                // No sibling, double black is pushed up
                node = parent.unwrap();
            } else {
                let ghost p = parent.unwrap();
                let ghost s = sibling.unwrap();
                proof {
                    assert(link_ok(m0, root0, sh0, n, s));
                }
                if self.color_at(sibling) == Color::RED {
                    // Sibling is red
                    self.set_color(parent.unwrap(), Color::RED);
                    let ghost m1 = self.map();
                    self.set_color(sibling.unwrap(), Color::BLACK);
                    let ghost m2 = self.map();
                    match self.get_node_type(sibling.unwrap()) {
                        NodeType::LeftChild => {
                            proof {
                                lemma_red_sibling_left(m0, root0, bh0, v, x, p, s);
                            }
                            self.right_rotate(parent.unwrap());
                        },
                        NodeType::RightChild => {
                            proof {
                                lemma_red_sibling_right(m0, root0, bh0, v, x, p, s);
                            }
                            self.left_rotate(parent.unwrap());
                        },
                        NodeType::Orphan => {},
                    }
                    proof {
                        self.heights@ = bh0.insert(p, bh0[s]).insert(s, bh0[p]);
                        lemma_same_chain_trans(m0, m1, m2);
                        lemma_same_chain_trans(m0, m2, self.map());
                        lemma_same_chain_trans(old(self).map(), m0, self.map());
                        assert(link_ok(
                            self.map(),
                            self.root,
                            self.shape@,
                            n,
                            node,
                        ));
                        rounds = (rounds - 1) as nat;
                    }
                } else {
                    let sibling_left = self.node(sibling.unwrap()).left;
                    let sibling_right = self.node(sibling.unwrap()).right;
                    if self.color_at(sibling_left) == Color::RED {
                        let left = sibling_left.unwrap();
                        match self.get_node_type(sibling.unwrap()) {
                            NodeType::LeftChild => {
                                // Left-Left
                                proof {
                                    lemma_far_nephew_left(m0, root0, bh0, v, x, p, s, left);
                                }
                                let sibling_color = self.color_at(sibling);
                                self.set_color(left, sibling_color);
                                let ghost m1 = self.map();
                                let parent_color = self.color_at(parent);
                                self.set_color(sibling.unwrap(), parent_color);
                                let ghost m2 = self.map();
                                self.right_rotate(parent.unwrap());
                                proof {
                                    self.heights@ = bh0.insert(left, bh0[s]).insert(p, bh0[s]).insert(
                                        s,
                                        bh0[p],
                                    );
                                    lemma_same_chain_trans(m0, m1, m2);
                                    lemma_same_chain_trans(m0, m2, self.map());
                                }
                            },
                            NodeType::RightChild => {
                                // Right-Left
                                proof {
                                    lemma_near_nephew_right(m0, root0, bh0, v, x, p, s, left);
                                }
                                let parent_color = self.color_at(parent);
                                self.set_color(left, parent_color);
                                let ghost m1 = self.map();
                                self.right_rotate(sibling.unwrap());
                                let ghost m2 = self.map();
                                self.left_rotate(parent.unwrap());
                                proof {
                                    self.heights@ = bh0.insert(p, bh0[s]).insert(left, bh0[p]);
                                    lemma_same_chain_trans(m0, m1, m2);
                                    lemma_same_chain_trans(m0, m2, self.map());
                                }
                            },
                            NodeType::Orphan => {},
                        }
                        let ghost m3 = self.map();
                        self.set_color(parent.unwrap(), Color::BLACK);
                        proof {
                            lemma_same_chain_trans(m0, m3, self.map());
                            lemma_same_chain_trans(old(self).map(), m0, self.map());
                            done = true;
                        }
                        break ;
                    } else if self.color_at(sibling_right) == Color::RED {
                        let right = sibling_right.unwrap();
                        match self.get_node_type(sibling.unwrap()) {
                            NodeType::LeftChild => {
                                // Left-Right
                                proof {
                                    lemma_near_nephew_left(m0, root0, bh0, v, x, p, s, right);
                                }
                                let parent_color = self.color_at(parent);
                                self.set_color(right, parent_color);
                                let ghost m1 = self.map();
                                self.left_rotate(sibling.unwrap());
                                let ghost m2 = self.map();
                                self.right_rotate(parent.unwrap());
                                proof {
                                    self.heights@ = bh0.insert(p, bh0[s]).insert(right, bh0[p]);
                                    lemma_same_chain_trans(m0, m1, m2);
                                    lemma_same_chain_trans(m0, m2, self.map());
                                }
                            },
                            NodeType::RightChild => {
                                // Right-Right
                                proof {
                                    lemma_far_nephew_right(m0, root0, bh0, v, x, p, s, right);
                                }
                                let sibling_color = self.color_at(sibling);
                                self.set_color(right, sibling_color);
                                let ghost m1 = self.map();
                                let parent_color = self.color_at(parent);
                                self.set_color(sibling.unwrap(), parent_color);
                                let ghost m2 = self.map();
                                self.left_rotate(parent.unwrap());
                                proof {
                                    self.heights@ = bh0.insert(right, bh0[s]).insert(
                                        p,
                                        bh0[s],
                                    ).insert(s, bh0[p]);
                                    lemma_same_chain_trans(m0, m1, m2);
                                    lemma_same_chain_trans(m0, m2, self.map());
                                }
                            },
                            NodeType::Orphan => {},
                        }
                        let ghost m3 = self.map();
                        self.set_color(parent.unwrap(), Color::BLACK);
                        proof {
                            lemma_same_chain_trans(m0, m3, self.map());
                            lemma_same_chain_trans(old(self).map(), m0, self.map());
                            done = true;
                        }
                        break ;
                    } else {
                        // 2 Black children
                        self.set_color(sibling.unwrap(), Color::RED);
                        let ghost m1 = self.map();
                        if self.color_at(parent) == Color::BLACK {
                            proof {
                                lemma_shortage_moves_up(m0, root0, bh0, v, x, p, s);
                                self.heights@ = bh0.insert(s, (bh0[s] - 1) as nat).insert(
                                    p,
                                    (bh0[p] - 1) as nat,
                                );
                                lemma_same_chain_trans(old(self).map(), m0, self.map());
                                rounds = (rounds - 1) as nat;
                                assert(link_ok(m0, root0, sh0, n, p));
                            }
                            node = parent.unwrap();
                        } else {
                            proof {
                                lemma_shortage_ends(m0, root0, bh0, v, x, p, s);
                            }
                            self.set_color(parent.unwrap(), Color::BLACK);
                            proof {
                                self.heights@ = bh0.insert(s, (bh0[s] - 1) as nat);
                                lemma_same_chain_trans(m0, m1, self.map());
                                lemma_same_chain_trans(old(self).map(), m0, self.map());
                                done = true;
                            }
                            break ;
                        }
                    }
                }
            }
        }
        proof {
            if !done {
                assert(link_ok(self.map(), self.root, self.shape@, n, node));
                lemma_short_at_root(
                    self.map(),
                    self.root,
                    self.shape@,
                    n,
                    self.heights@,
                    v,
                    node,
                );
            }
        }
    }

    /// Finds the node that will replace a deleted node in the tree: its
    /// only child, or none for a leaf. The node must not have two children.
    pub(crate) fn get_replacement_node(&self, node: NodeKey) -> (replacement: Option<NodeKey>)
        requires
            self.nodes.wf(),
            self.contains(node),
            self.map()[node].left.is_none() || self.map()[node].right.is_none(),
        ensures
            replacement == only_child(self.map(), node),
    {
        let left = self.node(node).left;
        let right = self.node(node).right;
        if left.is_none() && right.is_none() {
            // Node is a leaf
            None
        } else if left.is_some() {
            // Single Child on left
            left
        } else {
            // Single Child on right
            right
        }
    }

    /// Updates the prev and next entries of the neighbours of a node that
    /// is being deleted, so that the order chain passes it by.
    pub(crate) fn update_order_for_deletion(&mut self, deleted_node: NodeKey)
        requires
            old(self).nodes.wf(),
            old(self).contains(deleted_node),
            old(self).map()[deleted_node].next.is_some() ==> old(self).contains(
                old(self).map()[deleted_node].next.unwrap(),
            ),
            old(self).map()[deleted_node].prev.is_some() ==> old(self).contains(
                old(self).map()[deleted_node].prev.unwrap(),
            ),
        ensures
            final(self).nodes.wf(),
            final(self).same_frame(old(self)),
            final(self).map() == spliced(old(self).map(), deleted_node),
    {
        let next = self.node(deleted_node).next;
        let prev = self.node(deleted_node).prev;
        if next.is_some() {
            self.set_prev(next.unwrap(), prev);
        }
        if prev.is_some() {
            self.set_next(prev.unwrap(), next);
        }
    }

    /// What holds of a tree when `node`, which has at most one child, is
    /// about to leave it: the tree is sound, but `node` may just have
    /// changed places with its successor, so that `walk`, the in-order walk
    /// of the tree, may differ from the order chain, in which `lookup`
    /// gives each node's index, by these two nodes.
    pub open(crate) spec fn ready_to_unlink(
        &self,
        walk: Seq<NodeKey>,
        lookup: Map<NodeKey, int>,
        node: NodeKey,
    ) -> bool {
        &&& self.linked()
        &&& self.balanced()
        &&& self.map().dom().finite()
        &&& self.map().dom().len() == self.order@.len()
        &&& chain_inv(self.map(), self.order@)
        &&& aligned(self.map(), self.order@, lookup)
        &&& aligned(self.map(), walk, self.shape@.pos)
        &&& walk.len() == self.order@.len()
        &&& walk.remove(self.shape@.pos[node]) =~= self.order@.remove(lookup[node])
        &&& self.contains(node)
        &&& (self.map()[node].left.is_none() || self.map()[node].right.is_none())
    }

    /// Once `node` has left as `unlinked` says and its leaving has been
    /// recorded, the tree is sound again, and it holds what it held before
    /// but for `node`.
    proof fn lemma_gone(
        self,
        before: Self,
        m: Map<NodeKey, Node<T>>,
        root: Option<NodeKey>,
        sh: Shape,
        bh: Map<NodeKey, nat>,
        walk: Seq<NodeKey>,
        lookup: Map<NodeKey, int>,
        node: NodeKey,
    )
        requires
            before.ready_to_unlink(walk, lookup, node),
            tree_inv(m, root, sh, walk.len() as int),
            sh.pos == before.shape@.pos,
            same_chain(before.map(), m),
            colors_inv(m, bh, Some(node), None, None),
            color_of(m, root) == Color::BLACK,
            m[node].left.is_none() || m[node].right.is_none(),
            match only_child(m, node) {
                Some(c) => m[c].color == Color::RED && bh[node] == bh[c] + 1,
                None => bh[node] == 1,
            },
            self.nodes.wf(),
            self.map() =~= unlinked(m, node),
            self.root == unlinked_root(m, root, node),
            self.order@ == before.order@.remove(lookup[node]),
            self.shape@ == shrunk_shape(sh, sh.pos[node]),
            self.heights@ == unlinked_heights(m, bh, node),
        ensures
            self.wf(),
            self@ == before@.remove(lookup[node]),
            self.contents() =~= before.contents().remove(node),
            self.map() == unlinked(m, node),
    {
        let order0 = before.order@;
        lemma_same_chain(before.map(), m, order0, lookup);
        lemma_same_chain(before.map(), m, walk, sh.pos);
        lemma_unlinked_tree(m, root, sh, walk, node);
        lemma_unlinked_chain(m, order0, lookup, node);
        lemma_unlinked_colors(m, root, sh, walk.len() as int, bh, node);
        assert(pos_ok(order0, lookup, node));
        assert(self.map().dom() =~= before.map().dom().remove(node));
        assert forall|k: NodeKey| self.contains(k) implies self.map()[k].contents
            == before.map()[k].contents by {
            assert(same_chain_at(before.map(), m, k));
        }
    }

    /// Takes a leaf out of the tree. A black leaf that is not the root
    /// leaves its place one black node short, which is repaired while the
    /// leaf is still attached.
    fn remove_leaf(
        &mut self,
        node: NodeKey,
        both_black: bool,
        Ghost(walk): Ghost<Seq<NodeKey>>,
        Ghost(lookup): Ghost<Map<NodeKey, int>>,
    )
        requires
            old(self).ready_to_unlink(walk, lookup, node),
            only_child(old(self).map(), node).is_none(),
            both_black == (old(self).map()[node].color == Color::BLACK),
        ensures
            final(self).wf(),
            final(self)@ == old(self)@.remove(lookup[node]),
            final(self).contents() =~= old(self).contents().remove(node),
            (final(self).map(), final(self).root()) == departed(
                old(self).map(),
                old(self).root(),
                node,
                old(self)@.len(),
            ),
    {
        let ghost m1 = self.map();
        let ghost root1 = self.root;
        let ghost sh1 = self.shape@;
        let ghost bh1 = self.heights@;
        let ghost order0 = self.order@;
        let ghost n = order0.len() as int;
        let ghost mut m2 = m1;
        let ghost mut sh2 = sh1;
        let ghost mut bh2 = bh1;
        let ghost mut root2 = root1;
        proof {
            assert(link_ok(m1, root1, sh1, n, node));
            if root1.is_some() {
                assert(link_ok(m1, root1, sh1, n, root1.unwrap()));
            }
            assert forall|k: NodeKey| m1.dom().contains(k) implies #[trigger] same_chain_at(
                m1,
                m1,
                k,
            ) by {}
        }
        if link_eq(Some(node), self.root) {
            // node is the root so set the root to None
            proof {
                lemma_mark_missing(m1, root1, sh1, n, bh1, node);
                bh2 = bh1.insert(node, 1);
                lemma_short_at_root(m1, root1, sh1, n, bh2, node, node);
            }
            self.root = None;
        } else {
            if both_black {
                // Both the node and the replacement are black
                // As the node is a leaf the double black is fixed at it
                self.fix_double_black(node);
                proof {
                    m2 = self.map();
                    sh2 = self.shape@;
                    bh2 = self.heights@;
                    root2 = self.root;
                }
            } else {
                // The node must be red
                let sibling = self.get_sibling(node);
                proof {
                    let q = m1[node].parent.unwrap();
                    assert(link_ok(m1, root1, sh1, n, q));
                    assert(color_ok(m1, bh1, q, None, None));
                    assert(color_ok(m1, bh1, node, None, None));
                    if sibling.is_some() {
                        let s = sibling.unwrap();
                        assert(link_ok(m1, root1, sh1, n, s));
                        assert(color_ok(m1, bh1, s, None, None));
                        lemma_height_positive(m1, root1, sh1, n, bh1, m1[s].left);
                    }
                    lemma_colors_skip(m1, bh1, node);
                }
                if sibling.is_some() {
                    self.set_color(sibling.unwrap(), Color::RED);
                }
                assert(self.map() =~= m1);
            }
            assert(link_ok(m2, root2, sh2, n, node));
            let parent = self.node(node).parent;
            match self.get_node_type(node) {
                NodeType::LeftChild => self.set_left(parent.unwrap(), None),
                NodeType::RightChild => self.set_right(parent.unwrap(), None),
                NodeType::Orphan => {},
            }
        }
        proof {
            lemma_same_chain(m1, m2, order0, lookup);
            assert(pos_ok(order0, lookup, node));
            let at = lookup[node];
            assert(chain_ok(m2, order0, at));
            if at > 0 {
                assert(slot_ok(m2, order0, lookup, at - 1));
            }
            if at + 1 < n {
                assert(slot_ok(m2, order0, lookup, at + 1));
            }
        }
        self.update_order_for_deletion(node);
        self.nodes.remove(node);
        proof {
            lemma_unlink_steps(m2, root2, sh2, n, order0, lookup, node);
            self.order@ = order0.remove(lookup[node]);
            self.shape@ = shrunk_shape(sh2, sh2.pos[node]);
            self.heights@ = unlinked_heights(m2, bh2, node);
            self.lemma_gone(*old(self), m2, root2, sh2, bh2, walk, lookup, node);
        }
    }

    /// Takes a node with one child out of the tree: the child takes its
    /// place.
    fn remove_above(
        &mut self,
        node: NodeKey,
        replacement: NodeKey,
        Ghost(walk): Ghost<Seq<NodeKey>>,
        Ghost(lookup): Ghost<Map<NodeKey, int>>,
    )
        requires
            old(self).ready_to_unlink(walk, lookup, node),
            only_child(old(self).map(), node) == Some(replacement),
        ensures
            final(self).wf(),
            final(self)@ == old(self)@.remove(lookup[node]),
            final(self).contents() =~= old(self).contents().remove(node),
            (final(self).map(), final(self).root()) == departed(
                old(self).map(),
                old(self).root(),
                node,
                old(self)@.len(),
            ),
    {
        let ghost m1 = self.map();
        let ghost root1 = self.root;
        let ghost sh1 = self.shape@;
        let ghost bh1 = self.heights@;
        let ghost order0 = self.order@;
        let ghost n = order0.len() as int;
        proof {
            assert(link_ok(m1, root1, sh1, n, node));
            if root1.is_some() {
                assert(link_ok(m1, root1, sh1, n, root1.unwrap()));
            }
            lemma_lone_child(m1, root1, sh1, n, bh1, node, replacement);
            lemma_colors_skip(m1, bh1, node);
            assert(link_ok(m1, root1, sh1, n, replacement));
            assert forall|k: NodeKey| m1.dom().contains(k) implies #[trigger] same_chain_at(
                m1,
                m1,
                k,
            ) by {}
            assert(pos_ok(order0, lookup, node));
            let at = lookup[node];
            assert(chain_ok(m1, order0, at));
            if at > 0 {
                assert(slot_ok(m1, order0, lookup, at - 1));
            }
            if at + 1 < n {
                assert(slot_ok(m1, order0, lookup, at + 1));
            }
        }
        if link_eq(Some(node), self.root) {
            // Removing the root node
            self.swap_nodes(node, replacement);
            self.set_left(replacement, None);
            self.set_right(replacement, None);
            // The order chain passes the node by here as in every other case
            self.update_order_for_deletion(node);
            self.nodes.remove(node);
            proof {
                lemma_unlink_root_steps(m1, root1, sh1, n, order0, lookup, node, replacement);
            }
        } else {
            let parent = self.node(node).parent;
            match self.get_node_type(node) {
                NodeType::LeftChild => self.set_left(parent.unwrap(), Some(replacement)),
                NodeType::RightChild => self.set_right(parent.unwrap(), Some(replacement)),
                NodeType::Orphan => {},
            }
            self.set_parent(replacement, parent);
            self.update_order_for_deletion(node);
            self.nodes.remove(node);
            // A lone child is red under a black parent, so painting it
            // black makes up for the node that left
            self.set_color(replacement, Color::BLACK);
            proof {
                lemma_unlink_steps(m1, root1, sh1, n, order0, lookup, node);
            }
        }
        proof {
            self.order@ = order0.remove(lookup[node]);
            self.shape@ = shrunk_shape(sh1, sh1.pos[node]);
            self.heights@ = unlinked_heights(m1, bh1, node);
            self.lemma_gone(*old(self), m1, root1, sh1, bh1, walk, lookup, node);
        }
    }

    /// A node with two children may change places with its successor: the
    /// two are apart as `swap_nodes` asks, and afterwards the node has no
    /// left child and the tree is ready for it to leave.
    proof fn lemma_successor(self, node: NodeKey)
        requires
            self.wf(),
            self.contains(node),
            self.map()[node].left.is_some(),
            self.map()[node].right.is_some(),
        ensures
            self.map()[node].next.is_some(),
            ({
                let next = self.map()[node].next.unwrap();
                &&& self.contains(next)
                &&& next != node
                &&& self.map()[node].parent != Some(next)
                &&& self.map()[node].parent != self.map()[next].parent
                &&& self.map()[next].left.is_none()
                &&& self.shape@.pos[next] == self.shape@.pos[node] + 1
                &&& next == self.order@[self.shape@.pos[node] + 1]
            }),
    {
        let m0 = self.map();
        let order0 = self.order@;
        let sh0 = self.shape@;
        let n = order0.len() as int;
        let at = sh0.pos[node];
        assert(pos_ok(order0, sh0.pos, node));
        assert(chain_ok(m0, order0, at));
        assert(link_ok(m0, self.root, sh0, n, node));
        let r = m0[node].right.unwrap();
        lemma_first_of_subtree(m0, self.root, sh0, order0, r);
        let b = order0[at + 1];
        assert(slot_ok(m0, order0, sh0.pos, at + 1));
        assert(link_ok(m0, self.root, sh0, n, b));
        if m0[b].parent.is_some() {
            assert(link_ok(m0, self.root, sh0, n, m0[b].parent.unwrap()));
        }
    }

    /// After a node with two children has changed places with its
    /// successor, the tree is ready for the node to leave.
    proof fn lemma_brought_down(self, before: Self, node: NodeKey)
        requires
            before.wf(),
            before.contains(node),
            before.map()[node].left.is_some(),
            before.map()[node].right.is_some(),
            self.nodes.wf(),
            self.map() == swapped(before.map(), node, before.map()[node].next.unwrap()),
            self.root == swap_link(before.root, node, before.map()[node].next.unwrap()),
            self.shape@ == swapped_shape(before.shape@, node, before.map()[node].next.unwrap()),
            self.heights@ == swapped_heights(
                before.heights@,
                node,
                before.map()[node].next.unwrap(),
            ),
            self.order@ == before.order@,
        ensures
            self.ready_to_unlink(
                before.order@.update(
                    before.shape@.pos[node],
                    before.map()[node].next.unwrap(),
                ).update(before.shape@.pos[node] + 1, node),
                before.shape@.pos,
                node,
            ),
            self.contents() =~= before.contents(),
    {
        let m0 = before.map();
        let order0 = before.order@;
        let sh0 = before.shape@;
        let n = order0.len() as int;
        let at = sh0.pos[node];
        let b = m0[node].next.unwrap();
        before.lemma_successor(node);
        lemma_swapped(m0, before.root, sh0, n, before.heights@, node, b);
        lemma_same_chain(m0, self.map(), order0, sh0.pos);
        let walk = order0.update(at, b).update(at + 1, node);
        let sh1 = self.shape@;
        assert(pos_ok(order0, sh0.pos, node));
        assert(pos_ok(order0, sh0.pos, b));
        assert forall|k: NodeKey| m0.dom().contains(k) implies #[trigger] pos_ok(walk, sh1.pos, k) by {
            assert(pos_ok(order0, sh0.pos, k));
        }
        assert forall|i: int| 0 <= i < walk.len() implies #[trigger] slot_ok(
            self.map(),
            walk,
            sh1.pos,
            i,
        ) by {
            assert(slot_ok(m0, order0, sh0.pos, i));
        }
        assert(walk.remove(at + 1) =~= order0.remove(at));
        assert forall|k: NodeKey| m0.dom().contains(k) implies self.map()[k].contents
            == m0[k].contents by {
            assert(same_chain_at(m0, self.map(), k));
        }
    }

    /// Delete the specified node from the tree and rebalance the remaining
    /// nodes. A handle that is not live leaves the tree as it is, and the
    /// call fails.
    pub fn delete_node(&mut self, node: NodeKey) -> (done: Result<(), TreeError>)
        requires
            old(self).wf(),
        ensures
            final(self).wf(),
            match done {
                Ok(_) => {
                    &&& old(self).contains(node)
                    &&& final(self)@ == old(self)@.remove(old(self).index_of(node))
                    &&& final(self).contents() == old(self).contents().remove(node)
                    &&& (final(self).map(), final(self).root()) == deleted(
                        old(self).map(),
                        old(self).root(),
                        node,
                        old(self)@.len(),
                    )
                },
                Err(e) => {
                    &&& e == TreeError::InvalidHandle
                    &&& !old(self).contains(node)
                    &&& *final(self) == *old(self)
                },
            },
    {
        if !self.nodes.contains_key(node) {
            return Err(TreeError::InvalidHandle);
        }
        let ghost mut walk = self.order@;
        let ghost lookup = self.shape@.pos;
        if self.node(node).left.is_some() && self.node(node).right.is_some() {
            proof {
                self.lemma_successor(node);
            }
            let next = self.node(node).next.unwrap();
            self.swap_nodes(node, next);
            proof {
                walk = walk.update(lookup[node], next).update(lookup[node] + 1, node);
                self.lemma_brought_down(*old(self), node);
            }
        }
        let replacement = self.get_replacement_node(node);
        let both_black = self.color_at(Some(node)) == Color::BLACK && self.color_at(replacement)
            == Color::BLACK;
        match replacement {
            None => self.remove_leaf(node, both_black, Ghost(walk), Ghost(lookup)),
            Some(child) => self.remove_above(node, child, Ghost(walk), Ghost(lookup)),
        }
        Ok(())
    }
}

/// A tree that obeys both color rules everywhere obeys them at every node
/// but one.
pub proof fn lemma_colors_skip<T: Copy>(
    m: Map<NodeKey, Node<T>>,
    bh: Map<NodeKey, nat>,
    skip: NodeKey,
)
    requires
        colors_inv(m, bh, None, None, None),
    ensures
        colors_inv(m, bh, Some(skip), None, None),
{
    assert forall|k: NodeKey| m.dom().contains(k) && Some(k) != Some(skip) implies #[trigger] color_ok(
        m,
        bh,
        k,
        None,
        None,
    ) by {}
}

} // verus!
