//! Insertion: a new node goes immediately before or after an existing one,
//! and the colors are repaired from the new node upward.

use vstd::prelude::*;
use crate::model::{
    color_of, color_ok, colors_inv, lemma_colors_weaken,
    lemma_first_of_subtree, lemma_last_of_subtree, lemma_same_chain, link_ok, link_to,
    pos_ok, chain_ok, same_chain, same_chain_at, slot_ok, tree_inv, Shape,
};
use crate::node::{Color, Node, NodeKey, NodeType};
use crate::place::{
    grown_shape, lemma_placed_chain, lemma_placed_colors, lemma_placed_tree, placeable, placed,
};
use crate::rotate::{replace_root, rotated_left, rotated_right};
use crate::store::MAX_NODES;
use crate::tree::{sibling_of, Tree, TreeError};

verus! {

/// The nodes with node `k` in color `c`.
pub open spec fn with_color<T: Copy>(
    m: Map<NodeKey, Node<T>>,
    k: NodeKey,
    c: Color,
) -> Map<NodeKey, Node<T>> {
    m.insert(k, Node { color: c, ..m[k] })
}

/// The nodes and the root after the repair of the colors that starts at the
/// red node `x` and runs for at most `rounds` rounds. While the parent of
/// the node at hand is red: under a red uncle, parent and uncle turn black,
/// the grandparent red, and the repair goes on from the grandparent; under
/// a black uncle, a node on the inner side of its parent is first rotated
/// to the outer side, then the upper of the two turns black, the
/// grandparent red, and a rotation at the grandparent ends the repair.
pub open spec fn repaired<T: Copy>(
    m: Map<NodeKey, Node<T>>,
    root: Option<NodeKey>,
    x: NodeKey,
    rounds: nat,
) -> (Map<NodeKey, Node<T>>, Option<NodeKey>)
    decreases rounds,
{
    if rounds == 0 || color_of(m, m[x].parent) != Color::RED {
        (m, root)
    } else {
        let p = m[x].parent.unwrap();
        let g = m[p].parent.unwrap();
        let u = sibling_of(m, p);
        if color_of(m, u) == Color::RED {
            repaired(
                with_color(
                    with_color(with_color(m, u.unwrap(), Color::BLACK), p, Color::BLACK),
                    g,
                    Color::RED,
                ),
                root,
                g,
                (rounds - 1) as nat,
            )
        } else if m[g].left == Some(p) {
            let inner = m[p].left != Some(x);
            let m1 = if inner {
                rotated_left(m, p)
            } else {
                m
            };
            let top = if inner {
                x
            } else {
                p
            };
            let m2 = with_color(with_color(m1, top, Color::BLACK), g, Color::RED);
            (rotated_right(m2, g), replace_root(m2, root, g, Some(top)))
        } else {
            let inner = m[p].left == Some(x);
            let m1 = if inner {
                rotated_right(m, p)
            } else {
                m
            };
            let top = if inner {
                x
            } else {
                p
            };
            let m2 = with_color(with_color(m1, top, Color::BLACK), g, Color::RED);
            (rotated_left(m2, g), replace_root(m2, root, g, Some(top)))
        }
    }
}

/// The nodes and the root after the repair that starts at `x`, with the
/// root painted black at the end.
pub open spec fn rebalanced<T: Copy>(
    m: Map<NodeKey, Node<T>>,
    root: Option<NodeKey>,
    x: NodeKey,
    rounds: nat,
) -> (Map<NodeKey, Node<T>>, Option<NodeKey>) {
    let (m1, root1) = repaired(m, root, x, rounds);
    (with_color(m1, root1.unwrap(), Color::BLACK), root1)
}

/// The nodes after the red leaf `k` has been hung immediately after
/// `anchor`: as the right child of `anchor` if that slot is empty, else as
/// the left child of the node that follows `anchor`.
pub open spec fn placed_after<T: Copy>(
    m: Map<NodeKey, Node<T>>,
    anchor: NodeKey,
    k: NodeKey,
    value: T,
) -> Map<NodeKey, Node<T>> {
    if m[anchor].right.is_none() {
        placed(m, k, value, anchor, false, Some(anchor), m[anchor].next)
    } else {
        placed(m, k, value, m[anchor].next.unwrap(), true, Some(anchor), m[anchor].next)
    }
}

/// The nodes after the red leaf `k` has been hung immediately before
/// `anchor`: as the left child of `anchor` if that slot is empty, else as
/// the right child of the node that precedes `anchor`.
pub open spec fn placed_before<T: Copy>(
    m: Map<NodeKey, Node<T>>,
    anchor: NodeKey,
    k: NodeKey,
    value: T,
) -> Map<NodeKey, Node<T>> {
    if m[anchor].left.is_none() {
        placed(m, k, value, anchor, true, m[anchor].prev, Some(anchor))
    } else {
        placed(m, k, value, m[anchor].prev.unwrap(), false, m[anchor].prev, Some(anchor))
    }
}

/// Having the same order links and payloads carries over two steps.
pub proof fn lemma_same_chain_trans<T: Copy>(
    a: Map<NodeKey, Node<T>>,
    b: Map<NodeKey, Node<T>>,
    c: Map<NodeKey, Node<T>>,
)
    requires
        same_chain(a, b),
        same_chain(b, c),
    ensures
        same_chain(a, c),
{
    assert forall|k: NodeKey| a.dom().contains(k) implies #[trigger] same_chain_at(a, c, k) by {
        assert(same_chain_at(a, b, k));
        assert(same_chain_at(b, c, k));
    }
}

/// With a red uncle, painting parent and uncle black and the grandparent
/// red keeps every black-height and moves the one possible red pair up to
/// the grandparent and its parent.
pub proof fn lemma_push_red_up<T: Copy>(
    m: Map<NodeKey, Node<T>>,
    root: Option<NodeKey>,
    sh: Shape,
    n: int,
    bh: Map<NodeKey, nat>,
    x: NodeKey,
    p: NodeKey,
    g: NodeKey,
    u: NodeKey,
)
    requires
        tree_inv(m, root, sh, n),
        colors_inv(m, bh, None, None, Some(x)),
        m.dom().contains(x),
        m[x].color == Color::RED,
        m[x].parent == Some(p),
        m[p].color == Color::RED,
        m[p].parent == Some(g),
        sibling_of(m, p) == Some(u),
        color_of(m, Some(u)) == Color::RED,
    ensures
        colors_inv(
            with_color(with_color(with_color(m, u, Color::BLACK), p, Color::BLACK), g, Color::RED),
            bh.insert(u, (bh[u] + 1) as nat).insert(p, (bh[p] + 1) as nat),
            None,
            None,
            Some(g),
        ),
        color_of(m, root) == Color::BLACK ==> root == Some(g) || color_of(
            with_color(with_color(with_color(m, u, Color::BLACK), p, Color::BLACK), g, Color::RED),
            root,
        ) == Color::BLACK,
{
    let m2 = with_color(with_color(with_color(m, u, Color::BLACK), p, Color::BLACK), g, Color::RED);
    let bh2 = bh.insert(u, (bh[u] + 1) as nat).insert(p, (bh[p] + 1) as nat);
    assert(link_ok(m, root, sh, n, x));
    assert(link_ok(m, root, sh, n, p));
    assert(link_ok(m, root, sh, n, g));
    assert(link_ok(m, root, sh, n, u));
    assert(color_ok(m, bh, g, None, Some(x)));
    assert(color_ok(m, bh, p, None, Some(x)));
    assert(color_ok(m, bh, u, None, Some(x)));
    assert forall|k: NodeKey| m2.dom().contains(k) implies #[trigger] color_ok(
        m2,
        bh2,
        k,
        None,
        Some(g),
    ) by {
        assert(color_ok(m, bh, k, None, Some(x)));
        assert(link_ok(m, root, sh, n, k));
    }
    if root.is_some() {
        assert(link_ok(m, root, sh, n, root.unwrap()));
    }
}

/// A new node on the inner side of its red parent, the parent a left child:
/// a left rotation at the parent puts the two in line, the former parent now
/// the lower of the red pair.
pub proof fn lemma_straighten_left<T: Copy>(
    m: Map<NodeKey, Node<T>>,
    root: Option<NodeKey>,
    sh: Shape,
    n: int,
    bh: Map<NodeKey, nat>,
    x: NodeKey,
    p: NodeKey,
    g: NodeKey,
)
    requires
        tree_inv(m, root, sh, n),
        colors_inv(m, bh, None, None, Some(x)),
        m.dom().contains(x),
        m[x].color == Color::RED,
        m[x].parent == Some(p),
        m[p].color == Color::RED,
        m[p].parent == Some(g),
        m[g].left == Some(p),
        m[p].right == Some(x),
    ensures
        colors_inv(rotated_left(m, p), bh, None, None, Some(p)),
        rotated_left(m, p)[p].parent == Some(x),
        rotated_left(m, p)[x].parent == Some(g),
        rotated_left(m, p)[x].left == Some(p),
        rotated_left(m, p)[g].left == Some(x),
        rotated_left(m, p)[g].right == m[g].right,
        color_of(rotated_left(m, p), m[g].right) == color_of(m, m[g].right),
        color_of(rotated_left(m, p), root) == color_of(m, root),
{
    let m2 = rotated_left(m, p);
    assert(link_ok(m, root, sh, n, x));
    assert(link_ok(m, root, sh, n, p));
    assert(link_ok(m, root, sh, n, g));
    assert(color_ok(m, bh, g, None, Some(x)));
    assert(color_ok(m, bh, p, None, Some(x)));
    assert(color_ok(m, bh, x, None, Some(x)));
    if m[x].left.is_some() {
        assert(link_ok(m, root, sh, n, m[x].left.unwrap()));
    }
    if m[g].right.is_some() {
        assert(link_ok(m, root, sh, n, m[g].right.unwrap()));
    }
    assert forall|k: NodeKey| m2.dom().contains(k) implies #[trigger] color_ok(
        m2,
        bh,
        k,
        None,
        Some(p),
    ) by {
        assert(color_ok(m, bh, k, None, Some(x)));
        assert(link_ok(m, root, sh, n, k));
    }
    if root.is_some() {
        assert(link_ok(m, root, sh, n, root.unwrap()));
    }
}

/// The mirror image of `lemma_straighten_left`.
pub proof fn lemma_straighten_right<T: Copy>(
    m: Map<NodeKey, Node<T>>,
    root: Option<NodeKey>,
    sh: Shape,
    n: int,
    bh: Map<NodeKey, nat>,
    x: NodeKey,
    p: NodeKey,
    g: NodeKey,
)
    requires
        tree_inv(m, root, sh, n),
        colors_inv(m, bh, None, None, Some(x)),
        m.dom().contains(x),
        m[x].color == Color::RED,
        m[x].parent == Some(p),
        m[p].color == Color::RED,
        m[p].parent == Some(g),
        m[g].right == Some(p),
        m[p].left == Some(x),
    ensures
        colors_inv(rotated_right(m, p), bh, None, None, Some(p)),
        rotated_right(m, p)[p].parent == Some(x),
        rotated_right(m, p)[x].parent == Some(g),
        rotated_right(m, p)[x].right == Some(p),
        rotated_right(m, p)[g].right == Some(x),
        rotated_right(m, p)[g].left == m[g].left,
        color_of(rotated_right(m, p), m[g].left) == color_of(m, m[g].left),
        color_of(rotated_right(m, p), root) == color_of(m, root),
{
    let m2 = rotated_right(m, p);
    assert(link_ok(m, root, sh, n, x));
    assert(link_ok(m, root, sh, n, p));
    assert(link_ok(m, root, sh, n, g));
    assert(color_ok(m, bh, g, None, Some(x)));
    assert(color_ok(m, bh, p, None, Some(x)));
    assert(color_ok(m, bh, x, None, Some(x)));
    if m[x].right.is_some() {
        assert(link_ok(m, root, sh, n, m[x].right.unwrap()));
    }
    if m[g].left.is_some() {
        assert(link_ok(m, root, sh, n, m[g].left.unwrap()));
    }
    assert forall|k: NodeKey| m2.dom().contains(k) implies #[trigger] color_ok(
        m2,
        bh,
        k,
        None,
        Some(p),
    ) by {
        assert(color_ok(m, bh, k, None, Some(x)));
        assert(link_ok(m, root, sh, n, k));
    }
    if root.is_some() {
        assert(link_ok(m, root, sh, n, root.unwrap()));
    }
}

/// A red node in line with its red parent, both on the left, under a black
/// uncle: painting the parent black and the grandparent red and rotating
/// right at the grandparent leaves no red pair and every side balanced.
pub proof fn lemma_lift_left<T: Copy>(
    m: Map<NodeKey, Node<T>>,
    root: Option<NodeKey>,
    sh: Shape,
    n: int,
    bh: Map<NodeKey, nat>,
    x: NodeKey,
    p: NodeKey,
    g: NodeKey,
)
    requires
        tree_inv(m, root, sh, n),
        colors_inv(m, bh, None, None, Some(x)),
        m.dom().contains(x),
        m[x].color == Color::RED,
        m[x].parent == Some(p),
        m[p].color == Color::RED,
        m[p].parent == Some(g),
        m[g].left == Some(p),
        m[p].left == Some(x),
        color_of(m, m[g].right) == Color::BLACK,
    ensures
        ({
            let m1 = with_color(with_color(m, p, Color::BLACK), g, Color::RED);
            let m2 = rotated_right(m1, g);
            &&& colors_inv(m2, bh.insert(p, bh[g]).insert(g, bh[p]), None, None, None)
            &&& color_of(m, root) == Color::BLACK ==> color_of(
                m2,
                replace_root(m1, root, g, Some(p)),
            ) == Color::BLACK
            &&& color_of(m2, m2[x].parent) == Color::BLACK
            &&& m2[x].color == Color::RED
        }),
{
    let m1 = with_color(with_color(m, p, Color::BLACK), g, Color::RED);
    let m2 = rotated_right(m1, g);
    let bh2 = bh.insert(p, bh[g]).insert(g, bh[p]);
    assert(link_ok(m, root, sh, n, x));
    assert(link_ok(m, root, sh, n, p));
    assert(link_ok(m, root, sh, n, g));
    assert(color_ok(m, bh, g, None, Some(x)));
    assert(color_ok(m, bh, p, None, Some(x)));
    assert(color_ok(m, bh, x, None, Some(x)));
    if m[p].right.is_some() {
        assert(link_ok(m, root, sh, n, m[p].right.unwrap()));
    }
    if m[g].right.is_some() {
        assert(link_ok(m, root, sh, n, m[g].right.unwrap()));
    }
    if m[g].parent.is_some() {
        assert(link_ok(m, root, sh, n, m[g].parent.unwrap()));
    }
    assert forall|k: NodeKey| m2.dom().contains(k) implies #[trigger] color_ok(
        m2,
        bh2,
        k,
        None,
        None,
    ) by {
        assert(color_ok(m, bh, k, None, Some(x)));
        assert(link_ok(m, root, sh, n, k));
    }
    if root.is_some() {
        assert(link_ok(m, root, sh, n, root.unwrap()));
    }
}

/// The mirror image of `lemma_lift_left`.
pub proof fn lemma_lift_right<T: Copy>(
    m: Map<NodeKey, Node<T>>,
    root: Option<NodeKey>,
    sh: Shape,
    n: int,
    bh: Map<NodeKey, nat>,
    x: NodeKey,
    p: NodeKey,
    g: NodeKey,
)
    requires
        tree_inv(m, root, sh, n),
        colors_inv(m, bh, None, None, Some(x)),
        m.dom().contains(x),
        m[x].color == Color::RED,
        m[x].parent == Some(p),
        m[p].color == Color::RED,
        m[p].parent == Some(g),
        m[g].right == Some(p),
        m[p].right == Some(x),
        color_of(m, m[g].left) == Color::BLACK,
    ensures
        ({
            let m1 = with_color(with_color(m, p, Color::BLACK), g, Color::RED);
            let m2 = rotated_left(m1, g);
            &&& colors_inv(m2, bh.insert(p, bh[g]).insert(g, bh[p]), None, None, None)
            &&& color_of(m, root) == Color::BLACK ==> color_of(
                m2,
                replace_root(m1, root, g, Some(p)),
            ) == Color::BLACK
            &&& color_of(m2, m2[x].parent) == Color::BLACK
            &&& m2[x].color == Color::RED
        }),
{
    let m1 = with_color(with_color(m, p, Color::BLACK), g, Color::RED);
    let m2 = rotated_left(m1, g);
    let bh2 = bh.insert(p, bh[g]).insert(g, bh[p]);
    assert(link_ok(m, root, sh, n, x));
    assert(link_ok(m, root, sh, n, p));
    assert(link_ok(m, root, sh, n, g));
    assert(color_ok(m, bh, g, None, Some(x)));
    assert(color_ok(m, bh, p, None, Some(x)));
    assert(color_ok(m, bh, x, None, Some(x)));
    if m[p].left.is_some() {
        assert(link_ok(m, root, sh, n, m[p].left.unwrap()));
    }
    if m[g].left.is_some() {
        assert(link_ok(m, root, sh, n, m[g].left.unwrap()));
    }
    if m[g].parent.is_some() {
        assert(link_ok(m, root, sh, n, m[g].parent.unwrap()));
    }
    assert forall|k: NodeKey| m2.dom().contains(k) implies #[trigger] color_ok(
        m2,
        bh2,
        k,
        None,
        None,
    ) by {
        assert(color_ok(m, bh, k, None, Some(x)));
        assert(link_ok(m, root, sh, n, k));
    }
    if root.is_some() {
        assert(link_ok(m, root, sh, n, root.unwrap()));
    }
}

/// Once the parent of the last repainted node is black, painting the root
/// black leaves a tree that obeys both color rules.
pub proof fn lemma_blacken_root<T: Copy>(
    m: Map<NodeKey, Node<T>>,
    root: Option<NodeKey>,
    sh: Shape,
    n: int,
    bh: Map<NodeKey, nat>,
    x: NodeKey,
    r: NodeKey,
)
    requires
        tree_inv(m, root, sh, n),
        colors_inv(m, bh, None, None, Some(x)),
        m.dom().contains(x),
        color_of(m, m[x].parent) == Color::BLACK,
        root == Some(r),
    ensures
        colors_inv(
            with_color(m, r, Color::BLACK),
            if m[r].color == Color::RED {
                bh.insert(r, (bh[r] + 1) as nat)
            } else {
                bh
            },
            None,
            None,
            None,
        ),
        color_of(with_color(m, r, Color::BLACK), root) == Color::BLACK,
{
    let m2 = with_color(m, r, Color::BLACK);
    let bh2 = if m[r].color == Color::RED {
        bh.insert(r, (bh[r] + 1) as nat)
    } else {
        bh
    };
    assert(link_ok(m, root, sh, n, x));
    assert(link_ok(m, root, sh, n, r));
    assert forall|k: NodeKey| m2.dom().contains(k) implies #[trigger] color_ok(
        m2,
        bh2,
        k,
        None,
        None,
    ) by {
        assert(color_ok(m, bh, k, None, Some(x)));
        assert(link_ok(m, root, sh, n, k));
    }
}

impl<T: Copy> Tree<T> {
    /// Rebalances the tree after inserting a new node
    pub(crate) fn insert_rebalance(&mut self, node: NodeKey)
        requires
            old(self).linked(),
            old(self).contains(node),
            colors_inv(old(self).map(), old(self).heights(), None, None, Some(node)),
            old(self).map()[node].color == Color::RED,
            color_of(old(self).map(), old(self).root()) == Color::BLACK || old(self).root() == Some(
                node,
            ),
        ensures
            final(self).linked(),
            final(self).balanced(),
            same_chain(old(self).map(), final(self).map()),
            final(self)@ == old(self)@,
            final(self).shape().pos == old(self).shape().pos,
            (final(self).map(), final(self).root()) == rebalanced(
                old(self).map(),
                old(self).root(),
                node,
                old(self)@.len(),
            ),
    {
        let ghost goal = repaired(self.map(), self.root, node, self.order@.len());
        let ghost mut rounds: nat = self.order@.len();
        let mut node = node;
        proof {
            assert(link_ok(self.map(), self.root, self.shape@, self.order@.len() as int, node));
            assert forall|k: NodeKey| self.map().dom().contains(k) implies #[trigger] same_chain_at(
                self.map(),
                self.map(),
                k,
            ) by {}
        }
        while self.color_at(self.node(node).parent) == Color::RED
            invariant
                self.linked(),
                self.contains(node),
                colors_inv(self.map(), self.heights@, None, None, Some(node)),
                self.map()[node].color == Color::RED,
                color_of(self.map(), self.root) == Color::BLACK || self.root == Some(node),
                same_chain(old(self).map(), self.map()),
                self.order@ == old(self).order@,
                self.shape@.pos == old(self).shape@.pos,
                repaired(self.map(), self.root, node, rounds) == goal,
                color_of(self.map(), self.map()[node].parent) == Color::RED ==> rounds
                    >= self.order@.len() - (self.shape@.hi[node] - self.shape@.lo[node]) + 1,
            decreases
                (if color_of(self.map(), self.map()[node].parent) == Color::RED {
                    self.order@.len() - (self.shape@.hi[node] - self.shape@.lo[node]) + 1
                } else {
                    0
                }),
        {
            let ghost m0 = self.map();
            let ghost n = self.order@.len() as int;
            let ghost x = node;
            proof {
                assert(link_ok(m0, self.root, self.shape@, n, node));
                let p = m0[node].parent.unwrap();
                assert(link_ok(m0, self.root, self.shape@, n, p));
                let g = m0[p].parent.unwrap();
                assert(link_ok(m0, self.root, self.shape@, n, g));
            }
            // Parent is RED so it exists
            let mut parent = self.node(node).parent.unwrap();
            // As parent is red it isn't the root so can get a grandparent
            let grandparent = self.node(parent).parent.unwrap();
            let uncle = self.get_uncle(node);
            if self.color_at(uncle) == Color::RED {
                proof {
                    lemma_push_red_up(
                        m0,
                        self.root,
                        self.shape@,
                        n,
                        self.heights@,
                        node,
                        parent,
                        grandparent,
                        uncle.unwrap(),
                    );
                }
                // Uncle is red so we can balance by re-coloring parent and uncle
                self.set_color(uncle.unwrap(), Color::BLACK);
                let ghost m1 = self.map();
                self.set_color(parent, Color::BLACK);
                let ghost m2 = self.map();
                // Set grandparent to red and carry on up the tree
                self.set_color(grandparent, Color::RED);
                node = grandparent;
                proof {
                    let bh = self.heights@;
                    self.heights@ = bh.insert(uncle.unwrap(), (bh[uncle.unwrap()] + 1) as nat).insert(
                        parent,
                        (bh[parent] + 1) as nat,
                    );
                    lemma_same_chain_trans(m0, m1, m2);
                    lemma_same_chain_trans(m0, m2, self.map());
                    lemma_same_chain_trans(old(self).map(), m0, self.map());
                    rounds = (rounds - 1) as nat;
                    assert(link_ok(self.map(), self.root, self.shape@, n, node));
                }
            } else {
                // Uncle is black so rotations are needed
                let parent_node_type = self.get_node_type(parent);
                if self.get_node_type(node) != parent_node_type {
                    // Left-right or right-left case
                    if parent_node_type == NodeType::LeftChild {
                        proof {
                            lemma_straighten_left(
                                m0,
                                self.root,
                                self.shape@,
                                n,
                                self.heights@,
                                node,
                                parent,
                                grandparent,
                            );
                        }
                        self.left_rotate(parent);
                    } else {
                        proof {
                            lemma_straighten_right(
                                m0,
                                self.root,
                                self.shape@,
                                n,
                                self.heights@,
                                node,
                                parent,
                                grandparent,
                            );
                        }
                        self.right_rotate(parent);
                    }
                    // The rotation has swapped parent and node
                    node = parent;
                    parent = self.node(node).parent.unwrap();
                }
                let ghost m1 = self.map();
                let ghost sh1 = self.shape@;
                let ghost root1 = self.root;
                proof {
                    lemma_same_chain_trans(old(self).map(), m0, m1);
                    assert(link_ok(m1, root1, sh1, n, node));
                    assert(link_ok(m1, root1, sh1, n, parent));
                    assert(link_ok(m1, root1, sh1, n, grandparent));
                }
                // Uncle is black so rotate the grandparent away from the conflict
                self.set_color(parent, Color::BLACK);
                let ghost m2 = self.map();
                self.set_color(grandparent, Color::RED);
                let ghost m3 = self.map();
                if self.get_node_type(parent) == NodeType::LeftChild {
                    proof {
                        lemma_lift_left(m1, root1, sh1, n, self.heights@, node, parent, grandparent);
                    }
                    self.right_rotate(grandparent);
                } else {
                    proof {
                        lemma_lift_right(m1, root1, sh1, n, self.heights@, node, parent, grandparent);
                    }
                    self.left_rotate(grandparent);
                }
                proof {
                    let bh = self.heights@;
                    self.heights@ = bh.insert(parent, bh[grandparent]).insert(grandparent, bh[parent]);
                    lemma_colors_weaken(self.map(), self.heights@, Some(node));
                    rounds = (rounds - 1) as nat;
                    lemma_same_chain_trans(m1, m2, m3);
                    lemma_same_chain_trans(m1, m3, self.map());
                    lemma_same_chain_trans(old(self).map(), m1, self.map());
                }
            }
        }
        proof {
            assert(link_ok(self.map(), self.root, self.shape@, self.order@.len() as int, node));
            lemma_blacken_root(
                self.map(),
                self.root,
                self.shape@,
                self.order@.len() as int,
                self.heights@,
                node,
                self.root.unwrap(),
            );
        }
        let ghost m4 = self.map();
        let root = self.root.unwrap();
        let ghost was_red = m4[root].color == Color::RED;
        self.set_color(root, Color::BLACK);
        proof {
            if was_red {
                let bh = self.heights@;
                self.heights@ = bh.insert(root, (bh[root] + 1) as nat);
            }
            lemma_same_chain_trans(old(self).map(), m4, self.map());
        }
    }

    /// Creates a new root node for the tree and returns its handle. A tree
    /// that already has a root is left as it is, and the call fails.
    pub fn create_root(&mut self, value: T) -> (made: Result<NodeKey, TreeError>)
        requires
            old(self).wf(),
        ensures
            final(self).wf(),
            match made {
                Ok(k) => {
                    &&& old(self).root().is_none()
                    &&& final(self).root() == Some(k)
                    &&& final(self)@ == seq![k]
                    &&& final(self).map() == old(self).map().insert(
                        k,
                        Node::alone(value, Color::BLACK),
                    )
                    &&& final(self).contents() == old(self).contents().insert(k, value)
                },
                Err(e) => {
                    &&& e == TreeError::RootExists
                    &&& old(self).root().is_some()
                    &&& *final(self) == *old(self)
                },
            },
    {
        if self.has_root() {
            return Err(TreeError::RootExists);
        }
        proof {
            self.map().dom().lemma_len0_is_empty();
        }
        let root = self.nodes.insert(Node::new(value));
        self.set_color(root, Color::BLACK);
        self.root = Some(root);
        proof {
            self.order@ = seq![root];
            self.shape@ = Shape {
                pos: self.shape@.pos.insert(root, 0),
                lo: self.shape@.lo.insert(root, 0),
                hi: self.shape@.hi.insert(root, 1),
            };
            self.heights@ = self.heights@.insert(root, 2);
            let m = self.map();
            assert(m.dom() =~= set![root]);
            assert forall|k: NodeKey| m.dom().contains(k) implies #[trigger] link_ok(
                m,
                self.root,
                self.shape@,
                1,
                k,
            ) by {}
            assert forall|k: NodeKey| m.dom().contains(k) implies #[trigger] pos_ok(
                self.order@,
                self.shape@.pos,
                k,
            ) by {}
            assert forall|i: int| 0 <= i < self.order@.len() implies #[trigger] slot_ok(
                m,
                self.order@,
                self.shape@.pos,
                i,
            ) by {}
            assert forall|i: int| 0 <= i < self.order@.len() implies #[trigger] chain_ok(
                m,
                self.order@,
                i,
            ) by {}
            assert forall|k: NodeKey| m.dom().contains(k) implies #[trigger] color_ok(
                m,
                self.heights@,
                k,
                None,
                None,
            ) by {}
            assert(self.contents() =~= old(self).contents().insert(root, value));
        }
        Ok(root)
    }

    /// Creates a node with `value` immediately after `existing_node` in the
    /// order, rebalances the tree and returns the new handle. A handle that
    /// is not live, or a store that is full, leaves the tree as it is, and
    /// the call fails.
    pub fn insert_after(&mut self, existing_node: NodeKey, value: T) -> (made: Result<
        NodeKey,
        TreeError,
    >)
        requires
            old(self).wf(),
        ensures
            final(self).wf(),
            match made {
                Ok(k) => {
                    &&& old(self).contains(existing_node)
                    &&& old(self)@.len() < MAX_NODES
                    &&& !old(self).contains(k)
                    &&& final(self)@ == old(self)@.insert(old(self).index_of(existing_node) + 1, k)
                    &&& final(self).contents() == old(self).contents().insert(k, value)
                    &&& (final(self).map(), final(self).root()) == rebalanced(
                        placed_after(old(self).map(), existing_node, k, value),
                        old(self).root(),
                        k,
                        final(self)@.len(),
                    )
                },
                Err(e) => {
                    &&& e == (if old(self).contains(existing_node) {
                        TreeError::Full
                    } else {
                        TreeError::InvalidHandle
                    })
                    &&& old(self).contains(existing_node) ==> old(self)@.len() >= MAX_NODES
                    &&& *final(self) == *old(self)
                },
            },
    {
        if !self.nodes.contains_key(existing_node) {
            return Err(TreeError::InvalidHandle);
        }
        if self.nodes.len() >= MAX_NODES {
            return Err(TreeError::Full);
        }
        let ghost m0 = self.map();
        let ghost order0 = self.order@;
        let ghost sh0 = self.shape@;
        let ghost bh0 = self.heights@;
        let ghost n = order0.len() as int;
        let ghost i = sh0.pos[existing_node] + 1;
        proof {
            assert(pos_ok(order0, sh0.pos, existing_node));
            assert(chain_ok(m0, order0, i - 1));
            if i < n {
                assert(slot_ok(m0, order0, sh0.pos, i));
            }
            assert(link_ok(m0, self.root, sh0, n, existing_node));
            if m0[existing_node].right.is_some() {
                let r = m0[existing_node].right.unwrap();
                lemma_first_of_subtree(m0, self.root, sh0, order0, r);
            }
        }
        let new_node = self.nodes.insert(Node::new(value));
        let existing_node_next = self.node(existing_node).next;
        let ghost on_left = m0[existing_node].right.is_some();
        let ghost parent = if on_left {
            order0[i]
        } else {
            existing_node
        };
        if self.node(existing_node).right.is_none() {
            self.set_right(existing_node, Some(new_node));
            self.set_parent(new_node, Some(existing_node));
        } else {
            self.set_left(existing_node_next.unwrap(), Some(new_node));
            self.set_parent(new_node, existing_node_next);
        }
        self.set_next(new_node, existing_node_next);
        match self.node(new_node).next {
            Some(next) => self.set_prev(next, Some(new_node)),
            None => {},
        }
        self.set_prev(new_node, Some(existing_node));
        self.set_next(existing_node, Some(new_node));
        proof {
            self.order@ = order0.insert(i, new_node);
            self.shape@ = grown_shape(
                sh0,
                new_node,
                i,
                if on_left {
                    i + 1
                } else {
                    i
                },
            );
            self.heights@ = bh0.insert(new_node, 1);
            self.lemma_taken_in(*old(self), new_node, value, i, parent, on_left);
            assert(self.map() == placed_after(m0, existing_node, new_node, value));
        }
        let ghost m1 = self.map();
        self.insert_rebalance(new_node);
        proof {
            lemma_same_chain(m1, self.map(), self.order@, self.shape@.pos);
            assert(self.contents() =~= old(self).contents().insert(new_node, value)) by {
                assert forall|k: NodeKey| m1.dom().contains(k) implies self.map()[k].contents
                    == m1[k].contents by {
                    assert(same_chain_at(m1, self.map(), k));
                }
            }
        }
        Ok(new_node)
    }

    /// Creates a node with `value` immediately before `existing_node` in the
    /// order, rebalances the tree and returns the new handle. A handle that
    /// is not live, or a store that is full, leaves the tree as it is, and
    /// the call fails.
    pub fn insert_before(&mut self, existing_node: NodeKey, value: T) -> (made: Result<
        NodeKey,
        TreeError,
    >)
        requires
            old(self).wf(),
        ensures
            final(self).wf(),
            match made {
                Ok(k) => {
                    &&& old(self).contains(existing_node)
                    &&& old(self)@.len() < MAX_NODES
                    &&& !old(self).contains(k)
                    &&& final(self)@ == old(self)@.insert(old(self).index_of(existing_node), k)
                    &&& final(self).contents() == old(self).contents().insert(k, value)
                    &&& (final(self).map(), final(self).root()) == rebalanced(
                        placed_before(old(self).map(), existing_node, k, value),
                        old(self).root(),
                        k,
                        final(self)@.len(),
                    )
                },
                Err(e) => {
                    &&& e == (if old(self).contains(existing_node) {
                        TreeError::Full
                    } else {
                        TreeError::InvalidHandle
                    })
                    &&& old(self).contains(existing_node) ==> old(self)@.len() >= MAX_NODES
                    &&& *final(self) == *old(self)
                },
            },
    {
        if !self.nodes.contains_key(existing_node) {
            return Err(TreeError::InvalidHandle);
        }
        if self.nodes.len() >= MAX_NODES {
            return Err(TreeError::Full);
        }
        let ghost m0 = self.map();
        let ghost order0 = self.order@;
        let ghost sh0 = self.shape@;
        let ghost bh0 = self.heights@;
        let ghost n = order0.len() as int;
        let ghost i = sh0.pos[existing_node];
        proof {
            assert(pos_ok(order0, sh0.pos, existing_node));
            assert(chain_ok(m0, order0, i));
            if i > 0 {
                assert(slot_ok(m0, order0, sh0.pos, i - 1));
            }
            assert(link_ok(m0, self.root, sh0, n, existing_node));
            if m0[existing_node].left.is_some() {
                let l = m0[existing_node].left.unwrap();
                lemma_last_of_subtree(m0, self.root, sh0, order0, l);
            }
        }
        let new_node = self.nodes.insert(Node::new(value));
        let existing_node_prev = self.node(existing_node).prev;
        let ghost on_left = m0[existing_node].left.is_none();
        let ghost parent = if on_left {
            existing_node
        } else {
            order0[i - 1]
        };
        if self.node(existing_node).left.is_none() {
            self.set_left(existing_node, Some(new_node));
            self.set_parent(new_node, Some(existing_node));
        } else {
            self.set_right(existing_node_prev.unwrap(), Some(new_node));
            self.set_parent(new_node, existing_node_prev);
        }
        self.set_prev(new_node, existing_node_prev);
        if existing_node_prev.is_some() {
            self.set_next(existing_node_prev.unwrap(), Some(new_node));
        }
        self.set_next(new_node, Some(existing_node));
        self.set_prev(existing_node, Some(new_node));
        proof {
            self.order@ = order0.insert(i, new_node);
            self.shape@ = grown_shape(
                sh0,
                new_node,
                i,
                if on_left {
                    i + 1
                } else {
                    i
                },
            );
            self.heights@ = bh0.insert(new_node, 1);
            self.lemma_taken_in(*old(self), new_node, value, i, parent, on_left);
            assert(self.map() == placed_before(m0, existing_node, new_node, value));
        }
        let ghost m1 = self.map();
        self.insert_rebalance(new_node);
        proof {
            lemma_same_chain(m1, self.map(), self.order@, self.shape@.pos);
            assert(self.contents() =~= old(self).contents().insert(new_node, value)) by {
                assert forall|k: NodeKey| m1.dom().contains(k) implies self.map()[k].contents
                    == m1[k].contents by {
                    assert(same_chain_at(m1, self.map(), k));
                }
            }
        }
        Ok(new_node)
    }

    /// Once the links of the new leaf `x` have been set as `placed` says and
    /// the leaf recorded at index `i`, the tree is sound but for the color
    /// of `x` and its parent.
    proof fn lemma_taken_in(
        self,
        before: Self,
        x: NodeKey,
        value: T,
        i: int,
        parent: NodeKey,
        on_left: bool,
    )
        requires
            before.wf(),
            !before.contains(x),
            placeable(before.map(), before.order@, i, parent, on_left),
            self.nodes.wf(),
            self.root == before.root,
            self.map() =~= placed(
                before.map(),
                x,
                value,
                parent,
                on_left,
                link_to(before.order@, i - 1),
                link_to(before.order@, i),
            ),
            self.order@ == before.order@.insert(i, x),
            self.shape@ == grown_shape(
                before.shape@,
                x,
                i,
                if on_left {
                    i + 1
                } else {
                    i
                },
            ),
            self.heights@ == before.heights@.insert(x, 1),
        ensures
            self.linked(),
            self.threaded(),
            self.contains(x),
            colors_inv(self.map(), self.heights@, None, None, Some(x)),
            self.map()[x].color == Color::RED,
            color_of(self.map(), self.root) == Color::BLACK,
            self.contents() =~= before.contents().insert(x, value),
    {
        let m0 = before.map();
        let order0 = before.order@;
        let sh0 = before.shape@;
        let n = order0.len() as int;
        lemma_placed_tree(m0, self.root, sh0, order0, x, value, i, parent, on_left);
        lemma_placed_chain(m0, sh0, order0, x, value, i, parent, on_left);
        if on_left {
            assert(slot_ok(m0, order0, sh0.pos, i));
        } else {
            assert(slot_ok(m0, order0, sh0.pos, i - 1));
        }
        lemma_placed_colors(
            m0,
            self.root,
            sh0,
            n,
            before.heights@,
            x,
            value,
            parent,
            on_left,
            link_to(order0, i - 1),
            link_to(order0, i),
        );
        assert(self.map().dom() =~= m0.dom().insert(x));
    }
}

} // verus!
