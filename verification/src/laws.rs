//! What a well-formed tree promises, stated over the links and colors of
//! its nodes alone.

use vstd::prelude::*;
use crate::model::{chain_ok, color_of, color_ok, height_of, link_ok, link_to, pos_ok, slot_ok};
use crate::node::{Color, Node, NodeKey};
use crate::tree::Tree;

verus! {

/// The in-order walk (left subtree, node, right subtree) of the subtree
/// under `link`, followed at most `depth` levels down.
pub open spec fn in_order_walk<T: Copy>(
    m: Map<NodeKey, Node<T>>,
    link: Option<NodeKey>,
    depth: nat,
) -> Seq<NodeKey>
    decreases depth,
{
    match link {
        Some(k) => if depth == 0 || !m.dom().contains(k) {
            Seq::empty()
        } else {
            in_order_walk(m, m[k].left, (depth - 1) as nat).push(k) + in_order_walk(
                m,
                m[k].right,
                (depth - 1) as nat,
            )
        },
        None => Seq::empty(),
    }
}

/// The nodes met by following `next` from `link`, at most `steps` of them.
pub open spec fn next_walk<T: Copy>(
    m: Map<NodeKey, Node<T>>,
    link: Option<NodeKey>,
    steps: nat,
) -> Seq<NodeKey>
    decreases steps,
{
    match link {
        Some(k) => if steps == 0 || !m.dom().contains(k) {
            Seq::empty()
        } else {
            seq![k] + next_walk(m, m[k].next, (steps - 1) as nat)
        },
        None => Seq::empty(),
    }
}

/// The node reached from `link` by going left as long as there is a left
/// child, at most `depth` times.
pub open spec fn leftmost_from<T: Copy>(
    m: Map<NodeKey, Node<T>>,
    link: Option<NodeKey>,
    depth: nat,
) -> Option<NodeKey>
    decreases depth,
{
    match link {
        Some(k) => if depth == 0 || !m.dom().contains(k) || m[k].left.is_none() {
            link
        } else {
            leftmost_from(m, m[k].left, (depth - 1) as nat)
        },
        None => None,
    }
}

/// The number of black nodes on every path from `link` down to a missing
/// child, the missing child counted as one; none if two such paths differ
/// in it, or if a path is longer than `depth`.
pub open spec fn black_height<T: Copy>(
    m: Map<NodeKey, Node<T>>,
    link: Option<NodeKey>,
    depth: nat,
) -> Option<nat>
    decreases depth,
{
    match link {
        Some(k) => if depth == 0 || !m.dom().contains(k) {
            None
        } else {
            let left = black_height(m, m[k].left, (depth - 1) as nat);
            let right = black_height(m, m[k].right, (depth - 1) as nat);
            if left.is_some() && left == right {
                Some(
                    if m[k].color == Color::BLACK {
                        left.unwrap() + 1
                    } else {
                        left.unwrap()
                    },
                )
            } else {
                None
            }
        },
        None => Some(1),
    }
}

/// The in-order walk of a subtree is the stretch of the view that the
/// subtree covers.
proof fn lemma_in_order_of_subtree<T: Copy>(tree: Tree<T>, link: Option<NodeKey>, depth: nat)
    requires
        tree.wf(),
        link.is_some() ==> tree.contains(link.unwrap()) && depth >= tree.shape().hi[link.unwrap()]
            - tree.shape().lo[link.unwrap()],
    ensures
        in_order_walk(tree.map(), link, depth) == (match link {
            Some(k) => tree@.subrange(tree.shape().lo[k], tree.shape().hi[k]),
            None => Seq::empty(),
        }),
    decreases depth,
{
    let m = tree.map();
    let sh = tree.shape();
    let n = tree@.len() as int;
    if link.is_some() {
        let k = link.unwrap();
        assert(link_ok(m, tree.root(), sh, n, k));
        assert(pos_ok(tree@, sh.pos, k));
        if m[k].left.is_some() {
            assert(link_ok(m, tree.root(), sh, n, m[k].left.unwrap()));
        }
        if m[k].right.is_some() {
            assert(link_ok(m, tree.root(), sh, n, m[k].right.unwrap()));
        }
        lemma_in_order_of_subtree(tree, m[k].left, (depth - 1) as nat);
        lemma_in_order_of_subtree(tree, m[k].right, (depth - 1) as nat);
        assert(in_order_walk(m, link, depth) =~= tree@.subrange(sh.lo[k], sh.hi[k]));
    }
}

/// Following `next` from index `i` yields the view from `i` on.
proof fn lemma_next_walk_from<T: Copy>(tree: Tree<T>, i: int, steps: nat)
    requires
        tree.wf(),
        0 <= i <= tree@.len(),
        i + steps >= tree@.len(),
    ensures
        next_walk(tree.map(), link_to(tree@, i), steps) == tree@.subrange(i, tree@.len() as int),
    decreases steps,
{
    let m = tree.map();
    if i < tree@.len() {
        assert(chain_ok(m, tree@, i));
        lemma_next_walk_from(tree, i + 1, (steps - 1) as nat);
        assert(next_walk(m, link_to(tree@, i), steps) =~= tree@.subrange(i, tree@.len() as int));
    } else {
        assert(next_walk(m, link_to(tree@, i), steps) =~= tree@.subrange(i, tree@.len() as int));
    }
}

/// Going left from a node ends at the first node that its subtree covers.
proof fn lemma_leftmost_of_subtree<T: Copy>(tree: Tree<T>, k: NodeKey, depth: nat)
    requires
        tree.wf(),
        tree.contains(k),
        depth >= tree.shape().hi[k] - tree.shape().lo[k],
    ensures
        leftmost_from(tree.map(), Some(k), depth) == link_to(tree@, tree.shape().lo[k]),
    decreases depth,
{
    let m = tree.map();
    let sh = tree.shape();
    let n = tree@.len() as int;
    assert(link_ok(m, tree.root(), sh, n, k));
    assert(pos_ok(tree@, sh.pos, k));
    if m[k].left.is_some() {
        assert(link_ok(m, tree.root(), sh, n, m[k].left.unwrap()));
        lemma_leftmost_of_subtree(tree, m[k].left.unwrap(), (depth - 1) as nat);
    }
}

/// The black-height below a link is the one that the tree records.
proof fn lemma_black_height_of_subtree<T: Copy>(tree: Tree<T>, link: Option<NodeKey>, depth: nat)
    requires
        tree.wf(),
        link.is_some() ==> tree.contains(link.unwrap()) && depth >= tree.shape().hi[link.unwrap()]
            - tree.shape().lo[link.unwrap()],
    ensures
        black_height(tree.map(), link, depth) == Some(height_of(tree.heights(), link)),
    decreases depth,
{
    let m = tree.map();
    let sh = tree.shape();
    let n = tree@.len() as int;
    if link.is_some() {
        let k = link.unwrap();
        assert(link_ok(m, tree.root(), sh, n, k));
        assert(color_ok(m, tree.heights(), k, None, None));
        if m[k].left.is_some() {
            assert(link_ok(m, tree.root(), sh, n, m[k].left.unwrap()));
        }
        if m[k].right.is_some() {
            assert(link_ok(m, tree.root(), sh, n, m[k].right.unwrap()));
        }
        lemma_black_height_of_subtree(tree, m[k].left, (depth - 1) as nat);
        lemma_black_height_of_subtree(tree, m[k].right, (depth - 1) as nat);
    }
}

impl<T: Copy> Tree<T> {
    /// Order consistency: walking `next` from the leftmost node yields
    /// exactly the live nodes, each once, in the order of an in-order walk
    /// of the tree; both are the view of the tree.
    pub proof fn lemma_order_consistency(self)
        requires
            self.wf(),
        ensures
            in_order_walk(self.map(), self.root(), self@.len()) == self@,
            next_walk(
                self.map(),
                leftmost_from(self.map(), self.root(), self@.len()),
                self@.len(),
            ) == self@,
            self@.no_duplicates(),
            forall|k: NodeKey| self.contains(k) <==> self@.contains(k),
    {
        let m = self.map();
        let sh = self.shape();
        let n = self@.len() as int;
        if self.root().is_some() {
            let r = self.root().unwrap();
            assert(link_ok(m, self.root(), sh, n, r));
            lemma_leftmost_of_subtree(self, r, self@.len());
        }
        lemma_in_order_of_subtree(self, self.root(), self@.len());
        assert(self@.subrange(0, n) =~= self@);
        lemma_next_walk_from(self, 0, self@.len());
        assert forall|i: int, j: int| 0 <= i < n && 0 <= j < n && i != j implies self@[i]
            != self@[j] by {
            assert(slot_ok(m, self@, sh.pos, i));
            assert(slot_ok(m, self@, sh.pos, j));
        }
        assert forall|k: NodeKey| self.contains(k) <==> self@.contains(k) by {
            if self.contains(k) {
                assert(pos_ok(self@, sh.pos, k));
            }
            if self@.contains(k) {
                let i = choose|i: int| 0 <= i < self@.len() && self@[i] == k;
                assert(slot_ok(m, self@, sh.pos, i));
            }
        }
    }

    /// The index of a live node is where the view holds it, and nowhere
    /// else does the view hold it.
    pub proof fn lemma_index_of(self, node: NodeKey)
        requires
            self.wf(),
            self.contains(node),
        ensures
            0 <= self.index_of(node) < self@.len(),
            self@[self.index_of(node)] == node,
            forall|i: int| 0 <= i < self@.len() && self@[i] == node ==> i == self.index_of(node),
    {
        assert(pos_ok(self@, self.shape().pos, node));
        assert forall|i: int| 0 <= i < self@.len() && self@[i] == node implies i == self.index_of(
            node,
        ) by {
            assert(slot_ok(self.map(), self@, self.shape().pos, i));
        }
    }

    /// Black-height: below every live node, every path down to a missing
    /// child crosses the same number of black nodes.
    pub proof fn lemma_black_height(self, node: NodeKey)
        requires
            self.wf(),
            self.contains(node),
        ensures
            black_height(self.map(), Some(node), self@.len()).is_some(),
            black_height(self.map(), self.map()[node].left, self@.len()) == black_height(
                self.map(),
                self.map()[node].right,
                self@.len(),
            ),
    {
        let m = self.map();
        let sh = self.shape();
        let n = self@.len() as int;
        assert(link_ok(m, self.root(), sh, n, node));
        assert(color_ok(m, self.heights(), node, None, None));
        if m[node].left.is_some() {
            assert(link_ok(m, self.root(), sh, n, m[node].left.unwrap()));
        }
        if m[node].right.is_some() {
            assert(link_ok(m, self.root(), sh, n, m[node].right.unwrap()));
        }
        lemma_black_height_of_subtree(self, Some(node), self@.len());
        lemma_black_height_of_subtree(self, m[node].left, self@.len());
        lemma_black_height_of_subtree(self, m[node].right, self@.len());
    }

    /// No red-red: a red node has no red child.
    pub proof fn lemma_no_red_red(self, node: NodeKey)
        requires
            self.wf(),
            self.contains(node),
            color_of(self.map(), Some(node)) == Color::RED,
        ensures
            color_of(self.map(), self.map()[node].left) == Color::BLACK,
            color_of(self.map(), self.map()[node].right) == Color::BLACK,
    {
        assert(color_ok(self.map(), self.heights(), node, None, None));
    }

    /// Root color: the root of a tree is black.
    pub proof fn lemma_root_black(self)
        requires
            self.wf(),
        ensures
            color_of(self.map(), self.root()) == Color::BLACK,
            self.root().is_some() ==> self.contains(self.root().unwrap())
                && self.map()[self.root().unwrap()].parent.is_none(),
            self.root().is_some() <==> self@.len() > 0,
    {
        if self.root().is_some() {
            assert(link_ok(
                self.map(),
                self.root(),
                self.shape(),
                self@.len() as int,
                self.root().unwrap(),
            ));
        }
    }

    /// The links among the nodes agree: a child names its parent, and a
    /// parent holds each child in one of its slots.
    pub proof fn lemma_links_agree(self, node: NodeKey)
        requires
            self.wf(),
            self.contains(node),
        ensures
            match self.map()[node].left {
                Some(l) => self.contains(l) && self.map()[l].parent == Some(node),
                None => true,
            },
            match self.map()[node].right {
                Some(r) => self.contains(r) && self.map()[r].parent == Some(node),
                None => true,
            },
            match self.map()[node].parent {
                Some(q) => self.contains(q) && (self.map()[q].left == Some(node)
                    || self.map()[q].right == Some(node)),
                None => self.root() == Some(node),
            },
    {
        assert(link_ok(self.map(), self.root(), self.shape(), self@.len() as int, node));
    }
}

} // verus!
