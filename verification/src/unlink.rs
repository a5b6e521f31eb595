//! Taking a node with at most one child out of the tree: what becomes of
//! the links, the order chain, the recorded shape and the colors.

use vstd::prelude::*;
use crate::model::{
    aligned, chain_inv, chain_ok, color_of, color_ok, colors_inv, link_ok, pos_ok, slot_ok,
    tree_inv, Shape,
};
use crate::insert::with_color;
use crate::node::{Color, Node, NodeKey};
use crate::fixup::made_up;
use crate::swap::{swap_link, swapped, with_slot};
use crate::tree::node_type_of;

verus! {

/// The one child of a node that has at most one.
pub open spec fn only_child<T: Copy>(m: Map<NodeKey, Node<T>>, v: NodeKey) -> Option<NodeKey> {
    if m[v].left.is_some() {
        m[v].left
    } else {
        m[v].right
    }
}

/// The nodes after `v`, which has at most one child, has left the tree: its
/// child, painted black, hangs in its place, and its neighbours in the
/// order chain are linked to each other.
pub open spec fn unlinked<T: Copy>(m: Map<NodeKey, Node<T>>, v: NodeKey) -> Map<NodeKey, Node<T>> {
    let c = only_child(m, v);
    Map::new(
        |k: NodeKey| k != v && m.dom().contains(k),
        |k: NodeKey|
            Node {
                parent: if Some(k) == c {
                    m[v].parent
                } else {
                    m[k].parent
                },
                left: if m[k].left == Some(v) {
                    c
                } else {
                    m[k].left
                },
                right: if m[k].right == Some(v) {
                    c
                } else {
                    m[k].right
                },
                prev: if m[k].prev == Some(v) {
                    m[v].prev
                } else {
                    m[k].prev
                },
                next: if m[k].next == Some(v) {
                    m[v].next
                } else {
                    m[k].next
                },
                color: if Some(k) == c {
                    Color::BLACK
                } else {
                    m[k].color
                },
                contents: m[k].contents,
            },
    )
}

/// The root after `v` has left the tree.
pub open spec fn unlinked_root<T: Copy>(
    m: Map<NodeKey, Node<T>>,
    root: Option<NodeKey>,
    v: NodeKey,
) -> Option<NodeKey> {
    if root == Some(v) {
        only_child(m, v)
    } else {
        root
    }
}

/// An index or bound that moves down by one if it is above `from`.
pub open spec fn shift_down(x: int, from: int) -> int {
    if x > from {
        x - 1
    } else {
        x
    }
}

/// The shape after the node at index `i` has left.
pub open spec fn shrunk_shape(sh: Shape, i: int) -> Shape {
    Shape {
        pos: Map::total(|k: NodeKey| shift_down(sh.pos[k], i)),
        lo: Map::total(|k: NodeKey| shift_down(sh.lo[k], i)),
        hi: Map::total(|k: NodeKey| shift_down(sh.hi[k], i)),
    }
}

/// The heights after `v` has left: its child, now black, has the height
/// that `v` had.
pub open spec fn unlinked_heights<T: Copy>(
    m: Map<NodeKey, Node<T>>,
    bh: Map<NodeKey, nat>,
    v: NodeKey,
) -> Map<NodeKey, nat> {
    match only_child(m, v) {
        Some(c) => bh.insert(c, bh[v]),
        None => bh,
    }
}

/// A node with at most one child leaves a binary tree behind, whose
/// in-order sequence is the old one without that node.
pub proof fn lemma_unlinked_tree<T: Copy>(
    m: Map<NodeKey, Node<T>>,
    root: Option<NodeKey>,
    sh: Shape,
    order: Seq<NodeKey>,
    v: NodeKey,
)
    requires
        tree_inv(m, root, sh, order.len() as int),
        aligned(m, order, sh.pos),
        m.dom().contains(v),
        m[v].left.is_none() || m[v].right.is_none(),
    ensures
        tree_inv(
            unlinked(m, v),
            unlinked_root(m, root, v),
            shrunk_shape(sh, sh.pos[v]),
            order.len() - 1,
        ),
        aligned(unlinked(m, v), order.remove(sh.pos[v]), shrunk_shape(sh, sh.pos[v]).pos),
{
    let n = order.len() as int;
    let i = sh.pos[v];
    let m2 = unlinked(m, v);
    let root2 = unlinked_root(m, root, v);
    let sh2 = shrunk_shape(sh, i);
    let order2 = order.remove(i);
    assert(link_ok(m, root, sh, n, v));
    assert(pos_ok(order, sh.pos, v));
    if m[v].parent.is_some() {
        assert(link_ok(m, root, sh, n, m[v].parent.unwrap()));
    }
    if only_child(m, v).is_some() {
        assert(link_ok(m, root, sh, n, only_child(m, v).unwrap()));
    }
    assert forall|k: NodeKey| m2.dom().contains(k) implies #[trigger] link_ok(m2, root2, sh2, n - 1, k) by {
        assert(link_ok(m, root, sh, n, k));
        assert(pos_ok(order, sh.pos, k));
        if m[k].left.is_some() {
            assert(link_ok(m, root, sh, n, m[k].left.unwrap()));
        }
        if m[k].right.is_some() {
            assert(link_ok(m, root, sh, n, m[k].right.unwrap()));
        }
        if m[k].parent.is_some() {
            assert(link_ok(m, root, sh, n, m[k].parent.unwrap()));
        }
    }
    if root.is_some() {
        assert(link_ok(m, root, sh, n, root.unwrap()));
    }
    assert forall|k: NodeKey| m2.dom().contains(k) implies #[trigger] pos_ok(order2, sh2.pos, k) by {
        assert(pos_ok(order, sh.pos, k));
    }
    assert forall|j: int| 0 <= j < order2.len() implies #[trigger] slot_ok(m2, order2, sh2.pos, j) by {
        if j < i {
            assert(slot_ok(m, order, sh.pos, j));
        } else {
            assert(slot_ok(m, order, sh.pos, j + 1));
        }
    }
}

/// A node that leaves the order chain, its neighbours linked to each other,
/// leaves the chain of the others behind.
pub proof fn lemma_unlinked_chain<T: Copy>(
    m: Map<NodeKey, Node<T>>,
    order: Seq<NodeKey>,
    index: Map<NodeKey, int>,
    v: NodeKey,
)
    requires
        chain_inv(m, order),
        aligned(m, order, index),
        m.dom().contains(v),
    ensures
        chain_inv(unlinked(m, v), order.remove(index[v])),
{
    let i = index[v];
    let m2 = unlinked(m, v);
    let order2 = order.remove(i);
    assert(pos_ok(order, index, v));
    assert(chain_ok(m, order, i));
    assert forall|j: int| 0 <= j < order2.len() implies #[trigger] chain_ok(m2, order2, j) by {
        let old_j = if j < i {
            j
        } else {
            j + 1
        };
        assert(chain_ok(m, order, old_j));
        assert(slot_ok(m, order, index, old_j));
        assert(slot_ok(m, order, index, i));
        if old_j > 0 {
            assert(slot_ok(m, order, index, old_j - 1));
        }
        if old_j + 1 < order.len() {
            assert(slot_ok(m, order, index, old_j + 1));
        }
    }
}

/// A node whose place is one black node short of nothing, or whose red
/// child makes up for it once painted black, leaves a balanced tree behind.
pub proof fn lemma_unlinked_colors<T: Copy>(
    m: Map<NodeKey, Node<T>>,
    root: Option<NodeKey>,
    sh: Shape,
    n: int,
    bh: Map<NodeKey, nat>,
    v: NodeKey,
)
    requires
        tree_inv(m, root, sh, n),
        colors_inv(m, bh, Some(v), None, None),
        color_of(m, root) == Color::BLACK,
        m.dom().contains(v),
        m[v].left.is_none() || m[v].right.is_none(),
        match only_child(m, v) {
            Some(c) => m[c].color == Color::RED && bh[v] == bh[c] + 1,
            None => bh[v] == 1,
        },
    ensures
        colors_inv(unlinked(m, v), unlinked_heights(m, bh, v), None, None, None),
        color_of(unlinked(m, v), unlinked_root(m, root, v)) == Color::BLACK,
{
    let m2 = unlinked(m, v);
    let bh2 = unlinked_heights(m, bh, v);
    assert(link_ok(m, root, sh, n, v));
    if only_child(m, v).is_some() {
        assert(link_ok(m, root, sh, n, only_child(m, v).unwrap()));
    }
    assert forall|k: NodeKey| m2.dom().contains(k) implies #[trigger] color_ok(
        m2,
        bh2,
        k,
        None,
        None,
    ) by {
        assert(color_ok(m, bh, k, None, None));
        assert(link_ok(m, root, sh, n, k));
        if m[k].left.is_some() {
            assert(link_ok(m, root, sh, n, m[k].left.unwrap()));
        }
        if m[k].right.is_some() {
            assert(link_ok(m, root, sh, n, m[k].right.unwrap()));
        }
    }
    if root.is_some() {
        assert(link_ok(m, root, sh, n, root.unwrap()));
    }
}

/// In a balanced tree the only child of a node is a red leaf, and the node
/// itself is black.
pub proof fn lemma_lone_child<T: Copy>(
    m: Map<NodeKey, Node<T>>,
    root: Option<NodeKey>,
    sh: Shape,
    n: int,
    bh: Map<NodeKey, nat>,
    v: NodeKey,
    c: NodeKey,
)
    requires
        tree_inv(m, root, sh, n),
        colors_inv(m, bh, None, None, None),
        m.dom().contains(v),
        m[v].left.is_none() || m[v].right.is_none(),
        only_child(m, v) == Some(c),
    ensures
        m.dom().contains(c),
        m[c].color == Color::RED,
        m[v].color == Color::BLACK,
        m[c].left.is_none(),
        m[c].right.is_none(),
        bh[v] == bh[c] + 1,
{
    assert(link_ok(m, root, sh, n, v));
    assert(link_ok(m, root, sh, n, c));
    assert(color_ok(m, bh, v, None, None));
    assert(color_ok(m, bh, c, None, None));
    if m[c].left.is_some() {
        let l = m[c].left.unwrap();
        assert(color_ok(m, bh, l, None, None));
        assert(link_ok(m, root, sh, n, l));
        lemma_height_positive(m, root, sh, n, bh, m[l].left);
    }
    if m[c].right.is_some() {
        let r = m[c].right.unwrap();
        assert(color_ok(m, bh, r, None, None));
        assert(link_ok(m, root, sh, n, r));
        lemma_height_positive(m, root, sh, n, bh, m[r].left);
    }
    lemma_height_positive(m, root, sh, n, bh, m[c].left);
}

/// The black-height below a link of a live node is at least one.
pub proof fn lemma_height_positive<T: Copy>(
    m: Map<NodeKey, Node<T>>,
    root: Option<NodeKey>,
    sh: Shape,
    n: int,
    bh: Map<NodeKey, nat>,
    link: Option<NodeKey>,
)
    requires
        colors_inv(m, bh, None, None, None),
        link.is_some() ==> m.dom().contains(link.unwrap()),
    ensures
        crate::model::height_of(bh, link) >= 1,
{
    if link.is_some() {
        assert(color_ok(m, bh, link.unwrap(), None, None));
    }
}

/// The nodes and the root after `v`, which has at most one child, has left
/// a tree of `count` nodes: a black leaf that is not the root first has the
/// shortage that it leaves behind made up for.
pub open spec fn departed<T: Copy>(
    m: Map<NodeKey, Node<T>>,
    root: Option<NodeKey>,
    v: NodeKey,
    count: nat,
) -> (Map<NodeKey, Node<T>>, Option<NodeKey>) {
    let (m1, root1) = if only_child(m, v).is_none() && root != Some(v) && m[v].color
        == Color::BLACK {
        made_up(m, root, v, 2 * count)
    } else {
        (m, root)
    };
    (unlinked(m1, v), unlinked_root(m1, root1, v))
}

/// The nodes and the root after `v` has been deleted from a tree of `count`
/// nodes: a node with two children first changes places with the node that
/// follows it in the order.
pub open spec fn deleted<T: Copy>(
    m: Map<NodeKey, Node<T>>,
    root: Option<NodeKey>,
    v: NodeKey,
    count: nat,
) -> (Map<NodeKey, Node<T>>, Option<NodeKey>) {
    if m[v].left.is_some() && m[v].right.is_some() {
        let next = m[v].next.unwrap();
        departed(swapped(m, v, next), swap_link(root, v, next), v, count)
    } else {
        departed(m, root, v, count)
    }
}

/// The nodes after the neighbours of `v` in the order chain have been
/// linked to each other.
pub open spec fn spliced<T: Copy>(m: Map<NodeKey, Node<T>>, v: NodeKey) -> Map<NodeKey, Node<T>> {
    let m1 = match m[v].next {
        Some(next) => m.insert(next, Node { prev: m[v].prev, ..m[next] }),
        None => m,
    };
    match m[v].prev {
        Some(prev) => m1.insert(prev, Node { next: m[v].next, ..m1[prev] }),
        None => m1,
    }
}

/// The nodes after `v` has handed its place under its parent to its only
/// child, if it has one, has been taken out of the order chain and out of
/// the store, and the child has been painted black.
pub open spec fn unlink_steps<T: Copy>(m: Map<NodeKey, Node<T>>, v: NodeKey) -> Map<
    NodeKey,
    Node<T>,
> {
    let c = only_child(m, v);
    let m1 = with_slot(m, m[v].parent, node_type_of(m, v), c);
    let m2 = match c {
        Some(child) => m1.insert(child, Node { parent: m[v].parent, ..m1[child] }),
        None => m1,
    };
    let m3 = spliced(m2, v).remove(v);
    match c {
        Some(child) => with_color(m3, child, Color::BLACK),
        None => m3,
    }
}

/// The nodes after the root `v` has changed places with its only child, the
/// child has let go of its children, and `v` has been taken out of the
/// order chain and out of the store.
pub open spec fn unlink_root_steps<T: Copy>(m: Map<NodeKey, Node<T>>, v: NodeKey) -> Map<
    NodeKey,
    Node<T>,
> {
    let c = only_child(m, v).unwrap();
    let m1 = swapped(m, v, c);
    let m2 = m1.insert(c, Node { left: None, ..m1[c] });
    let m3 = m2.insert(c, Node { right: None, ..m2[c] });
    spliced(m3, v).remove(v)
}

/// Step by step, a node with at most one child leaves the tree as
/// `unlinked` says.
pub proof fn lemma_unlink_steps<T: Copy>(
    m: Map<NodeKey, Node<T>>,
    root: Option<NodeKey>,
    sh: Shape,
    n: int,
    order: Seq<NodeKey>,
    index: Map<NodeKey, int>,
    v: NodeKey,
)
    requires
        tree_inv(m, root, sh, n),
        chain_inv(m, order),
        aligned(m, order, index),
        m.dom().contains(v),
        m[v].left.is_none() || m[v].right.is_none(),
    ensures
        unlink_steps(m, v) =~= unlinked(m, v),
{
    let c = only_child(m, v);
    let res = unlink_steps(m, v);
    let goal = unlinked(m, v);
    assert(link_ok(m, root, sh, n, v));
    if c.is_some() {
        assert(link_ok(m, root, sh, n, c.unwrap()));
    }
    if m[v].parent.is_some() {
        assert(link_ok(m, root, sh, n, m[v].parent.unwrap()));
    }
    let i = index[v];
    assert(pos_ok(order, index, v));
    assert(chain_ok(m, order, i));
    if i > 0 {
        assert(slot_ok(m, order, index, i - 1));
        assert(chain_ok(m, order, i - 1));
    }
    if i + 1 < order.len() {
        assert(slot_ok(m, order, index, i + 1));
        assert(chain_ok(m, order, i + 1));
    }
    assert(res.dom() =~= goal.dom());
    assert forall|k: NodeKey| goal.dom().contains(k) implies #[trigger] res[k] == goal[k] by {
        assert(link_ok(m, root, sh, n, k));
        assert(pos_ok(order, index, k));
        assert(chain_ok(m, order, index[k]));
        assert(slot_ok(m, order, index, i));
        if index[k] > 0 {
            assert(slot_ok(m, order, index, index[k] - 1));
        }
        if index[k] + 1 < order.len() {
            assert(slot_ok(m, order, index, index[k] + 1));
        }
    }
}

/// Step by step, a root with one child, a leaf, leaves the tree as
/// `unlinked` says.
pub proof fn lemma_unlink_root_steps<T: Copy>(
    m: Map<NodeKey, Node<T>>,
    root: Option<NodeKey>,
    sh: Shape,
    n: int,
    order: Seq<NodeKey>,
    index: Map<NodeKey, int>,
    v: NodeKey,
    c: NodeKey,
)
    requires
        tree_inv(m, root, sh, n),
        chain_inv(m, order),
        aligned(m, order, index),
        m.dom().contains(v),
        root == Some(v),
        m[v].left.is_none() || m[v].right.is_none(),
        only_child(m, v) == Some(c),
        m[c].left.is_none(),
        m[c].right.is_none(),
        m[v].color == Color::BLACK,
    ensures
        unlink_root_steps(m, v) =~= unlinked(m, v),
{
    let res = unlink_root_steps(m, v);
    let goal = unlinked(m, v);
    assert(link_ok(m, root, sh, n, v));
    assert(link_ok(m, root, sh, n, c));
    let i = index[v];
    assert(pos_ok(order, index, v));
    assert(chain_ok(m, order, i));
    if i > 0 {
        assert(slot_ok(m, order, index, i - 1));
        assert(chain_ok(m, order, i - 1));
    }
    if i + 1 < order.len() {
        assert(slot_ok(m, order, index, i + 1));
        assert(chain_ok(m, order, i + 1));
    }
    assert(res.dom() =~= goal.dom());
    assert forall|k: NodeKey| goal.dom().contains(k) implies #[trigger] res[k] == goal[k] by {
        assert(link_ok(m, root, sh, n, k));
        assert(pos_ok(order, index, k));
        assert(chain_ok(m, order, index[k]));
        assert(slot_ok(m, order, index, i));
        if index[k] > 0 {
            assert(slot_ok(m, order, index, index[k] - 1));
        }
        if index[k] + 1 < order.len() {
            assert(slot_ok(m, order, index, index[k] + 1));
        }
    }
}

} // verus!
