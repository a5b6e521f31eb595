//! Taking a new leaf into the tree: where it is hung, how the order chain
//! takes it in, and what that does to the recorded shape.

use vstd::prelude::*;
use crate::model::{
    aligned, chain_inv, chain_ok, color_of, color_ok, colors_inv, link_ok, link_to, pos_ok,
    slot_ok, tree_inv, Shape,
};
use crate::node::{Color, Node, NodeKey};

verus! {

/// An index or bound that moves up by one if it is at or above `from`.
pub open spec fn shift_up(x: int, from: int) -> int {
    if x >= from {
        x + 1
    } else {
        x
    }
}

/// The shape after node `x` has entered at index `i`: later nodes move up by
/// one, and so do the subtree bounds at or above `edge`.
pub open spec fn grown_shape(sh: Shape, x: NodeKey, i: int, edge: int) -> Shape {
    Shape {
        pos: Map::total(
            |k: NodeKey|
                if k == x {
                    i
                } else {
                    shift_up(sh.pos[k], i)
                },
        ),
        lo: Map::total(
            |k: NodeKey|
                if k == x {
                    i
                } else {
                    shift_up(sh.lo[k], edge)
                },
        ),
        hi: Map::total(
            |k: NodeKey|
                if k == x {
                    i + 1
                } else {
                    shift_up(sh.hi[k], edge)
                },
        ),
    }
}

/// The nodes after the red leaf `x` has been hung under `parent`, on its
/// left if `on_left` and else on its right, and linked into the order chain
/// between `before` and `after`.
pub open spec fn placed<T: Copy>(
    m: Map<NodeKey, Node<T>>,
    x: NodeKey,
    value: T,
    parent: NodeKey,
    on_left: bool,
    before: Option<NodeKey>,
    after: Option<NodeKey>,
) -> Map<NodeKey, Node<T>> {
    Map::new(
        |k: NodeKey| k == x || m.dom().contains(k),
        |k: NodeKey|
            if k == x {
                Node {
                    parent: Some(parent),
                    left: None,
                    right: None,
                    contents: value,
                    prev: before,
                    next: after,
                    color: Color::RED,
                }
            } else {
                Node {
                    left: if on_left && k == parent {
                        Some(x)
                    } else {
                        m[k].left
                    },
                    right: if !on_left && k == parent {
                        Some(x)
                    } else {
                        m[k].right
                    },
                    prev: if after == Some(k) {
                        Some(x)
                    } else {
                        m[k].prev
                    },
                    next: if before == Some(k) {
                        Some(x)
                    } else {
                        m[k].next
                    },
                    ..m[k]
                }
            },
    )
}

/// Whether hanging a new leaf at index `i` of `order` under `parent` fills
/// an empty child slot next to that index.
pub open spec fn placeable<T: Copy>(
    m: Map<NodeKey, Node<T>>,
    order: Seq<NodeKey>,
    i: int,
    parent: NodeKey,
    on_left: bool,
) -> bool {
    &&& 0 <= i <= order.len()
    &&& on_left ==> i < order.len() && parent == order[i] && m[parent].left.is_none()
    &&& !on_left ==> i > 0 && parent == order[i - 1] && m[parent].right.is_none()
}

/// Hanging a new leaf into an empty slot next to index `i` keeps the links
/// a binary tree, and its in-order sequence is the old one with the leaf at
/// index `i`.
pub proof fn lemma_placed_tree<T: Copy>(
    m: Map<NodeKey, Node<T>>,
    root: Option<NodeKey>,
    sh: Shape,
    order: Seq<NodeKey>,
    x: NodeKey,
    value: T,
    i: int,
    parent: NodeKey,
    on_left: bool,
)
    requires
        tree_inv(m, root, sh, order.len() as int),
        aligned(m, order, sh.pos),
        !m.dom().contains(x),
        placeable(m, order, i, parent, on_left),
    ensures
        tree_inv(
            placed(m, x, value, parent, on_left, link_to(order, i - 1), link_to(order, i)),
            root,
            grown_shape(
                sh,
                x,
                i,
                if on_left {
                    i + 1
                } else {
                    i
                },
            ),
            order.len() as int + 1,
        ),
        aligned(
            placed(m, x, value, parent, on_left, link_to(order, i - 1), link_to(order, i)),
            order.insert(i, x),
            grown_shape(
                sh,
                x,
                i,
                if on_left {
                    i + 1
                } else {
                    i
                },
            ).pos,
        ),
{
    let n = order.len() as int;
    let edge = if on_left {
        i + 1
    } else {
        i
    };
    let m2 = placed(m, x, value, parent, on_left, link_to(order, i - 1), link_to(order, i));
    let sh2 = grown_shape(sh, x, i, edge);
    let order2 = order.insert(i, x);
    if on_left {
        assert(slot_ok(m, order, sh.pos, i));
    } else {
        assert(slot_ok(m, order, sh.pos, i - 1));
    }
    assert(link_ok(m, root, sh, n, parent));
    assert forall|k: NodeKey| m2.dom().contains(k) implies #[trigger] link_ok(m2, root, sh2, n + 1, k) by {
        if k != x {
            assert(link_ok(m, root, sh, n, k));
            assert(pos_ok(order, sh.pos, k));
        }
    }
    if root.is_some() {
        assert(link_ok(m, root, sh, n, root.unwrap()));
    }
    assert forall|k: NodeKey| m2.dom().contains(k) implies #[trigger] pos_ok(order2, sh2.pos, k) by {
        if k != x {
            assert(pos_ok(order, sh.pos, k));
        }
    }
    assert forall|j: int| 0 <= j < order2.len() implies #[trigger] slot_ok(m2, order2, sh2.pos, j) by {
        if j < i {
            assert(slot_ok(m, order, sh.pos, j));
        } else if j > i {
            assert(slot_ok(m, order, sh.pos, j - 1));
        }
    }
}

/// Linking a new node between its two neighbours keeps the order chain, now
/// with the node at index `i`.
pub proof fn lemma_placed_chain<T: Copy>(
    m: Map<NodeKey, Node<T>>,
    sh: Shape,
    order: Seq<NodeKey>,
    x: NodeKey,
    value: T,
    i: int,
    parent: NodeKey,
    on_left: bool,
)
    requires
        chain_inv(m, order),
        aligned(m, order, sh.pos),
        !m.dom().contains(x),
        0 <= i <= order.len(),
    ensures
        chain_inv(
            placed(m, x, value, parent, on_left, link_to(order, i - 1), link_to(order, i)),
            order.insert(i, x),
        ),
{
    let m2 = placed(m, x, value, parent, on_left, link_to(order, i - 1), link_to(order, i));
    let order2 = order.insert(i, x);
    if i > 0 {
        assert(slot_ok(m, order, sh.pos, i - 1));
    }
    if i < order.len() {
        assert(slot_ok(m, order, sh.pos, i));
    }
    assert forall|j: int| 0 <= j < order2.len() implies #[trigger] chain_ok(m2, order2, j) by {
        if j < i {
            assert(chain_ok(m, order, j));
            assert(slot_ok(m, order, sh.pos, j));
        } else if j > i {
            assert(chain_ok(m, order, j - 1));
            assert(slot_ok(m, order, sh.pos, j - 1));
        }
    }
}

/// A new red leaf leaves every black-height as it was; the one rule it may
/// break is that its parent, if red, now has a red child.
pub proof fn lemma_placed_colors<T: Copy>(
    m: Map<NodeKey, Node<T>>,
    root: Option<NodeKey>,
    sh: Shape,
    n: int,
    bh: Map<NodeKey, nat>,
    x: NodeKey,
    value: T,
    parent: NodeKey,
    on_left: bool,
    before: Option<NodeKey>,
    after: Option<NodeKey>,
)
    requires
        tree_inv(m, root, sh, n),
        colors_inv(m, bh, None, None, None),
        !m.dom().contains(x),
        m.dom().contains(parent),
        on_left ==> m[parent].left.is_none(),
        !on_left ==> m[parent].right.is_none(),
    ensures
        colors_inv(
            placed(m, x, value, parent, on_left, before, after),
            bh.insert(x, 1),
            None,
            None,
            Some(x),
        ),
        color_of(placed(m, x, value, parent, on_left, before, after), root) == color_of(m, root),
{
    let m2 = placed(m, x, value, parent, on_left, before, after);
    let bh2 = bh.insert(x, 1);
    assert forall|k: NodeKey| m2.dom().contains(k) implies #[trigger] color_ok(
        m2,
        bh2,
        k,
        None,
        Some(x),
    ) by {
        if k != x {
            assert(color_ok(m, bh, k, None, None));
            assert(link_ok(m, root, sh, n, k));
        }
    }
}

} // verus!
