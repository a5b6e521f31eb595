//! The mathematical model of a tree: what it means for the links among the
//! nodes to form a binary tree, for the order chain to thread it, and for
//! the colors to balance it.

use vstd::prelude::*;
use crate::node::{Color, Node, NodeKey};

verus! {

/// Where each node sits: its index in the in-order sequence, and the range
/// of indices `lo..hi` that its subtree covers.
pub struct Shape {
    pub pos: Map<NodeKey, int>,
    pub lo: Map<NodeKey, int>,
    pub hi: Map<NodeKey, int>,
}

/// The color of a link's target; a missing node counts as black.
pub open spec fn color_of<T: Copy>(m: Map<NodeKey, Node<T>>, link: Option<NodeKey>) -> Color {
    match link {
        Some(k) => if m.dom().contains(k) {
            m[k].color
        } else {
            Color::BLACK
        },
        None => Color::BLACK,
    }
}

/// The black-height below a link; a missing node counts one.
pub open spec fn height_of(bh: Map<NodeKey, nat>, link: Option<NodeKey>) -> nat {
    match link {
        Some(k) => bh[k],
        None => 1,
    }
}

/// The links of node `k` agree with those of its neighbours in the tree, and
/// its subtree covers exactly the indices that `sh` gives it.
pub open spec fn link_ok<T: Copy>(
    m: Map<NodeKey, Node<T>>,
    root: Option<NodeKey>,
    sh: Shape,
    n: int,
    k: NodeKey,
) -> bool {
    let p = sh.pos[k];
    &&& 0 <= sh.lo[k] <= p < sh.hi[k] <= n
    &&& match m[k].left {
        Some(l) => m.dom().contains(l) && m[l].parent == Some(k) && sh.lo[l] == sh.lo[k]
            && sh.hi[l] == p,
        None => sh.lo[k] == p,
    }
    &&& match m[k].right {
        Some(r) => m.dom().contains(r) && m[r].parent == Some(k) && sh.lo[r] == p + 1
            && sh.hi[r] == sh.hi[k],
        None => sh.hi[k] == p + 1,
    }
    &&& match m[k].parent {
        Some(q) => m.dom().contains(q) && (m[q].left == Some(k) || m[q].right == Some(k)),
        None => root == Some(k),
    }
}

/// The links form one binary tree under `root` whose in-order walk visits
/// the nodes by ascending `sh.pos`, covering `0..n`.
pub open spec fn tree_inv<T: Copy>(
    m: Map<NodeKey, Node<T>>,
    root: Option<NodeKey>,
    sh: Shape,
    n: int,
) -> bool {
    &&& forall|k: NodeKey| m.dom().contains(k) ==> #[trigger] link_ok(m, root, sh, n, k)
    &&& match root {
        Some(r) => m.dom().contains(r) && m[r].parent.is_none() && sh.lo[r] == 0 && sh.hi[r] == n,
        None => n == 0,
    }
}

/// Live node `k` sits in `order` at the index that `pos` gives it.
pub open spec fn pos_ok(order: Seq<NodeKey>, pos: Map<NodeKey, int>, k: NodeKey) -> bool {
    0 <= pos[k] < order.len() && order[pos[k]] == k
}

/// Index `i` of `order` holds a live node to which `pos` gives that index.
pub open spec fn slot_ok<T: Copy>(
    m: Map<NodeKey, Node<T>>,
    order: Seq<NodeKey>,
    pos: Map<NodeKey, int>,
    i: int,
) -> bool {
    m.dom().contains(order[i]) && pos[order[i]] == i
}

/// `order` lists the nodes, each once, and `pos` gives each node's index.
pub open spec fn aligned<T: Copy>(
    m: Map<NodeKey, Node<T>>,
    order: Seq<NodeKey>,
    pos: Map<NodeKey, int>,
) -> bool {
    &&& forall|k: NodeKey| m.dom().contains(k) ==> #[trigger] pos_ok(order, pos, k)
    &&& forall|i: int| 0 <= i < order.len() ==> #[trigger] slot_ok(m, order, pos, i)
}

/// The link to index `i` of `order`, or none if `i` is out of range.
pub open spec fn link_to(order: Seq<NodeKey>, i: int) -> Option<NodeKey> {
    if 0 <= i < order.len() {
        Some(order[i])
    } else {
        None
    }
}

/// The node at index `i` of `order` is live, and its `prev` and `next` name
/// its neighbours in `order`.
pub open spec fn chain_ok<T: Copy>(m: Map<NodeKey, Node<T>>, order: Seq<NodeKey>, i: int) -> bool {
    &&& m.dom().contains(order[i])
    &&& m[order[i]].prev == link_to(order, i - 1)
    &&& m[order[i]].next == link_to(order, i + 1)
}

/// Each node's `prev` and `next` name its neighbours in `order`.
pub open spec fn chain_inv<T: Copy>(m: Map<NodeKey, Node<T>>, order: Seq<NodeKey>) -> bool {
    forall|i: int| 0 <= i < order.len() ==> #[trigger] chain_ok(m, order, i)
}

/// One more than the height below `link` if `link` is the place `short`
/// whose subtree is one black node short, else the height below `link`.
pub open spec fn lifted_height(
    bh: Map<NodeKey, nat>,
    link: Option<NodeKey>,
    short: Option<NodeKey>,
) -> nat {
    if short.is_some() && link == short {
        height_of(bh, link) + 1
    } else {
        height_of(bh, link)
    }
}

/// Both sides of node `k` have the same black-height, and `bh[k]`, which is
/// at least one, counts it with `k` itself. The subtree at `short`, if any, counts one more than it
/// holds.
pub open spec fn black_ok<T: Copy>(
    m: Map<NodeKey, Node<T>>,
    bh: Map<NodeKey, nat>,
    k: NodeKey,
    short: Option<NodeKey>,
) -> bool {
    let below = lifted_height(bh, m[k].left, short);
    &&& bh[k] >= 1
    &&& below == lifted_height(bh, m[k].right, short)
    &&& bh[k] == below + (if m[k].color == Color::BLACK {
        1nat
    } else {
        0nat
    })
}

/// A red node `k` has no red child, but for the child `odd` if it is one.
pub open spec fn red_ok<T: Copy>(m: Map<NodeKey, Node<T>>, k: NodeKey, odd: Option<NodeKey>) -> bool {
    m[k].color == Color::RED ==> {
        &&& (color_of(m, m[k].left) == Color::BLACK || (odd.is_some() && m[k].left == odd))
        &&& (color_of(m, m[k].right) == Color::BLACK || (odd.is_some() && m[k].right == odd))
    }
}

/// At node `k` both color rules hold.
pub open spec fn color_ok<T: Copy>(
    m: Map<NodeKey, Node<T>>,
    bh: Map<NodeKey, nat>,
    k: NodeKey,
    short: Option<NodeKey>,
    odd: Option<NodeKey>,
) -> bool {
    black_ok(m, bh, k, short) && red_ok(m, k, odd)
}

/// The colors balance the tree at every node but `skip`: equal black-height
/// on both sides and no red node with a red child. `short` and `odd` name
/// the one place where a repair is under way.
pub open spec fn colors_inv<T: Copy>(
    m: Map<NodeKey, Node<T>>,
    bh: Map<NodeKey, nat>,
    skip: Option<NodeKey>,
    short: Option<NodeKey>,
    odd: Option<NodeKey>,
) -> bool {
    forall|k: NodeKey|
        m.dom().contains(k) && Some(k) != skip ==> #[trigger] color_ok(m, bh, k, short, odd)
}

/// The subtree of a live node `x` begins at a node without a left child.
pub proof fn lemma_first_of_subtree<T: Copy>(
    m: Map<NodeKey, Node<T>>,
    root: Option<NodeKey>,
    sh: Shape,
    order: Seq<NodeKey>,
    x: NodeKey,
)
    requires
        tree_inv(m, root, sh, order.len() as int),
        aligned(m, order, sh.pos),
        m.dom().contains(x),
    ensures
        0 <= sh.lo[x] < order.len(),
        m.dom().contains(order[sh.lo[x]]),
        m[order[sh.lo[x]]].left.is_none(),
    decreases sh.hi[x] - sh.lo[x],
{
    assert(link_ok(m, root, sh, order.len() as int, x));
    match m[x].left {
        Some(l) => {
            assert(link_ok(m, root, sh, order.len() as int, l));
            lemma_first_of_subtree(m, root, sh, order, l);
        },
        None => {
            assert(pos_ok(order, sh.pos, x));
        },
    }
}

/// The subtree of a live node `x` ends at a node without a right child.
pub proof fn lemma_last_of_subtree<T: Copy>(
    m: Map<NodeKey, Node<T>>,
    root: Option<NodeKey>,
    sh: Shape,
    order: Seq<NodeKey>,
    x: NodeKey,
)
    requires
        tree_inv(m, root, sh, order.len() as int),
        aligned(m, order, sh.pos),
        m.dom().contains(x),
    ensures
        0 < sh.hi[x] <= order.len(),
        m.dom().contains(order[sh.hi[x] - 1]),
        m[order[sh.hi[x] - 1]].right.is_none(),
    decreases sh.hi[x] - sh.lo[x],
{
    assert(link_ok(m, root, sh, order.len() as int, x));
    match m[x].right {
        Some(r) => {
            assert(link_ok(m, root, sh, order.len() as int, r));
            lemma_last_of_subtree(m, root, sh, order, r);
        },
        None => {
            assert(pos_ok(order, sh.pos, x));
        },
    }
}

/// A tree that obeys both color rules everywhere obeys them all the more
/// when one red pair is let off.
pub proof fn lemma_colors_weaken<T: Copy>(
    m: Map<NodeKey, Node<T>>,
    bh: Map<NodeKey, nat>,
    odd: Option<NodeKey>,
)
    requires
        colors_inv(m, bh, None, None, None),
    ensures
        colors_inv(m, bh, None, None, odd),
{
    assert forall|k: NodeKey| m.dom().contains(k) implies #[trigger] color_ok(m, bh, k, None, odd) by {
        assert(color_ok(m, bh, k, None, None));
    }
}

/// Node `k` has the same tree links in both maps.
pub open spec fn same_links_at<T: Copy>(
    a: Map<NodeKey, Node<T>>,
    b: Map<NodeKey, Node<T>>,
    k: NodeKey,
) -> bool {
    a[k].parent == b[k].parent && a[k].left == b[k].left && a[k].right == b[k].right
}

/// Two maps hold the same nodes with the same tree links.
pub open spec fn same_links<T: Copy>(a: Map<NodeKey, Node<T>>, b: Map<NodeKey, Node<T>>) -> bool {
    &&& a.dom() =~= b.dom()
    &&& forall|k: NodeKey| a.dom().contains(k) ==> #[trigger] same_links_at(a, b, k)
}

/// Node `k` has the same order links and payload in both maps.
pub open spec fn same_chain_at<T: Copy>(
    a: Map<NodeKey, Node<T>>,
    b: Map<NodeKey, Node<T>>,
    k: NodeKey,
) -> bool {
    a[k].prev == b[k].prev && a[k].next == b[k].next && a[k].contents == b[k].contents
}

/// Two maps hold the same nodes with the same order links and payloads.
pub open spec fn same_chain<T: Copy>(a: Map<NodeKey, Node<T>>, b: Map<NodeKey, Node<T>>) -> bool {
    &&& a.dom() =~= b.dom()
    &&& forall|k: NodeKey| a.dom().contains(k) ==> #[trigger] same_chain_at(a, b, k)
}

/// Node `k` has the same color in both maps.
pub open spec fn same_color_at<T: Copy>(
    a: Map<NodeKey, Node<T>>,
    b: Map<NodeKey, Node<T>>,
    k: NodeKey,
) -> bool {
    a[k].color == b[k].color
}

/// Two maps hold the same nodes with the same colors.
pub open spec fn same_colors<T: Copy>(a: Map<NodeKey, Node<T>>, b: Map<NodeKey, Node<T>>) -> bool {
    &&& a.dom() =~= b.dom()
    &&& forall|k: NodeKey| a.dom().contains(k) ==> #[trigger] same_color_at(a, b, k)
}

/// Whether a tree is well linked depends on the tree links alone.
pub proof fn lemma_same_links_tree<T: Copy>(
    a: Map<NodeKey, Node<T>>,
    b: Map<NodeKey, Node<T>>,
    root: Option<NodeKey>,
    sh: Shape,
    n: int,
)
    requires
        tree_inv(a, root, sh, n),
        same_links(a, b),
    ensures
        tree_inv(b, root, sh, n),
{
    assert forall|k: NodeKey| b.dom().contains(k) implies #[trigger] link_ok(b, root, sh, n, k) by {
        assert(link_ok(a, root, sh, n, k));
        assert(same_links_at(a, b, k));
        if a[k].left.is_some() {
            assert(same_links_at(a, b, a[k].left.unwrap()));
        }
        if a[k].right.is_some() {
            assert(same_links_at(a, b, a[k].right.unwrap()));
        }
        if a[k].parent.is_some() {
            assert(same_links_at(a, b, a[k].parent.unwrap()));
        }
    }
    if root.is_some() {
        assert(same_links_at(a, b, root.unwrap()));
    }
}

/// Whether the order chain threads the nodes depends on the order links
/// alone.
pub proof fn lemma_same_chain<T: Copy>(
    a: Map<NodeKey, Node<T>>,
    b: Map<NodeKey, Node<T>>,
    order: Seq<NodeKey>,
    pos: Map<NodeKey, int>,
)
    requires
        same_chain(a, b),
    ensures
        chain_inv(a, order) ==> chain_inv(b, order),
        aligned(a, order, pos) ==> aligned(b, order, pos),
{
    if chain_inv(a, order) {
        assert forall|i: int| 0 <= i < order.len() implies #[trigger] chain_ok(b, order, i) by {
            assert(chain_ok(a, order, i));
            assert(same_chain_at(a, b, order[i]));
        }
    }
    if aligned(a, order, pos) {
        assert forall|k: NodeKey| b.dom().contains(k) implies #[trigger] pos_ok(order, pos, k) by {
            assert(pos_ok(order, pos, k));
        }
        assert forall|i: int| 0 <= i < order.len() implies #[trigger] slot_ok(b, order, pos, i) by {
            assert(slot_ok(a, order, pos, i));
        }
    }
}

} // verus!
