//! The structural swap: two nodes change places in the tree and keep their
//! payloads and their places in the order chain.

use vstd::prelude::*;
use crate::model::{
    color_of, color_ok, colors_inv, link_ok, same_chain, same_chain_at, tree_inv, Shape,
};
use crate::node::{link_eq, Node, NodeKey, NodeType};
use crate::insert::with_color;
use crate::tree::{node_type_of, Tree};

verus! {

/// The handle that stands where `k` stood once `a` and `b` have changed
/// places.
pub open spec fn swap_key(k: NodeKey, a: NodeKey, b: NodeKey) -> NodeKey {
    if k == a {
        b
    } else if k == b {
        a
    } else {
        k
    }
}

/// A link once `a` and `b` have changed places.
pub open spec fn swap_link(link: Option<NodeKey>, a: NodeKey, b: NodeKey) -> Option<NodeKey> {
    match link {
        Some(k) => Some(swap_key(k, a, b)),
        None => None,
    }
}

/// The nodes after `a` and `b` have changed places in the tree: each has the
/// parent, the children and the color that the other had, and every link to
/// one of them now names the other. Order links and payloads stay.
pub open spec fn swapped<T: Copy>(m: Map<NodeKey, Node<T>>, a: NodeKey, b: NodeKey) -> Map<
    NodeKey,
    Node<T>,
> {
    Map::new(
        |k: NodeKey| m.dom().contains(k),
        |k: NodeKey|
            {
                let from = m[swap_key(k, a, b)];
                Node {
                    parent: swap_link(from.parent, a, b),
                    left: swap_link(from.left, a, b),
                    right: swap_link(from.right, a, b),
                    color: from.color,
                    ..m[k]
                }
            },
    )
}

/// The shape after `a` and `b` have changed places.
pub open spec fn swapped_shape(sh: Shape, a: NodeKey, b: NodeKey) -> Shape {
    Shape {
        pos: sh.pos.insert(a, sh.pos[b]).insert(b, sh.pos[a]),
        lo: sh.lo.insert(a, sh.lo[b]).insert(b, sh.lo[a]),
        hi: sh.hi.insert(a, sh.hi[b]).insert(b, sh.hi[a]),
    }
}

/// The black-heights after `a` and `b` have changed places.
pub open spec fn swapped_heights(bh: Map<NodeKey, nat>, a: NodeKey, b: NodeKey) -> Map<
    NodeKey,
    nat,
> {
    bh.insert(a, bh[b]).insert(b, bh[a])
}

/// Two nodes that change places leave a binary tree and its colors sound;
/// the in-order walk now meets each where it met the other.
pub proof fn lemma_swapped<T: Copy>(
    m: Map<NodeKey, Node<T>>,
    root: Option<NodeKey>,
    sh: Shape,
    n: int,
    bh: Map<NodeKey, nat>,
    a: NodeKey,
    b: NodeKey,
)
    requires
        tree_inv(m, root, sh, n),
        m.dom().contains(a),
        m.dom().contains(b),
        a != b,
    ensures
        tree_inv(swapped(m, a, b), swap_link(root, a, b), swapped_shape(sh, a, b), n),
        colors_inv(m, bh, None, None, None) ==> colors_inv(
            swapped(m, a, b),
            swapped_heights(bh, a, b),
            None,
            None,
            None,
        ),
        color_of(swapped(m, a, b), swap_link(root, a, b)) == color_of(m, root),
        same_chain(m, swapped(m, a, b)),
{
    let m2 = swapped(m, a, b);
    let root2 = swap_link(root, a, b);
    let sh2 = swapped_shape(sh, a, b);
    let bh2 = swapped_heights(bh, a, b);
    assert forall|k: NodeKey| m2.dom().contains(k) implies #[trigger] link_ok(m2, root2, sh2, n, k) by {
        let j = swap_key(k, a, b);
        assert(link_ok(m, root, sh, n, j));
    }
    if root.is_some() {
        assert(link_ok(m, root, sh, n, root.unwrap()));
    }
    if colors_inv(m, bh, None, None, None) {
        assert forall|k: NodeKey| m2.dom().contains(k) implies #[trigger] color_ok(
            m2,
            bh2,
            k,
            None,
            None,
        ) by {
            let j = swap_key(k, a, b);
            assert(color_ok(m, bh, j, None, None));
            assert(link_ok(m, root, sh, n, j));
        }
    }
    assert forall|k: NodeKey| m.dom().contains(k) implies #[trigger] same_chain_at(m, m2, k) by {}
}

/// The nodes after `child` has been put into the slot of `parent` that
/// `kind` names; no node changes where `kind` names none.
pub open spec fn with_slot<T: Copy>(
    m: Map<NodeKey, Node<T>>,
    parent: Option<NodeKey>,
    kind: NodeType,
    child: Option<NodeKey>,
) -> Map<NodeKey, Node<T>> {
    match kind {
        NodeType::LeftChild => m.insert(parent.unwrap(), Node { left: child, ..m[parent.unwrap()] }),
        NodeType::RightChild => m.insert(
            parent.unwrap(),
            Node { right: child, ..m[parent.unwrap()] },
        ),
        NodeType::Orphan => m,
    }
}

/// The nodes after `node` has taken `child` as its left child.
pub open spec fn with_left<T: Copy>(
    m: Map<NodeKey, Node<T>>,
    node: NodeKey,
    child: Option<NodeKey>,
) -> Map<NodeKey, Node<T>> {
    let m1 = m.insert(node, Node { left: child, ..m[node] });
    match child {
        Some(c) => m1.insert(c, Node { parent: Some(node), ..m1[c] }),
        None => m1,
    }
}

/// The nodes after `node` has taken `child` as its right child.
pub open spec fn with_right<T: Copy>(
    m: Map<NodeKey, Node<T>>,
    node: NodeKey,
    child: Option<NodeKey>,
) -> Map<NodeKey, Node<T>> {
    let m1 = m.insert(node, Node { right: child, ..m[node] });
    match child {
        Some(c) => m1.insert(c, Node { parent: Some(node), ..m1[c] }),
        None => m1,
    }
}

/// The nodes after the parents of `a` and `b` have been told of the
/// exchange and `a` and `b` have each taken the other's parent.
pub open spec fn swap_parents<T: Copy>(m: Map<NodeKey, Node<T>>, a: NodeKey, b: NodeKey) -> Map<
    NodeKey,
    Node<T>,
> {
    let pa = m[a].parent;
    let pb = if m[b].parent == Some(a) {
        Some(b)
    } else {
        m[b].parent
    };
    let m1 = with_slot(m, pa, node_type_of(m, a), Some(b));
    let m2 = with_slot(m1, pb, node_type_of(m1, b), Some(a));
    let m3 = m2.insert(a, Node { parent: pb, ..m2[a] });
    m3.insert(b, Node { parent: pa, ..m3[b] })
}

/// The nodes after `a` and `b` have, on top of that, each taken the other's
/// children, but for a child that is the other node itself.
pub open spec fn swap_children<T: Copy>(m: Map<NodeKey, Node<T>>, a: NodeKey, b: NodeKey) -> Map<
    NodeKey,
    Node<T>,
> {
    swap_children_from(m, swap_parents(m, a, b), a, b)
}

/// The nodes `m4` after `a` and `b` have each taken the children that the
/// other had in `m`, but for a child that is the other node itself.
pub open spec fn swap_children_from<T: Copy>(
    m: Map<NodeKey, Node<T>>,
    m4: Map<NodeKey, Node<T>>,
    a: NodeKey,
    b: NodeKey,
) -> Map<NodeKey, Node<T>> {
    let m5 = if m[b].left == Some(a) {
        m4
    } else {
        with_left(m4, a, m[b].left)
    };
    let m6 = if m[a].left == Some(b) {
        m5
    } else {
        with_left(m5, b, m[a].left)
    };
    let m7 = if m[b].right == Some(a) {
        m6
    } else {
        with_right(m6, a, m[b].right)
    };
    if m[a].right == Some(b) {
        m7
    } else {
        with_right(m7, b, m[a].right)
    }
}

/// What the links of a binary tree say of one node `k`, without the
/// indices: its children name it as their parent and differ from it and
/// from each other, and its parent holds it in one slot.
pub open spec fn knit<T: Copy>(m: Map<NodeKey, Node<T>>, k: NodeKey) -> bool {
    &&& match m[k].left {
        Some(l) => m.dom().contains(l) && m[l].parent == Some(k) && l != k && m[k].right != Some(l)
            && m[k].parent != Some(l),
        None => true,
    }
    &&& match m[k].right {
        Some(r) => m.dom().contains(r) && m[r].parent == Some(k) && r != k && m[k].parent != Some(
            r,
        ),
        None => true,
    }
    &&& match m[k].parent {
        Some(q) => m.dom().contains(q) && q != k && (m[q].left == Some(k) || m[q].right == Some(
            k,
        )),
        None => true,
    }
}

/// In a binary tree every node is knit to its neighbours.
pub proof fn lemma_knit<T: Copy>(
    m: Map<NodeKey, Node<T>>,
    root: Option<NodeKey>,
    sh: Shape,
    n: int,
    k: NodeKey,
)
    requires
        tree_inv(m, root, sh, n),
        m.dom().contains(k),
    ensures
        knit(m, k),
{
    assert(link_ok(m, root, sh, n, k));
    if m[k].left.is_some() {
        assert(link_ok(m, root, sh, n, m[k].left.unwrap()));
    }
    if m[k].right.is_some() {
        assert(link_ok(m, root, sh, n, m[k].right.unwrap()));
    }
    if m[k].parent.is_some() {
        assert(link_ok(m, root, sh, n, m[k].parent.unwrap()));
    }
}

/// Step by step, the exchange of parents, children and colors makes `a`
/// and `b` change places.
pub proof fn lemma_swap_steps<T: Copy>(
    m: Map<NodeKey, Node<T>>,
    root: Option<NodeKey>,
    sh: Shape,
    n: int,
    a: NodeKey,
    b: NodeKey,
)
    requires
        tree_inv(m, root, sh, n),
        m.dom().contains(a),
        m.dom().contains(b),
        a != b,
        m[a].parent != Some(b),
        m[a].parent != m[b].parent,
    ensures
        with_color(with_color(swap_children(m, a, b), a, m[b].color), b, m[a].color) =~= swapped(
            m,
            a,
            b,
        ),
{
    assert forall|k: NodeKey| m.dom().contains(k) implies #[trigger] knit(m, k) by {
        lemma_knit(m, root, sh, n, k);
    }
    lemma_swap_steps_knit(m, a, b);
}

/// The same, from what the links say without the indices.
#[verifier::rlimit(30)]
proof fn lemma_swap_steps_knit<T: Copy>(m: Map<NodeKey, Node<T>>, a: NodeKey, b: NodeKey)
    requires
        forall|k: NodeKey| m.dom().contains(k) ==> #[trigger] knit(m, k),
        m.dom().contains(a),
        m.dom().contains(b),
        a != b,
        m[a].parent != Some(b),
        m[a].parent != m[b].parent,
    ensures
        with_color(with_color(swap_children(m, a, b), a, m[b].color), b, m[a].color) =~= swapped(
            m,
            a,
            b,
        ),
{
    let m4 = swap_parents(m, a, b);
    let m8 = swap_children(m, a, b);
    let res = with_color(with_color(m8, a, m[b].color), b, m[a].color);
    let goal = swapped(m, a, b);
    lemma_swap_parents(m, a, b);
    lemma_swap_children(m, m4, a, b);
    assert(res.dom() =~= m.dom());
    assert forall|k: NodeKey| m.dom().contains(k) implies #[trigger] res[k] == goal[k] by {
        assert(parents_swapped(m, m4, a, b, k));
        assert(children_swapped(m, m4, m8, a, b, k));
        assert(knit(m, k));
        assert(knit(m, a));
        assert(knit(m, b));
    }
}

/// Node `k` after the exchange of parents: `a` and `b` have each the
/// other's parent, the slot that held one holds the other, and nothing else
/// has changed.
pub open spec fn parents_swapped<T: Copy>(
    m: Map<NodeKey, Node<T>>,
    m4: Map<NodeKey, Node<T>>,
    a: NodeKey,
    b: NodeKey,
    k: NodeKey,
) -> bool {
    &&& m4[k].parent == (if k == a {
        swap_link(m[b].parent, a, b)
    } else if k == b {
        m[a].parent
    } else {
        m[k].parent
    })
    &&& m4[k].left == (if m[k].left == Some(a) {
        Some(b)
    } else if m[k].left == Some(b) && k != a {
        Some(a)
    } else if k == b && m[a].left == Some(b) {
        Some(a)
    } else {
        m[k].left
    })
    &&& m4[k].right == (if m[k].right == Some(a) {
        Some(b)
    } else if m[k].right == Some(b) && k != a {
        Some(a)
    } else if k == b && m[a].right == Some(b) {
        Some(a)
    } else {
        m[k].right
    })
    &&& m4[k].color == m[k].color
    &&& m4[k].prev == m[k].prev
    &&& m4[k].next == m[k].next
    &&& m4[k].contents == m[k].contents
}

/// The exchange of parents does to every node what `parents_swapped` says.
#[verifier::rlimit(30)]
proof fn lemma_swap_parents<T: Copy>(m: Map<NodeKey, Node<T>>, a: NodeKey, b: NodeKey)
    requires
        forall|k: NodeKey| m.dom().contains(k) ==> #[trigger] knit(m, k),
        m.dom().contains(a),
        m.dom().contains(b),
        a != b,
        m[a].parent != Some(b),
        m[a].parent != m[b].parent,
    ensures
        swap_parents(m, a, b).dom() =~= m.dom(),
        forall|k: NodeKey|
            m.dom().contains(k) ==> #[trigger] parents_swapped(m, swap_parents(m, a, b), a, b, k),
{
    let pa = m[a].parent;
    let pb = if m[b].parent == Some(a) {
        Some(b)
    } else {
        m[b].parent
    };
    let m1 = with_slot(m, pa, node_type_of(m, a), Some(b));
    let m2 = with_slot(m1, pb, node_type_of(m1, b), Some(a));
    let m3 = m2.insert(a, Node { parent: pb, ..m2[a] });
    let m4 = m3.insert(b, Node { parent: pa, ..m3[b] });
    assert(knit(m, a));
    assert(knit(m, b));
    if pa.is_some() {
        assert(knit(m, pa.unwrap()));
    }
    if m[b].parent.is_some() {
        assert(knit(m, m[b].parent.unwrap()));
    }
    assert(m1[b] == m[b]);
    assert(m1[a] == m[a]);
    assert(node_type_of(m1, b) == node_type_of(m, b));
    assert(m4 == swap_parents(m, a, b));
    assert(m4.dom() =~= m.dom());
    assert forall|k: NodeKey| m.dom().contains(k) implies #[trigger] parents_swapped(
        m,
        m4,
        a,
        b,
        k,
    ) by {
        assert(knit(m, k));
    }
}

/// Node `k` after the exchange of children on top of that of parents.
pub open spec fn children_swapped<T: Copy>(
    m: Map<NodeKey, Node<T>>,
    m4: Map<NodeKey, Node<T>>,
    m8: Map<NodeKey, Node<T>>,
    a: NodeKey,
    b: NodeKey,
    k: NodeKey,
) -> bool {
    &&& m8[k].parent == (if k != a && k != b && m[k].parent == Some(a) {
        Some(b)
    } else if k != a && k != b && m[k].parent == Some(b) {
        Some(a)
    } else {
        m4[k].parent
    })
    &&& m8[k].left == (if k == a {
        m[b].left
    } else if k == b && m[a].left != Some(b) {
        m[a].left
    } else {
        m4[k].left
    })
    &&& m8[k].right == (if k == a {
        m[b].right
    } else if k == b && m[a].right != Some(b) {
        m[a].right
    } else {
        m4[k].right
    })
    &&& m8[k].color == m[k].color
    &&& m8[k].prev == m[k].prev
    &&& m8[k].next == m[k].next
    &&& m8[k].contents == m[k].contents
}

/// The exchange of children does to every node what `children_swapped`
/// says.
#[verifier::rlimit(30)]
proof fn lemma_swap_children<T: Copy>(
    m: Map<NodeKey, Node<T>>,
    m4: Map<NodeKey, Node<T>>,
    a: NodeKey,
    b: NodeKey,
)
    requires
        forall|k: NodeKey| m.dom().contains(k) ==> #[trigger] knit(m, k),
        forall|k: NodeKey| m.dom().contains(k) ==> #[trigger] parents_swapped(m, m4, a, b, k),
        m4.dom() =~= m.dom(),
        m.dom().contains(a),
        m.dom().contains(b),
        a != b,
        m[a].parent != Some(b),
        m[a].parent != m[b].parent,
    ensures
        swap_children_from(m, m4, a, b).dom() =~= m.dom(),
        forall|k: NodeKey|
            m.dom().contains(k) ==> #[trigger] children_swapped(
                m,
                m4,
                swap_children_from(m, m4, a, b),
                a,
                b,
                k,
            ),
{
    let m5 = with_left(m4, a, m[b].left);
    let m6 = if m[a].left == Some(b) {
        m5
    } else {
        with_left(m5, b, m[a].left)
    };
    let m7 = with_right(m6, a, m[b].right);
    let m8 = if m[a].right == Some(b) {
        m7
    } else {
        with_right(m7, b, m[a].right)
    };
    assert(knit(m, a));
    assert(knit(m, b));
    assert(m[b].left != Some(a));
    assert(m[b].right != Some(a));
    assert(m8 == swap_children_from(m, m4, a, b));
    assert(m5.dom() =~= m.dom());
    assert(m6.dom() =~= m.dom());
    assert(m7.dom() =~= m.dom());
    assert(m8.dom() =~= m.dom());
    assert forall|k: NodeKey| m.dom().contains(k) implies #[trigger] children_swapped(
        m,
        m4,
        m8,
        a,
        b,
        k,
    ) by {
        assert(knit(m, k));
        assert(parents_swapped(m, m4, a, b, k));
    }
}

impl<T: Copy> Tree<T> {
    /// Puts `child` where `kind` says: into the left or the right slot of
    /// `parent`, or at the root.
    pub(crate) fn put_child(
        &mut self,
        parent: Option<NodeKey>,
        kind: NodeType,
        child: Option<NodeKey>,
    )
        requires
            old(self).nodes.wf(),
            kind != NodeType::Orphan ==> parent.is_some() && old(self).contains(parent.unwrap()),
        ensures
            final(self).nodes.wf(),
            final(self).map() == with_slot(old(self).map(), parent, kind, child),
            final(self).root() == (if kind == NodeType::Orphan {
                child
            } else {
                old(self).root()
            }),
            final(self)@ == old(self)@,
            final(self).shape() == old(self).shape(),
            final(self).heights() == old(self).heights(),
    {
        match kind {
            NodeType::LeftChild => self.set_left(parent.unwrap(), child),
            NodeType::RightChild => self.set_right(parent.unwrap(), child),
            NodeType::Orphan => self.root = child,
        }
    }

    /// Makes `child` the left child of `node`, and `node` its parent.
    pub(crate) fn adopt_left(&mut self, node: NodeKey, child: Option<NodeKey>)
        requires
            old(self).nodes.wf(),
            old(self).contains(node),
            child.is_some() ==> old(self).contains(child.unwrap()),
        ensures
            final(self).nodes.wf(),
            final(self).map() == with_left(old(self).map(), node, child),
            final(self).same_frame(old(self)),
    {
        self.set_left(node, child);
        if child.is_some() {
            self.set_parent(child.unwrap(), Some(node));
        }
    }

    /// Makes `child` the right child of `node`, and `node` its parent.
    pub(crate) fn adopt_right(&mut self, node: NodeKey, child: Option<NodeKey>)
        requires
            old(self).nodes.wf(),
            old(self).contains(node),
            child.is_some() ==> old(self).contains(child.unwrap()),
        ensures
            final(self).nodes.wf(),
            final(self).map() == with_right(old(self).map(), node, child),
            final(self).same_frame(old(self)),
    {
        self.set_right(node, child);
        if child.is_some() {
            self.set_parent(child.unwrap(), Some(node));
        }
    }

    /// Swap the location in the tree of two nodes. The second must not be
    /// the parent of the first, nor its sibling.
    #[verifier::rlimit(30)]
    pub(crate) fn swap_nodes(&mut self, node_1: NodeKey, node_2: NodeKey)
        requires
            old(self).linked(),
            old(self).contains(node_1),
            old(self).contains(node_2),
            node_1 != node_2,
            old(self).map()[node_1].parent != Some(node_2),
            old(self).map()[node_1].parent != old(self).map()[node_2].parent,
        ensures
            final(self).linked(),
            final(self).map() == swapped(old(self).map(), node_1, node_2),
            final(self).root() == swap_link(old(self).root(), node_1, node_2),
            final(self).shape() == swapped_shape(old(self).shape(), node_1, node_2),
            final(self).heights() == swapped_heights(old(self).heights(), node_1, node_2),
            final(self)@ == old(self)@,
    {
        let ghost m = self.map();
        let ghost n = self.order@.len() as int;
        proof {
            assert(link_ok(m, self.root, self.shape@, n, node_1));
            assert(link_ok(m, self.root, self.shape@, n, node_2));
        }
        let mut node_1_parent = self.node(node_1).parent;
        let mut node_2_parent = self.node(node_2).parent;
        let node_1_right = self.node(node_1).right;
        let node_2_right = self.node(node_2).right;
        let node_1_left = self.node(node_1).left;
        let node_2_left = self.node(node_2).left;
        // Swap parents: a node that was the other's child must not end up
        // as its own parent
        if link_eq(node_1_parent, Some(node_2)) {
            node_1_parent = Some(node_1);
        } else if link_eq(node_2_parent, Some(node_1)) {
            node_2_parent = Some(node_2);
        }
        let kind_1 = self.get_node_type(node_1);
        self.put_child(node_1_parent, kind_1, Some(node_2));
        let kind_2 = self.get_node_type(node_2);
        self.put_child(node_2_parent, kind_2, Some(node_1));
        self.set_parent(node_1, node_2_parent);
        self.set_parent(node_2, node_1_parent);
        assert(self.map() == swap_parents(m, node_1, node_2));

        // Swap Left Children
        if !link_eq(node_2_left, Some(node_1)) {
            self.adopt_left(node_1, node_2_left);
        }
        if !link_eq(node_1_left, Some(node_2)) {
            self.adopt_left(node_2, node_1_left);
        }
        // Swap Right Children

        if !link_eq(node_2_right, Some(node_1)) {
            self.adopt_right(node_1, node_2_right);
        }
        if !link_eq(node_1_right, Some(node_2)) {
            self.adopt_right(node_2, node_1_right);
        }
        assert(self.map() == swap_children(m, node_1, node_2));

        // Swap Colors
        let node_1_color = self.color_at(Some(node_1));
        let node_2_color = self.color_at(Some(node_2));
        self.set_color(node_1, node_2_color);
        self.set_color(node_2, node_1_color);
        proof {
            lemma_swap_steps(m, old(self).root, self.shape@, n, node_1, node_2);
            lemma_swapped(m, old(self).root, self.shape@, n, self.heights@, node_1, node_2);
            self.shape@ = swapped_shape(self.shape@, node_1, node_2);
            self.heights@ = swapped_heights(self.heights@, node_1, node_2);
        }
    }
}

} // verus!
