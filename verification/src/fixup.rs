//! The repair after a black leaf has been marked for removal: its place is
//! one black node short, and recoloring and rotations make up for it.

use vstd::prelude::*;
use crate::insert::with_color;
use crate::model::{color_of, color_ok, colors_inv, link_ok, tree_inv, Shape};
use crate::node::{Color, Node, NodeKey};
use crate::rotate::{replace_root, rotated_left, rotated_right, with_child};
use crate::swap::{knit, lemma_knit};
use crate::tree::sibling_of;

verus! {

/// The nodes and the root after the repair that starts at `x`, whose place
/// is one black node short, and runs for at most `rounds` rounds. While the
/// node at hand is not the root: a red sibling trades colors with the
/// parent and is rotated above it, and the repair goes on at the same node;
/// a black sibling with a red child is rotated above the parent, once or
/// twice as the side of that child asks, which ends the repair; a black
/// sibling without a red child turns red, and the repair goes on at the
/// parent if that is black, else ends with the parent painted black.
pub open spec fn made_up<T: Copy>(
    m: Map<NodeKey, Node<T>>,
    root: Option<NodeKey>,
    x: NodeKey,
    rounds: nat,
) -> (Map<NodeKey, Node<T>>, Option<NodeKey>)
    decreases rounds,
{
    if rounds == 0 || root == Some(x) {
        (m, root)
    } else {
        match sibling_of(m, x) {
            None => made_up(m, root, m[x].parent.unwrap(), (rounds - 1) as nat),
            Some(s) => {
                let p = m[x].parent.unwrap();
                let on_left = m[p].left == Some(s);
                if color_of(m, Some(s)) == Color::RED {
                    let m1 = with_color(with_color(m, p, Color::RED), s, Color::BLACK);
                    let m2 = if on_left {
                        rotated_right(m1, p)
                    } else {
                        rotated_left(m1, p)
                    };
                    made_up(m2, replace_root(m1, root, p, Some(s)), x, (rounds - 1) as nat)
                } else if color_of(m, m[s].left) == Color::RED {
                    let w = m[s].left.unwrap();
                    if on_left {
                        let m2 = with_color(with_color(m, w, m[s].color), s, m[p].color);
                        (
                            with_color(rotated_right(m2, p), p, Color::BLACK),
                            replace_root(m2, root, p, Some(s)),
                        )
                    } else {
                        let m1 = with_color(m, w, m[p].color);
                        let m2 = rotated_right(m1, s);
                        (
                            with_color(rotated_left(m2, p), p, Color::BLACK),
                            replace_root(m2, replace_root(m1, root, s, Some(w)), p, Some(w)),
                        )
                    }
                } else if color_of(m, m[s].right) == Color::RED {
                    let w = m[s].right.unwrap();
                    if on_left {
                        let m1 = with_color(m, w, m[p].color);
                        let m2 = rotated_left(m1, s);
                        (
                            with_color(rotated_right(m2, p), p, Color::BLACK),
                            replace_root(m2, replace_root(m1, root, s, Some(w)), p, Some(w)),
                        )
                    } else {
                        let m2 = with_color(with_color(m, w, m[s].color), s, m[p].color);
                        (
                            with_color(rotated_left(m2, p), p, Color::BLACK),
                            replace_root(m2, root, p, Some(s)),
                        )
                    }
                } else {
                    let m1 = with_color(m, s, Color::RED);
                    if m[p].color == Color::BLACK {
                        made_up(m1, root, p, (rounds - 1) as nat)
                    } else {
                        (with_color(m1, p, Color::BLACK), root)
                    }
                }
            },
        }
    }
}

/// What holds while the place of `x` is one black node short on account of
/// the leaf `v` at or below it, which is about to leave the tree: `x` is
/// black, and but for the missing node the colors are sound.
pub open spec fn short_at<T: Copy>(
    m: Map<NodeKey, Node<T>>,
    root: Option<NodeKey>,
    sh: Shape,
    n: int,
    bh: Map<NodeKey, nat>,
    v: NodeKey,
    x: NodeKey,
) -> bool {
    &&& tree_inv(m, root, sh, n)
    &&& colors_inv(m, bh, Some(v), Some(x), None)
    &&& color_of(m, root) == Color::BLACK
    &&& m.dom().contains(v)
    &&& m.dom().contains(x)
    &&& sh.lo[x] <= sh.pos[v] < sh.hi[x]
    &&& bh[v] == 1
    &&& m[x].color == Color::BLACK
    &&& m[v].left.is_none()
    &&& m[v].right.is_none()
    &&& m[v].parent.is_some()
}

/// Node `v` is neither `s` nor a child nor a grandchild of `s`.
pub open spec fn outside<T: Copy>(m: Map<NodeKey, Node<T>>, v: NodeKey, s: NodeKey) -> bool {
    &&& v != s
    &&& m[s].left != Some(v)
    &&& m[s].right != Some(v)
    &&& m[s].left.is_some() ==> m[m[s].left.unwrap()].left != Some(v) && m[m[s].left.unwrap()].right
        != Some(v)
    &&& m[s].right.is_some() ==> m[m[s].right.unwrap()].left != Some(v)
        && m[m[s].right.unwrap()].right != Some(v)
}

/// The same state as `short_at`, as the links and colors alone tell it:
/// `p` is the parent of `x` and `s` its sibling, and `v` lies apart from
/// both.
pub open spec fn short_by<T: Copy>(
    m: Map<NodeKey, Node<T>>,
    root: Option<NodeKey>,
    bh: Map<NodeKey, nat>,
    v: NodeKey,
    x: NodeKey,
    p: NodeKey,
    s: NodeKey,
) -> bool {
    &&& forall|k: NodeKey| m.dom().contains(k) ==> #[trigger] knit(m, k)
    &&& colors_inv(m, bh, Some(v), Some(x), None)
    &&& color_of(m, root) == Color::BLACK
    &&& root.is_some() ==> m.dom().contains(root.unwrap()) && m[root.unwrap()].parent.is_none()
    &&& m[p].parent.is_none() ==> root == Some(p)
    &&& m.dom().contains(v)
    &&& m.dom().contains(x)
    &&& m.dom().contains(p)
    &&& m.dom().contains(s)
    &&& bh[v] == 1
    &&& bh[x] >= 1
    &&& m[x].color == Color::BLACK
    &&& m[x].parent == Some(p)
    &&& sibling_of(m, x) == Some(s)
    &&& x != s
    &&& p != v
    &&& outside(m, v, s)
    &&& m[v].left.is_none()
    &&& m[v].right.is_none()
    &&& m[v].parent.is_some()
    &&& outside(m, x, s)
    &&& outside(m, p, s)
    &&& m[p].parent.is_some() ==> outside(m, m[p].parent.unwrap(), s)
}

/// The place that is one black node short has a sibling, and the leaf that
/// is about to leave lies apart from that sibling and from the parent.
pub proof fn lemma_short_by<T: Copy>(
    m: Map<NodeKey, Node<T>>,
    root: Option<NodeKey>,
    sh: Shape,
    n: int,
    bh: Map<NodeKey, nat>,
    v: NodeKey,
    x: NodeKey,
)
    requires
        short_at(m, root, sh, n, bh, v, x),
        m[x].parent.is_some(),
    ensures
        sibling_of(m, x).is_some(),
        short_by(m, root, bh, v, x, m[x].parent.unwrap(), sibling_of(m, x).unwrap()),
        sh.lo[m[x].parent.unwrap()] <= sh.pos[v] < sh.hi[m[x].parent.unwrap()],
        sh.hi[m[x].parent.unwrap()] - sh.lo[m[x].parent.unwrap()] > sh.hi[x] - sh.lo[x],
        0 <= sh.hi[x] - sh.lo[x] <= n,
{
    let p = m[x].parent.unwrap();
    assert(link_ok(m, root, sh, n, x));
    assert(link_ok(m, root, sh, n, p));
    assert(link_ok(m, root, sh, n, v));
    assert(color_ok(m, bh, p, Some(x), None));
    if x != v {
        assert(color_ok(m, bh, x, Some(x), None));
    }
    let s = sibling_of(m, x).unwrap();
    assert(link_ok(m, root, sh, n, s));
    if m[s].left.is_some() {
        let c = m[s].left.unwrap();
        assert(link_ok(m, root, sh, n, c));
        if m[c].left.is_some() {
            assert(link_ok(m, root, sh, n, m[c].left.unwrap()));
        }
        if m[c].right.is_some() {
            assert(link_ok(m, root, sh, n, m[c].right.unwrap()));
        }
    }
    if m[s].right.is_some() {
        let c = m[s].right.unwrap();
        assert(link_ok(m, root, sh, n, c));
        if m[c].left.is_some() {
            assert(link_ok(m, root, sh, n, m[c].left.unwrap()));
        }
        if m[c].right.is_some() {
            assert(link_ok(m, root, sh, n, m[c].right.unwrap()));
        }
    }
    assert forall|k: NodeKey| m.dom().contains(k) implies #[trigger] knit(m, k) by {
        lemma_knit(m, root, sh, n, k);
    }
}

/// The nodes after a rotation at the left child `s` of `p` that lifts the
/// right child `w` of `s`, and a rotation at `p` that lifts `w` once more:
/// `w` stands where `p` stood, with `p` and `s` as its children, and the
/// former children of `w` hang under `p` and `s`.
pub open spec fn lifted_from_left<T: Copy>(m: Map<NodeKey, Node<T>>, p: NodeKey) -> Map<
    NodeKey,
    Node<T>,
> {
    let s = m[p].left.unwrap();
    let w = m[s].right.unwrap();
    Map::new(
        |k: NodeKey| m.dom().contains(k),
        |k: NodeKey|
            if k == p {
                Node { left: m[w].right, parent: Some(w), ..m[p] }
            } else if k == w {
                Node { right: Some(p), left: Some(s), parent: m[p].parent, ..m[w] }
            } else if k == s {
                Node { right: m[w].left, parent: Some(w), ..m[s] }
            } else if m[w].right == Some(k) {
                Node { parent: Some(p), ..m[k] }
            } else if m[w].left == Some(k) {
                Node { parent: Some(s), ..m[k] }
            } else if m[p].parent == Some(k) {
                with_child(m[k], p, Some(w))
            } else {
                m[k]
            },
    )
}

/// Two rotations in a row do what `lifted_from_left` says.
pub proof fn lemma_lifted_from_left<T: Copy>(m: Map<NodeKey, Node<T>>, p: NodeKey)
    requires
        forall|k: NodeKey| m.dom().contains(k) ==> #[trigger] knit(m, k),
        m.dom().contains(p),
        m[p].left.is_some(),
        m[m[p].left.unwrap()].right.is_some(),
        outside(m, p, m[p].left.unwrap()),
        m[p].parent.is_some() ==> outside(m, m[p].parent.unwrap(), m[p].left.unwrap()),
    ensures
        rotated_right(rotated_left(m, m[p].left.unwrap()), p) =~= lifted_from_left(m, p),
        rotated_left(m, m[p].left.unwrap())[p].left == m[m[p].left.unwrap()].right,
        rotated_left(m, m[p].left.unwrap())[p].parent == m[p].parent,
{
    let s = m[p].left.unwrap();
    let w = m[s].right.unwrap();
    let m2 = rotated_left(m, s);
    let m3 = rotated_right(m2, p);
    let goal = lifted_from_left(m, p);
    assert(knit(m, p));
    assert(knit(m, s));
    assert(knit(m, w));
    if m[p].parent.is_some() {
        assert(knit(m, m[p].parent.unwrap()));
    }
    if m[w].left.is_some() {
        assert(knit(m, m[w].left.unwrap()));
    }
    if m[w].right.is_some() {
        assert(knit(m, m[w].right.unwrap()));
    }
    assert(m2[p] == (Node { left: Some(w), ..m[p] }));
    assert(m2[w] == (Node { left: Some(s), parent: Some(p), ..m[w] }));
    assert(m2[s] == (Node { right: m[w].left, parent: Some(w), ..m[s] }));
    assert(m3.dom() =~= m.dom());
    assert forall|k: NodeKey| m.dom().contains(k) implies #[trigger] m3[k] == goal[k] by {
        assert(knit(m, k));
    }
}

/// The nodes after a rotation at the right child `s` of `p` that lifts the
/// left child `w` of `s`, and a rotation at `p` that lifts `w` once more:
/// `w` stands where `p` stood, with `p` and `s` as its children, and the
/// former children of `w` hang under `p` and `s`.
pub open spec fn lifted_from_right<T: Copy>(m: Map<NodeKey, Node<T>>, p: NodeKey) -> Map<
    NodeKey,
    Node<T>,
> {
    let s = m[p].right.unwrap();
    let w = m[s].left.unwrap();
    Map::new(
        |k: NodeKey| m.dom().contains(k),
        |k: NodeKey|
            if k == p {
                Node { right: m[w].left, parent: Some(w), ..m[p] }
            } else if k == w {
                Node { left: Some(p), right: Some(s), parent: m[p].parent, ..m[w] }
            } else if k == s {
                Node { left: m[w].right, parent: Some(w), ..m[s] }
            } else if m[w].left == Some(k) {
                Node { parent: Some(p), ..m[k] }
            } else if m[w].right == Some(k) {
                Node { parent: Some(s), ..m[k] }
            } else if m[p].parent == Some(k) {
                with_child(m[k], p, Some(w))
            } else {
                m[k]
            },
    )
}

/// Two rotations in a row do what `lifted_from_right` says.
pub proof fn lemma_lifted_from_right<T: Copy>(m: Map<NodeKey, Node<T>>, p: NodeKey)
    requires
        forall|k: NodeKey| m.dom().contains(k) ==> #[trigger] knit(m, k),
        m.dom().contains(p),
        m[p].right.is_some(),
        m[m[p].right.unwrap()].left.is_some(),
        outside(m, p, m[p].right.unwrap()),
        m[p].parent.is_some() ==> outside(m, m[p].parent.unwrap(), m[p].right.unwrap()),
    ensures
        rotated_left(rotated_right(m, m[p].right.unwrap()), p) =~= lifted_from_right(m, p),
        rotated_right(m, m[p].right.unwrap())[p].right == m[m[p].right.unwrap()].left,
        rotated_right(m, m[p].right.unwrap())[p].parent == m[p].parent,
{
    let s = m[p].right.unwrap();
    let w = m[s].left.unwrap();
    let m2 = rotated_right(m, s);
    let m3 = rotated_left(m2, p);
    let goal = lifted_from_right(m, p);
    assert(knit(m, p));
    assert(knit(m, s));
    assert(knit(m, w));
    if m[p].parent.is_some() {
        assert(knit(m, m[p].parent.unwrap()));
    }
    if m[w].left.is_some() {
        assert(knit(m, m[w].left.unwrap()));
    }
    if m[w].right.is_some() {
        assert(knit(m, m[w].right.unwrap()));
    }
    assert(m2[p] == (Node { right: Some(w), ..m[p] }));
    assert(m2[w] == (Node { right: Some(s), parent: Some(p), ..m[w] }));
    assert(m2[s] == (Node { left: m[w].right, parent: Some(w), ..m[s] }));
    assert(m3.dom() =~= m.dom());
    assert forall|k: NodeKey| m.dom().contains(k) implies #[trigger] m3[k] == goal[k] by {
        assert(knit(m, k));
    }
}

/// A red sibling on the right: painting the parent red and the sibling
/// black and rotating at the parent toward the short side leaves the same
/// place short, now with a black sibling.
pub proof fn lemma_red_sibling_right<T: Copy>(
    m: Map<NodeKey, Node<T>>,
    root: Option<NodeKey>,
    bh: Map<NodeKey, nat>,
    v: NodeKey,
    x: NodeKey,
    p: NodeKey,
    s: NodeKey,
)
    requires
        short_by(m, root, bh, v, x, p, s),
        m[p].right == Some(s),
        m[s].color == Color::RED,
    ensures
        ({
            let m1 = with_color(with_color(m, p, Color::RED), s, Color::BLACK);
            let m2 = rotated_left(m1, p);
            let bh2 = bh.insert(p, bh[s]).insert(s, bh[p]);
            &&& colors_inv(m2, bh2, Some(v), Some(x), None)
            &&& color_of(m2, replace_root(m1, root, p, Some(s))) == Color::BLACK
            &&& m2[x].parent == Some(p)
            &&& m2[x].color == Color::BLACK
            &&& color_of(m2, sibling_of(m2, x)) == Color::BLACK
            &&& bh2[v] == 1
            &&& m2[v] == m[v]
        }),
{
    let m1 = with_color(with_color(m, p, Color::RED), s, Color::BLACK);
    let m2 = rotated_left(m1, p);
    let bh2 = bh.insert(p, bh[s]).insert(s, bh[p]);
    let g = m[p].parent;
    assert(knit(m, x));
    assert(knit(m, p));
    assert(knit(m, s));
    assert(color_ok(m, bh, p, Some(x), None));
    assert(color_ok(m, bh, s, Some(x), None));
    if x != v {
        assert(color_ok(m, bh, x, Some(x), None));
    }
    if g.is_some() {
        assert(knit(m, g.unwrap()));
    }
    if m[s].left.is_some() {
        let c = m[s].left.unwrap();
        assert(knit(m, c));
        assert(color_ok(m, bh, c, Some(x), None));
    }
    if m[s].right.is_some() {
        let c = m[s].right.unwrap();
        assert(knit(m, c));
        assert(color_ok(m, bh, c, Some(x), None));
    }
    if root.is_some() {
        assert(knit(m, root.unwrap()));
    }
    assert forall|k: NodeKey| m2.dom().contains(k) && Some(k) != Some(v) implies #[trigger] color_ok(
        m2,
        bh2,
        k,
        Some(x),
        None,
    ) by {
        assert(color_ok(m, bh, k, Some(x), None));
        assert(knit(m, k));
    }
}

/// A red sibling on the left: painting the parent red and the sibling
/// black and rotating at the parent toward the short side leaves the same
/// place short, now with a black sibling.
pub proof fn lemma_red_sibling_left<T: Copy>(
    m: Map<NodeKey, Node<T>>,
    root: Option<NodeKey>,
    bh: Map<NodeKey, nat>,
    v: NodeKey,
    x: NodeKey,
    p: NodeKey,
    s: NodeKey,
)
    requires
        short_by(m, root, bh, v, x, p, s),
        m[p].left == Some(s),
        m[s].color == Color::RED,
    ensures
        ({
            let m1 = with_color(with_color(m, p, Color::RED), s, Color::BLACK);
            let m2 = rotated_right(m1, p);
            let bh2 = bh.insert(p, bh[s]).insert(s, bh[p]);
            &&& colors_inv(m2, bh2, Some(v), Some(x), None)
            &&& color_of(m2, replace_root(m1, root, p, Some(s))) == Color::BLACK
            &&& m2[x].parent == Some(p)
            &&& m2[x].color == Color::BLACK
            &&& color_of(m2, sibling_of(m2, x)) == Color::BLACK
            &&& bh2[v] == 1
            &&& m2[v] == m[v]
        }),
{
    let m1 = with_color(with_color(m, p, Color::RED), s, Color::BLACK);
    let m2 = rotated_right(m1, p);
    let bh2 = bh.insert(p, bh[s]).insert(s, bh[p]);
    let g = m[p].parent;
    assert(knit(m, x));
    assert(knit(m, p));
    assert(knit(m, s));
    assert(color_ok(m, bh, p, Some(x), None));
    assert(color_ok(m, bh, s, Some(x), None));
    if x != v {
        assert(color_ok(m, bh, x, Some(x), None));
    }
    if g.is_some() {
        assert(knit(m, g.unwrap()));
    }
    if m[s].left.is_some() {
        let c = m[s].left.unwrap();
        assert(knit(m, c));
        assert(color_ok(m, bh, c, Some(x), None));
    }
    if m[s].right.is_some() {
        let c = m[s].right.unwrap();
        assert(knit(m, c));
        assert(color_ok(m, bh, c, Some(x), None));
    }
    if root.is_some() {
        assert(knit(m, root.unwrap()));
    }
    assert forall|k: NodeKey| m2.dom().contains(k) && Some(k) != Some(v) implies #[trigger] color_ok(
        m2,
        bh2,
        k,
        Some(x),
        None,
    ) by {
        assert(color_ok(m, bh, k, Some(x), None));
        assert(knit(m, k));
    }
}

/// A black sibling with two black children under a black parent: painting
/// the sibling red moves the shortage up to the parent.
pub proof fn lemma_shortage_moves_up<T: Copy>(
    m: Map<NodeKey, Node<T>>,
    root: Option<NodeKey>,
    bh: Map<NodeKey, nat>,
    v: NodeKey,
    x: NodeKey,
    p: NodeKey,
    s: NodeKey,
)
    requires
        short_by(m, root, bh, v, x, p, s),
        m[s].color == Color::BLACK,
        color_of(m, m[s].left) == Color::BLACK,
        color_of(m, m[s].right) == Color::BLACK,
        m[p].color == Color::BLACK,
    ensures
        ({
            let m1 = with_color(m, s, Color::RED);
            let bh2 = bh.insert(s, (bh[s] - 1) as nat).insert(p, (bh[p] - 1) as nat);
            &&& colors_inv(m1, bh2, Some(v), Some(p), None)
            &&& color_of(m1, root) == Color::BLACK
            &&& bh2[v] == 1
            &&& m1[v] == m[v]
            &&& m1[p].color == Color::BLACK
        }),
{
    let m1 = with_color(m, s, Color::RED);
    let bh2 = bh.insert(s, (bh[s] - 1) as nat).insert(p, (bh[p] - 1) as nat);
    let g = m[p].parent;
    assert(knit(m, x));
    assert(knit(m, p));
    assert(knit(m, s));
    assert(color_ok(m, bh, p, Some(x), None));
    assert(color_ok(m, bh, s, Some(x), None));
    if x != v {
        assert(color_ok(m, bh, x, Some(x), None));
    }
    if g.is_some() {
        assert(knit(m, g.unwrap()));
    }
    if m[s].left.is_some() {
        let c = m[s].left.unwrap();
        assert(knit(m, c));
        assert(color_ok(m, bh, c, Some(x), None));
    }
    if m[s].right.is_some() {
        let c = m[s].right.unwrap();
        assert(knit(m, c));
        assert(color_ok(m, bh, c, Some(x), None));
    }
    if root.is_some() {
        assert(knit(m, root.unwrap()));
    }
    assert forall|k: NodeKey| m1.dom().contains(k) && Some(k) != Some(v) implies #[trigger] color_ok(
        m1,
        bh2,
        k,
        Some(p),
        None,
    ) by {
        assert(color_ok(m, bh, k, Some(x), None));
        assert(knit(m, k));
    }
}

/// A black sibling with two black children under a red parent: painting
/// the sibling red and the parent black makes up for the missing node.
pub proof fn lemma_shortage_ends<T: Copy>(
    m: Map<NodeKey, Node<T>>,
    root: Option<NodeKey>,
    bh: Map<NodeKey, nat>,
    v: NodeKey,
    x: NodeKey,
    p: NodeKey,
    s: NodeKey,
)
    requires
        short_by(m, root, bh, v, x, p, s),
        m[s].color == Color::BLACK,
        color_of(m, m[s].left) == Color::BLACK,
        color_of(m, m[s].right) == Color::BLACK,
        m[p].color == Color::RED,
    ensures
        ({
            let m2 = with_color(with_color(m, s, Color::RED), p, Color::BLACK);
            let bh2 = bh.insert(s, (bh[s] - 1) as nat);
            &&& colors_inv(m2, bh2, Some(v), None, None)
            &&& color_of(m2, root) == Color::BLACK
            &&& bh2[v] == 1
            &&& m2[v] == m[v]
        }),
{
    let m2 = with_color(with_color(m, s, Color::RED), p, Color::BLACK);
    let bh2 = bh.insert(s, (bh[s] - 1) as nat);
    let g = m[p].parent;
    assert(knit(m, x));
    assert(knit(m, p));
    assert(knit(m, s));
    assert(color_ok(m, bh, p, Some(x), None));
    assert(color_ok(m, bh, s, Some(x), None));
    if x != v {
        assert(color_ok(m, bh, x, Some(x), None));
    }
    if g.is_some() {
        assert(knit(m, g.unwrap()));
    }
    if m[s].left.is_some() {
        let c = m[s].left.unwrap();
        assert(knit(m, c));
        assert(color_ok(m, bh, c, Some(x), None));
    }
    if m[s].right.is_some() {
        let c = m[s].right.unwrap();
        assert(knit(m, c));
        assert(color_ok(m, bh, c, Some(x), None));
    }
    if root.is_some() {
        assert(knit(m, root.unwrap()));
    }
    assert forall|k: NodeKey| m2.dom().contains(k) && Some(k) != Some(v) implies #[trigger] color_ok(
        m2,
        bh2,
        k,
        None,
        None,
    ) by {
        assert(color_ok(m, bh, k, Some(x), None));
        assert(knit(m, k));
    }
}

/// A black sibling on the left whose left child is red: the child takes
/// the sibling's color, the sibling the parent's, and a rotation at the
/// parent toward the short side, with the parent painted black, makes up for
/// the missing node.
pub proof fn lemma_far_nephew_left<T: Copy>(
    m: Map<NodeKey, Node<T>>,
    root: Option<NodeKey>,
    bh: Map<NodeKey, nat>,
    v: NodeKey,
    x: NodeKey,
    p: NodeKey,
    s: NodeKey,
    w: NodeKey,
)
    requires
        short_by(m, root, bh, v, x, p, s),
        m[p].left == Some(s),
        m[s].color == Color::BLACK,
        m[s].left == Some(w),
        color_of(m, Some(w)) == Color::RED,
    ensures
        ({
            let m1 = with_color(m, w, m[s].color);
            let m2 = with_color(m1, s, m1[p].color);
            let m3 = rotated_right(m2, p);
            let m4 = with_color(m3, p, Color::BLACK);
            let bh2 = bh.insert(w, bh[s]).insert(p, bh[s]).insert(s, bh[p]);
            &&& colors_inv(m4, bh2, Some(v), None, None)
            &&& color_of(m4, replace_root(m2, root, p, Some(s))) == Color::BLACK
            &&& bh2[v] == 1
            &&& m4[v] == m[v]
        }),
{
    let m1 = with_color(m, w, m[s].color);
    let m2 = with_color(m1, s, m1[p].color);
    let m3 = rotated_right(m2, p);
    let m4 = with_color(m3, p, Color::BLACK);
    let bh2 = bh.insert(w, bh[s]).insert(p, bh[s]).insert(s, bh[p]);
    let g = m[p].parent;
    assert(knit(m, x));
    assert(knit(m, p));
    assert(knit(m, s));
    assert(color_ok(m, bh, p, Some(x), None));
    assert(color_ok(m, bh, s, Some(x), None));
    if x != v {
        assert(color_ok(m, bh, x, Some(x), None));
    }
    if g.is_some() {
        assert(knit(m, g.unwrap()));
    }
    if m[s].left.is_some() {
        let c = m[s].left.unwrap();
        assert(knit(m, c));
        assert(color_ok(m, bh, c, Some(x), None));
    }
    if m[s].right.is_some() {
        let c = m[s].right.unwrap();
        assert(knit(m, c));
        assert(color_ok(m, bh, c, Some(x), None));
    }
    if root.is_some() {
        assert(knit(m, root.unwrap()));
    }
    assert forall|k: NodeKey| m4.dom().contains(k) && Some(k) != Some(v) implies #[trigger] color_ok(
        m4,
        bh2,
        k,
        None,
        None,
    ) by {
        assert(color_ok(m, bh, k, Some(x), None));
        assert(knit(m, k));
    }
}

/// A black sibling on the right whose right child is red: the child takes
/// the sibling's color, the sibling the parent's, and a rotation at the
/// parent toward the short side, with the parent painted black, makes up for
/// the missing node.
pub proof fn lemma_far_nephew_right<T: Copy>(
    m: Map<NodeKey, Node<T>>,
    root: Option<NodeKey>,
    bh: Map<NodeKey, nat>,
    v: NodeKey,
    x: NodeKey,
    p: NodeKey,
    s: NodeKey,
    w: NodeKey,
)
    requires
        short_by(m, root, bh, v, x, p, s),
        m[p].right == Some(s),
        m[s].color == Color::BLACK,
        m[s].right == Some(w),
        color_of(m, Some(w)) == Color::RED,
    ensures
        ({
            let m1 = with_color(m, w, m[s].color);
            let m2 = with_color(m1, s, m1[p].color);
            let m3 = rotated_left(m2, p);
            let m4 = with_color(m3, p, Color::BLACK);
            let bh2 = bh.insert(w, bh[s]).insert(p, bh[s]).insert(s, bh[p]);
            &&& colors_inv(m4, bh2, Some(v), None, None)
            &&& color_of(m4, replace_root(m2, root, p, Some(s))) == Color::BLACK
            &&& bh2[v] == 1
            &&& m4[v] == m[v]
        }),
{
    let m1 = with_color(m, w, m[s].color);
    let m2 = with_color(m1, s, m1[p].color);
    let m3 = rotated_left(m2, p);
    let m4 = with_color(m3, p, Color::BLACK);
    let bh2 = bh.insert(w, bh[s]).insert(p, bh[s]).insert(s, bh[p]);
    let g = m[p].parent;
    assert(knit(m, x));
    assert(knit(m, p));
    assert(knit(m, s));
    assert(color_ok(m, bh, p, Some(x), None));
    assert(color_ok(m, bh, s, Some(x), None));
    if x != v {
        assert(color_ok(m, bh, x, Some(x), None));
    }
    if g.is_some() {
        assert(knit(m, g.unwrap()));
    }
    if m[s].left.is_some() {
        let c = m[s].left.unwrap();
        assert(knit(m, c));
        assert(color_ok(m, bh, c, Some(x), None));
    }
    if m[s].right.is_some() {
        let c = m[s].right.unwrap();
        assert(knit(m, c));
        assert(color_ok(m, bh, c, Some(x), None));
    }
    if root.is_some() {
        assert(knit(m, root.unwrap()));
    }
    assert forall|k: NodeKey| m4.dom().contains(k) && Some(k) != Some(v) implies #[trigger] color_ok(
        m4,
        bh2,
        k,
        None,
        None,
    ) by {
        assert(color_ok(m, bh, k, Some(x), None));
        assert(knit(m, k));
    }
}

/// A black sibling on the left whose right child is red, after the child
/// has taken the parent's color and has been lifted above parent and
/// sibling: the parent painted black makes up for the missing node.
#[verifier::rlimit(50)]
proof fn lemma_near_nephew_left_lifted<T: Copy>(
    m: Map<NodeKey, Node<T>>,
    root: Option<NodeKey>,
    bh: Map<NodeKey, nat>,
    v: NodeKey,
    x: NodeKey,
    p: NodeKey,
    s: NodeKey,
    w: NodeKey,
)
    requires
        short_by(m, root, bh, v, x, p, s),
        m[p].left == Some(s),
        m[s].color == Color::BLACK,
        m[s].right == Some(w),
        color_of(m, Some(w)) == Color::RED,
    ensures
        ({
            let m1 = with_color(m, w, m[p].color);
            let m4 = with_color(lifted_from_left(m1, p), p, Color::BLACK);
            let bh2 = bh.insert(p, bh[s]).insert(w, bh[p]);
            &&& colors_inv(m4, bh2, Some(v), None, None)
            &&& color_of(
                m4,
                if m[p].parent.is_none() {
                    Some(w)
                } else {
                    root
                },
            ) == Color::BLACK
            &&& bh2[v] == 1
            &&& m4[v] == m[v]
        }),
{
    let m1 = with_color(m, w, m[p].color);
    let m4 = with_color(lifted_from_left(m1, p), p, Color::BLACK);
    let bh2 = bh.insert(p, bh[s]).insert(w, bh[p]);
    let g = m[p].parent;
    assert(knit(m, x));
    assert(knit(m, p));
    assert(knit(m, s));
    assert(color_ok(m, bh, p, Some(x), None));
    assert(color_ok(m, bh, s, Some(x), None));
    if x != v {
        assert(color_ok(m, bh, x, Some(x), None));
    }
    if g.is_some() {
        assert(knit(m, g.unwrap()));
    }
    if m[s].left.is_some() {
        let c = m[s].left.unwrap();
        assert(knit(m, c));
        assert(color_ok(m, bh, c, Some(x), None));
    }
    if m[s].right.is_some() {
        let c = m[s].right.unwrap();
        assert(knit(m, c));
        assert(color_ok(m, bh, c, Some(x), None));
    }
    if root.is_some() {
        assert(knit(m, root.unwrap()));
    }
    if m[w].left.is_some() {
        let c = m[w].left.unwrap();
        assert(knit(m, c));
        assert(color_ok(m, bh, c, Some(x), None));
    }
    if m[w].right.is_some() {
        let c = m[w].right.unwrap();
        assert(knit(m, c));
        assert(color_ok(m, bh, c, Some(x), None));
    }
    assert forall|k: NodeKey| m4.dom().contains(k) && Some(k) != Some(v) implies #[trigger] color_ok(
        m4,
        bh2,
        k,
        None,
        None,
    ) by {
        assert(color_ok(m, bh, k, Some(x), None));
        assert(knit(m, k));
        if k == p {
        } else if k == s {
        } else if k == w {
        } else if m[w].left == Some(k) {
        } else if m[w].right == Some(k) {
        } else if g == Some(k) {
        } else {
            assert(m4[k] == m[k]);
            assert(m[k].left != Some(p) && m[k].left != Some(w) && m[k].left != Some(x));
            assert(m[k].right != Some(p) && m[k].right != Some(w) && m[k].right != Some(x));
        }
    }
}

/// A black sibling on the left whose right child is red: the child takes
/// the parent's color, a rotation at the sibling and one at the parent lift
/// it above both, and the parent painted black makes up for the missing
/// node.
pub proof fn lemma_near_nephew_left<T: Copy>(
    m: Map<NodeKey, Node<T>>,
    root: Option<NodeKey>,
    bh: Map<NodeKey, nat>,
    v: NodeKey,
    x: NodeKey,
    p: NodeKey,
    s: NodeKey,
    w: NodeKey,
)
    requires
        short_by(m, root, bh, v, x, p, s),
        m[p].left == Some(s),
        m[s].color == Color::BLACK,
        m[s].right == Some(w),
        color_of(m, Some(w)) == Color::RED,
    ensures
        ({
            let m1 = with_color(m, w, m[p].color);
            let m2 = rotated_left(m1, s);
            let m3 = rotated_right(m2, p);
            let m4 = with_color(m3, p, Color::BLACK);
            let bh2 = bh.insert(p, bh[s]).insert(w, bh[p]);
            &&& m2[p].left == Some(w)
            &&& colors_inv(m4, bh2, Some(v), None, None)
            &&& color_of(
                m4,
                replace_root(m2, replace_root(m1, root, s, Some(w)), p, Some(w)),
            ) == Color::BLACK
            &&& bh2[v] == 1
            &&& m4[v] == m[v]
        }),
{
    let m1 = with_color(m, w, m[p].color);
    assert(knit(m, p));
    assert(knit(m, s));
    assert(knit(m, w));
    assert forall|k: NodeKey| m1.dom().contains(k) implies #[trigger] knit(m1, k) by {
        assert(knit(m, k));
    }
    lemma_lifted_from_left(m1, p);
    lemma_near_nephew_left_lifted(m, root, bh, v, x, p, s, w);
}

/// A black sibling on the right whose left child is red, after the child
/// has taken the parent's color and has been lifted above parent and
/// sibling: the parent painted black makes up for the missing node.
#[verifier::rlimit(50)]
proof fn lemma_near_nephew_right_lifted<T: Copy>(
    m: Map<NodeKey, Node<T>>,
    root: Option<NodeKey>,
    bh: Map<NodeKey, nat>,
    v: NodeKey,
    x: NodeKey,
    p: NodeKey,
    s: NodeKey,
    w: NodeKey,
)
    requires
        short_by(m, root, bh, v, x, p, s),
        m[p].right == Some(s),
        m[s].color == Color::BLACK,
        m[s].left == Some(w),
        color_of(m, Some(w)) == Color::RED,
    ensures
        ({
            let m1 = with_color(m, w, m[p].color);
            let m4 = with_color(lifted_from_right(m1, p), p, Color::BLACK);
            let bh2 = bh.insert(p, bh[s]).insert(w, bh[p]);
            &&& colors_inv(m4, bh2, Some(v), None, None)
            &&& color_of(
                m4,
                if m[p].parent.is_none() {
                    Some(w)
                } else {
                    root
                },
            ) == Color::BLACK
            &&& bh2[v] == 1
            &&& m4[v] == m[v]
        }),
{
    let m1 = with_color(m, w, m[p].color);
    let m4 = with_color(lifted_from_right(m1, p), p, Color::BLACK);
    let bh2 = bh.insert(p, bh[s]).insert(w, bh[p]);
    let g = m[p].parent;
    assert(knit(m, x));
    assert(knit(m, p));
    assert(knit(m, s));
    assert(color_ok(m, bh, p, Some(x), None));
    assert(color_ok(m, bh, s, Some(x), None));
    if x != v {
        assert(color_ok(m, bh, x, Some(x), None));
    }
    if g.is_some() {
        assert(knit(m, g.unwrap()));
    }
    if m[s].left.is_some() {
        let c = m[s].left.unwrap();
        assert(knit(m, c));
        assert(color_ok(m, bh, c, Some(x), None));
    }
    if m[s].right.is_some() {
        let c = m[s].right.unwrap();
        assert(knit(m, c));
        assert(color_ok(m, bh, c, Some(x), None));
    }
    if root.is_some() {
        assert(knit(m, root.unwrap()));
    }
    if m[w].left.is_some() {
        let c = m[w].left.unwrap();
        assert(knit(m, c));
        assert(color_ok(m, bh, c, Some(x), None));
    }
    if m[w].right.is_some() {
        let c = m[w].right.unwrap();
        assert(knit(m, c));
        assert(color_ok(m, bh, c, Some(x), None));
    }
    assert forall|k: NodeKey| m4.dom().contains(k) && Some(k) != Some(v) implies #[trigger] color_ok(
        m4,
        bh2,
        k,
        None,
        None,
    ) by {
        assert(color_ok(m, bh, k, Some(x), None));
        assert(knit(m, k));
        if k == p {
        } else if k == s {
        } else if k == w {
        } else if m[w].left == Some(k) {
        } else if m[w].right == Some(k) {
        } else if g == Some(k) {
        } else {
            assert(m4[k] == m[k]);
            assert(m[k].left != Some(p) && m[k].left != Some(w) && m[k].left != Some(x));
            assert(m[k].right != Some(p) && m[k].right != Some(w) && m[k].right != Some(x));
        }
    }
}

/// A black sibling on the right whose left child is red: the child takes
/// the parent's color, a rotation at the sibling and one at the parent lift
/// it above both, and the parent painted black makes up for the missing
/// node.
pub proof fn lemma_near_nephew_right<T: Copy>(
    m: Map<NodeKey, Node<T>>,
    root: Option<NodeKey>,
    bh: Map<NodeKey, nat>,
    v: NodeKey,
    x: NodeKey,
    p: NodeKey,
    s: NodeKey,
    w: NodeKey,
)
    requires
        short_by(m, root, bh, v, x, p, s),
        m[p].right == Some(s),
        m[s].color == Color::BLACK,
        m[s].left == Some(w),
        color_of(m, Some(w)) == Color::RED,
    ensures
        ({
            let m1 = with_color(m, w, m[p].color);
            let m2 = rotated_right(m1, s);
            let m3 = rotated_left(m2, p);
            let m4 = with_color(m3, p, Color::BLACK);
            let bh2 = bh.insert(p, bh[s]).insert(w, bh[p]);
            &&& m2[p].right == Some(w)
            &&& colors_inv(m4, bh2, Some(v), None, None)
            &&& color_of(
                m4,
                replace_root(m2, replace_root(m1, root, s, Some(w)), p, Some(w)),
            ) == Color::BLACK
            &&& bh2[v] == 1
            &&& m4[v] == m[v]
        }),
{
    let m1 = with_color(m, w, m[p].color);
    assert(knit(m, p));
    assert(knit(m, s));
    assert(knit(m, w));
    assert forall|k: NodeKey| m1.dom().contains(k) implies #[trigger] knit(m1, k) by {
        assert(knit(m, k));
    }
    lemma_lifted_from_right(m1, p);
    lemma_near_nephew_right_lifted(m, root, bh, v, x, p, s, w);
}

} // verus!
