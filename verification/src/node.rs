//! Node records and the handles that name them.

use vstd::prelude::*;

verus! {

/// The handle type of the slot map, opaque to the verifier.
#[verifier::external_type_specification]
#[verifier::external_body]
pub struct ExDefaultKey(slotmap::DefaultKey);

/// A stable handle to one node of a tree.
pub type NodeKey = slotmap::DefaultKey;

/// The color of a node.
#[derive(PartialEq, Eq, Structural, Copy, Clone, Debug)]
pub enum Color {
    RED,
    BLACK,
}

/// How a node hangs under its parent.
#[derive(PartialEq, Eq, Structural, Copy, Clone, Debug)]
pub enum NodeType {
    LeftChild,
    RightChild,
    Orphan,
}

/// One element of the tree: its tree links, its neighbours in the order
/// chain, its color and its payload.
pub struct Node<T: Copy> {
    pub parent: Option<NodeKey>,
    pub left: Option<NodeKey>,
    pub right: Option<NodeKey>,
    pub contents: T,
    pub prev: Option<NodeKey>,
    pub next: Option<NodeKey>,
    pub color: Color,
}

impl<T: Copy> Clone for Node<T> {
    fn clone(&self) -> (copy: Self)
        ensures
            copy == *self,
    {
        *self
    }
}

impl<T: Copy> Copy for Node<T> {
}

impl<T: Copy> Node<T> {
    /// A node of the given color that is linked to nothing.
    pub open spec fn alone(contents: T, color: Color) -> Self {
        Node { parent: None, left: None, right: None, contents, prev: None, next: None, color }
    }

    /// A red node that is linked to nothing.
    pub fn new(contents: T) -> (node: Self)
        ensures
            node == Self::alone(contents, Color::RED),
    {
        Node {
            parent: None,
            left: None,
            right: None,
            contents,
            prev: None,
            next: None,
            color: Color::RED,
        }
    }
}

/// Compares two handles with the `==` of `slotmap::DefaultKey`, which holds
/// exactly when both name the same slot in the same version.
#[verifier::external_body]
pub(crate) fn key_eq(a: NodeKey, b: NodeKey) -> (same: bool)
    ensures
        same == (a == b),
{
    a == b
}

/// Whether two optional handles are equal.
pub(crate) fn link_eq(a: Option<NodeKey>, b: Option<NodeKey>) -> (same: bool)
    ensures
        same == (a == b),
{
    match a {
        Some(x) => match b {
            Some(y) => key_eq(x, y),
            None => false,
        },
        None => b.is_none(),
    }
}

} // verus!
