//! A red-black tree whose nodes are threaded into a doubly linked list that
//! mirrors the tree's in-order sequence.
//!
//! Elements are placed by position: a new element goes immediately before or
//! after an existing one, named by its handle, and an element is deleted by
//! its handle. The tree never compares payloads. The order chain gives the
//! neighbours of an element in constant time.
//!
//! The view of a [`Tree`] is the sequence of its live handles in order.
//! Every operation keeps the tree well formed: the links form one binary
//! tree, the order chain lists its in-order walk, and the colors obey the
//! red-black rules. What that promises is stated in [`laws`].
//!
//! - [`store`] holds the nodes under stable handles.
//! - [`model`] says what makes links, order chain and colors sound.
//! - [`tree`] holds the tree and its constant-time reads and writes.
//! - [`rotate`] and [`swap`] change the shape of the tree locally.
//! - [`place`] and [`insert`] take a new node in and repair the colors.
//! - [`unlink`], [`fixup`] and [`delete`] take a node out and repair the
//!   colors.

pub mod delete;
pub mod fixup;
pub mod insert;
pub mod laws;
pub mod model;
pub mod node;
pub mod place;
pub mod rotate;
pub mod store;
pub mod swap;
pub mod tree;
pub mod unlink;

pub use node::{Color, Node, NodeKey, NodeType};
pub use store::NodeStore;
pub use tree::{Tree, TreeError};
