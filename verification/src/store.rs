//! The node store: stable handles from a slot map, node records in a dense
//! vector.

use vstd::prelude::*;
use crate::node::{Node, NodeKey};

verus! {

/// The most nodes a store can hold.
pub const MAX_NODES: usize = 0xffff_fffe;

/// A slot map from handles to positions in the vector of records.
#[verifier::external_body]
pub struct SlotIndex {
    inner: slotmap::SlotMap<slotmap::DefaultKey, usize>,
}

/// The live handles of a slot map, each with the value stored under it.
pub uninterp spec fn slot_entries(index: SlotIndex) -> Map<NodeKey, usize>;

/// `SlotMap::new`: a slot map without live handles.
#[verifier::external_body]
fn slots_new() -> (fresh: SlotIndex)
    ensures
        slot_entries(fresh).dom() == Set::<NodeKey>::empty(),
{
    SlotIndex { inner: slotmap::SlotMap::new() }
}

/// `SlotMap::get`: the value under a live handle, nothing under any other.
#[verifier::external_body]
fn slots_get(index: &SlotIndex, key: NodeKey) -> (slot: Option<usize>)
    ensures
        slot == (if slot_entries(*index).dom().contains(key) {
            Some(slot_entries(*index)[key])
        } else {
            None
        }),
{
    index.inner.get(key).copied()
}

/// `SlotMap::insert`: stores the value under a handle that was not live
/// before and leaves every other entry alone. It panics on a full map, which
/// a map that never detached a handle is only with 2^32 - 2 live handles.
#[verifier::external_body]
fn slots_insert(index: &mut SlotIndex, slot: usize) -> (key: NodeKey)
    requires
        slot_entries(*old(index)).dom().finite(),
        slot_entries(*old(index)).dom().len() < MAX_NODES,
    ensures
        !slot_entries(*old(index)).dom().contains(key),
        slot_entries(*final(index)) == slot_entries(*old(index)).insert(key, slot),
{
    index.inner.insert(slot)
}

/// `SlotMap::remove`: takes a live handle out and returns its value; for any
/// other handle it returns nothing and changes nothing.
#[verifier::external_body]
fn slots_remove(index: &mut SlotIndex, key: NodeKey) -> (slot: Option<usize>)
    ensures
        slot == (if slot_entries(*old(index)).dom().contains(key) {
            Some(slot_entries(*old(index))[key])
        } else {
            None
        }),
        slot_entries(*final(index)) == slot_entries(*old(index)).remove(key),
{
    index.inner.remove(key)
}

/// `SlotMap::get_mut`: a reference to the value under a live handle, through
/// which that one value can be replaced; nothing for any other handle.
#[verifier::external_body]
fn slots_get_mut(index: &mut SlotIndex, key: NodeKey) -> (slot: Option<&mut usize>)
    ensures
        match slot {
            Some(s) => {
                &&& slot_entries(*old(index)).dom().contains(key)
                &&& *s == slot_entries(*old(index))[key]
                &&& slot_entries(*final(index)) == slot_entries(*old(index)).insert(key, *final(s))
            },
            None => {
                &&& !slot_entries(*old(index)).dom().contains(key)
                &&& slot_entries(*final(index)) == slot_entries(*old(index))
            },
        },
{
    index.inner.get_mut(key)
}

/// A node and the handle it is stored under.
struct Entry<T: Copy> {
    key: NodeKey,
    node: Node<T>,
}

/// Keyed storage of node records. A handle stays valid until its node is
/// removed; after that it names nothing.
pub struct NodeStore<T: Copy> {
    index: SlotIndex,
    entries: Vec<Entry<T>>,
}

impl<T: Copy> View for NodeStore<T> {
    type V = Map<NodeKey, Node<T>>;

    /// The live handles, each with its node.
    closed spec fn view(&self) -> Map<NodeKey, Node<T>> {
        Map::new(
            |k: NodeKey| slot_entries(self.index).dom().contains(k),
            |k: NodeKey| self.entries@[slot_entries(self.index)[k] as int].node,
        )
    }
}

impl<T: Copy> NodeStore<T> {
    /// Handles and records match one to one.
    pub closed spec fn wf(&self) -> bool {
        let slots = slot_entries(self.index);
        &&& slots.dom().finite()
        &&& slots.dom().len() == self.entries@.len()
        &&& forall|k: NodeKey| #[trigger]
            slots.dom().contains(k) ==> slots[k] < self.entries@.len()
                && self.entries@[slots[k] as int].key == k
        &&& forall|i: int|
            0 <= i < self.entries@.len() ==> slots.dom().contains((#[trigger] self.entries@[i]).key)
                && slots[self.entries@[i].key] == i
    }

    /// A store without nodes.
    pub fn new() -> (store: Self)
        ensures
            store.wf(),
            store@ == Map::<NodeKey, Node<T>>::empty(),
    {
        let store = NodeStore { index: slots_new(), entries: Vec::new() };
        assert(store@ =~= Map::<NodeKey, Node<T>>::empty());
        store
    }

    /// The number of live nodes.
    pub fn len(&self) -> (n: usize)
        requires
            self.wf(),
        ensures
            n == self@.dom().len(),
    {
        proof {
            assert(self@.dom() =~= slot_entries(self.index).dom());
        }
        self.entries.len()
    }

    /// Whether `key` is live.
    pub fn contains_key(&self, key: NodeKey) -> (live: bool)
        ensures
            live == self@.dom().contains(key),
    {
        slots_get(&self.index, key).is_some()
    }

    /// The node under `key`, if `key` is live.
    pub fn get(&self, key: NodeKey) -> (node: Option<&Node<T>>)
        requires
            self.wf(),
        ensures
            node == (if self@.dom().contains(key) {
                Some(&self@[key])
            } else {
                None
            }),
    {
        match slots_get(&self.index, key) {
            Some(i) => Some(&self.entries[i].node),
            None => None,
        }
    }

    /// The node under `key`, open to change, if `key` is live. Whatever is
    /// written there, only that node changes.
    pub fn get_mut(&mut self, key: NodeKey) -> (node: Option<&mut Node<T>>)
        requires
            old(self).wf(),
        ensures
            final(self).wf(),
            match node {
                Some(found) => {
                    &&& old(self)@.dom().contains(key)
                    &&& *found == old(self)@[key]
                    &&& final(self)@ == old(self)@.insert(key, *final(found))
                },
                None => !old(self)@.dom().contains(key) && final(self)@ == old(self)@,
            },
    {
        match slots_get(&self.index, key) {
            Some(i) => Some(&mut self.entries[i].node),
            None => None,
        }
    }

    /// Stores `node` under a handle that was not live before.
    pub fn insert(&mut self, node: Node<T>) -> (key: NodeKey)
        requires
            old(self).wf(),
            old(self)@.dom().len() < MAX_NODES,
        ensures
            final(self).wf(),
            !old(self)@.dom().contains(key),
            final(self)@ == old(self)@.insert(key, node),
    {
        proof {
            assert(self@.dom() =~= slot_entries(self.index).dom());
        }
        let i = self.entries.len();
        let key = slots_insert(&mut self.index, i);
        self.entries.push(Entry { key, node });
        proof {
            assert(final(self)@ =~= old(self)@.insert(key, node));
        }
        key
    }

    /// Takes the node under `key` out of the store; a handle that is not
    /// live leaves the store as it is.
    pub fn remove(&mut self, key: NodeKey) -> (node: Option<Node<T>>)
        requires
            old(self).wf(),
        ensures
            final(self).wf(),
            node == (if old(self)@.dom().contains(key) {
                Some(old(self)@[key])
            } else {
                None
            }),
            final(self)@ == old(self)@.remove(key),
    {
        match slots_remove(&mut self.index, key) {
            Some(i) => {
                let entry = self.entries.swap_remove(i);
                if i < self.entries.len() {
                    let moved = self.entries[i].key;
                    match slots_get_mut(&mut self.index, moved) {
                        Some(slot) => {
                            *slot = i;
                        },
                        None => {},
                    }
                }
                proof {
                    assert(final(self)@ =~= old(self)@.remove(key));
                }
                Some(entry.node)
            },
            None => {
                proof {
                    assert(final(self)@ =~= old(self)@.remove(key));
                }
                None
            },
        }
    }
}

} // verus!
