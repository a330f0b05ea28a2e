//! The outside collections the library keeps its state in: slotmap's
//! `SlotMap` and `SecondaryMap` and smallvec's `SmallVec`. Each is held in a
//! struct whose contents Verus sees only through the names below; the
//! functions here are the only code that touches them.

use std::collections::HashSet;

use slotmap::{DefaultKey, Key, KeyData, SecondaryMap, SlotMap};
use smallvec::SmallVec;
use vstd::prelude::*;

use crate::action::BoxAction;
use crate::action_tree::{ActionNode, ActionNodeKey};
use crate::ui_tree::{Node, NodeKey};

verus! {

/// The children of an action node, in the order they were added.
#[verifier::external_body]
pub struct ChildKeys {
    inner: SmallVec<[ActionNodeKey; 1]>,
}

/// The nodes of the action tree, keyed by the slot map's own keys.
#[verifier::external_body]
pub struct NodeSlots {
    inner: SlotMap<DefaultKey, ActionNode>,
}

/// What a `ChildKeys` holds, first to last.
pub uninterp spec fn child_seq(c: ChildKeys) -> Seq<ActionNodeKey>;

/// What a `NodeSlots` holds: each live key with its node.
pub uninterp spec fn node_map(s: NodeSlots) -> Map<ActionNodeKey, ActionNode>;

/// `SmallVec::new`: an empty vector.
#[verifier::external_body]
pub fn child_keys_new() -> (res: ChildKeys)
    ensures
        child_seq(res).len() == 0,
{
    ChildKeys { inner: SmallVec::new() }
}

/// `SmallVec::push`: appends `key` at the end. The vector only panics when
/// its capacity computation overflows, which the bound on the length
/// rules out.
#[verifier::external_body]
pub fn child_keys_push(c: &mut ChildKeys, key: ActionNodeKey)
    requires
        child_seq(*old(c)).len() < 0xffff_ffff,
    ensures
        child_seq(*final(c)) == child_seq(*old(c)).push(key),
{
    c.inner.push(key)
}

/// `SmallVec::clear`: removes every element.
#[verifier::external_body]
pub fn child_keys_clear(c: &mut ChildKeys)
    ensures
        child_seq(*final(c)).len() == 0,
{
    c.inner.clear()
}

/// `SmallVec::remove`: removes the element at `index`, shifting the rest
/// to the left, and returns it.
#[verifier::external_body]
pub fn child_keys_remove(c: &mut ChildKeys, index: usize) -> (res: ActionNodeKey)
    requires
        index < child_seq(*old(c)).len(),
    ensures
        res == child_seq(*old(c))[index as int],
        child_seq(*final(c)) == child_seq(*old(c)).remove(index as int),
{
    c.inner.remove(index)
}

/// `SmallVec::as_slice`: the elements as a slice.
#[verifier::external_body]
pub fn child_keys_as_slice(c: &ChildKeys) -> (res: &[ActionNodeKey])
    ensures
        res@ == child_seq(*c),
{
    c.inner.as_slice()
}

/// `SlotMap::new`: an empty slot map.
#[verifier::external_body]
pub fn node_slots_new() -> (res: NodeSlots)
    ensures
        node_map(res).dom().len() == 0,
        node_map(res).dom().finite(),
{
    NodeSlots { inner: SlotMap::new() }
}

/// `SlotMap::insert`: stores `node` under a key that no live node has, in a
/// slot (the key's low half) that no live node occupies. It panics only
/// when the map already holds `u32::MAX` slots, which the bound on the
/// number of nodes rules out.
#[verifier::external_body]
pub fn node_slots_insert(s: &mut NodeSlots, node: ActionNode) -> (res: ActionNodeKey)
    requires
        node_map(*old(s)).dom().finite(),
        node_map(*old(s)).dom().len() < 0xffff_fffe,
    ensures
        res.wf(),
        !node_map(*old(s)).contains_key(res),
        forall|k: ActionNodeKey| #[trigger]
            node_map(*old(s)).contains_key(k) ==> k.idx() != res.idx(),
        node_map(*final(s)) == node_map(*old(s)).insert(res, node),
{
    ActionNodeKey { ffi: s.inner.insert(node).data().as_ffi() }
}

/// `SlotMap::contains_key`.
#[verifier::external_body]
pub fn node_slots_contains(s: &NodeSlots, key: ActionNodeKey) -> (res: bool)
    requires
        key.wf(),
    ensures
        res == node_map(*s).contains_key(key),
{
    s.inner.contains_key(DefaultKey::from(KeyData::from_ffi(key.ffi)))
}

/// `SlotMap::get`.
#[verifier::external_body]
pub fn node_slots_get(s: &NodeSlots, key: ActionNodeKey) -> (res: Option<&ActionNode>)
    requires
        key.wf(),
    ensures
        match res {
            Some(node) => node_map(*s).contains_key(key) && *node == node_map(*s)[key],
            None => !node_map(*s).contains_key(key),
        },
{
    s.inner.get(DefaultKey::from(KeyData::from_ffi(key.ffi)))
}

/// `SlotMap::index_mut`: the node stored under `key`, which must be live.
#[verifier::external_body]
pub fn node_slots_get_mut(s: &mut NodeSlots, key: ActionNodeKey) -> (res: &mut ActionNode)
    requires
        key.wf(),
        node_map(*old(s)).contains_key(key),
    ensures
        *res == node_map(*old(s))[key],
        node_map(*final(s)) == node_map(*old(s)).insert(key, *final(res)),
{
    &mut s.inner[DefaultKey::from(KeyData::from_ffi(key.ffi))]
}

/// `SlotMap::remove`: takes the node stored under `key` out, if any.
#[verifier::external_body]
pub fn node_slots_remove(s: &mut NodeSlots, key: ActionNodeKey) -> (res: Option<ActionNode>)
    requires
        key.wf(),
    ensures
        node_map(*final(s)) == node_map(*old(s)).remove(key),
        match res {
            Some(node) => node_map(*old(s)).contains_key(key) && node == node_map(*old(s))[key],
            None => !node_map(*old(s)).contains_key(key),
        },
{
    s.inner.remove(DefaultKey::from(KeyData::from_ffi(key.ffi)))
}


/// The groups of each node that belongs to one, keyed by the slot map's keys.
#[verifier::external_body]
pub struct MembershipSlots {
    inner: SecondaryMap<DefaultKey, HashSet<u64>>,
}

/// What a `MembershipSlots` holds: each key with its set of group ids.
pub uninterp spec fn membership_map(s: MembershipSlots) -> Map<ActionNodeKey, HashSet<u64>>;

/// `SecondaryMap::new`: an empty map.
#[verifier::external_body]
pub fn memberships_new() -> (res: MembershipSlots)
    ensures
        membership_map(res).dom().len() == 0,
        membership_map(res).dom().finite(),
{
    MembershipSlots { inner: SecondaryMap::new() }
}

/// `SecondaryMap::get`.
#[verifier::external_body]
pub fn memberships_get(s: &MembershipSlots, key: ActionNodeKey) -> (res: Option<&HashSet<u64>>)
    requires
        key.wf(),
    ensures
        match res {
            Some(v) => membership_map(*s).contains_key(key) && *v == membership_map(*s)[key],
            None => !membership_map(*s).contains_key(key),
        },
{
    s.inner.get(DefaultKey::from(KeyData::from_ffi(key.ffi)))
}

/// `SecondaryMap::insert`: stores `value` under `key`. No other key of the
/// map may share `key`'s slot: the map would then keep whichever is newer.
#[verifier::external_body]
pub fn memberships_insert(s: &mut MembershipSlots, key: ActionNodeKey, value: HashSet<u64>) -> (res: Option<HashSet<u64>>)
    requires
        key.wf(),
        forall|k: ActionNodeKey| #[trigger]
            membership_map(*old(s)).contains_key(k) && k.idx() == key.idx() ==> k == key,
    ensures
        membership_map(*final(s)) == membership_map(*old(s)).insert(key, value),
        match res {
            Some(v) => membership_map(*old(s)).contains_key(key) && v == membership_map(*old(s))[key],
            None => !membership_map(*old(s)).contains_key(key),
        },
{
    s.inner.insert(DefaultKey::from(KeyData::from_ffi(key.ffi)), value)
}

/// `SecondaryMap::remove`: takes the value stored under `key` out, if any.
#[verifier::external_body]
pub fn memberships_remove(s: &mut MembershipSlots, key: ActionNodeKey) -> (res: Option<HashSet<u64>>)
    requires
        key.wf(),
    ensures
        membership_map(*final(s)) == membership_map(*old(s)).remove(key),
        match res {
            Some(v) => membership_map(*old(s)).contains_key(key) && v == membership_map(*old(s))[key],
            None => !membership_map(*old(s)).contains_key(key),
        },
{
    s.inner.remove(DefaultKey::from(KeyData::from_ffi(key.ffi)))
}


/// The stored actions, keyed by the slot map's keys.
#[verifier::external_body]
pub struct ActionSlots {
    inner: SecondaryMap<DefaultKey, BoxAction<()>>,
}

/// What an `ActionSlots` holds: each key with its stored action.
pub uninterp spec fn action_map(s: ActionSlots) -> Map<ActionNodeKey, BoxAction<()>>;

/// `SecondaryMap::new`: an empty map.
#[verifier::external_body]
pub fn actions_new() -> (res: ActionSlots)
    ensures
        action_map(res).dom().len() == 0,
        action_map(res).dom().finite(),
{
    ActionSlots { inner: SecondaryMap::new() }
}

/// `SecondaryMap::contains_key`.
#[verifier::external_body]
pub fn actions_contains(s: &ActionSlots, key: ActionNodeKey) -> (res: bool)
    requires
        key.wf(),
    ensures
        res == action_map(*s).contains_key(key),
{
    s.inner.contains_key(DefaultKey::from(KeyData::from_ffi(key.ffi)))
}

/// `SecondaryMap::insert`: stores `value` under `key`. No other key of the
/// map may share `key`'s slot: the map would then keep whichever is newer.
#[verifier::external_body]
pub fn actions_insert(s: &mut ActionSlots, key: ActionNodeKey, value: BoxAction<()>) -> (res: Option<BoxAction<()>>)
    requires
        key.wf(),
        forall|k: ActionNodeKey| #[trigger]
            action_map(*old(s)).contains_key(k) && k.idx() == key.idx() ==> k == key,
    ensures
        action_map(*final(s)) == action_map(*old(s)).insert(key, value),
        match res {
            Some(v) => action_map(*old(s)).contains_key(key) && v == action_map(*old(s))[key],
            None => !action_map(*old(s)).contains_key(key),
        },
{
    s.inner.insert(DefaultKey::from(KeyData::from_ffi(key.ffi)), value)
}

/// `SecondaryMap::remove`: takes the value stored under `key` out, if any.
#[verifier::external_body]
pub fn actions_remove(s: &mut ActionSlots, key: ActionNodeKey) -> (res: Option<BoxAction<()>>)
    requires
        key.wf(),
    ensures
        action_map(*final(s)) == action_map(*old(s)).remove(key),
        match res {
            Some(v) => action_map(*old(s)).contains_key(key) && v == action_map(*old(s))[key],
            None => !action_map(*old(s)).contains_key(key),
        },
{
    s.inner.remove(DefaultKey::from(KeyData::from_ffi(key.ffi)))
}


/// The nodes of a UI tree, keyed by the slot map's own keys.
#[verifier::external_body]
pub struct UiSlots {
    inner: SlotMap<DefaultKey, Node>,
}

/// What a `UiSlots` holds: each live key with its node.
pub uninterp spec fn ui_node_map(s: UiSlots) -> Map<NodeKey, Node>;

/// `SlotMap::new`: an empty slot map.
#[verifier::external_body]
pub fn ui_slots_new() -> (res: UiSlots)
    ensures
        ui_node_map(res).dom().len() == 0,
        ui_node_map(res).dom().finite(),
{
    UiSlots { inner: SlotMap::new() }
}

/// `SlotMap::insert`: stores `node` under a key that no live node has. It
/// panics only when the map already holds `u32::MAX` slots, which the bound
/// on the number of nodes rules out.
#[verifier::external_body]
pub fn ui_slots_insert(s: &mut UiSlots, node: Node) -> (res: NodeKey)
    requires
        ui_node_map(*old(s)).dom().finite(),
        ui_node_map(*old(s)).dom().len() < 0xffff_fffe,
    ensures
        res.wf(),
        !ui_node_map(*old(s)).contains_key(res),
        ui_node_map(*final(s)) == ui_node_map(*old(s)).insert(res, node),
{
    NodeKey { ffi: s.inner.insert(node).data().as_ffi() }
}

/// `SlotMap::get`.
#[verifier::external_body]
pub fn ui_slots_get(s: &UiSlots, key: NodeKey) -> (res: Option<&Node>)
    requires
        key.wf(),
    ensures
        match res {
            Some(node) => ui_node_map(*s).contains_key(key) && *node == ui_node_map(*s)[key],
            None => !ui_node_map(*s).contains_key(key),
        },
{
    s.inner.get(DefaultKey::from(KeyData::from_ffi(key.ffi)))
}

/// `SlotMap::index_mut`: the node stored under `key`, which must be live.
#[verifier::external_body]
pub fn ui_slots_get_mut(s: &mut UiSlots, key: NodeKey) -> (res: &mut Node)
    requires
        key.wf(),
        ui_node_map(*old(s)).contains_key(key),
    ensures
        *res == ui_node_map(*old(s))[key],
        ui_node_map(*final(s)) == ui_node_map(*old(s)).insert(key, *final(res)),
{
    &mut s.inner[DefaultKey::from(KeyData::from_ffi(key.ffi))]
}

/// `SlotMap::len`: the number of live nodes.
#[verifier::external_body]
pub fn ui_slots_len(s: &UiSlots) -> (res: usize)
    requires
        ui_node_map(*s).dom().finite(),
    ensures
        res == ui_node_map(*s).dom().len(),
{
    s.inner.len()
}

} // verus!
