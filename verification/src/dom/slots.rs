use vstd::prelude::*;

use slotmap::{DefaultKey, Key, KeyData, SlotMap};

use super::node_properties::NodeProperties;

verus! {

/// A slot map of nodes. Verus sees nothing inside it: what it holds is
/// `node_slots`, and only the functions below touch it.
#[verifier::external_body]
pub struct NodeSlots {
    map: SlotMap<DefaultKey, NodeProperties>,
}

/// The nodes a slot map holds, each under the 64-bit form of its key
/// (`version << 32 | index`, as `KeyData::as_ffi` gives it).
pub uninterp spec fn node_slots(m: NodeSlots) -> Map<u64, NodeProperties>;

/// Whether `k` has the form of a key that a slot map hands out: its version (upper half) is odd.
pub open spec fn canonical_key(k: u64) -> bool {
    (k / 0x1_0000_0000) % 2 == 1
}

/// The slot index of a key (its lower half).
pub open spec fn key_index(k: u64) -> u64 {
    k % 0x1_0000_0000
}

/// `SlotMap::new`: an empty slot map.
#[verifier::external_body]
pub(crate) fn slots_new() -> (r: NodeSlots)
    ensures
        node_slots(r).dom().len() == 0, node_slots(r).dom().finite(),
{
    NodeSlots { map: SlotMap::new() }
}

/// `SlotMap::insert`: stores `value` under a key that was not in use, in a slot that no
/// key in use occupies (a vacant one, or a new one at the end), and returns that key in
/// 64-bit form. It panics only when the map already holds `u32::MAX - 1` values, which
/// `requires` leaves out.
#[verifier::external_body]
pub(crate) fn slots_insert(m: &mut NodeSlots, value: NodeProperties) -> (k: u64)
    requires
        node_slots(*old(m)).dom().finite(),
        node_slots(*old(m)).dom().len() < u32::MAX - 1,
    ensures
        !node_slots(*old(m)).dom().contains(k),
        forall|j: u64| #[trigger] node_slots(*old(m)).dom().contains(j) ==> key_index(j) != key_index(k),
        canonical_key(k),
        node_slots(*final(m)) == node_slots(*old(m)).insert(k, value),
{
    m.map.insert(value).data().as_ffi()
}

/// `SlotMap::contains_key` on the key whose 64-bit form is `k`.
#[verifier::external_body]
pub(crate) fn slots_contains(m: &NodeSlots, k: u64) -> (r: bool)
    requires
        canonical_key(k),
    ensures
        r == node_slots(*m).dom().contains(k),
{
    m.map.contains_key(DefaultKey::from(KeyData::from_ffi(k)))
}

/// `SlotMap::index`: the value under the key whose 64-bit form is `k`.
#[verifier::external_body]
pub(crate) fn slots_get(m: &NodeSlots, k: u64) -> (r: &NodeProperties)
    requires
        canonical_key(k),
        node_slots(*m).dom().contains(k),
    ensures
        *r == node_slots(*m)[k],
{
    &m.map[DefaultKey::from(KeyData::from_ffi(k))]
}

/// `SlotMap::index_mut`: the value under the key whose 64-bit form is `k`, to change in place.
#[verifier::external_body]
pub(crate) fn slots_get_mut(m: &mut NodeSlots, k: u64) -> (r: &mut NodeProperties)
    requires
        canonical_key(k),
        node_slots(*old(m)).dom().contains(k),
    ensures
        *r == node_slots(*old(m))[k],
        node_slots(*final(m)) == node_slots(*old(m)).insert(k, *final(r)),
{
    &mut m.map[DefaultKey::from(KeyData::from_ffi(k))]
}

/// `SlotMap::remove`: takes out the value under the key whose 64-bit form is `k`, if any.
#[verifier::external_body]
pub(crate) fn slots_remove(m: &mut NodeSlots, k: u64) -> (r: Option<NodeProperties>)
    requires
        canonical_key(k),
    ensures
        node_slots(*final(m)) == node_slots(*old(m)).remove(k),
        r == (if node_slots(*old(m)).dom().contains(k) {
            Some(node_slots(*old(m))[k])
        } else {
            None
        }),
{
    m.map.remove(DefaultKey::from(KeyData::from_ffi(k)))
}

/// `SlotMap::len`: how many values the map holds.
#[verifier::external_body]
pub(crate) fn slots_len(m: &NodeSlots) -> (r: usize)
    ensures
        r == node_slots(*m).dom().len(),
{
    m.map.len()
}

/// `SlotMap::keys`: every key in use, in 64-bit form, in the order of their slot indices.
#[verifier::external_body]
pub(crate) fn slots_keys(m: &NodeSlots) -> (r: Vec<u64>)
    ensures
        r@.to_set() == node_slots(*m).dom(),
        r@.no_duplicates(),
        forall|i: int, j: int| 0 <= i < j < r@.len() ==> key_index(r@[i]) < key_index(r@[j]),
{
    m.map.keys().map(|k| k.data().as_ffi()).collect()
}

} // verus!
