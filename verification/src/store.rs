//! The collections that back the arena, and what is assumed of them.
//!
//! Nothing in this module is proved. Each function makes one call into
//! `slab`, `tinyset` or `ahash`; its contract states, over the contents of
//! the collection, what that call does.

use vstd::prelude::*;
use crate::shape::Node;
use crate::split::ShapeSplit;

verus! {

#[verifier::external_type_specification]
#[verifier::external_body]
#[verifier::reject_recursive_types(T)]
pub struct ExSlab<T>(slab::Slab<T>);

#[verifier::external_type_specification]
#[verifier::external_body]
pub struct ExSetU64(tinyset::SetU64);

#[verifier::external_type_specification]
#[verifier::external_body]
#[verifier::reject_recursive_types(K)]
#[verifier::reject_recursive_types(V)]
#[verifier::reject_recursive_types(S)]
pub struct ExAHashMap<K, V, S>(ahash::AHashMap<K, V, S>);

#[verifier::external_type_specification]
#[verifier::external_body]
pub struct ExRandomState(ahash::RandomState);

/// Storage of the arena: nodes in slots addressed by key.
pub type NodeSlab = slab::Slab<Node>;

/// Results of splitting shapes, by the number of the shape's id.
pub type SplitCache = ahash::AHashMap<u32, ShapeSplit>;

/// The numbers that a `SetU64` holds.
pub uninterp spec fn code_set_members(s: tinyset::SetU64) -> Set<u64>;

/// The occupied slots of a slab, by key.
pub uninterp spec fn slab_entries(s: NodeSlab) -> Map<usize, Node>;

/// The key of the slot that the next insertion into a slab fills.
pub uninterp spec fn slab_next_key(s: NodeSlab) -> usize;

/// The number of slots of a slab, occupied or vacant.
pub uninterp spec fn slab_slots(s: NodeSlab) -> usize;

/// The entries of a cache, by key.
pub uninterp spec fn cache_entries(m: SplitCache) -> Map<u32, ShapeSplit>;

/// `SetU64::new`: a set without members.
#[verifier::external_body]
pub(crate) fn code_set_new() -> (s: tinyset::SetU64)
    ensures
        code_set_members(s) == Set::<u64>::empty(),
{
    tinyset::SetU64::new()
}

/// `SetU64::insert`: the number joins the set and nothing else changes; the
/// result is true if the number was not a member before.
#[verifier::external_body]
pub(crate) fn code_set_insert(s: &mut tinyset::SetU64, code: u64) -> (fresh: bool)
    ensures
        code_set_members(*final(s)) == code_set_members(*old(s)).insert(code),
        fresh == !code_set_members(*old(s)).contains(code),
{
    s.insert(code)
}

/// `SetU64::remove`: the number leaves the set and nothing else changes; the
/// result is true if the number was a member before.
#[verifier::external_body]
pub(crate) fn code_set_remove(s: &mut tinyset::SetU64, code: u64) -> (present: bool)
    ensures
        code_set_members(*final(s)) == code_set_members(*old(s)).remove(code),
        present == code_set_members(*old(s)).contains(code),
{
    s.remove(code)
}

/// `SetU64::contains`: whether the number is a member.
#[verifier::external_body]
pub(crate) fn code_set_contains(s: &tinyset::SetU64, code: u64) -> (present: bool)
    ensures
        present == code_set_members(*s).contains(code),
{
    s.contains(code)
}

/// `SetU64::is_empty`: whether the set has no member.
#[verifier::external_body]
pub(crate) fn code_set_is_empty(s: &tinyset::SetU64) -> (empty: bool)
    ensures
        empty == (code_set_members(*s) == Set::<u64>::empty()),
{
    s.is_empty()
}

/// `SetU64::iter`: every member comes out once, in an order that is left
/// open.
#[verifier::external_body]
pub(crate) fn code_set_to_vec(s: &tinyset::SetU64) -> (v: Vec<u64>)
    ensures
        v@.no_duplicates(),
        forall|c: u64| v@.contains(c) <==> code_set_members(*s).contains(c),
{
    s.iter().collect()
}

/// `SetU64::clone`: a set with the same members.
#[verifier::external_body]
pub(crate) fn code_set_clone(s: &tinyset::SetU64) -> (r: tinyset::SetU64)
    ensures
        code_set_members(r) == code_set_members(*s),
{
    s.clone()
}

/// `SetU64::eq`: whether two sets have the same members.
#[verifier::external_body]
pub(crate) fn code_set_eq(a: &tinyset::SetU64, b: &tinyset::SetU64) -> (same: bool)
    ensures
        same == (code_set_members(*a) == code_set_members(*b)),
{
    a == b
}

/// `Slab::new`: a slab without occupied slots, whose first insertion fills
/// slot 0.
#[verifier::external_body]
pub(crate) fn slab_new() -> (s: NodeSlab)
    ensures
        forall|k: usize| !slab_entries(s).contains_key(k),
        slab_next_key(s) == 0,
        slab_slots(s) == 0,
{
    slab::Slab::new()
}

/// `Slab::insert`: the node goes into the next slot, which was vacant and
/// whose key is returned; the other slots are left as they were. Where the
/// next slot is a new one, behind all the others, there is one slot more
/// afterwards, and the next slot is again a new one.
#[verifier::external_body]
pub(crate) fn slab_insert(s: &mut NodeSlab, node: Node) -> (key: usize)
    ensures
        key == slab_next_key(*old(s)),
        !slab_entries(*old(s)).contains_key(key),
        slab_entries(*final(s)) == slab_entries(*old(s)).insert(key, node),
        key == slab_slots(*old(s)) ==> slab_slots(*final(s)) == key + 1 && slab_next_key(*final(s))
            == key + 1,
{
    s.insert(node)
}

/// `Slab::clone`: a slab with the same occupied slots, as many slots and the
/// same next slot, each node cloned by the clone of the node type, which keeps the
/// shape and its number of dimensions.
#[verifier::external_body]
pub(crate) fn slab_clone(s: &NodeSlab) -> (r: NodeSlab)
    ensures
        slab_next_key(r) == slab_next_key(*s),
        slab_slots(r) == slab_slots(*s),
        forall|k: usize| slab_entries(r).contains_key(k) == slab_entries(*s).contains_key(k),
        forall|k: usize|
            slab_entries(*s).contains_key(k) ==> (#[trigger] slab_entries(r)[k]).spec_same(
                &slab_entries(*s)[k],
            ),
{
    s.clone()
}

/// `Slab::remove`: the slot becomes vacant and its node is returned; the
/// other slots are left as they were, and the slot is the next to be
/// filled. The key must be occupied.
#[verifier::external_body]
pub(crate) fn slab_remove(s: &mut NodeSlab, key: usize) -> (node: Node)
    requires
        slab_entries(*old(s)).contains_key(key),
    ensures
        node == slab_entries(*old(s))[key],
        slab_entries(*final(s)) == slab_entries(*old(s)).remove(key),
        slab_next_key(*final(s)) == key,
{
    s.remove(key)
}

/// `Slab::contains`: whether the key is occupied.
#[verifier::external_body]
pub(crate) fn slab_contains(s: &NodeSlab, key: usize) -> (present: bool)
    ensures
        present == slab_entries(*s).contains_key(key),
{
    s.contains(key)
}

/// Indexing a slab: the node in an occupied slot.
#[verifier::external_body]
pub(crate) fn slab_get(s: &NodeSlab, key: usize) -> (node: &Node)
    requires
        slab_entries(*s).contains_key(key),
    ensures
        *node == slab_entries(*s)[key],
{
    &s[key]
}

/// Indexing a slab mutably: the node in an occupied slot, to be changed in
/// place; the other slots, their number and the next slot are left as they
/// were.
#[verifier::external_body]
pub(crate) fn slab_get_mut(s: &mut NodeSlab, key: usize) -> (node: &mut Node)
    requires
        slab_entries(*old(s)).contains_key(key),
    ensures
        *node == slab_entries(*old(s))[key],
        slab_entries(*final(s)) == slab_entries(*old(s)).insert(key, *final(node)),
        slab_next_key(*final(s)) == slab_next_key(*old(s)),
        slab_slots(*final(s)) == slab_slots(*old(s)),
{
    &mut s[key]
}

/// `Slab::iter`, keys only: every occupied key comes out once.
#[verifier::external_body]
pub(crate) fn slab_keys(s: &NodeSlab) -> (keys: Vec<usize>)
    ensures
        keys@.no_duplicates(),
        forall|k: usize| keys@.contains(k) <==> slab_entries(*s).contains_key(k),
{
    s.iter().map(|(key, _)| key).collect()
}

/// `AHashMap::new`: a map without entries.
#[verifier::external_body]
pub(crate) fn cache_new() -> (m: SplitCache)
    ensures
        forall|k: u32| !cache_entries(m).contains_key(k),
{
    ahash::AHashMap::new()
}

/// `AHashMap::get`: the value stored under the key, if there is one.
#[verifier::external_body]
pub(crate) fn cache_get(m: &SplitCache, key: u32) -> (found: Option<ShapeSplit>)
    ensures
        found.is_some() == cache_entries(*m).contains_key(key),
        found.is_some() ==> found.unwrap() == cache_entries(*m)[key],
{
    m.get(&key).copied()
}

/// `AHashMap::insert`: the value is stored under the key, in place of what
/// was there; the other entries are left as they were.
#[verifier::external_body]
pub(crate) fn cache_insert(m: &mut SplitCache, key: u32, value: ShapeSplit)
    ensures
        cache_entries(*final(m)) == cache_entries(*old(m)).insert(key, value),
{
    m.insert(key, value);
}

} // verus!
