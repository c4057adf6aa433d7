//! Garbage collection: shapes that no root needs are taken out of the arena.

use vstd::prelude::*;
use crate::arena::{slot_of, ShapeArena};
use crate::shape::ShapeSet;
use crate::sign::{ShapeId, ShapeRef, Sign};

verus! {

impl ShapeArena {
    /// The shape `child`, in some orientation, is a boundary element of the
    /// shape `parent`.
    pub open spec fn bounds(&self, parent: ShapeId, child: ShapeId) -> bool {
        exists|sign: Sign| #[trigger] self.boundary_of(parent).contains(ShapeRef { id: child, sign })
    }

    /// Every shape of the sequence but the first is a boundary element of the
    /// shape before it.
    pub open spec fn is_path(&self, path: Seq<ShapeId>) -> bool {
        &&& path.len() > 0
        &&& forall|i: int| 0 <= i < path.len() - 1 ==> self.bounds(#[trigger] path[i], path[i + 1])
    }

    /// The shape `id` is `start` or is found from it by going from a shape to
    /// one of its boundary elements, any number of times.
    pub open spec fn reachable_from(&self, start: ShapeId, id: ShapeId) -> bool {
        exists|path: Seq<ShapeId>| #[trigger]
            self.is_path(path) && path[0] == start && path.last() == id
    }

    /// The shape `id` is reachable from a root.
    pub open spec fn reachable(&self, id: ShapeId) -> bool {
        exists|i: int|
            0 <= i < self.spec_roots().len() && self.reachable_from(
                #[trigger] self.spec_roots()[i],
                id,
            )
    }

    /// Every boundary element of the shape `id` has been marked: it is no
    /// longer among the shapes to delete.
    pub open spec fn marked_below(&self, keys_to_delete: Set<ShapeRef>, id: ShapeId) -> bool {
        forall|r: ShapeRef| #[trigger]
            self.boundary_of(id).contains(r) ==> !keys_to_delete.contains(
                ShapeRef::spec_from_id(r.id),
            )
    }

    /// Marks the shape `shape_to_keep` and all that is reachable from it, by
    /// taking them out of `keys_to_delete`.
    ///
    /// What leaves the set is reachable from `shape_to_keep`, and so are the
    /// boundary elements of what leaves, which are no longer in the set
    /// either.
    pub fn gc_mark_recursive(&self, keys_to_delete: &mut ShapeSet, shape_to_keep: ShapeId)
        requires
            self.wf(),
            self.contains(shape_to_keep),
            old(keys_to_delete).wf(),
        ensures
            final(keys_to_delete).wf(),
            final(keys_to_delete)@.subset_of(old(keys_to_delete)@),
            !final(keys_to_delete)@.contains(ShapeRef::spec_from_id(shape_to_keep)),
            !old(keys_to_delete)@.contains(ShapeRef::spec_from_id(shape_to_keep))
                ==> final(keys_to_delete)@ == old(keys_to_delete)@,
            forall|r: ShapeRef|
                old(keys_to_delete)@.contains(r) && !final(keys_to_delete)@.contains(r) ==> {
                    &&& r.sign == Sign::Pos
                    &&& self.reachable_from(shape_to_keep, r.id)
                    &&& self.marked_below(final(keys_to_delete)@, r.id)
                },
        decreases self.rank_of(shape_to_keep),
    {
        if keys_to_delete.remove(ShapeRef::from_id(shape_to_keep)) {
            assert(self.bounded_within(shape_to_keep));
            let ghost started = keys_to_delete@;
            let children = self.shape(shape_to_keep).boundary.to_vec();
            let mut i: usize = 0;
            while i < children.len()
                invariant
                    self.wf(),
                    self.contains(shape_to_keep),
                    self.bounded_within(shape_to_keep),
                    i <= children.len(),
                    forall|r: ShapeRef|
                        children@.contains(r) <==> self.boundary_of(shape_to_keep).contains(r),
                    keys_to_delete.wf(),
                    keys_to_delete@.subset_of(started),
                    started == old(keys_to_delete)@.remove(ShapeRef::spec_from_id(shape_to_keep)),
                    forall|j: int|
                        0 <= j < i ==> !keys_to_delete@.contains(
                            ShapeRef::spec_from_id((#[trigger] children[j]).id),
                        ),
                    forall|r: ShapeRef|
                        started.contains(r) && !keys_to_delete@.contains(r) ==> {
                            &&& r.sign == Sign::Pos
                            &&& self.reachable_from(shape_to_keep, r.id)
                            &&& self.marked_below(keys_to_delete@, r.id)
                        },
                decreases children.len() - i,
            {
                let child = children[i];
                assert(children@.contains(child));
                assert(self.boundary_of(shape_to_keep).contains(child));
                let ghost before = keys_to_delete@;
                self.gc_mark_recursive(keys_to_delete, child.id);
                proof {
                    assert forall|r: ShapeRef|
                        started.contains(r) && !keys_to_delete@.contains(r) implies {
                        &&& r.sign == Sign::Pos
                        &&& self.reachable_from(shape_to_keep, r.id)
                        &&& self.marked_below(keys_to_delete@, r.id)
                    } by {
                        if before.contains(r) {
                            assert(self.reachable_from(child.id, r.id));
                            assert(self.boundary_of(shape_to_keep).contains(
                                ShapeRef { id: child.id, sign: child.sign },
                            ));
                            lemma_reach_through(self, shape_to_keep, child.id, r.id);
                        } else {
                            assert(self.marked_below(before, r.id));
                        }
                    }
                }
                i += 1;
            }
            proof {
                assert forall|r: ShapeRef| #[trigger]
                    self.boundary_of(shape_to_keep).contains(r) implies !keys_to_delete@.contains(
                    ShapeRef::spec_from_id(r.id),
                ) by {
                    assert(children@.contains(r));
                    let j = choose|j: int| 0 <= j < children.len() && children[j] == r;
                    assert(!keys_to_delete@.contains(ShapeRef::spec_from_id(children[j].id)));
                }
                lemma_reach_self(self, shape_to_keep);
            }
        } else {
            assert(keys_to_delete@ =~= old(keys_to_delete)@);
        }
    }

    /// Garbage-collects unused shapes.
    ///
    /// A shape stays if and only if it is reachable from a root, and stays as
    /// it is.
    pub fn gc(&mut self)
        requires
            old(self).wf(),
        ensures
            final(self).wf(),
            final(self).spec_roots() == old(self).spec_roots(),
            final(self).spec_space() == old(self).spec_space(),
            final(self).spec_checks() == old(self).spec_checks(),
            forall|id: ShapeId|
                final(self).contains(id) <==> old(self).contains(id) && old(self).reachable(id),
            forall|id: ShapeId| final(self).contains(id) ==> final(self).node(id) == old(self).node(id),
    {
        // Every shape is to be deleted, until it is found to be in use.
        let slots = self.slots();
        let mut keys_to_delete = ShapeSet::new();
        let mut i: usize = 0;
        while i < slots.len()
            invariant
                self.wf(),
                i <= slots.len(),
                forall|k: usize| slots@.contains(k) <==> self.nodes().contains_key(k),
                keys_to_delete.wf(),
                forall|r: ShapeRef|
                    keys_to_delete@.contains(r) <==> r.sign == Sign::Pos && exists|j: int|
                        0 <= j < i && slots[j] == slot_of(r.id),
            decreases slots.len() - i,
        {
            let slot = slots[i];
            assert(slots@.contains(slot));
            let ghost before = keys_to_delete@;
            let id = ShapeId(slot as u32);
            let _ = keys_to_delete.insert(ShapeRef::from_id(id));
            proof {
                assert forall|r: ShapeRef|
                    keys_to_delete@.contains(r) <==> r.sign == Sign::Pos && exists|j: int|
                        0 <= j < i + 1 && slots[j] == slot_of(r.id) by {
                    if before.contains(r) {
                        let j = choose|j: int| 0 <= j < i && slots[j] == slot_of(r.id);
                        assert(0 <= j < i + 1 && slots[j] == slot_of(r.id));
                    }
                    if r.sign == Sign::Pos && exists|j: int|
                        0 <= j < i + 1 && slots[j] == slot_of(r.id) {
                        let j = choose|j: int| 0 <= j < i + 1 && slots[j] == slot_of(r.id);
                        if j < i {
                            assert(before.contains(r));
                        } else {
                            assert(r.id == id);
                        }
                    }
                }
            }
            i += 1;
        }
        proof {
            assert forall|r: ShapeRef|
                keys_to_delete@.contains(r) <==> r.sign == Sign::Pos && self.contains(r.id) by {
                if keys_to_delete@.contains(r) {
                    let j = choose|j: int| 0 <= j < slots.len() && slots[j] == slot_of(r.id);
                    assert(slots@.contains(slots[j]));
                }
                if r.sign == Sign::Pos && self.contains(r.id) {
                    assert(slots@.contains(slot_of(r.id)));
                }
            }
        }

        // Mark what the roots need.
        let mut i: usize = 0;
        while i < self.roots().len()
            invariant
                self.wf(),
                *self == *old(self),
                i <= self.spec_roots().len(),
                keys_to_delete.wf(),
                forall|r: ShapeRef|
                    keys_to_delete@.contains(r) ==> r.sign == Sign::Pos && self.contains(r.id),
                forall|id: ShapeId|
                    self.contains(id) && !keys_to_delete@.contains(ShapeRef::spec_from_id(id)) ==> {
                        &&& self.reachable(id)
                        &&& self.marked_below(keys_to_delete@, id)
                    },
                forall|j: int|
                    0 <= j < i ==> !keys_to_delete@.contains(
                        ShapeRef::spec_from_id(#[trigger] self.spec_roots()[j]),
                    ),
            decreases self.spec_roots().len() - i,
        {
            let root = self.roots()[i];
            assert(self.contains(self.spec_roots()[i as int]));
            let ghost before = keys_to_delete@;
            self.gc_mark_recursive(&mut keys_to_delete, root);
            proof {
                assert forall|id: ShapeId|
                    self.contains(id) && !keys_to_delete@.contains(
                        ShapeRef::spec_from_id(id),
                    ) implies {
                    &&& self.reachable(id)
                    &&& self.marked_below(keys_to_delete@, id)
                } by {
                    if before.contains(ShapeRef::spec_from_id(id)) {
                        assert(self.reachable_from(self.spec_roots()[i as int], id));
                    } else {
                        assert(self.marked_below(before, id));
                    }
                }
            }
            i += 1;
        }

        // Sweep the rest.
        let doomed = keys_to_delete.to_vec();
        let ghost marked = keys_to_delete@;
        let mut i: usize = 0;
        while i < doomed.len()
            invariant
                i <= doomed.len(),
                doomed@.no_duplicates(),
                forall|r: ShapeRef| doomed@.contains(r) <==> marked.contains(r),
                forall|r: ShapeRef| marked.contains(r) ==> r.sign == Sign::Pos && old(self).contains(r.id),
                self.spec_roots() == old(self).spec_roots(),
                self.spec_space() == old(self).spec_space(),
                self.spec_checks() == old(self).spec_checks(),
                forall|k: usize|
                    self.nodes().contains_key(k) <==> old(self).nodes().contains_key(k) && !exists|
                        j: int,
                    |
                        0 <= j < i && slot_of(doomed[j].id) == k,
                forall|k: usize|
                    self.nodes().contains_key(k) ==> self.nodes()[k] == old(self).nodes()[k],
            decreases doomed.len() - i,
        {
            let r = doomed[i];
            assert(doomed@.contains(r));
            proof {
                if exists|j: int| 0 <= j < i && slot_of(doomed[j].id) == slot_of(r.id) {
                    let j = choose|j: int| 0 <= j < i && slot_of(doomed[j].id) == slot_of(r.id);
                    assert(doomed@.contains(doomed[j]));
                    assert(marked.contains(doomed[j]) && marked.contains(r));
                    assert(doomed[j].id.0 == r.id.0);
                    assert(doomed[j] == doomed[i as int]);
                    assert(false);
                }
                assert(marked.contains(r));
                assert(old(self).contains(r.id));
            }
            let ghost before = self.nodes();
            self.remove_node(r.id);
            proof {
                assert forall|k: usize|
                    self.nodes().contains_key(k) <==> old(self).nodes().contains_key(k) && !exists|
                        j: int,
                    |
                        0 <= j < i + 1 && slot_of(doomed[j].id) == k by {
                    if self.nodes().contains_key(k) {
                        assert(before.contains_key(k));
                        if exists|j: int| 0 <= j < i + 1 && slot_of(doomed[j].id) == k {
                            let j = choose|j: int| 0 <= j < i + 1 && slot_of(doomed[j].id) == k;
                            assert(j < i);
                        }
                    }
                    if old(self).nodes().contains_key(k) && !exists|j: int|
                        0 <= j < i + 1 && slot_of(doomed[j].id) == k {
                        assert(!exists|j: int| 0 <= j < i && slot_of(doomed[j].id) == k);
                        assert(slot_of(doomed[i as int].id) != k);
                    }
                }
            }
            i += 1;
        }
        proof {
            let before = old(self);
            assert forall|id: ShapeId|
                self.contains(id) <==> before.contains(id) && !marked.contains(
                    ShapeRef::spec_from_id(id),
                ) by {
                let k = slot_of(id);
                if before.contains(id) && marked.contains(ShapeRef::spec_from_id(id)) {
                    assert(doomed@.contains(ShapeRef::spec_from_id(id)));
                    let j = choose|j: int|
                        0 <= j < doomed.len() && doomed[j] == ShapeRef::spec_from_id(id);
                    assert(slot_of(doomed[j].id) == k);
                }
                if before.contains(id) && !marked.contains(ShapeRef::spec_from_id(id)) {
                    if exists|j: int| 0 <= j < doomed.len() && slot_of(doomed[j].id) == k {
                        let j = choose|j: int| 0 <= j < doomed.len() && slot_of(doomed[j].id) == k;
                        assert(doomed@.contains(doomed[j]));
                        assert(doomed[j].id == id);
                        assert(doomed[j] == ShapeRef::spec_from_id(id));
                    }
                }
            }
            let kept = Set::new(
                |id: ShapeId| before.contains(id) && !marked.contains(ShapeRef::spec_from_id(id)),
            );
            assert forall|m: ShapeId, c: ShapeId|
                kept.contains(m) && #[trigger] before.bounds(m, c) implies kept.contains(c) by {
                let sign = choose|sign: Sign| #[trigger]
                    before.boundary_of(m).contains(ShapeRef { id: c, sign });
                assert(before.marked_below(marked, m));
                assert(before.bounded_within(m));
            }
            assert forall|id: ShapeId|
                self.contains(id) <==> before.contains(id) && before.reachable(id) by {
                if before.reachable(id) {
                    let i = choose|i: int|
                        0 <= i < before.spec_roots().len() && before.reachable_from(
                            #[trigger] before.spec_roots()[i],
                            id,
                        );
                    assert(before.contains(before.spec_roots()[i]));
                    assert(kept.contains(before.spec_roots()[i]));
                    lemma_closed_set_holds_reachable(before, kept, before.spec_roots()[i], id);
                }
            }
            assert forall|id: ShapeId| #[trigger] self.contains(id) implies self.bounded_within(
                id,
            ) by {
                assert(before.contains(id));
                assert(before.bounded_within(id));
                assert(before.marked_below(marked, id));
                assert forall|r: ShapeRef| #[trigger]
                    self.boundary_of(id).contains(r) implies self.contains(r.id) && self.rank_of(
                    r.id,
                ) + 1 == self.rank_of(id) by {
                    assert(before.boundary_of(id).contains(r));
                    assert(before.contains(r.id));
                }
            }
            assert forall|i: int| 0 <= i < self.spec_roots().len() implies self.contains(
                #[trigger] self.spec_roots()[i],
            ) by {
                assert(before.contains(before.spec_roots()[i]));
            }
        }
    }
}

/// Every shape is reachable from itself.
pub proof fn lemma_reach_self(arena: &ShapeArena, id: ShapeId)
    ensures
        arena.reachable_from(id, id),
{
    let path = seq![id];
    assert(arena.is_path(path) && path[0] == id && path.last() == id);
}

/// What is reachable from a boundary element of a shape is reachable from
/// the shape.
pub proof fn lemma_reach_through(arena: &ShapeArena, parent: ShapeId, child: ShapeId, id: ShapeId)
    requires
        arena.bounds(parent, child),
        arena.reachable_from(child, id),
    ensures
        arena.reachable_from(parent, id),
{
    let tail = choose|path: Seq<ShapeId>| #[trigger]
        arena.is_path(path) && path[0] == child && path.last() == id;
    let path = seq![parent] + tail;
    assert forall|i: int| 0 <= i < path.len() - 1 implies arena.bounds(
        #[trigger] path[i],
        path[i + 1],
    ) by {
        if i > 0 {
            assert(path[i] == tail[i - 1]);
            assert(path[i + 1] == tail[i]);
            assert(arena.bounds(tail[i - 1], tail[i - 1 + 1]));
        } else {
            assert(path[1] == tail[0]);
        }
    }
    assert(arena.is_path(path) && path[0] == parent && path.last() == id);
}

/// A set of shapes that holds the boundary elements of each of its members
/// holds every shape reachable from a member.
pub proof fn lemma_closed_set_holds_reachable(
    arena: &ShapeArena,
    members: Set<ShapeId>,
    start: ShapeId,
    id: ShapeId,
)
    requires
        members.contains(start),
        arena.reachable_from(start, id),
        forall|m: ShapeId, c: ShapeId|
            members.contains(m) && #[trigger] arena.bounds(m, c) ==> members.contains(c),
    ensures
        members.contains(id),
{
    let path = choose|path: Seq<ShapeId>| #[trigger]
        arena.is_path(path) && path[0] == start && path.last() == id;
    lemma_closed_set_holds_path(arena, members, path, path.len() - 1);
}

/// A set of shapes that holds the boundary elements of each of its members
/// holds every shape of a path that starts at a member.
proof fn lemma_closed_set_holds_path(
    arena: &ShapeArena,
    members: Set<ShapeId>,
    path: Seq<ShapeId>,
    upto: int,
)
    requires
        arena.is_path(path),
        0 <= upto < path.len(),
        members.contains(path[0]),
        forall|m: ShapeId, c: ShapeId|
            members.contains(m) && #[trigger] arena.bounds(m, c) ==> members.contains(c),
    ensures
        members.contains(path[upto]),
    decreases upto,
{
    if upto > 0 {
        lemma_closed_set_holds_path(arena, members, path, upto - 1);
        assert(arena.bounds(path[upto - 1], path[upto - 1 + 1]));
    }
}

} // verus!
