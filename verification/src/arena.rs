//! The arena: shapes in slots with stable identifiers, and the roots.

use vstd::prelude::*;
use crate::record::{Exchange, Recorded};
use crate::manifold::{GeometryError, ManifoldId, ManifoldSpace};
use crate::shape::{Node, Shape, ShapeSet};
use crate::sign::{ShapeId, ShapeRef, Sign};
use crate::split::{CutError, ShapeMetadata};
use crate::store::{
    slab_clone, slab_contains, slab_entries, slab_get, slab_get_mut, slab_insert, slab_keys, slab_new,
    slab_next_key, slab_remove, slab_slots, NodeSlab,
};

verus! {

/// Set of shapes in a space.
///
/// Every shape is bounded by shapes of the arena that have one dimension
/// less. Shapes are never changed once added, but for their tags.
pub struct ShapeArena {
    /// Space that all shapes inhabit.
    space: ManifoldId,
    /// All shapes and elements of them.
    shapes: NodeSlab,
    /// Top-level shapes.
    roots: Vec<ShapeId>,
    /// Whether the costly checks of topology are made.
    checks: bool,
}

impl Clone for ShapeArena {
    /// Returns an arena with the same space, shapes, roots and checks.
    fn clone(&self) -> (r: ShapeArena)
        ensures
            self.copied_as(&r),
            self.wf() ==> r.wf(),
    {
        let mut roots: Vec<ShapeId> = Vec::new();
        let mut i: usize = 0;
        while i < self.roots.len()
            invariant
                i <= self.roots.len(),
                roots@ == self.roots@.subrange(0, i as int),
            decreases self.roots.len() - i,
        {
            roots.push(self.roots[i]);
            assert(roots@ =~= self.roots@.subrange(0, i + 1));
            i += 1;
        }
        assert(roots@ =~= self.roots@);
        let r = ShapeArena {
            space: self.space,
            shapes: slab_clone(&self.shapes),
            roots,
            checks: self.checks,
        };
        proof {
            assert(r.nodes().dom() =~= self.nodes().dom());
            assert forall|id: ShapeId| #[trigger] self.contains(id) implies r.node(id).spec_same(
                &self.node(id),
            ) by {
                assert(self.nodes().contains_key(slot_of(id)));
            }
            if self.wf() {
                assert forall|id: ShapeId| #[trigger] r.contains(id) implies r.bounded_within(
                    id,
                ) by {
                    assert(self.contains(id));
                    assert(self.bounded_within(id));
                    assert(r.node(id).spec_same(&self.node(id)));
                    assert forall|e: ShapeRef| #[trigger]
                        r.boundary_of(id).contains(e) implies r.contains(e.id) && r.rank_of(e.id)
                        + 1 == r.rank_of(id) by {
                        assert(self.boundary_of(id).contains(e));
                        assert(self.contains(e.id));
                        assert(r.node(e.id).spec_same(&self.node(e.id)));
                    }
                }
                assert forall|i: int| 0 <= i < r.spec_roots().len() implies r.contains(
                    #[trigger] r.spec_roots()[i],
                ) by {
                    assert(self.contains(self.spec_roots()[i]));
                }
            }
        }
        r
    }
}

/// The slot that holds the shape `id`.
pub open spec fn slot_of(id: ShapeId) -> usize {
    id.0 as usize
}

impl ShapeArena {
    /// The occupied slots.
    pub closed spec fn nodes(&self) -> Map<usize, Node> {
        slab_entries(self.shapes)
    }

    /// The manifold of the whole space.
    pub closed spec fn spec_space(&self) -> ManifoldId {
        self.space
    }

    /// The root shapes, in order.
    pub closed spec fn spec_roots(&self) -> Seq<ShapeId> {
        self.roots@
    }

    /// Whether the costly checks of topology are made.
    pub closed spec fn spec_checks(&self) -> bool {
        self.checks
    }

    /// `copy` has the space, the roots, the checks and the next slot of
    /// `self`, and the same shapes: under each identifier the same manifold,
    /// number of dimensions, boundary and tags.
    pub open spec fn copied_as(&self, copy: &ShapeArena) -> bool {
        &&& copy.spec_space() == self.spec_space()
        &&& copy.spec_roots() == self.spec_roots()
        &&& copy.spec_checks() == self.spec_checks()
        &&& copy.next_slot() == self.next_slot()
        &&& copy.packed() == self.packed()
        &&& copy.nodes().dom() == self.nodes().dom()
        &&& forall|id: ShapeId| #[trigger]
            self.contains(id) ==> copy.node(id).spec_same(&self.node(id))
    }

    /// No slot of the arena is vacant, and the next shape goes to a new
    /// slot. An arena is so when it is made, and stays so while shapes are
    /// added; it is so no longer once a shape is removed, or refused for want
    /// of an identifier.
    pub closed spec fn packed(&self) -> bool {
        slab_next_key(self.shapes) == slab_slots(self.shapes)
    }

    /// `other` is the same arena but for its roots: it has the same shapes,
    /// the same next slot, the same space and the same checks.
    pub open spec fn same_but_roots(&self, other: &ShapeArena) -> bool {
        &&& self.nodes() == other.nodes()
        &&& self.next_slot() == other.next_slot()
        &&& self.packed() == other.packed()
        &&& self.spec_space() == other.spec_space()
        &&& self.spec_checks() == other.spec_checks()
    }

    /// The slot that the next shape goes to.
    pub closed spec fn next_slot(&self) -> usize {
        slab_next_key(self.shapes)
    }

    /// Whether the arena holds a shape under `id`.
    pub open spec fn contains(&self, id: ShapeId) -> bool {
        self.nodes().contains_key(slot_of(id))
    }

    /// The shape held under `id`, with its rank.
    pub open spec fn node(&self, id: ShapeId) -> Node {
        self.nodes()[slot_of(id)]
    }

    /// The boundary of the shape `id`.
    pub open spec fn boundary_of(&self, id: ShapeId) -> Set<ShapeRef> {
        self.node(id).shape.boundary@
    }

    /// The number of dimensions of the shape `id`.
    pub open spec fn rank_of(&self, id: ShapeId) -> int {
        self.node(id).rank as int
    }

    /// The manifold of the shape `id`.
    pub open spec fn manifold_of(&self, id: ShapeId) -> ManifoldId {
        self.node(id).shape.manifold
    }

    /// The tag of one orientation of a shape.
    pub open spec fn metadata_of(&self, r: ShapeRef) -> Option<ShapeMetadata> {
        self.node(r.id).shape.spec_metadata(r.sign)
    }

    /// Every boundary element of the shape `id` is a shape of the arena, of
    /// one dimension less.
    pub open spec fn bounded_within(&self, id: ShapeId) -> bool {
        &&& self.node(id).shape.boundary.wf()
        &&& forall|r: ShapeRef| #[trigger]
            self.boundary_of(id).contains(r) ==> self.contains(r.id) && self.rank_of(r.id) + 1
                == self.rank_of(id)
    }

    /// The invariant of the arena: every slot has an identifier, every shape
    /// is bounded by shapes of the arena that have one dimension less, and
    /// every root is a shape of the arena.
    pub open spec fn wf(&self) -> bool {
        &&& forall|k: usize| #[trigger] self.nodes().contains_key(k) ==> k <= u32::MAX
        &&& forall|id: ShapeId| #[trigger] self.contains(id) ==> self.bounded_within(id)
        &&& forall|i: int|
            0 <= i < self.spec_roots().len() ==> self.contains(#[trigger] self.spec_roots()[i])
    }

    /// The shape `id` is in `self` as it is in `before`: manifold, rank,
    /// boundary and tags.
    pub open spec fn same_shape_at(&self, before: &ShapeArena, id: ShapeId) -> bool {
        self.node(id) == before.node(id)
    }

    /// Every shape of `self` is a shape of `after`, unchanged. `after` may
    /// hold more shapes.
    pub open spec fn extended_by(&self, after: &ShapeArena) -> bool {
        &&& after.spec_space() == self.spec_space()
        &&& after.spec_checks() == self.spec_checks()
        &&& forall|id: ShapeId| #[trigger]
            self.contains(id) ==> after.contains(id) && after.same_shape_at(self, id)
    }

    /// `after` holds the shapes of `self` and no others, each unchanged.
    pub open spec fn retagged_as(&self, after: &ShapeArena) -> bool {
        &&& self.extended_by(after)
        &&& after.nodes().dom() == self.nodes().dom()
    }

    /// Constructs the arena of a space whose manifold has `ndim` dimensions:
    /// it holds one shape, the whole space, which is its only root.
    pub fn with_rank(space: ManifoldId, ndim: u8) -> (arena: ShapeArena)
        ensures
            arena.wf(),
            arena.spec_space() == space,
            arena.spec_checks(),
            arena.spec_roots() == seq![ShapeId(0)],
            arena.nodes().dom() == set![0usize],
            arena.manifold_of(ShapeId(0)) == space,
            arena.rank_of(ShapeId(0)) == ndim,
            arena.boundary_of(ShapeId(0)) == Set::<ShapeRef>::empty(),
            arena.node(ShapeId(0)).shape.positive_metadata.is_none(),
            arena.node(ShapeId(0)).shape.negative_metadata.is_none(),
            arena.packed(),
            arena.next_slot() == 1,
    {
        let mut shapes = slab_new();
        let _ = slab_insert(&mut shapes, Node { shape: Shape::whole_space(space), rank: ndim });
        let mut roots: Vec<ShapeId> = Vec::new();
        roots.push(ShapeId(0));
        let arena = ShapeArena { space, shapes, roots, checks: true };
        proof {
            assert(arena.nodes().dom() =~= set![0usize]);
            assert(arena.spec_roots() =~= seq![ShapeId(0)]);
            assert forall|id: ShapeId| #[trigger] arena.contains(id) implies arena.bounded_within(
                id,
            ) by {
                assert(id == ShapeId(0));
            }
        }
        arena
    }

    /// Constructs a new shape arena containing only a shape representing the
    /// whole space.
    ///
    /// The geometry is asked once, for the number of dimensions of `space`.
    /// If it cannot tell, that failure is returned; otherwise the arena is
    /// what [`ShapeArena::with_rank`] makes of the answer.
    pub fn new<G: ManifoldSpace>(geometry: &mut Recorded<G>, space: ManifoldId) -> (r: Result<
        ShapeArena,
        CutError,
    >)
        ensures
            exists|answer: Result<u8, GeometryError>|
                {
                    &&& #[trigger] final(geometry).asked_once(
                        old(geometry),
                        Exchange::Ndim { manifold: space, answer },
                    )
                    &&& match answer {
                        Ok(ndim) => r matches Ok(arena) && arena.rank_of(ShapeId(0)) == ndim,
                        Err(e) => r matches Err(failure) && failure == CutError::Geometry(e),
                    }
                },
            final(geometry).grown_from(old(geometry)),
            r matches Ok(arena) ==> {
                &&& arena.wf()
                &&& arena.spec_space() == space
                &&& arena.spec_checks()
                &&& arena.spec_roots() == seq![ShapeId(0)]
                &&& arena.nodes().dom() == set![0usize]
                &&& arena.manifold_of(ShapeId(0)) == space
                &&& arena.boundary_of(ShapeId(0)) == Set::<ShapeRef>::empty()
                &&& arena.node(ShapeId(0)).shape.positive_metadata.is_none()
                &&& arena.node(ShapeId(0)).shape.negative_metadata.is_none()
                &&& arena.packed()
                &&& arena.next_slot() == 1
            },
    {
        match geometry.ndim(space) {
            Ok(ndim) => Ok(ShapeArena::with_rank(space, ndim)),
            Err(e) => Err(CutError::Geometry(e)),
        }
    }

    /// Returns the manifold representing the whole space.
    pub fn space(&self) -> (m: ManifoldId)
        ensures
            m == self.spec_space(),
    {
        self.space
    }

    /// Returns the list of root shapes, in canonical order based on the cuts.
    pub fn roots(&self) -> (roots: &[ShapeId])
        ensures
            roots@ == self.spec_roots(),
    {
        self.roots.as_slice()
    }

    /// Returns whether the shape arena is empty (contains no root shapes).
    pub fn is_empty(&self) -> (empty: bool)
        ensures
            empty == (self.spec_roots().len() == 0),
    {
        self.roots.len() == 0
    }

    /// Returns whether the costly checks of topology are made: that the edges
    /// of each polygon chain into closed loops, and that the intervals left by
    /// a simplification share no endpoint.
    pub fn checks(&self) -> (on: bool)
        ensures
            on == self.spec_checks(),
    {
        self.checks
    }

    /// Turns the costly checks of topology on or off.
    pub fn set_checks(&mut self, on: bool)
        ensures
            final(self).spec_checks() == on,
            final(self).nodes() == old(self).nodes(),
            final(self).spec_roots() == old(self).spec_roots(),
            final(self).spec_space() == old(self).spec_space(),
    {
        self.checks = on;
    }

    /// Returns whether the arena holds a shape under `id`.
    pub fn has_shape(&self, id: ShapeId) -> (present: bool)
        ensures
            present == self.contains(id),
    {
        slab_contains(&self.shapes, id.0 as usize)
    }

    /// Returns the shape held under `id`.
    pub fn shape(&self, id: ShapeId) -> (shape: &Shape)
        requires
            self.contains(id),
        ensures
            *shape == self.node(id).shape,
    {
        &slab_get(&self.shapes, id.0 as usize).shape
    }

    /// Returns the number of dimensions of the shape held under `id`.
    pub fn rank(&self, id: ShapeId) -> (rank: u8)
        requires
            self.contains(id),
        ensures
            rank == self.rank_of(id),
    {
        slab_get(&self.shapes, id.0 as usize).rank
    }

    /// Returns the tag of one orientation of a shape.
    pub fn get_metadata(&self, shape: ShapeRef) -> (metadata: Option<ShapeMetadata>)
        requires
            self.contains(shape.id),
        ensures
            metadata == self.metadata_of(shape),
    {
        let node = slab_get(&self.shapes, shape.id.0 as usize);
        match shape.sign {
            Sign::Pos => node.shape.positive_metadata,
            Sign::Neg => node.shape.negative_metadata,
        }
    }

    /// Replaces the tag of one orientation of a shape. Nothing else changes.
    pub fn set_metadata(&mut self, shape: ShapeRef, metadata: Option<ShapeMetadata>)
        requires
            old(self).contains(shape.id),
        ensures
            final(self).nodes() == old(self).nodes().insert(
                slot_of(shape.id),
                Node {
                    shape: old(self).node(shape.id).shape.spec_with_metadata(shape.sign, metadata),
                    rank: old(self).node(shape.id).rank,
                },
            ),
            final(self).spec_roots() == old(self).spec_roots(),
            final(self).spec_space() == old(self).spec_space(),
            final(self).spec_checks() == old(self).spec_checks(),
            final(self).next_slot() == old(self).next_slot(),
            final(self).packed() == old(self).packed(),
    {
        let node = slab_get_mut(&mut self.shapes, shape.id.0 as usize);
        match shape.sign {
            Sign::Pos => {
                node.shape.positive_metadata = metadata;
            },
            Sign::Neg => {
                node.shape.negative_metadata = metadata;
            },
        }
    }

    /// Stores a shape under the next identifier, with `rank` as its number of
    /// dimensions. Fails, and changes nothing, if no identifier is left.
    pub(crate) fn insert_node(&mut self, shape: Shape, rank: u8) -> (r: Result<ShapeId, CutError>)
        ensures
            final(self).spec_roots() == old(self).spec_roots(),
            final(self).spec_space() == old(self).spec_space(),
            final(self).spec_checks() == old(self).spec_checks(),
            r is Ok <==> old(self).next_slot() <= u32::MAX,
            r is Err ==> final(self).next_slot() > u32::MAX,
            r is Ok && old(self).packed() ==> final(self).packed() && final(self).next_slot()
                == old(self).next_slot() + 1,
            match r {
                Ok(id) => {
                    &&& slot_of(id) == old(self).next_slot()
                    &&& !old(self).contains(id)
                    &&& final(self).nodes() == old(self).nodes().insert(
                        slot_of(id),
                        Node { shape, rank },
                    )
                },
                Err(e) => e == CutError::ArenaFull && final(self).nodes() == old(self).nodes(),
            },
    {
        let key = slab_insert(&mut self.shapes, Node { shape, rank });
        if key > u32::MAX as usize {
            let _ = slab_remove(&mut self.shapes, key);
            assert(self.nodes() =~= old(self).nodes());
            Err(CutError::ArenaFull)
        } else {
            Ok(ShapeId(key as u32))
        }
    }

    /// Takes a shape out of the arena. Nothing else changes.
    pub(crate) fn remove_node(&mut self, id: ShapeId)
        requires
            old(self).contains(id),
        ensures
            final(self).nodes() == old(self).nodes().remove(slot_of(id)),
            final(self).spec_roots() == old(self).spec_roots(),
            final(self).spec_space() == old(self).spec_space(),
            final(self).spec_checks() == old(self).spec_checks(),
    {
        let _ = slab_remove(&mut self.shapes, id.0 as usize);
    }

    /// Returns the occupied slots, each once.
    pub(crate) fn slots(&self) -> (slots: Vec<usize>)
        ensures
            slots@.no_duplicates(),
            forall|k: usize| slots@.contains(k) <==> self.nodes().contains_key(k),
    {
        slab_keys(&self.shapes)
    }

    /// Replaces the list of roots. Nothing else changes.
    pub(crate) fn replace_roots(&mut self, roots: Vec<ShapeId>) -> (previous: Vec<ShapeId>)
        ensures
            previous@ == old(self).spec_roots(),
            final(self).spec_roots() == roots@,
            final(self).nodes() == old(self).nodes(),
            final(self).next_slot() == old(self).next_slot(),
            final(self).packed() == old(self).packed(),
            final(self).spec_space() == old(self).spec_space(),
            final(self).spec_checks() == old(self).spec_checks(),
    {
        let mut roots = roots;
        std::mem::swap(&mut self.roots, &mut roots);
        roots
    }
}

/// Replacing a tag keeps the invariant of the arena, changes no other shape,
/// and leaves the shape its manifold, rank and boundary.
pub proof fn lemma_retag_keeps_shapes(
    before: &ShapeArena,
    after: &ShapeArena,
    shape: ShapeRef,
    metadata: Option<ShapeMetadata>,
)
    requires
        before.contains(shape.id),
        after.nodes() == before.nodes().insert(
            slot_of(shape.id),
            Node {
                shape: before.node(shape.id).shape.spec_with_metadata(shape.sign, metadata),
                rank: before.node(shape.id).rank,
            },
        ),
        after.spec_roots() == before.spec_roots(),
        after.spec_space() == before.spec_space(),
        after.spec_checks() == before.spec_checks(),
    ensures
        after.nodes().dom() == before.nodes().dom(),
        before.wf() ==> after.wf(),
        after.metadata_of(shape) == metadata,
        after.metadata_of(shape.spec_neg()) == before.metadata_of(shape.spec_neg()),
        after.node(shape.id).rank == before.node(shape.id).rank,
        after.node(shape.id).shape.manifold == before.node(shape.id).shape.manifold,
        after.node(shape.id).shape.boundary == before.node(shape.id).shape.boundary,
        forall|id: ShapeId|
            id != shape.id && #[trigger] before.contains(id) ==> after.contains(id) && after.node(id)
                == before.node(id),
{
    assert(after.nodes().dom() =~= before.nodes().dom());
    assert forall|id: ShapeId| id != shape.id && #[trigger] before.contains(id) implies after.contains(
        id,
    ) && after.node(id) == before.node(id) by {
        assert(slot_of(id) != slot_of(shape.id));
    }
    if before.wf() {
        assert forall|id: ShapeId| #[trigger] after.contains(id) implies after.bounded_within(
            id,
        ) by {
            assert(before.contains(id));
            assert(before.bounded_within(id));
            if id.0 == shape.id.0 {
                assert(id == shape.id);
            } else {
                assert(slot_of(id) != slot_of(shape.id));
            }
            assert forall|r: ShapeRef| #[trigger]
                after.boundary_of(id).contains(r) implies after.contains(r.id) && after.rank_of(
                r.id,
            ) + 1 == after.rank_of(id) by {
                assert(before.boundary_of(id).contains(r));
                assert(before.contains(r.id));
                if r.id.0 != shape.id.0 {
                    assert(slot_of(r.id) != slot_of(shape.id));
                } else {
                    assert(r.id == shape.id);
                }
            }
        }
        assert forall|i: int| 0 <= i < after.spec_roots().len() implies after.contains(
            #[trigger] after.spec_roots()[i],
        ) by {
            assert(before.contains(before.spec_roots()[i]));
        }
    }
}

/// Adding a shape whose boundary elements are shapes of the arena, each of one
/// dimension less, keeps the invariant of the arena and leaves the shapes that
/// were there as they were.
pub proof fn lemma_insert_keeps_shapes(
    before: &ShapeArena,
    after: &ShapeArena,
    id: ShapeId,
    node: Node,
)
    requires
        before.wf(),
        !before.contains(id),
        after.nodes() == before.nodes().insert(slot_of(id), node),
        after.spec_roots() == before.spec_roots(),
        after.spec_space() == before.spec_space(),
        after.spec_checks() == before.spec_checks(),
        node.shape.boundary.wf(),
        forall|r: ShapeRef| #[trigger]
            node.shape.boundary@.contains(r) ==> before.contains(r.id) && before.rank_of(r.id) + 1
                == node.rank,
    ensures
        after.wf(),
        before.extended_by(after),
        after.contains(id),
        after.node(id) == node,
        after.nodes().dom() == before.nodes().dom().insert(slot_of(id)),
{
    assert(after.nodes().dom() =~= before.nodes().dom().insert(slot_of(id)));
    assert forall|x: ShapeId| #[trigger] before.contains(x) implies after.contains(x)
        && after.same_shape_at(before, x) by {
        assert(slot_of(x) != slot_of(id));
    }
    assert forall|x: ShapeId| #[trigger] after.contains(x) implies after.bounded_within(x) by {
        if slot_of(x) == slot_of(id) {
            assert(x == id);
            assert forall|r: ShapeRef| #[trigger]
                after.boundary_of(x).contains(r) implies after.contains(r.id) && after.rank_of(
                r.id,
            ) + 1 == after.rank_of(x) by {
                assert(node.shape.boundary@.contains(r));
                assert(before.contains(r.id));
            }
        } else {
            assert(before.contains(x));
            assert(before.bounded_within(x));
            assert forall|r: ShapeRef| #[trigger]
                after.boundary_of(x).contains(r) implies after.contains(r.id) && after.rank_of(
                r.id,
            ) + 1 == after.rank_of(x) by {
                assert(before.boundary_of(x).contains(r));
                assert(before.contains(r.id));
            }
        }
    }
    assert forall|i: int| 0 <= i < after.spec_roots().len() implies after.contains(
        #[trigger] after.spec_roots()[i],
    ) by {
        assert(before.contains(before.spec_roots()[i]));
    }
}

/// Two arenas with the same slots and roots are both well formed or neither,
/// and each holds the shapes of the other.
pub proof fn lemma_same_nodes(before: &ShapeArena, after: &ShapeArena)
    requires
        after.nodes() == before.nodes(),
        after.spec_space() == before.spec_space(),
        after.spec_checks() == before.spec_checks(),
    ensures
        before.retagged_as(after),
        after.spec_roots() == before.spec_roots() && before.wf() ==> after.wf(),
{
    assert forall|id: ShapeId| #[trigger] before.contains(id) implies after.contains(id)
        && after.same_shape_at(before, id) by {}
    if after.spec_roots() == before.spec_roots() && before.wf() {
        assert forall|id: ShapeId| #[trigger] after.contains(id) implies after.bounded_within(
            id,
        ) by {
            assert(before.contains(id));
            assert(before.bounded_within(id));
            assert forall|r: ShapeRef| #[trigger]
                after.boundary_of(id).contains(r) implies after.contains(r.id) && after.rank_of(
                r.id,
            ) + 1 == after.rank_of(id) by {
                assert(before.boundary_of(id).contains(r));
                assert(before.contains(r.id));
            }
        }
        assert forall|i: int| 0 <= i < after.spec_roots().len() implies after.contains(
            #[trigger] after.spec_roots()[i],
        ) by {
            assert(before.contains(before.spec_roots()[i]));
        }
    }
}

} // verus!
