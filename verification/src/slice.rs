//! The state of one cut: the divider, the tags for the newly exposed
//! boundary, and the results found so far.

use vstd::prelude::*;
use crate::arena::ShapeArena;
use crate::manifold::ManifoldId;
use crate::sign::{ShapeId, ShapeRef, Sign};
use crate::split::{CutError, CutParams, ShapeMetadata, ShapeSplit};
use crate::store::{cache_entries, cache_get, cache_insert, cache_new, SplitCache};

verus! {

/// In-progress slicing operation.
///
/// It lives for one cut of an arena, and is of no use for another cut or
/// another arena.
pub struct SliceOperation {
    /// Closed, oriented manifold that divides the entire space into "inside"
    /// and "outside."
    divider: ManifoldId,
    /// Cache of the result of splitting individual shapes.
    results_cache: SplitCache,
    /// Metadata to attach to the inside side of the shape.
    inside_metadata: Option<ShapeMetadata>,
    /// Metadata to attach to the outside side of the shape.
    outside_metadata: Option<ShapeMetadata>,
}

impl SliceOperation {
    /// The dividing manifold.
    pub closed spec fn spec_divider(&self) -> ManifoldId {
        self.divider
    }

    /// The tag for the inside orientation of a newly exposed boundary.
    pub closed spec fn spec_inside_metadata(&self) -> Option<ShapeMetadata> {
        self.inside_metadata
    }

    /// The tag for the outside orientation of a newly exposed boundary.
    pub closed spec fn spec_outside_metadata(&self) -> Option<ShapeMetadata> {
        self.outside_metadata
    }

    /// The results found so far, by the number of the shape's id.
    pub closed spec fn results(&self) -> Map<u32, ShapeSplit> {
        cache_entries(self.results_cache)
    }

    /// Whether the split of the shape `id` has been found.
    pub open spec fn has_result(&self, id: ShapeId) -> bool {
        self.results().contains_key(id.0)
    }

    /// The split of the positively oriented shape `id`.
    pub open spec fn result_of(&self, id: ShapeId) -> ShapeSplit {
        self.results()[id.0]
    }

    /// Every result is of a shape of the arena, and is a split of that shape
    /// into shapes of the arena, with the intersection shape tagged as the
    /// cut asks.
    pub open spec fn valid_for(&self, arena: &ShapeArena) -> bool {
        forall|id: ShapeId| #[trigger]
            self.has_result(id) ==> {
                &&& arena.contains(id)
                &&& arena.holds_split_of(id, self.result_of(id))
                &&& arena.intersection_tagged(
                    id,
                    self.result_of(id),
                    self.spec_inside_metadata(),
                    self.spec_outside_metadata(),
                )
            }
    }

    /// `after` is for the same cut and has every result of `self`.
    pub open spec fn extended_by(&self, after: &SliceOperation) -> bool {
        &&& after.spec_divider() == self.spec_divider()
        &&& after.spec_inside_metadata() == self.spec_inside_metadata()
        &&& after.spec_outside_metadata() == self.spec_outside_metadata()
        &&& forall|id: ShapeId| #[trigger]
            self.has_result(id) ==> after.has_result(id) && after.result_of(id) == self.result_of(
                id,
            )
    }

    /// `other` is for the same cut and has the same results.
    pub open spec fn same_as(&self, other: &SliceOperation) -> bool {
        &&& self.spec_divider() == other.spec_divider()
        &&& self.spec_inside_metadata() == other.spec_inside_metadata()
        &&& self.spec_outside_metadata() == other.spec_outside_metadata()
        &&& self.results() == other.results()
    }

    /// `self` is `before` with `split` recorded for the shape `id`.
    pub open spec fn with_result(&self, before: &SliceOperation, id: ShapeId, split: ShapeSplit) -> bool {
        &&& self.spec_divider() == before.spec_divider()
        &&& self.spec_inside_metadata() == before.spec_inside_metadata()
        &&& self.spec_outside_metadata() == before.spec_outside_metadata()
        &&& self.results() == before.results().insert(id.0, split)
    }

    /// What becomes of the operation `found` and of the split `raw` that was
    /// found for the shape of the reference `shape`: the split is recorded
    /// and returned as the reference sees it, and a failure is returned with
    /// nothing recorded.
    pub open spec fn recorded(
        &self,
        found: &SliceOperation,
        shape: ShapeRef,
        raw: Result<ShapeSplit, CutError>,
        r: Result<ShapeSplit, CutError>,
    ) -> bool {
        match raw {
            Ok(split) => self.with_result(found, shape.id, split) && r == Ok::<
                ShapeSplit,
                CutError,
            >(split.spec_times(shape.sign)),
            Err(e) => self.same_as(found) && r == Err::<ShapeSplit, CutError>(e),
        }
    }

    /// Starts a cut: no result has been found yet.
    pub fn new(cut: CutParams) -> (op: SliceOperation)
        ensures
            op.spec_divider() == cut.cut,
            op.spec_inside_metadata() == cut.inside.spec_metadata(),
            op.spec_outside_metadata() == cut.outside.spec_metadata(),
            forall|id: ShapeId| !op.has_result(id),
    {
        SliceOperation {
            divider: cut.cut,
            results_cache: cache_new(),
            inside_metadata: cut.inside.metadata(),
            outside_metadata: cut.outside.metadata(),
        }
    }

    /// Returns the dividing manifold.
    pub fn divider(&self) -> (m: ManifoldId)
        ensures
            m == self.spec_divider(),
    {
        self.divider
    }

    /// Returns the tag for the inside orientation of a newly exposed boundary.
    pub fn inside_metadata(&self) -> (m: Option<ShapeMetadata>)
        ensures
            m == self.spec_inside_metadata(),
    {
        self.inside_metadata
    }

    /// Returns the tag for the outside orientation of a newly exposed
    /// boundary.
    pub fn outside_metadata(&self) -> (m: Option<ShapeMetadata>)
        ensures
            m == self.spec_outside_metadata(),
    {
        self.outside_metadata
    }

    /// Returns the split found for the shape `id`, if there is one.
    pub fn lookup(&self, id: ShapeId) -> (found: Option<ShapeSplit>)
        ensures
            found.is_some() == self.has_result(id),
            found matches Some(split) ==> split == self.result_of(id),
    {
        cache_get(&self.results_cache, id.0)
    }

    /// Records the split found for the shape `id`.
    pub fn record(&mut self, id: ShapeId, split: ShapeSplit)
        ensures
            final(self).results() == old(self).results().insert(id.0, split),
            final(self).spec_divider() == old(self).spec_divider(),
            final(self).spec_inside_metadata() == old(self).spec_inside_metadata(),
            final(self).spec_outside_metadata() == old(self).spec_outside_metadata(),
    {
        cache_insert(&mut self.results_cache, id.0, split);
    }
}

impl ShapeArena {
    /// The reference in `r`, if any, is to a shape of the arena.
    pub open spec fn holds_option(&self, r: Option<ShapeRef>) -> bool {
        r matches Some(r) ==> self.contains(r.id)
    }

    /// Every reference in `split` is to a shape of the arena.
    pub open spec fn holds_split(&self, split: ShapeSplit) -> bool {
        split matches ShapeSplit::NonFlush { inside, outside, intersection_shape } ==> {
            &&& self.holds_option(inside)
            &&& self.holds_option(outside)
            &&& self.holds_option(intersection_shape)
        }
    }

    /// The reference in `part`, if any, is a positive reference to a shape of
    /// the arena that has the manifold, the number of dimensions and both
    /// tags of the shape `whole`: through it each orientation has the tag
    /// that it has through `whole`.
    pub open spec fn is_part_of(&self, part: Option<ShapeRef>, whole: ShapeId) -> bool {
        part matches Some(r) ==> {
            &&& r.sign == Sign::Pos
            &&& self.contains(r.id)
            &&& self.rank_of(r.id) == self.rank_of(whole)
            &&& self.manifold_of(r.id) == self.manifold_of(whole)
            &&& self.node(r.id).shape.positive_metadata == self.node(
                whole,
            ).shape.positive_metadata
            &&& self.node(r.id).shape.negative_metadata == self.node(
                whole,
            ).shape.negative_metadata
        }
    }

    /// The intersection shape of the split `split` of the shape `whole`
    /// carries the tags of the cut, `inside` on the orientation of the
    /// reference and `outside` on the opposite one, unless it is a boundary
    /// element of `whole`: one that was flush with the divider keeps its own
    /// tags.
    pub open spec fn intersection_tagged(
        &self,
        whole: ShapeId,
        split: ShapeSplit,
        inside: Option<ShapeMetadata>,
        outside: Option<ShapeMetadata>,
    ) -> bool {
        split matches ShapeSplit::NonFlush { inside: _, outside: _, intersection_shape: Some(x) }
            ==> self.bounds(whole, x.id) || (self.metadata_of(x) == inside && self.metadata_of(
            x.spec_neg(),
        ) == outside)
    }

    /// `split` is a split of the shape `whole` into shapes of the arena: its
    /// inside and outside parts have the manifold, the number of dimensions
    /// and the tags of `whole`.
    pub open spec fn holds_split_of(&self, whole: ShapeId, split: ShapeSplit) -> bool {
        split matches ShapeSplit::NonFlush { inside, outside, intersection_shape } ==> {
            &&& self.is_part_of(inside, whole)
            &&& self.is_part_of(outside, whole)
            &&& self.holds_option(intersection_shape)
        }
    }

    /// The shape in `part`, taken positively, has exactly `boundary` as its
    /// boundary; there is no shape if and only if `boundary` is empty.
    pub open spec fn bounded_by(&self, part: Option<ShapeRef>, boundary: Set<ShapeRef>) -> bool {
        match part {
            Some(r) => r.sign == Sign::Pos && self.boundary_of(r.id) == boundary && boundary
                != Set::<ShapeRef>::empty(),
            None => boundary == Set::<ShapeRef>::empty(),
        }
    }
}

/// Results that refer to shapes of an arena refer to shapes of every arena
/// that extends it.
pub proof fn lemma_valid_for_extension(
    op: &SliceOperation,
    before: &ShapeArena,
    after: &ShapeArena,
)
    requires
        op.valid_for(before),
        before.extended_by(after),
    ensures
        op.valid_for(after),
{
    assert forall|id: ShapeId| #[trigger] op.has_result(id) implies after.contains(id)
        && after.holds_split_of(id, op.result_of(id)) && after.intersection_tagged(
        id,
        op.result_of(id),
        op.spec_inside_metadata(),
        op.spec_outside_metadata(),
    ) by {
        assert(before.contains(id));
        lemma_holds_split_of_extension(before, after, id, op.result_of(id));
        lemma_intersection_tagged_extension(
            before,
            after,
            id,
            op.result_of(id),
            op.spec_inside_metadata(),
            op.spec_outside_metadata(),
        );
    }
}

/// A split of a shape into shapes of an arena is one in every arena that
/// extends it. Seen through a sign, it still refers to shapes of the arena.
pub proof fn lemma_holds_split_of_extension(
    before: &ShapeArena,
    after: &ShapeArena,
    whole: ShapeId,
    split: ShapeSplit,
)
    requires
        before.contains(whole),
        before.holds_split_of(whole, split),
        before.extended_by(after),
    ensures
        after.holds_split_of(whole, split),
        after.holds_split(split),
        after.holds_split(split.spec_neg()),
{
    if let ShapeSplit::NonFlush { inside, outside, intersection_shape } = split {
        if let Some(r) = inside {
            assert(before.contains(r.id));
        }
        if let Some(r) = outside {
            assert(before.contains(r.id));
        }
        if let Some(r) = intersection_shape {
            assert(before.contains(r.id));
        }
    }
}

/// An intersection shape that is tagged, or is a boundary element of the
/// shape that was split, is so in every arena that extends the first.
pub proof fn lemma_intersection_tagged_extension(
    before: &ShapeArena,
    after: &ShapeArena,
    whole: ShapeId,
    split: ShapeSplit,
    inside: Option<ShapeMetadata>,
    outside: Option<ShapeMetadata>,
)
    requires
        before.contains(whole),
        before.holds_split_of(whole, split),
        before.intersection_tagged(whole, split, inside, outside),
        before.extended_by(after),
    ensures
        after.intersection_tagged(whole, split, inside, outside),
{
    if let ShapeSplit::NonFlush { inside: _, outside: _, intersection_shape: Some(x) } = split {
        assert(before.contains(x.id));
        assert(after.node(x.id) == before.node(x.id));
        assert(after.node(whole) == before.node(whole));
        if before.bounds(whole, x.id) {
            let sign = choose|sign: Sign| #[trigger]
                before.boundary_of(whole).contains(ShapeRef { id: x.id, sign });
            assert(after.boundary_of(whole).contains(ShapeRef { id: x.id, sign }));
        }
    }
}

} // verus!
