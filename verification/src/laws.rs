//! What holds of splits and of merged intervals, whatever the geometry.

use vstd::prelude::*;
use crate::arena::{slot_of, ShapeArena};
use crate::construct::lemma_no_edges_settle;
use crate::cut::{spec_some_members, FinishSteps, IntersectionSteps, Side};
use crate::intervals::{spec_merge_plan, MergePlan};
use crate::manifold::{GeometryError, ManifoldId, ManifoldSpace, ManifoldSplit, PointId};
use crate::record::{lemma_grown_twice, Exchange, Recorded};
use crate::shape::{Shape, ShapeSet};
use crate::sign::{ShapeId, ShapeRef, Sign};
use crate::slice::SliceOperation;
use crate::split::{spec_neg_option, CutError, ShapeMetadata, ShapeSplit};
use crate::steps::{ChildCut, Cutting};

verus! {

impl ShapeSplit {
    /// A split that has both an inside part and an outside part has an
    /// intersection shape between them.
    pub open spec fn closed(self) -> bool {
        self matches ShapeSplit::NonFlush { inside, outside, intersection_shape } ==> (inside
            is Some && outside is Some ==> intersection_shape is Some)
    }

    /// Returns whether the split, if it has both an inside part and an
    /// outside part, has an intersection shape between them.
    pub fn is_closed(self) -> (closed: bool)
        ensures
            closed == self.closed(),
    {
        match self {
            ShapeSplit::NonFlush { inside, outside, intersection_shape } => !(inside.is_some()
                && outside.is_some() && intersection_shape.is_none()),
            _ => true,
        }
    }
}

/// Sign equivariance of negation: negating a split twice gives it back,
/// seeing a split through a negative reference is negating it, and seeing it
/// through the negated reference is negating what the reference sees.
pub proof fn lemma_split_negation(split: ShapeSplit, sign: Sign)
    ensures
        split.spec_neg().spec_neg() == split,
        split.spec_times(Sign::Pos) == split,
        split.spec_times(Sign::Neg) == split.spec_neg(),
        split.spec_times(sign.spec_neg()) == split.spec_times(sign).spec_neg(),
        split.spec_times(sign).spec_times(sign) == split,
{
    if let ShapeSplit::NonFlush { inside, outside, intersection_shape } = split {
        lemma_option_negation(inside);
        lemma_option_negation(outside);
        lemma_option_negation(intersection_shape);
    }
}

/// Negating an optional reference twice gives it back.
pub proof fn lemma_option_negation(r: Option<ShapeRef>)
    ensures
        spec_neg_option(spec_neg_option(r)) == r,
        spec_neg_option(r).is_some() == r.is_some(),
{
}

/// Sign equivariance of a cut: within one cut, what `cut_shape` returns for a
/// reference and what it returns for the negated reference are negations of
/// each other.
///
/// `cut_shape` returns the result recorded for the shape, seen through the
/// sign of the reference, and leaves a recorded result as it is. So `first`,
/// returned for `r` when the operation was in the state `op`, and `second`,
/// returned for the negation of `r` in a later state `later` of the same
/// operation, are related as stated.
pub proof fn lemma_cut_sign_equivariance(
    op: &SliceOperation,
    later: &SliceOperation,
    r: ShapeRef,
    first: ShapeSplit,
    second: ShapeSplit,
)
    requires
        op.has_result(r.id),
        op.extended_by(later),
        first == op.result_of(r.id).spec_times(r.sign),
        second == later.result_of(r.spec_neg().id).spec_times(r.spec_neg().sign),
    ensures
        second == first.spec_neg(),
        first == second.spec_neg(),
{
    lemma_split_negation(op.result_of(r.id), r.sign);
    lemma_split_negation(first, Sign::Neg);
}

/// Negation keeps a split closed, and keeps the shapes it refers to.
pub proof fn lemma_negation_keeps_closed(split: ShapeSplit, id: ShapeId)
    ensures
        split.spec_neg().closed() == split.closed(),
        split.spec_neg().mentions(id) == split.mentions(id),
{
}

/// The splits that need no look at the boundary are closed: those that the
/// classification of the manifold settles, and that of a shape which the cut
/// misses.
pub proof fn lemma_unsplit_is_closed(classification: ManifoldSplit, shape: ShapeId, is_inside: bool)
    ensures
        ShapeSplit::spec_from_unsplit(classification) matches Some(split) ==> split.closed(),
        ShapeSplit::spec_unsplit_whole(shape, is_inside).closed(),
{
}

/// Closure conservation for the split of an edge: it always has an
/// intersection shape, and so is closed.
pub proof fn lemma_edge_split_is_closed<G: ManifoldSpace>(
    after: &ShapeArena,
    before: &ShapeArena,
    later: &Recorded<G>,
    earlier: &Recorded<G>,
    shape: ShapeId,
    intersection_manifold: ManifoldId,
    inside_metadata: Option<ShapeMetadata>,
    outside_metadata: Option<ShapeMetadata>,
    split: ShapeSplit,
)
    requires
        after.edge_split_in_steps(
            before,
            later,
            earlier,
            shape,
            intersection_manifold,
            inside_metadata,
            outside_metadata,
            Ok::<ShapeSplit, CutError>(split),
        ),
    ensures
        split.closed(),
        split matches ShapeSplit::NonFlush { inside: _, outside: _, intersection_shape: Some(_) },
{
}

/// Closure conservation for a split that is finished from the splits of the
/// boundary elements: it is closed unless the geometry told that the shape
/// does not contain the whole of the intersection manifold.
///
/// A split with an inside part and an outside part but no intersection shape
/// comes only where no boundary element is flush with the divider, the
/// boundary of the intersection came out empty, and the geometry found a
/// boundary element of the shape with a part of the intersection manifold
/// outside it.
pub proof fn lemma_finished_split_is_closed<G: ManifoldSpace>(
    after: &ShapeArena,
    before: &ShapeArena,
    later: &Recorded<G>,
    earlier: &Recorded<G>,
    shape: ShapeId,
    intersection_manifold: ManifoldId,
    inside_set: Set<ShapeRef>,
    outside_set: Set<ShapeRef>,
    intersection_boundary: Set<ShapeRef>,
    flush_child: Option<ShapeRef>,
    inside_metadata: Option<ShapeMetadata>,
    outside_metadata: Option<ShapeMetadata>,
    steps: FinishSteps<G>,
    split: ShapeSplit,
)
    requires
        after.finish_steps(
            before,
            later,
            earlier,
            shape,
            intersection_manifold,
            inside_set,
            outside_set,
            intersection_boundary,
            flush_child,
            inside_metadata,
            outside_metadata,
            steps,
            Ok::<ShapeSplit, CutError>(split),
        ),
    ensures
        !split.closed() ==> {
            &&& flush_child is None
            &&& steps.sought.simplified matches Ok(simplified)
            &&& simplified@ == Set::<ShapeRef>::empty()
            &&& steps.sought.present == Ok::<bool, CutError>(false)
        },
        flush_child is Some ==> split.closed(),
{
}

/// The split of a shape without boundary, where there is room: a shape of
/// three or more dimensions that has no boundary, in an arena that is packed
/// and has three identifiers left, is split into an inside part, an outside
/// part and an intersection shape between them, if the geometry tells that
/// the intersection manifold has one dimension less than the shape.
///
/// The three shapes are new and go to the next three slots: the intersection
/// shape first, then the inside part, then the outside part. The
/// intersection shape is the whole of the intersection manifold and has the
/// tags of the cut. The inside part is bounded by the intersection shape,
/// the outside part by its negation, and both have the manifold of the
/// shape.
pub proof fn lemma_shape_without_boundary_is_split<G: ManifoldSpace>(
    after: &ShapeArena,
    before: &ShapeArena,
    later: &Recorded<G>,
    earlier: &Recorded<G>,
    shape: ShapeId,
    intersection_manifold: ManifoldId,
    inside_metadata: Option<ShapeMetadata>,
    outside_metadata: Option<ShapeMetadata>,
    ndim: u8,
    r: Result<ShapeSplit, CutError>,
)
    requires
        before.wf(),
        before.contains(shape),
        before.boundary_of(shape) == Set::<ShapeRef>::empty(),
        before.packed(),
        before.next_slot() + 2 <= u32::MAX,
        ndim != 1,
        ndim + 1 == before.rank_of(shape),
        after.finished_in_steps(
            before,
            later,
            earlier,
            shape,
            intersection_manifold,
            Set::<ShapeRef>::empty(),
            Set::<ShapeRef>::empty(),
            Set::<ShapeRef>::empty(),
            None,
            inside_metadata,
            outside_metadata,
            r,
        ),
        later.exchange_since(earlier, 0) == (Exchange::Ndim {
            manifold: intersection_manifold,
            answer: Ok(ndim),
        }),
    ensures
        r matches Ok(
            ShapeSplit::NonFlush { inside: Some(i), outside: Some(o), intersection_shape: Some(x) },
        ) && {
            &&& x.sign == Sign::Pos
            &&& i.sign == Sign::Pos
            &&& o.sign == Sign::Pos
            &&& slot_of(x.id) == before.next_slot()
            &&& slot_of(i.id) == before.next_slot() + 1
            &&& slot_of(o.id) == before.next_slot() + 2
            &&& after.manifold_of(x.id) == intersection_manifold
            &&& after.rank_of(x.id) == ndim
            &&& after.boundary_of(x.id) == Set::<ShapeRef>::empty()
            &&& after.metadata_of(x) == inside_metadata
            &&& after.metadata_of(x.spec_neg()) == outside_metadata
            &&& after.boundary_of(i.id) == set![x]
            &&& after.boundary_of(o.id) == set![x.spec_neg()]
            &&& after.manifold_of(i.id) == before.manifold_of(shape)
            &&& after.manifold_of(o.id) == before.manifold_of(shape)
        },
{
    let none = Set::<ShapeRef>::empty();
    let steps = choose|steps: FinishSteps<G>| #[trigger]
        after.finish_steps(
            before,
            later,
            earlier,
            shape,
            intersection_manifold,
            none,
            none,
            none,
            None,
            inside_metadata,
            outside_metadata,
            steps,
            r,
        );
    let with_x = steps.with_intersection;
    assert(later.exchange_since(earlier, 0) == steps.sought.asked_ndim.exchange_since(earlier, 0))
        by {
        lemma_grown_twice(&steps.sought.asked_ndim, &steps.asked_intersection, later);
    }
    lemma_intersection_is_made(
        &with_x,
        before,
        &steps.asked_intersection,
        earlier,
        shape,
        intersection_manifold,
        inside_metadata,
        outside_metadata,
        steps.sought,
        steps.found,
        ndim,
    );
    let x = steps.found->Ok_0->Some_0;
    assert(steps.inside_boundary@ =~= set![x]);
    assert(steps.inside_boundary@.contains(x));
    assert(with_x.contains(shape));
    lemma_part_is_made(
        &steps.with_inside,
        &with_x,
        &steps.added_inside,
        &steps.asked_intersection,
        shape,
        steps.inside_boundary,
        steps.inside,
    );
    let i = steps.inside->Ok_0->Some_0;
    let with_i = steps.with_inside;
    assert(steps.outside_boundary@ =~= set![x.spec_neg()]);
    assert(steps.outside_boundary@.contains(x.spec_neg()));
    assert(with_i.contains(shape));
    assert(with_i.node(shape) == with_x.node(shape));
    assert(with_i.node(x.id) == with_x.node(x.id));
    lemma_part_is_made(
        after,
        &with_i,
        later,
        &steps.added_inside,
        shape,
        steps.outside_boundary,
        steps.outside,
    );
    let o = steps.outside->Ok_0->Some_0;
    assert(after.node(x.id) == with_i.node(x.id));
    assert(after.node(i.id) == with_i.node(i.id));
}

/// The intersection shape of a shape without boundary is made, where an
/// identifier is left and the intersection manifold is no line.
proof fn lemma_intersection_is_made<G: ManifoldSpace>(
    with_x: &ShapeArena,
    before: &ShapeArena,
    later: &Recorded<G>,
    earlier: &Recorded<G>,
    shape: ShapeId,
    intersection_manifold: ManifoldId,
    inside_metadata: Option<ShapeMetadata>,
    outside_metadata: Option<ShapeMetadata>,
    sought: IntersectionSteps<G>,
    found: Result<Option<ShapeRef>, CutError>,
    ndim: u8,
)
    requires
        before.contains(shape),
        before.boundary_of(shape) == Set::<ShapeRef>::empty(),
        before.packed(),
        before.next_slot() <= u32::MAX,
        ndim != 1,
        with_x.intersection_found(
            before,
            later,
            earlier,
            shape,
            intersection_manifold,
            Set::<ShapeRef>::empty(),
            None,
            inside_metadata,
            outside_metadata,
            sought,
            found,
        ),
        sought.asked_ndim.exchange_since(earlier, 0) == (Exchange::Ndim {
            manifold: intersection_manifold,
            answer: Ok(ndim),
        }),
    ensures
        found matches Ok(Some(x)) && {
            &&& x.sign == Sign::Pos
            &&& slot_of(x.id) == before.next_slot()
            &&& !before.contains(x.id)
            &&& with_x.contains(x.id)
            &&& forall|id: ShapeId| #[trigger]
                before.contains(id) ==> with_x.contains(id) && with_x.node(id) == before.node(id)
            &&& with_x.rank_of(x.id) == ndim
            &&& with_x.manifold_of(x.id) == intersection_manifold
            &&& with_x.boundary_of(x.id) == Set::<ShapeRef>::empty()
            &&& with_x.metadata_of(x) == inside_metadata
            &&& with_x.metadata_of(x.spec_neg()) == outside_metadata
            &&& with_x.packed()
            &&& with_x.next_slot() == before.next_slot() + 1
        },
{
    let none = Set::<ShapeRef>::empty();
    assert(ShapeSet::spec_cancel_opposites(none) =~= none);
    let simplified = sought.simplified->Ok_0;
    assert(simplified@ == none);
    let order = choose|order: Seq<ShapeRef>| #[trigger]
        before.contained_in_order(
            &sought.asked_present,
            &sought.asked_simplified,
            shape,
            intersection_manifold,
            0,
            sought.asked_present.asked_since(&sought.asked_simplified),
            order,
            sought.present,
        ) && sought.asked_present.grown_from(&sought.asked_simplified);
    if order.len() > 0 {
        assert(order.contains(order[0]));
    }
    assert(sought.present == Ok::<bool, CutError>(true));
    let made = Shape {
        manifold: intersection_manifold,
        boundary: simplified,
        positive_metadata: None,
        negative_metadata: None,
    };
    let untagged = choose|untagged: ShapeArena|
        {
            &&& #[trigger] untagged.added_with_rank(
                before,
                later,
                &sought.asked_present,
                made,
                ndim,
                sought.added,
            )
            &&& match sought.added {
                Err(_) => *with_x == untagged,
                Ok(x) => {
                    &&& with_x.nodes().dom() == untagged.nodes().dom()
                    &&& forall|id: ShapeId|
                        id != x.id && #[trigger] untagged.contains(id) ==> with_x.node(id)
                            == untagged.node(id)
                    &&& with_x.spec_roots() == untagged.spec_roots()
                    &&& with_x.next_slot() == untagged.next_slot()
                    &&& with_x.packed() == untagged.packed()
                    &&& with_x.node(x.id).rank == ndim
                    &&& with_x.manifold_of(x.id) == intersection_manifold
                    &&& with_x.node(x.id).shape.boundary == simplified
                    &&& with_x.metadata_of(x) == inside_metadata
                    &&& with_x.metadata_of(x.spec_neg()) == outside_metadata
                },
            }
        };
    assert(before.ranks_fit(none, ndim as int));
    if before.spec_checks() && ndim == 2 {
        lemma_no_edges_settle(
            before,
            later.record(),
            sought.asked_present.record().len() as int,
            sought.added,
        );
    }
    let x = sought.added->Ok_0;
    assert forall|id: ShapeId| #[trigger] before.contains(id) implies with_x.contains(id)
        && with_x.node(id) == before.node(id) by {
        assert(slot_of(id) != slot_of(x.id));
        assert(untagged.contains(id));
    }
    assert(with_x.contains(x.id)) by {
        assert(untagged.nodes().contains_key(slot_of(x.id)));
    }
}

/// A part of a shape is made of what bounds it, where that is not the
/// boundary of the shape, has the right number of dimensions and needs no
/// check, and an identifier is left.
proof fn lemma_part_is_made<G: ManifoldSpace>(
    with_part: &ShapeArena,
    base: &ShapeArena,
    later: &Recorded<G>,
    earlier: &Recorded<G>,
    shape: ShapeId,
    members: ShapeSet,
    part: Result<Option<ShapeRef>, CutError>,
)
    requires
        base.contains(shape),
        members@ != Set::<ShapeRef>::empty(),
        members@ != base.boundary_of(shape),
        base.ranks_fit(members@, base.rank_of(shape) as int),
        base.rank_of(shape) != 2,
        base.packed(),
        base.next_slot() <= u32::MAX,
        with_part.part_made(base, later, earlier, shape, spec_some_members(members), part),
    ensures
        part matches Ok(Some(p)) && {
            &&& p.sign == Sign::Pos
            &&& slot_of(p.id) == base.next_slot()
            &&& !base.contains(p.id)
            &&& with_part.contains(p.id)
            &&& forall|id: ShapeId| #[trigger]
                base.contains(id) ==> with_part.contains(id) && with_part.node(id) == base.node(
                    id,
                )
            &&& with_part.boundary_of(p.id) == members@
            &&& with_part.manifold_of(p.id) == base.manifold_of(shape)
            &&& with_part.packed()
            &&& with_part.next_slot() == base.next_slot() + 1
        },
{
    let p = part->Ok_0->Some_0;
    assert(with_part.nodes().contains_key(slot_of(p.id)));
    assert forall|id: ShapeId| #[trigger] base.contains(id) implies with_part.contains(id)
        && with_part.node(id) == base.node(id) by {
        assert(slot_of(id) != slot_of(p.id));
    }
}

/// The cut of a shape without boundary, where there is room: what
/// [`lemma_shape_without_boundary_is_split`] says holds of the split that
/// [`ShapeArena::cut_shape_uncached`] returns for such a shape, where the
/// geometry tells first that the divider crosses the manifold of the shape
/// at `intersection_manifold`, and then that `intersection_manifold` has
/// `ndim` dimensions, one less than the shape.
pub proof fn lemma_cut_of_shape_without_boundary<G: ManifoldSpace>(
    before: Cutting<G>,
    after: Cutting<G>,
    shape: ShapeId,
    intersection_manifold: ManifoldId,
    ndim: u8,
    r: Result<ShapeSplit, CutError>,
)
    requires
        before.arena.wf(),
        before.arena.contains(shape),
        before.arena.boundary_of(shape) == Set::<ShapeRef>::empty(),
        before.arena.packed(),
        before.arena.next_slot() + 2 <= u32::MAX,
        ndim >= 2,
        ndim + 1 == before.arena.rank_of(shape),
        ShapeArena::uncached_cut(before, after, shape, r),
        after.geometry.exchange_since(&before.geometry, 0)->Split_answer == Ok::<
            ManifoldSplit,
            GeometryError,
        >(ManifoldSplit::Split { intersection_manifold }),
        after.geometry.exchange_since(&before.geometry, 1) == (Exchange::Ndim {
            manifold: intersection_manifold,
            answer: Ok(ndim),
        }),
    ensures
        r matches Ok(
            ShapeSplit::NonFlush { inside: Some(i), outside: Some(o), intersection_shape: Some(x) },
        ) && {
            &&& x.sign == Sign::Pos
            &&& i.sign == Sign::Pos
            &&& o.sign == Sign::Pos
            &&& slot_of(x.id) == before.arena.next_slot()
            &&& slot_of(i.id) == before.arena.next_slot() + 1
            &&& slot_of(o.id) == before.arena.next_slot() + 2
            &&& after.arena.manifold_of(x.id) == intersection_manifold
            &&& after.arena.rank_of(x.id) == ndim
            &&& after.arena.boundary_of(x.id) == Set::<ShapeRef>::empty()
            &&& after.arena.metadata_of(x) == before.op.spec_inside_metadata()
            &&& after.arena.metadata_of(x.spec_neg()) == before.op.spec_outside_metadata()
            &&& after.arena.boundary_of(i.id) == set![x]
            &&& after.arena.boundary_of(o.id) == set![x.spec_neg()]
            &&& after.arena.manifold_of(i.id) == before.arena.manifold_of(shape)
            &&& after.arena.manifold_of(o.id) == before.arena.manifold_of(shape)
        },
{
    reveal_with_fuel(ShapeArena::uncached_cut, 3);
    reveal_with_fuel(ShapeArena::classified_cut, 3);
    reveal_with_fuel(ShapeArena::general_split_in_steps, 3);
    let none = Set::<ShapeRef>::empty();
    let asked = choose|asked: Recorded<G>| #[trigger]
        asked.asked_once(
            &before.geometry,
            after.geometry.exchange_since(&before.geometry, 0),
        ) && ShapeArena::classified_cut(
            Cutting { arena: before.arena, geometry: asked, op: before.op },
            after,
            shape,
            ManifoldSplit::Split { intersection_manifold },
            r,
        );
    let start = Cutting { arena: before.arena, geometry: asked, op: before.op };
    assert(ShapeArena::general_split_in_steps(start, after, shape, intersection_manifold, r));
    let (order, steps) = choose|order: Seq<ShapeRef>, steps: Seq<ChildCut<G>>|
        {
            let last = steps[steps.len() - 1];
            let children = start.arena.boundary_of(shape);
            &&& #[trigger] ShapeArena::children_begun(start, shape, order, steps)
            &&& forall|k: int|
                0 <= k < steps.len() - 1 ==> (#[trigger] steps[k]).stop is None
                    && steps[k].arena.rank_of(shape) == start.arena.rank_of(shape)
                    && ShapeArena::child_cut(
                    steps[k],
                    steps[k + 1],
                    shape,
                    order[k],
                    intersection_manifold,
                )
            &&& after.op.same_as(&last.op)
            &&& match last.stop {
                Some(stopped) => {
                    &&& r == stopped
                    &&& after.arena == last.arena
                    &&& after.geometry == last.geometry
                },
                None => {
                    &&& steps.len() == order.len() + 1
                    &&& after.arena.split_finished(
                        &last.arena,
                        &after.geometry,
                        &last.geometry,
                        shape,
                        intersection_manifold,
                        last.op.parts(Side::Inside, children),
                        last.op.parts(Side::Outside, children),
                        last.op.parts(Side::Intersection, children),
                        last.flush,
                        last.op.spec_inside_metadata(),
                        last.op.spec_outside_metadata(),
                        r,
                    )
                },
            }
        };
    if order.len() > 0 {
        assert(order.contains(order[0]));
    }
    assert(steps.len() == 1);
    let first = steps[0];
    assert(first.op.parts(Side::Inside, none) =~= none);
    assert(first.op.parts(Side::Outside, none) =~= none);
    assert(first.op.parts(Side::Intersection, none) =~= none);
    assert(after.geometry.exchange_since(&asked, 0) == after.geometry.exchange_since(
        &before.geometry,
        1,
    ));
    lemma_shape_without_boundary_is_split(
        &after.arena,
        &before.arena,
        &after.geometry,
        &asked,
        shape,
        intersection_manifold,
        before.op.spec_inside_metadata(),
        before.op.spec_outside_metadata(),
        ndim,
        r,
    );
}

/// What the first answer of the geometry makes of the cut of a shape that
/// has no result yet.
///
/// A failure to tell how the manifold of the shape lies is returned. A
/// manifold that is flush with the divider, inside it or outside it gives
/// that result, which is no split into parts, and the arena is left as it
/// was. A manifold that the divider crosses gives a split into parts, if the
/// cut succeeds. So the cut of an arena returns `RootNotSplit` for the first
/// root whose manifold the divider does not cross, and for no other reason.
pub proof fn lemma_cut_by_first_answer<G: ManifoldSpace>(
    before: Cutting<G>,
    after: Cutting<G>,
    shape: ShapeRef,
    r: Result<ShapeSplit, CutError>,
)
    requires
        !before.op.has_result(shape.id),
        ShapeArena::shape_cut(before, after, shape, r),
    ensures
        after.geometry.asked_since(&before.geometry) >= 1,
        after.geometry.exchange_since(&before.geometry, 0) matches Exchange::Split {
            manifold,
            by,
            ambient,
            answer,
        } && {
            &&& manifold == before.arena.manifold_of(shape.id)
            &&& by == before.op.spec_divider()
            &&& ambient == before.arena.spec_space()
            &&& match answer {
                Err(e) => r == Err::<ShapeSplit, CutError>(CutError::Geometry(e)),
                Ok(ManifoldSplit::Split { .. }) => r matches Ok(split) ==> split is NonFlush,
                Ok(classification) => {
                    &&& ShapeSplit::spec_from_unsplit(classification) matches Some(settled)
                    &&& r == Ok::<ShapeSplit, CutError>(settled)
                    &&& !(settled is NonFlush)
                    &&& after.arena == before.arena
                    &&& after.geometry.asked_since(&before.geometry) == 1
                },
            }
        },
{
    reveal_with_fuel(ShapeArena::shape_cut, 4);
    reveal_with_fuel(ShapeArena::uncached_cut, 4);
    reveal_with_fuel(ShapeArena::classified_cut, 4);
    reveal_with_fuel(ShapeArena::general_split_in_steps, 4);
    let (found, raw) = choose|found: SliceOperation, raw: Result<ShapeSplit, CutError>| #[trigger]
        after.op.recorded(&found, shape, raw, r) && ShapeArena::uncached_cut(
            before,
            Cutting { arena: after.arena, geometry: after.geometry, op: found },
            shape.id,
            raw,
        );
    let middle = Cutting { arena: after.arena, geometry: after.geometry, op: found };
    let first = after.geometry.exchange_since(&before.geometry, 0);
    if let Ok(classification) = first->Split_answer {
        let asked = choose|asked: Recorded<G>| #[trigger]
            asked.asked_once(&before.geometry, first) && ShapeArena::classified_cut(
                Cutting { arena: before.arena, geometry: asked, op: before.op },
                middle,
                shape.id,
                classification,
                raw,
            );
        let start = Cutting { arena: before.arena, geometry: asked, op: before.op };
        match classification {
            ManifoldSplit::Split { intersection_manifold } => {
                if let Ok(split) = raw {
                    if before.arena.rank_of(shape.id) == 1 {
                        lemma_edge_split_is_closed(
                            &middle.arena,
                            &start.arena,
                            &middle.geometry,
                            &start.geometry,
                            shape.id,
                            intersection_manifold,
                            start.op.spec_inside_metadata(),
                            start.op.spec_outside_metadata(),
                            split,
                        );
                    } else {
                        lemma_general_split_is_split(
                            start,
                            middle,
                            shape.id,
                            intersection_manifold,
                            split,
                        );
                    }
                }
            },
            _ => {
                assert(asked.record().len() == before.geometry.record().len() + 1);
            },
        }
    }
}

/// A split through the boundary elements that succeeds is a split into
/// parts.
proof fn lemma_general_split_is_split<G: ManifoldSpace>(
    before: Cutting<G>,
    after: Cutting<G>,
    shape: ShapeId,
    intersection_manifold: ManifoldId,
    split: ShapeSplit,
)
    requires
        ShapeArena::general_split_in_steps(
            before,
            after,
            shape,
            intersection_manifold,
            Ok::<ShapeSplit, CutError>(split),
        ),
    ensures
        split is NonFlush,
{
    reveal_with_fuel(ShapeArena::general_split_in_steps, 3);
    reveal_with_fuel(ShapeArena::child_cut, 3);
    let r = Ok::<ShapeSplit, CutError>(split);
    let (order, steps) = choose|order: Seq<ShapeRef>, steps: Seq<ChildCut<G>>|
        {
            let last = steps[steps.len() - 1];
            let children = before.arena.boundary_of(shape);
            &&& #[trigger] ShapeArena::children_begun(before, shape, order, steps)
            &&& forall|k: int|
                0 <= k < steps.len() - 1 ==> (#[trigger] steps[k]).stop is None
                    && steps[k].arena.rank_of(shape) == before.arena.rank_of(shape)
                    && ShapeArena::child_cut(
                    steps[k],
                    steps[k + 1],
                    shape,
                    order[k],
                    intersection_manifold,
                )
            &&& after.op.same_as(&last.op)
            &&& match last.stop {
                Some(stopped) => {
                    &&& r == stopped
                    &&& after.arena == last.arena
                    &&& after.geometry == last.geometry
                },
                None => {
                    &&& steps.len() == order.len() + 1
                    &&& after.arena.split_finished(
                        &last.arena,
                        &after.geometry,
                        &last.geometry,
                        shape,
                        intersection_manifold,
                        last.op.parts(Side::Inside, children),
                        last.op.parts(Side::Outside, children),
                        last.op.parts(Side::Intersection, children),
                        last.flush,
                        last.op.spec_inside_metadata(),
                        last.op.spec_outside_metadata(),
                        r,
                    )
                },
            }
        };
    let last = steps[steps.len() - 1];
    if last.stop is Some {
        let k = steps.len() - 2;
        assert(steps[k].stop is None);
        assert(ShapeArena::child_cut(steps[k], steps[k + 1], shape, order[k], intersection_manifold));
    }
}

/// A boundary element that is flush with the divider is not split again:
/// where a split is finished with such an element, the element itself is
/// the intersection shape, as it is or turned round, and no shape is made
/// for the intersection. So a cut that is repeated on a piece takes the
/// cross-section that the first cut made, and makes no further one.
pub proof fn lemma_flush_element_is_the_intersection<G: ManifoldSpace>(
    after: &ShapeArena,
    before: &ShapeArena,
    later: &Recorded<G>,
    earlier: &Recorded<G>,
    shape: ShapeId,
    intersection_manifold: ManifoldId,
    inside_set: Set<ShapeRef>,
    outside_set: Set<ShapeRef>,
    intersection_boundary: Set<ShapeRef>,
    flush: ShapeRef,
    inside_metadata: Option<ShapeMetadata>,
    outside_metadata: Option<ShapeMetadata>,
    steps: FinishSteps<G>,
    split: ShapeSplit,
)
    requires
        after.finish_steps(
            before,
            later,
            earlier,
            shape,
            intersection_manifold,
            inside_set,
            outside_set,
            intersection_boundary,
            Some(flush),
            inside_metadata,
            outside_metadata,
            steps,
            Ok::<ShapeSplit, CutError>(split),
        ),
    ensures
        split matches ShapeSplit::NonFlush { inside: _, outside: _, intersection_shape: Some(x) }
            && x.id == flush.id,
        steps.with_intersection == *before,
        steps.asked_intersection.asked_since(earlier) == 1,
        split.closed(),
{
}

/// A cut that the manifold of a shape settles changes nothing, and the same
/// cut made again gives the same result.
///
/// Where the geometry finds the manifold of a shape flush with the divider,
/// the result is `Flush`; where it finds the manifold outside the divider,
/// the result is `ManifoldOutside`, and likewise for a manifold inside it.
/// One question is asked, and no shape is made, changed or removed. The
/// shape is then its own piece: where the same cut of it gets the same answer
/// again, it gives the same result again, so a flush shape is never split
/// further by the manifold that it is flush with.
///
/// `before`, `after` and `again` are the arena before the first cut, after
/// it, and after the second one.
pub proof fn lemma_settled_cut_changes_nothing(
    before: &ShapeArena,
    after: &ShapeArena,
    again: &ShapeArena,
    classification: ManifoldSplit,
    asked: int,
    asked_again: int,
    first: Result<ShapeSplit, CutError>,
    second: Result<ShapeSplit, CutError>,
)
    requires
        !(classification is Split),
        after.settled_by_answer(
            before,
            Ok::<ManifoldSplit, GeometryError>(classification),
            asked,
            first,
        ),
        again.settled_by_answer(
            after,
            Ok::<ManifoldSplit, GeometryError>(classification),
            asked_again,
            second,
        ),
    ensures
        classification == ManifoldSplit::Flush ==> first == Ok::<ShapeSplit, CutError>(
            ShapeSplit::Flush,
        ),
        classification == ManifoldSplit::Inside ==> first == Ok::<ShapeSplit, CutError>(
            ShapeSplit::ManifoldInside,
        ),
        classification == ManifoldSplit::Outside ==> first == Ok::<ShapeSplit, CutError>(
            ShapeSplit::ManifoldOutside,
        ),
        second == first,
        asked == 1,
        asked_again == 1,
        after.nodes() == before.nodes(),
        again.nodes() == before.nodes(),
{
}

/// Whether the point at position `x` of a closed line lies in the interval
/// that runs from position `from` to position `to`, endpoints included.
///
/// The line is closed at infinity, so an interval may run through infinity:
/// it then holds the positions from `from` upwards and those up to `to`.
pub open spec fn interval_holds(from: int, to: int, x: int) -> bool {
    if from <= to {
        from <= x <= to
    } else {
        x >= from || x <= to
    }
}

/// Interval merging is correct on a closed line: where the endpoint tests
/// are those of the intervals from `a` to `b` and from `p` to `q`, the plan
/// that [`spec_merge_plan`] makes describes the union of the two. The point
/// `point` is at the position `at(point)` of the line; two intervals may
/// share an endpoint.
///
/// "Whole space" is chosen only if every position is in one of the two,
/// "first" only if the first holds the second, "second" only if the second
/// holds the first, "no intersection" only if no position is in both, and
/// the interval of a span holds exactly the positions that are in one of the
/// two. Each interval has two different endpoints, and the two intervals are
/// not the same: those are merged without a plan.
pub proof fn lemma_merge_plan_is_union(
    a: PointId,
    b: PointId,
    p: PointId,
    q: PointId,
    at: spec_fn(PointId) -> int,
    x: int,
)
    requires
        at(a) != at(b),
        at(p) != at(q),
        !(at(a) == at(p) && at(b) == at(q)),
    ensures
        match spec_merge_plan(
            a,
            b,
            p,
            q,
            interval_holds(at(a), at(b), at(p)),
            interval_holds(at(a), at(b), at(q)),
            interval_holds(at(p), at(q), at(a)),
            interval_holds(at(p), at(q), at(b)),
        ) {
            MergePlan::WholeSpace => interval_holds(at(a), at(b), x) || interval_holds(
                at(p),
                at(q),
                x,
            ),
            MergePlan::First => interval_holds(at(p), at(q), x) ==> interval_holds(
                at(a),
                at(b),
                x,
            ),
            MergePlan::Second => interval_holds(at(a), at(b), x) ==> interval_holds(
                at(p),
                at(q),
                x,
            ),
            MergePlan::NoIntersection => !(interval_holds(at(a), at(b), x) && interval_holds(
                at(p),
                at(q),
                x,
            )),
            MergePlan::Span { start, end } => interval_holds(at(start), at(end), x) == (
            interval_holds(at(a), at(b), x) || interval_holds(at(p), at(q), x)),
        },
{
}

} // verus!
