//! The states that a cut goes through, and how each leads to the next.
//!
//! What a cut asks, makes and returns is stated here as a relation between
//! the state before and the state after: the arena, the record of the
//! geometry and the results of the operation. A shape is cut through its
//! boundary elements, so the relations refer to each other, down the
//! dimensions.

use vstd::prelude::*;
use crate::arena::ShapeArena;
use crate::cut::{spec_roots_after, Side};
use crate::manifold::{ManifoldId, ManifoldSpace, ManifoldSplit};
use crate::record::{Exchange, Recorded};
use crate::sign::{ShapeId, ShapeRef};
use crate::slice::SliceOperation;
use crate::split::{CutError, CutParams, ShapeSplit};

verus! {

/// The state of a cut: the arena, the geometry with its record, and the
/// operation with the results found so far.
pub ghost struct Cutting<G> {
    /// The arena.
    pub arena: ShapeArena,
    /// The geometry.
    pub geometry: Recorded<G>,
    /// The operation.
    pub op: SliceOperation,
}

/// Where the split of a shape stands after one of its boundary elements was
/// cut.
pub ghost struct ChildCut<G> {
    /// The arena afterwards.
    pub arena: ShapeArena,
    /// The geometry afterwards.
    pub geometry: Recorded<G>,
    /// The operation afterwards.
    pub op: SliceOperation,
    /// The geometry after the element was cut, before anything else was
    /// asked about it.
    pub middle: Recorded<G>,
    /// What the cut of the element gave.
    pub result: Result<ShapeSplit, CutError>,
    /// The element that is flush with the divider, if one has come.
    pub flush: Option<ShapeRef>,
    /// What ends the split here, if anything does.
    pub stop: Option<Result<ShapeSplit, CutError>>,
}

/// Where the cut of an arena stands after one of its roots was cut.
pub ghost struct RootCut<G> {
    /// The arena afterwards.
    pub arena: ShapeArena,
    /// The geometry afterwards.
    pub geometry: Recorded<G>,
    /// The operation afterwards.
    pub op: SliceOperation,
    /// What the cut of the root gave.
    pub result: Result<ShapeSplit, CutError>,
}

impl ShapeArena {
    /// The roots of the arena `before` were cut one after the other, in
    /// their order, as far as `steps` tells.
    ///
    /// The cut begins in the arena without its roots, with the geometry
    /// `earlier` and an operation for `params` that holds no result; it
    /// begins as if a root had been split before. Each root is cut as
    /// [`ShapeArena::shape_cut`] says, through a positive reference, and
    /// every root but the last that was cut was split.
    pub open spec fn roots_cut<G: ManifoldSpace>(
        before: &ShapeArena,
        earlier: &Recorded<G>,
        params: CutParams,
        steps: Seq<RootCut<G>>,
    ) -> bool {
        let roots = before.spec_roots();
        &&& 1 <= steps.len() <= roots.len() + 1
        &&& steps[0].arena.same_but_roots(before)
        &&& steps[0].arena.spec_roots().len() == 0
        &&& steps[0].geometry == *earlier
        &&& steps[0].op.spec_divider() == params.cut
        &&& steps[0].op.spec_inside_metadata() == params.inside.spec_metadata()
        &&& steps[0].op.spec_outside_metadata() == params.outside.spec_metadata()
        &&& forall|id: ShapeId| !steps[0].op.has_result(id)
        &&& steps[0].result == Ok::<ShapeSplit, CutError>(
            ShapeSplit::NonFlush { inside: None, outside: None, intersection_shape: None },
        )
        &&& forall|k: int|
            0 <= k < steps.len() - 1 ==> ((#[trigger] steps[k]).result matches Ok(split)
                && split is NonFlush && Self::shape_cut(
                Cutting { arena: steps[k].arena, geometry: steps[k].geometry, op: steps[k].op },
                Cutting {
                    arena: steps[k + 1].arena,
                    geometry: steps[k + 1].geometry,
                    op: steps[k + 1].op,
                },
                ShapeRef::spec_from_id(roots[k]),
                steps[k + 1].result,
            ))
    }

    /// What [`ShapeArena::cut`] asks, makes and returns; `before` is the
    /// arena as it was, `after` and `earlier` the geometry afterwards and
    /// before.
    ///
    /// The roots are cut in order, as [`ShapeArena::roots_cut`] says, up to
    /// the first whose cut fails or does not split it: the failure is
    /// returned, or `RootNotSplit`, and the roots are left as they were. If
    /// every root was split, the new roots are what the splits leave, as
    /// [`spec_roots_after`] says. The shapes of the arena are those that the
    /// cuts of the roots made.
    pub open spec fn cut_in_steps<G: ManifoldSpace>(
        &self,
        before: &ShapeArena,
        after: &Recorded<G>,
        earlier: &Recorded<G>,
        params: CutParams,
        r: Result<(), CutError>,
    ) -> bool {
        exists|steps: Seq<RootCut<G>>|
            {
                let last = steps[steps.len() - 1];
                &&& #[trigger] Self::roots_cut(before, earlier, params, steps)
                &&& last.geometry == *after
                &&& self.same_but_roots(&last.arena)
                &&& match last.result {
                    Err(e) => r == Err::<(), CutError>(e) && self.spec_roots()
                        == before.spec_roots(),
                    Ok(split) => if split is NonFlush {
                        &&& steps.len() == before.spec_roots().len() + 1
                        &&& r == Ok::<(), CutError>(())
                        &&& self.spec_roots() == spec_roots_after(
                            Seq::new(
                                before.spec_roots().len(),
                                |i: int| steps[i + 1].result->Ok_0,
                            ),
                            params,
                        )
                    } else {
                        r == Err::<(), CutError>(CutError::RootNotSplit) && self.spec_roots()
                            == before.spec_roots()
                    },
                }
            }
    }

    /// What [`ShapeArena::cut_shape`] asks, makes and returns for the
    /// reference `shape`, from the state `before` to the state `after`.
    ///
    /// A result that the operation holds is returned as the reference sees
    /// it, and nothing is asked or changed. Otherwise the shape is cut as
    /// [`ShapeArena::uncached_cut`] says, and what that gives is recorded, as
    /// [`SliceOperation::recorded`] says.
    pub open spec fn shape_cut<G: ManifoldSpace>(
        before: Cutting<G>,
        after: Cutting<G>,
        shape: ShapeRef,
        r: Result<ShapeSplit, CutError>,
    ) -> bool
        decreases before.arena.rank_of(shape.id), 5int,
    {
        if before.op.has_result(shape.id) {
            &&& r == Ok::<ShapeSplit, CutError>(
                before.op.result_of(shape.id).spec_times(shape.sign),
            )
            &&& after.arena == before.arena
            &&& after.geometry == before.geometry
            &&& after.op.same_as(&before.op)
        } else {
            exists|found: SliceOperation, raw: Result<ShapeSplit, CutError>| #[trigger]
                after.op.recorded(&found, shape, raw, r) && Self::uncached_cut(
                    before,
                    Cutting { arena: after.arena, geometry: after.geometry, op: found },
                    shape.id,
                    raw,
                )
        }
    }

    /// What [`ShapeArena::cut_shape_uncached`] asks, makes and returns for
    /// the shape `shape`, from the state `before` to the state `after`.
    ///
    /// The first question is how the manifold of the shape lies with respect
    /// to the divider, within the space of the arena. A failure to answer is
    /// returned, and nothing more is asked or changed. With the answer the
    /// shape is cut as [`ShapeArena::classified_cut`] says.
    pub open spec fn uncached_cut<G: ManifoldSpace>(
        before: Cutting<G>,
        after: Cutting<G>,
        shape: ShapeId,
        r: Result<ShapeSplit, CutError>,
    ) -> bool
        decreases before.arena.rank_of(shape), 4int,
    {
        &&& after.geometry.grown_from(&before.geometry)
        &&& after.geometry.asked_since(&before.geometry) >= 1
        &&& after.geometry.exchange_since(&before.geometry, 0) matches Exchange::Split {
            manifold,
            by,
            ambient,
            answer,
        }
        &&& manifold == before.arena.manifold_of(shape)
        &&& by == before.op.spec_divider()
        &&& ambient == before.arena.spec_space()
        &&& match answer {
            Err(e) => {
                &&& r == Err::<ShapeSplit, CutError>(CutError::Geometry(e))
                &&& after.geometry.asked_since(&before.geometry) == 1
                &&& after.arena == before.arena
                &&& after.op.same_as(&before.op)
            },
            Ok(classification) => exists|asked: Recorded<G>| #[trigger]
                asked.asked_once(
                    &before.geometry,
                    after.geometry.exchange_since(&before.geometry, 0),
                ) && Self::classified_cut(
                    Cutting { arena: before.arena, geometry: asked, op: before.op },
                    after,
                    shape,
                    classification,
                    r,
                ),
        }
    }

    /// What [`ShapeArena::cut_shape_classified`] asks, makes and returns for
    /// the shape `shape`, whose manifold lies as `classification` tells, from
    /// the state `before` to the state `after`.
    ///
    /// A manifold that is flush with the divider, inside it or outside it
    /// settles the result, and nothing is asked or changed. A shape whose
    /// manifold the divider crosses is split as an edge if it has one
    /// dimension, as [`ShapeArena::edge_split_in_steps`] says, and through
    /// its boundary elements otherwise, as
    /// [`ShapeArena::general_split_in_steps`] says.
    pub open spec fn classified_cut<G: ManifoldSpace>(
        before: Cutting<G>,
        after: Cutting<G>,
        shape: ShapeId,
        classification: ManifoldSplit,
        r: Result<ShapeSplit, CutError>,
    ) -> bool
        decreases before.arena.rank_of(shape), 3int,
    {
        match classification {
            ManifoldSplit::Split { intersection_manifold } => if before.arena.rank_of(shape)
                == 1 {
                &&& after.arena.edge_split_in_steps(
                    &before.arena,
                    &after.geometry,
                    &before.geometry,
                    shape,
                    intersection_manifold,
                    before.op.spec_inside_metadata(),
                    before.op.spec_outside_metadata(),
                    r,
                )
                &&& after.op.same_as(&before.op)
            } else {
                Self::general_split_in_steps(before, after, shape, intersection_manifold, r)
            },
            _ => {
                &&& ShapeSplit::spec_from_unsplit(classification) matches Some(settled)
                &&& r == Ok::<ShapeSplit, CutError>(settled)
                &&& after.arena == before.arena
                &&& after.geometry == before.geometry
                &&& after.op.same_as(&before.op)
            },
        }
    }

    /// `order` lists the boundary elements of the shape `shape`, each of
    /// them once, and `steps` begins with the state `before`, with no flush
    /// element and nothing that ends the split, and goes on through some of
    /// the first elements.
    pub open spec fn children_begun<G: ManifoldSpace>(
        before: Cutting<G>,
        shape: ShapeId,
        order: Seq<ShapeRef>,
        steps: Seq<ChildCut<G>>,
    ) -> bool {
        &&& order.no_duplicates()
        &&& forall|x: ShapeRef| order.contains(x) <==> before.arena.boundary_of(shape).contains(x)
        &&& 1 <= steps.len() <= order.len() + 1
        &&& steps[0].arena == before.arena
        &&& steps[0].geometry == before.geometry
        &&& steps[0].op.same_as(&before.op)
        &&& steps[0].flush is None
        &&& steps[0].stop is None
    }

    /// What [`ShapeArena::split_general`] asks, makes and returns for the
    /// shape `shape`, from the state `before` to the state `after`.
    ///
    /// The boundary elements are cut one after the other, in some order, as
    /// [`ShapeArena::child_cut`] says, up to the first that ends the split:
    /// what it ends with is returned, and nothing is done after it. If none
    /// does, the split is finished as [`ShapeArena::split_finished`] says,
    /// from what the boundary elements give to each side by their results
    /// and from the one of them that is flush, if any.
    pub open spec fn general_split_in_steps<G: ManifoldSpace>(
        before: Cutting<G>,
        after: Cutting<G>,
        shape: ShapeId,
        intersection_manifold: ManifoldId,
        r: Result<ShapeSplit, CutError>,
    ) -> bool
        decreases before.arena.rank_of(shape), 2int,
    {
        exists|order: Seq<ShapeRef>, steps: Seq<ChildCut<G>>|
            {
                let last = steps[steps.len() - 1];
                let children = before.arena.boundary_of(shape);
                &&& #[trigger] Self::children_begun(before, shape, order, steps)
                &&& forall|k: int|
                    0 <= k < steps.len() - 1 ==> (#[trigger] steps[k]).stop is None
                        && steps[k].arena.rank_of(shape) == before.arena.rank_of(shape)
                        && Self::child_cut(
                        steps[k],
                        steps[k + 1],
                        shape,
                        order[k],
                        intersection_manifold,
                    )
                &&& after.op.same_as(&last.op)
                &&& match last.stop {
                    Some(stopped) => {
                        &&& r == stopped
                        &&& after.arena == last.arena
                        &&& after.geometry == last.geometry
                    },
                    None => {
                        &&& steps.len() == order.len() + 1
                        &&& after.arena.split_finished(
                            &last.arena,
                            &after.geometry,
                            &last.geometry,
                            shape,
                            intersection_manifold,
                            last.op.parts(Side::Inside, children),
                            last.op.parts(Side::Outside, children),
                            last.op.parts(Side::Intersection, children),
                            last.flush,
                            last.op.spec_inside_metadata(),
                            last.op.spec_outside_metadata(),
                            r,
                        )
                    },
                }
            }
    }

    /// The boundary element `child` of the shape `shape` was cut, from where
    /// the split stood in `prev` to where it stands in `next`.
    ///
    /// The element is cut as [`ShapeArena::shape_cut`] says. A failure ends
    /// the split. An element that is flush with the divider is kept as the
    /// flush element; a second one ends the split with
    /// `MultipleIntersectionShapes`. For an element whose manifold is wholly
    /// on one side the geometry is asked on which sides of it the parts of
    /// `intersection_manifold` lie, within the manifold of the shape: a
    /// failure ends the split, and so does an answer, taken with the
    /// orientation of the element, that shows no part inside: the cut then
    /// misses the shape, which is returned whole on the side of the element.
    /// Otherwise the split goes on.
    pub open spec fn child_cut<G: ManifoldSpace>(
        prev: ChildCut<G>,
        next: ChildCut<G>,
        shape: ShapeId,
        child: ShapeRef,
        intersection_manifold: ManifoldId,
    ) -> bool
        decreases prev.arena.rank_of(shape), 1int,
    {
        &&& prev.arena.rank_of(child.id) < prev.arena.rank_of(shape)
        &&& Self::shape_cut(
            Cutting { arena: prev.arena, geometry: prev.geometry, op: prev.op },
            Cutting { arena: next.arena, geometry: next.middle, op: next.op },
            child,
            next.result,
        )
        &&& match next.result {
            Err(e) => {
                &&& next.stop == Some(Err::<ShapeSplit, CutError>(e))
                &&& next.geometry == next.middle
                &&& next.flush == prev.flush
            },
            Ok(ShapeSplit::Flush) => {
                &&& next.geometry == next.middle
                &&& match prev.flush {
                    Some(_) => next.flush == prev.flush && next.stop == Some(
                        Err::<ShapeSplit, CutError>(CutError::MultipleIntersectionShapes),
                    ),
                    None => next.flush == Some(child) && next.stop is None,
                }
            },
            Ok(ShapeSplit::NonFlush { .. }) => {
                &&& next.geometry == next.middle
                &&& next.flush == prev.flush
                &&& next.stop is None
            },
            Ok(settled) => {
                &&& next.flush == prev.flush
                &&& next.geometry.asked_since(&next.middle) == 1
                &&& next.geometry.grown_from(&next.middle)
                &&& next.geometry.exchange_since(&next.middle, 0) matches Exchange::WhichSide {
                    manifold,
                    cut,
                    ambient,
                    answer,
                }
                &&& manifold == intersection_manifold
                &&& cut == prev.arena.manifold_of(child.id)
                &&& ambient == prev.arena.manifold_of(shape)
                &&& next.stop == match answer {
                    Err(e) => Some(Err::<ShapeSplit, CutError>(CutError::Geometry(e))),
                    Ok(side) => if side.spec_times(child.sign).is_any_inside {
                        None
                    } else {
                        Some(
                            Ok::<ShapeSplit, CutError>(
                                ShapeSplit::spec_unsplit_whole(
                                    shape,
                                    settled is ManifoldInside,
                                ),
                            ),
                        )
                    },
                }
            },
        }
    }
}

} // verus!
