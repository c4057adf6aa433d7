//! Cutting the shapes of an arena along a manifold.
//!
//! The algorithm is that of `GenCube()` in Andrey Astrelin's Magic Puzzle
//! Ultimate.

use vstd::prelude::*;
use crate::record::{
    lemma_asked_once, lemma_first_exchange_kept, lemma_grown_twice, spec_failure_of, Exchange,
    Recorded,
};
use crate::arena::{lemma_same_nodes, slot_of, ShapeArena};
use crate::construct::lemma_no_edges_settle;
use crate::intervals::lemma_emptied_lifted;
use crate::manifold::{
    GeometryError, ManifoldId, ManifoldSpace, ManifoldSplit, ManifoldWhichSide,
};
use crate::orient::{spec_combine_orientation, SignedManifold};
use crate::shape::{Shape, ShapeSet};
use crate::sign::{ShapeId, ShapeRef, Sign};
use crate::slice::{
    lemma_holds_split_of_extension, lemma_valid_for_extension, SliceOperation,
};
use crate::split::{spec_neg_option, CutError, CutOp, CutParams, ShapeMetadata, ShapeSplit};
use crate::steps::{ChildCut, Cutting, RootCut};

verus! {

/// The roots that the split of a root leaves: its inside part if the inside
/// is kept, then its outside part if the outside is kept.
pub open spec fn spec_kept_roots(split: ShapeSplit, params: CutParams) -> Seq<ShapeId> {
    match split {
        ShapeSplit::NonFlush { inside, outside, intersection_shape } => {
            (match inside {
                Some(s) if params.inside.keeps() => seq![s.id],
                _ => Seq::<ShapeId>::empty(),
            }) + (match outside {
                Some(s) if params.outside.keeps() => seq![s.id],
                _ => Seq::<ShapeId>::empty(),
            })
        },
        _ => Seq::<ShapeId>::empty(),
    }
}

/// The roots that the splits of all the roots leave, in order.
pub open spec fn spec_roots_after(splits: Seq<ShapeSplit>, params: CutParams) -> Seq<ShapeId>
    decreases splits.len(),
{
    if splits.len() == 0 {
        Seq::<ShapeId>::empty()
    } else {
        spec_roots_after(splits.drop_last(), params) + spec_kept_roots(splits.last(), params)
    }
}

/// Adds to `roots` what the split of a root leaves. A root must be split by
/// the cut: any other result is an error, and leaves `roots` as it was.
pub fn collect_roots(roots: &mut Vec<ShapeId>, split: ShapeSplit, params: CutParams) -> (r: Result<
    (),
    CutError,
>)
    ensures
        r is Ok <==> split is NonFlush,
        r matches Err(e) ==> e == CutError::RootNotSplit && final(roots)@ == old(roots)@,
        r is Ok ==> final(roots)@ == old(roots)@ + spec_kept_roots(split, params),
{
    match split {
        ShapeSplit::Flush | ShapeSplit::ManifoldInside | ShapeSplit::ManifoldOutside => Err(
            CutError::RootNotSplit,
        ),
        ShapeSplit::NonFlush { inside, outside, intersection_shape: _ } => {
            if let Some(s) = inside {
                match params.inside {
                    CutOp::Remove => {},
                    CutOp::Keep(_) => {
                        roots.push(s.id);
                    },
                }
            }
            if let Some(s) = outside {
                match params.outside {
                    CutOp::Remove => {},
                    CutOp::Keep(_) => {
                        roots.push(s.id);
                    },
                }
            }
            assert(roots@ =~= old(roots)@ + spec_kept_roots(split, params));
            Ok(())
        },
    }
}

/// The boundary that a part of a split belongs to.
#[derive(Debug, Clone, Copy, PartialEq, Eq, Structural)]
pub enum Side {
    /// The boundary of the inside part.
    Inside,
    /// The boundary of the outside part.
    Outside,
    /// The boundary of the intersection.
    Intersection,
}

/// Whether the boundary element `child` of a shape, whose own split is
/// `result`, gives the reference `r` to the boundary on `side`: itself if
/// its manifold is wholly on that side, its inside or outside part if the
/// divider crosses it, and the negation of its intersection shape to the
/// boundary of the intersection.
pub open spec fn gives(side: Side, child: ShapeRef, result: ShapeSplit, r: ShapeRef) -> bool {
    match result.spec_times(child.sign) {
        ShapeSplit::Flush => false,
        ShapeSplit::ManifoldInside => side == Side::Inside && r == child,
        ShapeSplit::ManifoldOutside => side == Side::Outside && r == child,
        ShapeSplit::NonFlush { inside, outside, intersection_shape } => match side {
            Side::Inside => inside == Some(r),
            Side::Outside => outside == Some(r),
            Side::Intersection => spec_neg_option(intersection_shape) == Some(r),
        },
    }
}

/// What the first `upto` of the boundary elements `children` give to the
/// boundary on `side`, by the results recorded in `op`.
pub open spec fn collected(side: Side, children: Seq<ShapeRef>, op: &SliceOperation, upto: int) -> Set<
    ShapeRef,
> {
    Set::new(
        |r: ShapeRef|
            exists|j: int|
                0 <= j < upto && #[trigger] gives(
                    side,
                    children[j],
                    op.result_of(children[j].id),
                    r,
                ),
    )
}

/// The states that the split of an edge goes through: the intersection point
/// is added, then for each side the boundary of the edge is intersected with
/// the half line on that side and the part is made of what is left.
pub ghost struct EdgeSplitting<G> {
    /// The intersection point, or why there is none.
    pub point: Result<ShapeRef, CutError>,
    /// The arena with the tagged point.
    pub with_point: ShapeArena,
    /// The geometry after the point was added.
    pub asked_point: Recorded<G>,
    /// What bounds the inside part.
    pub inside_boundary: Result<Option<ShapeSet>, CutError>,
    /// The arena after the boundary of the inside part was found.
    pub with_inside_boundary: ShapeArena,
    /// The geometry after the boundary of the inside part was found.
    pub asked_inside: Recorded<G>,
    /// The inside part.
    pub inside: Result<Option<ShapeRef>, CutError>,
    /// The arena with the inside part.
    pub with_inside: ShapeArena,
    /// The geometry after the inside part was made.
    pub added_inside: Recorded<G>,
    /// What bounds the outside part.
    pub outside_boundary: Result<Option<ShapeSet>, CutError>,
    /// The arena after the boundary of the outside part was found.
    pub with_outside_boundary: ShapeArena,
    /// The geometry after the boundary of the outside part was found.
    pub asked_outside: Recorded<G>,
    /// The outside part.
    pub outside: Result<Option<ShapeRef>, CutError>,
}

/// The states that the search for the intersection shape goes through, where
/// no boundary element is flush with the divider.
pub ghost struct IntersectionSteps<G> {
    /// The geometry after it was asked for the number of dimensions of the
    /// intersection manifold.
    pub asked_ndim: Recorded<G>,
    /// The boundary of the intersection, simplified.
    pub simplified: Result<ShapeSet, CutError>,
    /// The arena after the boundary was simplified.
    pub with_simplified: ShapeArena,
    /// The geometry after the boundary was simplified.
    pub asked_simplified: Recorded<G>,
    /// Whether there is an intersection.
    pub present: Result<bool, CutError>,
    /// The geometry after it was found whether there is an intersection.
    pub asked_present: Recorded<G>,
    /// The intersection shape that was added.
    pub added: Result<ShapeRef, CutError>,
}

/// The states that finishing a split goes through: the intersection shape is
/// found, then each part is made of what bounds it.
pub ghost struct FinishSteps<G> {
    /// How the intersection shape was looked for.
    pub sought: IntersectionSteps<G>,
    /// The intersection shape, if there is one.
    pub found: Result<Option<ShapeRef>, CutError>,
    /// The arena with the intersection shape.
    pub with_intersection: ShapeArena,
    /// The geometry after the intersection shape was found.
    pub asked_intersection: Recorded<G>,
    /// What bounds the inside part.
    pub inside_boundary: ShapeSet,
    /// The inside part.
    pub inside: Result<Option<ShapeRef>, CutError>,
    /// The arena with the inside part.
    pub with_inside: ShapeArena,
    /// The geometry after the inside part was made.
    pub added_inside: Recorded<G>,
    /// What bounds the outside part.
    pub outside_boundary: ShapeSet,
    /// The outside part.
    pub outside: Result<Option<ShapeRef>, CutError>,
}

/// What is there to bound a part, where `members` were found for it: nothing
/// if there are none.
pub open spec fn spec_some_members(members: ShapeSet) -> Result<Option<ShapeSet>, CutError> {
    if members@ == Set::<ShapeRef>::empty() {
        Ok(None)
    } else {
        Ok(Some(members))
    }
}

/// The intersection shape that was found, where adding it gave `added`.
pub open spec fn spec_found(added: Result<ShapeRef, CutError>) -> Result<
    Option<ShapeRef>,
    CutError,
> {
    match added {
        Ok(x) => Ok(Some(x)),
        Err(e) => Err(e),
    }
}

/// What bounds the inside part of a shape: what its boundary elements gave,
/// and the intersection shape `x`, unless that is a flush element turned
/// round.
pub open spec fn spec_inside_boundary(
    inside_set: Set<ShapeRef>,
    flush_child: Option<ShapeRef>,
    x: Option<ShapeRef>,
) -> Set<ShapeRef> {
    match x {
        Some(o) => if flush_child is None || flush_child == Some(o) {
            inside_set.insert(o)
        } else {
            inside_set
        },
        None => inside_set,
    }
}

/// What bounds the outside part of a shape: what its boundary elements gave,
/// and the negated intersection shape `x`, unless that is a flush element as
/// it was.
pub open spec fn spec_outside_boundary(
    outside_set: Set<ShapeRef>,
    flush_child: Option<ShapeRef>,
    x: Option<ShapeRef>,
) -> Set<ShapeRef> {
    match x {
        Some(o) => if flush_child is None || flush_child != Some(o) {
            outside_set.insert(o.spec_neg())
        } else {
            outside_set
        },
        None => outside_set,
    }
}

/// What becomes of a part where its boundary was looked for: the failure if
/// that failed, and no part yet otherwise.
pub open spec fn spec_no_part_yet(boundary: Result<Option<ShapeSet>, CutError>) -> Result<
    Option<ShapeRef>,
    CutError,
> {
    match boundary {
        Err(e) => Err(e),
        _ => Ok(None),
    }
}

/// The part that adding a shape gave, where one was added: no part where
/// none was.
pub open spec fn spec_part_of(added: Option<Result<ShapeRef, CutError>>) -> Result<
    Option<ShapeRef>,
    CutError,
> {
    match added {
        Some(Ok(p)) => Ok(Some(p)),
        Some(Err(e)) => Err(e),
        None => Ok(None),
    }
}

impl SliceOperation {
    /// What the boundary elements `children` of a shape give to the boundary
    /// on `side`, by the results recorded for them.
    pub open spec fn parts(&self, side: Side, children: Set<ShapeRef>) -> Set<ShapeRef> {
        Set::new(
            |r: ShapeRef|
                exists|c: ShapeRef|
                    children.contains(c) && #[trigger] gives(side, c, self.result_of(c.id), r),
        )
    }

    /// The boundary elements `a` and `b` of the shape `whole` of `arena` are
    /// two, and the manifold of each was found flush with the divider.
    pub open spec fn flush_pair(
        &self,
        arena: &ShapeArena,
        whole: ShapeId,
        a: ShapeRef,
        b: ShapeRef,
    ) -> bool {
        &&& a != b
        &&& arena.contains(whole)
        &&& arena.boundary_of(whole).contains(a)
        &&& arena.boundary_of(whole).contains(b)
        &&& self.has_result(a.id)
        &&& self.result_of(a.id) is Flush
        &&& self.has_result(b.id)
        &&& self.result_of(b.id) is Flush
    }

    /// Some shape of `arena` has two boundary elements whose manifolds were
    /// found flush with the divider.
    pub open spec fn found_two_flush(&self, arena: &ShapeArena) -> bool {
        exists|whole: ShapeId, a: ShapeRef, b: ShapeRef| #[trigger]
            self.flush_pair(arena, whole, a, b)
    }

    /// `flush` is the only one of `children` that is flush with the divider,
    /// or none of them is.
    pub open spec fn flush_among(&self, children: Set<ShapeRef>, flush: Option<ShapeRef>) -> bool {
        match flush {
            Some(f) => {
                &&& children.contains(f)
                &&& self.result_of(f.id) is Flush
                &&& forall|c: ShapeRef| #[trigger]
                    children.contains(c) && self.result_of(c.id) is Flush ==> c == f
            },
            None => forall|c: ShapeRef| #[trigger]
                children.contains(c) ==> !(self.result_of(c.id) is Flush),
        }
    }
}

impl ShapeArena {
    /// Whether the `k`-th question since `before` was on which sides of the
    /// boundary element `element` of `shape` the parts of `manifold` lie,
    /// within the manifold of `shape`.
    pub open spec fn asked_element_side<G: ManifoldSpace>(
        &self,
        after: &Recorded<G>,
        before: &Recorded<G>,
        k: int,
        shape: ShapeId,
        manifold: ManifoldId,
        element: ShapeRef,
    ) -> bool {
        &&& after.exchange_since(before, k) matches Exchange::WhichSide {
            manifold: asked,
            cut,
            ambient,
            answer: _,
        }
        &&& asked == manifold
        &&& cut == self.manifold_of(element.id)
        &&& ambient == self.manifold_of(shape)
    }

    /// Whether the answer to the `k`-th question since `before` says that no
    /// part of the manifold is outside `element`, as `element` is oriented.
    pub open spec fn element_lets_in<G: ManifoldSpace>(
        after: &Recorded<G>,
        before: &Recorded<G>,
        k: int,
        element: ShapeRef,
    ) -> bool {
        after.exchange_since(before, k)->WhichSide_answer matches Ok(side) && !side.spec_times(
            element.sign,
        ).is_any_outside
    }

    /// What [`ShapeArena::shape_completely_contains_manifold`] asks and
    /// returns, where `order` is the order in which it takes the boundary
    /// elements of `shape`, and its questions are the `n` questions from the
    /// question `from` since `before` on.
    ///
    /// The elements are asked of one by one, as far as needed. Every element
    /// but the last asked of lets the manifold in. The answer is yes if and
    /// only if all were asked of and all let it in; it is no if the last
    /// answer tells of a part outside, and a failure if the last answer is
    /// one.
    pub open spec fn contained_in_order<G: ManifoldSpace>(
        &self,
        after: &Recorded<G>,
        before: &Recorded<G>,
        shape: ShapeId,
        manifold: ManifoldId,
        from: int,
        n: int,
        order: Seq<ShapeRef>,
        r: Result<bool, CutError>,
    ) -> bool {
        &&& order.no_duplicates()
        &&& forall|x: ShapeRef| order.contains(x) <==> self.boundary_of(shape).contains(x)
        &&& 0 <= n <= order.len()
        &&& 0 <= from
        &&& from + n <= after.asked_since(before)
        &&& forall|k: int|
            0 <= k < n ==> #[trigger] self.asked_element_side(
                after,
                before,
                from + k,
                shape,
                manifold,
                order[k],
            )
        &&& forall|k: int|
            0 <= k < n - 1 ==> #[trigger] Self::element_lets_in(after, before, from + k, order[k])
        &&& match r {
            Ok(contained) => if contained {
                n == order.len() && (n > 0 ==> Self::element_lets_in(
                    after,
                    before,
                    from + n - 1,
                    order[n - 1],
                ))
            } else {
                n >= 1 && (after.exchange_since(
                    before,
                    from + n - 1,
                )->WhichSide_answer matches Ok(side) && side.spec_times(
                    order[n - 1].sign,
                ).is_any_outside)
            },
            Err(e) => n >= 1 && (after.exchange_since(
                before,
                from + n - 1,
            )->WhichSide_answer matches Err(failure) && e == CutError::Geometry(failure)),
        }
    }

    /// Returns whether `manifold` (which is assumed to be flush with the
    /// manifold of `shape`) is completely inside `shape`. (This includes the
    /// boundary of `shape`, not just its interior.)
    ///
    /// The geometry tells, for each boundary element, whether any part of
    /// `manifold` is outside it, up to the first element for which it is. A
    /// shape without boundary contains the manifold, and nothing is asked.
    pub fn shape_completely_contains_manifold<G: ManifoldSpace>(
        &self,
        geometry: &mut Recorded<G>,
        shape: ShapeId,
        manifold: ManifoldId,
    ) -> (r: Result<bool, CutError>)
        requires
            self.wf(),
            self.contains(shape),
        ensures
            final(geometry).grown_from(old(geometry)),
            exists|order: Seq<ShapeRef>| #[trigger]
                self.contained_in_order(
                    final(geometry),
                    old(geometry),
                    shape,
                    manifold,
                    0,
                    final(geometry).asked_since(old(geometry)),
                    order,
                    r,
                ),
            self.boundary_of(shape) == Set::<ShapeRef>::empty() ==> r == Ok::<bool, CutError>(true)
                && final(geometry).record() == old(geometry).record(),
            r matches Err(e) ==> e is Geometry,
    {
        assert(self.bounded_within(shape));
        let shape_manifold = self.shape(shape).manifold;
        let elements = self.shape(shape).boundary.to_vec();
        proof {
            if elements.len() > 0 {
                assert(elements@.contains(elements[0]));
            }
        }
        let mut i: usize = 0;
        while i < elements.len()
            invariant
                i <= elements.len(),
                self.contains(shape),
                self.bounded_within(shape),
                shape_manifold == self.manifold_of(shape),
                elements@.no_duplicates(),
                forall|r: ShapeRef| elements@.contains(r) <==> self.boundary_of(shape).contains(r),
                self.boundary_of(shape) == Set::<ShapeRef>::empty() ==> elements.len() == 0,
                geometry.grown_from(old(geometry)),
                geometry.asked_since(old(geometry)) == i,
                forall|k: int|
                    0 <= k < i ==> #[trigger] self.asked_element_side(
                        geometry,
                        old(geometry),
                        k,
                        shape,
                        manifold,
                        elements[k],
                    ),
                forall|k: int|
                    0 <= k < i ==> #[trigger] Self::element_lets_in(
                        geometry,
                        old(geometry),
                        k,
                        elements[k],
                    ),
            decreases elements.len() - i,
        {
            let boundary_elem = elements[i];
            assert(elements@.contains(boundary_elem));
            assert(self.boundary_of(shape).contains(boundary_elem));
            let boundary_elem_manifold = self.shape(boundary_elem.id).manifold;
            let ghost before = *geometry;
            let answer = geometry.which_side(manifold, boundary_elem_manifold, shape_manifold);
            proof {
                lemma_asked_once(
                    &before,
                    geometry,
                    Exchange::WhichSide {
                        manifold,
                        cut: boundary_elem_manifold,
                        ambient: shape_manifold,
                        answer,
                    },
                );
                lemma_grown_twice(old(geometry), &before, geometry);
                assert(geometry.exchange_since(old(geometry), i as int) == geometry.exchange_since(
                    &before,
                    0,
                ));
                assert forall|k: int| 0 <= k < i implies #[trigger] self.asked_element_side(
                    geometry,
                    old(geometry),
                    k,
                    shape,
                    manifold,
                    elements[k],
                ) by {
                    assert(self.asked_element_side(
                        &before,
                        old(geometry),
                        k,
                        shape,
                        manifold,
                        elements[k],
                    ));
                    assert(geometry.exchange_since(old(geometry), k) == before.exchange_since(
                        old(geometry),
                        k,
                    ));
                }
                assert forall|k: int| 0 <= k < i implies #[trigger] Self::element_lets_in(
                    geometry,
                    old(geometry),
                    k,
                    elements[k],
                ) by {
                    assert(Self::element_lets_in(&before, old(geometry), k, elements[k]));
                    assert(geometry.exchange_since(old(geometry), k) == before.exchange_since(
                        old(geometry),
                        k,
                    ));
                }
                assert(self.asked_element_side(
                    geometry,
                    old(geometry),
                    i as int,
                    shape,
                    manifold,
                    elements[i as int],
                ));
            }
            let which_side = match answer {
                Ok(side) => side.times(boundary_elem.sign),
                Err(e) => {
                    proof {
                        assert(self.contained_in_order(
                            geometry,
                            old(geometry),
                            shape,
                            manifold,
                            0,
                            geometry.asked_since(old(geometry)),
                            elements@,
                            Err::<bool, CutError>(CutError::Geometry(e)),
                        ));
                    }
                    return Err(CutError::Geometry(e));
                },
            };
            if which_side.is_any_outside {
                proof {
                    assert(self.contained_in_order(
                        geometry,
                        old(geometry),
                        shape,
                        manifold,
                        0,
                        geometry.asked_since(old(geometry)),
                        elements@,
                        Ok::<bool, CutError>(false),
                    ));
                }
                return Ok(false);
            }
            proof {
                assert(Self::element_lets_in(geometry, old(geometry), i as int, elements[i as int]));
            }
            i += 1;
        }
        proof {
            assert(self.contained_in_order(
                geometry,
                old(geometry),
                shape,
                manifold,
                0,
                geometry.asked_since(old(geometry)),
                elements@,
                Ok::<bool, CutError>(true),
            ));
        }
        Ok(true)
    }

    /// What [`ShapeArena::simplify_boundary_of_rank`] asks, makes and
    /// returns for the boundary of a line; `before` is the arena as it was,
    /// `after` and `earlier` the geometry afterwards and before.
    ///
    /// The intervals of `boundary` are intersected in some order, as
    /// [`ShapeArena::intersection_simplified`] says. A failure is returned;
    /// an intersection that is empty gives the empty set; and otherwise the
    /// intervals that are left are returned.
    pub open spec fn line_simplified<G: ManifoldSpace>(
        &self,
        before: &ShapeArena,
        after: &Recorded<G>,
        earlier: &Recorded<G>,
        boundary: Set<ShapeRef>,
        manifold: ManifoldId,
        r: Result<ShapeSet, CutError>,
    ) -> bool {
        exists|order: Seq<ShapeRef>, found: Result<Option<ShapeSet>, CutError>|
            {
                &&& #[trigger] self.intersection_simplified(
                    before,
                    after,
                    earlier,
                    order,
                    manifold,
                    found,
                )
                &&& order.no_duplicates()
                &&& forall|x: ShapeRef| order.contains(x) <==> boundary.contains(x)
                &&& match found {
                    Err(e) => r == Err::<ShapeSet, CutError>(e),
                    Ok(None) => r matches Ok(simplified) && simplified@ == Set::<
                        ShapeRef,
                    >::empty(),
                    Ok(Some(left)) => r matches Ok(simplified) && simplified@ == left@,
                }
            }
    }

    /// Simplifies a set of shapes that bounds a region of a manifold of
    /// `ndim` dimensions.
    ///
    /// On a line the set is a set of intervals, to be intersected; its empty
    /// intersection is given as the empty set. Elsewhere a reference and its
    /// negation cancel, nothing else is done, and nothing is asked.
    pub fn simplify_boundary_of_rank<G: ManifoldSpace>(
        &mut self,
        geometry: &mut Recorded<G>,
        ndim: u8,
        manifold: ManifoldId,
        boundary_set: ShapeSet,
    ) -> (r: Result<ShapeSet, CutError>)
        requires
            old(self).wf(),
            boundary_set.wf(),
            old(self).holds_all(boundary_set@),
        ensures
            final(self).wf(),
            r matches Err(CutError::ArenaFull) ==> final(self).next_slot() > u32::MAX,
            r matches Err(e) ==> e != CutError::MultipleIntersectionShapes,
            old(self).extended_by(final(self)),
            final(self).spec_roots() == old(self).spec_roots(),
            final(geometry).grown_from(old(geometry)),
            final(self).boundary_simplified(
                old(self),
                final(geometry),
                old(geometry),
                ndim,
                manifold,
                boundary_set@,
                r,
            ),
            ndim == 1 ==> final(self).line_simplified(
                old(self),
                final(geometry),
                old(geometry),
                boundary_set@,
                manifold,
                r,
            ),
            r matches Ok(simplified) ==> simplified.wf() && final(self).holds_all(simplified@),
            ndim != 1 ==> {
                &&& r matches Ok(simplified)
                &&& simplified@ == ShapeSet::spec_cancel_opposites(boundary_set@)
                &&& final(self).nodes() == old(self).nodes()
                &&& final(geometry).record() == old(geometry).record()
            },
            ndim == 1 && boundary_set@ == Set::<ShapeRef>::empty() ==> {
                &&& r matches Ok(simplified)
                &&& simplified@ == Set::<ShapeRef>::empty()
                &&& final(self).nodes() == old(self).nodes()
                &&& final(geometry).record() == old(geometry).record()
            },
    {
        if ndim == 1 {
            let intervals = boundary_set.to_vec();
            proof {
                assert forall|i: int| 0 <= i < intervals.len() implies self.contains(
                    (#[trigger] intervals[i]).id,
                ) by {
                    assert(intervals@.contains(intervals[i]));
                }
                if boundary_set@ == Set::<ShapeRef>::empty() && intervals.len() > 0 {
                    assert(intervals@.contains(intervals[0]));
                }
            }
            let found = self.simplify_intervals_intersection(geometry, &intervals, manifold);
            proof {
                assert(self.intersection_simplified(
                    old(self),
                    geometry,
                    old(geometry),
                    intervals@,
                    manifold,
                    found,
                ));
            }
            match found {
                Ok(Some(simplified)) => Ok(simplified),
                Ok(None) => Ok(ShapeSet::new()),
                Err(e) => Err(e),
            }
        } else {
            let simplified = boundary_set.cancel_opposites();
            Ok(simplified)
        }
    }

    /// What [`ShapeArena::simplify_shape_boundary`] makes of the answer to its
    /// question for the number of dimensions of the manifold; `before` is the
    /// arena as it was, and `asked` the number of questions that were asked.
    ///
    /// A failure of the geometry is returned. Unless the manifold is a line,
    /// opposite references cancel and nothing else is done; on a line, an
    /// empty set stays empty. In each of these cases nothing more is asked.
    pub open spec fn simplified_by_answer(
        &self,
        before: &ShapeArena,
        boundary: Set<ShapeRef>,
        answer: Result<u8, GeometryError>,
        asked: int,
        r: Result<ShapeSet, CutError>,
    ) -> bool {
        match answer {
            Err(e) => r matches Err(failure) && failure == CutError::Geometry(e) && asked == 1,
            Ok(ndim) => {
                &&& ndim != 1 ==> {
                    &&& r matches Ok(simplified)
                    &&& simplified@ == ShapeSet::spec_cancel_opposites(boundary)
                    &&& self.nodes() == before.nodes()
                    &&& asked == 1
                }
                &&& ndim == 1 && boundary == Set::<ShapeRef>::empty() ==> {
                    &&& r matches Ok(simplified)
                    &&& simplified@ == Set::<ShapeRef>::empty()
                    &&& self.nodes() == before.nodes()
                    &&& asked == 1
                }
            },
        }
    }

    /// Simplifies a set of shapes that bounds a region of `manifold`.
    ///
    /// The geometry is asked first for the number of dimensions of the
    /// manifold; [`ShapeArena::simplify_boundary_of_rank`] does the rest.
    pub fn simplify_shape_boundary<G: ManifoldSpace>(
        &mut self,
        geometry: &mut Recorded<G>,
        manifold: ManifoldId,
        boundary_set: ShapeSet,
    ) -> (r: Result<ShapeSet, CutError>)
        requires
            old(self).wf(),
            boundary_set.wf(),
            old(self).holds_all(boundary_set@),
        ensures
            final(self).wf(),
            r matches Err(CutError::ArenaFull) ==> final(self).next_slot() > u32::MAX,
            old(self).extended_by(final(self)),
            final(self).spec_roots() == old(self).spec_roots(),
            final(geometry).grown_from(old(geometry)),
            final(geometry).asked_since(old(geometry)) >= 1,
            final(geometry).exchange_since(old(geometry), 0) matches Exchange::Ndim {
                manifold: asked,
                answer,
            } && asked == manifold && final(self).simplified_by_answer(
                old(self),
                boundary_set@,
                answer,
                final(geometry).asked_since(old(geometry)),
                r,
            ),
            r matches Ok(simplified) ==> simplified.wf() && final(self).holds_all(simplified@),
    {
        let answer = geometry.ndim(manifold);
        let ghost after_first = *geometry;
        proof {
            lemma_asked_once(old(geometry), geometry, Exchange::Ndim { manifold, answer });
        }
        match answer {
            Ok(ndim) => {
                let r = self.simplify_boundary_of_rank(geometry, ndim, manifold, boundary_set);
                proof {
                    lemma_first_exchange_kept(old(geometry), &after_first, geometry);
                }
                r
            },
            Err(e) => Err(CutError::Geometry(e)),
        }
    }

    /// The shape in `part`, if any, is bounded by boundary elements of the
    /// shape `shape` as it was in `before` and by shapes that `before` did not
    /// hold.
    pub open spec fn bounded_by_old_or_new(
        &self,
        before: &ShapeArena,
        shape: ShapeId,
        part: Option<ShapeRef>,
    ) -> bool {
        part matches Some(p) ==> forall|r: ShapeRef| #[trigger]
            self.boundary_of(p.id).contains(r) && before.contains(r.id) ==> before.boundary_of(
                shape,
            ).contains(r)
    }

    /// The first question since `earlier` was for the number of dimensions of
    /// `manifold`; if the geometry failed to answer, that failure is what was
    /// returned, nothing more was asked, and the arena is as it was in
    /// `before`.
    pub open spec fn asks_ndim_first<G: ManifoldSpace>(
        &self,
        before: &ShapeArena,
        after: &Recorded<G>,
        earlier: &Recorded<G>,
        manifold: ManifoldId,
        failure: Option<CutError>,
    ) -> bool {
        &&& after.asked_since(earlier) >= 1
        &&& after.exchange_since(earlier, 0) matches Exchange::Ndim { manifold: asked, answer }
        &&& asked == manifold
        &&& answer matches Err(e) ==> {
            &&& failure == Some(CutError::Geometry(e))
            &&& after.asked_since(earlier) == 1
            &&& self.nodes() == before.nodes()
        }
    }

    /// A part of the split of the edge `shape` is absent because nothing of
    /// the line was left for it: at some state `end` of the geometry a merge
    /// had just made the complements of two intervals cover the whole line,
    /// one of them an endpoint of the edge, as
    /// [`ShapeArena::emptied_by_merge`] says.
    pub open spec fn part_emptied<G: ManifoldSpace>(
        &self,
        before: &ShapeArena,
        after: &Recorded<G>,
        earlier: &Recorded<G>,
        shape: ShapeId,
    ) -> bool {
        exists|end: Recorded<G>|
            {
                &&& after.grown_from(&end)
                &&& #[trigger] self.emptied_by_merge(
                    &end,
                    earlier,
                    before.boundary_of(shape),
                    before.manifold_of(shape),
                )
            }
    }

    /// What [`ShapeArena::split_edge`] makes of the split of the edge `shape`,
    /// seen in the arena afterwards; `before` is the arena as it was.
    ///
    /// The intersection shape is new, is the whole of
    /// `intersection_manifold`, is referred to positively, and has the tags
    /// of the cut: `inside_metadata` on its positive orientation and
    /// `outside_metadata` on its negative one. Each part has
    /// the manifold and the number of dimensions of the edge, and is bounded
    /// by endpoints of the edge and by new shapes.
    pub open spec fn edge_split(
        &self,
        before: &ShapeArena,
        shape: ShapeId,
        intersection_manifold: ManifoldId,
        inside_metadata: Option<ShapeMetadata>,
        outside_metadata: Option<ShapeMetadata>,
        split: ShapeSplit,
    ) -> bool {
        &&& self.holds_split_of(shape, split)
        &&& split matches ShapeSplit::NonFlush { inside, outside, intersection_shape }
        &&& intersection_shape matches Some(point)
        &&& point.sign == Sign::Pos
        &&& !before.contains(point.id)
        &&& self.metadata_of(point) == inside_metadata
        &&& self.metadata_of(point.spec_neg()) == outside_metadata
        &&& self.manifold_of(point.id) == intersection_manifold
        &&& self.boundary_of(point.id) == Set::<ShapeRef>::empty()
        &&& self.bounded_by_old_or_new(before, shape, inside)
        &&& self.bounded_by_old_or_new(before, shape, outside)
    }

    /// The intersection point of an edge was added and tagged; `self` is the
    /// arena with it, `before` the arena as it was, `after` and `earlier`
    /// the geometry afterwards and before.
    ///
    /// The one question is for the number of dimensions of
    /// `intersection_manifold`; a failure to answer is returned. The point
    /// is added if an identifier is left. It goes to the next slot, is
    /// referred to positively, is the whole of `intersection_manifold` with
    /// the number of dimensions that the geometry told, and has the tags of
    /// the cut. Nothing else is added or changed.
    pub open spec fn point_added<G: ManifoldSpace>(
        &self,
        before: &ShapeArena,
        after: &Recorded<G>,
        earlier: &Recorded<G>,
        intersection_manifold: ManifoldId,
        inside_metadata: Option<ShapeMetadata>,
        outside_metadata: Option<ShapeMetadata>,
        r: Result<ShapeRef, CutError>,
    ) -> bool {
        &&& self.asks_ndim_first(before, after, earlier, intersection_manifold, spec_failure_of(r))
        &&& after.asked_since(earlier) == 1
        &&& after.exchange_since(earlier, 0)->Ndim_answer is Ok ==> if before.next_slot()
            <= u32::MAX {
            r is Ok
        } else {
            r == Err::<ShapeRef, CutError>(CutError::ArenaFull)
        }
        &&& match r {
            Err(_) => self.nodes() == before.nodes(),
            Ok(point) => {
                &&& point.sign == Sign::Pos
                &&& slot_of(point.id) == before.next_slot()
                &&& !before.contains(point.id)
                &&& before.extended_by(self)
                &&& forall|id: ShapeId| #[trigger]
                    self.contains(id) ==> before.contains(id) || id == point.id
                &&& self.manifold_of(point.id) == intersection_manifold
                &&& self.boundary_of(point.id) == Set::<ShapeRef>::empty()
                &&& self.metadata_of(point) == inside_metadata
                &&& self.metadata_of(point.spec_neg()) == outside_metadata
                &&& after.exchange_since(earlier, 0)->Ndim_answer == Ok::<u8, GeometryError>(
                    self.node(point.id).rank,
                )
                &&& before.packed() ==> self.packed() && self.next_slot() == before.next_slot()
                    + 1
            },
        }
    }

    /// A part of the edge `shape` was made of what bounds it; `before` is
    /// the arena as it was, `after` and `earlier` the geometry afterwards
    /// and before.
    ///
    /// A failure to find the boundary is returned, and nothing is done. If
    /// nothing is left to bound the part, there is no part, and nothing is
    /// done. Otherwise the part is the shape with that boundary, as
    /// [`ShapeArena::subshape_added`] says: the edge itself if the boundary
    /// is its own, else a new shape.
    pub open spec fn part_made<G: ManifoldSpace>(
        &self,
        before: &ShapeArena,
        after: &Recorded<G>,
        earlier: &Recorded<G>,
        shape: ShapeId,
        boundary: Result<Option<ShapeSet>, CutError>,
        part: Result<Option<ShapeRef>, CutError>,
    ) -> bool {
        match boundary {
            Err(e) => part == Err::<Option<ShapeRef>, CutError>(e) && *self == *before && *after
                == *earlier,
            Ok(None) => part == Ok::<Option<ShapeRef>, CutError>(None) && *self == *before
                && *after == *earlier,
            Ok(Some(members)) => match part {
                Ok(Some(p)) => self.subshape_added(
                    before,
                    after,
                    earlier,
                    shape,
                    members,
                    Ok::<ShapeRef, CutError>(p),
                ),
                Ok(None) => false,
                Err(e) => self.subshape_added(
                    before,
                    after,
                    earlier,
                    shape,
                    members,
                    Err::<ShapeRef, CutError>(e),
                ),
            },
        }
    }

    /// The split of the edge `shape` went through the states `steps` and
    /// gave `r`; `before` is the arena as it was, `after` and `earlier` the
    /// geometry afterwards and before.
    ///
    /// The intersection point is added, as [`ShapeArena::point_added`] says.
    /// The boundary of the edge is intersected with the point, as
    /// [`ShapeArena::simplified_in_steps`] says, and the inside part is made
    /// of what is left, as [`ShapeArena::part_made`] says; then the same is
    /// done with the negated point for the outside part. The first failure
    /// is returned, and nothing is done after it.
    pub open spec fn edge_steps<G: ManifoldSpace>(
        &self,
        before: &ShapeArena,
        after: &Recorded<G>,
        earlier: &Recorded<G>,
        shape: ShapeId,
        intersection_manifold: ManifoldId,
        inside_metadata: Option<ShapeMetadata>,
        outside_metadata: Option<ShapeMetadata>,
        steps: EdgeSplitting<G>,
        r: Result<ShapeSplit, CutError>,
    ) -> bool {
        &&& steps.with_point.point_added(
            before,
            &steps.asked_point,
            earlier,
            intersection_manifold,
            inside_metadata,
            outside_metadata,
            steps.point,
        )
        &&& match steps.point {
            Err(e) => r == Err::<ShapeSplit, CutError>(e) && *self == steps.with_point && *after
                == steps.asked_point,
            Ok(point) => {
                &&& steps.with_inside_boundary.simplified_in_steps(
                    &steps.with_point,
                    &steps.asked_inside,
                    &steps.asked_point,
                    before.boundary_of(shape),
                    point,
                    before.manifold_of(shape),
                    steps.inside_boundary,
                )
                &&& steps.with_inside.part_made(
                    &steps.with_inside_boundary,
                    &steps.added_inside,
                    &steps.asked_inside,
                    shape,
                    steps.inside_boundary,
                    steps.inside,
                )
                &&& match steps.inside {
                    Err(e) => r == Err::<ShapeSplit, CutError>(e) && *self == steps.with_inside
                        && *after == steps.added_inside,
                    Ok(inside) => {
                        &&& steps.with_outside_boundary.simplified_in_steps(
                            &steps.with_inside,
                            &steps.asked_outside,
                            &steps.added_inside,
                            before.boundary_of(shape),
                            point.spec_neg(),
                            before.manifold_of(shape),
                            steps.outside_boundary,
                        )
                        &&& self.part_made(
                            &steps.with_outside_boundary,
                            after,
                            &steps.asked_outside,
                            shape,
                            steps.outside_boundary,
                            steps.outside,
                        )
                        &&& match steps.outside {
                            Err(e) => r == Err::<ShapeSplit, CutError>(e),
                            Ok(outside) => r == Ok::<ShapeSplit, CutError>(
                                ShapeSplit::NonFlush {
                                    inside,
                                    outside,
                                    intersection_shape: Some(point),
                                },
                            ),
                        }
                    },
                }
            },
        }
    }

    /// What [`ShapeArena::split_edge`] asks, does and returns: the split
    /// goes through some states as [`ShapeArena::edge_steps`] says.
    pub open spec fn edge_split_in_steps<G: ManifoldSpace>(
        &self,
        before: &ShapeArena,
        after: &Recorded<G>,
        earlier: &Recorded<G>,
        shape: ShapeId,
        intersection_manifold: ManifoldId,
        inside_metadata: Option<ShapeMetadata>,
        outside_metadata: Option<ShapeMetadata>,
        r: Result<ShapeSplit, CutError>,
    ) -> bool {
        exists|steps: EdgeSplitting<G>| #[trigger]
            self.edge_steps(
                before,
                after,
                earlier,
                shape,
                intersection_manifold,
                inside_metadata,
                outside_metadata,
                steps,
                r,
            )
    }

    /// Splits an edge, a shape of one dimension, where the divider crosses
    /// its line at `intersection_manifold`.
    ///
    /// The intersection is a new shape, the whole of `intersection_manifold`.
    /// The inside part is bounded by the boundary of the edge intersected
    /// with the interval on the inside of the intersection, the outside part
    /// by the boundary intersected with the complement of that interval; a
    /// part whose boundary comes out empty is absent.
    #[verifier::rlimit(80)]
    pub fn split_edge<G: ManifoldSpace>(
        &mut self,
        geometry: &mut Recorded<G>,
        shape: ShapeId,
        intersection_manifold: ManifoldId,
        inside_metadata: Option<ShapeMetadata>,
        outside_metadata: Option<ShapeMetadata>,
    ) -> (r: Result<ShapeSplit, CutError>)
        requires
            old(self).wf(),
            old(self).contains(shape),
        ensures
            final(self).wf(),
            r matches Err(CutError::ArenaFull) ==> final(self).next_slot() > u32::MAX,
            r matches Err(e) ==> e != CutError::MultipleIntersectionShapes,
            old(self).extended_by(final(self)),
            final(self).spec_roots() == old(self).spec_roots(),
            r matches Ok(split) ==> final(self).edge_split(
                old(self),
                shape,
                intersection_manifold,
                inside_metadata,
                outside_metadata,
                split,
            ),
            final(geometry).grown_from(old(geometry)),
            final(self).edge_split_in_steps(
                old(self),
                final(geometry),
                old(geometry),
                shape,
                intersection_manifold,
                inside_metadata,
                outside_metadata,
                r,
            ),
            final(self).asks_ndim_first(
                old(self),
                final(geometry),
                old(geometry),
                intersection_manifold,
                spec_failure_of(r),
            ),
            r matches Ok(ShapeSplit::NonFlush { inside, outside, intersection_shape: _ }) ==> {
                &&& inside is None ==> final(self).part_emptied(
                    old(self),
                    final(geometry),
                    old(geometry),
                    shape,
                )
                &&& outside is None ==> final(self).part_emptied(
                    old(self),
                    final(geometry),
                    old(geometry),
                    shape,
                )
            },
    {
        assert(self.bounded_within(shape));
        let added_point = self.add(geometry, Shape::whole_space(intersection_manifold));
        let ghost g1 = *geometry;
        let ghost first_answer = g1.exchange_since(old(geometry), 0)->Ndim_answer;
        let ghost mut steps = EdgeSplitting {
            point: added_point,
            with_point: *self,
            asked_point: *geometry,
            inside_boundary: Err(CutError::ArenaFull),
            with_inside_boundary: *self,
            asked_inside: *geometry,
            inside: Err(CutError::ArenaFull),
            with_inside: *self,
            added_inside: *geometry,
            outside_boundary: Err(CutError::ArenaFull),
            with_outside_boundary: *self,
            asked_outside: *geometry,
            outside: Err(CutError::ArenaFull),
        };
        proof {
            if let Ok(ndim) = first_answer {
                assert(old(self).ranks_fit(Set::<ShapeRef>::empty(), ndim as int));
                if old(self).spec_checks() && ndim == 2 {
                    lemma_no_edges_settle(
                        old(self),
                        geometry.record(),
                        old(geometry).record().len() as int + 1,
                        added_point,
                    );
                }
            }
        }
        let intersection_shape = match added_point {
            Ok(point) => point,
            Err(e) => {
                proof {
                    assert(self.edge_steps(
                        old(self),
                        geometry,
                        old(geometry),
                        shape,
                        intersection_manifold,
                        inside_metadata,
                        outside_metadata,
                        steps,
                        Err(e),
                    ));
                }
                return Err(e);
            },
        };
        assert(first_answer is Ok);
        let ghost untagged = *self;
        assert(untagged.contains(shape));
        self.tag_both(intersection_shape, inside_metadata, outside_metadata);
        proof {
            assert forall|id: ShapeId| #[trigger] old(self).contains(id) implies self.contains(id)
                && self.same_shape_at(old(self), id) by {
                assert(untagged.contains(id));
            }
        }
        let ghost with_point = *self;
        assert(with_point.contains(shape));
        proof {
            steps.with_point = with_point;
            assert forall|id: ShapeId| #[trigger] with_point.contains(id) implies old(self).contains(id) || id == intersection_shape.id by {
                assert(untagged.contains(id));
            }
            assert(with_point.point_added(
                old(self),
                &g1,
                old(geometry),
                intersection_manifold,
                inside_metadata,
                outside_metadata,
                added_point,
            ));
        }

        let boundary = self.shape(shape).boundary.clone();
        let manifold = self.shape(shape).manifold;
        proof {
            assert forall|r: ShapeRef| #[trigger] boundary@.contains(r) implies self.contains(
                r.id,
            ) by {
                assert(old(self).boundary_of(shape).contains(r));
                assert(old(self).contains(r.id));
            }
        }
        let inside_simplified = self.incremental_simplify_intervals_intersection(
            geometry,
            &boundary,
            intersection_shape,
            manifold,
        );
        let ghost g2 = *geometry;
        let ghost with_inside_boundary = *self;
        proof {
            lemma_first_exchange_kept(old(geometry), &g1, &g2);
        }
        proof {
            steps.inside_boundary = inside_simplified;
            steps.with_inside_boundary = with_inside_boundary;
            steps.asked_inside = g2;
            steps.inside = spec_no_part_yet(inside_simplified);
            steps.with_inside = with_inside_boundary;
            steps.added_inside = g2;
        }
        let inside_boundary = match inside_simplified {
            Ok(boundary) => boundary,
            Err(e) => {
                proof {
                    assert(self.edge_steps(
                        old(self),
                        geometry,
                        old(geometry),
                        shape,
                        intersection_manifold,
                        inside_metadata,
                        outside_metadata,
                        steps,
                        Err(e),
                    ));
                }
                return Err(e);
            },
        };
        assert(with_inside_boundary.contains(shape));
        let ghost inside_members = match &inside_boundary {
            Some(boundary) => boundary@,
            None => Set::<ShapeRef>::empty(),
        };
        let inside_added = match inside_boundary {
            Some(boundary) => Some(self.add_subshape(geometry, shape, boundary)),
            None => None,
        };
        let ghost g3 = *geometry;
        proof {
            lemma_first_exchange_kept(old(geometry), &g2, &g3);
        }
        proof {
            steps.inside = spec_part_of(inside_added);
            steps.with_inside = *self;
            steps.added_inside = g3;
            assert(steps.with_inside.part_made(
                &steps.with_inside_boundary,
                &steps.added_inside,
                &steps.asked_inside,
                shape,
                steps.inside_boundary,
                steps.inside,
            ));
        }
        let inside = match inside_added {
            Some(added) => match added {
                Ok(part) => Some(part),
                Err(e) => {
                    proof {
                        assert(self.edge_steps(
                            old(self),
                            geometry,
                            old(geometry),
                            shape,
                            intersection_manifold,
                            inside_metadata,
                            outside_metadata,
                            steps,
                            Err(e),
                        ));
                    }
                    return Err(e);
                },
            },
            None => None,
        };
        let ghost with_inside = *self;
        proof {
            if let Some(p) = inside {
                assert(with_inside.boundary_of(p.id) == inside_members);
                assert forall|r: ShapeRef| #[trigger]
                    with_inside.boundary_of(p.id).contains(r) && old(self).contains(
                        r.id,
                    ) implies old(self).boundary_of(shape).contains(r) by {
                    assert(with_point.contains(r.id));
                }
            }
        }
        proof {
            assert forall|id: ShapeId| #[trigger] old(self).contains(id) implies with_inside.contains(
                id,
            ) && with_inside.same_shape_at(old(self), id) by {
                assert(with_point.contains(id));
                assert(with_inside_boundary.contains(id));
            }
            assert(with_point.contains(intersection_shape.id));
            assert(with_inside_boundary.contains(intersection_shape.id));
            assert(with_inside.contains(intersection_shape.id));
            assert(with_inside.contains(shape));
            assert forall|r: ShapeRef| #[trigger] boundary@.contains(r) implies with_inside.contains(
                r.id,
            ) by {
                assert(old(self).boundary_of(shape).contains(r));
                assert(old(self).contains(r.id));
            }
        }

        let outside_simplified = self.incremental_simplify_intervals_intersection(
            geometry,
            &boundary,
            intersection_shape.neg(),
            manifold,
        );
        let ghost g4 = *geometry;
        let ghost with_outside_boundary = *self;
        proof {
            lemma_first_exchange_kept(old(geometry), &g3, &g4);
        }
        proof {
            steps.outside_boundary = outside_simplified;
            steps.with_outside_boundary = with_outside_boundary;
            steps.asked_outside = g4;
            steps.outside = spec_no_part_yet(outside_simplified);
        }
        let outside_boundary = match outside_simplified {
            Ok(boundary) => boundary,
            Err(e) => {
                proof {
                    assert(self.edge_steps(
                        old(self),
                        geometry,
                        old(geometry),
                        shape,
                        intersection_manifold,
                        inside_metadata,
                        outside_metadata,
                        steps,
                        Err(e),
                    ));
                }
                return Err(e);
            },
        };
        assert(with_outside_boundary.contains(shape));
        let ghost outside_members = match &outside_boundary {
            Some(boundary) => boundary@,
            None => Set::<ShapeRef>::empty(),
        };
        let outside_added = match outside_boundary {
            Some(boundary) => Some(self.add_subshape(geometry, shape, boundary)),
            None => None,
        };
        proof {
            lemma_first_exchange_kept(old(geometry), &g4, geometry);
        }
        proof {
            steps.outside = spec_part_of(outside_added);
            assert(self.part_made(
                &steps.with_outside_boundary,
                geometry,
                &steps.asked_outside,
                shape,
                steps.outside_boundary,
                steps.outside,
            ));
        }
        let outside = match outside_added {
            Some(added) => match added {
                Ok(part) => Some(part),
                Err(e) => {
                    proof {
                        assert(self.edge_steps(
                            old(self),
                            geometry,
                            old(geometry),
                            shape,
                            intersection_manifold,
                            inside_metadata,
                            outside_metadata,
                            steps,
                            Err(e),
                        ));
                    }
                    return Err(e);
                },
            },
            None => None,
        };
        proof {
            assert(self.edge_steps(
                old(self),
                geometry,
                old(geometry),
                shape,
                intersection_manifold,
                inside_metadata,
                outside_metadata,
                steps,
                Ok(ShapeSplit::NonFlush {
                    inside,
                    outside,
                    intersection_shape: Some(intersection_shape),
                }),
            ));
        }
        proof {
            if let Some(p) = outside {
                assert(self.boundary_of(p.id) == outside_members);
                assert forall|r: ShapeRef| #[trigger]
                    self.boundary_of(p.id).contains(r) && old(self).contains(r.id) implies old(self).boundary_of(shape).contains(r) by {
                    assert(with_point.contains(r.id));
                    assert(with_inside.contains(r.id));
                }
            }
            if let Some(p) = inside {
                assert(with_inside.contains(p.id));
                assert(with_outside_boundary.contains(p.id));
                assert(self.same_shape_at(&with_outside_boundary, p.id));
                assert(with_outside_boundary.same_shape_at(&with_inside, p.id));
                assert(self.boundary_of(p.id) == with_inside.boundary_of(p.id));
            }
            assert forall|id: ShapeId| #[trigger] old(self).contains(id) implies self.contains(id)
                && self.same_shape_at(old(self), id) by {
                assert(with_inside.contains(id));
                assert(with_outside_boundary.contains(id));
            }
            assert(with_outside_boundary.contains(intersection_shape.id));
            assert(self.contains(intersection_shape.id));
            assert(self.same_shape_at(&with_outside_boundary, intersection_shape.id));
            assert(with_outside_boundary.same_shape_at(&with_inside, intersection_shape.id));
            assert(with_inside.same_shape_at(&with_inside_boundary, intersection_shape.id));
            assert(with_inside_boundary.same_shape_at(&with_point, intersection_shape.id));
            if let Some(s) = inside {
                assert(with_inside.contains(s.id));
                assert(with_outside_boundary.contains(s.id));
            }
            assert(boundary@ == old(self).boundary_of(shape));
            assert(manifold == old(self).manifold_of(shape));
            if inside is None {
                assert(with_inside_boundary.extended_by(self)) by {
                    assert forall|id: ShapeId| #[trigger]
                        with_inside_boundary.contains(id) implies self.contains(id)
                        && self.same_shape_at(&with_inside_boundary, id) by {
                        assert(with_inside.contains(id));
                        assert(with_outside_boundary.contains(id));
                    }
                }
                lemma_emptied_lifted(
                    &with_inside_boundary,
                    self,
                    &g2,
                    &g1,
                    old(geometry),
                    boundary@,
                    manifold,
                );
                lemma_grown_twice(&g2, &g3, &g4);
                lemma_grown_twice(&g2, &g4, geometry);
                assert(geometry.grown_from(&g2));
            }
            if outside is None {
                lemma_emptied_lifted(
                    &with_outside_boundary,
                    self,
                    &g4,
                    &g3,
                    old(geometry),
                    boundary@,
                    manifold,
                );
                assert(geometry.grown_from(&g4));
            }
        }
        Ok(ShapeSplit::NonFlush { inside, outside, intersection_shape: Some(intersection_shape) })
    }

    /// What [`ShapeArena::finish_split`] makes of the split of the shape
    /// `shape`, seen in the arena afterwards; `before` is the arena as it was.
    ///
    /// With a flush element, that element is the intersection shape: as it
    /// is, and then it bounds the inside with the rest of `inside_set`, or
    /// negated, and then it bounds the outside with the rest of
    /// `outside_set`. Without one, an intersection shape is new, lies on
    /// `intersection_manifold`, has one dimension less than `shape`, has the
    /// tags of the cut (`inside_metadata` as it is, `outside_metadata`
    /// negated), and
    /// bounds the inside as it is and the outside negated; unless it is an
    /// edge, its boundary is `intersection_boundary` with opposite references
    /// cancelled. A side has no part if and only if nothing bounds it.
    pub open spec fn finished_split(
        &self,
        before: &ShapeArena,
        shape: ShapeId,
        intersection_manifold: ManifoldId,
        inside_set: Set<ShapeRef>,
        outside_set: Set<ShapeRef>,
        intersection_boundary: Set<ShapeRef>,
        flush_child: Option<ShapeRef>,
        inside_metadata: Option<ShapeMetadata>,
        outside_metadata: Option<ShapeMetadata>,
        split: ShapeSplit,
    ) -> bool {
        &&& self.holds_split_of(shape, split)
        &&& split matches ShapeSplit::NonFlush { inside, outside, intersection_shape }
        &&& match flush_child {
            Some(child) => {
                ||| {
                    &&& intersection_shape == Some(child)
                    &&& self.bounded_by(inside, inside_set.insert(child))
                    &&& self.bounded_by(outside, outside_set)
                }
                ||| {
                    &&& intersection_shape == Some(child.spec_neg())
                    &&& self.bounded_by(inside, inside_set)
                    &&& self.bounded_by(outside, outside_set.insert(child))
                }
            },
            None => match intersection_shape {
                Some(s) => {
                    &&& s.sign == Sign::Pos
                    &&& !before.contains(s.id)
                    &&& self.manifold_of(s.id) == intersection_manifold
                    &&& self.rank_of(s.id) + 1 == self.rank_of(shape)
                    &&& self.metadata_of(s) == inside_metadata
                    &&& self.metadata_of(s.spec_neg()) == outside_metadata
                    &&& (self.rank_of(s.id) != 1 ==> self.boundary_of(s.id)
                        == ShapeSet::spec_cancel_opposites(intersection_boundary))
                    &&& self.bounded_by(inside, inside_set.insert(s))
                    &&& self.bounded_by(outside, outside_set.insert(s.spec_neg()))
                },
                None => {
                    &&& self.bounded_by(inside, inside_set)
                    &&& self.bounded_by(outside, outside_set)
                },
            },
        }
    }

    /// What [`ShapeArena::finish_split`] asks first, and what it makes of a
    /// failure; `before` is the arena as it was, `after` and `earlier` the
    /// geometry afterwards and before, and `failure` what was returned if it
    /// was a failure.
    ///
    /// With a flush element the first question is for the orientation of its
    /// manifold relative to `intersection_manifold`; if the two are different
    /// manifolds, `IntersectionMismatch` is returned. Without one the first
    /// question is for the number of dimensions of `intersection_manifold`,
    /// and a failure to answer is returned. In both cases nothing more is
    /// asked and the arena is left as it was.
    pub open spec fn asks_about_intersection<G: ManifoldSpace>(
        &self,
        before: &ShapeArena,
        after: &Recorded<G>,
        earlier: &Recorded<G>,
        flush_child: Option<ShapeRef>,
        intersection_manifold: ManifoldId,
        failure: Option<CutError>,
    ) -> bool {
        match flush_child {
            Some(flush) => {
                &&& after.asked_since(earlier) >= 1
                &&& after.exchange_since(earlier, 0) matches Exchange::RelativeOrientation {
                    a,
                    b,
                    answer,
                }
                &&& a == before.manifold_of(flush.id)
                &&& b == intersection_manifold
                &&& answer is None ==> {
                    &&& failure == Some(CutError::IntersectionMismatch)
                    &&& after.asked_since(earlier) == 1
                    &&& self.nodes() == before.nodes()
                }
            },
            None => self.asks_ndim_first(before, after, earlier, intersection_manifold, failure),
        }
    }

    /// When [`ShapeArena::finish_split`] makes an intersection shape, where no
    /// boundary element is flush with the divider and the intersection
    /// manifold is no line; `before` is the arena as it was, `after` and
    /// `earlier` the geometry afterwards and before.
    ///
    /// If the boundary of the intersection, with opposite references
    /// cancelled, is not empty, there is an intersection shape. If it is
    /// empty, the geometry is asked, from the second question on, whether the
    /// shape contains the intersection manifold, as
    /// [`ShapeArena::contained_in_order`] says: a failure is returned, and
    /// there is an intersection shape if and only if the answer is yes.
    pub open spec fn intersection_by_answers<G: ManifoldSpace>(
        before: &ShapeArena,
        after: &Recorded<G>,
        earlier: &Recorded<G>,
        shape: ShapeId,
        intersection_manifold: ManifoldId,
        intersection_boundary: Set<ShapeRef>,
        r: Result<ShapeSplit, CutError>,
    ) -> bool {
        if ShapeSet::spec_cancel_opposites(intersection_boundary) != Set::<ShapeRef>::empty() {
            r matches Ok(split) ==> split->intersection_shape is Some
        } else {
            exists|order: Seq<ShapeRef>, n: int, contained: Result<bool, CutError>|
                {
                    &&& #[trigger] before.contained_in_order(
                        after,
                        earlier,
                        shape,
                        intersection_manifold,
                        1,
                        n,
                        order,
                        contained,
                    )
                    &&& match contained {
                        Err(e) => r == Err::<ShapeSplit, CutError>(e) && after.asked_since(earlier)
                            == 1 + n,
                        Ok(yes) => r matches Ok(split) ==> (split->intersection_shape is Some)
                            == yes,
                    }
                }
        }
    }

    /// What [`ShapeArena::simplify_boundary_of_rank`] asks, makes and
    /// returns; `before` is the arena as it was, `after` and `earlier` the
    /// geometry afterwards and before.
    ///
    /// The boundary of a line is simplified as
    /// [`ShapeArena::line_simplified`] says. Any other boundary has its
    /// opposite references cancelled, and nothing is asked or changed.
    pub open spec fn boundary_simplified<G: ManifoldSpace>(
        &self,
        before: &ShapeArena,
        after: &Recorded<G>,
        earlier: &Recorded<G>,
        ndim: u8,
        manifold: ManifoldId,
        boundary: Set<ShapeRef>,
        r: Result<ShapeSet, CutError>,
    ) -> bool {
        if ndim == 1 {
            self.line_simplified(before, after, earlier, boundary, manifold, r)
        } else {
            &&& r matches Ok(simplified)
            &&& simplified@ == ShapeSet::spec_cancel_opposites(boundary)
            &&& *self == *before
            &&& *after == *earlier
        }
    }

    /// What [`ShapeArena::shape_completely_contains_manifold`] asks and
    /// returns: the boundary elements of the shape are asked in some order,
    /// as [`ShapeArena::contained_in_order`] says, and nothing else is.
    pub open spec fn containment_asked<G: ManifoldSpace>(
        &self,
        after: &Recorded<G>,
        earlier: &Recorded<G>,
        shape: ShapeId,
        manifold: ManifoldId,
        r: Result<bool, CutError>,
    ) -> bool {
        exists|order: Seq<ShapeRef>| #[trigger]
            self.contained_in_order(
                after,
                earlier,
                shape,
                manifold,
                0,
                after.asked_since(earlier),
                order,
                r,
            ) && after.grown_from(earlier)
    }

    /// The intersection shape was added and tagged; `self` is the arena with
    /// it, `before` the arena as it was, `after` and `earlier` the geometry
    /// afterwards and before.
    ///
    /// Some untagged shape on `intersection_manifold` with the boundary
    /// `boundary` is added with `ndim` dimensions, as
    /// [`ShapeArena::added_with_rank`] says, and then has the tags of the
    /// cut. Nothing else is added or changed.
    pub open spec fn intersection_added<G: ManifoldSpace>(
        &self,
        before: &ShapeArena,
        after: &Recorded<G>,
        earlier: &Recorded<G>,
        intersection_manifold: ManifoldId,
        boundary: ShapeSet,
        ndim: u8,
        inside_metadata: Option<ShapeMetadata>,
        outside_metadata: Option<ShapeMetadata>,
        r: Result<ShapeRef, CutError>,
    ) -> bool {
        exists|untagged: ShapeArena|
            {
                &&& #[trigger] untagged.added_with_rank(
                    before,
                    after,
                    earlier,
                    Shape {
                        manifold: intersection_manifold,
                        boundary,
                        positive_metadata: None,
                        negative_metadata: None,
                    },
                    ndim,
                    r,
                )
                &&& match r {
                    Err(_) => *self == untagged,
                    Ok(x) => {
                        &&& self.nodes().dom() == untagged.nodes().dom()
                        &&& forall|id: ShapeId|
                            id != x.id && #[trigger] untagged.contains(id) ==> self.node(id)
                                == untagged.node(id)
                        &&& self.spec_roots() == untagged.spec_roots()
                        &&& self.next_slot() == untagged.next_slot()
                        &&& self.packed() == untagged.packed()
                        &&& self.node(x.id).rank == ndim
                        &&& self.manifold_of(x.id) == intersection_manifold
                        &&& self.node(x.id).shape.boundary == boundary
                        &&& self.metadata_of(x) == inside_metadata
                        &&& self.metadata_of(x.spec_neg()) == outside_metadata
                    },
                }
            }
    }

    /// The intersection shape of the split of the shape `shape` was looked
    /// for, through the states `sought`, and `found` is what came of it;
    /// `before` is the arena as it was, `after` and `earlier` the geometry
    /// afterwards and before.
    ///
    /// With a flush element the one question is for the orientation of its
    /// manifold relative to `intersection_manifold`. If the two are
    /// different manifolds, `IntersectionMismatch` is returned; otherwise
    /// the element, turned by that orientation taken with its own, is the
    /// intersection shape. Nothing is changed.
    ///
    /// Without one the first question is for the number of dimensions of
    /// `intersection_manifold`. The boundary of the intersection is
    /// simplified, as [`ShapeArena::boundary_simplified`] says. If it comes
    /// out empty, the geometry is asked whether the shape contains the whole
    /// of the intersection manifold, as [`ShapeArena::containment_asked`]
    /// says, and there is no intersection shape if it does not. Otherwise
    /// the intersection shape is added, as
    /// [`ShapeArena::intersection_added`] says. The first failure is
    /// returned, and nothing is done after it.
    pub open spec fn intersection_found<G: ManifoldSpace>(
        &self,
        before: &ShapeArena,
        after: &Recorded<G>,
        earlier: &Recorded<G>,
        shape: ShapeId,
        intersection_manifold: ManifoldId,
        intersection_boundary: Set<ShapeRef>,
        flush_child: Option<ShapeRef>,
        inside_metadata: Option<ShapeMetadata>,
        outside_metadata: Option<ShapeMetadata>,
        sought: IntersectionSteps<G>,
        found: Result<Option<ShapeRef>, CutError>,
    ) -> bool {
        match flush_child {
            Some(flush) => {
                &&& *self == *before
                &&& after.grown_from(earlier)
                &&& after.asked_since(earlier) == 1
                &&& after.exchange_since(earlier, 0) matches Exchange::RelativeOrientation {
                    a,
                    b,
                    answer,
                }
                &&& a == before.manifold_of(flush.id)
                &&& b == intersection_manifold
                &&& found == match spec_combine_orientation(answer, flush.sign, Sign::Pos) {
                    Some(turn) => Ok::<Option<ShapeRef>, CutError>(Some(flush.spec_times(turn))),
                    None => Err::<Option<ShapeRef>, CutError>(CutError::IntersectionMismatch),
                }
            },
            None => {
                &&& sought.asked_ndim.grown_from(earlier)
                &&& after.grown_from(&sought.asked_ndim)
                &&& sought.asked_ndim.asked_since(earlier) == 1
                &&& sought.asked_ndim.exchange_since(earlier, 0) matches Exchange::Ndim {
                    manifold,
                    answer,
                }
                &&& manifold == intersection_manifold
                &&& match answer {
                    Err(e) => {
                        &&& found == Err::<Option<ShapeRef>, CutError>(CutError::Geometry(e))
                        &&& *self == *before
                        &&& *after == sought.asked_ndim
                    },
                    Ok(ndim) => {
                        &&& sought.with_simplified.boundary_simplified(
                            before,
                            &sought.asked_simplified,
                            &sought.asked_ndim,
                            ndim,
                            intersection_manifold,
                            intersection_boundary,
                            sought.simplified,
                        )
                        &&& match sought.simplified {
                            Err(e) => {
                                &&& found == Err::<Option<ShapeRef>, CutError>(e)
                                &&& *self == sought.with_simplified
                                &&& *after == sought.asked_simplified
                            },
                            Ok(simplified) => {
                                &&& if simplified@ != Set::<ShapeRef>::empty() {
                                    &&& sought.present == Ok::<bool, CutError>(true)
                                    &&& sought.asked_present == sought.asked_simplified
                                } else {
                                    sought.with_simplified.containment_asked(
                                        &sought.asked_present,
                                        &sought.asked_simplified,
                                        shape,
                                        intersection_manifold,
                                        sought.present,
                                    )
                                }
                                &&& match sought.present {
                                    Err(e) => {
                                        &&& found == Err::<Option<ShapeRef>, CutError>(e)
                                        &&& *self == sought.with_simplified
                                        &&& *after == sought.asked_present
                                    },
                                    Ok(present) => if present {
                                        &&& self.intersection_added(
                                            &sought.with_simplified,
                                            after,
                                            &sought.asked_present,
                                            intersection_manifold,
                                            simplified,
                                            ndim,
                                            inside_metadata,
                                            outside_metadata,
                                            sought.added,
                                        )
                                        &&& found == spec_found(sought.added)
                                    } else {
                                        &&& found == Ok::<Option<ShapeRef>, CutError>(None)
                                        &&& *self == sought.with_simplified
                                        &&& *after == sought.asked_present
                                    },
                                }
                            },
                        }
                    },
                }
            },
        }
    }

    /// Finishing the split of the shape `shape` went through the states
    /// `steps` and gave `r`; `before` is the arena as it was, `after` and
    /// `earlier` the geometry afterwards and before.
    ///
    /// The intersection shape is found, as
    /// [`ShapeArena::intersection_found`] says. The inside part is made of
    /// what [`spec_inside_boundary`] tells, as [`ShapeArena::part_made`]
    /// says, and is absent if that is nothing; then the outside part is made
    /// of what [`spec_outside_boundary`] tells. The first failure is
    /// returned, and nothing is done after it.
    pub open spec fn finish_steps<G: ManifoldSpace>(
        &self,
        before: &ShapeArena,
        after: &Recorded<G>,
        earlier: &Recorded<G>,
        shape: ShapeId,
        intersection_manifold: ManifoldId,
        inside_set: Set<ShapeRef>,
        outside_set: Set<ShapeRef>,
        intersection_boundary: Set<ShapeRef>,
        flush_child: Option<ShapeRef>,
        inside_metadata: Option<ShapeMetadata>,
        outside_metadata: Option<ShapeMetadata>,
        steps: FinishSteps<G>,
        r: Result<ShapeSplit, CutError>,
    ) -> bool {
        &&& after.grown_from(&steps.asked_intersection)
        &&& steps.with_intersection.intersection_found(
            before,
            &steps.asked_intersection,
            earlier,
            shape,
            intersection_manifold,
            intersection_boundary,
            flush_child,
            inside_metadata,
            outside_metadata,
            steps.sought,
            steps.found,
        )
        &&& match steps.found {
            Err(e) => r == Err::<ShapeSplit, CutError>(e) && *self == steps.with_intersection
                && *after == steps.asked_intersection,
            Ok(x) => {
                &&& steps.inside_boundary@ == spec_inside_boundary(inside_set, flush_child, x)
                &&& steps.outside_boundary@ == spec_outside_boundary(outside_set, flush_child, x)
                &&& steps.with_inside.part_made(
                    &steps.with_intersection,
                    &steps.added_inside,
                    &steps.asked_intersection,
                    shape,
                    spec_some_members(steps.inside_boundary),
                    steps.inside,
                )
                &&& match steps.inside {
                    Err(e) => r == Err::<ShapeSplit, CutError>(e) && *self == steps.with_inside
                        && *after == steps.added_inside,
                    Ok(inside) => {
                        &&& self.part_made(
                            &steps.with_inside,
                            after,
                            &steps.added_inside,
                            shape,
                            spec_some_members(steps.outside_boundary),
                            steps.outside,
                        )
                        &&& match steps.outside {
                            Err(e) => r == Err::<ShapeSplit, CutError>(e),
                            Ok(outside) => r == Ok::<ShapeSplit, CutError>(
                                ShapeSplit::NonFlush { inside, outside, intersection_shape: x },
                            ),
                        }
                    },
                }
            },
        }
    }

    /// What [`ShapeArena::finish_split`] asks, makes and returns: the split
    /// is finished through some states as [`ShapeArena::finish_steps`] says.
    pub open spec fn finished_in_steps<G: ManifoldSpace>(
        &self,
        before: &ShapeArena,
        after: &Recorded<G>,
        earlier: &Recorded<G>,
        shape: ShapeId,
        intersection_manifold: ManifoldId,
        inside_set: Set<ShapeRef>,
        outside_set: Set<ShapeRef>,
        intersection_boundary: Set<ShapeRef>,
        flush_child: Option<ShapeRef>,
        inside_metadata: Option<ShapeMetadata>,
        outside_metadata: Option<ShapeMetadata>,
        r: Result<ShapeSplit, CutError>,
    ) -> bool {
        exists|steps: FinishSteps<G>| #[trigger]
            self.finish_steps(
                before,
                after,
                earlier,
                shape,
                intersection_manifold,
                inside_set,
                outside_set,
                intersection_boundary,
                flush_child,
                inside_metadata,
                outside_metadata,
                steps,
                r,
            )
    }

    /// What [`ShapeArena::finish_split`] asks, makes and returns; `before`
    /// is the arena as it was, `after` and `earlier` the geometry afterwards
    /// and before.
    ///
    /// The split is finished through some states, as
    /// [`ShapeArena::finished_in_steps`] says. The first question and what a
    /// failure to answer it gives are as
    /// [`ShapeArena::asks_about_intersection`] says. A flush element is the
    /// intersection shape, turned by the orientation that the geometry told
    /// of its manifold, taken with the orientation of the element. Without
    /// one, and unless the intersection is a line, there is an intersection
    /// shape as [`ShapeArena::intersection_by_answers`] says. A split that
    /// is returned is as [`ShapeArena::finished_split`] says, and its
    /// intersection shape is tagged as [`ShapeArena::intersection_tagged`]
    /// says.
    pub open spec fn split_finished<G: ManifoldSpace>(
        &self,
        before: &ShapeArena,
        after: &Recorded<G>,
        earlier: &Recorded<G>,
        shape: ShapeId,
        intersection_manifold: ManifoldId,
        inside_set: Set<ShapeRef>,
        outside_set: Set<ShapeRef>,
        intersection_boundary: Set<ShapeRef>,
        flush_child: Option<ShapeRef>,
        inside_metadata: Option<ShapeMetadata>,
        outside_metadata: Option<ShapeMetadata>,
        r: Result<ShapeSplit, CutError>,
    ) -> bool {
        &&& before.extended_by(self)
        &&& after.grown_from(earlier)
        &&& self.finished_in_steps(
            before,
            after,
            earlier,
            shape,
            intersection_manifold,
            inside_set,
            outside_set,
            intersection_boundary,
            flush_child,
            inside_metadata,
            outside_metadata,
            r,
        )
        &&& self.asks_about_intersection(
            before,
            after,
            earlier,
            flush_child,
            intersection_manifold,
            spec_failure_of(r),
        )
        &&& r matches Ok(split) ==> {
            &&& self.intersection_tagged(shape, split, inside_metadata, outside_metadata)
            &&& self.finished_split(
                before,
                shape,
                intersection_manifold,
                inside_set,
                outside_set,
                intersection_boundary,
                flush_child,
                inside_metadata,
                outside_metadata,
                split,
            )
        }
        &&& match flush_child {
            Some(flush) => after.exchange_since(earlier, 0) matches Exchange::RelativeOrientation {
                a: _,
                b: _,
                answer,
            } ==> (spec_combine_orientation(answer, flush.sign, Sign::Pos) matches Some(turn) ==> (
            r matches Ok(split) ==> split->intersection_shape == Some(flush.spec_times(turn)))),
            None => after.exchange_since(earlier, 0)->Ndim_answer matches Ok(ndim) ==> (ndim != 1
                ==> Self::intersection_by_answers(
                before,
                after,
                earlier,
                shape,
                intersection_manifold,
                intersection_boundary,
                r,
            )),
        }
    }

    /// Completes the split of a shape of two or more dimensions, once its
    /// boundary elements have been split.
    ///
    /// `inside_set` and `outside_set` hold what the boundary elements leave
    /// on each side, `intersection_boundary` the negated intersections of
    /// those that the divider crosses, and `flush_child` the boundary element
    /// that is flush with the divider, if there is one.
    ///
    /// A flush element is the intersection shape: turned to the orientation
    /// of `intersection_manifold`, it bounds the inside if it had that
    /// orientation and the outside if it had the opposite one. Without one,
    /// the intersection is a new shape, bounded by the simplified
    /// `intersection_boundary`, if that is not empty or if the shape contains
    /// the whole of `intersection_manifold`; it then bounds the inside, and
    /// its negation the outside. Each side whose boundary is not empty
    /// becomes a shape with the manifold of `shape`.
    #[verifier::rlimit(80)]
    pub fn finish_split<G: ManifoldSpace>(
        &mut self,
        geometry: &mut Recorded<G>,
        shape: ShapeId,
        intersection_manifold: ManifoldId,
        inside_set: ShapeSet,
        outside_set: ShapeSet,
        intersection_boundary: ShapeSet,
        flush_child: Option<ShapeRef>,
        inside_metadata: Option<ShapeMetadata>,
        outside_metadata: Option<ShapeMetadata>,
    ) -> (r: Result<ShapeSplit, CutError>)
        requires
            old(self).wf(),
            old(self).contains(shape),
            inside_set.wf(),
            outside_set.wf(),
            intersection_boundary.wf(),
            old(self).holds_all(inside_set@),
            old(self).holds_all(outside_set@),
            old(self).holds_all(intersection_boundary@),
            old(self).holds_option(flush_child),
            flush_child matches Some(child) ==> old(self).boundary_of(shape).contains(child),
        ensures
            final(self).wf(),
            r matches Err(CutError::ArenaFull) ==> final(self).next_slot() > u32::MAX,
            r matches Err(e) ==> e != CutError::MultipleIntersectionShapes,
            old(self).extended_by(final(self)),
            final(self).spec_roots() == old(self).spec_roots(),
            r matches Ok(split) ==> final(self).intersection_tagged(
                shape,
                split,
                inside_metadata,
                outside_metadata,
            ),
            r matches Ok(split) ==> final(self).finished_split(
                old(self),
                shape,
                intersection_manifold,
                inside_set@,
                outside_set@,
                intersection_boundary@,
                flush_child,
                inside_metadata,
                outside_metadata,
                split,
            ),
            final(geometry).grown_from(old(geometry)),
            final(self).split_finished(
                old(self),
                final(geometry),
                old(geometry),
                shape,
                intersection_manifold,
                inside_set@,
                outside_set@,
                intersection_boundary@,
                flush_child,
                inside_metadata,
                outside_metadata,
                r,
            ),
            final(self).asks_about_intersection(
                old(self),
                final(geometry),
                old(geometry),
                flush_child,
                intersection_manifold,
                spec_failure_of(r),
            ),
            flush_child is None ==> (final(geometry).exchange_since(
                old(geometry),
                0,
            )->Ndim_answer matches Ok(ndim) ==> (ndim != 1 ==> Self::intersection_by_answers(
                old(self),
                final(geometry),
                old(geometry),
                shape,
                intersection_manifold,
                intersection_boundary@,
                r,
            ))),
    {
        let ghost mut found: Option<(Seq<ShapeRef>, int, Result<bool, CutError>)> = None;
        let ghost mut asked_containment = *geometry;
        let ghost mut before_containment = *geometry;
        let ghost mut arena_then = *self;
        let ghost mut sought = IntersectionSteps {
            asked_ndim: *geometry,
            simplified: Err(CutError::ArenaFull),
            with_simplified: *self,
            asked_simplified: *geometry,
            present: Err(CutError::ArenaFull),
            asked_present: *geometry,
            added: Err(CutError::ArenaFull),
        };
        let ghost mut steps = FinishSteps {
            sought,
            found: Err(CutError::ArenaFull),
            with_intersection: *self,
            asked_intersection: *geometry,
            inside_boundary: inside_set,
            inside: Err(CutError::ArenaFull),
            with_inside: *self,
            added_inside: *geometry,
            outside_boundary: outside_set,
            outside: Err(CutError::ArenaFull),
        };
        let ghost inside_given = inside_set@;
        let ghost outside_given = outside_set@;
        let ghost boundary_given = intersection_boundary@;
        let mut self_boundary_of_inside = inside_set;
        let mut self_boundary_of_outside = outside_set;
        let intersection_shape: Option<ShapeRef>;

        if let Some(flush) = flush_child {
            // There already exists an intersection shape, so either the
            // inside or the outside of the shape is empty.
            let sign_difference = match self.sign_difference(
                geometry,
                SignedManifold::Shape(flush),
                SignedManifold::Manifold(intersection_manifold),
            ) {
                Some(sign) => sign,
                None => {
                    proof {
                        steps.found = Err(CutError::IntersectionMismatch);
                        steps.asked_intersection = *geometry;
                        assert(self.finish_steps(
                            old(self),
                            geometry,
                            old(geometry),
                            shape,
                            intersection_manifold,
                            inside_set@,
                            outside_set@,
                            intersection_boundary@,
                            flush_child,
                            inside_metadata,
                            outside_metadata,
                            steps,
                            Err(CutError::IntersectionMismatch),
                        ));
                    }
                    return Err(CutError::IntersectionMismatch);
                },
            };
            let oriented = flush.times(sign_difference);
            intersection_shape = Some(oriented);
            match sign_difference {
                Sign::Pos => {
                    let _ = self_boundary_of_inside.insert(oriented);
                    assert(self_boundary_of_inside@.contains(oriented));
                },
                Sign::Neg => {
                    let _ = self_boundary_of_outside.insert(oriented.neg());
                    assert(self_boundary_of_outside@.contains(oriented.spec_neg()));
                },
            }
        } else {
            let answer = geometry.ndim(intersection_manifold);
            proof {
                lemma_asked_once(
                    old(geometry),
                    geometry,
                    Exchange::Ndim { manifold: intersection_manifold, answer },
                );
            }
            proof {
                sought.asked_ndim = *geometry;
                steps.sought = sought;
            }
            let ndim = match answer {
                Ok(ndim) => ndim,
                Err(e) => {
                    proof {
                        steps.found = Err(CutError::Geometry(e));
                        steps.asked_intersection = *geometry;
                        assert(self.finish_steps(
                            old(self),
                            geometry,
                            old(geometry),
                            shape,
                            intersection_manifold,
                            inside_set@,
                            outside_set@,
                            intersection_boundary@,
                            flush_child,
                            inside_metadata,
                            outside_metadata,
                            steps,
                            Err(CutError::Geometry(e)),
                        ));
                    }
                    return Err(CutError::Geometry(e));
                },
            };
            let ghost g1 = *geometry;
            let simplified_set = self.simplify_boundary_of_rank(
                geometry,
                ndim,
                intersection_manifold,
                intersection_boundary,
            );
            proof {
                lemma_first_exchange_kept(old(geometry), &g1, geometry);
            }
            proof {
                sought.simplified = simplified_set;
                sought.with_simplified = *self;
                sought.asked_simplified = *geometry;
                steps.sought = sought;
            }
            let simplified = match simplified_set {
                Ok(simplified) => simplified,
                Err(e) => {
                    proof {
                        steps.found = Err(e);
                        steps.with_intersection = *self;
                        steps.asked_intersection = *geometry;
                        assert(self.finish_steps(
                            old(self),
                            geometry,
                            old(geometry),
                            shape,
                            intersection_manifold,
                            inside_set@,
                            outside_set@,
                            intersection_boundary@,
                            flush_child,
                            inside_metadata,
                            outside_metadata,
                            steps,
                            Err(e),
                        ));
                    }
                    return Err(e);
                },
            };
            let ghost with_simplified = *self;
            let ghost g2 = *geometry;
            proof {
                sought.present = Ok(true);
                sought.asked_present = g2;
                steps.sought = sought;
            }

            // Is the intersection of the shape with the divider nonempty?
            let is_intersection_nonempty = if !simplified.is_empty() {
                // The intersection has a boundary.
                true
            } else {
                // An intersection without boundary is either empty or the
                // whole of the intersection manifold.
                let contained = self.shape_completely_contains_manifold(
                    geometry,
                    shape,
                    intersection_manifold,
                );
                proof {
                    lemma_first_exchange_kept(old(geometry), &g2, geometry);
                    let order = choose|order: Seq<ShapeRef>| #[trigger]
                        self.contained_in_order(
                            geometry,
                            &g2,
                            shape,
                            intersection_manifold,
                            0,
                            geometry.asked_since(&g2),
                            order,
                            contained,
                        );
                    found = Some((order, geometry.asked_since(&g2), contained));
                    asked_containment = *geometry;
                    before_containment = g2;
                    arena_then = *self;
                    if ndim != 1 {
                        lemma_contained_moved(
                            old(self),
                            &arena_then,
                            old(geometry),
                            &before_containment,
                            &asked_containment,
                            geometry,
                            shape,
                            intersection_manifold,
                            found.unwrap().1,
                            found.unwrap().0,
                            contained,
                        );
                    }
                }
                proof {
                    sought.present = contained;
                    sought.asked_present = *geometry;
                    steps.sought = sought;
                }
                match contained {
                    Ok(yes) => yes,
                    Err(e) => {
                        proof {
                            steps.found = Err(e);
                            steps.with_intersection = *self;
                            steps.asked_intersection = *geometry;
                            assert(self.finish_steps(
                                old(self),
                                geometry,
                                old(geometry),
                                shape,
                                intersection_manifold,
                                inside_set@,
                                outside_set@,
                                intersection_boundary@,
                                flush_child,
                                inside_metadata,
                                outside_metadata,
                                steps,
                                Err(e),
                            ));
                        }
                        return Err(e);
                    },
                }
            };
            let ghost g3 = *geometry;
            proof {
                lemma_grown_twice(old(geometry), &g2, &g3);
            }

            if is_intersection_nonempty {
                // Construct the shape that is the intersection.
                let added = self.add_with_rank(
                    geometry,
                    Shape::new(intersection_manifold, simplified),
                    ndim,
                );
                proof {
                    lemma_first_exchange_kept(old(geometry), &g3, geometry);
                    if let Some((order, n, contained)) = found {
                        lemma_grown_twice(&asked_containment, &g3, geometry);
                        lemma_contained_moved(
                            old(self),
                            &arena_then,
                            old(geometry),
                            &before_containment,
                            &asked_containment,
                            geometry,
                            shape,
                            intersection_manifold,
                            n,
                            order,
                            contained,
                        );
                    }
                }
                proof {
                    sought.added = added;
                    steps.sought = sought;
                    steps.found = spec_found(added);
                    steps.with_intersection = *self;
                    steps.asked_intersection = *geometry;
                }
                let ghost made = Shape {
                    manifold: intersection_manifold,
                    boundary: simplified,
                    positive_metadata: None,
                    negative_metadata: None,
                };
                let intersection = match added {
                    Ok(x) => x,
                    Err(e) => {
                        proof {
                            assert(self.added_with_rank(
                                &with_simplified,
                                geometry,
                                &g3,
                                made,
                                ndim,
                                added,
                            ));
                            assert(self.finish_steps(
                                old(self),
                                geometry,
                                old(geometry),
                                shape,
                                intersection_manifold,
                                inside_set@,
                                outside_set@,
                                intersection_boundary@,
                                flush_child,
                                inside_metadata,
                                outside_metadata,
                                steps,
                                Err(e),
                            ));
                        }
                        return Err(e);
                    },
                };
                let ghost untagged = *self;
                self.tag_both(intersection, inside_metadata, outside_metadata);
                proof {
                    assert(untagged.added_with_rank(
                        &with_simplified,
                        geometry,
                        &g3,
                        made,
                        ndim,
                        added,
                    ));
                    assert(self.intersection_added(
                        &with_simplified,
                        geometry,
                        &g3,
                        intersection_manifold,
                        simplified,
                        ndim,
                        inside_metadata,
                        outside_metadata,
                        added,
                    ));
                }
                proof {
                    assert forall|id: ShapeId| #[trigger] with_simplified.contains(id) implies self.contains(
                        id,
                    ) && self.same_shape_at(&with_simplified, id) by {
                        assert(untagged.contains(id));
                    }
                }
                intersection_shape = Some(intersection);

                // It is part of the boundary of the inside and of the
                // boundary of the outside.
                let _ = self_boundary_of_inside.insert(intersection);
                let _ = self_boundary_of_outside.insert(intersection.neg());
                assert(self_boundary_of_inside@.contains(intersection));
                assert(self_boundary_of_outside@.contains(intersection.spec_neg()));
                proof {
                    assert forall|id: ShapeId| #[trigger] old(self).contains(id) implies self.contains(
                        id,
                    ) && self.same_shape_at(old(self), id) by {
                        assert(with_simplified.contains(id));
                    }
                    if old(self).contains(intersection.id) {
                        assert(with_simplified.contains(intersection.id));
                    }
                }
            } else {
                intersection_shape = None;
            }
        }
        let ghost with_intersection = *self;
        proof {
            steps.found = Ok(intersection_shape);
            steps.with_intersection = *self;
            steps.asked_intersection = *geometry;
            steps.inside_boundary = self_boundary_of_inside;
            steps.outside_boundary = self_boundary_of_outside;
            assert(self_boundary_of_inside@ =~= spec_inside_boundary(
                inside_given,
                flush_child,
                intersection_shape,
            ));
            assert(self_boundary_of_outside@ =~= spec_outside_boundary(
                outside_given,
                flush_child,
                intersection_shape,
            ));
            assert(with_intersection.intersection_found(
                old(self),
                geometry,
                old(geometry),
                shape,
                intersection_manifold,
                boundary_given,
                flush_child,
                inside_metadata,
                outside_metadata,
                steps.sought,
                steps.found,
            ));
            assert(old(self).extended_by(&with_intersection));
            assert(with_intersection.contains(shape));
            assert forall|r: ShapeRef| #[trigger]
                self_boundary_of_inside@.contains(r) implies with_intersection.contains(r.id) by {
                if inside_set@.contains(r) {
                    assert(old(self).contains(r.id));
                }
            }
            assert forall|r: ShapeRef| #[trigger]
                self_boundary_of_outside@.contains(r) implies with_intersection.contains(r.id) by {
                if outside_set@.contains(r) {
                    assert(old(self).contains(r.id));
                }
            }
            if inside_set@ != Set::<ShapeRef>::empty() {
                assert(!(inside_set@ =~= Set::<ShapeRef>::empty()));
                let r = choose|r: ShapeRef| inside_set@.contains(r);
                assert(self_boundary_of_inside@.contains(r));
            }
            if outside_set@ != Set::<ShapeRef>::empty() {
                assert(!(outside_set@ =~= Set::<ShapeRef>::empty()));
                let r = choose|r: ShapeRef| outside_set@.contains(r);
                assert(self_boundary_of_outside@.contains(r));
            }
        }

        // The boundaries of the two sides are complete. The manifold of the
        // shape is split by the cut, so a side without boundary is empty.
        let ghost g4 = *geometry;
        let inside_added = if self_boundary_of_inside.is_empty() {
            None
        } else {
            Some(self.add_subshape(geometry, shape, self_boundary_of_inside))
        };
        let ghost g5 = *geometry;
        proof {
            lemma_first_exchange_kept(old(geometry), &g4, &g5);
            if let Some((order, n, contained)) = found {
                lemma_grown_twice(&asked_containment, &g4, &g5);
                lemma_contained_moved(
                    old(self),
                    &arena_then,
                    old(geometry),
                    &before_containment,
                    &asked_containment,
                    &g5,
                    shape,
                    intersection_manifold,
                    n,
                    order,
                    contained,
                );
            }
        }
        proof {
            steps.inside = spec_part_of(inside_added);
            steps.with_inside = *self;
            steps.added_inside = g5;
            assert(steps.with_inside.part_made(
                &steps.with_intersection,
                &steps.added_inside,
                &steps.asked_intersection,
                shape,
                spec_some_members(steps.inside_boundary),
                steps.inside,
            ));
        }
        let inside = match inside_added {
            Some(added) => match added {
                Ok(part) => Some(part),
                Err(e) => {
                    proof {
                        assert(self.finish_steps(
                            old(self),
                            geometry,
                            old(geometry),
                            shape,
                            intersection_manifold,
                            inside_set@,
                            outside_set@,
                            intersection_boundary@,
                            flush_child,
                            inside_metadata,
                            outside_metadata,
                            steps,
                            Err(e),
                        ));
                    }
                    return Err(e);
                },
            },
            None => None,
        };
        let ghost with_inside = *self;
        proof {
            assert(with_inside.contains(shape));
            assert forall|r: ShapeRef| #[trigger]
                self_boundary_of_outside@.contains(r) implies with_inside.contains(r.id) by {
                assert(with_intersection.contains(r.id));
            }
        }
        let outside_added = if self_boundary_of_outside.is_empty() {
            None
        } else {
            Some(self.add_subshape(geometry, shape, self_boundary_of_outside))
        };
        proof {
            lemma_first_exchange_kept(old(geometry), &g5, geometry);
            if let Some((order, n, contained)) = found {
                lemma_grown_twice(&asked_containment, &g5, geometry);
                lemma_contained_moved(
                    old(self),
                    &arena_then,
                    old(geometry),
                    &before_containment,
                    &asked_containment,
                    geometry,
                    shape,
                    intersection_manifold,
                    n,
                    order,
                    contained,
                );
            }
        }
        proof {
            steps.outside = spec_part_of(outside_added);
            assert(self.part_made(
                &steps.with_inside,
                geometry,
                &steps.added_inside,
                shape,
                spec_some_members(steps.outside_boundary),
                steps.outside,
            ));
        }
        let outside = match outside_added {
            Some(added) => match added {
                Ok(part) => Some(part),
                Err(e) => {
                    proof {
                        assert(self.finish_steps(
                            old(self),
                            geometry,
                            old(geometry),
                            shape,
                            intersection_manifold,
                            inside_set@,
                            outside_set@,
                            intersection_boundary@,
                            flush_child,
                            inside_metadata,
                            outside_metadata,
                            steps,
                            Err(e),
                        ));
                    }
                    return Err(e);
                },
            },
            None => None,
        };
        proof {
            assert(self.finish_steps(
                old(self),
                geometry,
                old(geometry),
                shape,
                intersection_manifold,
                inside_set@,
                outside_set@,
                intersection_boundary@,
                flush_child,
                inside_metadata,
                outside_metadata,
                steps,
                Ok(ShapeSplit::NonFlush { inside, outside, intersection_shape }),
            ));
        }
        proof {
            assert forall|id: ShapeId| #[trigger] old(self).contains(id) implies self.contains(id)
                && self.same_shape_at(old(self), id) by {
                assert(with_intersection.contains(id));
                assert(with_inside.contains(id));
            }
            if let Some(s) = intersection_shape {
                assert(with_intersection.contains(s.id));
                assert(with_inside.contains(s.id));
                assert(self.same_shape_at(&with_inside, s.id));
                assert(with_inside.same_shape_at(&with_intersection, s.id));
            }
            if let Some(s) = inside {
                assert(with_inside.contains(s.id));
            }
        }
        proof {
            if let Some(x) = intersection_shape {
                assert(with_intersection.contains(x.id));
                assert(with_inside.contains(x.id));
                assert(self.node(x.id) == with_intersection.node(x.id));
                assert(self.node(shape) == old(self).node(shape));
                if let Some(flush) = flush_child {
                    assert(self.boundary_of(shape).contains(
                        ShapeRef { id: x.id, sign: flush.sign },
                    ));
                }
            }
        }
        Ok(ShapeSplit::NonFlush { inside, outside, intersection_shape })
    }

    /// What [`ShapeArena::split_general`] makes of the split of the shape
    /// `shape`, seen in the arena and the operation afterwards; `before` is
    /// the arena as it was.
    ///
    /// Either a boundary element whose manifold is wholly on one side shows
    /// that the cut misses the shape, which is then whole on that side. Or
    /// every boundary element has been split, and the split is finished, as
    /// [`ShapeArena::finished_split`] says, from what the boundary elements
    /// give to each side and from the one of them that is flush, if any.
    pub open spec fn general_split(
        &self,
        before: &ShapeArena,
        op: &SliceOperation,
        shape: ShapeId,
        intersection_manifold: ManifoldId,
        split: ShapeSplit,
    ) -> bool {
        let children = before.boundary_of(shape);
        ||| exists|c: ShapeRef|
            {
                &&& #[trigger] children.contains(c)
                &&& op.has_result(c.id)
                &&& {
                    ||| op.result_of(c.id) is ManifoldInside && split
                        == ShapeSplit::spec_unsplit_whole(shape, true)
                    ||| op.result_of(c.id) is ManifoldOutside && split
                        == ShapeSplit::spec_unsplit_whole(shape, false)
                }
            }
        ||| {
            &&& forall|c: ShapeRef| #[trigger] children.contains(c) ==> op.has_result(c.id)
            &&& exists|flush: Option<ShapeRef>|
                {
                    &&& op.flush_among(children, flush)
                    &&& #[trigger] self.finished_split(
                        before,
                        shape,
                        intersection_manifold,
                        op.parts(Side::Inside, children),
                        op.parts(Side::Outside, children),
                        op.parts(Side::Intersection, children),
                        flush,
                        op.spec_inside_metadata(),
                        op.spec_outside_metadata(),
                        split,
                    )
                }
        }
    }

    /// Splits a shape that is no edge, where the divider crosses its
    /// manifold at `intersection_manifold`.
    ///
    /// Every boundary element is split first. One that is flush with the
    /// divider is the intersection shape; a second one is an error. One whose
    /// manifold is wholly on one side bounds that side, unless no part of
    /// `intersection_manifold` is inside it: then the cut misses the shape,
    /// which is returned whole on that side. One that the divider crosses
    /// gives its parts to the two sides and its intersection, negated, to the
    /// boundary of the intersection. [`ShapeArena::finish_split`] does the
    /// rest.
    #[verifier::rlimit(80)]
    pub fn split_general<G: ManifoldSpace>(
        &mut self,
        geometry: &mut Recorded<G>,
        shape: ShapeId,
        intersection_manifold: ManifoldId,
        slice_op: &mut SliceOperation,
    ) -> (r: Result<ShapeSplit, CutError>)
        requires
            old(self).wf(),
            old(slice_op).valid_for(old(self)),
            old(self).contains(shape),
        ensures
            final(self).wf(),
            r matches Err(CutError::ArenaFull) ==> final(self).next_slot() > u32::MAX,
            r == Err::<ShapeSplit, CutError>(CutError::MultipleIntersectionShapes) ==> final(slice_op).found_two_flush(final(self)),
            old(self).extended_by(final(self)),
            final(self).spec_roots() == old(self).spec_roots(),
            old(slice_op).extended_by(final(slice_op)),
            r matches Ok(split) ==> {
                &&& final(slice_op).valid_for(final(self))
                &&& final(self).holds_split_of(shape, split)
                &&& split is NonFlush
                &&& final(self).intersection_tagged(
                    shape,
                    split,
                    old(slice_op).spec_inside_metadata(),
                    old(slice_op).spec_outside_metadata(),
                )
                &&& final(self).general_split(
                    old(self),
                    final(slice_op),
                    shape,
                    intersection_manifold,
                    split,
                )
            },
            old(self).boundary_of(shape) == Set::<ShapeRef>::empty() ==> final(slice_op).results()
                == old(slice_op).results() && final(self).asks_ndim_first(
                old(self),
                final(geometry),
                old(geometry),
                intersection_manifold,
                spec_failure_of(r),
            ),
            final(geometry).grown_from(old(geometry)),
            Self::general_split_in_steps(
                Cutting { arena: *old(self), geometry: *old(geometry), op: *old(slice_op) },
                Cutting { arena: *final(self), geometry: *final(geometry), op: *final(slice_op) },
                shape,
                intersection_manifold,
                r,
            ),
        decreases old(self).rank_of(shape), 0int,
    {
        assert(self.bounded_within(shape));
        // Shapes of one dimension less that together bound the inside.
        let mut self_boundary_of_inside = ShapeSet::new();
        // Shapes of one dimension less that together bound the outside.
        let mut self_boundary_of_outside = ShapeSet::new();
        // Shapes of two dimensions less that together bound the intersection.
        let mut intersection_boundary = ShapeSet::new();
        // Boundary element that is the intersection.
        let mut flush_child: Option<ShapeRef> = None;

        // Split each of the shapes that bound `shape`.
        let children = self.shape(shape).boundary.to_vec();
        proof {
            if children.len() > 0 {
                assert(children@.contains(children[0]));
            }
            assert(self_boundary_of_inside@ =~= collected(Side::Inside, children@, slice_op, 0));
            assert(self_boundary_of_outside@ =~= collected(Side::Outside, children@, slice_op, 0));
            assert(intersection_boundary@ =~= collected(
                Side::Intersection,
                children@,
                slice_op,
                0,
            ));
        }
        let ghost start = Cutting { arena: *old(self), geometry: *old(geometry), op: *old(slice_op) };
        let ghost mut steps: Seq<ChildCut<G>> = seq![
            ChildCut {
                arena: *old(self),
                geometry: *old(geometry),
                op: *old(slice_op),
                middle: *old(geometry),
                result: Ok(ShapeSplit::Flush),
                flush: None,
                stop: None,
            },
        ];
        let mut i: usize = 0;
        while i < children.len()
            invariant
                start == (Cutting {
                    arena: *old(self),
                    geometry: *old(geometry),
                    op: *old(slice_op),
                }),
                steps.len() == i + 1,
                Self::children_cut_so_far(start, shape, intersection_manifold, children@, steps),
                steps[i as int].stop is None,
                steps[i as int].arena == *self,
                steps[i as int].geometry == *geometry,
                steps[i as int].op == *slice_op,
                steps[i as int].flush == flush_child,
                self.wf(),
                old(self).extended_by(self),
                self.spec_roots() == old(self).spec_roots(),
                old(slice_op).extended_by(slice_op),
                slice_op.valid_for(self),
                old(self).contains(shape),
                old(self).bounded_within(shape),
                forall|r: ShapeRef| children@.contains(r) <==> old(self).boundary_of(shape).contains(r),
                self_boundary_of_inside.wf(),
                self_boundary_of_outside.wf(),
                intersection_boundary.wf(),
                self.holds_all(self_boundary_of_inside@),
                self.holds_all(self_boundary_of_outside@),
                self.holds_all(intersection_boundary@),
                self.holds_option(flush_child),
                i <= children.len(),
                old(self).boundary_of(shape) == Set::<ShapeRef>::empty() ==> children.len() == 0
                    && slice_op.results() == old(slice_op).results(),
                geometry.grown_from(old(geometry)),
                children.len() == 0 ==> geometry.record() == old(geometry).record() && self.nodes()
                    == old(self).nodes(),
                forall|j: int| 0 <= j < i ==> slice_op.has_result((#[trigger] children[j]).id),
                self_boundary_of_inside@ == collected(Side::Inside, children@, slice_op, i as int),
                self_boundary_of_outside@ == collected(Side::Outside, children@, slice_op, i as int),
                intersection_boundary@ == collected(
                    Side::Intersection,
                    children@,
                    slice_op,
                    i as int,
                ),
                match flush_child {
                    Some(f) => children@.contains(f) && slice_op.has_result(f.id)
                        && slice_op.result_of(f.id) is Flush && forall|j: int|
                        0 <= j < i && slice_op.result_of((#[trigger] children[j]).id) is Flush
                            ==> children[j] == f,
                    None => forall|j: int|
                        0 <= j < i ==> !(slice_op.result_of((#[trigger] children[j]).id) is Flush),
                },
                children@.no_duplicates(),
                flush_child matches Some(f) ==> (exists|k: int| 0 <= k < i && children[k] == f)
                    && slice_op.has_result(f.id) && slice_op.result_of(f.id) is Flush,
            decreases children.len() - i,
        {
            let child = children[i];
            assert(children@.contains(child));
            assert(old(self).boundary_of(shape).contains(child));
            assert(old(self).contains(child.id));
            assert(self.contains(child.id));
            assert(self.contains(shape));
            let ghost before = *self;
            let ghost op_before = *slice_op;
            let ghost g0 = *geometry;
            let child_outcome = self.cut_shape(geometry, child, slice_op);
            let ghost g1 = *geometry;
            proof {
                lemma_grown_twice(old(geometry), &g0, &g1);
            }
            proof {
                assert(old(self).rank_of(child.id) < old(self).rank_of(shape));
                assert(before.node(child.id) == old(self).node(child.id));
                assert(before.node(shape) == old(self).node(shape));
            }
            let child_result = match child_outcome {
                Ok(child_result) => child_result,
                Err(e) => {
                    proof {
                        let next = ChildCut {
                            arena: *self,
                            geometry: g1,
                            op: *slice_op,
                            middle: g1,
                            result: child_outcome,
                            flush: flush_child,
                            stop: Some(Err(e)),
                        };
                        Self::lemma_child_cut(
                            start,
                            shape,
                            intersection_manifold,
                            children@,
                            steps,
                            next,
                        );
                        Self::lemma_split_stopped(
                            start,
                            Cutting { arena: *self, geometry: *geometry, op: *slice_op },
                            shape,
                            intersection_manifold,
                            children@,
                            steps.push(next),
                            Err(e),
                        );
                    }
                    return Err(e);
                },
            };
            proof {
                assert(before.extended_by(self));
                assert forall|r: ShapeRef| #[trigger]
                    self_boundary_of_inside@.contains(r) implies self.contains(r.id) by {
                    assert(before.contains(r.id));
                }
                assert forall|r: ShapeRef| #[trigger]
                    self_boundary_of_outside@.contains(r) implies self.contains(r.id) by {
                    assert(before.contains(r.id));
                }
                assert forall|r: ShapeRef| #[trigger]
                    intersection_boundary@.contains(r) implies self.contains(r.id) by {
                    assert(before.contains(r.id));
                }
                if let Some(f) = flush_child {
                    assert(before.contains(f.id));
                    assert(op_before.has_result(f.id));
                }
                assert(before.contains(child.id));
                assert(before.contains(shape));
                lemma_recorded_results_stay(&op_before, slice_op, children@, i as int);
            }
            let ghost result = slice_op.result_of(child.id);
            let ghost inside_before = self_boundary_of_inside@;
            let ghost outside_before = self_boundary_of_outside@;
            let ghost intersection_before = intersection_boundary@;
            match child_result {
                ShapeSplit::Flush => {
                    if flush_child.is_some() {
                        proof {
                            let first = flush_child.unwrap();
                            assert(first != child);
                            assert(old(self).boundary_of(shape).contains(first));
                            assert(old(self).boundary_of(shape).contains(child));
                            assert(self.node(shape) == old(self).node(shape));
                            assert(slice_op.flush_pair(self, shape, first, child));
                            let next = ChildCut {
                                arena: *self,
                                geometry: g1,
                                op: *slice_op,
                                middle: g1,
                                result: child_outcome,
                                flush: flush_child,
                                stop: Some(Err(CutError::MultipleIntersectionShapes)),
                            };
                            Self::lemma_child_cut(
                                start,
                                shape,
                                intersection_manifold,
                                children@,
                                steps,
                                next,
                            );
                            Self::lemma_split_stopped(
                                start,
                                Cutting { arena: *self, geometry: *geometry, op: *slice_op },
                                shape,
                                intersection_manifold,
                                children@,
                                steps.push(next),
                                Err(CutError::MultipleIntersectionShapes),
                            );
                        }
                        return Err(CutError::MultipleIntersectionShapes);
                    }
                    flush_child = Some(child);
                    assert(children[i as int] == child);
                },
                ShapeSplit::ManifoldInside | ShapeSplit::ManifoldOutside => {
                    let is_inside = match child_result {
                        ShapeSplit::ManifoldInside => true,
                        _ => false,
                    };
                    let child_manifold = self.shape(child.id).manifold;
                    let shape_manifold = self.shape(shape).manifold;
                    let side = geometry.which_side(
                        intersection_manifold,
                        child_manifold,
                        shape_manifold,
                    );
                    proof {
                        lemma_asked_once(
                            &g1,
                            geometry,
                            Exchange::WhichSide {
                                manifold: intersection_manifold,
                                cut: child_manifold,
                                ambient: shape_manifold,
                                answer: side,
                            },
                        );
                        lemma_grown_twice(old(geometry), &g1, geometry);
                    }
                    proof {
                        assert(child_manifold == before.manifold_of(child.id));
                        assert(shape_manifold == before.manifold_of(shape));
                    }
                    let result = match side {
                        Ok(side) => side.times(child.sign),
                        Err(e) => {
                            proof {
                                let next = ChildCut {
                                    arena: *self,
                                    geometry: *geometry,
                                    op: *slice_op,
                                    middle: g1,
                                    result: child_outcome,
                                    flush: flush_child,
                                    stop: Some(Err(CutError::Geometry(e))),
                                };
                                Self::lemma_child_cut(
                                    start,
                                    shape,
                                    intersection_manifold,
                                    children@,
                                    steps,
                                    next,
                                );
                                Self::lemma_split_stopped(
                                    start,
                                    Cutting { arena: *self, geometry: *geometry, op: *slice_op },
                                    shape,
                                    intersection_manifold,
                                    children@,
                                    steps.push(next),
                                    Err(CutError::Geometry(e)),
                                );
                            }
                            return Err(CutError::Geometry(e));
                        },
                    };
                    // Is any part of the cut on the inside of `child`?
                    if result.is_any_inside {
                        if is_inside {
                            let _ = self_boundary_of_inside.insert(child);
                        } else {
                            let _ = self_boundary_of_outside.insert(child);
                        }
                    } else {
                        // The child completely excludes the cut.
                        proof {
                            lemma_holds_split_of_extension(
                                self,
                                self,
                                shape,
                                ShapeSplit::spec_unsplit_whole(shape, is_inside),
                            );
                            let next = ChildCut {
                                arena: *self,
                                geometry: *geometry,
                                op: *slice_op,
                                middle: g1,
                                result: child_outcome,
                                flush: flush_child,
                                stop: Some(Ok(ShapeSplit::spec_unsplit_whole(shape, is_inside))),
                            };
                            Self::lemma_child_cut(
                                start,
                                shape,
                                intersection_manifold,
                                children@,
                                steps,
                                next,
                            );
                            Self::lemma_split_stopped(
                                start,
                                Cutting { arena: *self, geometry: *geometry, op: *slice_op },
                                shape,
                                intersection_manifold,
                                children@,
                                steps.push(next),
                                Ok(ShapeSplit::spec_unsplit_whole(shape, is_inside)),
                            );
                        }
                        return Ok(ShapeSplit::unsplit_whole(shape, is_inside));
                    }
                },
                ShapeSplit::NonFlush { inside, outside, intersection_shape } => {
                    self_boundary_of_inside.extend(inside);
                    self_boundary_of_outside.extend(outside);
                    intersection_boundary.extend(crate::split::neg_option(intersection_shape));
                },
            }
            proof {
                assert(child_result == result.spec_times(child.sign));
                assert forall|r: ShapeRef|
                    self_boundary_of_inside@.contains(r) <==> inside_before.contains(r) || gives(
                        Side::Inside,
                        child,
                        result,
                        r,
                    ) by {}
                assert forall|r: ShapeRef|
                    self_boundary_of_outside@.contains(r) <==> outside_before.contains(r) || gives(
                        Side::Outside,
                        child,
                        result,
                        r,
                    ) by {}
                assert forall|r: ShapeRef|
                    intersection_boundary@.contains(r) <==> intersection_before.contains(r)
                        || gives(Side::Intersection, child, result, r) by {}
                lemma_collect_step(
                    Side::Inside,
                    &op_before,
                    slice_op,
                    children@,
                    i as int,
                    inside_before,
                    self_boundary_of_inside@,
                );
                lemma_collect_step(
                    Side::Outside,
                    &op_before,
                    slice_op,
                    children@,
                    i as int,
                    outside_before,
                    self_boundary_of_outside@,
                );
                lemma_collect_step(
                    Side::Intersection,
                    &op_before,
                    slice_op,
                    children@,
                    i as int,
                    intersection_before,
                    intersection_boundary@,
                );
                let next = ChildCut {
                    arena: *self,
                    geometry: *geometry,
                    op: *slice_op,
                    middle: g1,
                    result: child_outcome,
                    flush: flush_child,
                    stop: None,
                };
                Self::lemma_child_cut(start, shape, intersection_manifold, children@, steps, next);
                steps = steps.push(next);
            }
            i += 1;
        }
        assert(self.contains(shape));
        let ghost before = *self;
        let ghost asked_children = *geometry;
        let r = self.finish_split(
            geometry,
            shape,
            intersection_manifold,
            self_boundary_of_inside,
            self_boundary_of_outside,
            intersection_boundary,
            flush_child,
            slice_op.inside_metadata(),
            slice_op.outside_metadata(),
        );
        proof {
            lemma_grown_twice(old(geometry), &asked_children, geometry);
            lemma_valid_for_extension(slice_op, &before, self);
            let kids = old(self).boundary_of(shape);
            lemma_collected_all(Side::Inside, slice_op, children@, kids);
            lemma_collected_all(Side::Outside, slice_op, children@, kids);
            lemma_collected_all(Side::Intersection, slice_op, children@, kids);
            Self::lemma_split_done(
                start,
                Cutting { arena: *self, geometry: *geometry, op: *slice_op },
                shape,
                intersection_manifold,
                children@,
                steps,
                r,
            );
            if let Ok(split) = r {
                assert forall|c: ShapeRef| #[trigger] kids.contains(c) implies slice_op.has_result(
                    c.id,
                ) by {
                    assert(children@.contains(c));
                    let j = choose|j: int| 0 <= j < children.len() && children[j] == c;
                    assert(slice_op.has_result(children[j].id));
                }
                match flush_child {
                    None => {
                        assert forall|c: ShapeRef| #[trigger] kids.contains(c) implies !(
                        slice_op.result_of(c.id) is Flush) by {
                            assert(children@.contains(c));
                            let j = choose|j: int| 0 <= j < children.len() && children[j] == c;
                            assert(!(slice_op.result_of(children[j].id) is Flush));
                        }
                    },
                    Some(f) => {
                        assert forall|c: ShapeRef| #[trigger]
                            kids.contains(c) && slice_op.result_of(c.id) is Flush implies c
                            == f by {
                            assert(children@.contains(c));
                            let j = choose|j: int| 0 <= j < children.len() && children[j] == c;
                            assert(slice_op.result_of(children[j].id) is Flush);
                        }
                    },
                }
                assert(slice_op.flush_among(kids, flush_child));
                if let ShapeSplit::NonFlush { inside, outside, intersection_shape } = split {
                    if let Some(s) = intersection_shape {
                        if old(self).contains(s.id) {
                            assert(before.contains(s.id));
                        }
                    }
                }
                assert(self.finished_split(
                    old(self),
                    shape,
                    intersection_manifold,
                    slice_op.parts(Side::Inside, kids),
                    slice_op.parts(Side::Outside, kids),
                    slice_op.parts(Side::Intersection, kids),
                    flush_child,
                    slice_op.spec_inside_metadata(),
                    slice_op.spec_outside_metadata(),
                    split,
                ));
            }
        }
        r
    }

    /// The boundary elements of the shape `shape` were cut one after the
    /// other, in the order `order`, as far as `steps` tells, and none of them
    /// but the last has ended the split.
    pub open spec fn children_cut_so_far<G: ManifoldSpace>(
        before: Cutting<G>,
        shape: ShapeId,
        intersection_manifold: ManifoldId,
        order: Seq<ShapeRef>,
        steps: Seq<ChildCut<G>>,
    ) -> bool {
        &&& Self::children_begun(before, shape, order, steps)
        &&& forall|k: int|
            0 <= k < steps.len() - 1 ==> (#[trigger] steps[k]).stop is None
                && steps[k].arena.rank_of(shape) == before.arena.rank_of(shape)
                && Self::child_cut(steps[k], steps[k + 1], shape, order[k], intersection_manifold)
    }

    /// A split that has come through some boundary elements goes on by one.
    proof fn lemma_child_cut<G: ManifoldSpace>(
        before: Cutting<G>,
        shape: ShapeId,
        intersection_manifold: ManifoldId,
        order: Seq<ShapeRef>,
        steps: Seq<ChildCut<G>>,
        next: ChildCut<G>,
    )
        requires
            Self::children_cut_so_far(before, shape, intersection_manifold, order, steps),
            steps.len() <= order.len(),
            steps[steps.len() - 1].stop is None,
            steps[steps.len() - 1].arena.rank_of(shape) == before.arena.rank_of(shape),
            Self::child_cut(
                steps[steps.len() - 1],
                next,
                shape,
                order[steps.len() - 1],
                intersection_manifold,
            ),
        ensures
            Self::children_cut_so_far(
                before,
                shape,
                intersection_manifold,
                order,
                steps.push(next),
            ),
    {
        let more = steps.push(next);
        assert forall|k: int| 0 <= k < more.len() - 1 implies (#[trigger] more[k]).stop is None
            && more[k].arena.rank_of(shape) == before.arena.rank_of(shape) && Self::child_cut(
            more[k],
            more[k + 1],
            shape,
            order[k],
            intersection_manifold,
        ) by {
            if k < steps.len() - 1 {
                assert(steps[k].stop is None);
                assert(more[k + 1] == steps[k + 1]);
            }
        }
    }

    /// A split that a boundary element has ended is a split through the
    /// boundary elements.
    proof fn lemma_split_stopped<G: ManifoldSpace>(
        before: Cutting<G>,
        after: Cutting<G>,
        shape: ShapeId,
        intersection_manifold: ManifoldId,
        order: Seq<ShapeRef>,
        steps: Seq<ChildCut<G>>,
        r: Result<ShapeSplit, CutError>,
    )
        requires
            Self::children_cut_so_far(before, shape, intersection_manifold, order, steps),
            steps[steps.len() - 1].stop == Some(r),
            after.arena == steps[steps.len() - 1].arena,
            after.geometry == steps[steps.len() - 1].geometry,
            after.op.same_as(&steps[steps.len() - 1].op),
        ensures
            Self::general_split_in_steps(before, after, shape, intersection_manifold, r),
    {
        assert(Self::children_begun(before, shape, order, steps));
    }

    /// A split that has come through every boundary element and is finished
    /// is a split through the boundary elements.
    proof fn lemma_split_done<G: ManifoldSpace>(
        before: Cutting<G>,
        after: Cutting<G>,
        shape: ShapeId,
        intersection_manifold: ManifoldId,
        order: Seq<ShapeRef>,
        steps: Seq<ChildCut<G>>,
        r: Result<ShapeSplit, CutError>,
    )
        requires
            Self::children_cut_so_far(before, shape, intersection_manifold, order, steps),
            steps.len() == order.len() + 1,
            steps[steps.len() - 1].stop is None,
            after.op.same_as(&steps[steps.len() - 1].op),
            after.arena.split_finished(
                &steps[steps.len() - 1].arena,
                &after.geometry,
                &steps[steps.len() - 1].geometry,
                shape,
                intersection_manifold,
                steps[steps.len() - 1].op.parts(Side::Inside, before.arena.boundary_of(shape)),
                steps[steps.len() - 1].op.parts(Side::Outside, before.arena.boundary_of(shape)),
                steps[steps.len() - 1].op.parts(
                    Side::Intersection,
                    before.arena.boundary_of(shape),
                ),
                steps[steps.len() - 1].flush,
                steps[steps.len() - 1].op.spec_inside_metadata(),
                steps[steps.len() - 1].op.spec_outside_metadata(),
                r,
            ),
        ensures
            Self::general_split_in_steps(before, after, shape, intersection_manifold, r),
    {
        assert(Self::children_begun(before, shape, order, steps));
    }

    /// Splits a shape whose manifold the geometry has classified against the
    /// divider.
    ///
    /// A manifold that is flush with the divider, inside it or outside it
    /// settles the result, and nothing is changed. A manifold that the
    /// divider crosses is split as an edge if the shape has one dimension,
    /// and through its boundary elements otherwise.
    pub fn cut_shape_classified<G: ManifoldSpace>(
        &mut self,
        geometry: &mut Recorded<G>,
        shape: ShapeId,
        classification: ManifoldSplit,
        slice_op: &mut SliceOperation,
    ) -> (r: Result<ShapeSplit, CutError>)
        requires
            old(self).wf(),
            old(slice_op).valid_for(old(self)),
            old(self).contains(shape),
        ensures
            final(self).wf(),
            r matches Err(CutError::ArenaFull) ==> final(self).next_slot() > u32::MAX,
            r == Err::<ShapeSplit, CutError>(CutError::MultipleIntersectionShapes) ==> final(slice_op).found_two_flush(final(self)),
            old(self).extended_by(final(self)),
            final(self).spec_roots() == old(self).spec_roots(),
            old(slice_op).extended_by(final(slice_op)),
            r matches Ok(split) ==> {
                &&& final(slice_op).valid_for(final(self))
                &&& final(self).holds_split_of(shape, split)
                &&& final(self).intersection_tagged(
                    shape,
                    split,
                    old(slice_op).spec_inside_metadata(),
                    old(slice_op).spec_outside_metadata(),
                )
            },
            ShapeSplit::spec_from_unsplit(classification) matches Some(settled) ==> {
                &&& r == Ok::<ShapeSplit, CutError>(settled)
                &&& final(self).nodes() == old(self).nodes()
                &&& final(slice_op).results() == old(slice_op).results()
                &&& final(geometry).record() == old(geometry).record()
            },
            final(geometry).grown_from(old(geometry)),
            Self::classified_cut(
                Cutting { arena: *old(self), geometry: *old(geometry), op: *old(slice_op) },
                Cutting { arena: *final(self), geometry: *final(geometry), op: *final(slice_op) },
                shape,
                classification,
                r,
            ),
            classification matches ManifoldSplit::Split { intersection_manifold } ==> (old(self).rank_of(shape) == 1 || old(self).boundary_of(shape) == Set::<ShapeRef>::empty()
                ==> final(self).asks_ndim_first(
                old(self),
                final(geometry),
                old(geometry),
                intersection_manifold,
                spec_failure_of(r),
            )),
            classification is Split ==> (r matches Ok(split) ==> split is NonFlush),
            classification matches ManifoldSplit::Split { intersection_manifold } ==> (
            r matches Ok(split) ==> if old(self).rank_of(shape) == 1 {
                final(self).edge_split(
                    old(self),
                    shape,
                    intersection_manifold,
                    old(slice_op).spec_inside_metadata(),
                    old(slice_op).spec_outside_metadata(),
                    split,
                )
            } else {
                final(self).general_split(
                    old(self),
                    final(slice_op),
                    shape,
                    intersection_manifold,
                    split,
                )
            }),
        decreases old(self).rank_of(shape), 1int,
    {
        match classification {
            ManifoldSplit::Split { intersection_manifold } => {
                if self.rank(shape) == 1 {
                    let ghost before = *self;
                    let r = self.split_edge(
                        geometry,
                        shape,
                        intersection_manifold,
                        slice_op.inside_metadata(),
                        slice_op.outside_metadata(),
                    );
                    proof {
                        lemma_valid_for_extension(slice_op, &before, self);
                    }
                    r
                } else {
                    self.split_general(geometry, shape, intersection_manifold, slice_op)
                }
            },
            ManifoldSplit::Flush => Ok(ShapeSplit::Flush),
            ManifoldSplit::Inside => Ok(ShapeSplit::ManifoldInside),
            ManifoldSplit::Outside => Ok(ShapeSplit::ManifoldOutside),
        }
    }

    /// What [`ShapeArena::cut_shape_uncached`] makes of the answer to its
    /// question how the manifold of the shape `shape` lies with respect to
    /// the divider; `before` and `op_before` are the arena and the operation
    /// as they were, `op_after` the operation afterwards, and `asked` the
    /// number of questions that were asked.
    ///
    /// A failure of the geometry is returned. A manifold that is flush with
    /// the divider, inside it or outside it settles the result. In these
    /// cases nothing more is asked, and the arena and the results recorded
    /// are left as they were. A shape whose manifold the divider crosses is
    /// split as an edge if it has one dimension, and through its boundary
    /// elements otherwise.
    pub open spec fn cut_by_answer(
        &self,
        before: &ShapeArena,
        op_before: &SliceOperation,
        op_after: &SliceOperation,
        shape: ShapeId,
        answer: Result<ManifoldSplit, GeometryError>,
        asked: int,
        r: Result<ShapeSplit, CutError>,
    ) -> bool {
        match answer {
            Err(e) => {
                &&& r == Err::<ShapeSplit, CutError>(CutError::Geometry(e))
                &&& asked == 1
                &&& self.nodes() == before.nodes()
                &&& op_after.results() == op_before.results()
            },
            Ok(classification) => match classification {
                ManifoldSplit::Split { intersection_manifold } => r matches Ok(split) ==> if before.rank_of(
                    shape,
                ) == 1 {
                    self.edge_split(
                        before,
                        shape,
                        intersection_manifold,
                        op_before.spec_inside_metadata(),
                        op_before.spec_outside_metadata(),
                        split,
                    )
                } else {
                    self.general_split(before, op_after, shape, intersection_manifold, split)
                },
                _ => {
                    &&& ShapeSplit::spec_from_unsplit(classification) matches Some(settled)
                    &&& r == Ok::<ShapeSplit, CutError>(settled)
                    &&& asked == 1
                    &&& self.nodes() == before.nodes()
                    &&& op_after.results() == op_before.results()
                },
            },
        }
    }

    /// What the answer to the first question of a cut settles, how the
    /// manifold of a shape lies with respect to the divider; `before` is the
    /// arena as it was and `asked` the number of questions that were asked.
    ///
    /// A failure of the geometry is returned. A manifold that is flush with
    /// the divider, inside it or outside it settles the result. In these
    /// cases nothing more is asked and the arena is left as it was.
    pub open spec fn settled_by_answer(
        &self,
        before: &ShapeArena,
        answer: Result<ManifoldSplit, GeometryError>,
        asked: int,
        r: Result<ShapeSplit, CutError>,
    ) -> bool {
        match answer {
            Err(e) => r == Err::<ShapeSplit, CutError>(CutError::Geometry(e)) && asked == 1
                && self.nodes() == before.nodes(),
            Ok(classification) => ShapeSplit::spec_from_unsplit(classification) matches Some(
                settled,
            ) ==> r == Ok::<ShapeSplit, CutError>(settled) && asked == 1 && self.nodes()
                == before.nodes(),
        }
    }

    /// Cuts a shape without caching the result.
    ///
    /// The geometry is asked first how the manifold of the shape lies with
    /// respect to the divider; [`ShapeArena::cut_shape_classified`] does the
    /// rest.
    pub fn cut_shape_uncached<G: ManifoldSpace>(
        &mut self,
        geometry: &mut Recorded<G>,
        shape: ShapeId,
        slice_op: &mut SliceOperation,
    ) -> (r: Result<ShapeSplit, CutError>)
        requires
            old(self).wf(),
            old(slice_op).valid_for(old(self)),
            old(self).contains(shape),
        ensures
            final(self).wf(),
            r matches Err(CutError::ArenaFull) ==> final(self).next_slot() > u32::MAX,
            r == Err::<ShapeSplit, CutError>(CutError::MultipleIntersectionShapes) ==> final(slice_op).found_two_flush(final(self)),
            old(self).extended_by(final(self)),
            final(self).spec_roots() == old(self).spec_roots(),
            old(slice_op).extended_by(final(slice_op)),
            r matches Ok(split) ==> {
                &&& final(slice_op).valid_for(final(self))
                &&& final(self).holds_split_of(shape, split)
                &&& final(self).intersection_tagged(
                    shape,
                    split,
                    old(slice_op).spec_inside_metadata(),
                    old(slice_op).spec_outside_metadata(),
                )
            },
            final(geometry).grown_from(old(geometry)),
            Self::uncached_cut(
                Cutting { arena: *old(self), geometry: *old(geometry), op: *old(slice_op) },
                Cutting { arena: *final(self), geometry: *final(geometry), op: *final(slice_op) },
                shape,
                r,
            ),
            final(geometry).asked_since(old(geometry)) >= 1,
            final(geometry).exchange_since(old(geometry), 0) matches Exchange::Split {
                manifold,
                by,
                ambient,
                answer,
            } && manifold == old(self).manifold_of(shape) && by == old(slice_op).spec_divider()
                && ambient == old(self).spec_space() && final(self).cut_by_answer(
                old(self),
                old(slice_op),
                final(slice_op),
                shape,
                answer,
                final(geometry).asked_since(old(geometry)),
                r,
            ),
        decreases old(self).rank_of(shape), 2int,
    {
        let manifold = self.shape(shape).manifold;
        let divider = slice_op.divider();
        let space = self.space();
        let answer = geometry.split(manifold, divider, space);
        let ghost after_first = *geometry;
        proof {
            lemma_asked_once(
                old(geometry),
                geometry,
                Exchange::Split { manifold, by: divider, ambient: space, answer },
            );
        }
        match answer {
            Ok(classification) => {
                let r = self.cut_shape_classified(geometry, shape, classification, slice_op);
                proof {
                    lemma_first_exchange_kept(old(geometry), &after_first, geometry);
                    assert(after_first.asked_once(
                        old(geometry),
                        geometry.exchange_since(old(geometry), 0),
                    ));
                }
                r
            },
            Err(e) => Err(CutError::Geometry(e)),
        }
    }

    /// Cuts a shape.
    ///
    /// The result is found once for each shape, whatever the orientation of
    /// the reference, and kept in `slice_op`; a reference with negative
    /// orientation gets the negated result. An intersection shape that is new
    /// has the tags of the cut; every part has the tags of the shape; no shape
    /// that was there is changed.
    pub fn cut_shape<G: ManifoldSpace>(
        &mut self,
        geometry: &mut Recorded<G>,
        shape: ShapeRef,
        slice_op: &mut SliceOperation,
    ) -> (r: Result<ShapeSplit, CutError>)
        requires
            old(self).wf(),
            old(slice_op).valid_for(old(self)),
            old(self).contains(shape.id),
        ensures
            final(self).wf(),
            r matches Err(CutError::ArenaFull) ==> final(self).next_slot() > u32::MAX,
            r == Err::<ShapeSplit, CutError>(CutError::MultipleIntersectionShapes) ==> final(slice_op).found_two_flush(final(self)),
            old(self).extended_by(final(self)),
            final(self).spec_roots() == old(self).spec_roots(),
            old(slice_op).extended_by(final(slice_op)),
            r matches Ok(split) ==> {
                &&& final(slice_op).valid_for(final(self))
                &&& final(slice_op).has_result(shape.id)
                &&& split == final(slice_op).result_of(shape.id).spec_times(shape.sign)
                &&& final(self).holds_split_of(shape.id, final(slice_op).result_of(shape.id))
                &&& final(self).holds_split(split)
                &&& final(self).intersection_tagged(
                    shape.id,
                    final(slice_op).result_of(shape.id),
                    old(slice_op).spec_inside_metadata(),
                    old(slice_op).spec_outside_metadata(),
                )
            },
            final(geometry).grown_from(old(geometry)),
            Self::shape_cut(
                Cutting { arena: *old(self), geometry: *old(geometry), op: *old(slice_op) },
                Cutting { arena: *final(self), geometry: *final(geometry), op: *final(slice_op) },
                shape,
                r,
            ),
            !old(slice_op).has_result(shape.id) ==> {
                &&& final(geometry).asked_since(old(geometry)) >= 1
                &&& final(geometry).exchange_since(old(geometry), 0) matches Exchange::Split {
                    manifold,
                    by,
                    ambient,
                    answer,
                }
                &&& manifold == old(self).manifold_of(shape.id)
                &&& by == old(slice_op).spec_divider()
                &&& ambient == old(self).spec_space()
                &&& final(self).settled_by_answer(
                    old(self),
                    answer,
                    final(geometry).asked_since(old(geometry)),
                    r,
                )
            },
            old(slice_op).has_result(shape.id) ==> {
                &&& r is Ok
                &&& final(geometry).record() == old(geometry).record()
                &&& final(slice_op).results() == old(slice_op).results()
                &&& final(self).nodes() == old(self).nodes()
            },
        decreases old(self).rank_of(shape.id), 3int,
    {
        let result = match slice_op.lookup(shape.id) {
            Some(result) => result,
            None => {
                let result = match self.cut_shape_uncached(geometry, shape.id, slice_op) {
                    Ok(result) => result,
                    Err(e) => {
                        proof {
                            assert(slice_op.recorded(
                                slice_op,
                                shape,
                                Err::<ShapeSplit, CutError>(e),
                                Err::<ShapeSplit, CutError>(e),
                            ));
                        }
                        return Err(e);
                    },
                };
                let ghost found = *slice_op;
                slice_op.record(shape.id, result);
                proof {
                    assert(slice_op.recorded(
                        &found,
                        shape,
                        Ok::<ShapeSplit, CutError>(result),
                        Ok::<ShapeSplit, CutError>(result.spec_times(shape.sign)),
                    ));
                    let start = Cutting {
                        arena: *old(self),
                        geometry: *old(geometry),
                        op: *old(slice_op),
                    };
                    let end = Cutting { arena: *self, geometry: *geometry, op: *slice_op };
                    let seen = Ok::<ShapeSplit, CutError>(result.spec_times(shape.sign));
                    let raw = Ok::<ShapeSplit, CutError>(result);
                    assert(end.op.recorded(&found, shape, raw, seen));
                    assert(Self::uncached_cut(
                        start,
                        Cutting { arena: end.arena, geometry: end.geometry, op: found },
                        shape.id,
                        raw,
                    ));
                    assert forall|id: ShapeId| #[trigger] slice_op.has_result(id) implies self.contains(
                        id,
                    ) && self.holds_split_of(id, slice_op.result_of(id))
                        && self.intersection_tagged(
                        id,
                        slice_op.result_of(id),
                        slice_op.spec_inside_metadata(),
                        slice_op.spec_outside_metadata(),
                    ) by {
                        if id.0 == shape.id.0 {
                            assert(id == shape.id);
                        } else {
                            assert(found.has_result(id));
                        }
                    }
                    assert forall|id: ShapeId| #[trigger]
                        old(slice_op).has_result(id) implies slice_op.has_result(id)
                        && slice_op.result_of(id) == old(slice_op).result_of(id) by {
                        assert(found.has_result(id));
                        assert(id.0 != shape.id.0);
                    }
                }
                result
            },
        };
        assert(self.contains(shape.id));
        proof {
            lemma_holds_split_of_extension(self, self, shape.id, result);
            if old(slice_op).has_result(shape.id) {
                if let ShapeSplit::NonFlush { inside, outside, intersection_shape } = result {
                    if let Some(x) = intersection_shape {
                        assert(old(self).contains(x.id));
                    }
                }
            }
        }
        Ok(result.times(shape.sign))
    }

    /// The arena after a cut that succeeded; `before` is the arena as it was
    /// and `op` the operation that made the cut.
    ///
    /// The operation was for the divider and the tags of `params`. It holds
    /// the split of every root, each with an inside or an outside part or
    /// both; each part has the manifold, the number of dimensions and the
    /// tags of its root, and an intersection shape that is no boundary
    /// element of the root has the tags of the cut. The new roots are what
    /// those splits leave, in order.
    pub open spec fn cut_done(
        &self,
        before: &ShapeArena,
        op: &SliceOperation,
        params: CutParams,
    ) -> bool {
        &&& op.spec_divider() == params.cut
        &&& op.spec_inside_metadata() == params.inside.spec_metadata()
        &&& op.spec_outside_metadata() == params.outside.spec_metadata()
        &&& op.valid_for(self)
        &&& forall|i: int|
            0 <= i < before.spec_roots().len() ==> op.has_result(#[trigger] before.spec_roots()[i])
                && op.result_of(before.spec_roots()[i]) is NonFlush
        &&& self.spec_roots() == spec_roots_after(
            Seq::new(before.spec_roots().len(), |i: int| op.result_of(before.spec_roots()[i])),
            params,
        )
    }

    /// Cuts all shapes in the arena.
    ///
    /// Every root is split by the divider. Its inside part becomes a root if
    /// the inside is kept, and so does its outside part if the outside is
    /// kept; the new roots come in the order of the old ones, the inside part
    /// of each before its outside part. A root whose manifold is not crossed
    /// by the divider is an error. Any error leaves the roots as they were,
    /// though shapes made on the way stay in the arena.
    #[verifier::rlimit(80)]
    pub fn cut<G: ManifoldSpace>(&mut self, geometry: &mut Recorded<G>, params: CutParams) -> (r: Result<
        (),
        CutError,
    >)
        requires
            old(self).wf(),
        ensures
            final(self).wf(),
            r matches Err(CutError::ArenaFull) ==> final(self).next_slot() > u32::MAX,
            r == Err::<(), CutError>(CutError::MultipleIntersectionShapes) ==> exists|
                op: SliceOperation,
            | #[trigger] op.found_two_flush(final(self)),
            old(self).extended_by(final(self)),
            r is Err ==> final(self).spec_roots() == old(self).spec_roots(),
            r is Ok ==> exists|op: SliceOperation| #[trigger]
                final(self).cut_done(old(self), &op, params),
            old(self).spec_roots().len() > 0 ==> {
                &&& final(geometry).asked_since(old(geometry)) >= 1
                &&& final(geometry).exchange_since(old(geometry), 0) matches Exchange::Split {
                    manifold,
                    by,
                    ambient,
                    answer,
                }
                &&& manifold == old(self).manifold_of(old(self).spec_roots()[0])
                &&& by == params.cut
                &&& ambient == old(self).spec_space()
                &&& match answer {
                    Err(e) => r == Err::<(), CutError>(CutError::Geometry(e)),
                    Ok(classification) => !(classification is Split) ==> r == Err::<(), CutError>(
                        CutError::RootNotSplit,
                    ),
                }
            },
            old(self).spec_roots().len() == 0 ==> r is Ok && final(self).nodes() == old(self).nodes()
                && final(self).spec_roots().len() == 0 && final(geometry).record() == old(geometry).record(),
            final(geometry).grown_from(old(geometry)),
            final(self).cut_in_steps(old(self), final(geometry), old(geometry), params, r),
    {
        let mut op = SliceOperation::new(params);
        let mut new_roots: Vec<ShapeId> = Vec::new();
        let ghost mut splits: Seq<ShapeSplit> = Seq::empty();
        let old_roots = self.replace_roots(Vec::new());
        let ghost emptied = *self;
        let ghost mut steps: Seq<RootCut<G>> = seq![
            RootCut {
                arena: emptied,
                geometry: *old(geometry),
                op,
                result: Ok(
                    ShapeSplit::NonFlush { inside: None, outside: None, intersection_shape: None },
                ),
            },
        ];
        proof {
            lemma_roots_do_not_matter(old(self), &emptied);
            assert(new_roots@ =~= spec_roots_after(splits, params));
        }
        let mut i: usize = 0;
        while i < old_roots.len()
            invariant
                self.wf(),
                old(self).wf(),
                old(self).extended_by(self),
                self.spec_roots().len() == 0,
                old_roots@ == old(self).spec_roots(),
                op.valid_for(self),
                i <= old_roots.len(),
                splits.len() == i,
                forall|j: int|
                    0 <= j < splits.len() ==> (#[trigger] splits[j]) is NonFlush
                        && self.holds_split_of(old_roots[j], splits[j]),
                forall|j: int|
                    0 <= j < i ==> op.has_result(#[trigger] old_roots[j]) && op.result_of(
                        old_roots[j],
                    ) == splits[j],
                op.spec_divider() == params.cut,
                op.spec_inside_metadata() == params.inside.spec_metadata(),
                op.spec_outside_metadata() == params.outside.spec_metadata(),
                i == 0 ==> geometry.record() == old(geometry).record() && forall|id: ShapeId|
                    !op.has_result(id),
                i > 0 ==> {
                    &&& geometry.asked_since(old(geometry)) >= 1
                    &&& geometry.exchange_since(old(geometry), 0) matches Exchange::Split {
                        manifold,
                        by,
                        ambient,
                        answer: Ok(ManifoldSplit::Split { intersection_manifold: _ }),
                    }
                    &&& manifold == old(self).manifold_of(old(self).spec_roots()[0])
                    &&& by == params.cut
                    &&& ambient == old(self).spec_space()
                },
                new_roots@ == spec_roots_after(splits, params),
                forall|j: int| 0 <= j < new_roots.len() ==> self.contains(#[trigger] new_roots[j]),
                old_roots.len() == 0 ==> self.nodes() == old(self).nodes(),
                geometry.grown_from(old(geometry)),
                old_roots.len() == 0 ==> geometry.record() == old(geometry).record(),
                steps.len() == i + 1,
                Self::roots_cut(old(self), old(geometry), params, steps),
                steps[i as int].arena == *self,
                steps[i as int].geometry == *geometry,
                steps[i as int].op == op,
                steps[i as int].result matches Ok(split) && split is NonFlush,
                forall|j: int| 0 <= j < i ==> (#[trigger] steps[j + 1]).result == Ok::<
                    ShapeSplit,
                    CutError,
                >(splits[j]),
            decreases old_roots.len() - i,
        {
            let root_id = old_roots[i];
            assert(old(self).contains(old(self).spec_roots()[i as int]));
            assert(self.contains(root_id));
            let ghost before = *self;
            let ghost g0 = *geometry;
            let ghost op_before = op;
            let outcome = self.cut_shape(geometry, ShapeRef::from_id(root_id), &mut op);
            proof {
                lemma_grown_twice(old(geometry), &g0, geometry);
                if i > 0 {
                    lemma_first_exchange_kept(old(geometry), &g0, geometry);
                } else {
                    assert(!op_before.has_result(root_id));
                    assert(geometry.exchange_since(old(geometry), 0) == geometry.exchange_since(
                        &g0,
                        0,
                    ));
                    assert(before.manifold_of(root_id) == old(self).manifold_of(
                        old(self).spec_roots()[0],
                    ));
                }
                assert forall|j: int| 0 <= j < i implies op.has_result(#[trigger] old_roots[j])
                    && op.result_of(old_roots[j]) == splits[j] by {
                    assert(op_before.has_result(old_roots[j]));
                }
                assert forall|j: int| 0 <= j < splits.len() implies (#[trigger] splits[j])
                    is NonFlush && self.holds_split_of(old_roots[j], splits[j]) by {
                    assert(old(self).contains(old(self).spec_roots()[j]));
                    assert(before.contains(old_roots[j]));
                    lemma_holds_split_of_extension(&before, self, old_roots[j], splits[j]);
                }
                assert forall|j: int| 0 <= j < new_roots.len() implies self.contains(
                    #[trigger] new_roots[j],
                ) by {
                    assert(before.contains(new_roots[j]));
                }
            }
            let ghost next = RootCut { arena: *self, geometry: *geometry, op, result: outcome };
            let ghost more = steps.push(next);
            proof {
                assert forall|k: int| 0 <= k < more.len() - 1 implies ((#[trigger] more[k]).result matches Ok(
                    split,
                ) && split is NonFlush && Self::shape_cut(
                    Cutting { arena: more[k].arena, geometry: more[k].geometry, op: more[k].op },
                    Cutting {
                        arena: more[k + 1].arena,
                        geometry: more[k + 1].geometry,
                        op: more[k + 1].op,
                    },
                    ShapeRef::spec_from_id(old(self).spec_roots()[k]),
                    more[k + 1].result,
                )) by {
                    if k < steps.len() - 1 {
                        assert(steps[k].result is Ok);
                        assert(more[k + 1] == steps[k + 1]);
                    } else {
                        assert(more[k] == steps[i as int]);
                        assert(more[k + 1] == next);
                    }
                }
                assert(Self::roots_cut(old(self), old(geometry), params, more));
            }
            let collected = match outcome {
                Ok(split) => {
                    let ghost roots_before = new_roots@;
                    let collected = collect_roots(&mut new_roots, split, params);
                    proof {
                        if collected is Ok {
                            let longer = splits.push(split);
                            assert(longer.drop_last() =~= splits);
                            assert(longer.last() == split);
                            splits = longer;
                            assert forall|j: int| 0 <= j < new_roots.len() implies self.contains(
                                #[trigger] new_roots[j],
                            ) by {
                                if j < roots_before.len() {
                                    assert(new_roots[j] == roots_before[j]);
                                }
                            }
                        }
                    }
                    collected
                },
                Err(e) => Err(e),
            };
            if let Err(e) = collected {
                let ghost failed = *self;
                let _ = self.replace_roots(old_roots);
                proof {
                    assert forall|j: int| 0 <= j < self.spec_roots().len() implies failed.contains(
                        #[trigger] self.spec_roots()[j],
                    ) by {
                        assert(old(self).contains(old(self).spec_roots()[j]));
                    }
                    lemma_new_roots(&failed, self);
                    assert forall|id: ShapeId| #[trigger] old(self).contains(id) implies self.contains(
                        id,
                    ) && self.same_shape_at(old(self), id) by {
                        assert(failed.contains(id));
                    }
                    if e == CutError::MultipleIntersectionShapes {
                        lemma_two_flush_stay(&op, &failed, &op, self);
                    }
                    assert(more[more.len() - 1] == next);
                    assert(self.same_but_roots(&next.arena));
                }
                return Err(e);
            }
            proof {
                assert forall|j: int| 0 <= j < i + 1 implies (#[trigger] more[j + 1]).result == Ok::<
                    ShapeSplit,
                    CutError,
                >(splits[j]) by {
                    if j < i {
                        assert(more[j + 1] == steps[j + 1]);
                    }
                }
                steps = more;
            }
            i += 1;
        }
        let ghost cut_done = *self;
        let _ = self.replace_roots(new_roots);
        proof {
            lemma_new_roots(&cut_done, self);
            lemma_valid_for_extension(&op, &cut_done, self);
            assert(splits =~= Seq::new(
                old(self).spec_roots().len(),
                |i: int| op.result_of(old(self).spec_roots()[i]),
            ));
            assert(self.cut_done(old(self), &op, params));
            assert(splits =~= Seq::new(
                old(self).spec_roots().len(),
                |i: int| steps[i + 1].result->Ok_0,
            ));
            assert(self.same_but_roots(&steps[steps.len() - 1].arena));
            assert forall|id: ShapeId| #[trigger] old(self).contains(id) implies self.contains(id)
                && self.same_shape_at(old(self), id) by {
                assert(cut_done.contains(id));
            }
            assert forall|j: int| 0 <= j < splits.len() implies (#[trigger] splits[j]) is NonFlush
                && self.holds_split_of(old(self).spec_roots()[j], splits[j]) by {
                assert(old(self).contains(old(self).spec_roots()[j]));
                assert(cut_done.contains(old_roots[j]));
                lemma_holds_split_of_extension(&cut_done, self, old_roots[j], splits[j]);
            }
        }
        Ok(())
    }
}

/// An arena stays well formed when its roots are taken away, and holds the
/// same shapes.
proof fn lemma_roots_do_not_matter(before: &ShapeArena, after: &ShapeArena)
    requires
        before.wf(),
        after.nodes() == before.nodes(),
        after.spec_space() == before.spec_space(),
        after.spec_checks() == before.spec_checks(),
        after.spec_roots().len() == 0,
    ensures
        after.wf(),
        before.retagged_as(after),
{
    lemma_same_nodes(before, after);
    lemma_new_roots(before, after);
}

/// An arena stays well formed when it is given roots among its shapes.
proof fn lemma_new_roots(before: &ShapeArena, after: &ShapeArena)
    requires
        before.wf(),
        after.nodes() == before.nodes(),
        after.spec_space() == before.spec_space(),
        after.spec_checks() == before.spec_checks(),
        forall|i: int|
            0 <= i < after.spec_roots().len() ==> before.contains(#[trigger] after.spec_roots()[i]),
    ensures
        after.wf(),
        before.retagged_as(after),
{
    lemma_same_nodes(before, after);
    assert forall|id: ShapeId| #[trigger] after.contains(id) implies after.bounded_within(id) by {
        assert(before.contains(id));
        assert(before.bounded_within(id));
        assert forall|r: ShapeRef| #[trigger]
            after.boundary_of(id).contains(r) implies after.contains(r.id) && after.rank_of(r.id)
            + 1 == after.rank_of(id) by {
            assert(before.boundary_of(id).contains(r));
            assert(before.contains(r.id));
        }
    }
}

/// The results recorded for the first `upto` boundary elements are still
/// there, unchanged, in an operation that extends the first.
proof fn lemma_recorded_results_stay(
    before: &SliceOperation,
    after: &SliceOperation,
    children: Seq<ShapeRef>,
    upto: int,
)
    requires
        before.extended_by(after),
        forall|j: int| 0 <= j < upto ==> before.has_result((#[trigger] children[j]).id),
    ensures
        forall|j: int|
            0 <= j < upto ==> after.has_result((#[trigger] children[j]).id) && after.result_of(
                children[j].id,
            ) == before.result_of(children[j].id),
{
    assert forall|j: int| 0 <= j < upto implies after.has_result((#[trigger] children[j]).id)
        && after.result_of(children[j].id) == before.result_of(children[j].id) by {
        assert(before.has_result(children[j].id));
    }
}

/// What the first `upto` boundary elements give to a side does not change
/// when more results are recorded.
proof fn lemma_collected_stays(
    side: Side,
    before: &SliceOperation,
    after: &SliceOperation,
    children: Seq<ShapeRef>,
    upto: int,
)
    requires
        before.extended_by(after),
        forall|j: int| 0 <= j < upto ==> before.has_result((#[trigger] children[j]).id),
    ensures
        collected(side, children, after, upto) == collected(side, children, before, upto),
{
    lemma_recorded_results_stay(before, after, children, upto);
    assert forall|r: ShapeRef|
        collected(side, children, after, upto).contains(r) <==> collected(
            side,
            children,
            before,
            upto,
        ).contains(r) by {
        if collected(side, children, after, upto).contains(r) {
            let j = choose|j: int|
                0 <= j < upto && #[trigger] gives(side, children[j], after.result_of(children[j].id), r);
            assert(after.result_of(children[j].id) == before.result_of(children[j].id));
            assert(gives(side, children[j], before.result_of(children[j].id), r));
        }
        if collected(side, children, before, upto).contains(r) {
            let j = choose|j: int|
                0 <= j < upto && #[trigger] gives(side, children[j], before.result_of(children[j].id), r);
            assert(after.result_of(children[j].id) == before.result_of(children[j].id));
            assert(gives(side, children[j], after.result_of(children[j].id), r));
        }
    }
    assert(collected(side, children, after, upto) =~= collected(side, children, before, upto));
}

/// What the first `upto + 1` boundary elements give to a side is what the
/// first `upto` give and what the next one gives.
proof fn lemma_collected_next(side: Side, op: &SliceOperation, children: Seq<ShapeRef>, upto: int)
    requires
        0 <= upto < children.len(),
    ensures
        forall|r: ShapeRef|
            collected(side, children, op, upto + 1).contains(r) <==> collected(
                side,
                children,
                op,
                upto,
            ).contains(r) || gives(side, children[upto], op.result_of(children[upto].id), r),
{
    assert forall|r: ShapeRef|
        collected(side, children, op, upto + 1).contains(r) <==> collected(
            side,
            children,
            op,
            upto,
        ).contains(r) || gives(side, children[upto], op.result_of(children[upto].id), r) by {
        if collected(side, children, op, upto + 1).contains(r) {
            let j = choose|j: int|
                0 <= j < upto + 1 && #[trigger] gives(side, children[j], op.result_of(children[j].id), r);
            if j < upto {
                assert(collected(side, children, op, upto).contains(r));
            }
        }
        if collected(side, children, op, upto).contains(r) {
            let j = choose|j: int|
                0 <= j < upto && #[trigger] gives(side, children[j], op.result_of(children[j].id), r);
            assert(0 <= j < upto + 1);
        }
    }
}

/// A set that holds what the first `upto` boundary elements give to a side,
/// once it has taken what the next one gives, holds what the first
/// `upto + 1` give.
proof fn lemma_collect_step(
    side: Side,
    before: &SliceOperation,
    after: &SliceOperation,
    children: Seq<ShapeRef>,
    upto: int,
    old_set: Set<ShapeRef>,
    new_set: Set<ShapeRef>,
)
    requires
        0 <= upto < children.len(),
        before.extended_by(after),
        forall|j: int| 0 <= j < upto ==> before.has_result((#[trigger] children[j]).id),
        old_set == collected(side, children, before, upto),
        forall|r: ShapeRef|
            new_set.contains(r) <==> old_set.contains(r) || gives(
                side,
                children[upto],
                after.result_of(children[upto].id),
                r,
            ),
    ensures
        new_set == collected(side, children, after, upto + 1),
{
    lemma_collected_stays(side, before, after, children, upto);
    lemma_collected_next(side, after, children, upto);
    assert forall|r: ShapeRef|
        new_set.contains(r) <==> collected(side, children, after, upto + 1).contains(r) by {
        assert(old_set.contains(r) <==> collected(side, children, after, upto).contains(r));
    }
    assert(new_set =~= collected(side, children, after, upto + 1));
}

/// What all the boundary elements give to a side, taken one by one, is what
/// they give as a set.
proof fn lemma_collected_all(
    side: Side,
    op: &SliceOperation,
    children: Seq<ShapeRef>,
    kids: Set<ShapeRef>,
)
    requires
        forall|r: ShapeRef| children.contains(r) <==> kids.contains(r),
    ensures
        collected(side, children, op, children.len() as int) == op.parts(side, kids),
{
    let all = collected(side, children, op, children.len() as int);
    assert forall|r: ShapeRef| all.contains(r) <==> op.parts(side, kids).contains(r) by {
        if all.contains(r) {
            let j = choose|j: int|
                0 <= j < children.len() && #[trigger] gives(
                    side,
                    children[j],
                    op.result_of(children[j].id),
                    r,
                );
            assert(children.contains(children[j]));
            assert(kids.contains(children[j]));
        }
        if op.parts(side, kids).contains(r) {
            let c = choose|c: ShapeRef|
                kids.contains(c) && #[trigger] gives(side, c, op.result_of(c.id), r);
            assert(children.contains(c));
            let j = choose|j: int| 0 <= j < children.len() && children[j] == c;
            assert(gives(side, children[j], op.result_of(children[j].id), r));
        }
    }
    assert(all =~= op.parts(side, kids));
}

/// What the questions about a shape containing a manifold tell, counted from
/// one state of the geometry and seen in one arena, they tell counted from an
/// earlier state and seen later, in an arena that the other extends.
proof fn lemma_contained_moved<G: ManifoldSpace>(
    arena_before: &ShapeArena,
    arena_then: &ShapeArena,
    earlier: &Recorded<G>,
    before: &Recorded<G>,
    then: &Recorded<G>,
    now: &Recorded<G>,
    shape: ShapeId,
    manifold: ManifoldId,
    n: int,
    order: Seq<ShapeRef>,
    r: Result<bool, CutError>,
)
    requires
        arena_before.wf(),
        arena_before.contains(shape),
        arena_before.extended_by(arena_then),
        before.grown_from(earlier),
        then.grown_from(before),
        now.grown_from(then),
        arena_then.contained_in_order(then, before, shape, manifold, 0, n, order, r),
    ensures
        arena_before.contained_in_order(
            now,
            earlier,
            shape,
            manifold,
            before.asked_since(earlier),
            n,
            order,
            r,
        ),
{
    let shift = before.asked_since(earlier);
    lemma_grown_twice(earlier, before, then);
    lemma_grown_twice(earlier, then, now);
    assert(arena_before.bounded_within(shape));
    assert(arena_then.node(shape) == arena_before.node(shape));
    assert forall|k: int| 0 <= k < n implies now.exchange_since(earlier, shift + k)
        == then.exchange_since(before, k) by {
        assert(then.exchange_since(earlier, shift + k) == then.exchange_since(before, k));
        assert(now.exchange_since(earlier, shift + k) == then.exchange_since(earlier, shift + k));
    }
    assert forall|k: int| 0 <= k < n implies #[trigger] arena_before.asked_element_side(
        now,
        earlier,
        shift + k,
        shape,
        manifold,
        order[k],
    ) by {
        assert(arena_then.asked_element_side(then, before, 0 + k, shape, manifold, order[k]));
        assert(order.contains(order[k]));
        assert(arena_before.boundary_of(shape).contains(order[k]));
        assert(arena_before.contains(order[k].id));
        assert(arena_then.node(order[k].id) == arena_before.node(order[k].id));
    }
    assert forall|k: int| 0 <= k < n - 1 implies #[trigger] ShapeArena::element_lets_in(
        now,
        earlier,
        shift + k,
        order[k],
    ) by {
        assert(ShapeArena::element_lets_in(then, before, 0 + k, order[k]));
    }
    if n >= 1 {
        assert(now.exchange_since(earlier, shift + (n - 1)) == then.exchange_since(before, n - 1));
    }
}

/// Two flush boundary elements that were found stay found while the arena and
/// the operation go on.
proof fn lemma_two_flush_stay(
    op: &SliceOperation,
    arena: &ShapeArena,
    later_op: &SliceOperation,
    later: &ShapeArena,
)
    requires
        op.found_two_flush(arena),
        op.extended_by(later_op),
        arena.extended_by(later),
    ensures
        later_op.found_two_flush(later),
{
    let (whole, a, b) = choose|whole: ShapeId, a: ShapeRef, b: ShapeRef| #[trigger]
        op.flush_pair(arena, whole, a, b);
    assert(later.node(whole) == arena.node(whole));
    assert(op.has_result(a.id));
    assert(op.has_result(b.id));
    assert(later_op.flush_pair(later, whole, a, b));
}

} // verus!
