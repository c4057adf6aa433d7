//! Whether a point belongs to a shape.

use vstd::prelude::*;
use crate::record::{lemma_asked_once, lemma_first_stays, lemma_grown_twice, Exchange, Recorded};
use crate::arena::ShapeArena;
use crate::manifold::{GeometryError, ManifoldSpace, PointId, PointWhichSide};
use crate::sign::{ShapeId, ShapeRef};
use crate::split::CutError;

verus! {

/// What one boundary element tells about a point of the manifold of a shape.
#[derive(Debug, Clone, Copy, PartialEq, Eq, Structural)]
pub enum BoundaryVerdict {
    /// The point is not in the shape.
    Reject,
    /// This element does not exclude the point; the next one is asked.
    Pass,
    /// The point is on this element: it is in the shape if and only if it is
    /// in the element.
    Descend,
}

/// What a boundary element tells about a point on the given side of it, the
/// side being taken with the orientation of the element. A point on the
/// element belongs to the shape with its boundary, but not to its interior.
pub open spec fn spec_boundary_verdict(side: PointWhichSide, interior_only: bool) -> BoundaryVerdict {
    match side {
        PointWhichSide::On => if interior_only {
            BoundaryVerdict::Reject
        } else {
            BoundaryVerdict::Descend
        },
        PointWhichSide::Inside => BoundaryVerdict::Pass,
        PointWhichSide::Outside => BoundaryVerdict::Reject,
    }
}

/// Returns what a boundary element tells about a point on the given side of
/// it.
pub fn boundary_verdict(side: PointWhichSide, interior_only: bool) -> (verdict: BoundaryVerdict)
    ensures
        verdict == spec_boundary_verdict(side, interior_only),
{
    match side {
        PointWhichSide::On => if interior_only {
            BoundaryVerdict::Reject
        } else {
            BoundaryVerdict::Descend
        },
        PointWhichSide::Inside => BoundaryVerdict::Pass,
        PointWhichSide::Outside => BoundaryVerdict::Reject,
    }
}

/// Returns whether a point on this side of a manifold lies on the manifold.
pub fn is_on(side: PointWhichSide) -> (on: bool)
    ensures
        on == (side == PointWhichSide::On),
{
    match side {
        PointWhichSide::On => true,
        _ => false,
    }
}

impl ShapeArena {
    /// What the answer to the first question, whether a point is on the
    /// manifold of the shape `shape`, settles; `asked` is the number of
    /// questions that were asked.
    ///
    /// A failure of the geometry is returned. A point that is not on the
    /// manifold is not in the shape. A point on the manifold of a shape
    /// without boundary is in the shape. In each of these cases nothing more
    /// is asked.
    pub open spec fn settled_on_manifold(
        &self,
        shape: ShapeId,
        answer: Result<PointWhichSide, GeometryError>,
        asked: int,
        r: Result<bool, CutError>,
    ) -> bool {
        match answer {
            Err(e) => r == Err::<bool, CutError>(CutError::Geometry(e)) && asked == 1,
            Ok(side) => {
                &&& side != PointWhichSide::On ==> r == Ok::<bool, CutError>(false) && asked == 1
                &&& side == PointWhichSide::On && self.boundary_of(shape) == Set::<
                    ShapeRef,
                >::empty() ==> r == Ok::<bool, CutError>(true) && asked == 1
            },
        }
    }

    /// The exchanges of `record` from number `from` to its end are those of
    /// one test whether `point` is in the shape `shape`, and `r` is what
    /// their answers give. With `interior_only` the test is for the interior
    /// of the shape, else for the shape with its boundary.
    ///
    /// The first question is whether the point is on the manifold of the
    /// shape, in the space of the arena. A failure is returned, and a point
    /// off the manifold is not in the shape; nothing more is asked then. For
    /// a point on the manifold the boundary elements are tested, in some
    /// order.
    pub open spec fn point_tested(
        &self,
        record: Seq<Exchange>,
        from: int,
        shape: ShapeId,
        point: PointId,
        interior_only: bool,
        r: Result<bool, CutError>,
    ) -> bool
        decreases self.rank_of(shape), 2int,
    {
        &&& 0 <= from < record.len()
        &&& record[from] matches Exchange::WhichSideHasPoint {
            manifold,
            point: asked,
            ambient,
            answer,
        }
        &&& manifold == self.manifold_of(shape)
        &&& asked == point
        &&& ambient == self.spec_space()
        &&& match answer {
            Err(e) => r == Err::<bool, CutError>(CutError::Geometry(e)) && record.len() == from
                + 1,
            Ok(side) => if side != PointWhichSide::On {
                r == Ok::<bool, CutError>(false) && record.len() == from + 1
            } else {
                exists|order: Seq<ShapeRef>, starts: Seq<int>| #[trigger]
                    self.in_boundary_order(shape, order, starts) && self.elements_tested(
                        record,
                        from + 1,
                        shape,
                        point,
                        interior_only,
                        order,
                        starts,
                        r,
                    )
            },
        }
    }

    /// `order` lists the boundary elements of the shape `shape`, each of them
    /// once, and `starts` has a place for the test of some of its first
    /// elements, and one for the end of the last test.
    pub open spec fn in_boundary_order(
        &self,
        shape: ShapeId,
        order: Seq<ShapeRef>,
        starts: Seq<int>,
    ) -> bool {
        &&& order.no_duplicates()
        &&& forall|x: ShapeRef| order.contains(x) <==> self.boundary_of(shape).contains(x)
        &&& 1 <= starts.len() <= order.len() + 1
    }

    /// The exchanges of `record` from number `from` to its end are those of
    /// the test of `point` against the boundary elements of the shape
    /// `shape`, taken in the order `order`, and `r` is what their answers
    /// give. The test of the element `order[k]` is in the exchanges from
    /// `starts[k]` up to `starts[k + 1]`, and the last test that was made
    /// ends where the record ends.
    ///
    /// Every element but the last that was tested let the point pass. The
    /// point is in the shape if and only if every element was tested and the
    /// last one let it pass too; otherwise the result is that of the last
    /// test.
    pub open spec fn elements_tested(
        &self,
        record: Seq<Exchange>,
        from: int,
        shape: ShapeId,
        point: PointId,
        interior_only: bool,
        order: Seq<ShapeRef>,
        starts: Seq<int>,
        r: Result<bool, CutError>,
    ) -> bool
        decreases self.rank_of(shape), 1int,
    {
        let tested = starts.len() - 1;
        &&& 0 <= tested <= order.len()
        &&& starts[0] == from
        &&& starts[tested] == record.len()
        &&& tested == 0 ==> r == Ok::<bool, CutError>(true)
        &&& r == Ok::<bool, CutError>(true) ==> tested == order.len()
        &&& forall|k: int|
            0 <= k < tested ==> 0 <= starts[k + 1] <= record.len() && self.element_tested(
                record.subrange(0, starts[k + 1]),
                starts[k],
                shape,
                #[trigger] order[k],
                point,
                interior_only,
                if k + 1 < tested {
                    Ok::<bool, CutError>(true)
                } else {
                    r
                },
            )
    }

    /// The exchanges of `record` from number `from` to its end are those of
    /// the test of `point` against the boundary element `element` of the
    /// shape `shape`, and `out` is what their answers give: `Ok(true)` where
    /// the element lets the point pass.
    ///
    /// The first question is on which side of the manifold of the element
    /// the point is, within the manifold of the shape; the answer is taken
    /// with the orientation of the element, and [`spec_boundary_verdict`]
    /// says what it means. A failure is returned. A point inside passes and
    /// a point outside is rejected, with nothing more asked. A point on the
    /// element is tested against the element with its boundary, and the
    /// result of that test is the result here.
    pub open spec fn element_tested(
        &self,
        record: Seq<Exchange>,
        from: int,
        shape: ShapeId,
        element: ShapeRef,
        point: PointId,
        interior_only: bool,
        out: Result<bool, CutError>,
    ) -> bool
        decreases self.rank_of(shape), 0int,
    {
        &&& 0 <= from < record.len()
        &&& record[from] matches Exchange::WhichSideHasPoint {
            manifold,
            point: asked,
            ambient,
            answer,
        }
        &&& manifold == self.manifold_of(element.id)
        &&& asked == point
        &&& ambient == self.manifold_of(shape)
        &&& match answer {
            Err(e) => out == Err::<bool, CutError>(CutError::Geometry(e)) && record.len() == from
                + 1,
            Ok(side) => match spec_boundary_verdict(
                side.spec_times(element.sign),
                interior_only,
            ) {
                BoundaryVerdict::Pass => out == Ok::<bool, CutError>(true) && record.len() == from
                    + 1,
                BoundaryVerdict::Reject => out == Ok::<bool, CutError>(false) && record.len()
                    == from + 1,
                BoundaryVerdict::Descend => self.rank_of(element.id) < self.rank_of(shape)
                    && self.point_tested(record, from + 1, element.id, point, false, out),
            },
        }
    }

    /// Returns true if `point` is inside or on the boundary of `shape` or
    /// false if it is strictly outside. Returns false if `point` is not flush
    /// with `shape`.
    ///
    /// The geometry is asked first whether the point is on the manifold of
    /// the shape: a failure is returned, a point off the manifold is not in
    /// the shape, and a point on the manifold of a shape without boundary is.
    /// Otherwise it is asked on which side of each boundary element the point
    /// is, as far as needed: [`boundary_verdict`] says what each answer
    /// means. A point on an element must be in that element, which is
    /// tested in the same way; the elements after it are still tested. The
    /// point is in the shape if no element rejects it.
    pub fn shape_contains_point<G: ManifoldSpace>(
        &self,
        geometry: &mut Recorded<G>,
        shape: ShapeId,
        point: PointId,
    ) -> (r: Result<bool, CutError>)
        requires
            self.wf(),
            self.contains(shape),
        ensures
            self.point_tested(
                final(geometry).record(),
                old(geometry).record().len() as int,
                shape,
                point,
                false,
                r,
            ),
            exists|answer: Result<PointWhichSide, GeometryError>|
                {
                    &&& #[trigger] final(geometry).asked_first(
                        old(geometry),
                        Exchange::WhichSideHasPoint {
                            manifold: self.manifold_of(shape),
                            point,
                            ambient: self.spec_space(),
                            answer,
                        },
                    )
                    &&& self.settled_on_manifold(
                        shape,
                        answer,
                        final(geometry).asked_since(old(geometry)),
                        r,
                    )
                },
            final(geometry).grown_from(old(geometry)),
            r matches Err(e) ==> e is Geometry,
        decreases self.rank_of(shape),
    {
        assert(self.bounded_within(shape));
        let shape_manifold = self.shape(shape).manifold;
        let answer = geometry.which_side_has_point(shape_manifold, point, self.space());
        let ghost asked = Exchange::WhichSideHasPoint {
            manifold: shape_manifold,
            point,
            ambient: self.spec_space(),
            answer,
        };
        let ghost after_first = *geometry;
        let ghost start = old(geometry).record().len() as int;
        proof {
            lemma_asked_once(old(geometry), geometry, asked);
            assert(shape_manifold == self.manifold_of(shape));
            assert(geometry.record()[start] == asked);
        }
        match answer {
            Ok(side) => {
                if !is_on(side) {
                    return Ok(false);
                }
            },
            Err(e) => {
                return Err(CutError::Geometry(e));
            },
        }
        let elements = self.shape(shape).boundary.to_vec();
        proof {
            if elements.len() > 0 {
                assert(elements@.contains(elements[0]));
            }
        }
        let ghost mut starts: Seq<int> = seq![start + 1];
        let mut i: usize = 0;
        while i < elements.len()
            invariant
                self.wf(),
                self.contains(shape),
                self.bounded_within(shape),
                i <= elements.len(),
                elements@.no_duplicates(),
                forall|r: ShapeRef| elements@.contains(r) <==> self.boundary_of(shape).contains(r),
                geometry.grown_from(&after_first),
                after_first.asked_once(old(geometry), asked),
                start == old(geometry).record().len(),
                shape_manifold == self.manifold_of(shape),
                asked == (Exchange::WhichSideHasPoint {
                    manifold: shape_manifold,
                    point,
                    ambient: self.spec_space(),
                    answer,
                }),
                answer == Ok::<PointWhichSide, GeometryError>(PointWhichSide::On),
                self.boundary_of(shape) == Set::<ShapeRef>::empty() ==> elements.len() == 0
                    && geometry.record() == after_first.record(),
                starts.len() == i + 1,
                starts[0] == start + 1,
                starts[i as int] == geometry.record().len(),
                forall|k: int| 0 <= k <= i ==> 0 <= #[trigger] starts[k] <= geometry.record().len(),
                forall|k: int|
                    0 <= k < i ==> self.element_tested(
                        geometry.record().subrange(0, starts[k + 1]),
                        #[trigger] starts[k],
                        shape,
                        elements@[k],
                        point,
                        false,
                        Ok::<bool, CutError>(true),
                    ),
            decreases elements.len() - i,
        {
            let boundary_elem = elements[i];
            assert(elements@.contains(boundary_elem));
            assert(self.boundary_of(shape).contains(boundary_elem));
            let boundary_elem_manifold = self.shape(boundary_elem.id).manifold;
            let ghost before = *geometry;
            let side = geometry.which_side_has_point(boundary_elem_manifold, point, shape_manifold);
            let ghost asked_side = *geometry;
            proof {
                lemma_asked_once(
                    &before,
                    geometry,
                    Exchange::WhichSideHasPoint {
                        manifold: boundary_elem_manifold,
                        point,
                        ambient: shape_manifold,
                        answer: side,
                    },
                );
                lemma_grown_twice(&after_first, &before, geometry);
            }
            let which_side = match side {
                Ok(side) => side.times(boundary_elem.sign),
                Err(e) => {
                    proof {
                        lemma_first_stays(old(geometry), &after_first, geometry, asked);
                        self.lemma_tested_so_far(
                            before.record(),
                            geometry.record(),
                            start,
                            shape,
                            point,
                            false,
                            elements@,
                            starts,
                            Err(CutError::Geometry(e)),
                        );
                    }
                    return Err(CutError::Geometry(e));
                },
            };
            let mut passed = true;
            match boundary_verdict(which_side, false) {
                BoundaryVerdict::Descend => {
                    let inner = self.shape_contains_point(geometry, boundary_elem.id, point);
                    proof {
                        lemma_grown_twice(&after_first, &asked_side, geometry);
                        lemma_grown_twice(&before, &asked_side, geometry);
                        lemma_first_stays(old(geometry), &after_first, geometry, asked);
                        assert(geometry.record()[starts[i as int]] == asked_side.record()[starts[i as int]]);
                    }
                    match inner {
                        Ok(true) => {},
                        _ => {
                            proof {
                                self.lemma_tested_so_far(
                                    before.record(),
                                    geometry.record(),
                                    start,
                                    shape,
                                    point,
                                    false,
                                    elements@,
                                    starts,
                                    inner,
                                );
                            }
                            return inner;
                        },
                    }
                },
                BoundaryVerdict::Pass => {},
                BoundaryVerdict::Reject => {
                    passed = false;
                },
            }
            if !passed {
                proof {
                    lemma_first_stays(old(geometry), &after_first, geometry, asked);
                    self.lemma_tested_so_far(
                        before.record(),
                        geometry.record(),
                        start,
                        shape,
                        point,
                        false,
                        elements@,
                        starts,
                        Ok(false),
                    );
                }
                return Ok(false);
            }
            proof {
                let now = geometry.record();
                assert(now.subrange(0, now.len() as int) =~= now);
                assert forall|k: int| 0 <= k < i implies self.element_tested(
                    now.subrange(0, starts.push(now.len() as int)[k + 1]),
                    #[trigger] starts.push(now.len() as int)[k],
                    shape,
                    elements@[k],
                    point,
                    false,
                    Ok::<bool, CutError>(true),
                ) by {
                    assert(starts[k + 1] <= before.record().len());
                    assert(now.subrange(0, starts[k + 1]) =~= before.record().subrange(
                        0,
                        starts[k + 1],
                    ));
                    assert(self.element_tested(
                        before.record().subrange(0, starts[k + 1]),
                        starts[k],
                        shape,
                        elements@[k],
                        point,
                        false,
                        Ok::<bool, CutError>(true),
                    ));
                }
                starts = starts.push(now.len() as int);
            }
            i += 1;
        }
        proof {
            lemma_first_stays(old(geometry), &after_first, geometry, asked);
            let now = geometry.record();
            assert forall|k: int| 0 <= k < i implies 0 <= starts[k + 1] <= now.len()
                && self.element_tested(
                now.subrange(0, starts[k + 1]),
                starts[k],
                shape,
                #[trigger] elements@[k],
                point,
                false,
                Ok::<bool, CutError>(true),
            ) by {
                assert(0 <= starts[k + 1] <= now.len());
            }
            assert(self.elements_tested(
                now,
                start + 1,
                shape,
                point,
                false,
                elements@,
                starts,
                Ok::<bool, CutError>(true),
            ));
            assert(self.in_boundary_order(shape, elements@, starts));
        }
        Ok(true)
    }

    /// A test of a point against the boundary elements of a shape that ends
    /// with the element it has come to: every element before it let the
    /// point pass, and `r` is what the test of this element gave.
    proof fn lemma_tested_so_far(
        &self,
        before: Seq<Exchange>,
        now: Seq<Exchange>,
        start: int,
        shape: ShapeId,
        point: PointId,
        interior_only: bool,
        order: Seq<ShapeRef>,
        starts: Seq<int>,
        r: Result<bool, CutError>,
    )
        requires
            order.no_duplicates(),
            forall|x: ShapeRef| order.contains(x) <==> self.boundary_of(shape).contains(x),
            1 <= starts.len() <= order.len(),
            starts[0] == start + 1,
            starts[starts.len() - 1] == before.len(),
            before.len() < now.len(),
            forall|j: int| 0 <= j < before.len() ==> now[j] == before[j],
            forall|k: int| 0 <= k < starts.len() ==> 0 <= #[trigger] starts[k] <= before.len(),
            forall|k: int|
                0 <= k < starts.len() - 1 ==> self.element_tested(
                    before.subrange(0, starts[k + 1]),
                    #[trigger] starts[k],
                    shape,
                    order[k],
                    point,
                    interior_only,
                    Ok::<bool, CutError>(true),
                ),
            self.element_tested(
                now,
                before.len() as int,
                shape,
                order[starts.len() - 1],
                point,
                interior_only,
                r,
            ),
            r != Ok::<bool, CutError>(true),
        ensures
            self.in_boundary_order(shape, order, starts.push(now.len() as int)),
            self.elements_tested(
                now,
                start + 1,
                shape,
                point,
                interior_only,
                order,
                starts.push(now.len() as int),
                r,
            ),
    {
        let all = starts.push(now.len() as int);
        let last = starts.len() - 1;
        assert(now.subrange(0, now.len() as int) =~= now);
        assert forall|k: int| 0 <= k < all.len() - 1 implies 0 <= all[k + 1] <= now.len()
            && self.element_tested(
            now.subrange(0, all[k + 1]),
            all[k],
            shape,
            #[trigger] order[k],
            point,
            interior_only,
            if k + 1 < all.len() - 1 {
                Ok::<bool, CutError>(true)
            } else {
                r
            },
        ) by {
            if k < last {
                assert(starts[k + 1] <= before.len());
                assert(now.subrange(0, starts[k + 1]) =~= before.subrange(0, starts[k + 1]));
                assert(self.element_tested(
                    before.subrange(0, starts[k + 1]),
                    starts[k],
                    shape,
                    order[k],
                    point,
                    interior_only,
                    Ok::<bool, CutError>(true),
                ));
            } else {
                assert(all[k] == before.len());
                assert(all[k + 1] == now.len());
            }
        }
    }

    /// Returns true if `point` is inside. Returns false if `point` is not
    /// flush with `shape` or it is on the boundary.
    ///
    /// The geometry is asked first whether the point is on the manifold of
    /// the shape: a failure is returned, a point off the manifold is not in
    /// the interior, and a point on the manifold of a shape without boundary
    /// is. Otherwise it is asked on which side of each boundary element the
    /// point is, as far as needed: [`boundary_verdict`] says what each answer
    /// means.
    pub fn shape_interior_contains_point<G: ManifoldSpace>(
        &self,
        geometry: &mut Recorded<G>,
        shape: ShapeId,
        point: PointId,
    ) -> (r: Result<bool, CutError>)
        requires
            self.wf(),
            self.contains(shape),
        ensures
            self.point_tested(
                final(geometry).record(),
                old(geometry).record().len() as int,
                shape,
                point,
                true,
                r,
            ),
            exists|answer: Result<PointWhichSide, GeometryError>|
                {
                    &&& #[trigger] final(geometry).asked_first(
                        old(geometry),
                        Exchange::WhichSideHasPoint {
                            manifold: self.manifold_of(shape),
                            point,
                            ambient: self.spec_space(),
                            answer,
                        },
                    )
                    &&& self.settled_on_manifold(
                        shape,
                        answer,
                        final(geometry).asked_since(old(geometry)),
                        r,
                    )
                },
            final(geometry).grown_from(old(geometry)),
            r matches Err(e) ==> e is Geometry,
    {
        assert(self.bounded_within(shape));
        let shape_manifold = self.shape(shape).manifold;
        let answer = geometry.which_side_has_point(shape_manifold, point, self.space());
        let ghost asked = Exchange::WhichSideHasPoint {
            manifold: shape_manifold,
            point,
            ambient: self.spec_space(),
            answer,
        };
        let ghost after_first = *geometry;
        let ghost start = old(geometry).record().len() as int;
        proof {
            lemma_asked_once(old(geometry), geometry, asked);
            assert(shape_manifold == self.manifold_of(shape));
            assert(geometry.record()[start] == asked);
        }
        match answer {
            Ok(side) => {
                if !is_on(side) {
                    return Ok(false);
                }
            },
            Err(e) => {
                return Err(CutError::Geometry(e));
            },
        }
        let elements = self.shape(shape).boundary.to_vec();
        proof {
            if elements.len() > 0 {
                assert(elements@.contains(elements[0]));
            }
        }
        let ghost mut starts: Seq<int> = seq![start + 1];
        let mut i: usize = 0;
        while i < elements.len()
            invariant
                self.wf(),
                self.contains(shape),
                self.bounded_within(shape),
                i <= elements.len(),
                elements@.no_duplicates(),
                forall|r: ShapeRef| elements@.contains(r) <==> self.boundary_of(shape).contains(r),
                geometry.grown_from(&after_first),
                after_first.asked_once(old(geometry), asked),
                start == old(geometry).record().len(),
                shape_manifold == self.manifold_of(shape),
                asked == (Exchange::WhichSideHasPoint {
                    manifold: shape_manifold,
                    point,
                    ambient: self.spec_space(),
                    answer,
                }),
                answer == Ok::<PointWhichSide, GeometryError>(PointWhichSide::On),
                self.boundary_of(shape) == Set::<ShapeRef>::empty() ==> elements.len() == 0
                    && geometry.record() == after_first.record(),
                starts.len() == i + 1,
                starts[0] == start + 1,
                starts[i as int] == geometry.record().len(),
                forall|k: int| 0 <= k <= i ==> 0 <= #[trigger] starts[k] <= geometry.record().len(),
                forall|k: int|
                    0 <= k < i ==> self.element_tested(
                        geometry.record().subrange(0, starts[k + 1]),
                        #[trigger] starts[k],
                        shape,
                        elements@[k],
                        point,
                        true,
                        Ok::<bool, CutError>(true),
                    ),
            decreases elements.len() - i,
        {
            let boundary_elem = elements[i];
            assert(elements@.contains(boundary_elem));
            assert(self.boundary_of(shape).contains(boundary_elem));
            let boundary_elem_manifold = self.shape(boundary_elem.id).manifold;
            let ghost before = *geometry;
            let side = geometry.which_side_has_point(boundary_elem_manifold, point, shape_manifold);
            proof {
                lemma_asked_once(
                    &before,
                    geometry,
                    Exchange::WhichSideHasPoint {
                        manifold: boundary_elem_manifold,
                        point,
                        ambient: shape_manifold,
                        answer: side,
                    },
                );
                lemma_grown_twice(&after_first, &before, geometry);
            }
            let which_side = match side {
                Ok(side) => side.times(boundary_elem.sign),
                Err(e) => {
                    proof {
                        lemma_first_stays(old(geometry), &after_first, geometry, asked);
                        self.lemma_tested_so_far(
                            before.record(),
                            geometry.record(),
                            start,
                            shape,
                            point,
                            true,
                            elements@,
                            starts,
                            Err(CutError::Geometry(e)),
                        );
                    }
                    return Err(CutError::Geometry(e));
                },
            };
            match boundary_verdict(which_side, true) {
                BoundaryVerdict::Pass => {},
                BoundaryVerdict::Descend | BoundaryVerdict::Reject => {
                    proof {
                        lemma_first_stays(old(geometry), &after_first, geometry, asked);
                        self.lemma_tested_so_far(
                            before.record(),
                            geometry.record(),
                            start,
                            shape,
                            point,
                            true,
                            elements@,
                            starts,
                            Ok(false),
                        );
                    }
                    return Ok(false);
                },
            }
            proof {
                let now = geometry.record();
                assert(now.subrange(0, now.len() as int) =~= now);
                assert forall|k: int| 0 <= k < i implies self.element_tested(
                    now.subrange(0, starts.push(now.len() as int)[k + 1]),
                    #[trigger] starts.push(now.len() as int)[k],
                    shape,
                    elements@[k],
                    point,
                    true,
                    Ok::<bool, CutError>(true),
                ) by {
                    assert(starts[k + 1] <= before.record().len());
                    assert(now.subrange(0, starts[k + 1]) =~= before.record().subrange(
                        0,
                        starts[k + 1],
                    ));
                    assert(self.element_tested(
                        before.record().subrange(0, starts[k + 1]),
                        starts[k],
                        shape,
                        elements@[k],
                        point,
                        true,
                        Ok::<bool, CutError>(true),
                    ));
                }
                starts = starts.push(now.len() as int);
            }
            i += 1;
        }
        proof {
            lemma_first_stays(old(geometry), &after_first, geometry, asked);
            let now = geometry.record();
            assert forall|k: int| 0 <= k < i implies 0 <= starts[k + 1] <= now.len()
                && self.element_tested(
                now.subrange(0, starts[k + 1]),
                starts[k],
                shape,
                #[trigger] elements@[k],
                point,
                true,
                Ok::<bool, CutError>(true),
            ) by {
                assert(0 <= starts[k + 1] <= now.len());
            }
            assert(self.elements_tested(
                now,
                start + 1,
                shape,
                point,
                true,
                elements@,
                starts,
                Ok::<bool, CutError>(true),
            ));
            assert(self.in_boundary_order(shape, elements@, starts));
        }
        Ok(true)
    }
}

} // verus!
