//! Subsets of a line, simplified.
//!
//! The boundary of a one-dimensional shape is a set of signed point pairs.
//! Each stands for an interval of the line, which is closed at infinity: the
//! stretch from the first point of the pair to the second. The shape is the
//! intersection of its intervals. Negating a pair exchanges its points, and
//! so gives the complement of the interval, the shared endpoints aside.

use vstd::prelude::*;
use crate::record::{
    lemma_asked_once, lemma_first_exchange_kept, lemma_grown_twice, lemma_quiet_step, spec_quiet,
    spec_quiet_until, Exchange, Recorded,
};
use crate::arena::{lemma_same_nodes, ShapeArena};
use crate::manifold::{GeometryError, ManifoldId, ManifoldSpace, PointId, PointWhichSide};
use crate::orient::{spec_point_pair_of, SignedManifold};
use crate::shape::{Shape, ShapeSet};
use crate::sign::{ShapeId, ShapeRef, Sign};
use crate::split::CutError;

verus! {

/// What two intervals `ab` and `pq` merge into.
#[derive(Debug, Clone, Copy, PartialEq, Eq, Structural)]
pub enum MergePlan {
    /// Together they cover the whole line.
    WholeSpace,
    /// The first covers the second.
    First,
    /// The second covers the first.
    Second,
    /// They overlap, and together cover the interval between two of their
    /// endpoints.
    Span {
        /// Where the merged interval starts.
        start: PointId,
        /// Where the merged interval ends.
        end: PointId,
    },
    /// They do not meet.
    NoIntersection,
}

/// What the interval from `a` to `b` and the interval from `p` to `q` merge
/// into, given which endpoints of each lie in the other.
pub open spec fn spec_merge_plan(
    a: PointId,
    b: PointId,
    p: PointId,
    q: PointId,
    ab_has_p: bool,
    ab_has_q: bool,
    pq_has_a: bool,
    pq_has_b: bool,
) -> MergePlan {
    if ab_has_p && ab_has_q && pq_has_a && pq_has_b {
        MergePlan::WholeSpace
    } else if ab_has_p && ab_has_q {
        MergePlan::First
    } else if pq_has_a && pq_has_b {
        MergePlan::Second
    } else if !ab_has_p && !pq_has_a {
        MergePlan::NoIntersection
    } else if !ab_has_q && !pq_has_b {
        MergePlan::NoIntersection
    } else {
        MergePlan::Span {
            start: if ab_has_p {
                a
            } else {
                p
            },
            end: if ab_has_q {
                b
            } else {
                q
            },
        }
    }
}

/// Decides what the interval from `a` to `b` and the interval from `p` to `q`
/// merge into, given which endpoints of each lie in the other.
pub fn merge_plan(
    a: PointId,
    b: PointId,
    p: PointId,
    q: PointId,
    ab_has_p: bool,
    ab_has_q: bool,
    pq_has_a: bool,
    pq_has_b: bool,
) -> (plan: MergePlan)
    ensures
        plan == spec_merge_plan(a, b, p, q, ab_has_p, ab_has_q, pq_has_a, pq_has_b),
{
    let ab_has_pq = ab_has_p && ab_has_q;
    let pq_has_ab = pq_has_a && pq_has_b;
    if ab_has_pq && pq_has_ab {
        return MergePlan::WholeSpace;
    }
    if ab_has_pq {
        return MergePlan::First;
    }
    if pq_has_ab {
        return MergePlan::Second;
    }
    let start = if ab_has_p {
        a
    } else if pq_has_a {
        p
    } else {
        return MergePlan::NoIntersection;
    };
    let end = if ab_has_q {
        b
    } else if pq_has_b {
        q
    } else {
        return MergePlan::NoIntersection;
    };
    MergePlan::Span { start, end }
}

/// Whether a point on this side of an interval belongs to the interval, its
/// endpoints included.
pub open spec fn spec_closed_contains(side: PointWhichSide) -> bool {
    side != PointWhichSide::Outside
}

/// Returns whether a point on this side of an interval belongs to the
/// interval, its endpoints included.
pub fn closed_contains(side: PointWhichSide) -> (inside: bool)
    ensures
        inside == spec_closed_contains(side),
{
    match side {
        PointWhichSide::Outside => false,
        _ => true,
    }
}

/// Result of merging two intervals.
#[derive(Debug, Clone, Copy, PartialEq, Eq, Structural)]
pub enum MergedInterval {
    /// One of the two intervals covers the other.
    Old(ShapeRef),
    /// A new interval, given by its point pair.
    New(ManifoldId),
    /// The two cover the whole line.
    WholeSpace,
    /// The two do not meet.
    NoIntersection,
}

/// Where the merging of intervals stands after one of them was merged with
/// what the others had left.
pub ghost struct Merging<G> {
    /// The geometry after the merge was tried.
    pub middle: Recorded<G>,
    /// What the merge gave.
    pub outcome: Result<MergedInterval, CutError>,
    /// What taking up the merge gave: the interval that goes on to the next
    /// merge, nothing if nothing of the line is left, or a failure.
    pub result: Result<Option<ShapeRef>, CutError>,
    /// The arena afterwards.
    pub arena: ShapeArena,
    /// The geometry afterwards.
    pub geometry: Recorded<G>,
    /// The intervals that stay as they are.
    pub kept: Set<ShapeRef>,
}

/// Where the simplification of a list of intervals stands after one of them
/// was taken in.
pub ghost struct Simplifying<G> {
    /// The arena afterwards.
    pub arena: ShapeArena,
    /// The geometry afterwards.
    pub geometry: Recorded<G>,
    /// The intersection of the intervals that were taken in, nothing if it
    /// is empty, or a failure.
    pub result: Result<Option<ShapeSet>, CutError>,
}

/// What is made of the answer to the question on which side of an interval a
/// point lies, the interval being taken with orientation `sign`: whether the
/// point belongs to the interval, or the failure of the geometry.
pub open spec fn spec_contained_by(
    answer: Result<PointWhichSide, GeometryError>,
    sign: Sign,
) -> Result<bool, CutError> {
    match answer {
        Ok(side) => Ok(spec_closed_contains(side.spec_times(sign))),
        Err(e) => Err(CutError::Geometry(e)),
    }
}

impl ShapeArena {
    /// Returns whether an interval (**including** its boundary) contains a
    /// point.
    ///
    /// The geometry is asked once, on which side of the manifold of the
    /// interval the point lies within `space`.
    pub fn closed_interval_contains_point<G: ManifoldSpace>(
        &self,
        geometry: &mut Recorded<G>,
        interval: SignedManifold,
        point: PointId,
        space: ManifoldId,
    ) -> (r: Result<bool, CutError>)
        requires
            interval.within(self),
        ensures
            final(geometry).grown_from(old(geometry)),
            final(geometry).asked_since(old(geometry)) == 1,
            final(geometry).exchange_since(old(geometry), 0) matches Exchange::WhichSideHasPoint {
                manifold,
                point: asked_point,
                ambient,
                answer,
            } && manifold == interval.spec_manifold(self) && asked_point == point && ambient
                == space && r == spec_contained_by(answer, interval.spec_sign()),
            r matches Err(e) ==> e is Geometry,
    {
        let answer = geometry.which_side_has_point(interval.get_manifold_from(self), point, space);
        proof {
            lemma_asked_once(
                old(geometry),
                geometry,
                Exchange::WhichSideHasPoint {
                    manifold: interval.spec_manifold(self),
                    point,
                    ambient: space,
                    answer,
                },
            );
        }
        match answer {
            Ok(side) => Ok(closed_contains(side.times(interval.sign()))),
            Err(e) => Err(CutError::Geometry(e)),
        }
    }

    /// Whether the `k`-th question since `before` was on which side of the
    /// manifold of the interval `interval` the point `point` lies within
    /// `space`.
    pub open spec fn asked_side_at<G: ManifoldSpace>(
        &self,
        after: &Recorded<G>,
        before: &Recorded<G>,
        k: int,
        interval: ShapeRef,
        point: PointId,
        space: ManifoldId,
    ) -> bool {
        &&& after.asked_since(before) > k
        &&& after.exchange_since(before, k) matches Exchange::WhichSideHasPoint {
            manifold,
            point: asked,
            ambient,
            answer: _,
        }
        &&& manifold == self.manifold_of(interval.id)
        &&& asked == point
        &&& ambient == space
    }

    /// What the answer to the `k`-th question since `before` says of a point
    /// and the interval `interval`: whether the point belongs to the
    /// interval, or the failure of the geometry.
    pub open spec fn side_answer_at<G: ManifoldSpace>(
        after: &Recorded<G>,
        before: &Recorded<G>,
        k: int,
        interval: ShapeRef,
    ) -> Result<bool, CutError> {
        spec_contained_by(after.exchange_since(before, k)->WhichSideHasPoint_answer, interval.sign)
    }

    /// What [`ShapeArena::try_merge_intervals`] returns once the four
    /// endpoint tests are made, the last of them the question `at + 3` since
    /// `before`: what [`spec_merge_plan`] decides. An interval that covers the
    /// other is returned; for a span the geometry is asked for the point pair
    /// from its start to its end, and that is the new interval, or the
    /// failure. Nothing more is asked.
    pub open spec fn merged_by_plan<G: ManifoldSpace>(
        after: &Recorded<G>,
        before: &Recorded<G>,
        at: int,
        interval1: ShapeRef,
        interval2: ShapeRef,
        plan: MergePlan,
        space: ManifoldId,
        r: Result<MergedInterval, CutError>,
    ) -> bool {
        match plan {
            MergePlan::WholeSpace => r == Ok::<MergedInterval, CutError>(
                MergedInterval::WholeSpace,
            ) && after.asked_since(before) == at + 4,
            MergePlan::First => r == Ok::<MergedInterval, CutError>(MergedInterval::Old(interval1))
                && after.asked_since(before) == at + 4,
            MergePlan::Second => r == Ok::<MergedInterval, CutError>(
                MergedInterval::Old(interval2),
            ) && after.asked_since(before) == at + 4,
            MergePlan::NoIntersection => r == Ok::<MergedInterval, CutError>(
                MergedInterval::NoIntersection,
            ) && after.asked_since(before) == at + 4,
            MergePlan::Span { start, end } => {
                &&& after.asked_since(before) == at + 5
                &&& after.exchange_since(before, at + 4) matches Exchange::NewPointPair {
                    start: from,
                    end: to,
                    ambient,
                    answer,
                }
                &&& from == start
                &&& to == end
                &&& ambient == space
                &&& r == match answer {
                    Ok(manifold) => Ok::<MergedInterval, CutError>(MergedInterval::New(manifold)),
                    Err(e) => Err::<MergedInterval, CutError>(CutError::Geometry(e)),
                }
            },
        }
    }

    /// What [`ShapeArena::try_merge_intervals`] asks and returns from the
    /// question `at` since `before` on, the endpoints being known: `a` and `b`
    /// those of the first interval, `p` and `q` those of the second.
    ///
    /// It asks whether the first interval holds `p`, whether it holds `q`,
    /// whether the second holds `a`, and whether it holds `b`. The first
    /// failure is returned, and nothing more is asked. With all four answers
    /// the result is as [`ShapeArena::merged_by_plan`] says.
    pub open spec fn merged_by_answers<G: ManifoldSpace>(
        &self,
        after: &Recorded<G>,
        before: &Recorded<G>,
        at: int,
        interval1: ShapeRef,
        interval2: ShapeRef,
        a: PointId,
        b: PointId,
        p: PointId,
        q: PointId,
        space: ManifoldId,
        r: Result<MergedInterval, CutError>,
    ) -> bool {
        &&& self.asked_side_at(after, before, at, interval1, p, space)
        &&& match Self::side_answer_at(after, before, at, interval1) {
            Err(e) => r == Err::<MergedInterval, CutError>(e) && after.asked_since(before) == at
                + 1,
            Ok(ab_has_p) => {
                &&& self.asked_side_at(after, before, at + 1, interval1, q, space)
                &&& match Self::side_answer_at(after, before, at + 1, interval1) {
                    Err(e) => r == Err::<MergedInterval, CutError>(e) && after.asked_since(before)
                        == at + 2,
                    Ok(ab_has_q) => {
                        &&& self.asked_side_at(after, before, at + 2, interval2, a, space)
                        &&& match Self::side_answer_at(after, before, at + 2, interval2) {
                            Err(e) => r == Err::<MergedInterval, CutError>(e) && after.asked_since(
                                before,
                            ) == at + 3,
                            Ok(pq_has_a) => {
                                &&& self.asked_side_at(after, before, at + 3, interval2, b, space)
                                &&& match Self::side_answer_at(after, before, at + 3, interval2) {
                                    Err(e) => r == Err::<MergedInterval, CutError>(e)
                                        && after.asked_since(before) == at + 4,
                                    Ok(pq_has_b) => Self::merged_by_plan(
                                        after,
                                        before,
                                        at,
                                        interval1,
                                        interval2,
                                        spec_merge_plan(
                                            a,
                                            b,
                                            p,
                                            q,
                                            ab_has_p,
                                            ab_has_q,
                                            pq_has_a,
                                            pq_has_b,
                                        ),
                                        space,
                                        r,
                                    ),
                                }
                            },
                        }
                    },
                }
            },
        }
    }

    /// Merges two intervals whose endpoints are known and do not coincide:
    /// `a` and `b` those of the first, `p` and `q` those of the second.
    fn merge_by_containment<G: ManifoldSpace>(
        &self,
        geometry: &mut Recorded<G>,
        ab: ShapeRef,
        pq: ShapeRef,
        a: PointId,
        b: PointId,
        p: PointId,
        q: PointId,
        space: ManifoldId,
    ) -> (r: Result<MergedInterval, CutError>)
        requires
            self.contains(ab.id),
            self.contains(pq.id),
        ensures
            final(geometry).grown_from(old(geometry)),
            self.merged_by_answers(final(geometry), old(geometry), 0, ab, pq, a, b, p, q, space, r),
            r matches Err(e) ==> e is Geometry,
    {
        let has_p = self.closed_interval_contains_point(
            geometry,
            SignedManifold::Shape(ab),
            p,
            space,
        );
        let ghost s1 = *geometry;
        let ab_has_p = match has_p {
            Ok(has) => has,
            Err(e) => {
                return Err(e);
            },
        };
        let has_q = self.closed_interval_contains_point(
            geometry,
            SignedManifold::Shape(ab),
            q,
            space,
        );
        let ghost s2 = *geometry;
        proof {
            lemma_grown_twice(old(geometry), &s1, &s2);
            assert(s2.exchange_since(old(geometry), 0) == s1.exchange_since(old(geometry), 0));
            assert(s2.exchange_since(old(geometry), 1) == s2.exchange_since(&s1, 0));
        }
        let ab_has_q = match has_q {
            Ok(has) => has,
            Err(e) => {
                return Err(e);
            },
        };
        let has_a = self.closed_interval_contains_point(
            geometry,
            SignedManifold::Shape(pq),
            a,
            space,
        );
        let ghost s3 = *geometry;
        proof {
            lemma_grown_twice(old(geometry), &s2, &s3);
            assert(s3.exchange_since(old(geometry), 0) == s2.exchange_since(old(geometry), 0));
            assert(s3.exchange_since(old(geometry), 1) == s2.exchange_since(old(geometry), 1));
            assert(s3.exchange_since(old(geometry), 2) == s3.exchange_since(&s2, 0));
        }
        let pq_has_a = match has_a {
            Ok(has) => has,
            Err(e) => {
                return Err(e);
            },
        };
        let has_b = self.closed_interval_contains_point(
            geometry,
            SignedManifold::Shape(pq),
            b,
            space,
        );
        let ghost s4 = *geometry;
        proof {
            lemma_grown_twice(old(geometry), &s3, &s4);
            assert(s4.exchange_since(old(geometry), 0) == s3.exchange_since(old(geometry), 0));
            assert(s4.exchange_since(old(geometry), 1) == s3.exchange_since(old(geometry), 1));
            assert(s4.exchange_since(old(geometry), 2) == s3.exchange_since(old(geometry), 2));
            assert(s4.exchange_since(old(geometry), 3) == s4.exchange_since(&s3, 0));
        }
        let pq_has_b = match has_b {
            Ok(has) => has,
            Err(e) => {
                return Err(e);
            },
        };

        match merge_plan(a, b, p, q, ab_has_p, ab_has_q, pq_has_a, pq_has_b) {
            MergePlan::WholeSpace => Ok(MergedInterval::WholeSpace),
            MergePlan::First => Ok(MergedInterval::Old(ab)),
            MergePlan::Second => Ok(MergedInterval::Old(pq)),
            MergePlan::NoIntersection => Ok(MergedInterval::NoIntersection),
            MergePlan::Span { start, end } => {
                let made = geometry.new_point_pair(start, end, space);
                proof {
                    lemma_asked_once(
                        &s4,
                        geometry,
                        Exchange::NewPointPair { start, end, ambient: space, answer: made },
                    );
                    lemma_grown_twice(old(geometry), &s4, geometry);
                    assert(geometry.exchange_since(old(geometry), 0) == s4.exchange_since(
                        old(geometry),
                        0,
                    ));
                    assert(geometry.exchange_since(old(geometry), 1) == s4.exchange_since(
                        old(geometry),
                        1,
                    ));
                    assert(geometry.exchange_since(old(geometry), 2) == s4.exchange_since(
                        old(geometry),
                        2,
                    ));
                    assert(geometry.exchange_since(old(geometry), 3) == s4.exchange_since(
                        old(geometry),
                        3,
                    ));
                    assert(geometry.exchange_since(old(geometry), 4) == geometry.exchange_since(
                        &s4,
                        0,
                    ));
                }
                match made {
                    Ok(manifold) => Ok(MergedInterval::New(manifold)),
                    Err(e) => Err(CutError::Geometry(e)),
                }
            },
        }
    }

    /// What [`ShapeArena::try_merge_intervals`] asks and returns once the
    /// endpoints of both intervals are known, from the third question since
    /// `before` on.
    ///
    /// It asks whether the two intervals start at the same point and, if so,
    /// whether they end at the same point. Two intervals that do both are the
    /// same: the first is returned and nothing more is asked. Otherwise the
    /// result is as [`ShapeArena::merged_by_answers`] says.
    pub open spec fn merged_by_endpoints<G: ManifoldSpace>(
        &self,
        after: &Recorded<G>,
        before: &Recorded<G>,
        interval1: ShapeRef,
        interval2: ShapeRef,
        a: PointId,
        b: PointId,
        p: PointId,
        q: PointId,
        space: ManifoldId,
        r: Result<MergedInterval, CutError>,
    ) -> bool {
        &&& after.asked_since(before) >= 3
        &&& after.exchange_since(before, 2) matches Exchange::ApproxEq {
            a: first,
            b: second,
            answer: starts_coincide,
        }
        &&& first == a
        &&& second == p
        &&& if starts_coincide {
            &&& after.asked_since(before) >= 4
            &&& after.exchange_since(before, 3) matches Exchange::ApproxEq {
                a: third,
                b: fourth,
                answer: ends_coincide,
            }
            &&& third == b
            &&& fourth == q
            &&& if ends_coincide {
                r == Ok::<MergedInterval, CutError>(MergedInterval::Old(interval1))
                    && after.asked_since(before) == 4
            } else {
                self.merged_by_answers(after, before, 4, interval1, interval2, a, b, p, q, space, r)
            }
        } else {
            self.merged_by_answers(after, before, 3, interval1, interval2, a, b, p, q, space, r)
        }
    }

    /// What [`ShapeArena::try_merge_intervals`] asks, and what it returns for
    /// each answer; `after` and `before` are the geometry afterwards and
    /// before.
    ///
    /// The first question is for the points of the first interval, the second
    /// for the points of the second. A failure is returned, and nothing more
    /// is asked. With both pairs of points, as the signs of the references
    /// see them, the rest is as [`ShapeArena::merged_by_endpoints`] says.
    pub open spec fn asks_for_endpoints<G: ManifoldSpace>(
        &self,
        after: &Recorded<G>,
        before: &Recorded<G>,
        interval1: ShapeRef,
        interval2: ShapeRef,
        space: ManifoldId,
        r: Result<MergedInterval, CutError>,
    ) -> bool {
        &&& after.asked_since(before) >= 1
        &&& after.exchange_since(before, 0) matches Exchange::ToPointPair { manifold, answer }
        &&& manifold == self.manifold_of(interval1.id)
        &&& match spec_point_pair_of(answer, interval1.sign) {
            Err(e) => r == Err::<MergedInterval, CutError>(e) && after.asked_since(before) == 1,
            Ok(first) => {
                &&& after.asked_since(before) >= 2
                &&& after.exchange_since(before, 1) matches Exchange::ToPointPair {
                    manifold: second_manifold,
                    answer: second_answer,
                }
                &&& second_manifold == self.manifold_of(interval2.id)
                &&& match spec_point_pair_of(second_answer, interval2.sign) {
                    Err(e) => r == Err::<MergedInterval, CutError>(e) && after.asked_since(before)
                        == 2,
                    Ok(second) => self.merged_by_endpoints(
                        after,
                        before,
                        interval1,
                        interval2,
                        first.0,
                        first.1,
                        second.0,
                        second.1,
                        space,
                        r,
                    ),
                }
            },
        }
    }

    /// If two intervals (including their boundaries) intersect at all,
    /// returns the combined interval.
    ///
    /// The geometry is asked for the endpoints of the first interval and then
    /// of the second. Two intervals with coinciding endpoints are the same,
    /// and the first is returned. Otherwise the geometry tells which endpoints
    /// of each lie in the other, [`merge_plan`] decides, and the geometry makes
    /// the point pair of an interval that is new.
    pub fn try_merge_intervals<G: ManifoldSpace>(
        &self,
        geometry: &mut Recorded<G>,
        interval1: ShapeRef,
        interval2: ShapeRef,
        space: ManifoldId,
    ) -> (r: Result<MergedInterval, CutError>)
        requires
            self.contains(interval1.id),
            self.contains(interval2.id),
        ensures
            final(geometry).grown_from(old(geometry)),
            self.asks_for_endpoints(final(geometry), old(geometry), interval1, interval2, space, r),
            r matches Ok(MergedInterval::Old(kept)) ==> kept == interval1 || kept == interval2,
            r matches Err(e) ==> e is Geometry,
    {
        let ab = interval1;
        let pq = interval2;
        let first = self.shape_to_point_pair(geometry, SignedManifold::Shape(ab));
        let ghost s1 = *geometry;
        let (a, b) = match first {
            Ok(pair) => pair,
            Err(e) => {
                return Err(e);
            },
        };
        let second = self.shape_to_point_pair(geometry, SignedManifold::Shape(pq));
        let ghost s2 = *geometry;
        proof {
            lemma_grown_twice(old(geometry), &s1, &s2);
            assert(s2.exchange_since(old(geometry), 0) == s1.exchange_since(old(geometry), 0));
            assert(s2.exchange_since(old(geometry), 1) == s2.exchange_since(&s1, 0));
        }
        let (p, q) = match second {
            Ok(pair) => pair,
            Err(e) => {
                return Err(e);
            },
        };
        let starts_coincide = geometry.approx_eq(a, p);
        let ghost s3 = *geometry;
        proof {
            lemma_asked_once(&s2, &s3, Exchange::ApproxEq { a, b: p, answer: starts_coincide });
            lemma_grown_twice(old(geometry), &s2, &s3);
            assert(s3.exchange_since(old(geometry), 0) == s2.exchange_since(old(geometry), 0));
            assert(s3.exchange_since(old(geometry), 1) == s2.exchange_since(old(geometry), 1));
            assert(s3.exchange_since(old(geometry), 2) == s3.exchange_since(&s2, 0));
        }
        if starts_coincide {
            let ends_coincide = geometry.approx_eq(b, q);
            proof {
                lemma_asked_once(&s3, geometry, Exchange::ApproxEq { a: b, b: q, answer: ends_coincide });
                lemma_grown_twice(old(geometry), &s3, geometry);
                assert(geometry.exchange_since(old(geometry), 0) == s3.exchange_since(
                    old(geometry),
                    0,
                ));
                assert(geometry.exchange_since(old(geometry), 1) == s3.exchange_since(
                    old(geometry),
                    1,
                ));
                assert(geometry.exchange_since(old(geometry), 2) == s3.exchange_since(
                    old(geometry),
                    2,
                ));
                assert(geometry.exchange_since(old(geometry), 3) == geometry.exchange_since(&s3, 0));
            }
            if ends_coincide {
                // The intervals are the same.
                return Ok(MergedInterval::Old(ab));
            }
        }
        let ghost asked_ends = *geometry;
        let r = self.merge_by_containment(geometry, ab, pq, a, b, p, q, space);
        proof {
            lemma_shift_merge(
                self,
                old(geometry),
                &asked_ends,
                geometry,
                ab,
                pq,
                a,
                b,
                p,
                q,
                space,
                r,
            );
            assert(geometry.exchange_since(old(geometry), 0) == asked_ends.exchange_since(
                old(geometry),
                0,
            ));
            assert(geometry.exchange_since(old(geometry), 1) == asked_ends.exchange_since(
                old(geometry),
                1,
            ));
            assert(geometry.exchange_since(old(geometry), 2) == asked_ends.exchange_since(
                old(geometry),
                2,
            ));
            if starts_coincide {
                assert(geometry.exchange_since(old(geometry), 3) == asked_ends.exchange_since(
                    old(geometry),
                    3,
                ));
            }
        }
        r
    }

    /// What [`ShapeArena::endpoints_are_distinct`] asks first: the points of
    /// one of `intervals`. `ok` tells whether the answer was no failure.
    pub open spec fn asks_endpoints_of_one<G: ManifoldSpace>(
        &self,
        after: &Recorded<G>,
        before: &Recorded<G>,
        intervals: Set<ShapeRef>,
    ) -> bool {
        &&& after.grown_from(before)
        &&& after.asked_since(before) >= 1
        &&& after.exchange_since(before, 0) matches Exchange::ToPointPair { manifold, answer }
        &&& exists|member: ShapeRef| #[trigger]
            intervals.contains(member) && manifold == self.manifold_of(member.id)
    }

    /// What [`ShapeArena::endpoints_are_distinct`] makes of the answers that
    /// it gets: the answer is yes if every question for the points of a pair
    /// was answered and no two points were found to coincide; it is no if
    /// the last question found two points to coincide; it is a failure if the
    /// last question for the points of a pair was not answered. Before the
    /// last question, points were given and none were found to coincide.
    pub open spec fn distinct_by_answers<G: ManifoldSpace>(
        after: &Recorded<G>,
        before: &Recorded<G>,
        r: Result<bool, CutError>,
    ) -> bool {
        let n = after.asked_since(before);
        match r {
            Ok(distinct) => if distinct {
                spec_quiet_until(after, before, n)
            } else {
                &&& n >= 1
                &&& spec_quiet_until(after, before, n - 1)
                &&& after.exchange_since(before, n - 1) matches Exchange::ApproxEq {
                    a: _,
                    b: _,
                    answer,
                }
                &&& answer
            },
            Err(e) => {
                &&& n >= 1
                &&& spec_quiet_until(after, before, n - 1)
                &&& after.exchange_since(before, n - 1) matches Exchange::ToPointPair {
                    manifold: _,
                    answer: Err(failure),
                }
                &&& e == CutError::Geometry(failure)
            },
        }
    }

    /// Returns whether no two endpoints of the intervals coincide.
    ///
    /// The geometry tells the endpoints and which of them coincide. A set
    /// without intervals has no endpoints: the answer is yes, and nothing is
    /// asked. Otherwise the first question is for the points of one of the
    /// intervals, and a failure to answer it is returned.
    pub fn endpoints_are_distinct<G: ManifoldSpace>(
        &self,
        geometry: &mut Recorded<G>,
        intervals: &ShapeSet,
    ) -> (r: Result<bool, CutError>)
        requires
            intervals.wf(),
            self.holds_all(intervals@),
        ensures
            final(geometry).grown_from(old(geometry)),
            Self::distinct_by_answers(final(geometry), old(geometry), r),
            intervals@ == Set::<ShapeRef>::empty() ==> r == Ok::<bool, CutError>(true) && final(geometry).record() == old(geometry).record(),
            intervals@ != Set::<ShapeRef>::empty() ==> {
                &&& self.asks_endpoints_of_one(final(geometry), old(geometry), intervals@)
                &&& final(geometry).exchange_since(
                    old(geometry),
                    0,
                ) matches Exchange::ToPointPair { manifold: _, answer: Err(e) } ==> r == Err::<
                    bool,
                    CutError,
                >(CutError::Geometry(e)) && final(geometry).asked_since(old(geometry)) == 1
            },
            r matches Err(e) ==> e is Geometry,
    {
        let members = intervals.to_vec();
        let mut verts: Vec<PointId> = Vec::new();
        proof {
            if intervals@ != Set::<ShapeRef>::empty() && members.len() == 0 {
                assert(!(intervals@ =~= Set::<ShapeRef>::empty()));
                let member = choose|member: ShapeRef| intervals@.contains(member);
                assert(members@.contains(member));
            }
        }
        let mut i: usize = 0;
        while i < members.len()
            invariant
                i <= members.len(),
                self.holds_all(intervals@),
                forall|r: ShapeRef| members@.contains(r) <==> intervals@.contains(r),
                members.len() == 0 ==> verts.len() == 0,
                geometry.grown_from(old(geometry)),
                i == 0 ==> geometry.record() == old(geometry).record(),
                i > 0 ==> self.asks_endpoints_of_one(geometry, old(geometry), intervals@)
                    && geometry.exchange_since(
                    old(geometry),
                    0,
                ) matches Exchange::ToPointPair { manifold: _, answer: Ok(_) },
                spec_quiet_until(geometry, old(geometry), geometry.asked_since(old(geometry))),
            decreases members.len() - i,
        {
            let member = members[i];
            assert(members@.contains(member));
            assert(intervals@.contains(member));
            let ghost before = *geometry;
            let pair = self.shape_to_point_pair(geometry, SignedManifold::Shape(member));
            proof {
                if i > 0 {
                    lemma_first_exchange_kept(old(geometry), &before, geometry);
                } else {
                    assert(geometry.exchange_since(old(geometry), 0) == geometry.exchange_since(
                        &before,
                        0,
                    ));
                    assert(geometry.asked_since(old(geometry)) == 1);
                    assert(intervals@.contains(member) && self.manifold_of(member.id)
                        == self.manifold_of(member.id));
                }
                lemma_grown_twice(old(geometry), &before, geometry);
                assert(self.asks_endpoints_of_one(geometry, old(geometry), intervals@));
                lemma_quiet_step(old(geometry), &before, geometry);
            }
            let (a, b) = match pair {
                Ok(pair) => pair,
                Err(e) => {
                    return Err(e);
                },
            };
            verts.push(a);
            verts.push(b);
            i += 1;
        }
        proof {
            if intervals@ == Set::<ShapeRef>::empty() && members.len() > 0 {
                assert(members@.contains(members[0]));
            }
        }
        let ghost collected = *geometry;
        while verts.len() > 0
            invariant
                intervals@ == Set::<ShapeRef>::empty() ==> verts.len() == 0 && geometry.record()
                    == old(geometry).record(),
                geometry.grown_from(&collected),
                collected.grown_from(old(geometry)),
                intervals@ != Set::<ShapeRef>::empty() ==> self.asks_endpoints_of_one(
                    &collected,
                    old(geometry),
                    intervals@,
                ) && collected.exchange_since(
                    old(geometry),
                    0,
                ) matches Exchange::ToPointPair { manifold: _, answer: Ok(_) },
                geometry.grown_from(old(geometry)),
                spec_quiet_until(geometry, old(geometry), geometry.asked_since(old(geometry))),
            decreases verts.len(),
        {
            let v1 = verts.pop().unwrap();
            let mut j: usize = 0;
            while j < verts.len()
                invariant
                    j <= verts.len(),
                    intervals@ != Set::<ShapeRef>::empty(),
                    geometry.grown_from(&collected),
                    collected.grown_from(old(geometry)),
                    self.asks_endpoints_of_one(&collected, old(geometry), intervals@),
                    collected.exchange_since(
                        old(geometry),
                        0,
                    ) matches Exchange::ToPointPair { manifold: _, answer: Ok(_) },
                    geometry.grown_from(old(geometry)),
                    spec_quiet_until(geometry, old(geometry), geometry.asked_since(old(geometry))),
                decreases verts.len() - j,
            {
                let ghost before = *geometry;
                let same = geometry.approx_eq(v1, verts[j]);
                proof {
                    lemma_asked_once(
                        &before,
                        geometry,
                        Exchange::ApproxEq { a: v1, b: verts[j as int], answer: same },
                    );
                    lemma_grown_twice(&collected, &before, geometry);
                    lemma_quiet_step(old(geometry), &before, geometry);
                }
                if same {
                    proof {
                        lemma_first_exchange_kept(old(geometry), &collected, geometry);
                    }
                    return Ok(false);
                }
                j += 1;
            }
        }
        proof {
            if intervals@ != Set::<ShapeRef>::empty() {
                lemma_first_exchange_kept(old(geometry), &collected, geometry);
            } else {
                lemma_grown_twice(old(geometry), &collected, geometry);
            }
        }
        Ok(true)
    }

    /// What [`ShapeArena::absorb_merge`] makes of a merge: what becomes of the
    /// interval `merged` that is being intersected and of the set
    /// `simplified` of the intervals that stay, once the complement of
    /// `merged` has been merged with the complement of `existing`.
    ///
    /// If the two cover the whole line, nothing is left. If they do not
    /// meet, `existing` stays and `merged` goes on. If one covers the other,
    /// its complement goes on in place of `merged`. In these cases nothing
    /// is asked and no shape is made. If the two merge into a new interval,
    /// the geometry is asked to flip its point pair, and a failure is
    /// returned; the flipped pair becomes a new shape, which goes on in place
    /// of `merged`.
    pub open spec fn absorbed<G: ManifoldSpace>(
        &self,
        before: &ShapeArena,
        after: &Recorded<G>,
        earlier: &Recorded<G>,
        simplified_before: Set<ShapeRef>,
        simplified_after: Set<ShapeRef>,
        existing: ShapeRef,
        merged: ShapeRef,
        outcome: MergedInterval,
        r: Result<Option<ShapeRef>, CutError>,
    ) -> bool {
        match outcome {
            MergedInterval::WholeSpace => {
                &&& r == Ok::<Option<ShapeRef>, CutError>(None)
                &&& simplified_after == simplified_before
                &&& after.record() == earlier.record()
                &&& self.nodes() == before.nodes()
                &&& self.next_slot() == before.next_slot()
                &&& self.packed() == before.packed()
            },
            MergedInterval::NoIntersection => {
                &&& r == Ok::<Option<ShapeRef>, CutError>(Some(merged))
                &&& simplified_after == simplified_before.insert(existing)
                &&& after.record() == earlier.record()
                &&& self.nodes() == before.nodes()
                &&& self.next_slot() == before.next_slot()
                &&& self.packed() == before.packed()
            },
            MergedInterval::Old(shape) => {
                &&& r == Ok::<Option<ShapeRef>, CutError>(Some(shape.spec_neg()))
                &&& simplified_after == simplified_before
                &&& after.record() == earlier.record()
                &&& self.nodes() == before.nodes()
                &&& self.next_slot() == before.next_slot()
                &&& self.packed() == before.packed()
            },
            MergedInterval::New(manifold) => {
                &&& simplified_after == simplified_before
                &&& after.asked_since(earlier) >= 1
                &&& after.exchange_since(earlier, 0) matches Exchange::Flip {
                    manifold: asked,
                    answer,
                }
                &&& asked == manifold
                &&& match answer {
                    Err(e) => r == Err::<Option<ShapeRef>, CutError>(CutError::Geometry(e))
                        && after.asked_since(earlier) == 1 && self.nodes() == before.nodes(),
                    Ok(flipped) => {
                        &&& after.asked_since(earlier) == 2
                        &&& after.exchange_since(earlier, 1) matches Exchange::Ndim {
                            manifold: second,
                            answer: rank,
                        }
                        &&& second == flipped
                        &&& rank matches Err(e) ==> r == Err::<Option<ShapeRef>, CutError>(
                            CutError::Geometry(e),
                        )
                        &&& r != Ok::<Option<ShapeRef>, CutError>(None)
                        &&& r matches Ok(Some(added)) ==> {
                            &&& added.sign == Sign::Pos
                            &&& !before.contains(added.id)
                            &&& self.manifold_of(added.id) == flipped
                            &&& self.boundary_of(added.id) == Set::<ShapeRef>::empty()
                        }
                        &&& exists|turned: Recorded<G>| #[trigger]
                            turned.asked_once(earlier, after.exchange_since(earlier, 0))
                                && self.whole_added(
                                before,
                                after,
                                &turned,
                                flipped,
                                match r {
                                    Ok(Some(added)) => Ok::<ShapeRef, CutError>(added),
                                    Err(e) => Err::<ShapeRef, CutError>(e),
                                    Ok(None) => Err::<ShapeRef, CutError>(CutError::ArenaFull),
                                },
                            )
                    },
                }
            },
        }
    }

    /// Takes the result of merging the complement of `merged` with the
    /// complement of `existing` into the intersection that is being made:
    /// returns the interval that goes on in place of `merged`, or `None` if
    /// nothing is left of the line.
    pub fn absorb_merge<G: ManifoldSpace>(
        &mut self,
        geometry: &mut Recorded<G>,
        simplified: &mut ShapeSet,
        existing: ShapeRef,
        merged: ShapeRef,
        outcome: MergedInterval,
    ) -> (r: Result<Option<ShapeRef>, CutError>)
        requires
            old(self).wf(),
            old(simplified).wf(),
            old(self).contains(existing.id),
            old(self).contains(merged.id),
            outcome matches MergedInterval::Old(shape) ==> old(self).contains(shape.id),
        ensures
            final(self).wf(),
            r matches Err(CutError::ArenaFull) ==> final(self).next_slot() > u32::MAX,
            r matches Err(e) ==> e != CutError::MultipleIntersectionShapes,
            old(self).extended_by(final(self)),
            final(self).spec_roots() == old(self).spec_roots(),
            final(geometry).grown_from(old(geometry)),
            final(simplified).wf(),
            final(self).absorbed(
                old(self),
                final(geometry),
                old(geometry),
                old(simplified)@,
                final(simplified)@,
                existing,
                merged,
                outcome,
                r,
            ),
            r matches Ok(Some(next)) ==> final(self).contains(next.id),
            r matches Err(e) ==> e != CutError::DuplicateEndpoint,
    {
        match outcome {
            MergedInterval::Old(shape) => Ok(Some(shape.neg())),
            MergedInterval::New(manifold) => {
                let turned = geometry.flip(manifold);
                let ghost g1 = *geometry;
                proof {
                    lemma_asked_once(
                        old(geometry),
                        &g1,
                        Exchange::Flip { manifold, answer: turned },
                    );
                }
                let flipped = match turned {
                    Ok(flipped) => flipped,
                    Err(e) => {
                        return Err(CutError::Geometry(e));
                    },
                };
                let added = self.add_whole(geometry, flipped);
                proof {
                    lemma_grown_twice(old(geometry), &g1, geometry);
                    assert(g1.asked_once(old(geometry), geometry.exchange_since(old(geometry), 0)));
                    assert(geometry.exchange_since(old(geometry), 0) == g1.exchange_since(
                        old(geometry),
                        0,
                    ));
                    assert(geometry.exchange_since(old(geometry), 1) == geometry.exchange_since(
                        &g1,
                        0,
                    ));
                }
                match added {
                    Ok(added) => Ok(Some(added)),
                    Err(e) => Err(e),
                }
            },
            MergedInterval::WholeSpace => {
                // The whole line is excluded; there is nothing left.
                Ok(None)
            },
            MergedInterval::NoIntersection => {
                let _ = simplified.insert(existing);
                Ok(Some(merged))
            },
        }
    }

    /// One interval was merged: `existing` with the interval that `prev`
    /// had left, and `next` is where the merging stands afterwards.
    ///
    /// The complement of `existing` is merged with the complement of that
    /// interval, as [`ShapeArena::asks_for_endpoints`] says. A failure is
    /// returned, and nothing more is asked. The merge is taken up as
    /// [`ShapeArena::absorbed`] says.
    pub open spec fn merge_step<G: ManifoldSpace>(
        prev: Merging<G>,
        next: Merging<G>,
        existing: ShapeRef,
        space: ManifoldId,
    ) -> bool {
        &&& prev.result matches Ok(Some(merged))
        &&& prev.arena.asks_for_endpoints(
            &next.middle,
            &prev.geometry,
            existing.spec_neg(),
            merged.spec_neg(),
            space,
            next.outcome,
        )
        &&& match next.outcome {
            Err(e) => {
                &&& next.result == Err::<Option<ShapeRef>, CutError>(e)
                &&& next.geometry == next.middle
                &&& next.arena == prev.arena
                &&& next.kept == prev.kept
            },
            Ok(merge) => next.arena.absorbed(
                &prev.arena,
                &next.geometry,
                &next.middle,
                prev.kept,
                next.kept,
                existing,
                merged,
                merge,
                next.result,
            ),
        }
    }

    /// The intervals of `existing` were merged with `new_interval` one after
    /// the other, in the order `order`, as far as `steps` tells: the merging
    /// begins with `new_interval`, the arena `before` and the geometry
    /// `earlier`, and `steps[k + 1]` is where it stands after `order[k]`
    /// was merged, as [`ShapeArena::merge_step`] says.
    pub open spec fn merged_in_steps<G: ManifoldSpace>(
        before: &ShapeArena,
        earlier: &Recorded<G>,
        existing: Set<ShapeRef>,
        new_interval: ShapeRef,
        space: ManifoldId,
        order: Seq<ShapeRef>,
        steps: Seq<Merging<G>>,
    ) -> bool {
        &&& order.no_duplicates()
        &&& forall|x: ShapeRef| order.contains(x) <==> existing.contains(x)
        &&& 1 <= steps.len() <= order.len() + 1
        &&& steps[0].result == Ok::<Option<ShapeRef>, CutError>(Some(new_interval))
        &&& steps[0].arena == *before
        &&& steps[0].geometry == *earlier
        &&& steps[0].kept == Set::<ShapeRef>::empty()
        &&& forall|k: int|
            0 <= k < steps.len() - 1 ==> Self::merge_step(
                #[trigger] steps[k],
                steps[k + 1],
                order[k],
                space,
            )
    }

    /// What [`ShapeArena::incremental_simplify_intervals_intersection`] asks
    /// and returns; `before` is the arena as it was, `after` and `earlier`
    /// the geometry afterwards and before.
    ///
    /// The existing intervals are merged with the new one in some order, as
    /// [`ShapeArena::merged_in_steps`] says, up to the first merge that fails
    /// or leaves nothing of the line: the failure is returned, or nothing.
    /// Otherwise every interval was merged, and the result holds the
    /// intervals that stayed as they were and the one that the last merge
    /// left. If the checks of topology are on, the geometry is then asked
    /// whether the endpoints of the result are distinct, as
    /// [`ShapeArena::distinct_by_answers`] says: a failure is returned, and
    /// endpoints that coincide give `DuplicateEndpoint`.
    pub open spec fn simplified_in_steps<G: ManifoldSpace>(
        &self,
        before: &ShapeArena,
        after: &Recorded<G>,
        earlier: &Recorded<G>,
        existing: Set<ShapeRef>,
        new_interval: ShapeRef,
        space: ManifoldId,
        r: Result<Option<ShapeSet>, CutError>,
    ) -> bool {
        exists|order: Seq<ShapeRef>, steps: Seq<Merging<G>>|
            {
                let last = steps[steps.len() - 1];
                &&& #[trigger] Self::merged_in_steps(
                    before,
                    earlier,
                    existing,
                    new_interval,
                    space,
                    order,
                    steps,
                )
                &&& last.arena == *self
                &&& match last.result {
                    Err(e) => r == Err::<Option<ShapeSet>, CutError>(e) && last.geometry == *after,
                    Ok(None) => r matches Ok(None) && last.geometry == *after,
                    Ok(Some(merged)) => {
                        &&& steps.len() == order.len() + 1
                        &&& Self::checked_by_answers(
                            before.spec_checks(),
                            after,
                            &last.geometry,
                            last.kept.insert(merged),
                            r,
                        )
                    },
                }
            }
    }

    /// What the check of the endpoints makes of the intervals `all` that the
    /// merging left; `after` and `merged` are the geometry afterwards and
    /// after the merging.
    ///
    /// Without the checks of topology nothing is asked, and the intervals
    /// are returned. With them the geometry is asked whether the endpoints
    /// are distinct, as [`ShapeArena::distinct_by_answers`] says: a failure
    /// is returned, endpoints that coincide give `DuplicateEndpoint`, and
    /// otherwise the intervals are returned.
    pub open spec fn checked_by_answers<G: ManifoldSpace>(
        checks: bool,
        after: &Recorded<G>,
        merged: &Recorded<G>,
        all: Set<ShapeRef>,
        r: Result<Option<ShapeSet>, CutError>,
    ) -> bool {
        if checks {
            exists|distinct: Result<bool, CutError>| #[trigger]
                Self::distinct_by_answers(after, merged, distinct) && match distinct {
                    Ok(true) => r matches Ok(Some(simplified)) && simplified@ == all,
                    Ok(false) => r == Err::<Option<ShapeSet>, CutError>(
                        CutError::DuplicateEndpoint,
                    ),
                    Err(e) => r == Err::<Option<ShapeSet>, CutError>(e),
                }
        } else {
            r matches Ok(Some(simplified)) && simplified@ == all && after.record()
                == merged.record()
        }
    }

    /// `after` is the geometry right after the merge that left nothing of the
    /// line: the complement of one of `existing` was merged with the
    /// complement of an interval, the questions were those that
    /// [`ShapeArena::asks_for_endpoints`] tells, and the answers made the two
    /// cover the whole line.
    pub open spec fn emptied_by_merge<G: ManifoldSpace>(
        &self,
        after: &Recorded<G>,
        earlier: &Recorded<G>,
        existing: Set<ShapeRef>,
        space: ManifoldId,
    ) -> bool {
        exists|middle: Recorded<G>, interval: ShapeRef, merged: ShapeRef|
            {
                &&& middle.grown_from(earlier)
                &&& after.grown_from(&middle)
                &&& existing.contains(interval)
                &&& self.contains(interval.id)
                &&& self.contains(merged.id)
                &&& #[trigger] self.asks_for_endpoints(
                    after,
                    &middle,
                    interval.spec_neg(),
                    merged.spec_neg(),
                    space,
                    Ok::<MergedInterval, CutError>(MergedInterval::WholeSpace),
                )
            }
    }

    /// Intersects a set of intervals with another interval, where each
    /// interval is represented as a point pair.
    ///
    /// Returns `None` if the intersection is empty. The intersection of
    /// intervals is the complement of the union of their complements, so the
    /// complement of the new interval is merged with the complement of each
    /// existing one in turn: an interval that it does not meet stays, and the
    /// others are taken up into it. If the checks of topology are on, two
    /// endpoints that coincide in the result give `DuplicateEndpoint`.
    #[verifier::rlimit(40)]
    pub fn incremental_simplify_intervals_intersection<G: ManifoldSpace>(
        &mut self,
        geometry: &mut Recorded<G>,
        existing_intervals: &ShapeSet,
        new_interval: ShapeRef,
        space: ManifoldId,
    ) -> (r: Result<Option<ShapeSet>, CutError>)
        requires
            old(self).wf(),
            existing_intervals.wf(),
            old(self).holds_all(existing_intervals@),
            old(self).contains(new_interval.id),
        ensures
            final(self).wf(),
            r matches Err(CutError::ArenaFull) ==> final(self).next_slot() > u32::MAX,
            r matches Err(e) ==> e != CutError::MultipleIntersectionShapes,
            old(self).extended_by(final(self)),
            final(self).spec_roots() == old(self).spec_roots(),
            r matches Ok(Some(simplified)) ==> {
                &&& simplified.wf()
                &&& final(self).holds_all(simplified@)
                &&& simplified@ != Set::<ShapeRef>::empty()
                &&& forall|kept: ShapeRef|
                    simplified@.contains(kept) && old(self).contains(kept.id) ==> kept
                        == new_interval || existing_intervals@.contains(kept)
            },
            existing_intervals@ == Set::<ShapeRef>::empty() && !old(self).spec_checks() ==> {
                &&& r matches Ok(Some(simplified))
                &&& simplified@ == set![new_interval]
                &&& final(self).nodes() == old(self).nodes()
                &&& final(geometry).record() == old(geometry).record()
            },
            final(geometry).grown_from(old(geometry)),
            final(self).simplified_in_steps(
                old(self),
                final(geometry),
                old(geometry),
                existing_intervals@,
                new_interval,
                space,
                r,
            ),
            r matches Ok(None) ==> final(self).emptied_by_merge(
                final(geometry),
                old(geometry),
                existing_intervals@,
                space,
            ),
            r == Err::<Option<ShapeSet>, CutError>(CutError::DuplicateEndpoint) ==> old(self).spec_checks() && exists|middle: Recorded<G>|
                {
                    &&& middle.grown_from(old(geometry))
                    &&& final(geometry).grown_from(&middle)
                    &&& #[trigger] Self::distinct_by_answers(
                        final(geometry),
                        &middle,
                        Ok::<bool, CutError>(false),
                    )
                },
    {
        let mut merged = new_interval;
        let mut simplified = ShapeSet::new();
        let existing = existing_intervals.to_vec();
        let ghost mut steps: Seq<Merging<G>> = seq![
            Merging {
                middle: *old(geometry),
                outcome: Ok(MergedInterval::NoIntersection),
                result: Ok(Some(new_interval)),
                arena: *old(self),
                geometry: *old(geometry),
                kept: Set::empty(),
            },
        ];
        proof {
            if existing_intervals@ == Set::<ShapeRef>::empty() && existing.len() > 0 {
                assert(existing@.contains(existing[0]));
            }
        }
        let mut i: usize = 0;
        while i < existing.len()
            invariant
                self.wf(),
                old(self).extended_by(self),
                self.spec_roots() == old(self).spec_roots(),
                i <= existing.len(),
                old(self).holds_all(existing_intervals@),
                forall|r: ShapeRef| existing@.contains(r) <==> existing_intervals@.contains(r),
                self.contains(merged.id),
                old(self).contains(merged.id) ==> merged == new_interval
                    || existing_intervals@.contains(merged),
                simplified.wf(),
                self.holds_all(simplified@),
                forall|kept: ShapeRef| #[trigger]
                    simplified@.contains(kept) ==> existing_intervals@.contains(kept),
                existing.len() == 0 ==> self.nodes() == old(self).nodes(),
                geometry.grown_from(old(geometry)),
                existing.len() == 0 ==> geometry.record() == old(geometry).record(),
                existing@.no_duplicates(),
                steps.len() == i + 1,
                Self::merged_in_steps(
                    old(self),
                    old(geometry),
                    existing_intervals@,
                    new_interval,
                    space,
                    existing@,
                    steps,
                ),
                steps[i as int].result == Ok::<Option<ShapeRef>, CutError>(Some(merged)),
                steps[i as int].arena == *self,
                steps[i as int].geometry == *geometry,
                steps[i as int].kept == simplified@,
            decreases existing.len() - i,
        {
            let existing_interval = existing[i];
            assert(existing@.contains(existing_interval));
            assert(existing_intervals@.contains(existing_interval));
            assert(old(self).contains(existing_interval.id));
            assert(self.contains(existing_interval.id));
            let ghost before = *self;
            let ghost g0 = *geometry;
            let outcome = self.try_merge_intervals(
                geometry,
                existing_interval.neg(),
                merged.neg(),
                space,
            );
            let ghost g1 = *geometry;
            proof {
                lemma_grown_twice(old(geometry), &g0, &g1);
            }
            let merge = match outcome {
                Ok(merge) => merge,
                Err(e) => {
                    proof {
                        let next = Merging {
                            middle: g1,
                            outcome,
                            result: Err(e),
                            arena: *self,
                            geometry: g1,
                            kept: simplified@,
                        };
                        Self::lemma_step_made(
                            old(self),
                            old(geometry),
                            existing_intervals@,
                            new_interval,
                            space,
                            existing@,
                            steps,
                            next,
                        );
                        assert(steps.push(next)[steps.len() as int] == next);
                    }
                    return Err(e);
                },
            };
            proof {
                if merge is WholeSpace {
                    assert(self.asks_for_endpoints(
                        &g1,
                        &g0,
                        existing_interval.spec_neg(),
                        merged.spec_neg(),
                        space,
                        Ok::<MergedInterval, CutError>(MergedInterval::WholeSpace),
                    ));
                }
            }
            let ghost merged_before = merged;
            let absorbed = self.absorb_merge(
                geometry,
                &mut simplified,
                existing_interval,
                merged,
                merge,
            );
            proof {
                lemma_grown_twice(old(geometry), &g1, geometry);
            }
            let ghost taken = Merging {
                middle: g1,
                outcome,
                result: absorbed,
                arena: *self,
                geometry: *geometry,
                kept: simplified@,
            };
            proof {
                Self::lemma_step_made(
                    old(self),
                    old(geometry),
                    existing_intervals@,
                    new_interval,
                    space,
                    existing@,
                    steps,
                    taken,
                );
                assert(steps.push(taken)[steps.len() as int] == taken);
            }
            match absorbed {
                Ok(Some(next)) => {
                    merged = next;
                },
                Ok(None) => {
                    proof {
                        assert(merge is WholeSpace);
                        assert(self.nodes() == before.nodes());
                        assert(self.manifold_of(existing_interval.id) == before.manifold_of(
                            existing_interval.id,
                        ));
                        assert(self.manifold_of(merged_before.id) == before.manifold_of(
                            merged_before.id,
                        ));
                        assert(self.asks_for_endpoints(
                            geometry,
                            &g0,
                            existing_interval.spec_neg(),
                            merged_before.spec_neg(),
                            space,
                            Ok::<MergedInterval, CutError>(MergedInterval::WholeSpace),
                        ));
                    }
                    return Ok(None);
                },
                Err(e) => {
                    return Err(e);
                },
            }
            proof {
                assert forall|r: ShapeRef| #[trigger] simplified@.contains(r) implies self.contains(
                    r.id,
                ) by {
                    assert(existing_intervals@.contains(r));
                    assert(old(self).contains(r.id));
                }
                assert forall|id: ShapeId| #[trigger] old(self).contains(id) implies self.contains(
                    id,
                ) && self.same_shape_at(old(self), id) by {
                    assert(before.contains(id));
                }
                steps = steps.push(taken);
            }
            i += 1;
        }
        let ghost merged_steps = *geometry;
        let ghost kept = simplified@;
        let _ = simplified.insert(merged);
        assert(simplified@.contains(merged));

        // Check that all points are unique.
        if self.checks() {
            let ghost merged_all = *geometry;
            let distinct = self.endpoints_are_distinct(geometry, &simplified);
            proof {
                lemma_grown_twice(old(geometry), &merged_all, geometry);
            }
            match distinct {
                Ok(true) => {},
                Ok(false) => {
                    proof {
                        assert(Self::distinct_by_answers(
                            geometry,
                            &merged_all,
                            Ok::<bool, CutError>(false),
                        ));
                        assert(Self::distinct_by_answers(geometry, &merged_steps, distinct));
                    }
                    return Err(CutError::DuplicateEndpoint);
                },
                Err(e) => {
                    proof {
                        assert(Self::distinct_by_answers(geometry, &merged_steps, distinct));
                    }
                    return Err(e);
                },
            }
            proof {
                assert(Self::distinct_by_answers(
                    geometry,
                    &merged_steps,
                    Ok::<bool, CutError>(true),
                ));
            }
        }
        proof {
            assert(simplified@ == kept.insert(merged));
            if existing_intervals@ == Set::<ShapeRef>::empty() {
                assert(simplified@ =~= set![new_interval]);
            }
        }
        Ok(Some(simplified))
    }

    /// A merging that has come through some intervals goes on by one step.
    proof fn lemma_step_made<G: ManifoldSpace>(
        before: &ShapeArena,
        earlier: &Recorded<G>,
        existing: Set<ShapeRef>,
        new_interval: ShapeRef,
        space: ManifoldId,
        order: Seq<ShapeRef>,
        steps: Seq<Merging<G>>,
        next: Merging<G>,
    )
        requires
            Self::merged_in_steps(before, earlier, existing, new_interval, space, order, steps),
            steps.len() <= order.len(),
            Self::merge_step(steps[steps.len() - 1], next, order[steps.len() - 1], space),
        ensures
            Self::merged_in_steps(
                before,
                earlier,
                existing,
                new_interval,
                space,
                order,
                steps.push(next),
            ),
    {
        let more = steps.push(next);
        assert forall|k: int| 0 <= k < more.len() - 1 implies Self::merge_step(
            #[trigger] more[k],
            more[k + 1],
            order[k],
            space,
        ) by {
            if k < steps.len() - 1 {
                assert(Self::merge_step(steps[k], steps[k + 1], order[k], space));
            }
        }
    }

    /// The intervals `intervals` were taken in one after the other, as far
    /// as `steps` tells: the simplification begins with no interval, the
    /// arena `before` and the geometry `earlier`, and `steps[k + 1]` is where
    /// it stands after `intervals[k]` was intersected with what was there,
    /// as [`ShapeArena::simplified_in_steps`] says.
    pub open spec fn intersected_in_steps<G: ManifoldSpace>(
        before: &ShapeArena,
        earlier: &Recorded<G>,
        intervals: Seq<ShapeRef>,
        space: ManifoldId,
        steps: Seq<Simplifying<G>>,
    ) -> bool {
        &&& 1 <= steps.len() <= intervals.len() + 1
        &&& steps[0].arena == *before
        &&& steps[0].geometry == *earlier
        &&& steps[0].result matches Ok(Some(none))
        &&& none@ == Set::<ShapeRef>::empty()
        &&& forall|k: int|
            0 <= k < steps.len() - 1 ==> ((#[trigger] steps[k]).result matches Ok(Some(kept))
                && steps[k + 1].arena.simplified_in_steps(
                &steps[k].arena,
                &steps[k + 1].geometry,
                &steps[k].geometry,
                kept@,
                intervals[k],
                space,
                steps[k + 1].result,
            ))
    }

    /// What [`ShapeArena::simplify_intervals_intersection`] asks and
    /// returns; `before` is the arena as it was, `after` and `earlier` the
    /// geometry afterwards and before.
    ///
    /// The intervals are taken in in order, as
    /// [`ShapeArena::intersected_in_steps`] says, up to the first that fails
    /// or leaves nothing: the failure is returned, or nothing. Otherwise
    /// every interval was taken in, and the result is what the last one
    /// left.
    pub open spec fn intersection_simplified<G: ManifoldSpace>(
        &self,
        before: &ShapeArena,
        after: &Recorded<G>,
        earlier: &Recorded<G>,
        intervals: Seq<ShapeRef>,
        space: ManifoldId,
        r: Result<Option<ShapeSet>, CutError>,
    ) -> bool {
        exists|steps: Seq<Simplifying<G>>|
            {
                let last = steps[steps.len() - 1];
                &&& #[trigger] Self::intersected_in_steps(before, earlier, intervals, space, steps)
                &&& last.arena == *self
                &&& last.geometry == *after
                &&& match last.result {
                    Err(e) => r == Err::<Option<ShapeSet>, CutError>(e),
                    Ok(None) => r matches Ok(None),
                    Ok(Some(left)) => {
                        &&& steps.len() == intervals.len() + 1
                        &&& r matches Ok(Some(simplified))
                        &&& simplified@ == left@
                    },
                }
            }
    }

    /// Simplifies a subset of a one-dimensional manifold represented as the
    /// intersection of a set of intervals, where each interval is represented
    /// as a point pair.
    ///
    /// Returns `None` if the intersection is empty. The intersection of no
    /// intervals is the whole line: the empty set of intervals.
    pub fn simplify_intervals_intersection<G: ManifoldSpace>(
        &mut self,
        geometry: &mut Recorded<G>,
        intervals: &Vec<ShapeRef>,
        space: ManifoldId,
    ) -> (r: Result<Option<ShapeSet>, CutError>)
        requires
            old(self).wf(),
            forall|i: int| 0 <= i < intervals.len() ==> old(self).contains((#[trigger] intervals[i]).id),
        ensures
            final(self).wf(),
            r matches Err(CutError::ArenaFull) ==> final(self).next_slot() > u32::MAX,
            r matches Err(e) ==> e != CutError::MultipleIntersectionShapes,
            old(self).extended_by(final(self)),
            final(self).spec_roots() == old(self).spec_roots(),
            r matches Ok(Some(simplified)) ==> {
                &&& simplified.wf()
                &&& final(self).holds_all(simplified@)
                &&& (simplified@ == Set::<ShapeRef>::empty()) == (intervals.len() == 0)
            },
            intervals.len() == 0 ==> {
                &&& r matches Ok(Some(simplified))
                &&& simplified@ == Set::<ShapeRef>::empty()
                &&& final(self).nodes() == old(self).nodes()
                &&& final(geometry).record() == old(geometry).record()
            },
            intervals.len() == 1 && !old(self).spec_checks() ==> {
                &&& r matches Ok(Some(simplified))
                &&& simplified@ == set![intervals[0]]
                &&& final(self).nodes() == old(self).nodes()
                &&& final(geometry).record() == old(geometry).record()
            },
            final(geometry).grown_from(old(geometry)),
            final(self).intersection_simplified(
                old(self),
                final(geometry),
                old(geometry),
                intervals@,
                space,
                r,
            ),
    {
        let mut simplified = ShapeSet::new();
        let ghost mut steps: Seq<Simplifying<G>> = seq![
            Simplifying { arena: *old(self), geometry: *old(geometry), result: Ok(Some(simplified)) },
        ];
        let mut i: usize = 0;
        while i < intervals.len()
            invariant
                self.wf(),
                old(self).extended_by(self),
                self.spec_roots() == old(self).spec_roots(),
                i <= intervals.len(),
                forall|i: int|
                    0 <= i < intervals.len() ==> old(self).contains((#[trigger] intervals[i]).id),
                simplified.wf(),
                self.holds_all(simplified@),
                (simplified@ == Set::<ShapeRef>::empty()) == (i == 0),
                intervals.len() == 0 ==> self.nodes() == old(self).nodes(),
                geometry.grown_from(old(geometry)),
                i == 0 ==> self.nodes() == old(self).nodes() && geometry.record() == old(geometry).record(),
                self.spec_checks() == old(self).spec_checks(),
                i == 1 && !self.spec_checks() ==> simplified@ == set![intervals[0]] && self.nodes()
                    == old(self).nodes() && geometry.record() == old(geometry).record(),
                steps.len() == i + 1,
                Self::intersected_in_steps(old(self), old(geometry), intervals@, space, steps),
                steps[i as int].arena == *self,
                steps[i as int].geometry == *geometry,
                steps[i as int].result matches Ok(Some(kept)) && kept@ == simplified@,
            decreases intervals.len() - i,
        {
            let interval = intervals[i];
            assert(old(self).contains(intervals[i as int].id));
            let ghost before = *self;
            let taken = self.incremental_simplify_intervals_intersection(
                geometry,
                &simplified,
                interval,
                space,
            );
            proof {
                let next = Simplifying { arena: *self, geometry: *geometry, result: taken };
                let more = steps.push(next);
                assert forall|k: int| 0 <= k < more.len() - 1 implies ((#[trigger] more[k]).result matches Ok(
                    Some(kept),
                ) && more[k + 1].arena.simplified_in_steps(
                    &more[k].arena,
                    &more[k + 1].geometry,
                    &more[k].geometry,
                    kept@,
                    intervals@[k],
                    space,
                    more[k + 1].result,
                )) by {
                    if k < steps.len() - 1 {
                        assert(steps[k].result is Ok);
                        assert(more[k] == steps[k]);
                        assert(more[k + 1] == steps[k + 1]);
                    } else {
                        assert(more[k] == steps[i as int]);
                        assert(more[k + 1] == next);
                    }
                }
                steps = more;
                assert(Self::intersected_in_steps(old(self), old(geometry), intervals@, space, steps));
            }
            match taken {
                Ok(Some(b)) => {
                    simplified = b;
                },
                Ok(None) => {
                    return Ok(None);
                },
                Err(e) => {
                    return Err(e);
                },
            }
            proof {
                assert forall|id: ShapeId| #[trigger] old(self).contains(id) implies self.contains(
                    id,
                ) && self.same_shape_at(old(self), id) by {
                    assert(before.contains(id));
                }
            }
            i += 1;
        }
        Ok(Some(simplified))
    }
}

/// What the endpoint tests give, counted from a later state of the geometry,
/// they give counted from an earlier one, with the questions asked in between
/// counted in.
proof fn lemma_shift_merge<G: ManifoldSpace>(
    arena: &ShapeArena,
    before: &Recorded<G>,
    middle: &Recorded<G>,
    after: &Recorded<G>,
    interval1: ShapeRef,
    interval2: ShapeRef,
    a: PointId,
    b: PointId,
    p: PointId,
    q: PointId,
    space: ManifoldId,
    r: Result<MergedInterval, CutError>,
)
    requires
        middle.grown_from(before),
        after.grown_from(middle),
        arena.merged_by_answers(after, middle, 0, interval1, interval2, a, b, p, q, space, r),
    ensures
        after.grown_from(before),
        after.asked_since(before) == middle.asked_since(before) + after.asked_since(middle),
        forall|k: int|
            0 <= k < middle.asked_since(before) ==> after.exchange_since(before, k)
                == #[trigger] middle.exchange_since(before, k),
        arena.merged_by_answers(
            after,
            before,
            middle.asked_since(before),
            interval1,
            interval2,
            a,
            b,
            p,
            q,
            space,
            r,
        ),
{
    lemma_grown_twice(before, middle, after);
    let at = middle.asked_since(before);
    assert(after.exchange_since(before, at + 0) == after.exchange_since(middle, 0));
    if after.asked_since(middle) > 1 {
        assert(after.exchange_since(before, at + 1) == after.exchange_since(middle, 1));
    }
    if after.asked_since(middle) > 2 {
        assert(after.exchange_since(before, at + 2) == after.exchange_since(middle, 2));
    }
    if after.asked_since(middle) > 3 {
        assert(after.exchange_since(before, at + 3) == after.exchange_since(middle, 3));
    }
    if after.asked_since(middle) > 4 {
        assert(after.exchange_since(before, at + 4) == after.exchange_since(middle, 4));
    }
}

/// A merge that left nothing of the line, seen in an arena and counted from
/// one state of the geometry, is one seen in an arena that extends the first
/// and counted from an earlier state.
pub proof fn lemma_emptied_lifted<G: ManifoldSpace>(
    then: &ShapeArena,
    later: &ShapeArena,
    after: &Recorded<G>,
    earlier: &Recorded<G>,
    origin: &Recorded<G>,
    existing: Set<ShapeRef>,
    space: ManifoldId,
)
    requires
        then.emptied_by_merge(after, earlier, existing, space),
        then.extended_by(later),
        earlier.grown_from(origin),
    ensures
        later.emptied_by_merge(after, origin, existing, space),
{
    let (middle, interval, merged) = choose|
        middle: Recorded<G>,
        interval: ShapeRef,
        merged: ShapeRef,
    |
        {
            &&& middle.grown_from(earlier)
            &&& after.grown_from(&middle)
            &&& existing.contains(interval)
            &&& then.contains(interval.id)
            &&& then.contains(merged.id)
            &&& #[trigger] then.asks_for_endpoints(
                after,
                &middle,
                interval.spec_neg(),
                merged.spec_neg(),
                space,
                Ok::<MergedInterval, CutError>(MergedInterval::WholeSpace),
            )
        };
    lemma_grown_twice(origin, earlier, &middle);
    assert(later.node(interval.id) == then.node(interval.id));
    assert(later.node(merged.id) == then.node(merged.id));
    assert(later.manifold_of(interval.spec_neg().id) == then.manifold_of(interval.spec_neg().id));
    assert(later.manifold_of(merged.spec_neg().id) == then.manifold_of(merged.spec_neg().id));
    assert(later.asks_for_endpoints(
        after,
        &middle,
        interval.spec_neg(),
        merged.spec_neg(),
        space,
        Ok::<MergedInterval, CutError>(MergedInterval::WholeSpace),
    ));
}

} // verus!
