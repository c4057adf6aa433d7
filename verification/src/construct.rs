//! Adding shapes to an arena.

use vstd::prelude::*;
use crate::record::{
    lemma_asked_once, lemma_first_after_nothing, lemma_first_kept, lemma_first_stays,
    lemma_grown_twice, Exchange, Recorded,
};
use crate::arena::{
    lemma_insert_keeps_shapes, lemma_retag_keeps_shapes, lemma_same_nodes, slot_of, ShapeArena,
};
use crate::manifold::{GeometryError, ManifoldId, ManifoldSpace, PointId};
use crate::orient::{spec_point_pair_of, SignedManifold};
use crate::shape::{Node, Shape, ShapeSet};
use crate::sign::{ShapeId, ShapeRef, Sign};
use crate::split::{CutError, ShapeMetadata};

verus! {

/// The exchange of `record` that is `j` places after number `from`.
pub open spec fn exchange_from(record: Seq<Exchange>, from: int, j: int) -> Exchange {
    record[from + j]
}

/// How many questions a search among `points` asks, where `found` is the
/// position at which it ended: one for each point up to the one that was
/// found, or one for every point.
pub open spec fn asked_seeking(points: Seq<PointId>, found: Option<usize>) -> int {
    match found {
        Some(i) => i + 1,
        None => points.len() as int,
    }
}

/// The exchanges of `record` from number `from` on are those of a search for
/// a point that coincides with `point` among `points`, and `found` is the
/// position of the first that the geometry accepted.
///
/// The geometry was asked of the points in order, and refused every point
/// before the one that was found, or every point if none was found.
pub open spec fn sought(
    record: Seq<Exchange>,
    from: int,
    points: Seq<PointId>,
    point: PointId,
    found: Option<usize>,
) -> bool {
    &&& 0 <= from
    &&& from + asked_seeking(points, found) <= record.len()
    &&& match found {
        Some(i) => {
            &&& i < points.len()
            &&& forall|j: int|
                0 <= j <= i ==> #[trigger] exchange_from(record, from, j) == (Exchange::ApproxEq {
                    a: point,
                    b: points[j],
                    answer: j == i,
                })
        },
        None => forall|j: int|
            0 <= j < points.len() ==> #[trigger] exchange_from(record, from, j)
                == (Exchange::ApproxEq { a: point, b: points[j], answer: false }),
    }
}

/// The open ends after a point was looked for among them: the one that was
/// found has left.
pub open spec fn open_after(open_ends: Seq<PointId>, found: Option<usize>) -> Seq<PointId> {
    match found {
        Some(i) => open_ends.remove(i as int),
        None => open_ends,
    }
}

/// The points without partner after `point` was looked for among the open
/// ends: it has joined them if none was found.
pub open spec fn unmatched_after(
    unmatched: Seq<PointId>,
    point: PointId,
    found: Option<usize>,
) -> Seq<PointId> {
    match found {
        Some(_) => unmatched,
        None => unmatched.push(point),
    }
}

/// A search that was made in a record is the same search in every record that
/// continues it.
pub proof fn lemma_sought_stays(
    record: Seq<Exchange>,
    longer: Seq<Exchange>,
    from: int,
    points: Seq<PointId>,
    point: PointId,
    found: Option<usize>,
)
    requires
        sought(record, from, points, point, found),
        record.len() <= longer.len(),
        forall|j: int| 0 <= j < record.len() ==> longer[j] == record[j],
    ensures
        sought(longer, from, points, point, found),
{
    assert forall|j: int| 0 <= j < asked_seeking(points, found) implies #[trigger] exchange_from(
        longer,
        from,
        j,
    ) == exchange_from(record, from, j) by {
        assert(longer[from + j] == record[from + j]);
    }
}

/// How far the walk along the edges of a polygon has come: the number of
/// the next exchange, the points at which an edge starts where none ends
/// so far, and the points at which an edge ends where none starts so far.
pub ghost struct Walk {
    /// The number of the next exchange.
    pub at: int,
    /// Starting points without an ending point.
    pub starting: Seq<PointId>,
    /// Ending points without a starting point.
    pub ending: Seq<PointId>,
}

/// The exchanges of `record` from `before.at` on, after the first, are those
/// of the search for partners of the points `a` and `b`, at which an edge
/// starts and ends, and `after` is where the walk has come by them.
///
/// A partner of `a` is looked for among the ending points, as [`sought`]
/// says, and was at `first`; then one of `b` among the starting points, and
/// was at `second`. A point that has a partner takes it off its list, and a
/// point without one joins the other list.
pub open spec fn endpoints_matched(
    record: Seq<Exchange>,
    before: Walk,
    after: Walk,
    a: PointId,
    b: PointId,
    first: Option<usize>,
    second: Option<usize>,
) -> bool {
    let asked_first = asked_seeking(before.ending, first);
    let ending = open_after(before.ending, first);
    let starting = unmatched_after(before.starting, a, first);
    &&& sought(record, before.at + 1, before.ending, a, first)
    &&& sought(record, before.at + 1 + asked_first, starting, b, second)
    &&& after == (Walk {
        at: before.at + 1 + asked_first + asked_seeking(starting, second),
        starting: open_after(starting, second),
        ending: unmatched_after(ending, b, second),
    })
}

/// Looks for a point that coincides with `point`. Returns the position of the
/// first one that the geometry accepts.
///
/// The geometry is asked of the points in order, up to the first that it
/// accepts.
pub fn find_point<G: ManifoldSpace>(
    geometry: &mut Recorded<G>,
    points: &Vec<PointId>,
    point: PointId,
) -> (r: Option<usize>)
    ensures
        final(geometry).grown_from(old(geometry)),
        final(geometry).asked_since(old(geometry)) == asked_seeking(points@, r),
        sought(final(geometry).record(), old(geometry).record().len() as int, points@, point, r),
        match r {
            Some(i) => {
                &&& i < points.len()
                &&& final(geometry).asked_since(old(geometry)) == i + 1
                &&& forall|j: int|
                    0 <= j <= i ==> #[trigger] final(geometry).exchange_since(old(geometry), j)
                        == (Exchange::ApproxEq { a: point, b: points[j], answer: j == i })
            },
            None => {
                &&& final(geometry).asked_since(old(geometry)) == points.len()
                &&& forall|j: int|
                    0 <= j < points.len() ==> #[trigger] final(geometry).exchange_since(
                        old(geometry),
                        j,
                    ) == (Exchange::ApproxEq { a: point, b: points[j], answer: false })
            },
        },
{
    let mut i: usize = 0;
    while i < points.len()
        invariant
            i <= points.len(),
            geometry.grown_from(old(geometry)),
            geometry.asked_since(old(geometry)) == i,
            forall|j: int|
                0 <= j < i ==> #[trigger] geometry.exchange_since(old(geometry), j)
                    == (Exchange::ApproxEq { a: point, b: points[j], answer: false }),
        decreases points.len() - i,
    {
        let ghost before = *geometry;
        let same = geometry.approx_eq(point, points[i]);
        proof {
            assert forall|j: int| 0 <= j < i implies #[trigger] geometry.exchange_since(
                old(geometry),
                j,
            ) == (Exchange::ApproxEq { a: point, b: points[j], answer: false }) by {
                assert(before.exchange_since(old(geometry), j) == (Exchange::ApproxEq {
                    a: point,
                    b: points[j],
                    answer: false,
                }));
            }
            assert(geometry.exchange_since(old(geometry), i as int) == (Exchange::ApproxEq {
                a: point,
                b: points[i as int],
                answer: same,
            }));
        }
        if same {
            proof {
                assert forall|j: int| 0 <= j <= i implies #[trigger] exchange_from(
                    geometry.record(),
                    old(geometry).record().len() as int,
                    j,
                ) == (Exchange::ApproxEq { a: point, b: points[j], answer: j == i }) by {
                    assert(geometry.exchange_since(old(geometry), j) == (Exchange::ApproxEq {
                        a: point,
                        b: points[j],
                        answer: j == i,
                    }));
                }
            }
            return Some(i);
        }
        i += 1;
    }
    proof {
        assert forall|j: int| 0 <= j < points.len() implies #[trigger] exchange_from(
            geometry.record(),
            old(geometry).record().len() as int,
            j,
        ) == (Exchange::ApproxEq { a: point, b: points[j], answer: false }) by {
            assert(geometry.exchange_since(old(geometry), j) == (Exchange::ApproxEq {
                a: point,
                b: points[j],
                answer: false,
            }));
        }
    }
    None
}

/// Pairs `point` with one that coincides with it among `open_ends`, which
/// then leaves that list; a point without partner joins `unmatched`. Returns
/// the position at which the partner was.
pub fn match_endpoint<G: ManifoldSpace>(
    geometry: &mut Recorded<G>,
    open_ends: &mut Vec<PointId>,
    unmatched: &mut Vec<PointId>,
    point: PointId,
) -> (found: Option<usize>)
    ensures
        final(geometry).grown_from(old(geometry)),
        final(geometry).asked_since(old(geometry)) == asked_seeking(old(open_ends)@, found),
        sought(
            final(geometry).record(),
            old(geometry).record().len() as int,
            old(open_ends)@,
            point,
            found,
        ),
        final(open_ends)@ == open_after(old(open_ends)@, found),
        final(unmatched)@ == unmatched_after(old(unmatched)@, point, found),
        old(open_ends).len() == 0 ==> final(open_ends)@ == old(open_ends)@ && final(unmatched)@
            == old(unmatched)@.push(point) && final(geometry).record() == old(geometry).record(),
        final(open_ends)@ == old(open_ends)@ ==> final(unmatched)@ == old(unmatched)@.push(point),
        final(open_ends)@ != old(open_ends)@ ==> final(unmatched)@ == old(unmatched)@ && exists|
            i: int,
        |
            0 <= i < old(open_ends).len() && final(open_ends)@ == old(open_ends)@.remove(i),
{
    let found = find_point(geometry, open_ends, point);
    match found {
        Some(i) => {
            let _ = open_ends.remove(i);
        },
        None => {
            unmatched.push(point);
        },
    }
    found
}

impl ShapeArena {
    /// Every reference of `boundary` is to a shape of the arena.
    pub open spec fn holds_all(&self, boundary: Set<ShapeRef>) -> bool {
        forall|r: ShapeRef| #[trigger] boundary.contains(r) ==> self.contains(r.id)
    }

    /// Every reference of `boundary` is to a shape of one dimension less than
    /// `ndim`.
    pub open spec fn ranks_fit(&self, boundary: Set<ShapeRef>, ndim: int) -> bool {
        forall|r: ShapeRef| #[trigger] boundary.contains(r) ==> self.rank_of(r.id) + 1 == ndim
    }

    /// None of the edges in `boundary` has an endpoint.
    pub open spec fn edges_unbounded(&self, boundary: Set<ShapeRef>) -> bool {
        forall|e: ShapeRef| #[trigger]
            boundary.contains(e) ==> self.boundary_of(e.id) == Set::<ShapeRef>::empty()
    }

    /// Whether `e` is a failure that adding a shape with the boundary
    /// `boundary` and `ndim` dimensions can end in: of the geometry, of the
    /// ranks, of a polygon that was checked and has edges with endpoints, or
    /// of the identifiers.
    pub open spec fn may_fail_adding(&self, boundary: Set<ShapeRef>, ndim: int, e: CutError) -> bool {
        ||| e is Geometry
        ||| e == CutError::RankMismatch
        ||| e == CutError::ArenaFull
        ||| (e == CutError::InvalidPolygon && self.spec_checks() && ndim == 2
            && !self.edges_unbounded(boundary))
    }

    /// Returns whether every element of `boundary` has one dimension less
    /// than `ndim`.
    pub fn check_ranks(&self, boundary: &ShapeSet, ndim: u8) -> (fit: bool)
        requires
            boundary.wf(),
            self.holds_all(boundary@),
        ensures
            fit == self.ranks_fit(boundary@, ndim as int),
    {
        let elements = boundary.to_vec();
        let mut i: usize = 0;
        while i < elements.len()
            invariant
                i <= elements.len(),
                self.holds_all(boundary@),
                forall|r: ShapeRef| elements@.contains(r) <==> boundary@.contains(r),
                forall|j: int| 0 <= j < i ==> self.rank_of((#[trigger] elements[j]).id) + 1 == ndim,
            decreases elements.len() - i,
        {
            let element = elements[i];
            assert(elements@.contains(element));
            let rank = self.rank(element.id);
            if rank == u8::MAX || rank + 1 != ndim {
                return false;
            }
            i += 1;
        }
        proof {
            assert forall|r: ShapeRef| #[trigger] boundary@.contains(r) implies self.rank_of(r.id)
                + 1 == ndim by {
                assert(elements@.contains(r));
                let j = choose|j: int| 0 <= j < elements.len() && elements[j] == r;
                assert(self.rank_of(elements[j].id) + 1 == ndim);
            }
        }
        true
    }

    /// The exchanges of `record` from `before.at` on are those of the visit
    /// of the endpoint `point_pair` of the edge `edge`, and `after` is where
    /// the walk has come by it; `failure` is the failure that ended the walk
    /// there, if one did.
    ///
    /// The first question is for the points of the endpoint. A failure to
    /// answer is returned, and nothing more is asked. The points are taken
    /// in the order that the orientations of the edge and of the endpoint
    /// give, and partners are looked for as [`endpoints_matched`] says.
    pub open spec fn visit_done(
        &self,
        record: Seq<Exchange>,
        before: Walk,
        after: Walk,
        edge: ShapeRef,
        point_pair: ShapeRef,
        failure: Option<CutError>,
    ) -> bool {
        &&& 0 <= before.at < record.len()
        &&& record[before.at] matches Exchange::ToPointPair { manifold, answer }
        &&& manifold == self.manifold_of(point_pair.id)
        &&& match spec_point_pair_of(answer, point_pair.spec_times(edge.sign).sign) {
            Err(e) => failure == Some(e) && after == (Walk { at: before.at + 1, ..before }),
            Ok((a, b)) => failure is None && exists|first: Option<usize>, second: Option<usize>|
                #[trigger] endpoints_matched(record, before, after, a, b, first, second),
        }
    }

    /// The walk `walks` along `visits`, endpoints of edges of `boundary`,
    /// begins at the exchange `from` of `record` with no open point, and
    /// every visit of it was made without a failure: the visit `visits[k]`
    /// leads from `walks[k]` to `walks[k + 1]`, as [`ShapeArena::visit_done`]
    /// says.
    pub open spec fn walked_so_far(
        &self,
        record: Seq<Exchange>,
        from: int,
        boundary: Set<ShapeRef>,
        visits: Seq<(ShapeRef, ShapeRef)>,
        walks: Seq<Walk>,
    ) -> bool {
        &&& walks.len() == visits.len() + 1
        &&& walks[0] == (Walk { at: from, starting: Seq::empty(), ending: Seq::empty() })
        &&& forall|k: int|
            0 <= k < visits.len() ==> boundary.contains((#[trigger] visits[k]).0)
                && self.boundary_of(visits[k].0.id).contains(visits[k].1)
        &&& forall|k: int|
            0 <= k < visits.len() ==> self.visit_done(
                record,
                #[trigger] walks[k],
                walks[k + 1],
                visits[k].0,
                visits[k].1,
                None,
            )
    }

    /// The exchanges of `record` from number `from` to its end are those of
    /// the check whether the edges in `boundary` chain into closed loops,
    /// and `r` is what their answers give.
    ///
    /// The endpoints of the edges are visited in some order, as
    /// [`ShapeArena::walked_so_far`] says, up to the first whose points the
    /// geometry fails to tell: that failure is returned. Otherwise every
    /// endpoint of every edge is visited, and the edges chain into closed
    /// loops if and only if no point is left without a partner.
    pub open spec fn polygon_checked(
        &self,
        record: Seq<Exchange>,
        from: int,
        boundary: Set<ShapeRef>,
        r: Result<bool, CutError>,
    ) -> bool {
        exists|visits: Seq<(ShapeRef, ShapeRef)>, walks: Seq<Walk>|
            {
                &&& #[trigger] self.walked_so_far(record, from, boundary, visits, walks)
                &&& match r {
                    Ok(closed) => {
                        &&& walks[visits.len() as int].at == record.len()
                        &&& forall|edge: ShapeRef, point_pair: ShapeRef|
                            boundary.contains(edge) && #[trigger] self.boundary_of(
                                edge.id,
                            ).contains(point_pair) ==> visits.contains((edge, point_pair))
                        &&& closed == (walks[visits.len() as int].starting.len() == 0
                            && walks[visits.len() as int].ending.len() == 0)
                    },
                    Err(e) => exists|edge: ShapeRef, point_pair: ShapeRef|
                        boundary.contains(edge) && #[trigger] self.boundary_of(edge.id).contains(
                            point_pair,
                        ) && self.visit_done(
                            record,
                            walks[visits.len() as int],
                            Walk { at: record.len() as int, ..walks[visits.len() as int] },
                            edge,
                            point_pair,
                            Some(e),
                        ),
                }
            }
    }

    /// A walk that was made in a record is the same walk in every record
    /// that continues it.
    pub proof fn lemma_walk_stays(
        &self,
        record: Seq<Exchange>,
        longer: Seq<Exchange>,
        from: int,
        boundary: Set<ShapeRef>,
        visits: Seq<(ShapeRef, ShapeRef)>,
        walks: Seq<Walk>,
    )
        requires
            self.walked_so_far(record, from, boundary, visits, walks),
            record.len() <= longer.len(),
            forall|j: int| 0 <= j < record.len() ==> longer[j] == record[j],
        ensures
            self.walked_so_far(longer, from, boundary, visits, walks),
    {
        assert forall|k: int| 0 <= k < visits.len() implies self.visit_done(
            longer,
            #[trigger] walks[k],
            walks[k + 1],
            visits[k].0,
            visits[k].1,
            None,
        ) by {
            let before = walks[k];
            let after = walks[k + 1];
            assert(self.visit_done(record, before, after, visits[k].0, visits[k].1, None));
            assert(longer[before.at] == record[before.at]);
            let answer = record[before.at]->ToPointPair_answer;
            let pair = spec_point_pair_of(
                answer,
                visits[k].1.spec_times(visits[k].0.sign).sign,
            ).unwrap();
            let (first, second) = choose|first: Option<usize>, second: Option<usize>| #[trigger]
                endpoints_matched(record, before, after, pair.0, pair.1, first, second);
            lemma_sought_stays(record, longer, before.at + 1, before.ending, pair.0, first);
            lemma_sought_stays(
                record,
                longer,
                before.at + 1 + asked_seeking(before.ending, first),
                unmatched_after(before.starting, pair.0, first),
                pair.1,
                second,
            );
            assert(endpoints_matched(longer, before, after, pair.0, pair.1, first, second));
        }
    }

    /// The first question since `before` was for the points of `point_pair`,
    /// an endpoint of the edge `edge` of `boundary`, and `answer` was given.
    pub open spec fn asks_endpoint_first<G: ManifoldSpace>(
        &self,
        after: &Recorded<G>,
        before: &Recorded<G>,
        boundary: Set<ShapeRef>,
        edge: ShapeRef,
        point_pair: ShapeRef,
        answer: Result<(PointId, PointId), GeometryError>,
    ) -> bool {
        &&& boundary.contains(edge)
        &&& self.boundary_of(edge.id).contains(point_pair)
        &&& after.asked_first(
            before,
            Exchange::ToPointPair { manifold: self.manifold_of(point_pair.id), answer },
        )
    }

    /// Returns whether the edges in `boundary` chain into closed loops: walked
    /// with their orientation, every point at which an edge starts is a point
    /// at which an edge ends.
    ///
    /// The geometry tells the endpoints of each edge and which points
    /// coincide. Where no edge has an endpoint, the answer is yes and nothing
    /// is asked. Otherwise the first question is for the points of an
    /// endpoint of an edge, and a failure to answer it is returned.
    pub fn is_closed_polygon<G: ManifoldSpace>(
        &self,
        geometry: &mut Recorded<G>,
        boundary: &ShapeSet,
    ) -> (r: Result<bool, CutError>)
        requires
            self.wf(),
            boundary.wf(),
            self.holds_all(boundary@),
        ensures
            final(geometry).grown_from(old(geometry)),
            self.polygon_checked(
                final(geometry).record(),
                old(geometry).record().len() as int,
                boundary@,
                r,
            ),
            self.edges_unbounded(boundary@) ==> r == Ok::<bool, CutError>(true) && final(geometry).record() == old(geometry).record(),
            !self.edges_unbounded(boundary@) ==> exists|
                edge: ShapeRef,
                point_pair: ShapeRef,
                answer: Result<(PointId, PointId), GeometryError>,
            |
                {
                    &&& #[trigger] self.asks_endpoint_first(
                        final(geometry),
                        old(geometry),
                        boundary@,
                        edge,
                        point_pair,
                        answer,
                    )
                    &&& (answer matches Err(e) ==> r == Err::<bool, CutError>(
                        CutError::Geometry(e),
                    ))
                },
            r matches Err(e) ==> e is Geometry,
    {
        let mut starting_points: Vec<PointId> = Vec::new();
        let mut ending_points: Vec<PointId> = Vec::new();
        let ghost mut first: Option<
            (ShapeRef, ShapeRef, Result<(PointId, PointId), GeometryError>),
        > = None;
        let edges = boundary.to_vec();
        let ghost start = old(geometry).record().len() as int;
        let ghost mut visits: Seq<(ShapeRef, ShapeRef)> = Seq::empty();
        let ghost mut walks: Seq<Walk> = seq![
            Walk { at: start, starting: Seq::empty(), ending: Seq::empty() },
        ];
        let mut i: usize = 0;
        while i < edges.len()
            invariant
                self.wf(),
                i <= edges.len(),
                self.holds_all(boundary@),
                forall|r: ShapeRef| edges@.contains(r) <==> boundary@.contains(r),
                self.edges_unbounded(boundary@) ==> starting_points.len() == 0
                    && ending_points.len() == 0,
                geometry.grown_from(old(geometry)),
                match first {
                    None => geometry.record() == old(geometry).record(),
                    Some((e, p, answer)) => answer is Ok && self.asks_endpoint_first(
                        geometry,
                        old(geometry),
                        boundary@,
                        e,
                        p,
                        answer,
                    ),
                },
                forall|k: int|
                    0 <= k < i && self.boundary_of((#[trigger] edges[k]).id) != Set::<
                        ShapeRef,
                    >::empty() ==> first is Some,
                start == old(geometry).record().len(),
                self.walked_so_far(geometry.record(), start, boundary@, visits, walks),
                walks[visits.len() as int] == (Walk {
                    at: geometry.record().len() as int,
                    starting: starting_points@,
                    ending: ending_points@,
                }),
                forall|k: int, p: ShapeRef|
                    0 <= k < i && #[trigger] self.boundary_of(edges[k].id).contains(p)
                        ==> visits.contains((edges[k], p)),
            decreases edges.len() - i,
        {
            let edge = edges[i];
            assert(edges@.contains(edge));
            assert(self.contains(edge.id));
            assert(self.bounded_within(edge.id));
            let point_pairs = self.shape(edge.id).boundary.to_vec();
            proof {
                if self.edges_unbounded(boundary@) && point_pairs.len() > 0 {
                    assert(point_pairs@.contains(point_pairs[0]));
                }
                if point_pairs.len() == 0 && self.boundary_of(edge.id) != Set::<ShapeRef>::empty() {
                    assert(!(self.boundary_of(edge.id) =~= Set::<ShapeRef>::empty()));
                    let member = choose|member: ShapeRef| self.boundary_of(edge.id).contains(member);
                    assert(point_pairs@.contains(member));
                }
            }
            let mut j: usize = 0;
            while j < point_pairs.len()
                invariant
                    self.wf(),
                    j <= point_pairs.len(),
                    self.contains(edge.id),
                    boundary@.contains(edge),
                    forall|r: ShapeRef|
                        point_pairs@.contains(r) <==> self.boundary_of(edge.id).contains(r),
                    self.edges_unbounded(boundary@) ==> starting_points.len() == 0
                        && ending_points.len() == 0 && point_pairs.len() == 0,
                    geometry.grown_from(old(geometry)),
                    match first {
                        None => geometry.record() == old(geometry).record(),
                        Some((e, p, answer)) => answer is Ok && self.asks_endpoint_first(
                            geometry,
                            old(geometry),
                            boundary@,
                            e,
                            p,
                            answer,
                        ),
                    },
                    j > 0 ==> first is Some,
                    point_pairs.len() == 0 ==> self.boundary_of(edge.id) == Set::<ShapeRef>::empty(),
                    i < edges.len(),
                    edge == edges[i as int],
                    forall|k: int|
                        0 <= k < i && self.boundary_of((#[trigger] edges[k]).id) != Set::<
                            ShapeRef,
                        >::empty() ==> first is Some,
                    start == old(geometry).record().len(),
                    self.walked_so_far(geometry.record(), start, boundary@, visits, walks),
                    walks[visits.len() as int] == (Walk {
                        at: geometry.record().len() as int,
                        starting: starting_points@,
                        ending: ending_points@,
                    }),
                    forall|k: int, p: ShapeRef|
                        0 <= k < i && #[trigger] self.boundary_of(edges[k].id).contains(p)
                            ==> visits.contains((edges[k], p)),
                    forall|k: int|
                        0 <= k < j ==> visits.contains((edge, #[trigger] point_pairs[k])),
                decreases point_pairs.len() - j,
            {
                let point_pair = point_pairs[j];
                assert(point_pairs@.contains(point_pair));
                assert(self.boundary_of(edge.id).contains(point_pair));
                let ghost before = *geometry;
                let oriented = point_pair.times(edge.sign);
                let pair = self.shape_to_point_pair(geometry, SignedManifold::Shape(oriented));
                let ghost answer = choose|answer: Result<(PointId, PointId), GeometryError>|
                    #[trigger] geometry.asked_once(
                        &before,
                        Exchange::ToPointPair { manifold: self.manifold_of(point_pair.id), answer },
                    ) && pair == spec_point_pair_of(answer, oriented.sign);
                let ghost asked = Exchange::ToPointPair {
                    manifold: self.manifold_of(point_pair.id),
                    answer,
                };
                proof {
                    lemma_asked_once(&before, geometry, asked);
                    match first {
                        None => {
                            lemma_first_after_nothing(old(geometry), &before, geometry, asked);
                            assert(self.asks_endpoint_first(
                                geometry,
                                old(geometry),
                                boundary@,
                                edge,
                                point_pair,
                                answer,
                            ));
                        },
                        Some((e, p, earlier)) => {
                            lemma_first_kept(
                                old(geometry),
                                &before,
                                geometry,
                                Exchange::ToPointPair {
                                    manifold: self.manifold_of(p.id),
                                    answer: earlier,
                                },
                            );
                            assert(self.asks_endpoint_first(
                                geometry,
                                old(geometry),
                                boundary@,
                                e,
                                p,
                                earlier,
                            ));
                        },
                    }
                }
                let ghost reached = walks[visits.len() as int];
                let (a, b) = match pair {
                    Ok(pair) => pair,
                    Err(e) => {
                        proof {
                            self.lemma_walk_stays(
                                before.record(),
                                geometry.record(),
                                start,
                                boundary@,
                                visits,
                                walks,
                            );
                            assert(geometry.record()[reached.at] == geometry.exchange_since(
                                &before,
                                0,
                            ));
                            assert(self.visit_done(
                                geometry.record(),
                                reached,
                                Walk { at: geometry.record().len() as int, ..reached },
                                edge,
                                point_pair,
                                Some(e),
                            ));
                        }
                        return Err(e);
                    },
                };
                proof {
                    if first is None {
                        first = Some((edge, point_pair, answer));
                    }
                }
                let ghost asked_pair = *geometry;
                let found_end = match_endpoint(
                    geometry,
                    &mut ending_points,
                    &mut starting_points,
                    a,
                );
                let ghost matched_start = *geometry;
                let found_start = match_endpoint(
                    geometry,
                    &mut starting_points,
                    &mut ending_points,
                    b,
                );
                proof {
                    lemma_grown_twice(&asked_pair, &matched_start, geometry);
                    lemma_grown_twice(old(geometry), &asked_pair, geometry);
                    lemma_grown_twice(&before, &asked_pair, geometry);
                    let now = geometry.record();
                    let next = Walk {
                        at: now.len() as int,
                        starting: starting_points@,
                        ending: ending_points@,
                    };
                    self.lemma_walk_stays(before.record(), now, start, boundary@, visits, walks);
                    lemma_sought_stays(
                        matched_start.record(),
                        now,
                        reached.at + 1,
                        reached.ending,
                        a,
                        found_end,
                    );
                    assert(endpoints_matched(now, reached, next, a, b, found_end, found_start));
                    assert(now[reached.at] == asked_pair.exchange_since(&before, 0));
                    assert(self.visit_done(now, reached, next, edge, point_pair, None));
                    let more_visits = visits.push((edge, point_pair));
                    let more_walks = walks.push(next);
                    assert forall|k: int| 0 <= k < more_visits.len() implies self.visit_done(
                        now,
                        #[trigger] more_walks[k],
                        more_walks[k + 1],
                        more_visits[k].0,
                        more_visits[k].1,
                        None,
                    ) by {
                        if k < visits.len() {
                            assert(self.visit_done(
                                now,
                                walks[k],
                                walks[k + 1],
                                visits[k].0,
                                visits[k].1,
                                None,
                            ));
                        }
                    }
                    assert forall|k: int, p: ShapeRef|
                        0 <= k < i && #[trigger] self.boundary_of(edges[k].id).contains(
                            p,
                        ) implies more_visits.contains((edges[k], p)) by {
                        let at = choose|at: int|
                            0 <= at < visits.len() && visits[at] == (edges[k], p);
                        assert(more_visits[at] == (edges[k], p));
                    }
                    assert forall|k: int| 0 <= k <= j implies more_visits.contains(
                        (edge, #[trigger] point_pairs[k]),
                    ) by {
                        if k < j {
                            let at = choose|at: int|
                                0 <= at < visits.len() && visits[at] == (edge, point_pairs[k]);
                            assert(more_visits[at] == (edge, point_pairs[k]));
                        } else {
                            assert(more_visits[visits.len() as int] == (edge, point_pair));
                        }
                    }
                    visits = more_visits;
                    walks = more_walks;
                    if let Some((e, p, earlier)) = first {
                        lemma_first_kept(
                            old(geometry),
                            &asked_pair,
                            geometry,
                            Exchange::ToPointPair {
                                manifold: self.manifold_of(p.id),
                                answer: earlier,
                            },
                        );
                    }
                }
                j += 1;
            }
            proof {
                assert forall|p: ShapeRef| #[trigger]
                    self.boundary_of(edge.id).contains(p) implies visits.contains((edge, p)) by {
                    assert(point_pairs@.contains(p));
                    let at = choose|at: int| 0 <= at < point_pairs.len() && point_pairs[at] == p;
                    assert(visits.contains((edge, point_pairs[at])));
                }
            }
            i += 1;
        }
        proof {
            assert forall|e: ShapeRef, p: ShapeRef|
                boundary@.contains(e) && #[trigger] self.boundary_of(e.id).contains(
                    p,
                ) implies visits.contains((e, p)) by {
                assert(edges@.contains(e));
                let k = choose|k: int| 0 <= k < edges.len() && edges[k] == e;
                assert(self.boundary_of(edges[k].id).contains(p));
            }
        }
        proof {
            if !self.edges_unbounded(boundary@) {
                let e = choose|e: ShapeRef| #[trigger]
                    boundary@.contains(e) && self.boundary_of(e.id) != Set::<ShapeRef>::empty();
                assert(edges@.contains(e));
                let k = choose|k: int| 0 <= k < edges.len() && edges[k] == e;
                assert(self.boundary_of(edges[k].id) != Set::<ShapeRef>::empty());
                assert(first is Some);
                let (edge, point_pair, answer) = first.unwrap();
                assert(self.asks_endpoint_first(
                    geometry,
                    old(geometry),
                    boundary@,
                    edge,
                    point_pair,
                    answer,
                ));
            }
        }
        Ok(starting_points.len() == 0 && ending_points.len() == 0)
    }

    /// What adding a polygon makes of the check of its edges, where the
    /// elements of its boundary have the right number of dimensions.
    ///
    /// A failure of the check is returned. A polygon whose edges do not
    /// chain into closed loops is refused with `InvalidPolygon`. One whose
    /// edges do is added if an identifier is left, and refused with
    /// `ArenaFull` otherwise.
    pub open spec fn added_after_check(
        &self,
        closed: Result<bool, CutError>,
        r: Result<ShapeRef, CutError>,
    ) -> bool {
        match closed {
            Err(e) => r == Err::<ShapeRef, CutError>(e),
            Ok(false) => r == Err::<ShapeRef, CutError>(CutError::InvalidPolygon),
            Ok(true) => if self.next_slot() <= u32::MAX {
                r is Ok
            } else {
                r == Err::<ShapeRef, CutError>(CutError::ArenaFull)
            },
        }
    }

    /// The exchanges of `record` from number `from` to its end are those of
    /// the check of a polygon with the edges `boundary`, as
    /// [`ShapeArena::polygon_checked`] says, and `r` is what adding the
    /// polygon makes of the check, as [`ShapeArena::added_after_check`]
    /// says.
    pub open spec fn polygon_settles(
        &self,
        record: Seq<Exchange>,
        from: int,
        boundary: Set<ShapeRef>,
        r: Result<ShapeRef, CutError>,
    ) -> bool {
        exists|closed: Result<bool, CutError>| #[trigger]
            self.polygon_checked(record, from, boundary, closed) && self.added_after_check(
                closed,
                r,
            )
    }

    /// What [`ShapeArena::add_with_rank`] asks, does and returns; `before`
    /// is the arena as it was, `after` and `earlier` the geometry afterwards
    /// and before.
    ///
    /// Boundary elements of a wrong number of dimensions give
    /// `RankMismatch`; a polygon that has to be checked is settled by the
    /// check of its edges, as [`ShapeArena::polygon_settles`] says; and any
    /// other shape is added if an identifier is left, with nothing asked,
    /// and refused with `ArenaFull` if none is. A shape that is added goes
    /// to the next slot, as it is and with `ndim` dimensions, and is
    /// referred to positively; a shape that is refused leaves the arena as
    /// it was.
    pub open spec fn added_with_rank<G: ManifoldSpace>(
        &self,
        before: &ShapeArena,
        after: &Recorded<G>,
        earlier: &Recorded<G>,
        shape: Shape,
        ndim: u8,
        r: Result<ShapeRef, CutError>,
    ) -> bool {
        &&& after.grown_from(earlier)
        &&& if !before.ranks_fit(shape.boundary@, ndim as int) {
            r == Err::<ShapeRef, CutError>(CutError::RankMismatch) && after.record()
                == earlier.record()
        } else if before.spec_checks() && ndim == 2 {
            before.polygon_settles(
                after.record(),
                earlier.record().len() as int,
                shape.boundary@,
                r,
            )
        } else {
            &&& after.record() == earlier.record()
            &&& if before.next_slot() <= u32::MAX {
                r is Ok
            } else {
                r == Err::<ShapeRef, CutError>(CutError::ArenaFull)
            }
        }
        &&& match r {
            Ok(added) => {
                &&& added.sign == Sign::Pos
                &&& slot_of(added.id) == before.next_slot()
                &&& !before.contains(added.id)
                &&& self.nodes() == before.nodes().insert(
                    slot_of(added.id),
                    Node { shape, rank: ndim },
                )
                &&& before.packed() ==> self.packed() && self.next_slot() == before.next_slot()
                    + 1
            },
            Err(_) => self.nodes() == before.nodes(),
        }
    }

    /// Adds a shape whose manifold has `ndim` dimensions.
    ///
    /// Every boundary element must have one dimension less, or the shape is
    /// refused with `RankMismatch`. If the checks of topology are on and the
    /// shape is a polygon, its edges must chain into closed loops, or it is
    /// refused with `InvalidPolygon`. A shape that is refused leaves the arena
    /// as it was. Returns a positively signed reference to the new shape.
    pub fn add_with_rank<G: ManifoldSpace>(&mut self, geometry: &mut Recorded<G>, shape: Shape, ndim: u8) -> (r:
        Result<ShapeRef, CutError>)
        requires
            old(self).wf(),
            shape.boundary.wf(),
            old(self).holds_all(shape.boundary@),
        ensures
            final(self).wf(),
            r matches Err(CutError::ArenaFull) ==> final(self).next_slot() > u32::MAX,
            old(self).extended_by(final(self)),
            final(self).spec_roots() == old(self).spec_roots(),
            final(geometry).grown_from(old(geometry)),
            final(self).added_with_rank(old(self), final(geometry), old(geometry), shape, ndim, r),
            !(old(self).spec_checks() && ndim == 2) || !old(self).ranks_fit(
                shape.boundary@,
                ndim as int,
            ) ==> final(geometry).record() == old(geometry).record(),
            r == Err::<ShapeRef, CutError>(CutError::RankMismatch) <==> !old(self).ranks_fit(
                shape.boundary@,
                ndim as int,
            ),
            r matches Err(e) ==> old(self).may_fail_adding(shape.boundary@, ndim as int, e),
            old(self).ranks_fit(shape.boundary@, ndim as int) && old(self).spec_checks() && ndim
                == 2 ==> old(self).polygon_settles(
                final(geometry).record(),
                old(geometry).record().len() as int,
                shape.boundary@,
                r,
            ),
            r == Err::<ShapeRef, CutError>(CutError::ArenaFull) <== old(self).ranks_fit(
                shape.boundary@,
                ndim as int,
            ) && !(old(self).spec_checks() && ndim == 2) && old(self).next_slot() > u32::MAX,
            r is Ok <== old(self).ranks_fit(shape.boundary@, ndim as int) && (!(old(self).spec_checks() && ndim == 2) || old(self).edges_unbounded(shape.boundary@)) && old(self).next_slot() <= u32::MAX,
            match r {
                Ok(added) => {
                    &&& added.sign == Sign::Pos
                    &&& slot_of(added.id) == old(self).next_slot()
                    &&& !old(self).contains(added.id)
                    &&& final(self).nodes() == old(self).nodes().insert(
                        slot_of(added.id),
                        Node { shape, rank: ndim },
                    )
                },
                Err(_) => final(self).nodes() == old(self).nodes(),
            },
    {
        if !self.check_ranks(&shape.boundary, ndim) {
            return Err(CutError::RankMismatch);
        }
        if self.checks() && ndim == 2 {
            match self.is_closed_polygon(geometry, &shape.boundary) {
                Ok(true) => {},
                Ok(false) => {
                    return Err(CutError::InvalidPolygon);
                },
                Err(e) => {
                    return Err(e);
                },
            }
        }
        match self.insert_node(shape, ndim) {
            Ok(id) => {
                proof {
                    lemma_insert_keeps_shapes(old(self), self, id, Node { shape, rank: ndim });
                }
                Ok(ShapeRef::from_id(id))
            },
            Err(e) => {
                proof {
                    lemma_same_nodes(old(self), self);
                }
                Err(e)
            },
        }
    }

    /// What [`ShapeArena::add`] makes of the answer to its question for the
    /// number of dimensions of the manifold of `shape`; `before` is the arena
    /// as it was and `asked` the number of questions that were asked.
    ///
    /// A failure of the geometry is returned, and nothing more is asked. With
    /// `ndim` dimensions the shape is refused with `RankMismatch` if and only
    /// if a boundary element does not have one dimension less; a shape that is
    /// added has `ndim` dimensions; and unless it is a polygon that has to be
    /// checked, it is added if an identifier is left and refused with
    /// `ArenaFull` if none is, and nothing more is asked.
    pub open spec fn added_by_answer(
        &self,
        before: &ShapeArena,
        shape: Shape,
        answer: Result<u8, GeometryError>,
        asked: int,
        r: Result<ShapeRef, CutError>,
    ) -> bool {
        match answer {
            Err(e) => r == Err::<ShapeRef, CutError>(CutError::Geometry(e)) && asked == 1,
            Ok(ndim) => {
                &&& r == Err::<ShapeRef, CutError>(CutError::RankMismatch) <==> !before.ranks_fit(
                    shape.boundary@,
                    ndim as int,
                )
                &&& r matches Ok(added) ==> self.rank_of(added.id) == ndim
                &&& before.ranks_fit(shape.boundary@, ndim as int) && !(before.spec_checks()
                    && ndim == 2) ==> asked == 1 && if before.next_slot() <= u32::MAX {
                    r is Ok
                } else {
                    r == Err::<ShapeRef, CutError>(CutError::ArenaFull)
                }
                &&& !before.ranks_fit(shape.boundary@, ndim as int) ==> asked == 1
            },
        }
    }

    /// Adds a shape.
    ///
    /// The geometry is asked first for the number of dimensions of the
    /// shape's manifold; [`ShapeArena::add_with_rank`] does the rest.
    pub fn add<G: ManifoldSpace>(&mut self, geometry: &mut Recorded<G>, shape: Shape) -> (r: Result<
        ShapeRef,
        CutError,
    >)
        requires
            old(self).wf(),
            shape.boundary.wf(),
            old(self).holds_all(shape.boundary@),
        ensures
            final(self).wf(),
            r matches Err(CutError::ArenaFull) ==> final(self).next_slot() > u32::MAX,
            old(self).extended_by(final(self)),
            final(self).spec_roots() == old(self).spec_roots(),
            exists|answer: Result<u8, GeometryError>|
                {
                    &&& #[trigger] final(geometry).asked_first(
                        old(geometry),
                        Exchange::Ndim { manifold: shape.manifold, answer },
                    )
                    &&& final(self).added_by_answer(
                        old(self),
                        shape,
                        answer,
                        final(geometry).asked_since(old(geometry)),
                        r,
                    )
                },
            final(geometry).grown_from(old(geometry)),
            r is Ok && old(self).packed() ==> final(self).packed() && final(self).next_slot()
                == old(self).next_slot() + 1,
            final(geometry).exchange_since(old(geometry), 0) matches Exchange::Ndim {
                manifold: _,
                answer: Ok(ndim),
            } ==> (old(self).ranks_fit(shape.boundary@, ndim as int) && old(self).spec_checks()
                && ndim == 2 ==> old(self).polygon_settles(
                final(geometry).record(),
                old(geometry).record().len() as int + 1,
                shape.boundary@,
                r,
            )),
            r matches Err(e) ==> e != CutError::DuplicateEndpoint && e != CutError::RootNotSplit
                && e != CutError::MultipleIntersectionShapes && e
                != CutError::IntersectionMismatch,
            final(geometry).asked_since(old(geometry)) >= 1,
            final(geometry).exchange_since(old(geometry), 0) matches Exchange::Ndim {
                manifold,
                answer,
            } && manifold == shape.manifold && final(self).added_by_answer(
                old(self),
                shape,
                answer,
                final(geometry).asked_since(old(geometry)),
                r,
            ),
            match r {
                Ok(added) => {
                    &&& added.sign == Sign::Pos
                    &&& slot_of(added.id) == old(self).next_slot()
                    &&& !old(self).contains(added.id)
                    &&& final(self).nodes() == old(self).nodes().insert(
                        slot_of(added.id),
                        Node { shape, rank: final(self).node(added.id).rank },
                    )
                    &&& old(self).ranks_fit(shape.boundary@, final(self).rank_of(added.id))
                },
                Err(_) => final(self).nodes() == old(self).nodes(),
            },
    {
        let manifold = shape.manifold;
        let answer = geometry.ndim(manifold);
        let ghost asked = Exchange::Ndim { manifold, answer };
        let ghost after_first = *geometry;
        match answer {
            Ok(ndim) => {
                let r = self.add_with_rank(geometry, shape, ndim);
                proof {
                    lemma_first_stays(old(geometry), &after_first, geometry, asked);
                    if let Ok(added) = r {
                        assert(self.contains(added.id));
                    }
                }
                r
            },
            Err(e) => {
                proof {
                    lemma_asked_once(old(geometry), geometry, asked);
                }
                Err(CutError::Geometry(e))
            },
        }
    }

    /// The whole of `manifold` was added as a shape without boundary and
    /// without tags; `self` is the arena with it, `before` the arena as it
    /// was, `after` and `earlier` the geometry afterwards and before.
    ///
    /// The one question is for the number of dimensions of `manifold`; a
    /// failure to answer is returned. The shape is added if an identifier is
    /// left, and refused with `ArenaFull` if none is. It goes to the next
    /// slot, is referred to positively, and has the number of dimensions
    /// that the geometry told. Nothing else is added or changed.
    pub open spec fn whole_added<G: ManifoldSpace>(
        &self,
        before: &ShapeArena,
        after: &Recorded<G>,
        earlier: &Recorded<G>,
        manifold: ManifoldId,
        r: Result<ShapeRef, CutError>,
    ) -> bool {
        &&& after.grown_from(earlier)
        &&& after.asked_since(earlier) == 1
        &&& after.exchange_since(earlier, 0) matches Exchange::Ndim { manifold: asked, answer }
        &&& asked == manifold
        &&& match answer {
            Err(e) => r == Err::<ShapeRef, CutError>(CutError::Geometry(e)),
            Ok(ndim) => if before.next_slot() <= u32::MAX {
                r matches Ok(added) && self.node(added.id).rank == ndim
            } else {
                r == Err::<ShapeRef, CutError>(CutError::ArenaFull)
            },
        }
        &&& match r {
            Err(_) => self.nodes() == before.nodes(),
            Ok(added) => {
                &&& added.sign == Sign::Pos
                &&& slot_of(added.id) == before.next_slot()
                &&& !before.contains(added.id)
                &&& self.contains(added.id)
                &&& before.extended_by(self)
                &&& forall|id: ShapeId| #[trigger]
                    self.contains(id) ==> before.contains(id) || id == added.id
                &&& self.manifold_of(added.id) == manifold
                &&& self.boundary_of(added.id) == Set::<ShapeRef>::empty()
                &&& self.metadata_of(added) is None
                &&& self.metadata_of(added.spec_neg()) is None
                &&& before.packed() ==> self.packed() && self.next_slot() == before.next_slot()
                    + 1
            },
        }
    }

    /// Adds the whole of `manifold` as a shape without boundary and without
    /// tags.
    pub fn add_whole<G: ManifoldSpace>(&mut self, geometry: &mut Recorded<G>, manifold: ManifoldId) -> (r:
        Result<ShapeRef, CutError>)
        requires
            old(self).wf(),
        ensures
            final(self).wf(),
            r matches Err(CutError::ArenaFull) ==> final(self).next_slot() > u32::MAX,
            old(self).extended_by(final(self)),
            final(self).spec_roots() == old(self).spec_roots(),
            final(geometry).grown_from(old(geometry)),
            final(self).whole_added(old(self), final(geometry), old(geometry), manifold, r),
            r matches Err(e) ==> e is Geometry || e == CutError::ArenaFull,
    {
        let r = self.add(geometry, Shape::whole_space(manifold));
        proof {
            if let Ok(ndim) = geometry.exchange_since(old(geometry), 0)->Ndim_answer {
                assert(old(self).ranks_fit(Set::<ShapeRef>::empty(), ndim as int));
                if old(self).spec_checks() && ndim == 2 {
                    lemma_no_edges_settle(
                        old(self),
                        geometry.record(),
                        old(geometry).record().len() as int + 1,
                        r,
                    );
                }
            }
            if let Ok(added) = r {
                assert forall|id: ShapeId| #[trigger] self.contains(id) implies old(self).contains(
                    id,
                ) || id == added.id by {
                    if id != added.id {
                        assert(slot_of(id) != slot_of(added.id));
                    }
                }
            }
        }
        r
    }

    /// The shape that [`ShapeArena::add_subshape`] makes of the shape `id` with
    /// another boundary: the same manifold, rank and tags.
    pub open spec fn subshape_node(&self, id: ShapeId, boundary: ShapeSet) -> Node {
        Node {
            shape: Shape {
                manifold: self.node(id).shape.manifold,
                boundary,
                positive_metadata: self.node(id).shape.positive_metadata,
                negative_metadata: self.node(id).shape.negative_metadata,
            },
            rank: self.node(id).rank,
        }
    }

    /// What [`ShapeArena::add_subshape`] does and returns; `before` is the
    /// arena as it was, `after` and `earlier` the geometry afterwards and
    /// before.
    ///
    /// With the boundary that `old_shape` has, the shape itself is returned,
    /// and nothing is asked or changed. Otherwise boundary elements of a
    /// wrong number of dimensions give `RankMismatch`; a polygon that has to
    /// be checked is settled by the check of its edges, as
    /// [`ShapeArena::polygon_settles`] says; and any other shape is added if
    /// an identifier is left, with nothing asked, and refused with
    /// `ArenaFull` if none is. A shape that is added goes to the next slot,
    /// is referred to positively, and is the node that
    /// [`ShapeArena::subshape_node`] tells; a shape that is refused leaves
    /// the arena as it was.
    pub open spec fn subshape_added<G: ManifoldSpace>(
        &self,
        before: &ShapeArena,
        after: &Recorded<G>,
        earlier: &Recorded<G>,
        old_shape: ShapeId,
        new_boundary: ShapeSet,
        r: Result<ShapeRef, CutError>,
    ) -> bool {
        if new_boundary@ == before.boundary_of(old_shape) {
            &&& r == Ok::<ShapeRef, CutError>(ShapeRef::spec_from_id(old_shape))
            &&& self.nodes() == before.nodes()
            &&& self.next_slot() == before.next_slot()
            &&& self.packed() == before.packed()
            &&& after.record() == earlier.record()
        } else {
            &&& after.grown_from(earlier)
            &&& if !before.ranks_fit(new_boundary@, before.rank_of(old_shape)) {
                r == Err::<ShapeRef, CutError>(CutError::RankMismatch) && after.record()
                    == earlier.record()
            } else if before.spec_checks() && before.rank_of(old_shape) == 2 {
                before.polygon_settles(
                    after.record(),
                    earlier.record().len() as int,
                    new_boundary@,
                    r,
                )
            } else {
                &&& after.record() == earlier.record()
                &&& if before.next_slot() <= u32::MAX {
                    r is Ok
                } else {
                    r == Err::<ShapeRef, CutError>(CutError::ArenaFull)
                }
            }
            &&& match r {
                Ok(added) => {
                    &&& added.sign == Sign::Pos
                    &&& slot_of(added.id) == before.next_slot()
                    &&& !before.contains(added.id)
                    &&& self.nodes() == before.nodes().insert(
                        slot_of(added.id),
                        before.subshape_node(old_shape, new_boundary),
                    )
                    &&& before.packed() ==> self.packed() && self.next_slot() == before.next_slot()
                        + 1
                },
                Err(_) => self.nodes() == before.nodes(),
            }
        }
    }

    /// Adds a shape using the manifold of an existing shape, or reuses the
    /// existing shape if possible. In particular, if `new_boundary` is the
    /// same as the boundary of `old_shape`, returns `old_shape` and changes
    /// nothing.
    ///
    /// A new shape has the manifold, the number of dimensions and the tags of
    /// the old one. It is checked as [`ShapeArena::add_with_rank`] checks it.
    pub fn add_subshape<G: ManifoldSpace>(
        &mut self,
        geometry: &mut Recorded<G>,
        old_shape: ShapeId,
        new_boundary: ShapeSet,
    ) -> (r: Result<ShapeRef, CutError>)
        requires
            old(self).wf(),
            old(self).contains(old_shape),
            new_boundary.wf(),
            old(self).holds_all(new_boundary@),
        ensures
            final(self).wf(),
            r matches Err(CutError::ArenaFull) ==> final(self).next_slot() > u32::MAX,
            r matches Err(e) ==> e != CutError::MultipleIntersectionShapes,
            old(self).extended_by(final(self)),
            final(self).spec_roots() == old(self).spec_roots(),
            final(geometry).grown_from(old(geometry)),
            r is Ok && old(self).packed() ==> final(self).packed() && final(self).next_slot()
                <= old(self).next_slot() + 1,
            final(self).subshape_added(
                old(self),
                final(geometry),
                old(geometry),
                old_shape,
                new_boundary,
                r,
            ),
            new_boundary@ == old(self).boundary_of(old_shape) ==> r == Ok::<ShapeRef, CutError>(
                ShapeRef::spec_from_id(old_shape),
            ) && final(self).nodes() == old(self).nodes() && final(geometry).record() == old(geometry).record(),
            r == Err::<ShapeRef, CutError>(CutError::RankMismatch) <==> new_boundary@ != old(self).boundary_of(old_shape) && !old(self).ranks_fit(
                new_boundary@,
                old(self).rank_of(old_shape),
            ),
            new_boundary@ != old(self).boundary_of(old_shape) && old(self).ranks_fit(
                new_boundary@,
                old(self).rank_of(old_shape),
            ) && (!(old(self).spec_checks() && old(self).rank_of(old_shape) == 2) || old(self).edges_unbounded(new_boundary@)) ==> (r is Ok <==> old(self).next_slot() <= u32::MAX),
            new_boundary@ != old(self).boundary_of(old_shape) && old(self).ranks_fit(
                new_boundary@,
                old(self).rank_of(old_shape),
            ) && old(self).spec_checks() && old(self).rank_of(old_shape) == 2 ==> old(self).polygon_settles(
                final(geometry).record(),
                old(geometry).record().len() as int,
                new_boundary@,
                r,
            ),
            new_boundary@ != old(self).boundary_of(old_shape) ==> match r {
                Ok(added) => {
                    &&& added.sign == Sign::Pos
                    &&& slot_of(added.id) == old(self).next_slot()
                    &&& !old(self).contains(added.id)
                    &&& final(self).nodes() == old(self).nodes().insert(
                        slot_of(added.id),
                        old(self).subshape_node(old_shape, new_boundary),
                    )
                },
                Err(_) => final(self).nodes() == old(self).nodes(),
            },
    {
        assert(self.bounded_within(old_shape));
        if new_boundary.same_as(&self.shape(old_shape).boundary) {
            Ok(ShapeRef::from_id(old_shape))
        } else {
            let manifold = self.shape(old_shape).manifold;
            let rank = self.rank(old_shape);
            let positive = self.get_metadata(ShapeRef::from_id(old_shape));
            let negative = self.get_metadata(ShapeRef::from_id(old_shape).neg());
            match self.add_with_rank(geometry, Shape::new(manifold, new_boundary), rank) {
                Ok(new_shape) => {
                    let ghost added = *self;
                    self.set_metadata(new_shape, positive);
                    let ghost half = *self;
                    self.set_metadata(new_shape.neg(), negative);
                    proof {
                        lemma_retag_keeps_shapes(&added, &half, new_shape, positive);
                        lemma_retag_keeps_shapes(&half, self, new_shape.spec_neg(), negative);
                        assert(self.nodes() =~= old(self).nodes().insert(
                            slot_of(new_shape.id),
                            old(self).subshape_node(old_shape, new_boundary),
                        ));
                        assert forall|id: ShapeId| #[trigger] old(self).contains(id) implies self.contains(
                            id,
                        ) && self.same_shape_at(old(self), id) by {
                            assert(added.contains(id));
                            assert(half.contains(id));
                        }
                    }
                    Ok(new_shape)
                },
                Err(e) => Err(e),
            }
        }
    }
}

impl ShapeArena {
    /// Gives a shape the tag `inside` on the orientation of the reference and
    /// the tag `outside` on the opposite one. Nothing else changes.
    pub fn tag_both(
        &mut self,
        shape: ShapeRef,
        inside: Option<ShapeMetadata>,
        outside: Option<ShapeMetadata>,
    )
        requires
            old(self).wf(),
            old(self).contains(shape.id),
        ensures
            final(self).wf(),
            final(self).spec_roots() == old(self).spec_roots(),
            final(self).spec_space() == old(self).spec_space(),
            final(self).spec_checks() == old(self).spec_checks(),
            final(self).nodes().dom() == old(self).nodes().dom(),
            final(self).next_slot() == old(self).next_slot(),
            final(self).packed() == old(self).packed(),
            final(self).metadata_of(shape) == inside,
            final(self).metadata_of(shape.spec_neg()) == outside,
            final(self).node(shape.id).rank == old(self).node(shape.id).rank,
            final(self).node(shape.id).shape.manifold == old(self).node(shape.id).shape.manifold,
            final(self).node(shape.id).shape.boundary == old(self).node(shape.id).shape.boundary,
            forall|id: ShapeId|
                id != shape.id && #[trigger] old(self).contains(id) ==> final(self).contains(id)
                    && final(self).node(id) == old(self).node(id),
    {
        self.set_metadata(shape, inside);
        let ghost half = *self;
        self.set_metadata(shape.neg(), outside);
        proof {
            lemma_retag_keeps_shapes(old(self), &half, shape, inside);
            lemma_retag_keeps_shapes(&half, self, shape.spec_neg(), outside);
            assert forall|id: ShapeId|
                id != shape.id && #[trigger] old(self).contains(id) implies self.contains(id)
                && self.node(id) == old(self).node(id) by {
                assert(half.contains(id));
            }
        }
    }
}

/// The check of a polygon without edges asks nothing and finds it closed: the
/// polygon is added if an identifier is left, and refused with `ArenaFull`
/// otherwise.
pub proof fn lemma_no_edges_settle(
    arena: &ShapeArena,
    record: Seq<Exchange>,
    from: int,
    r: Result<ShapeRef, CutError>,
)
    requires
        arena.polygon_settles(record, from, Set::<ShapeRef>::empty(), r),
    ensures
        record.len() == from,
        if arena.next_slot() <= u32::MAX {
            r is Ok
        } else {
            r == Err::<ShapeRef, CutError>(CutError::ArenaFull)
        },
{
    let boundary = Set::<ShapeRef>::empty();
    let closed = choose|closed: Result<bool, CutError>| #[trigger]
        arena.polygon_checked(record, from, boundary, closed) && arena.added_after_check(
            closed,
            r,
        );
    let (visits, walks) = choose|visits: Seq<(ShapeRef, ShapeRef)>, walks: Seq<Walk>|
        {
            &&& #[trigger] arena.walked_so_far(record, from, boundary, visits, walks)
            &&& match closed {
                Ok(closed) => {
                    &&& walks[visits.len() as int].at == record.len()
                    &&& forall|edge: ShapeRef, point_pair: ShapeRef|
                        boundary.contains(edge) && #[trigger] arena.boundary_of(edge.id).contains(
                            point_pair,
                        ) ==> visits.contains((edge, point_pair))
                    &&& closed == (walks[visits.len() as int].starting.len() == 0
                        && walks[visits.len() as int].ending.len() == 0)
                },
                Err(e) => exists|edge: ShapeRef, point_pair: ShapeRef|
                    boundary.contains(edge) && #[trigger] arena.boundary_of(edge.id).contains(
                        point_pair,
                    ) && arena.visit_done(
                        record,
                        walks[visits.len() as int],
                        Walk { at: record.len() as int, ..walks[visits.len() as int] },
                        edge,
                        point_pair,
                        Some(e),
                    ),
            }
        };
    if visits.len() > 0 {
        assert(boundary.contains(visits[0].0));
    }
    assert(visits.len() == 0);
}

} // verus!
