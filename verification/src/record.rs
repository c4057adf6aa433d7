//! A geometry together with the record of what it was asked and what it
//! answered.
//!
//! The arena consults its geometry through a [`Recorded`] only. The record
//! costs nothing when the program runs; it is there for the contracts, which
//! say what is asked and what is made of each answer.

use vstd::prelude::*;
use crate::manifold::{
    GeometryError, ManifoldId, ManifoldSpace, ManifoldSplit, ManifoldWhichSide, PointId,
    PointWhichSide,
};
use crate::sign::Sign;
use crate::split::CutError;

verus! {

/// One question to a geometry, with the answer that it gave.
#[allow(inconsistent_fields)]
pub enum Exchange {
    /// Number of dimensions of a manifold.
    Ndim { manifold: ManifoldId, answer: Result<u8, GeometryError> },
    /// The manifold with the opposite orientation.
    Flip { manifold: ManifoldId, answer: Result<ManifoldId, GeometryError> },
    /// Classification of a manifold against a divider.
    Split {
        manifold: ManifoldId,
        by: ManifoldId,
        ambient: ManifoldId,
        answer: Result<ManifoldSplit, GeometryError>,
    },
    /// The sides of a cut on which parts of a manifold lie.
    WhichSide {
        manifold: ManifoldId,
        cut: ManifoldId,
        ambient: ManifoldId,
        answer: Result<ManifoldWhichSide, GeometryError>,
    },
    /// The side of a manifold on which a point lies.
    WhichSideHasPoint {
        manifold: ManifoldId,
        point: PointId,
        ambient: ManifoldId,
        answer: Result<PointWhichSide, GeometryError>,
    },
    /// Orientation of one manifold relative to another.
    RelativeOrientation { a: ManifoldId, b: ManifoldId, answer: Option<Sign> },
    /// The two points of a zero-dimensional manifold.
    ToPointPair { manifold: ManifoldId, answer: Result<(PointId, PointId), GeometryError> },
    /// The zero-dimensional manifold made of two points.
    NewPointPair {
        start: PointId,
        end: PointId,
        ambient: ManifoldId,
        answer: Result<ManifoldId, GeometryError>,
    },
    /// Whether two points coincide.
    ApproxEq { a: PointId, b: PointId, answer: bool },
}

/// What becomes of an answer that is passed on as it is: a failure of the
/// geometry is a failure of the operation.
pub open spec fn spec_passed_on<T>(answer: Result<T, GeometryError>) -> Result<T, CutError> {
    match answer {
        Ok(value) => Ok(value),
        Err(e) => Err(CutError::Geometry(e)),
    }
}

/// The failure that a result tells, if it tells one.
pub open spec fn spec_failure_of<T>(r: Result<T, CutError>) -> Option<CutError> {
    match r {
        Ok(_) => None,
        Err(e) => Some(e),
    }
}

/// Passes an answer on as it is: a failure of the geometry becomes a failure
/// of the operation.
pub fn passed_on<T>(answer: Result<T, GeometryError>) -> (r: Result<T, CutError>)
    ensures
        r == spec_passed_on(answer),
{
    match answer {
        Ok(value) => Ok(value),
        Err(e) => Err(CutError::Geometry(e)),
    }
}

/// A geometry together with the record of what it was asked and what it
/// answered, in order.
pub struct Recorded<G> {
    /// The geometry.
    geometry: G,
    /// What the geometry was asked, and what it answered.
    exchanges: Ghost<Seq<Exchange>>,
}

impl<G: ManifoldSpace> Recorded<G> {
    /// What the geometry was asked and what it answered, in order.
    pub closed spec fn record(&self) -> Seq<Exchange> {
        self.exchanges@
    }

    /// The record of `self` starts with the record of `before`.
    pub open spec fn grown_from(&self, before: &Recorded<G>) -> bool {
        &&& before.record().len() <= self.record().len()
        &&& forall|i: int|
            0 <= i < before.record().len() ==> self.record()[i] == #[trigger] before.record()[i]
    }

    /// The number of questions asked since the state `before`.
    pub open spec fn asked_since(&self, before: &Recorded<G>) -> int {
        self.record().len() - before.record().len()
    }

    /// The `k`-th exchange since the state `before`, counted from zero.
    pub open spec fn exchange_since(&self, before: &Recorded<G>, k: int) -> Exchange {
        self.record()[before.record().len() + k]
    }

    /// Exactly one question was asked since the state `before`, and
    /// `exchange` tells it with its answer.
    pub open spec fn asked_once(&self, before: &Recorded<G>, exchange: Exchange) -> bool {
        self.record() == before.record().push(exchange)
    }

    /// At least one question was asked since the state `before`, and
    /// `exchange` tells the first with its answer.
    pub open spec fn asked_first(&self, before: &Recorded<G>, exchange: Exchange) -> bool {
        &&& self.grown_from(before)
        &&& self.asked_since(before) >= 1
        &&& self.exchange_since(before, 0) == exchange
    }

    /// The geometry.
    pub closed spec fn spec_geometry(&self) -> G {
        self.geometry
    }

    /// Starts the record of a geometry.
    pub fn new(geometry: G) -> (recorded: Recorded<G>)
        ensures
            recorded.spec_geometry() == geometry,
            recorded.record().len() == 0,
    {
        Recorded { geometry, exchanges: Ghost(Seq::empty()) }
    }

    /// Returns the geometry, to look at.
    pub fn geometry(&self) -> (geometry: &G)
        ensures
            *geometry == self.spec_geometry(),
    {
        &self.geometry
    }

    /// Returns the geometry, to work on. The record stays as it is: it holds
    /// what the arena asked.
    pub fn geometry_mut(&mut self) -> (geometry: &mut G)
        ensures
            *geometry == old(self).spec_geometry(),
            final(self).spec_geometry() == *final(geometry),
            final(self).record() == old(self).record(),
    {
        &mut self.geometry
    }

    /// Asks the number of dimensions of a manifold.
    pub fn ndim(&mut self, manifold: ManifoldId) -> (answer: Result<u8, GeometryError>)
        ensures
            final(self).asked_once(old(self), Exchange::Ndim { manifold, answer }),
    {
        let answer = self.geometry.ndim(manifold);
        self.exchanges = Ghost(self.exchanges@.push(Exchange::Ndim { manifold, answer }));
        answer
    }

    /// Asks for the manifold with the opposite orientation.
    pub fn flip(&mut self, manifold: ManifoldId) -> (answer: Result<ManifoldId, GeometryError>)
        ensures
            final(self).asked_once(old(self), Exchange::Flip { manifold, answer }),
    {
        let answer = self.geometry.flip(manifold);
        self.exchanges = Ghost(self.exchanges@.push(Exchange::Flip { manifold, answer }));
        answer
    }

    /// Asks how `manifold` lies with respect to the divider `by`, both within
    /// `ambient`.
    pub fn split(&mut self, manifold: ManifoldId, by: ManifoldId, ambient: ManifoldId) -> (answer:
        Result<ManifoldSplit, GeometryError>)
        ensures
            final(self).asked_once(old(self), Exchange::Split { manifold, by, ambient, answer }),
    {
        let answer = self.geometry.split(manifold, by, ambient);
        self.exchanges = Ghost(
            self.exchanges@.push(Exchange::Split { manifold, by, ambient, answer }),
        );
        answer
    }

    /// Asks on which sides of `cut` the parts of `manifold` lie, both within
    /// `ambient`.
    pub fn which_side(&mut self, manifold: ManifoldId, cut: ManifoldId, ambient: ManifoldId) -> (answer:
        Result<ManifoldWhichSide, GeometryError>)
        ensures
            final(self).asked_once(
                old(self),
                Exchange::WhichSide { manifold, cut, ambient, answer },
            ),
    {
        let answer = self.geometry.which_side(manifold, cut, ambient);
        self.exchanges = Ghost(
            self.exchanges@.push(Exchange::WhichSide { manifold, cut, ambient, answer }),
        );
        answer
    }

    /// Asks on which side of `manifold` the point lies, within `ambient`.
    pub fn which_side_has_point(
        &mut self,
        manifold: ManifoldId,
        point: PointId,
        ambient: ManifoldId,
    ) -> (answer: Result<PointWhichSide, GeometryError>)
        ensures
            final(self).asked_once(
                old(self),
                Exchange::WhichSideHasPoint { manifold, point, ambient, answer },
            ),
    {
        let answer = self.geometry.which_side_has_point(manifold, point, ambient);
        self.exchanges = Ghost(
            self.exchanges@.push(Exchange::WhichSideHasPoint { manifold, point, ambient, answer }),
        );
        answer
    }

    /// Asks for the orientation of `a` relative to `b`.
    pub fn relative_orientation(&mut self, a: ManifoldId, b: ManifoldId) -> (answer: Option<Sign>)
        ensures
            final(self).asked_once(old(self), Exchange::RelativeOrientation { a, b, answer }),
    {
        let answer = self.geometry.relative_orientation(a, b);
        self.exchanges = Ghost(
            self.exchanges@.push(Exchange::RelativeOrientation { a, b, answer }),
        );
        answer
    }

    /// Asks for the two points of a zero-dimensional manifold.
    pub fn to_point_pair(&mut self, manifold: ManifoldId) -> (answer: Result<
        (PointId, PointId),
        GeometryError,
    >)
        ensures
            final(self).asked_once(old(self), Exchange::ToPointPair { manifold, answer }),
    {
        let answer = self.geometry.to_point_pair(manifold);
        self.exchanges = Ghost(self.exchanges@.push(Exchange::ToPointPair { manifold, answer }));
        answer
    }

    /// Asks for the zero-dimensional manifold made of `start` and `end`,
    /// within `ambient`.
    pub fn new_point_pair(&mut self, start: PointId, end: PointId, ambient: ManifoldId) -> (answer:
        Result<ManifoldId, GeometryError>)
        ensures
            final(self).asked_once(
                old(self),
                Exchange::NewPointPair { start, end, ambient, answer },
            ),
    {
        let answer = self.geometry.new_point_pair(start, end, ambient);
        self.exchanges = Ghost(
            self.exchanges@.push(Exchange::NewPointPair { start, end, ambient, answer }),
        );
        answer
    }

    /// Asks whether two points coincide.
    pub fn approx_eq(&mut self, a: PointId, b: PointId) -> (answer: bool)
        ensures
            final(self).asked_once(old(self), Exchange::ApproxEq { a, b, answer }),
    {
        let answer = self.geometry.approx_eq(a, b);
        self.exchanges = Ghost(self.exchanges@.push(Exchange::ApproxEq { a, b, answer }));
        answer
    }
}

/// One question more makes the record grow, with that exchange as the first
/// since.
pub proof fn lemma_asked_once<G: ManifoldSpace>(
    before: &Recorded<G>,
    after: &Recorded<G>,
    exchange: Exchange,
)
    requires
        after.asked_once(before, exchange),
    ensures
        after.asked_first(before, exchange),
        after.asked_since(before) == 1,
{
}

/// A record that has grown from one that has grown has grown, and keeps the
/// exchanges that were there.
pub proof fn lemma_grown_twice<G: ManifoldSpace>(
    first: &Recorded<G>,
    second: &Recorded<G>,
    third: &Recorded<G>,
)
    requires
        second.grown_from(first),
        third.grown_from(second),
    ensures
        third.grown_from(first),
        third.asked_since(first) == third.asked_since(second) + second.asked_since(first),
        forall|k: int|
            0 <= k < second.asked_since(first) ==> third.exchange_since(first, k)
                == #[trigger] second.exchange_since(first, k),
        forall|k: int|
            0 <= k < third.asked_since(second) ==> third.exchange_since(
                first,
                second.asked_since(first) + k,
            ) == #[trigger] third.exchange_since(second, k),
{
    assert forall|i: int| 0 <= i < first.record().len() implies third.record()[i]
        == #[trigger] first.record()[i] by {
        assert(second.record()[i] == first.record()[i]);
        assert(third.record()[i] == second.record()[i]);
    }
    assert forall|k: int| 0 <= k < second.asked_since(first) implies third.exchange_since(first, k)
        == #[trigger] second.exchange_since(first, k) by {
        let i = first.record().len() + k;
        assert(third.record()[i] == second.record()[i]);
    }
}

/// The first question asked stays the first, whatever is asked after it.
pub proof fn lemma_first_stays<G: ManifoldSpace>(
    before: &Recorded<G>,
    after_first: &Recorded<G>,
    now: &Recorded<G>,
    exchange: Exchange,
)
    requires
        after_first.asked_once(before, exchange),
        now.grown_from(after_first),
    ensures
        now.asked_first(before, exchange),
        now.asked_since(before) == 1 + now.asked_since(after_first),
{
    let at = before.record().len() as int;
    assert(after_first.record()[at] == exchange);
    assert(now.record()[at] == after_first.record()[at]);
    assert forall|i: int| 0 <= i < before.record().len() implies now.record()[i]
        == #[trigger] before.record()[i] by {
        assert(after_first.record()[i] == before.record()[i]);
        assert(now.record()[i] == after_first.record()[i]);
    }
}

/// The first question asked since a state is the first since any earlier
/// state at which nothing more had been asked.
pub proof fn lemma_first_after_nothing<G: ManifoldSpace>(
    before: &Recorded<G>,
    middle: &Recorded<G>,
    now: &Recorded<G>,
    exchange: Exchange,
)
    requires
        middle.record() == before.record(),
        now.asked_first(middle, exchange),
    ensures
        now.asked_first(before, exchange),
        now.asked_since(before) == now.asked_since(middle),
{
}

/// The first question asked since a state stays the first since that state,
/// whatever is asked later.
pub proof fn lemma_first_kept<G: ManifoldSpace>(
    before: &Recorded<G>,
    then: &Recorded<G>,
    now: &Recorded<G>,
    exchange: Exchange,
)
    requires
        then.asked_first(before, exchange),
        now.grown_from(then),
    ensures
        now.asked_first(before, exchange),
        now.asked_since(before) >= then.asked_since(before),
{
    lemma_grown_twice(before, then, now);
    assert(then.exchange_since(before, 0) == exchange);
}

/// What was asked first since a state stays what was asked first since that
/// state, whatever is asked later.
pub proof fn lemma_first_exchange_kept<G: ManifoldSpace>(
    before: &Recorded<G>,
    then: &Recorded<G>,
    now: &Recorded<G>,
)
    requires
        then.grown_from(before),
        then.asked_since(before) >= 1,
        now.grown_from(then),
    ensures
        now.grown_from(before),
        now.asked_since(before) == then.asked_since(before) + now.asked_since(then),
        now.exchange_since(before, 0) == then.exchange_since(before, 0),
{
    lemma_grown_twice(before, then, now);
    assert(now.exchange_since(before, 0) == then.exchange_since(before, 0));
}

/// Whether an exchange lets a check of endpoints go on: the points of a pair
/// were given, or two points were found not to coincide.
pub open spec fn spec_quiet(exchange: Exchange) -> bool {
    match exchange {
        Exchange::ToPointPair { manifold: _, answer } => answer is Ok,
        Exchange::ApproxEq { a: _, b: _, answer } => !answer,
        _ => false,
    }
}

/// Whether the first `n` exchanges since `before` are quiet.
pub open spec fn spec_quiet_until<G: ManifoldSpace>(
    after: &Recorded<G>,
    before: &Recorded<G>,
    n: int,
) -> bool {
    forall|k: int| 0 <= k < n ==> spec_quiet(#[trigger] after.exchange_since(before, k))
}

/// After one more question, the exchanges that were quiet are quiet, and the
/// new exchange is the last.
pub proof fn lemma_quiet_step<G: ManifoldSpace>(
    before: &Recorded<G>,
    then: &Recorded<G>,
    now: &Recorded<G>,
)
    requires
        then.grown_from(before),
        spec_quiet_until(then, before, then.asked_since(before)),
        now.grown_from(then),
        now.asked_since(then) == 1,
    ensures
        now.grown_from(before),
        now.asked_since(before) == then.asked_since(before) + 1,
        spec_quiet_until(now, before, now.asked_since(before) - 1),
        now.exchange_since(before, now.asked_since(before) - 1) == now.exchange_since(then, 0),
        spec_quiet(now.exchange_since(then, 0)) ==> spec_quiet_until(
            now,
            before,
            now.asked_since(before),
        ),
{
    lemma_grown_twice(before, then, now);
    assert forall|k: int| 0 <= k < then.asked_since(before) implies spec_quiet(
        #[trigger] now.exchange_since(before, k),
    ) by {
        assert(spec_quiet(then.exchange_since(before, k)));
    }
    assert(now.exchange_since(before, then.asked_since(before) + 0) == now.exchange_since(then, 0));
}

} // verus!
