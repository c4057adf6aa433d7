//! Manifolds and point pairs as seen through signed references.

use vstd::prelude::*;
use crate::record::{passed_on, spec_passed_on, Exchange, Recorded};
use crate::arena::ShapeArena;
use crate::manifold::{GeometryError, ManifoldId, ManifoldSpace, PointId};
use crate::sign::{ShapeRef, Sign};
use crate::split::CutError;

verus! {

/// A manifold with an orientation: that of a shape, taken with the sign of
/// the reference, or one given directly, taken as it is.
#[derive(Debug, Clone, Copy, PartialEq, Eq, Structural)]
pub enum SignedManifold {
    /// The manifold of a shape of the arena.
    Shape(ShapeRef),
    /// A manifold of the geometry.
    Manifold(ManifoldId),
}

impl SignedManifold {
    /// The orientation in which the manifold is taken.
    pub open spec fn spec_sign(self) -> Sign {
        match self {
            SignedManifold::Shape(r) => r.sign,
            SignedManifold::Manifold(_) => Sign::Pos,
        }
    }

    /// Whether the manifold can be found in `arena`.
    pub open spec fn within(self, arena: &ShapeArena) -> bool {
        match self {
            SignedManifold::Shape(r) => arena.contains(r.id),
            SignedManifold::Manifold(_) => true,
        }
    }

    /// The manifold, before its orientation is applied.
    pub open spec fn spec_manifold(self, arena: &ShapeArena) -> ManifoldId {
        match self {
            SignedManifold::Shape(r) => arena.manifold_of(r.id),
            SignedManifold::Manifold(m) => m,
        }
    }

    /// Returns the orientation in which the manifold is taken.
    pub fn sign(&self) -> (s: Sign)
        ensures
            s == self.spec_sign(),
    {
        match self {
            SignedManifold::Shape(r) => r.sign,
            SignedManifold::Manifold(_) => Sign::Pos,
        }
    }

    /// Returns the manifold, before its orientation is applied.
    pub fn get_manifold_from(&self, arena: &ShapeArena) -> (m: ManifoldId)
        requires
            self.within(arena),
        ensures
            m == self.spec_manifold(arena),
    {
        match self {
            SignedManifold::Shape(r) => arena.shape(r.id).manifold,
            SignedManifold::Manifold(m) => *m,
        }
    }
}

/// The two points of a pair as seen with orientation `sign`: in order for
/// `Pos`, exchanged for `Neg`.
pub open spec fn spec_orient_pair(pair: (PointId, PointId), sign: Sign) -> (PointId, PointId) {
    match sign {
        Sign::Pos => pair,
        Sign::Neg => (pair.1, pair.0),
    }
}

/// Returns the two points of a pair as seen with orientation `sign`.
pub fn orient_pair(pair: (PointId, PointId), sign: Sign) -> (r: (PointId, PointId))
    ensures
        r == spec_orient_pair(pair, sign),
{
    match sign {
        Sign::Pos => pair,
        Sign::Neg => (pair.1, pair.0),
    }
}

/// The orientation of `a` relative to `b`, from the orientation `relative` of
/// their manifolds and the signs with which the two are taken.
pub open spec fn spec_combine_orientation(relative: Option<Sign>, a: Sign, b: Sign) -> Option<Sign> {
    match relative {
        Some(sign) => Some(sign.spec_times(a).spec_times(b)),
        None => None,
    }
}

/// Returns the orientation of `a` relative to `b`, from the orientation of
/// their manifolds and the signs with which the two are taken.
pub fn combine_orientation(relative: Option<Sign>, a: Sign, b: Sign) -> (r: Option<Sign>)
    ensures
        r == spec_combine_orientation(relative, a, b),
{
    match relative {
        Some(sign) => Some(sign.times(a).times(b)),
        None => None,
    }
}

/// What is made of the answer to the question for the points of a manifold
/// that is taken with orientation `sign`: the points as that orientation sees
/// them, or the failure of the geometry.
pub open spec fn spec_point_pair_of(
    answer: Result<(PointId, PointId), GeometryError>,
    sign: Sign,
) -> Result<(PointId, PointId), CutError> {
    match answer {
        Ok(pair) => Ok(spec_orient_pair(pair, sign)),
        Err(e) => Err(CutError::Geometry(e)),
    }
}

impl ShapeArena {
    /// Returns a shape's manifold, flipped depending on the sign of the
    /// reference to the shape.
    ///
    /// A positive reference gives the manifold as it is. For a negative one
    /// the geometry is asked for the flipped manifold, and may fail.
    pub fn signed_manifold_of_shape<G: ManifoldSpace>(
        &self,
        geometry: &mut Recorded<G>,
        shape: ShapeRef,
    ) -> (r: Result<ManifoldId, CutError>)
        requires
            self.contains(shape.id),
        ensures
            shape.sign == Sign::Pos ==> r == Ok::<ManifoldId, CutError>(self.manifold_of(shape.id))
                && final(geometry).record() == old(geometry).record(),
            shape.sign == Sign::Neg ==> exists|answer: Result<ManifoldId, GeometryError>|
                {
                    &&& #[trigger] final(geometry).asked_once(
                        old(geometry),
                        Exchange::Flip { manifold: self.manifold_of(shape.id), answer },
                    )
                    &&& r == spec_passed_on(answer)
                },
            final(geometry).grown_from(old(geometry)),
            r matches Err(e) ==> e is Geometry,
    {
        let m = self.shape(shape.id).manifold;
        match shape.sign {
            Sign::Pos => Ok(m),
            Sign::Neg => {
                let answer = geometry.flip(m);
                assert(geometry.asked_once(
                    old(geometry),
                    Exchange::Flip { manifold: self.manifold_of(shape.id), answer },
                ));
                passed_on(answer)
            },
        }
    }

    /// Returns the sign difference between two manifolds, or `None` if they
    /// are different.
    pub fn sign_difference<G: ManifoldSpace>(
        &self,
        geometry: &mut Recorded<G>,
        a: SignedManifold,
        b: SignedManifold,
    ) -> (r: Option<Sign>)
        requires
            a.within(self),
            b.within(self),
        ensures
            exists|answer: Option<Sign>|
                {
                    &&& #[trigger] final(geometry).asked_once(
                        old(geometry),
                        Exchange::RelativeOrientation {
                            a: a.spec_manifold(self),
                            b: b.spec_manifold(self),
                            answer,
                        },
                    )
                    &&& r == spec_combine_orientation(answer, a.spec_sign(), b.spec_sign())
                },
            final(geometry).grown_from(old(geometry)),
            final(geometry).asked_since(old(geometry)) == 1,
            final(geometry).exchange_since(
                old(geometry),
                0,
            ) matches Exchange::RelativeOrientation { a: first, b: second, answer } && first
                == a.spec_manifold(self) && second == b.spec_manifold(self) && r
                == spec_combine_orientation(answer, a.spec_sign(), b.spec_sign()),
    {
        let relative = geometry.relative_orientation(
            a.get_manifold_from(self),
            b.get_manifold_from(self),
        );
        combine_orientation(relative, a.sign(), b.sign())
    }

    /// Returns the pair of points represented by a zero-dimensional manifold,
    /// exchanged if the manifold is taken with a negative sign.
    pub fn shape_to_point_pair<G: ManifoldSpace>(
        &self,
        geometry: &mut Recorded<G>,
        shape: SignedManifold,
    ) -> (r: Result<(PointId, PointId), CutError>)
        requires
            shape.within(self),
        ensures
            exists|answer: Result<(PointId, PointId), GeometryError>|
                {
                    &&& #[trigger] final(geometry).asked_once(
                        old(geometry),
                        Exchange::ToPointPair { manifold: shape.spec_manifold(self), answer },
                    )
                    &&& r == spec_point_pair_of(answer, shape.spec_sign())
                },
            final(geometry).grown_from(old(geometry)),
            final(geometry).asked_since(old(geometry)) == 1,
            final(geometry).exchange_since(old(geometry), 0) matches Exchange::ToPointPair {
                manifold,
                answer,
            } && manifold == shape.spec_manifold(self) && r == spec_point_pair_of(
                answer,
                shape.spec_sign(),
            ),
            r matches Err(e) ==> e is Geometry,
    {
        match geometry.to_point_pair(shape.get_manifold_from(self)) {
            Ok(pair) => Ok(orient_pair(pair, shape.sign())),
            Err(e) => Err(CutError::Geometry(e)),
        }
    }
}

} // verus!
