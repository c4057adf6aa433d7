//! The geometric capability that the arena consumes.
//!
//! The arena never looks inside a manifold or a point. It holds handles and
//! asks a [`ManifoldSpace`] how the objects behind them relate.

use vstd::prelude::*;
use crate::sign::Sign;

verus! {

/// Handle of an oriented manifold kept by a [`ManifoldSpace`].
#[derive(Debug, Clone, Copy, PartialEq, Eq, Hash, Structural)]
pub struct ManifoldId(pub u32);

/// Handle of a point kept by a [`ManifoldSpace`].
#[derive(Debug, Clone, Copy, PartialEq, Eq, Hash, Structural)]
pub struct PointId(pub u32);

/// How a manifold lies with respect to a dividing manifold.
#[derive(Debug, Clone, Copy, PartialEq, Eq, Hash, Structural)]
pub enum ManifoldSplit {
    /// The manifold coincides with the divider.
    Flush,
    /// The manifold is entirely inside the divider.
    Inside,
    /// The manifold is entirely outside the divider.
    Outside,
    /// The divider crosses the manifold.
    Split {
        /// Where the two meet, one dimension lower than the manifold.
        intersection_manifold: ManifoldId,
    },
}

/// On which sides of a cut some part of a manifold lies.
#[derive(Debug, Clone, Copy, PartialEq, Eq, Hash, Structural)]
pub struct ManifoldWhichSide {
    /// Some part of the manifold is inside the cut.
    pub is_any_inside: bool,
    /// Some part of the manifold is outside the cut.
    pub is_any_outside: bool,
}

impl ManifoldWhichSide {
    /// The same answer for the cut taken with orientation `sign`: a negative
    /// sign exchanges inside and outside.
    pub open spec fn spec_times(self, sign: Sign) -> ManifoldWhichSide {
        match sign {
            Sign::Pos => self,
            Sign::Neg => ManifoldWhichSide {
                is_any_inside: self.is_any_outside,
                is_any_outside: self.is_any_inside,
            },
        }
    }

    /// Returns the answer for the cut taken with orientation `sign`.
    pub fn times(self, sign: Sign) -> (r: ManifoldWhichSide)
        ensures
            r == self.spec_times(sign),
    {
        match sign {
            Sign::Pos => self,
            Sign::Neg => ManifoldWhichSide {
                is_any_inside: self.is_any_outside,
                is_any_outside: self.is_any_inside,
            },
        }
    }
}

/// On which side of a manifold a point lies.
#[derive(Debug, Clone, Copy, PartialEq, Eq, Hash, Structural)]
pub enum PointWhichSide {
    /// The point is on the manifold.
    On,
    /// The point is inside the manifold.
    Inside,
    /// The point is outside the manifold.
    Outside,
}

impl PointWhichSide {
    /// The same answer for the manifold taken with orientation `sign`: a
    /// negative sign exchanges inside and outside.
    pub open spec fn spec_times(self, sign: Sign) -> PointWhichSide {
        match (sign, self) {
            (Sign::Neg, PointWhichSide::Inside) => PointWhichSide::Outside,
            (Sign::Neg, PointWhichSide::Outside) => PointWhichSide::Inside,
            _ => self,
        }
    }

    /// Returns the answer for the manifold taken with orientation `sign`.
    pub fn times(self, sign: Sign) -> (r: PointWhichSide)
        ensures
            r == self.spec_times(sign),
    {
        match (sign, self) {
            (Sign::Neg, PointWhichSide::Inside) => PointWhichSide::Outside,
            (Sign::Neg, PointWhichSide::Outside) => PointWhichSide::Inside,
            _ => self,
        }
    }
}

/// Failure reported by a [`ManifoldSpace`]: a degenerate configuration that
/// the geometry could not resolve.
#[derive(Debug, Clone, PartialEq, Eq)]
pub struct GeometryError {
    /// What went wrong, in words.
    pub message: String,
}

/// Geometry of the space that an arena lives in.
///
/// The methods carry no contract: the arena is verified for whatever they
/// answer, and checks what it relies on (the dimension of each boundary
/// element) when a shape is added. The arena asks through a
/// [`crate::record::Recorded`], so that its contracts can say what is asked
/// and what is made of each answer.
pub trait ManifoldSpace {
    /// Number of dimensions of a manifold.
    fn ndim(&self, manifold: ManifoldId) -> Result<u8, GeometryError>;

    /// The manifold with the opposite orientation.
    fn flip(&mut self, manifold: ManifoldId) -> Result<ManifoldId, GeometryError>;

    /// Classifies `manifold` against the divider `by`, both within `ambient`.
    fn split(&mut self, manifold: ManifoldId, by: ManifoldId, ambient: ManifoldId) -> Result<
        ManifoldSplit,
        GeometryError,
    >;

    /// Tells on which sides of `cut` the parts of `manifold` lie, both within
    /// `ambient`.
    fn which_side(&self, manifold: ManifoldId, cut: ManifoldId, ambient: ManifoldId) -> Result<
        ManifoldWhichSide,
        GeometryError,
    >;

    /// Tells on which side of `manifold` the point lies, within `ambient`.
    fn which_side_has_point(
        &self,
        manifold: ManifoldId,
        point: PointId,
        ambient: ManifoldId,
    ) -> Result<PointWhichSide, GeometryError>;

    /// `Some(Pos)` if `a` and `b` are the same manifold with the same
    /// orientation, `Some(Neg)` if they are the same manifold with opposite
    /// orientations, `None` if they are different manifolds.
    fn relative_orientation(&self, a: ManifoldId, b: ManifoldId) -> Option<Sign>;

    /// The two points of a zero-dimensional manifold, in order.
    fn to_point_pair(&mut self, manifold: ManifoldId) -> Result<(PointId, PointId), GeometryError>;

    /// The zero-dimensional manifold made of `start` and `end`, within
    /// `ambient`.
    fn new_point_pair(&mut self, start: PointId, end: PointId, ambient: ManifoldId) -> Result<
        ManifoldId,
        GeometryError,
    >;

    /// Whether two points coincide, up to the tolerance of the geometry.
    fn approx_eq(&self, a: PointId, b: PointId) -> bool;
}

} // verus!
