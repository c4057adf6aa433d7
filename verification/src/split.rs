//! Results of splitting a shape, and the parameters of a cut.

use vstd::prelude::*;
use crate::manifold::{GeometryError, ManifoldId, ManifoldSplit};
use crate::sign::{ShapeId, ShapeRef, Sign};

verus! {

/// Tag attached to one orientation of a shape.
pub type ShapeMetadata = u16;

/// The reference in `r`, if any, with the opposite orientation.
pub open spec fn spec_neg_option(r: Option<ShapeRef>) -> Option<ShapeRef> {
    match r {
        Some(r) => Some(r.spec_neg()),
        None => None,
    }
}

/// Negates the reference in `r`, if there is one.
pub fn neg_option(r: Option<ShapeRef>) -> (n: Option<ShapeRef>)
    ensures
        n == spec_neg_option(r),
{
    match r {
        Some(r) => Some(r.neg()),
        None => None,
    }
}

/// Result of splitting an N-dimensional shape by a dividing manifold.
#[derive(Debug, Clone, Copy, PartialEq, Eq, Hash, Structural)]
pub enum ShapeSplit {
    /// The shape's manifold is flush with the divider.
    Flush,
    /// The shape's manifold is completely inside the divider.
    ManifoldInside,
    /// The shape's manifold is completely outside the divider.
    ManifoldOutside,
    /// The shape's manifold meets the divider without being flush with it.
    NonFlush {
        /// N-dimensional part of the shape that is inside the divider.
        inside: Option<ShapeRef>,
        /// N-dimensional part of the shape that is outside the divider.
        outside: Option<ShapeRef>,
        /// (N-1)-dimensional intersection of the shape with the divider.
        intersection_shape: Option<ShapeRef>,
    },
}

impl ShapeSplit {
    /// The split with every reference in it negated.
    pub open spec fn spec_neg(self) -> ShapeSplit {
        match self {
            ShapeSplit::NonFlush { inside, outside, intersection_shape } => ShapeSplit::NonFlush {
                inside: spec_neg_option(inside),
                outside: spec_neg_option(outside),
                intersection_shape: spec_neg_option(intersection_shape),
            },
            _ => self,
        }
    }

    /// The split as seen through a reference of orientation `sign`.
    pub open spec fn spec_times(self, sign: Sign) -> ShapeSplit {
        match sign {
            Sign::Pos => self,
            Sign::Neg => self.spec_neg(),
        }
    }

    /// Whether `id` is the shape of one of the references in the split.
    pub open spec fn mentions(self, id: ShapeId) -> bool {
        match self {
            ShapeSplit::NonFlush { inside, outside, intersection_shape } => {
                ||| (inside matches Some(r) && r.id == id)
                ||| (outside matches Some(r) && r.id == id)
                ||| (intersection_shape matches Some(r) && r.id == id)
            },
            _ => false,
        }
    }

    /// What a classification of the shape's manifold settles without looking
    /// at the boundary: the matching split, or nothing where the divider
    /// crosses the manifold.
    pub open spec fn spec_from_unsplit(split: ManifoldSplit) -> Option<ShapeSplit> {
        match split {
            ManifoldSplit::Flush => Some(ShapeSplit::Flush),
            ManifoldSplit::Inside => Some(ShapeSplit::ManifoldInside),
            ManifoldSplit::Outside => Some(ShapeSplit::ManifoldOutside),
            ManifoldSplit::Split { .. } => None,
        }
    }

    /// The split of a shape whose boundary element shows that the cut misses
    /// it: the whole shape on one side, and no intersection.
    pub open spec fn spec_unsplit_whole(shape: ShapeId, is_inside: bool) -> ShapeSplit {
        ShapeSplit::NonFlush {
            inside: if is_inside {
                Some(ShapeRef::spec_from_id(shape))
            } else {
                None
            },
            outside: if is_inside {
                None
            } else {
                Some(ShapeRef::spec_from_id(shape))
            },
            intersection_shape: None,
        }
    }

    /// Negates every reference in the split.
    pub fn neg(self) -> (r: ShapeSplit)
        ensures
            r == self.spec_neg(),
    {
        match self {
            ShapeSplit::NonFlush { inside, outside, intersection_shape } => ShapeSplit::NonFlush {
                inside: neg_option(inside),
                outside: neg_option(outside),
                intersection_shape: neg_option(intersection_shape),
            },
            _ => self,
        }
    }

    /// Returns the split as seen through a reference of orientation `sign`.
    pub fn times(self, sign: Sign) -> (r: ShapeSplit)
        ensures
            r == self.spec_times(sign),
    {
        match sign {
            Sign::Pos => self,
            Sign::Neg => self.neg(),
        }
    }

    /// Returns what a classification of the shape's manifold settles without
    /// looking at the boundary.
    pub fn from_unsplit(split: ManifoldSplit) -> (r: Option<ShapeSplit>)
        ensures
            r == Self::spec_from_unsplit(split),
    {
        match split {
            ManifoldSplit::Flush => Some(ShapeSplit::Flush),
            ManifoldSplit::Inside => Some(ShapeSplit::ManifoldInside),
            ManifoldSplit::Outside => Some(ShapeSplit::ManifoldOutside),
            ManifoldSplit::Split { .. } => None,
        }
    }

    /// Returns the split of a shape that the cut misses.
    pub fn unsplit_whole(shape: ShapeId, is_inside: bool) -> (r: ShapeSplit)
        ensures
            r == Self::spec_unsplit_whole(shape, is_inside),
    {
        if is_inside {
            ShapeSplit::NonFlush {
                inside: Some(ShapeRef::from_id(shape)),
                outside: None,
                intersection_shape: None,
            }
        } else {
            ShapeSplit::NonFlush {
                inside: None,
                outside: Some(ShapeRef::from_id(shape)),
                intersection_shape: None,
            }
        }
    }
}

/// What to do with the shapes on one side of a cut.
#[derive(Debug, Clone, Copy, PartialEq, Eq, Hash, Structural)]
pub enum CutOp {
    /// Discard them.
    Remove,
    /// Keep them, and tag the newly exposed boundary.
    Keep(Option<ShapeMetadata>),
}

impl CutOp {
    /// The tag for the newly exposed boundary.
    pub open spec fn spec_metadata(self) -> Option<ShapeMetadata> {
        match self {
            CutOp::Remove => None,
            CutOp::Keep(metadata) => metadata,
        }
    }

    /// Whether the shapes on this side are kept.
    pub open spec fn keeps(self) -> bool {
        self is Keep
    }

    /// Returns the tag for the newly exposed boundary.
    pub fn metadata(self) -> (r: Option<ShapeMetadata>)
        ensures
            r == self.spec_metadata(),
    {
        match self {
            CutOp::Remove => None,
            CutOp::Keep(metadata) => metadata,
        }
    }
}

impl Default for CutOp {
    fn default() -> (r: CutOp)
        ensures
            r == CutOp::Keep(None),
    {
        CutOp::Keep(None)
    }
}

/// Parameters for cutting all the shapes of an arena.
#[derive(Debug, Clone, Copy, PartialEq, Eq, Structural)]
pub struct CutParams {
    /// Closed, oriented manifold along which to cut.
    pub cut: ManifoldId,
    /// What to do with the shapes on the inside of the cut.
    pub inside: CutOp,
    /// What to do with the shapes on the outside of the cut.
    pub outside: CutOp,
}

/// Why an operation on an arena failed.
#[derive(Debug, Clone, PartialEq, Eq)]
pub enum CutError {
    /// The geometry could not answer a question.
    Geometry(GeometryError),
    /// A boundary element does not have one dimension less than its shape.
    RankMismatch,
    /// The edges of a polygon do not chain into closed loops.
    InvalidPolygon,
    /// The manifold of a root shape is not split by the cut.
    RootNotSplit,
    /// More than one boundary element is flush with the cut.
    MultipleIntersectionShapes,
    /// A boundary element flush with the cut has a manifold other than the
    /// intersection manifold.
    IntersectionMismatch,
    /// Two of the intervals left by a simplification share an endpoint.
    DuplicateEndpoint,
    /// The arena has no identifier left for another shape.
    ArenaFull,
}

} // verus!
