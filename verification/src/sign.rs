//! Orientation signs and signed references to shapes.

use vstd::prelude::*;

verus! {

/// Orientation of a reference. The two signs form a group under
/// multiplication, with `Pos` as the identity.
#[derive(Debug, Clone, Copy, PartialEq, Eq, Hash, Structural)]
pub enum Sign {
    /// Same orientation.
    Pos,
    /// Opposite orientation.
    Neg,
}

impl Sign {
    /// Product of two signs.
    pub open spec fn spec_times(self, other: Sign) -> Sign {
        if self == other {
            Sign::Pos
        } else {
            Sign::Neg
        }
    }

    /// The opposite sign.
    pub open spec fn spec_neg(self) -> Sign {
        match self {
            Sign::Pos => Sign::Neg,
            Sign::Neg => Sign::Pos,
        }
    }

    /// Multiplies two signs.
    pub fn times(self, other: Sign) -> (r: Sign)
        ensures
            r == self.spec_times(other),
    {
        match (self, other) {
            (Sign::Pos, Sign::Pos) => Sign::Pos,
            (Sign::Neg, Sign::Neg) => Sign::Pos,
            _ => Sign::Neg,
        }
    }

    /// Returns the opposite sign.
    pub fn neg(self) -> (r: Sign)
        ensures
            r == self.spec_neg(),
    {
        match self {
            Sign::Pos => Sign::Neg,
            Sign::Neg => Sign::Pos,
        }
    }

    /// Whether this is the negative sign.
    pub fn is_neg(self) -> (r: bool)
        ensures
            r == (self == Sign::Neg),
    {
        match self {
            Sign::Pos => false,
            Sign::Neg => true,
        }
    }
}

impl Default for Sign {
    fn default() -> (r: Sign)
        ensures
            r == Sign::Pos,
    {
        Sign::Pos
    }
}

/// Stable handle of a shape in an arena.
#[derive(Debug, Clone, Copy, PartialEq, Eq, Hash, Structural)]
pub struct ShapeId(pub u32);

/// Reference to one of the two orientations of a shape.
#[derive(Debug, Clone, Copy, PartialEq, Eq, Hash, Structural)]
pub struct ShapeRef {
    /// The shape referred to.
    pub id: ShapeId,
    /// The orientation in which it is taken.
    pub sign: Sign,
}

/// Largest code that stands for a reference.
pub open spec fn max_code() -> int {
    2 * (u32::MAX as int) + 1
}

impl ShapeRef {
    /// The positively oriented reference to `id`.
    pub open spec fn spec_from_id(id: ShapeId) -> ShapeRef {
        ShapeRef { id, sign: Sign::Pos }
    }

    /// The reference to the same shape with the opposite orientation.
    pub open spec fn spec_neg(self) -> ShapeRef {
        ShapeRef { id: self.id, sign: self.sign.spec_neg() }
    }

    /// The reference with its orientation multiplied by `sign`.
    pub open spec fn spec_times(self, sign: Sign) -> ShapeRef {
        ShapeRef { id: self.id, sign: self.sign.spec_times(sign) }
    }

    /// The number under which a set stores this reference: twice the id, plus
    /// one for the negative orientation.
    pub open spec fn spec_code(self) -> int {
        2 * (self.id.0 as int) + if self.sign == Sign::Neg {
            1int
        } else {
            0int
        }
    }

    /// The reference that a code stands for.
    pub open spec fn spec_from_code(code: int) -> ShapeRef {
        ShapeRef {
            id: ShapeId((code / 2) as u32),
            sign: if code % 2 == 1 {
                Sign::Neg
            } else {
                Sign::Pos
            },
        }
    }

    /// Returns the positively oriented reference to `id`.
    pub fn from_id(id: ShapeId) -> (r: ShapeRef)
        ensures
            r == Self::spec_from_id(id),
    {
        ShapeRef { id, sign: Sign::Pos }
    }

    /// Returns the reference to the same shape with the opposite orientation.
    pub fn neg(self) -> (r: ShapeRef)
        ensures
            r == self.spec_neg(),
    {
        ShapeRef { id: self.id, sign: self.sign.neg() }
    }

    /// Multiplies the orientation of the reference by `sign`.
    pub fn times(self, sign: Sign) -> (r: ShapeRef)
        ensures
            r == self.spec_times(sign),
    {
        ShapeRef { id: self.id, sign: self.sign.times(sign) }
    }

    /// Returns the number under which a set stores this reference.
    pub fn code(self) -> (c: u64)
        ensures
            c == self.spec_code(),
            c <= max_code(),
    {
        let id: u64 = self.id.0 as u64;
        match self.sign {
            Sign::Pos => 2 * id,
            Sign::Neg => 2 * id + 1,
        }
    }

    /// Returns the reference that `code` stands for.
    pub fn from_code(code: u64) -> (r: ShapeRef)
        requires
            code <= max_code(),
        ensures
            r == Self::spec_from_code(code as int),
            r.spec_code() == code,
    {
        let id: u32 = (code / 2) as u32;
        let sign = if code % 2 == 1 {
            Sign::Neg
        } else {
            Sign::Pos
        };
        ShapeRef { id: ShapeId(id), sign }
    }
}

/// Multiplication of signs is associative and commutative, `Pos` is its
/// identity, and every sign is its own inverse.
pub proof fn lemma_sign_group(a: Sign, b: Sign, c: Sign)
    ensures
        a.spec_times(b).spec_times(c) == a.spec_times(b.spec_times(c)),
        a.spec_times(b) == b.spec_times(a),
        a.spec_times(Sign::Pos) == a,
        a.spec_times(a) == Sign::Pos,
        a.spec_times(Sign::Neg) == a.spec_neg(),
{
}

/// Negating a reference twice gives the reference back, negation is
/// multiplication by `Neg`, and neither changes the shape referred to.
pub proof fn lemma_ref_negation(r: ShapeRef, s: Sign)
    ensures
        r.spec_neg().spec_neg() == r,
        r.spec_neg() == r.spec_times(Sign::Neg),
        r.spec_times(Sign::Pos) == r,
        r.spec_times(s).spec_times(s) == r,
        r.spec_neg() != r,
        r.spec_neg().id == r.id,
        r.spec_times(s).id == r.id,
{
}

/// A reference is found again from its code, and different references have
/// different codes.
pub proof fn lemma_code_round_trip(r: ShapeRef, q: ShapeRef)
    ensures
        0 <= r.spec_code() <= max_code(),
        ShapeRef::spec_from_code(r.spec_code()) == r,
        r.spec_code() == q.spec_code() ==> r == q,
{
}

} // verus!
