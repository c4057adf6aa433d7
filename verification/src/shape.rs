//! Shapes and the sets of signed references that bound them.

use vstd::prelude::*;
use crate::manifold::ManifoldId;
use crate::sign::{max_code, lemma_code_round_trip, ShapeRef, Sign};
use crate::split::ShapeMetadata;
use crate::store::{
    code_set_clone, code_set_contains, code_set_eq, code_set_insert, code_set_is_empty,
    code_set_members, code_set_new, code_set_remove, code_set_to_vec,
};

verus! {

/// Set of signed references to shapes.
///
/// A reference and its negation are different members.
pub struct ShapeSet {
    codes: tinyset::SetU64,
}

impl ShapeSet {
    /// The references in the set.
    pub closed spec fn view(&self) -> Set<ShapeRef> {
        Set::new(|r: ShapeRef| code_set_members(self.codes).contains(r.spec_code() as u64))
    }

    /// Every number stored stands for a reference.
    pub closed spec fn wf(&self) -> bool {
        forall|c: u64| #[trigger] code_set_members(self.codes).contains(c) ==> c <= max_code()
    }

    /// Creates an empty set.
    pub fn new() -> (s: ShapeSet)
        ensures
            s.wf(),
            s@ == Set::<ShapeRef>::empty(),
    {
        let s = ShapeSet { codes: code_set_new() };
        assert(s@ =~= Set::<ShapeRef>::empty());
        s
    }

    /// Adds a reference to the set. Returns whether it was new.
    pub fn insert(&mut self, r: ShapeRef) -> (fresh: bool)
        requires
            old(self).wf(),
        ensures
            final(self).wf(),
            final(self)@ == old(self)@.insert(r),
            fresh == !old(self)@.contains(r),
    {
        let fresh = code_set_insert(&mut self.codes, r.code());
        proof {
            assert forall|q: ShapeRef| self@.contains(q) <==> old(self)@.insert(r).contains(q) by {
                lemma_code_round_trip(q, r);
            }
            assert(self@ =~= old(self)@.insert(r));
        }
        fresh
    }

    /// Adds the reference in `r`, if there is one.
    pub fn extend(&mut self, r: Option<ShapeRef>)
        requires
            old(self).wf(),
        ensures
            final(self).wf(),
            final(self)@ == match r {
                Some(r) => old(self)@.insert(r),
                None => old(self)@,
            },
    {
        if let Some(r) = r {
            let _ = self.insert(r);
        }
    }

    /// Removes a reference from the set. Returns whether it was a member.
    pub fn remove(&mut self, r: ShapeRef) -> (present: bool)
        requires
            old(self).wf(),
        ensures
            final(self).wf(),
            final(self)@ == old(self)@.remove(r),
            present == old(self)@.contains(r),
    {
        let present = code_set_remove(&mut self.codes, r.code());
        proof {
            assert forall|q: ShapeRef| self@.contains(q) <==> old(self)@.remove(r).contains(q) by {
                lemma_code_round_trip(q, r);
            }
            assert(self@ =~= old(self)@.remove(r));
        }
        present
    }

    /// Returns whether the reference is a member.
    pub fn contains(&self, r: ShapeRef) -> (present: bool)
        ensures
            present == self@.contains(r),
    {
        code_set_contains(&self.codes, r.code())
    }

    /// Returns whether the set has no member.
    pub fn is_empty(&self) -> (empty: bool)
        requires
            self.wf(),
        ensures
            empty == (self@ == Set::<ShapeRef>::empty()),
    {
        let empty = code_set_is_empty(&self.codes);
        proof {
            if empty {
                assert(self@ =~= Set::<ShapeRef>::empty());
            } else {
                let members = code_set_members(self.codes);
                assert(!(members =~= Set::<u64>::empty()));
                let c = choose|c: u64| members.contains(c);
                let r = ShapeRef::spec_from_code(c as int);
                assert(r.spec_code() == c);
                assert(self@.contains(r));
            }
        }
        empty
    }

    /// Returns the members, each once, in no particular order.
    pub fn to_vec(&self) -> (v: Vec<ShapeRef>)
        requires
            self.wf(),
        ensures
            v@.no_duplicates(),
            forall|r: ShapeRef| v@.contains(r) <==> self@.contains(r),
    {
        let codes = code_set_to_vec(&self.codes);
        let mut v: Vec<ShapeRef> = Vec::new();
        let mut i: usize = 0;
        while i < codes.len()
            invariant
                self.wf(),
                i <= codes.len(),
                v.len() == i,
                forall|c: u64| codes@.contains(c) <==> code_set_members(self.codes).contains(c),
                forall|j: int| 0 <= j < i ==> (#[trigger] v[j]).spec_code() == codes[j],
            decreases codes.len() - i,
        {
            let c = codes[i];
            assert(codes@.contains(c));
            v.push(ShapeRef::from_code(c));
            i += 1;
        }
        proof {
            assert forall|a: int, b: int| 0 <= a < v.len() && 0 <= b < v.len() && a != b implies v[a]
                != v[b] by {
                assert(codes[a] != codes[b]);
            }
            assert forall|r: ShapeRef| v@.contains(r) <==> self@.contains(r) by {
                if v@.contains(r) {
                    let j = choose|j: int| 0 <= j < v.len() && v[j] == r;
                    assert(codes@.contains(codes[j]));
                }
                if self@.contains(r) {
                    let c = r.spec_code() as u64;
                    assert(codes@.contains(c));
                    let j = choose|j: int| 0 <= j < codes.len() && codes[j] == c;
                    lemma_code_round_trip(r, v[j]);
                    assert(v[j] == r);
                }
            }
        }
        v
    }

    /// Returns whether the two sets have the same members.
    pub fn same_as(&self, other: &ShapeSet) -> (same: bool)
        requires
            self.wf(),
            other.wf(),
        ensures
            same == (self@ == other@),
    {
        let same = code_set_eq(&self.codes, &other.codes);
        proof {
            let a = code_set_members(self.codes);
            let b = code_set_members(other.codes);
            if same {
                assert(self@ =~= other@);
            } else {
                assert(!(a =~= b));
                let c = choose|c: u64| a.contains(c) != b.contains(c);
                let r = ShapeRef::spec_from_code(c as int);
                assert(r.spec_code() == c);
                assert(self@.contains(r) != other@.contains(r));
            }
        }
        same
    }
}

impl ShapeSet {
    /// The references of `s` whose negation is not in `s`.
    pub open spec fn spec_cancel_opposites(s: Set<ShapeRef>) -> Set<ShapeRef> {
        Set::new(|r: ShapeRef| s.contains(r) && !s.contains(r.spec_neg()))
    }

    /// Returns the set without the references that occur with both
    /// orientations: a reference and its negation cancel.
    pub fn cancel_opposites(&self) -> (kept: ShapeSet)
        requires
            self.wf(),
        ensures
            kept.wf(),
            kept@ == Self::spec_cancel_opposites(self@),
    {
        let members = self.to_vec();
        let mut kept = ShapeSet::new();
        let mut i: usize = 0;
        while i < members.len()
            invariant
                i <= members.len(),
                kept.wf(),
                forall|r: ShapeRef| members@.contains(r) <==> self@.contains(r),
                forall|r: ShapeRef|
                    kept@.contains(r) <==> (exists|j: int|
                        0 <= j < i && members[j] == r && !self@.contains(r.spec_neg())),
            decreases members.len() - i,
        {
            let member = members[i];
            let ghost before = kept@;
            if !self.contains(member.neg()) {
                let _ = kept.insert(member);
            }
            proof {
                assert forall|r: ShapeRef|
                    kept@.contains(r) <==> (exists|j: int|
                        0 <= j < i + 1 && members[j] == r && !self@.contains(r.spec_neg())) by {
                    if kept@.contains(r) {
                        if before.contains(r) {
                            let j = choose|j: int|
                                0 <= j < i && members[j] == r && !self@.contains(r.spec_neg());
                            assert(0 <= j < i + 1 && members[j] == r);
                        } else {
                            assert(members[i as int] == r);
                        }
                    }
                    if exists|j: int|
                        0 <= j < i + 1 && members[j] == r && !self@.contains(r.spec_neg()) {
                        let j = choose|j: int|
                            0 <= j < i + 1 && members[j] == r && !self@.contains(r.spec_neg());
                        if j < i {
                            assert(before.contains(r));
                        }
                    }
                }
            }
            i += 1;
        }
        proof {
            assert forall|r: ShapeRef|
                kept@.contains(r) <==> Self::spec_cancel_opposites(self@).contains(r) by {
                if kept@.contains(r) {
                    let j = choose|j: int|
                        0 <= j < i && members[j] == r && !self@.contains(r.spec_neg());
                    assert(members@.contains(r));
                }
                if Self::spec_cancel_opposites(self@).contains(r) {
                    assert(members@.contains(r));
                    let j = choose|j: int| 0 <= j < members.len() && members[j] == r;
                    assert(0 <= j < i && members[j] == r && !self@.contains(r.spec_neg()));
                }
            }
            assert(kept@ =~= Self::spec_cancel_opposites(self@));
        }
        kept
    }
}

impl Clone for ShapeSet {
    /// Returns a set with the same members.
    fn clone(&self) -> (s: ShapeSet)
        ensures
            s@ == self@,
            s.wf() == self.wf(),
    {
        let s = ShapeSet { codes: code_set_clone(&self.codes) };
        assert(s@ =~= self@);
        s
    }
}

/// Region of a manifold, given by the lower-dimensional shapes that bound it.
pub struct Shape {
    /// Manifold of the shape.
    pub manifold: ManifoldId,
    /// Boundary of the shape, represented using a set of oriented shapes of
    /// one dimension less.
    pub boundary: ShapeSet,
    /// Tag of the positive orientation.
    pub positive_metadata: Option<ShapeMetadata>,
    /// Tag of the negative orientation.
    pub negative_metadata: Option<ShapeMetadata>,
}

impl Shape {
    /// `other` has the same manifold, the same boundary and the same tags.
    pub open spec fn spec_same(&self, other: &Shape) -> bool {
        &&& self.manifold == other.manifold
        &&& self.boundary@ == other.boundary@
        &&& self.boundary.wf() == other.boundary.wf()
        &&& self.positive_metadata == other.positive_metadata
        &&& self.negative_metadata == other.negative_metadata
    }

    /// The tag of the orientation `sign`.
    pub open spec fn spec_metadata(&self, sign: Sign) -> Option<ShapeMetadata> {
        match sign {
            Sign::Pos => self.positive_metadata,
            Sign::Neg => self.negative_metadata,
        }
    }

    /// The shape with the tag of the orientation `sign` replaced.
    pub open spec fn spec_with_metadata(self, sign: Sign, metadata: Option<ShapeMetadata>) -> Shape {
        match sign {
            Sign::Pos => Shape { positive_metadata: metadata, ..self },
            Sign::Neg => Shape { negative_metadata: metadata, ..self },
        }
    }

    /// Creates an untagged shape from its manifold and boundary.
    pub fn new(manifold: ManifoldId, boundary: ShapeSet) -> (s: Shape)
        ensures
            s.manifold == manifold,
            s.boundary == boundary,
            s.positive_metadata.is_none(),
            s.negative_metadata.is_none(),
    {
        Shape { manifold, boundary, positive_metadata: None, negative_metadata: None }
    }

    /// Creates the untagged shape that is the whole of a manifold: it has no
    /// boundary.
    pub fn whole_space(manifold: ManifoldId) -> (s: Shape)
        ensures
            s.manifold == manifold,
            s.boundary.wf(),
            s.boundary@ == Set::<ShapeRef>::empty(),
            s.positive_metadata.is_none(),
            s.negative_metadata.is_none(),
    {
        Shape::new(manifold, ShapeSet::new())
    }
}

impl Clone for Shape {
    /// Returns a shape with the same manifold, boundary and tags.
    fn clone(&self) -> (s: Shape)
        ensures
            s.spec_same(self),
    {
        Shape {
            manifold: self.manifold,
            boundary: self.boundary.clone(),
            positive_metadata: self.positive_metadata,
            negative_metadata: self.negative_metadata,
        }
    }
}

/// A shape as an arena stores it: with the number of dimensions that its
/// manifold had when the shape was added.
pub struct Node {
    /// The shape.
    pub shape: Shape,
    /// Number of dimensions of the shape.
    pub rank: u8,
}

impl Node {
    /// `other` stores the same shape with the same number of dimensions.
    pub open spec fn spec_same(&self, other: &Node) -> bool {
        self.rank == other.rank && self.shape.spec_same(&other.shape)
    }
}

impl Clone for Node {
    /// Returns a node that stores the same shape.
    fn clone(&self) -> (n: Node)
        ensures
            n.spec_same(self),
    {
        Node { shape: self.shape.clone(), rank: self.rank }
    }
}

} // verus!
