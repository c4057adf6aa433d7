//! Signs, references, sets of references, splits and their texts.

use hyperspeedcube::contain::{boundary_verdict, is_on, BoundaryVerdict};
use hyperspeedcube::intervals::{closed_contains, merge_plan, MergePlan};
use hyperspeedcube::manifold::{ManifoldId, ManifoldSplit, ManifoldWhichSide, PointId, PointWhichSide};
use hyperspeedcube::orient::{combine_orientation, orient_pair};
use hyperspeedcube::shape::{Shape, ShapeSet};
use hyperspeedcube::sign::{ShapeId, ShapeRef, Sign};
use hyperspeedcube::slice::SliceOperation;
use hyperspeedcube::split::{neg_option, CutOp, CutParams, ShapeSplit};
use hyperspeedcube::text::{decimal, describe_option};

fn r(id: u32, sign: Sign) -> ShapeRef {
    ShapeRef { id: ShapeId(id), sign }
}

#[test]
fn signs_form_a_group() {
    let signs = [Sign::Pos, Sign::Neg];
    assert_eq!(Sign::Pos.times(Sign::Pos), Sign::Pos);
    assert_eq!(Sign::Pos.times(Sign::Neg), Sign::Neg);
    assert_eq!(Sign::Neg.times(Sign::Pos), Sign::Neg);
    assert_eq!(Sign::Neg.times(Sign::Neg), Sign::Pos);
    assert_eq!(Sign::Pos.neg(), Sign::Neg);
    assert_eq!(Sign::Neg.neg(), Sign::Pos);
    assert!(Sign::Neg.is_neg());
    assert!(!Sign::Pos.is_neg());
    assert_eq!(Sign::default(), Sign::Pos);
    for a in signs {
        assert_eq!(a.times(Sign::Pos), a);
        assert_eq!(a.times(a), Sign::Pos);
        assert_eq!(a.neg().neg(), a);
        for b in signs {
            assert_eq!(a.times(b), b.times(a));
            for c in signs {
                assert_eq!(a.times(b).times(c), a.times(b.times(c)));
            }
        }
    }
}

#[test]
fn references_negate_and_multiply() {
    let plus = ShapeRef::from_id(ShapeId(12));
    assert_eq!(plus, r(12, Sign::Pos));
    assert_eq!(plus.neg(), r(12, Sign::Neg));
    assert_eq!(plus.neg().neg(), plus);
    assert_ne!(plus.neg(), plus);
    assert_eq!(plus.times(Sign::Neg), plus.neg());
    assert_eq!(plus.times(Sign::Pos), plus);
    assert_eq!(plus.neg().times(Sign::Neg), plus);
}

#[test]
fn references_are_found_again_from_their_codes() {
    assert_eq!(r(0, Sign::Pos).code(), 0);
    assert_eq!(r(0, Sign::Neg).code(), 1);
    assert_eq!(r(21, Sign::Pos).code(), 42);
    assert_eq!(r(21, Sign::Neg).code(), 43);
    assert_eq!(r(u32::MAX, Sign::Neg).code(), 8_589_934_591);
    assert_eq!(ShapeRef::from_code(42), r(21, Sign::Pos));
    assert_eq!(ShapeRef::from_code(43), r(21, Sign::Neg));
    for id in [0, 1, 2, 77, 65_536, u32::MAX] {
        for sign in [Sign::Pos, Sign::Neg] {
            assert_eq!(ShapeRef::from_code(r(id, sign).code()), r(id, sign));
        }
    }
}

#[test]
fn a_set_holds_each_reference_once() {
    let mut set = ShapeSet::new();
    assert!(set.is_empty());
    assert!(set.to_vec().is_empty());
    assert!(set.insert(r(3, Sign::Pos)));
    assert!(!set.insert(r(3, Sign::Pos)));
    assert!(set.insert(r(3, Sign::Neg)));
    assert!(set.insert(r(u32::MAX, Sign::Neg)));
    assert!(!set.is_empty());
    assert!(set.contains(r(3, Sign::Pos)));
    assert!(set.contains(r(3, Sign::Neg)));
    assert!(set.contains(r(u32::MAX, Sign::Neg)));
    assert!(!set.contains(r(u32::MAX, Sign::Pos)));
    assert!(!set.contains(r(4, Sign::Pos)));
    let mut members = set.to_vec();
    members.sort_by_key(|m| m.code());
    assert_eq!(members, vec![r(3, Sign::Pos), r(3, Sign::Neg), r(u32::MAX, Sign::Neg)]);

    assert!(set.remove(r(3, Sign::Neg)));
    assert!(!set.remove(r(3, Sign::Neg)));
    assert!(!set.contains(r(3, Sign::Neg)));
    assert!(set.contains(r(3, Sign::Pos)));
    assert_eq!(set.to_vec().len(), 2);

    set.extend(None);
    assert_eq!(set.to_vec().len(), 2);
    set.extend(Some(r(9, Sign::Pos)));
    assert!(set.contains(r(9, Sign::Pos)));
    assert_eq!(set.to_vec().len(), 3);
}

#[test]
fn sets_are_compared_and_copied_by_their_members() {
    let mut first = ShapeSet::new();
    let mut second = ShapeSet::new();
    assert!(first.same_as(&second));
    first.insert(r(1, Sign::Pos));
    first.insert(r(2, Sign::Neg));
    assert!(!first.same_as(&second));
    second.insert(r(2, Sign::Neg));
    assert!(!first.same_as(&second));
    second.insert(r(1, Sign::Pos));
    assert!(first.same_as(&second));
    second.insert(r(1, Sign::Neg));
    assert!(!first.same_as(&second));

    let mut copy = first.clone();
    assert!(copy.same_as(&first));
    copy.insert(r(5, Sign::Pos));
    assert!(!copy.same_as(&first));
    assert!(!first.contains(r(5, Sign::Pos)));
}

#[test]
fn opposite_references_cancel() {
    let mut set = ShapeSet::new();
    for member in [r(1, Sign::Pos), r(2, Sign::Pos), r(2, Sign::Neg), r(3, Sign::Neg)] {
        set.insert(member);
    }
    let mut kept = set.cancel_opposites().to_vec();
    kept.sort_by_key(|m| m.code());
    assert_eq!(kept, vec![r(1, Sign::Pos), r(3, Sign::Neg)]);
    assert!(ShapeSet::new().cancel_opposites().is_empty());
    assert_eq!(set.to_vec().len(), 4);
}

#[test]
fn shapes_start_untagged() {
    let mut boundary = ShapeSet::new();
    boundary.insert(r(4, Sign::Neg));
    let shape = Shape::new(ManifoldId(8), boundary);
    assert_eq!(shape.manifold, ManifoldId(8));
    assert_eq!(shape.boundary.to_vec(), vec![r(4, Sign::Neg)]);
    assert_eq!(shape.positive_metadata, None);
    assert_eq!(shape.negative_metadata, None);
    let whole = Shape::whole_space(ManifoldId(2));
    assert_eq!(whole.manifold, ManifoldId(2));
    assert!(whole.boundary.is_empty());
    assert_eq!(whole.positive_metadata, None);
    assert_eq!(whole.negative_metadata, None);
}

#[test]
fn splits_negate_every_reference() {
    let split = ShapeSplit::NonFlush {
        inside: Some(r(1, Sign::Pos)),
        outside: None,
        intersection_shape: Some(r(3, Sign::Neg)),
    };
    let negated = ShapeSplit::NonFlush {
        inside: Some(r(1, Sign::Neg)),
        outside: None,
        intersection_shape: Some(r(3, Sign::Pos)),
    };
    assert_eq!(split.neg(), negated);
    assert_eq!(split.neg().neg(), split);
    assert_eq!(split.times(Sign::Pos), split);
    assert_eq!(split.times(Sign::Neg), negated);
    for settled in [ShapeSplit::Flush, ShapeSplit::ManifoldInside, ShapeSplit::ManifoldOutside] {
        assert_eq!(settled.neg(), settled);
        assert_eq!(settled.times(Sign::Neg), settled);
        assert!(settled.is_closed());
    }
    assert_eq!(neg_option(None), None);
    assert_eq!(neg_option(Some(r(7, Sign::Pos))), Some(r(7, Sign::Neg)));

    assert!(split.is_closed());
    let open = ShapeSplit::NonFlush {
        inside: Some(r(1, Sign::Pos)),
        outside: Some(r(2, Sign::Pos)),
        intersection_shape: None,
    };
    assert!(!open.is_closed());
    assert!(!open.neg().is_closed());
    let full = ShapeSplit::NonFlush {
        inside: Some(r(1, Sign::Pos)),
        outside: Some(r(2, Sign::Pos)),
        intersection_shape: Some(r(3, Sign::Pos)),
    };
    assert!(full.is_closed());
    assert!(ShapeSplit::NonFlush { inside: None, outside: None, intersection_shape: None }.is_closed());
}

#[test]
fn a_classification_may_settle_the_split() {
    assert_eq!(ShapeSplit::from_unsplit(ManifoldSplit::Flush), Some(ShapeSplit::Flush));
    assert_eq!(ShapeSplit::from_unsplit(ManifoldSplit::Inside), Some(ShapeSplit::ManifoldInside));
    assert_eq!(ShapeSplit::from_unsplit(ManifoldSplit::Outside), Some(ShapeSplit::ManifoldOutside));
    assert_eq!(
        ShapeSplit::from_unsplit(ManifoldSplit::Split { intersection_manifold: ManifoldId(3) }),
        None
    );
    assert_eq!(
        ShapeSplit::unsplit_whole(ShapeId(4), true),
        ShapeSplit::NonFlush { inside: Some(r(4, Sign::Pos)), outside: None, intersection_shape: None }
    );
    assert_eq!(
        ShapeSplit::unsplit_whole(ShapeId(4), false),
        ShapeSplit::NonFlush { inside: None, outside: Some(r(4, Sign::Pos)), intersection_shape: None }
    );
}

#[test]
fn results_are_recorded_and_found_again() {
    let params = CutParams { cut: ManifoldId(6), inside: CutOp::Keep(Some(2)), outside: CutOp::Remove };
    let mut op = SliceOperation::new(params);
    assert_eq!(op.divider(), ManifoldId(6));
    assert_eq!(op.inside_metadata(), Some(2));
    assert_eq!(op.outside_metadata(), None);
    assert_eq!(op.lookup(ShapeId(1)), None);
    op.record(ShapeId(1), ShapeSplit::Flush);
    assert_eq!(op.lookup(ShapeId(1)), Some(ShapeSplit::Flush));
    assert_eq!(op.lookup(ShapeId(2)), None);
    let split = ShapeSplit::unsplit_whole(ShapeId(2), true);
    op.record(ShapeId(2), split);
    op.record(ShapeId(1), ShapeSplit::ManifoldInside);
    assert_eq!(op.lookup(ShapeId(1)), Some(ShapeSplit::ManifoldInside));
    assert_eq!(op.lookup(ShapeId(2)), Some(split));
}

#[test]
fn cut_operations_carry_their_tags() {
    assert_eq!(CutOp::Remove.metadata(), None);
    assert_eq!(CutOp::Keep(None).metadata(), None);
    assert_eq!(CutOp::Keep(Some(17)).metadata(), Some(17));
    assert_eq!(CutOp::default(), CutOp::Keep(None));
    assert_eq!(CutOp::Remove.describe(), "REMOVE");
    assert_eq!(CutOp::Keep(None).describe(), "KEEP");
    assert_eq!(CutOp::Keep(Some(17)).describe(), "KEEP (data = 17)");
    assert_eq!(CutOp::Keep(Some(0)).describe(), "KEEP (data = 0)");
    assert_eq!(CutOp::Keep(Some(u16::MAX)).describe(), "KEEP (data = 65535)");
}

#[test]
fn numbers_and_references_as_text() {
    assert_eq!(decimal(0), "0");
    assert_eq!(decimal(7), "7");
    assert_eq!(decimal(10), "10");
    assert_eq!(decimal(1234567890), "1234567890");
    assert_eq!(decimal(u64::MAX), "18446744073709551615");
    assert_eq!(r(12, Sign::Pos).describe(), "+#12");
    assert_eq!(r(0, Sign::Neg).describe(), "-#0");
    assert_eq!(describe_option(None), "<none>");
    assert_eq!(describe_option(Some(r(5, Sign::Neg))), "-#5");
}

#[test]
fn splits_as_text() {
    assert_eq!(ShapeSplit::Flush.describe(), "Flush");
    assert_eq!(ShapeSplit::ManifoldInside.describe(), "ManifoldInside");
    assert_eq!(ShapeSplit::ManifoldOutside.describe(), "ManifoldOutside");
    let split = ShapeSplit::NonFlush {
        inside: Some(r(1, Sign::Pos)),
        outside: None,
        intersection_shape: Some(r(30, Sign::Neg)),
    };
    assert_eq!(
        split.describe(),
        "NonFlush { inside: +#1, outside: <none>, intersection_shape: -#30 }"
    );
}

#[test]
fn sides_are_exchanged_by_a_negative_sign() {
    let side = ManifoldWhichSide { is_any_inside: true, is_any_outside: false };
    assert_eq!(side.times(Sign::Pos), side);
    assert_eq!(side.times(Sign::Neg), ManifoldWhichSide { is_any_inside: false, is_any_outside: true });
    let both = ManifoldWhichSide { is_any_inside: true, is_any_outside: true };
    assert_eq!(both.times(Sign::Neg), both);
    assert_eq!(PointWhichSide::On.times(Sign::Neg), PointWhichSide::On);
    assert_eq!(PointWhichSide::Inside.times(Sign::Neg), PointWhichSide::Outside);
    assert_eq!(PointWhichSide::Outside.times(Sign::Neg), PointWhichSide::Inside);
    for side in [PointWhichSide::On, PointWhichSide::Inside, PointWhichSide::Outside] {
        assert_eq!(side.times(Sign::Pos), side);
    }
    assert_eq!(orient_pair((PointId(1), PointId(2)), Sign::Pos), (PointId(1), PointId(2)));
    assert_eq!(orient_pair((PointId(1), PointId(2)), Sign::Neg), (PointId(2), PointId(1)));
    assert_eq!(combine_orientation(None, Sign::Neg, Sign::Pos), None);
    assert_eq!(combine_orientation(Some(Sign::Pos), Sign::Pos, Sign::Pos), Some(Sign::Pos));
    assert_eq!(combine_orientation(Some(Sign::Pos), Sign::Neg, Sign::Pos), Some(Sign::Neg));
    assert_eq!(combine_orientation(Some(Sign::Neg), Sign::Neg, Sign::Pos), Some(Sign::Pos));
    assert_eq!(combine_orientation(Some(Sign::Neg), Sign::Neg, Sign::Neg), Some(Sign::Neg));
}

#[test]
fn verdicts_of_a_boundary_element() {
    assert_eq!(boundary_verdict(PointWhichSide::Inside, false), BoundaryVerdict::Pass);
    assert_eq!(boundary_verdict(PointWhichSide::Inside, true), BoundaryVerdict::Pass);
    assert_eq!(boundary_verdict(PointWhichSide::Outside, false), BoundaryVerdict::Reject);
    assert_eq!(boundary_verdict(PointWhichSide::Outside, true), BoundaryVerdict::Reject);
    assert_eq!(boundary_verdict(PointWhichSide::On, false), BoundaryVerdict::Descend);
    assert_eq!(boundary_verdict(PointWhichSide::On, true), BoundaryVerdict::Reject);
    assert!(is_on(PointWhichSide::On));
    assert!(!is_on(PointWhichSide::Inside));
    assert!(!is_on(PointWhichSide::Outside));
    assert!(closed_contains(PointWhichSide::On));
    assert!(closed_contains(PointWhichSide::Inside));
    assert!(!closed_contains(PointWhichSide::Outside));
}

#[test]
fn merge_plans_for_every_answer() {
    let (a, b, p, q) = (PointId(0), PointId(1), PointId(2), PointId(3));
    let plan = |hp: bool, hq: bool, ha: bool, hb: bool| merge_plan(a, b, p, q, hp, hq, ha, hb);
    assert_eq!(plan(true, true, true, true), MergePlan::WholeSpace);
    assert_eq!(plan(true, true, false, false), MergePlan::First);
    assert_eq!(plan(true, true, true, false), MergePlan::First);
    assert_eq!(plan(true, true, false, true), MergePlan::First);
    assert_eq!(plan(false, false, true, true), MergePlan::Second);
    assert_eq!(plan(true, false, true, true), MergePlan::Second);
    assert_eq!(plan(false, true, true, true), MergePlan::Second);
    assert_eq!(plan(false, false, false, false), MergePlan::NoIntersection);
    assert_eq!(plan(false, true, false, true), MergePlan::NoIntersection);
    assert_eq!(plan(true, false, true, false), MergePlan::NoIntersection);
    assert_eq!(plan(false, false, true, false), MergePlan::NoIntersection);
    assert_eq!(plan(false, false, false, true), MergePlan::NoIntersection);
    assert_eq!(plan(true, false, false, false), MergePlan::NoIntersection);
    assert_eq!(plan(false, true, false, false), MergePlan::NoIntersection);
    assert_eq!(plan(true, false, false, true), MergePlan::Span { start: a, end: q });
    assert_eq!(plan(false, true, true, false), MergePlan::Span { start: p, end: b });
}
