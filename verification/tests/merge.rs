use cdr_outline::merge::{contact_pairs, plan_merge, MergeError};
use cdr_outline::rings::{
    counts_as_ring, inner_rings, outer_ring, segment_kind, subpaths_to_delete, RingError,
    SegmentKind,
};
use cdr_outline::transaction::{merge_steps, MergeStep};

fn bits<const N: usize>(values: [f64; N]) -> [u64; N] {
    values.map(f64::to_bits)
}

#[test]
fn every_outline_is_tested_with_every_hole() {
    assert_eq!(
        contact_pairs(&[false, true, false, true]),
        vec![(0, 1), (0, 3), (2, 1), (2, 3)]
    );
}

#[test]
fn touching_curves_are_merged() {
    let is_hole = [false, true, false, true, true];
    let plan = plan_merge(&is_hole, &[true, false, false, false, true, false]).ok().unwrap();
    assert_eq!(plan.groups, vec![vec![0, 1], vec![2, 3]]);
    assert_eq!(plan.untouched_hole_count, 1);
    let plan = plan_merge(&is_hole, &[true, true, false, true, false, false]).ok().unwrap();
    assert_eq!(plan.groups.len(), 1);
    let mut group = plan.groups[0].clone();
    assert!(!is_hole[group[0]] && !is_hole[group[1]]);
    group.sort();
    assert_eq!(group, vec![0, 1, 2, 3]);
}

#[test]
fn merges_without_contact_are_refused() {
    let error = plan_merge(&[false, false], &[]).err().unwrap();
    assert_eq!(error, MergeError::MissingOutlineOrHole);
    assert!(error.message().starts_with("请同时选择至少一条内容巡边曲线"));
    let error = plan_merge(&[false, true], &[false]).err().unwrap();
    assert_eq!(error, MergeError::NothingTouches);
    assert!(error.message().starts_with("所选孔位没有与任何巡边曲线接触"));
    assert!(MergeError::NothingToMerge.message().starts_with("没有找到可融合的"));
}

#[test]
fn groups_are_welded_step_by_step() {
    let is_hole = [false, true];
    let plan = plan_merge(&is_hole, &[true]).ok().unwrap();
    assert_eq!(
        merge_steps(&plan, &is_hole, &[true, false], true),
        vec![
            MergeStep::Base(0),
            MergeStep::RetainOuterRing(1),
            MergeStep::Weld(1),
            MergeStep::AppendInnerRings(0),
            MergeStep::AppendInnerRings(1),
            MergeStep::Name,
            MergeStep::Regroup(0),
            MergeStep::WriteReport,
        ]
    );
}

#[test]
fn the_largest_ring_is_the_outermost() {
    assert_eq!(outer_ring(&bits([1.0, 4.0, 4.0, 2.0])), Some(2));
    assert_eq!(outer_ring(&[]), None);
    assert_eq!(inner_rings(&bits([1.0, 4.0, 2.0])), Ok(vec![0, 2]));
    assert_eq!(inner_rings(&bits([1.0])), Err(RingError::NoCenterRing));
    assert_eq!(inner_rings(&[]), Err(RingError::NoOuterRing));
    assert_eq!(
        subpaths_to_delete(4, &[1, 3], &bits([9.0, 2.0])),
        Ok(vec![4, 3, 2])
    );
    assert_eq!(subpaths_to_delete(1, &[], &[]), Err(RingError::NoOuterRing));
    assert!(counts_as_ring(true, 3) && !counts_as_ring(true, 2) && !counts_as_ring(false, 9));
    assert_eq!(segment_kind(0), Ok(SegmentKind::Line));
    assert_eq!(segment_kind(1), Ok(SegmentKind::Curve));
    let error = segment_kind(-7).unwrap_err();
    assert_eq!(error.message(), "unsupported Corel segment type: -7");
}
