use std::ops::Range;

use sqlsync::LsnRange;

#[test]
fn lsnrange_len() {
    assert_eq!(LsnRange::new(0, 0).len(), 1);
    assert_eq!(LsnRange::new(0, 1).len(), 2);
    assert_eq!(LsnRange::new(5, 10).len(), 6);
}

#[test]
fn lsnrange_contains() {
    let range = LsnRange::new(5, 10);

    assert!(!range.contains(0));
    assert!(range.contains(5));
    assert!(range.contains(6));
    assert!(range.contains(10));
    assert!(!range.contains(11));
}

fn check_intersection(
    range: &LsnRange,
    other: LsnRange,
    intersection: Option<LsnRange>,
    offsets: Range<usize>,
) {
    assert_eq!(
        !range.intersects(&other),
        offsets.is_empty(),
        "checking intersects: {:?}, {:?}",
        range,
        other
    );
    assert_eq!(
        range.intersect(&other),
        intersection,
        "checking intersection: {:?}, {:?}",
        range,
        other
    );
    assert_eq!(
        range.intersection_offsets(&other),
        offsets,
        "checking intersection_offsets: {:?}, {:?}",
        range,
        other
    );
    match intersection {
        Some(intersection) => {
            let first = intersection.first();
            for i in 0..(intersection.len() as u64) {
                assert_eq!(
                    range.offset(first + i),
                    Some((offsets.start as u64 + i) as usize)
                );
            }
        }
        None => {
            assert_eq!(range.offset(other.first()), None);
        }
    }
}

#[test]
fn lsnrange_intersects() {
    let range = LsnRange::new(5, 10);
    let r = LsnRange::new;

    check_intersection(&range, r(0, 4), None::<LsnRange>, 0..0);
    check_intersection(&range, r(0, 5), Some(r(5, 5)), 0..1);
    check_intersection(&range, r(0, 6), Some(r(5, 6)), 0..2);
    check_intersection(&range, r(0, 10), Some(r(5, 10)), 0..6);
    check_intersection(&range, r(0, 11), Some(r(5, 10)), 0..6);
    check_intersection(&range, r(5, 5), Some(r(5, 5)), 0..1);
    check_intersection(&range, r(5, 6), Some(r(5, 6)), 0..2);
    check_intersection(&range, r(5, 10), Some(r(5, 10)), 0..6);
    check_intersection(&range, r(5, 11), Some(r(5, 10)), 0..6);
    check_intersection(&range, r(9, 10), Some(r(9, 10)), 4..6);
    check_intersection(&range, r(10, 10), Some(r(10, 10)), 5..6);
    check_intersection(&range, r(10, 11), Some(r(10, 10)), 5..6);
    check_intersection(&range, r(11, 11), None::<LsnRange>, 0..0);
    check_intersection(&range, r(20, 30), None::<LsnRange>, 0..0);
}

fn check_preceeds_follows(range: &LsnRange, other: LsnRange, result: bool) {
    assert_eq!(range.immediately_preceeds(&other), result);
    assert_eq!(other.immediately_follows(range), result);
}

#[test]
fn lsnrange_preceeds_follows() {
    let range = LsnRange::new(5, 10);

    check_preceeds_follows(&range, LsnRange::new(0, 4), false);
    check_preceeds_follows(&range, LsnRange::new(0, 5), false);
    check_preceeds_follows(&range, LsnRange::new(0, 6), false);
    check_preceeds_follows(&range, LsnRange::new(9, 10), false);
    check_preceeds_follows(&range, LsnRange::new(10, 10), false);
    check_preceeds_follows(&range, LsnRange::new(10, 11), false);
    check_preceeds_follows(&range, LsnRange::new(11, 11), true);
    check_preceeds_follows(&range, LsnRange::new(11, 12), true);
    check_preceeds_follows(&range, LsnRange::new(12, 12), false);
}

#[test]
fn lsnrange_trim_prefix() {
    let range = LsnRange::new(5, 10);

    assert_eq!(range.trim_prefix(0), Some(range));
    assert_eq!(range.trim_prefix(4), Some(range));
    assert_eq!(range.trim_prefix(5), Some(LsnRange::new(6, 10)));
    assert_eq!(range.trim_prefix(6), Some(LsnRange::new(7, 10)));
    assert_eq!(range.trim_prefix(7), Some(LsnRange::new(8, 10)));
    assert_eq!(range.trim_prefix(8), Some(LsnRange::new(9, 10)));
    assert_eq!(range.trim_prefix(9), Some(LsnRange::new(10, 10)));
    assert_eq!(range.trim_prefix(10), None);
    assert_eq!(range.trim_prefix(20), None);
}

#[test]
fn lsnrange_extend() {
    let range = LsnRange::new(5, 10);
    assert_eq!(range.extend_by(1), LsnRange::new(5, 11));
    assert_eq!(range.extend_by(2), LsnRange::new(5, 12));
}

/// `union` is defined only for ranges that overlap or touch; these inputs are
/// outside that domain.
#[test]
fn lsnrange_union_invariant() {
    let range = LsnRange::new(5, 10);
    for other in [
        LsnRange::new(0, 0),
        LsnRange::new(0, 3),
        LsnRange::new(12, 12),
        LsnRange::new(15, 20),
    ] {
        assert!(
            !(range.intersects(&other)
                || range.immediately_preceeds(&other)
                || range.immediately_follows(&other)),
            "ranges do not intersect or meet. self: {:?}, other: {:?}",
            range,
            other
        );
    }
}

#[test]
fn lsnrange_union() {
    let range = LsnRange::new(5, 10);
    assert_eq!(range.union(&LsnRange::new(0, 4)), LsnRange::new(0, 10));
    assert_eq!(range.union(&LsnRange::new(4, 4)), LsnRange::new(4, 10));
    assert_eq!(range.union(&LsnRange::new(5, 5)), LsnRange::new(5, 10));
    assert_eq!(range.union(&LsnRange::new(5, 10)), LsnRange::new(5, 10));
    assert_eq!(range.union(&LsnRange::new(7, 10)), LsnRange::new(5, 10));
    assert_eq!(range.union(&LsnRange::new(10, 10)), LsnRange::new(5, 10));
    assert_eq!(range.union(&LsnRange::new(10, 11)), LsnRange::new(5, 11));
    assert_eq!(range.union(&LsnRange::new(11, 11)), LsnRange::new(5, 11));
    assert_eq!(range.union(&LsnRange::new(11, 15)), LsnRange::new(5, 15));
    assert_eq!(range.union(&LsnRange::new(4, 11)), LsnRange::new(4, 11));
    assert_eq!(range.union(&LsnRange::new(0, 100)), LsnRange::new(0, 100));
}
