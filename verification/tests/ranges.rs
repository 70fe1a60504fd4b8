use inline_layout::ranges::{relation_of_clump_and_range, repair_span, BoxRange, ClumpRangeRelation};

fn r(start: u16, len: u16) -> BoxRange {
    BoxRange { start, len }
}

#[test]
fn relation_entirely_before() {
    let rel = relation_of_clump_and_range(r(0, 2), r(2, 3));
    assert!(matches!(rel, ClumpRangeRelation::EntirelyBefore));
}

#[test]
fn relation_entirely_after() {
    let rel = relation_of_clump_and_range(r(5, 2), r(2, 3));
    assert!(matches!(rel, ClumpRangeRelation::EntirelyAfter));
}

#[test]
fn relation_coincides_wins_over_contains() {
    // A span covering exactly the clump must classify as Coincides, not as
    // ContainsClump or ContainedByClump: the check order matters.
    let rel = relation_of_clump_and_range(r(2, 3), r(2, 3));
    assert!(matches!(rel, ClumpRangeRelation::Coincides));
}

#[test]
fn relation_contains_clump() {
    let rel = relation_of_clump_and_range(r(1, 5), r(2, 3));
    assert!(matches!(rel, ClumpRangeRelation::ContainsClump));
}

#[test]
fn relation_contained_by_clump() {
    let rel = relation_of_clump_and_range(r(3, 1), r(2, 3));
    assert!(matches!(rel, ClumpRangeRelation::ContainedByClump));
}

#[test]
fn relation_overlaps_start() {
    // Span [0,4) against clump [2,5): two boxes shared.
    let rel = relation_of_clump_and_range(r(0, 4), r(2, 3));
    assert!(matches!(rel, ClumpRangeRelation::OverlapsClumpStart(2)));
}

#[test]
fn relation_overlaps_end() {
    // Span [3,7) against clump [2,5): two boxes shared.
    let rel = relation_of_clump_and_range(r(3, 4), r(2, 3));
    assert!(matches!(rel, ClumpRangeRelation::OverlapsClumpEnd(2)));
}

#[test]
fn repair_before_unchanged() {
    assert_eq!(repair_span(r(0, 2), r(2, 3)), r(0, 2));
}

#[test]
fn repair_after_shifts_by_net_shrinkage() {
    // A clump of three collapses to one box: spans after it move left by two.
    assert_eq!(repair_span(r(5, 2), r(2, 3)), r(3, 2));
}

#[test]
fn repair_coincides_becomes_singleton() {
    assert_eq!(repair_span(r(2, 3), r(2, 3)), r(2, 1));
}

#[test]
fn repair_contained_becomes_singleton() {
    assert_eq!(repair_span(r(3, 1), r(2, 3)), r(2, 1));
}

#[test]
fn repair_contains_undercounts_by_one() {
    // A span strictly containing the clump shrinks by the full clump size,
    // one more than the net box loss: it gives up the replacement box. The
    // accurate repair would be r(1, 3); the scanner's rule yields r(1, 2).
    assert_eq!(repair_span(r(1, 5), r(2, 3)), r(1, 2));
}

#[test]
fn repair_overlap_start_keeps_replacement() {
    // Span [0,4), clump [2,5): keeps boxes 0,1 and the replacement at 2.
    assert_eq!(repair_span(r(0, 4), r(2, 3)), r(0, 3));
}

#[test]
fn repair_overlap_end_moves_to_clump_start() {
    // Span [3,7), clump [2,5): keeps the replacement at 2 and boxes 5,6.
    assert_eq!(repair_span(r(3, 4), r(2, 3)), r(2, 3));
}
