use flight_cone::grid::{
    bounding_box, get_neighbor_indices, get_straight_line_ref, is_in_line, is_straight, l2_diff,
    ref_paths_intersection, reindex_reference, to_ix, GridIx,
};
use flight_cone::relax::{relaxation_proposals, NeighborInfo, Proposal};

fn cell(pos: (u16, u16), cols: u16) -> GridIx {
    GridIx::from_grid(pos, (100, cols))
}

#[test]
fn flat_offset_round_trip() {
    let ix = GridIx::from_grid((3, 7), (10, 20));
    assert_eq!(ix.ix, 67);
    let back = to_ix((10, 20), 67);
    assert_eq!(back.pos, (3, 7));
    assert_eq!(back.ix, 67);
}

#[test]
fn l2_diff_is_signed() {
    assert_eq!(l2_diff(&(2, 9), &(5, 4)), (-3, 5));
}

#[test]
fn straight_and_in_line() {
    assert!(is_straight(&(4, 1), &(4, 9)));
    assert!(is_straight(&(2, 6), &(8, 6)));
    assert!(!is_straight(&(2, 6), &(3, 7)));
    assert!(is_in_line(&(4, 5), &(4, 9), &(4, 1)));
    assert!(!is_in_line(&(4, 10), &(4, 9), &(4, 1)));
    assert!(is_in_line(&(3, 6), &(2, 6), &(8, 6)));
    assert!(!is_in_line(&(3, 7), &(2, 6), &(8, 6)));
}

#[test]
fn neighbours_in_order_and_clipped() {
    let shape = (3, 4);
    let centre = GridIx::from_grid((1, 1), shape);
    let n: Vec<(u16, u16)> = get_neighbor_indices(&centre, shape).iter().map(|g| g.pos).collect();
    assert_eq!(n, vec![(0, 1), (1, 0), (2, 1), (1, 2)]);
    let corner = GridIx::from_grid((2, 3), shape);
    let n: Vec<(u16, u16)> = get_neighbor_indices(&corner, shape).iter().map(|g| g.pos).collect();
    assert_eq!(n, vec![(1, 3), (2, 2)]);
    let offsets: Vec<usize> = get_neighbor_indices(&corner, shape).iter().map(|g| g.ix).collect();
    assert_eq!(offsets, vec![7, 10]);
}

#[test]
fn ref_paths_intersection_cases() {
    let cols = 10;
    let a = cell((5, 5), cols);
    let b = cell((5, 6), cols);
    let r = Some(cell((5, 1), cols));
    // A shared reference is the common ancestor.
    assert_eq!(ref_paths_intersection(&a, &r, &b, &r).map(|g| g.pos), Some((5, 1)));
    // b's reference lies on the straight segment from a to its reference.
    let ra = Some(cell((5, 0), cols));
    let rb = Some(cell((5, 2), cols));
    assert_eq!(ref_paths_intersection(&a, &ra, &b, &rb).map(|g| g.pos), Some((5, 2)));
    // No reference: no common ancestor.
    assert!(ref_paths_intersection(&a, &None, &b, &rb).is_none());
    // Two unrelated references.
    let rc = Some(cell((1, 1), cols));
    let rd = Some(cell((9, 9), cols));
    assert!(ref_paths_intersection(&a, &rc, &b, &rd).is_none());
}

#[test]
fn straight_line_ref_walks_the_chain() {
    let shape = (1, 6);
    // Cells 0..5 in one row, each referencing the one before; cell 0 is the start.
    let mut references = vec![None];
    for c in 1..6u16 {
        references.push(Some(GridIx::from_grid((0, c - 1), shape)));
    }
    let target = GridIx::from_grid((0, 5), shape);
    let from = GridIx::from_grid((0, 4), shape);
    assert_eq!(get_straight_line_ref(&target, from, &references).pos, (0, 0));
    // Off the row the chain is not straight, so the neighbour itself is kept.
    let off = GridIx::from_grid((3, 5), (4, 6));
    assert_eq!(get_straight_line_ref(&off, from, &references).pos, (0, 4));
}

#[test]
fn reindex_translates_references() {
    let old = Some(GridIx::from_grid((7, 9), (20, 20)));
    let moved = reindex_reference(&old, (5, 10), (6, 12), (6, 7)).unwrap();
    assert_eq!(moved.pos, (2, 3));
    assert_eq!(moved.ix, 2 * 7 + 3);
    assert!(reindex_reference(&None, (5, 10), (6, 12), (6, 7)).is_none());
}

#[test]
fn bounding_box_of_cells() {
    assert!(bounding_box(&vec![]).is_none());
    let b = bounding_box(&vec![(4, 9), (2, 11), (7, 3)]).unwrap();
    assert_eq!(b, ((2, 7), (3, 11)));
}

fn info(pos: (u16, u16), reference: Option<(u16, u16)>, reachable: bool, key: u32) -> NeighborInfo {
    NeighborInfo {
        ix: cell(pos, 10),
        reference: reference.map(|p| cell(p, 10)),
        reachable,
        distance_key: key,
    }
}

#[test]
fn relaxation_single_neighbour() {
    let p = relaxation_proposals(&vec![info((1, 1), None, true, 0)]);
    assert!(matches!(p[..], [Proposal::FromNeighbor { force_check: false, .. }]));
    assert!(relaxation_proposals(&vec![info((1, 1), None, false, 0)]).is_empty());
}

#[test]
fn relaxation_pair_through_common_ancestor() {
    let p = relaxation_proposals(&vec![
        info((5, 5), Some((5, 1)), true, 10),
        info((4, 6), Some((5, 1)), true, 12),
    ]);
    match p[..] {
        [Proposal::FromAncestor { ancestor }] => assert_eq!(ancestor.pos, (5, 1)),
        _ => panic!("expected one proposal through the ancestor"),
    }
}

#[test]
fn relaxation_pair_without_ancestor_forces_checks() {
    let p = relaxation_proposals(&vec![
        info((5, 5), Some((1, 1)), true, 10),
        info((4, 6), Some((9, 9)), true, 12),
    ]);
    assert!(matches!(
        p[..],
        [
            Proposal::FromNeighbor { force_check: true, .. },
            Proposal::FromNeighbor { force_check: true, .. }
        ]
    ));
}

#[test]
fn relaxation_three_distinct_sorted_by_distance() {
    let p = relaxation_proposals(&vec![
        info((0, 1), Some((0, 0)), true, 30),
        info((1, 0), Some((2, 0)), true, 10),
        info((2, 1), Some((3, 3)), true, 20),
    ]);
    let order: Vec<(u16, u16)> = p
        .iter()
        .map(|x| match x {
            Proposal::FromNeighbor { neighbor, .. } => neighbor.pos,
            _ => panic!("expected neighbour proposals"),
        })
        .collect();
    assert_eq!(order, vec![(1, 0), (2, 1), (0, 1)]);
}

#[test]
fn relaxation_four_unreachable_marks_cell() {
    let p = relaxation_proposals(&vec![
        info((0, 1), None, false, 0),
        info((1, 0), None, false, 0),
        info((2, 1), None, false, 0),
        info((1, 2), None, false, 0),
    ]);
    assert!(matches!(p[..], [Proposal::MarkUnreachable]));
}

#[test]
fn relaxation_four_distinct_takes_closest() {
    let p = relaxation_proposals(&vec![
        info((0, 1), Some((0, 0)), true, 40),
        info((1, 0), Some((2, 0)), true, 15),
        info((2, 1), Some((3, 3)), true, 15),
        info((1, 2), Some((4, 4)), true, 20),
    ]);
    match p[..] {
        [Proposal::FromNeighbor { neighbor, force_check: false }] => assert_eq!(neighbor.pos, (1, 0)),
        _ => panic!("expected one proposal from the closest neighbour"),
    }
}
