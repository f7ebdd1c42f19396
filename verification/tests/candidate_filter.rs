use assembly_engine::connectors::ConnKind;
use assembly_engine::engine::{AssemblyGraph, PartShape};
use assembly_engine::filter::{gather, pick_candidates, redundant_mask, retain_unmarked, select_candidates, SymProbe};

fn brick(orientations: Vec<u8>) -> PartShape {
    PartShape {
        connectors: vec![
            ConnKind::SnapConn { is_a: true },
            ConnKind::SnapConn { is_a: false },
        ],
        rot_sym_orientations: orientations,
    }
}

#[test]
fn select_all_kept_in_order() {
    let keep = [true, false, true, true, false];
    assert_eq!(select_candidates(5, false, |i| keep[i]), vec![0, 2, 3]);
}

#[test]
fn select_single_stops_at_first_kept() {
    let keep = [false, false, true, true];
    let mut tried = std::cell::Cell::new(0);
    let res = select_candidates(4, true, |i| {
        tried.set(tried.get() + 1);
        keep[i]
    });
    assert_eq!(res, vec![2]);
    assert_eq!(*tried.get_mut(), 3);
    assert!(select_candidates(3, true, |_| false).is_empty());
}

#[test]
fn redundant_keeps_first_of_each_group() {
    let part_of = vec![0, 0, 1, 0];
    let close = vec![vec![true; 4]; 4];
    assert_eq!(redundant_mask(&part_of, &close), vec![false, true, false, true]);
}

#[test]
fn redundant_marked_entries_mark_nothing() {
    // 1 repeats 0 and 2 repeats 1, but 2 does not repeat 0: only 1 goes.
    let part_of = vec![0, 0, 0];
    let mut close = vec![vec![false; 3]; 3];
    close[0][1] = true;
    close[1][2] = true;
    assert_eq!(redundant_mask(&part_of, &close), vec![false, true, false]);
}

/// Probes where the pairs listed have their axes aligned, with the turn
/// between them a whole number of steps or not.
fn probes(n: usize, axes: usize, aligned: &[(usize, usize, bool)]) -> Vec<Vec<Vec<SymProbe>>> {
    let mut p = vec![vec![vec![SymProbe { aligned: false, whole_steps: false }; axes]; n]; n];
    for &(i, j, whole) in aligned {
        for s in 0..axes {
            p[i][j][s] = SymProbe { aligned: true, whole_steps: whole };
        }
    }
    p
}

#[test]
fn symmetric_quarter_turns_of_a_square_brick() {
    let g = AssemblyGraph::new(vec![brick(vec![4])]);
    // Four turns of the same brick at the same spot: 90, 180 and 270 degrees apart.
    let pr = probes(4, 1, &[(0, 1, true), (0, 2, true), (0, 3, true), (1, 2, true), (1, 3, true), (2, 3, true)]);
    let mask = g.symmetric_mask(&vec![false; 4], &vec![0; 4], &pr);
    assert_eq!(mask, vec![false, true, true, true]);
}

#[test]
fn symmetric_needs_a_whole_step() {
    let g = AssemblyGraph::new(vec![brick(vec![3])]);
    // Aligned, but turned by something other than a multiple of 120 degrees.
    let pr = probes(2, 1, &[(0, 1, false)]);
    assert_eq!(g.symmetric_mask(&vec![false; 2], &vec![0; 2], &pr), vec![false, false]);
    let pr = probes(2, 1, &[(0, 1, true)]);
    assert_eq!(g.symmetric_mask(&vec![false; 2], &vec![0; 2], &pr), vec![false, true]);
}

#[test]
fn symmetric_any_turn_when_orientations_zero() {
    let g = AssemblyGraph::new(vec![brick(vec![0])]);
    let pr = probes(2, 1, &[(0, 1, false)]);
    assert_eq!(g.symmetric_mask(&vec![false; 2], &vec![0; 2], &pr), vec![false, true]);
}

#[test]
fn symmetric_respects_earlier_marks_and_parts() {
    let g = AssemblyGraph::new(vec![brick(vec![4]), brick(vec![])]);
    // 0 is already marked, so it cannot mark 1; parts 0 and 1 never mark each other.
    let pr = probes(3, 1, &[(0, 1, true), (1, 2, true)]);
    let mask = g.symmetric_mask(&vec![true, false, false], &vec![0, 0, 1], &pr);
    assert_eq!(mask, vec![true, false, false]);
}

#[test]
fn retain_drops_marked() {
    assert_eq!(retain_unmarked(&vec![10, 11, 12, 13], &vec![false, true, true, false]), vec![10, 13]);
}

#[test]
fn stacking_query_reduces_to_two() {
    // Eight candidates for a 1x1 brick on a 1x1 brick: four turns on top,
    // four below. Geometry: the turns at one spot differ in rotation only,
    // and are quarter turns of each other about the brick's axis.
    let g = AssemblyGraph::new(vec![brick(vec![4])]);
    let part_of = vec![0; 8];
    let close = vec![vec![false; 8]; 8];
    let redundant = redundant_mask(&part_of, &close);
    assert_eq!(redundant, vec![false; 8]);

    let mut triples = Vec::new();
    for block in [0usize, 4] {
        for i in block..block + 4 {
            for j in i + 1..block + 4 {
                triples.push((i, j, true));
            }
        }
    }
    let pr = probes(8, 1, &triples);
    let mask = g.symmetric_mask(&redundant, &part_of, &pr);
    let kept = retain_unmarked(&(0..8).collect::<Vec<usize>>(), &mask);
    assert_eq!(kept, vec![0, 4]);
}

#[test]
fn symmetric_single_orientation_marks_nothing() {
    let g = AssemblyGraph::new(vec![brick(vec![1])]);
    // Two aligned candidates half a turn apart: not a whole turn.
    let pr = probes(2, 1, &[(0, 1, false)]);
    assert_eq!(g.symmetric_mask(&vec![false; 2], &vec![0; 2], &pr), vec![false, false]);
}

#[test]
fn symmetric_eightfold_three_steps_is_marked() {
    // An eight-fold axis, candidates 135 degrees (three steps of 45) apart.
    let g = AssemblyGraph::new(vec![brick(vec![8])]);
    let pr = probes(2, 1, &[(0, 1, true)]);
    assert_eq!(g.symmetric_mask(&vec![false; 2], &vec![0; 2], &pr), vec![false, true]);
}

#[test]
fn pick_keeps_in_order_or_first() {
    let items = vec![10, 11, 12, 13];
    let keep = [false, true, false, true];
    assert_eq!(pick_candidates(&items, false, |i| keep[i]), vec![11, 13]);
    assert_eq!(pick_candidates(&items, true, |i| keep[i]), vec![11]);
    assert!(pick_candidates(&items, true, |_| false).is_empty());
}

#[test]
fn gather_follows_indices() {
    assert_eq!(gather(&vec![5, 6, 7], &vec![2, 0, 2]), vec![7, 5, 7]);
}

#[test]
fn finish_single_is_first_of_full() {
    let g = AssemblyGraph::new(vec![brick(vec![4])]);
    // Four turns of one brick at one spot (symmetric), then a second spot.
    let kept = vec![100, 101, 102, 103, 104];
    let part_of = vec![0; 5];
    let mut close = vec![vec![false; 5]; 5];
    close[0][4] = false;
    let mut triples = Vec::new();
    for i in 0..4usize {
        for j in i + 1..4 {
            triples.push((i, j, true));
        }
    }
    let pr = probes(5, 1, &triples);
    let full = g.finish_query(&kept, &part_of, false, &close, &pr);
    assert_eq!(full, vec![100, 104]);
    let single = g.finish_query(&kept[..1].to_vec(), &part_of[..1].to_vec(), true, &vec![], &vec![]);
    assert_eq!(single, vec![100]);
    assert_eq!(single[0], full[0]);
    // Repeats are dropped before symmetry is looked at.
    close[0][1] = true;
    let full = g.finish_query(&kept, &part_of, false, &close, &pr);
    assert_eq!(full, vec![100, 104]);
    let none: Vec<i32> = g.finish_query(&vec![], &vec![], false, &vec![], &vec![]);
    assert!(none.is_empty());
}
