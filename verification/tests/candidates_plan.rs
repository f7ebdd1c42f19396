use assembly_engine::candidates::{Candidate, Query};
use assembly_engine::connectors::ConnKind;
use assembly_engine::engine::{AssemblyGraph, PartShape};

fn brick_1x1() -> PartShape {
    PartShape {
        connectors: vec![
            ConnKind::SnapConn { is_a: true },
            ConnKind::SnapConn { is_a: false },
        ],
        rot_sym_orientations: vec![4],
    }
}

fn clip_part() -> PartShape {
    PartShape { connectors: vec![ConnKind::ClipConn], rot_sym_orientations: vec![] }
}

fn bar_part() -> PartShape {
    PartShape { connectors: vec![ConnKind::BarConn { steps: 2 }], rot_sym_orientations: vec![] }
}

fn lone(g: &AssemblyGraph, n_new: usize) -> Vec<Vec<Vec<bool>>> {
    g.placement_parts
        .iter()
        .map(|&p| vec![vec![false; n_new]; g.parts[p].connectors.len()])
        .collect()
}

fn c(p: usize, m: usize, mc: usize, cc: usize, pos: u32, r: u32) -> Candidate {
    Candidate { part_index: p, anchor_idx: m, anchor_conn: mc, part_conn: cc, bar_pos: pos, turn: r }
}

#[test]
fn plan_empty_model_has_no_candidates() {
    let g = AssemblyGraph::new(vec![brick_1x1()]);
    assert!(g.plan_candidates(&Query::default(), 4).is_empty());
}

#[test]
fn plan_snap_pairs_opposite_genders_every_turn() {
    let mut g = AssemblyGraph::new(vec![brick_1x1()]);
    g.add_placement(0, &lone(&g, 2));
    let plan = g.plan_candidates(&Query::default(), 4);
    let mut expected = Vec::new();
    for r in 0..4 {
        expected.push(c(0, 0, 0, 1, 0, r));
    }
    for r in 0..4 {
        expected.push(c(0, 0, 1, 0, 0, r));
    }
    assert_eq!(plan, expected);
}

#[test]
fn plan_bar_positions_outer_clips_inner() {
    let mut g = AssemblyGraph::new(vec![bar_part(), clip_part()]);
    g.add_placement(0, &lone(&g, 1));
    let plan = g.plan_candidates(&Query::new(Some(1), None, false), 2);
    let mut expected = Vec::new();
    for pos in 0..3 {
        for r in 0..2 {
            expected.push(c(1, 0, 0, 0, pos, r));
        }
    }
    assert_eq!(plan, expected);
}

#[test]
fn plan_clip_meets_every_bar_position() {
    let mut g = AssemblyGraph::new(vec![bar_part(), clip_part()]);
    g.add_placement(1, &lone(&g, 1));
    let plan = g.plan_candidates(&Query::new(Some(0), None, false), 2);
    let mut expected = Vec::new();
    for pos in 0..3 {
        for r in 0..2 {
            expected.push(c(0, 0, 0, 0, pos, r));
        }
    }
    assert_eq!(plan, expected);
    // A clip does not meet a clip, nor a bar a bar.
    assert!(g.plan_candidates(&Query::new(Some(1), None, false), 2).is_empty());
}

#[test]
fn plan_restricts_to_part_and_anchor() {
    let mut g = AssemblyGraph::new(vec![brick_1x1(), bar_part(), clip_part()]);
    g.add_placement(0, &lone(&g, 2));
    g.add_placement(1, &lone(&g, 1));
    let all = g.plan_candidates(&Query::default(), 1);
    // Brick on brick (2), nothing on the bar for bricks or bars, a clip on the bar (3).
    assert_eq!(all.len(), 2 + 3);
    let on_bar = g.plan_candidates(&Query::new(None, Some(1), false), 1);
    assert_eq!(on_bar, vec![c(2, 1, 0, 0, 0, 0), c(2, 1, 0, 0, 1, 0), c(2, 1, 0, 0, 2, 0)]);
    let bricks = g.plan_candidates(&Query::new(Some(0), None, true), 1);
    assert!(bricks.iter().all(|x| x.part_index == 0));
    assert_eq!(bricks.len(), 2);
}

#[test]
fn query_accessors() {
    let q = Query::new(Some(3), None, true);
    assert_eq!(q.part_id(), Some(3));
    assert_eq!(q.anchor_idx(), None);
    assert!(q.single());
    let d = Query::default();
    assert_eq!((d.part_id, d.anchor_idx, d.single), (None, None, false));
}

#[test]
fn query_fits_only_existing_targets() {
    let mut g = AssemblyGraph::new(vec![brick_1x1()]);
    // Nothing is looked up in an empty model.
    assert!(g.query_fits(&Query::new(Some(7), Some(7), false)));
    g.add_placement(0, &lone(&g, 2));
    assert!(g.query_fits(&Query::new(Some(0), Some(0), false)));
    assert!(!g.query_fits(&Query::new(Some(1), None, false)));
    assert!(!g.query_fits(&Query::new(None, Some(1), false)));
}

#[test]
fn plan_ignores_the_links() {
    let mut g = AssemblyGraph::new(vec![brick_1x1()]);
    g.add_placement(0, &lone(&g, 2));
    // A model of another size, loaded over the links of the first one.
    g.load_model(&vec![0, 0]);
    assert!(!g.is_sound());
    assert!(g.query_fits(&Query::default()));
    let plan = g.plan_candidates(&Query::default(), 1);
    assert_eq!(plan.len(), 4);
    assert!(plan.iter().any(|x| x.anchor_idx == 1));
    // A placement of an unknown part may not be attached to.
    g.load_model(&vec![0, 3]);
    assert!(!g.query_fits(&Query::default()));
    assert!(g.query_fits(&Query::new(None, Some(0), false)));
    assert_eq!(g.plan_candidates(&Query::new(None, Some(0), false), 1).len(), 2);
}

#[test]
fn edges_smaller_index_first() {
    let mut g = AssemblyGraph::new(vec![brick_1x1()]);
    g.add_placement(0, &lone(&g, 2));
    g.add_placement(0, &lone(&g, 2));
    // The third brick sits between: its anti-stud on 0's stud, its stud under 1.
    let mut touching = lone(&g, 2);
    touching[0][0][1] = true;
    touching[1][1][0] = true;
    g.add_placement(0, &touching);
    let mut edges = g.get_conn_edges();
    edges.sort();
    assert_eq!(edges, vec![(0, 2), (1, 2)]);
    assert!(edges.iter().all(|&(a, b)| a < b));
}
