use assembly_engine::connectors::ConnKind;
use assembly_engine::engine::{AssemblyGraph, ConnectedTo, PartShape};

/// A 1x1 brick: a stud on top (plug, "A") and an anti-stud below (socket, "B").
fn brick_1x1() -> PartShape {
    PartShape {
        connectors: vec![
            ConnKind::SnapConn { is_a: true },
            ConnKind::SnapConn { is_a: false },
        ],
        rot_sym_orientations: vec![4],
    }
}

/// A part with one clip.
fn clip_part() -> PartShape {
    PartShape { connectors: vec![ConnKind::ClipConn], rot_sym_orientations: vec![] }
}

/// A part with one bar offering three clip positions.
fn bar_part() -> PartShape {
    PartShape { connectors: vec![ConnKind::BarConn { steps: 2 }], rot_sym_orientations: vec![] }
}

fn link(p: usize, c: usize) -> ConnectedTo {
    ConnectedTo { placement_idx: p, conn_idx: c }
}

/// Verdicts of "no connector touches any other" for a new placement with
/// `n_new` connectors against the placements of `g`.
fn nothing_touches(g: &AssemblyGraph, n_new: usize) -> Vec<Vec<Vec<bool>>> {
    g.placement_parts
        .iter()
        .map(|&p| vec![vec![false; n_new]; g.parts[p].connectors.len()])
        .collect()
}

#[test]
fn graph_add_single_placement() {
    let mut g = AssemblyGraph::new(vec![brick_1x1()]);
    let touching = nothing_touches(&g, 2);
    g.add_placement(0, &touching);
    assert_eq!(g.placement_parts, vec![0]);
    assert_eq!(g.connections, vec![vec![vec![], vec![]]]);
}

#[test]
fn graph_stack_two_bricks_links_stud_and_anti_stud() {
    let mut g = AssemblyGraph::new(vec![brick_1x1()]);
    g.add_placement(0, &nothing_touches(&g, 2));
    // The stud of placement 0 touches the anti-stud of the new placement.
    let mut touching = nothing_touches(&g, 2);
    touching[0][0][1] = true;
    g.add_placement(0, &touching);
    assert_eq!(g.placement_parts, vec![0, 0]);
    assert_eq!(g.connections[0], vec![vec![link(1, 1)], vec![]]);
    assert_eq!(g.connections[1], vec![vec![], vec![link(0, 0)]]);
    assert_eq!(g.get_conn_edges(), vec![(0, 1)]);
}

#[test]
fn graph_same_gender_snaps_do_not_link() {
    let mut g = AssemblyGraph::new(vec![brick_1x1()]);
    g.add_placement(0, &nothing_touches(&g, 2));
    // Stud against stud: touching, but both are plugs.
    let mut touching = nothing_touches(&g, 2);
    touching[0][0][0] = true;
    g.add_placement(0, &touching);
    assert_eq!(g.connections, vec![vec![vec![], vec![]], vec![vec![], vec![]]]);
    assert!(g.get_conn_edges().is_empty());
}

#[test]
fn graph_linked_snap_is_not_linked_again() {
    let mut g = AssemblyGraph::new(vec![brick_1x1()]);
    g.add_placement(0, &nothing_touches(&g, 2));
    let mut touching = nothing_touches(&g, 2);
    touching[0][0][1] = true;
    g.add_placement(0, &touching);
    // A third brick whose anti-stud also touches the stud of placement 0.
    let mut touching = nothing_touches(&g, 2);
    touching[0][0][1] = true;
    g.add_placement(0, &touching);
    assert_eq!(g.connections[0][0], vec![link(1, 1)]);
    assert_eq!(g.connections[2], vec![vec![], vec![]]);
}

#[test]
fn graph_bar_holds_many_clips_and_clip_one_bar() {
    let mut g = AssemblyGraph::new(vec![bar_part(), clip_part()]);
    g.add_placement(0, &nothing_touches(&g, 1));
    // Two clips on the bar.
    let mut touching = nothing_touches(&g, 1);
    touching[0][0][0] = true;
    g.add_placement(1, &touching);
    let mut touching = nothing_touches(&g, 1);
    touching[0][0][0] = true;
    g.add_placement(1, &touching);
    assert_eq!(g.connections[0][0], vec![link(1, 0), link(2, 0)]);
    assert_eq!(g.connections[1][0], vec![link(0, 0)]);
    assert_eq!(g.connections[2][0], vec![link(0, 0)]);
    // A second bar touching the first clip: the clip is taken.
    let mut touching = nothing_touches(&g, 1);
    touching[1][0][0] = true;
    touching[2][0][0] = false;
    g.add_placement(0, &touching);
    assert_eq!(g.connections[3][0], vec![]);
    assert_eq!(g.connections[1][0], vec![link(0, 0)]);
    let mut edges = g.get_conn_edges();
    edges.sort();
    assert_eq!(edges, vec![(0, 1), (0, 2)]);
}

#[test]
fn graph_clip_on_new_bar_links_once() {
    let mut g = AssemblyGraph::new(vec![bar_part(), clip_part()]);
    g.add_placement(1, &nothing_touches(&g, 1));
    // A bar placed after the clip.
    let mut touching = nothing_touches(&g, 1);
    touching[0][0][0] = true;
    g.add_placement(0, &touching);
    assert_eq!(g.connections[0][0], vec![link(1, 0)]);
    assert_eq!(g.connections[1][0], vec![link(0, 0)]);
}

#[test]
fn graph_open_connectors_skip_used_snaps_and_clips() {
    let mut g = AssemblyGraph::new(vec![brick_1x1(), bar_part(), clip_part()]);
    g.add_placement(0, &nothing_touches(&g, 2));
    let mut touching = nothing_touches(&g, 2);
    touching[0][0][1] = true;
    g.add_placement(0, &touching);
    g.add_placement(1, &nothing_touches(&g, 1));
    let mut touching = nothing_touches(&g, 1);
    touching[2][0][0] = true;
    g.add_placement(2, &touching);
    let open = g.open_connectors();
    assert_eq!(open, vec![link(0, 1), link(1, 0), link(2, 0)]);
    let shape = g.open_connectors_shape(&open);
    assert_eq!(
        shape.connectors,
        vec![
            ConnKind::SnapConn { is_a: false },
            ConnKind::SnapConn { is_a: true },
            ConnKind::BarConn { steps: 2 },
        ]
    );
    assert!(shape.rot_sym_orientations.is_empty());
}

#[test]
fn graph_clear_removes_everything_but_parts() {
    let mut g = AssemblyGraph::new(vec![brick_1x1()]);
    g.add_placement(0, &nothing_touches(&g, 2));
    g.clear();
    assert!(g.placement_parts.is_empty());
    assert!(g.connections.is_empty());
    assert_eq!(g.parts.len(), 1);
}

#[test]
fn graph_state_round_trip() {
    let mut g = AssemblyGraph::new(vec![brick_1x1()]);
    g.add_placement(0, &nothing_touches(&g, 2));
    let mut touching = nothing_touches(&g, 2);
    touching[0][0][1] = true;
    g.add_placement(0, &touching);
    let state = g.get_state();
    let before_parts = g.placement_parts.clone();
    let before_links = g.connections.clone();
    g.clear();
    g.add_placement(0, &nothing_touches(&g, 2));
    g.load_state(&state);
    assert_eq!(g.placement_parts, before_parts);
    assert_eq!(g.connections, before_links);
}

#[test]
fn graph_load_model_keeps_links() {
    let mut g = AssemblyGraph::new(vec![brick_1x1()]);
    g.add_placement(0, &nothing_touches(&g, 2));
    g.load_model(&vec![0, 0, 0]);
    assert_eq!(g.placement_parts, vec![0, 0, 0]);
    assert_eq!(g.connections.len(), 1);
}

#[test]
fn graph_add_and_remove_part() {
    let mut g = AssemblyGraph::new(vec![brick_1x1()]);
    g.add_placement(0, &nothing_touches(&g, 2));
    let idx = g.add_part(bar_part());
    assert_eq!(idx, 1);
    assert_eq!(g.parts.len(), 2);
    let shape = g.remove_last_part();
    assert_eq!(shape.connectors, vec![ConnKind::BarConn { steps: 2 }]);
    assert_eq!(g.parts.len(), 1);
}

#[test]
fn graph_soundness_check() {
    let mut g = AssemblyGraph::new(vec![brick_1x1()]);
    assert!(g.is_sound());
    g.add_placement(0, &nothing_touches(&g, 2));
    let mut touching = nothing_touches(&g, 2);
    touching[0][0][1] = true;
    g.add_placement(0, &touching);
    assert!(g.is_sound());
    // A link that is not mirrored.
    g.connections[1][1].clear();
    assert!(!g.is_sound());
    g.connections[1][1].push(link(0, 0));
    assert!(g.is_sound());
    // A second link on a snap connector.
    g.connections[1][1].push(link(0, 0));
    assert!(!g.is_sound());
    g.connections[1][1].pop();
    // A link between two studs.
    g.connections[0][0] = vec![link(1, 0)];
    g.connections[1][0] = vec![link(0, 0)];
    g.connections[1][1].clear();
    assert!(!g.is_sound());
    // Placements and links out of step.
    let mut h = AssemblyGraph::new(vec![brick_1x1()]);
    h.add_placement(0, &nothing_touches(&h, 2));
    h.load_model(&vec![0, 0]);
    assert!(!h.is_sound());
}

#[test]
fn graph_links_point_at_other_placements() {
    let mut g = AssemblyGraph::new(vec![brick_1x1()]);
    g.add_placement(0, &nothing_touches(&g, 2));
    let mut touching = nothing_touches(&g, 2);
    touching[0][1][0] = true;
    g.add_placement(0, &touching);
    for (a, b) in g.get_conn_edges() {
        assert_ne!(a, b);
        assert!(g.connections[b].iter().flatten().any(|l| l.placement_idx == a));
    }
    assert_eq!(g.connections[0][1], vec![link(1, 0)]);
}

#[test]
fn graph_touching_shape_check() {
    let mut g = AssemblyGraph::new(vec![brick_1x1(), clip_part()]);
    g.add_placement(0, &nothing_touches(&g, 2));
    assert!(g.touching_shape_ok(1, &nothing_touches(&g, 1)));
    assert!(!g.touching_shape_ok(1, &nothing_touches(&g, 2)));
    assert!(!g.touching_shape_ok(1, &vec![]));
    assert!(!g.touching_shape_ok(0, &vec![vec![vec![false; 2]]]));
}

#[test]
fn graph_new_snap_links_to_the_first_placement_tried() {
    let mut g = AssemblyGraph::new(vec![brick_1x1()]);
    g.add_placement(0, &nothing_touches(&g, 2));
    g.add_placement(0, &nothing_touches(&g, 2));
    // The new anti-stud touches the studs of both earlier placements: the
    // first one tried takes it.
    let mut touching = nothing_touches(&g, 2);
    touching[0][0][1] = true;
    touching[1][0][1] = true;
    g.add_placement(0, &touching);
    assert_eq!(g.connections[0], vec![vec![link(2, 1)], vec![]]);
    assert_eq!(g.connections[1], vec![vec![], vec![]]);
    assert_eq!(g.connections[2], vec![vec![], vec![link(0, 0)]]);
}

#[test]
fn graph_add_placement_on_unsound_links() {
    let mut g = AssemblyGraph::new(vec![brick_1x1()]);
    g.add_placement(0, &nothing_touches(&g, 2));
    g.add_placement(0, &nothing_touches(&g, 2));
    // A one-sided link: the table is shaped but not sound.
    let mut state = g.get_state();
    state.connections[0][0].push(link(1, 1));
    g.load_state(&state);
    assert!(g.is_shaped());
    assert!(!g.is_sound());
    // The stud of placement 0 is taken, so the new anti-stud links to the
    // stud of placement 1 instead.
    let mut touching = nothing_touches(&g, 2);
    touching[0][0][1] = true;
    touching[1][0][1] = true;
    g.add_placement(0, &touching);
    assert_eq!(g.connections[0], vec![vec![link(1, 1)], vec![]]);
    assert_eq!(g.connections[1], vec![vec![link(2, 1)], vec![]]);
    assert_eq!(g.connections[2], vec![vec![], vec![link(1, 0)]]);
}
