use graph_layout::attrs::{Color, StyleAssignment};
use graph_layout::fixed::{distance, SCALE};
use graph_layout::rng::rng_from_seed;
use graph_layout::solver::{apply_pair, make_frame, LayoutEngine, SimulationConfig};

fn cfg_base() -> SimulationConfig {
    SimulationConfig {
        max_dims: 4,
        edge_strength: 100_000,
        edge_rest_length: 1_000_000,
        repel_strength: 100_000,
        repel_distance: 2_000_000,
        hierarchy_strength: 20_000,
        hierarchy_distance: 2_000_000,
        outer_iters: 10,
        inner_iters: 10,
        compress_range: 500_000,
        stretch_range: 5_000_000,
    }
}

#[test]
fn pair_displacements_are_antisymmetric() {
    // Applying the pairwise force with the endpoints swapped moves each
    // node the same way: the displacement of one is the negation of the
    // displacement of the other within one application.
    let a: Vec<i64> = vec![100_000, -250_000, 400_000, 9_000];
    let b: Vec<i64> = vec![-700_000, 50_000, 125_000, -40_000];
    let mg: i128 = 321_987;
    let (na, nb) = apply_pair(&a, &b, mg, 3);
    let (nb2, na2) = apply_pair(&b, &a, mg, 3);
    assert_eq!(na, na2);
    assert_eq!(nb, nb2);
    for k in 0..3 {
        assert_eq!(na[k] - a[k], -(nb[k] - b[k]));
    }
    // Frozen coordinates beyond the active dimensions stay put.
    assert_eq!(na[3], a[3]);
    assert_eq!(nb[3], b[3]);
}

#[test]
fn self_loop_edge_contributes_zero_displacement() {
    let mut cfg = cfg_base();
    cfg.hierarchy_strength = 0;
    cfg.outer_iters = 1;
    cfg.inner_iters = 5;
    let mut rng = rng_from_seed(21);
    let mut eng = LayoutEngine::new(cfg, 1, &mut rng);
    let before = eng.positions.clone();
    let edges: Vec<(usize, usize)> = vec![(0, 0)];
    eng.step(&edges);
    assert_eq!(eng.positions, before);
}

#[test]
fn active_dims_never_increase_and_stay_at_least_3() {
    let mut cfg = cfg_base();
    cfg.max_dims = 10;
    cfg.outer_iters = 2;
    cfg.inner_iters = 1;
    let mut rng = rng_from_seed(1);
    let mut eng = LayoutEngine::new(cfg, 3, &mut rng);
    let edges: Vec<(usize, usize)> = vec![(0, 1), (1, 2)];
    assert_eq!(eng.active_dims, 9);
    let mut last = eng.active_dims;
    let mut steps = 0usize;
    while !eng.done {
        eng.step(&edges);
        assert!(eng.active_dims <= last);
        assert!(eng.active_dims >= 3);
        last = eng.active_dims;
        steps += 1;
        assert!(steps < 1000);
    }
    // 7 phases (9 down to 3), 2 outer iterations each.
    assert_eq!(steps, 14);
    assert_eq!(eng.active_dims, 3);
}

#[test]
fn seeded_runs_are_reproducible() {
    let cfg = cfg_base();
    let e1 = LayoutEngine::new_seeded(cfg, 4, 77);
    let e2 = LayoutEngine::new_seeded(cfg, 4, 77);
    assert_eq!(e1.positions, e2.positions);
    for row in &e1.positions {
        assert_eq!(row.len(), 4);
        for &v in row {
            assert!(-SCALE <= v && v < SCALE);
        }
    }
}

#[test]
fn frame_uses_only_the_first_three_coordinates() {
    let mut cfg = cfg_base();
    cfg.max_dims = 10;
    let mut rng = rng_from_seed(9);
    let mut eng = LayoutEngine::new(cfg, 2, &mut rng);
    let edges: Vec<(usize, usize)> = vec![(0, 1)];
    eng.step(&edges);
    let styles = StyleAssignment {
        colors: vec![Color { red: 1, green: 2, blue: 3 }; 2],
        labels: vec![b"a".to_vec(), b"b".to_vec()],
        warned: vec![false, false],
    };
    let f = make_frame(&cfg, &eng.positions, &styles, &edges, eng.active_dims);
    assert_eq!(f.nodes.len(), 2);
    assert_eq!(f.arrows.len(), 1);
    for i in 0..2 {
        assert_eq!(f.nodes[i].x, eng.positions[i][0]);
        assert_eq!(f.nodes[i].y, eng.positions[i][1]);
        assert_eq!(f.nodes[i].z, eng.positions[i][2]);
    }
    assert_eq!(f.arrows[0].ox, eng.positions[0][0]);
    assert_eq!(f.arrows[0].vx, eng.positions[1][0] - eng.positions[0][0]);
    assert_eq!(f.arrows[0].vy, eng.positions[1][1] - eng.positions[0][1]);
    assert_eq!(f.arrows[0].vz, eng.positions[1][2] - eng.positions[0][2]);
}

#[test]
fn compressed_edge_color_blends_green_to_red() {
    let cfg = cfg_base();
    // Place the two nodes exactly 0.875 apart on the x axis:
    // compression ratio t = (1.0 - 0.875) / 0.5 = 0.25.
    let positions: Vec<Vec<i64>> = vec![
        vec![0, 0, 0, 0],
        vec![875_000, 0, 0, 0],
    ];
    let styles = StyleAssignment {
        colors: vec![Color { red: 0, green: 0, blue: 0 }; 2],
        labels: vec![b"a".to_vec(), b"b".to_vec()],
        warned: vec![false, false],
    };
    let edges: Vec<(usize, usize)> = vec![(0, 1)];
    let f = make_frame(&cfg, &positions, &styles, &edges, 3);
    // Per-channel rounding of 0 -> 255 and 255 -> 0 at t = 0.25.
    assert_eq!(f.arrows[0].color, Color { red: 64, green: 191, blue: 0 });
}

#[test]
fn fully_stretched_edge_color_is_purple() {
    let cfg = cfg_base();
    // Distance rest + stretch_range: ratio clamps to 1.
    let positions: Vec<Vec<i64>> = vec![
        vec![0, 0, 0, 0],
        vec![6_000_000, 0, 0, 0],
    ];
    let styles = StyleAssignment {
        colors: vec![Color { red: 0, green: 0, blue: 0 }; 2],
        labels: vec![b"a".to_vec(), b"b".to_vec()],
        warned: vec![false, false],
    };
    let edges: Vec<(usize, usize)> = vec![(0, 1)];
    let f = make_frame(&cfg, &positions, &styles, &edges, 3);
    assert_eq!(f.arrows[0].color, Color { red: 127, green: 0, blue: 255 });
}

#[test]
fn hierarchy_lifts_sources_above_targets() {
    // Only the hierarchy force enabled: the edge's source drifts up and
    // its target down along coordinate 2 until their vertical gap
    // reaches hierarchy_distance.
    let mut cfg = cfg_base();
    cfg.edge_strength = 0;
    cfg.repel_strength = 0;
    cfg.repel_distance = 0;
    cfg.hierarchy_strength = 20_000;
    cfg.hierarchy_distance = 2_000_000;
    let mut rng = rng_from_seed(42);
    let mut eng = LayoutEngine::new(cfg, 2, &mut rng);
    let edges: Vec<(usize, usize)> = vec![(0, 1)];
    while !eng.done {
        eng.step(&edges);
    }
    let gap = eng.positions[0][2] - eng.positions[1][2];
    assert!(gap >= 2_000_000 - 2 * 20_000, "vertical gap {}", gap);
}

#[test]
fn spring_converges_to_rest_length() {
    // Two nodes, one edge, rest length 1.0, repulsion and hierarchy off:
    // the final distance approaches 1.0 within 0.05.
    let mut cfg = cfg_base();
    cfg.repel_strength = 0;
    cfg.repel_distance = 0;
    cfg.hierarchy_strength = 0;
    cfg.hierarchy_distance = 0;
    let mut rng = rng_from_seed(1234);
    let mut eng = LayoutEngine::new(cfg, 2, &mut rng);
    let edges: Vec<(usize, usize)> = vec![(0, 1)];
    while !eng.done {
        eng.step(&edges);
    }
    let d = distance(&eng.positions[0], &eng.positions[1], 3);
    assert!((d - SCALE).abs() <= 50_000, "final distance {} units", d);
}

#[test]
fn repulsion_spreads_three_free_nodes() {
    // Three nodes, no edges, repel distance 2.0: all pairwise distances
    // approach at least 2.0.
    let mut cfg = cfg_base();
    cfg.edge_strength = 0;
    cfg.hierarchy_strength = 0;
    cfg.repel_distance = 2_000_000;
    cfg.repel_strength = 100_000;
    let mut rng = rng_from_seed(99);
    let mut eng = LayoutEngine::new(cfg, 3, &mut rng);
    let edges: Vec<(usize, usize)> = vec![];
    while !eng.done {
        eng.step(&edges);
    }
    for i in 0..3 {
        for j in (i + 1)..3 {
            let d = distance(&eng.positions[i], &eng.positions[j], 3);
            assert!(d >= 2_000_000 - 50_000, "pair ({}, {}) at {}", i, j, d);
        }
    }
}
