use graph_layout::model::{build_model, GraphModel, NodeDecl};

fn decl(id: &[u8]) -> NodeDecl {
    NodeDecl { id: id.to_vec(), attrs: Vec::new() }
}

fn decl_attrs(id: &[u8], attrs: &[(&[u8], &[u8])]) -> NodeDecl {
    NodeDecl {
        id: id.to_vec(),
        attrs: attrs.iter().map(|(n, v)| (n.to_vec(), v.to_vec())).collect(),
    }
}

fn ok_model(decls: Vec<NodeDecl>, chains: Vec<Vec<Vec<u8>>>) -> GraphModel {
    build_model(&decls, &chains).unwrap()
}

#[test]
fn two_nodes_one_edge() {
    let m = ok_model(
        vec![decl(b"aa"), decl(b"bb")],
        vec![vec![b"aa".to_vec(), b"bb".to_vec()]],
    );
    assert_eq!(m.ids.len(), 2);
    assert_eq!(m.ids[0], b"aa".to_vec());
    assert_eq!(m.ids[1], b"bb".to_vec());
    assert_eq!(m.edges, vec![(0, 1)]);
}

#[test]
fn chain_expands_to_pairs() {
    let m = ok_model(
        vec![decl(b"a"), decl(b"b"), decl(b"c")],
        vec![vec![b"a".to_vec(), b"b".to_vec(), b"c".to_vec()]],
    );
    assert_eq!(m.edges, vec![(0, 1), (1, 2)]);
}

#[test]
fn first_seen_order_with_later_attributes_winning() {
    let m = ok_model(
        vec![
            decl_attrs(b"x", &[(b"color", b"green")]),
            decl(b"y"),
            decl_attrs(b"x", &[(b"color", b"red")]),
        ],
        vec![],
    );
    assert_eq!(m.ids.len(), 2);
    assert_eq!(m.ids[0], b"x".to_vec());
    assert_eq!(m.ids[1], b"y".to_vec());
    // The index is first-seen, the attributes come from the last declaration.
    assert_eq!(m.attrs[0], vec![(b"color".to_vec(), b"red".to_vec())]);
}

#[test]
fn multi_edges_kept() {
    let m = ok_model(
        vec![decl(b"a"), decl(b"b")],
        vec![
            vec![b"a".to_vec(), b"b".to_vec()],
            vec![b"a".to_vec(), b"b".to_vec()],
        ],
    );
    assert_eq!(m.edges, vec![(0, 1), (0, 1)]);
}

#[test]
fn self_loop_is_permitted_structurally() {
    let m = ok_model(vec![decl(b"a")], vec![vec![b"a".to_vec(), b"a".to_vec()]]);
    assert_eq!(m.edges, vec![(0, 0)]);
}

#[test]
fn unknown_edge_identity_is_fatal() {
    let decls = vec![decl(b"real")];
    let chains = vec![vec![b"real".to_vec(), b"ghost".to_vec()]];
    let err = build_model(&decls, &chains).unwrap_err();
    assert_eq!(err.missing, b"ghost".to_vec());
}

#[test]
fn malformed_graph_produces_zero_frames() {
    // An edge referencing an unknown identity fails before any layout
    // work: no engine is built and no frame is ever emitted.
    let decls = vec![decl(b"a"), decl(b"b")];
    let chains = vec![vec![b"a".to_vec(), b"ghost".to_vec()]];
    let mut frames = 0usize;
    match build_model(&decls, &chains) {
        Ok(m) => {
            let mut rng = graph_layout::rng::rng_from_seed(7);
            let cfg = solver_cfg();
            let mut eng = graph_layout::solver::LayoutEngine::new(cfg, m.ids.len(), &mut rng);
            while !eng.done {
                eng.step(&m.edges);
                frames += 1;
            }
        }
        Err(e) => {
            assert_eq!(e.missing, b"ghost".to_vec());
        }
    }
    assert_eq!(frames, 0);
}

fn solver_cfg() -> graph_layout::solver::SimulationConfig {
    graph_layout::solver::SimulationConfig {
        max_dims: 4,
        edge_strength: 100_000,
        edge_rest_length: 1_000_000,
        repel_strength: 100_000,
        repel_distance: 2_000_000,
        hierarchy_strength: 20_000,
        hierarchy_distance: 2_000_000,
        outer_iters: 2,
        inner_iters: 2,
        compress_range: 500_000,
        stretch_range: 5_000_000,
    }
}
