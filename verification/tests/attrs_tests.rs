use graph_layout::attrs::{assign_styles, extract_label};
use graph_layout::model::{build_model, NodeDecl};
use graph_layout::rng::rng_from_seed;

fn decl_attrs(id: &[u8], attrs: &[(&[u8], &[u8])]) -> NodeDecl {
    NodeDecl {
        id: id.to_vec(),
        attrs: attrs.iter().map(|(n, v)| (n.to_vec(), v.to_vec())).collect(),
    }
}

#[test]
fn label_after_last_slash_up_to_last_quote() {
    // Last '/' at index 3, last '"' at index 11.
    let text = b"foo/bar\"baz\"".to_vec();
    let label = extract_label(&text).unwrap();
    assert_eq!(label, b"bar\"baz".to_vec());
}

#[test]
fn label_path_prefix_stripped() {
    let text = b"\"path/to/node\"".to_vec();
    let label = extract_label(&text).unwrap();
    assert_eq!(label, b"node".to_vec());
}

#[test]
fn label_without_markers_is_whole_text() {
    let text = b"plain".to_vec();
    let label = extract_label(&text).unwrap();
    assert_eq!(label, b"plain".to_vec());
}

#[test]
fn label_only_quotes_trimmed() {
    let text = b"\"onlyquotes\"".to_vec();
    let label = extract_label(&text).unwrap();
    assert_eq!(label, b"onlyquotes".to_vec());
}

#[test]
fn label_end_before_start_is_malformed() {
    // Last '"' at index 2 comes before the character after the last '/'.
    let text = b"ab\"cd/ef".to_vec();
    assert!(extract_label(&text).is_none());
}

#[test]
fn malformed_label_warns_and_falls_back_to_identity() {
    let decls = vec![decl_attrs(b"me", &[(b"label", b"ab\"cd/ef")])];
    let m = build_model(&decls, &vec![]).unwrap();
    let mut rng = rng_from_seed(5);
    let styles = assign_styles(&m, &mut rng);
    assert_eq!(styles.labels[0], b"me".to_vec());
    assert_eq!(styles.warned, vec![true]);
}

#[test]
fn missing_label_defaults_to_identity() {
    let decls = vec![decl_attrs(b"node7", &[(b"color", b"red")])];
    let m = build_model(&decls, &vec![]).unwrap();
    let mut rng = rng_from_seed(5);
    let styles = assign_styles(&m, &mut rng);
    assert_eq!(styles.labels[0], b"node7".to_vec());
    assert_eq!(styles.warned, vec![false]);
}

#[test]
fn same_shape_value_shares_the_first_color() {
    let decls = vec![
        decl_attrs(b"a", &[(b"shape", b"square")]),
        decl_attrs(b"b", &[(b"shape", b"circle")]),
        decl_attrs(b"c", &[(b"shape", b"square")]),
        decl_attrs(b"d", &[(b"shape", b"square")]),
    ];
    let m = build_model(&decls, &vec![]).unwrap();
    let mut rng = rng_from_seed(11);
    let styles = assign_styles(&m, &mut rng);
    assert_eq!(styles.colors[0], styles.colors[2]);
    assert_eq!(styles.colors[0], styles.colors[3]);
}

#[test]
fn color_channels_stay_below_255() {
    let decls = vec![
        decl_attrs(b"a", &[]),
        decl_attrs(b"b", &[(b"shape", b"box")]),
    ];
    let m = build_model(&decls, &vec![]).unwrap();
    let mut rng = rng_from_seed(3);
    let styles = assign_styles(&m, &mut rng);
    for c in &styles.colors {
        assert!(c.red < 255);
        assert!(c.green < 255);
        assert!(c.blue < 255);
    }
}
