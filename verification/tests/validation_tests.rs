use family_graph::generator::{Config, Error, generate};
use family_graph::graph::{AcyclicGraph, NodeData};
use family_graph::validator::{ValidationFailure, validator};

fn config(seed: u64) -> Config {
    Config {
        name: Some("test run".to_string()),
        deepth: 4,
        width_mean: "6.0".to_string(),
        width_std: "1.0".to_string(),
        child_mean: "2.0".to_string(),
        child_std: "0.5".to_string(),
        seed,
    }
}

#[test]
fn generated_graph_validates_as_tree() {
    let cfg = config(7);
    let graph = generate(&cfg).unwrap();
    let report = validator(&graph, &cfg).expect("a generated graph must be a tree");
    assert_eq!(report.node_count, graph.nodes().len());
    assert!(report.node_count >= 1);
    // a tree: one edge per node below the root, and no more levels than asked
    assert_eq!(report.childs_total + 1, report.node_count as u128);
    assert!(report.level_count <= cfg.deepth);
}

#[test]
fn generate_is_deterministic_for_a_seed() {
    let g1 = generate(&config(99)).unwrap();
    let g2 = generate(&config(99)).unwrap();
    assert_eq!(g1.nodes().len(), g2.nodes().len());
    assert_eq!(g1.dot().to_text(), g2.dot().to_text());
    assert_eq!(g1.mermaid().to_text(), g2.mermaid().to_text());
    let r1 = validator(&g1, &config(99)).unwrap();
    let r2 = validator(&g2, &config(99)).unwrap();
    assert_eq!(r1, r2);
}

#[test]
fn generate_names_the_graph_when_no_name_is_given() {
    let mut cfg = config(5);
    cfg.name = None;
    let g1 = generate(&cfg).unwrap();
    let g2 = generate(&cfg).unwrap();
    assert!(!g1.name.is_empty());
    assert_eq!(g1.name, g2.name);
}

#[test]
fn bad_deviation_is_rejected_before_any_node_exists() {
    let mut cfg = config(1);
    cfg.width_std = "inf".to_string();
    assert!(matches!(generate(&cfg), Err(Error::RandNormalDistribution)));
    let mut cfg2 = config(1);
    cfg2.child_std = "not a number".to_string();
    assert!(matches!(generate(&cfg2), Err(Error::RandNormalDistribution)));
}

#[test]
fn non_positive_deviation_is_rejected() {
    let mut cfg = config(1);
    cfg.width_std = "0.0".to_string();
    assert!(matches!(generate(&cfg), Err(Error::RandNormalDistribution)));
    let mut cfg2 = config(1);
    cfg2.child_std = "-1.0".to_string();
    assert!(matches!(generate(&cfg2), Err(Error::RandNormalDistribution)));
}

#[test]
fn single_node_graph_validates_with_depth_zero() {
    let mut graph = AcyclicGraph::new("solo".to_string());
    let only = graph.add_node(Some("only".to_string()), NodeData::Empty).unwrap();
    let report = validator(&graph, &config(0)).unwrap();
    assert_eq!(report.root, only);
    assert_eq!(report.node_count, 1);
    assert_eq!(report.max_deepth, 0);
    assert_eq!(report.level_count, 1);
    assert_eq!(report.levels_total_width, 0);
}

#[test]
fn empty_graph_reports_zero_roots() {
    let graph = AcyclicGraph::new("empty".to_string());
    let result = validator(&graph, &config(0));
    assert_eq!(result, Err(ValidationFailure::RootCountMismatch { found: 0 }));
}

#[test]
fn diamond_is_detected_as_multi_path() {
    let mut graph = AcyclicGraph::new("diamond".to_string());
    let a = graph.add_node(Some("A".to_string()), NodeData::Empty).unwrap();
    let b = graph.add_node(Some("B".to_string()), NodeData::Empty).unwrap();
    let c = graph.add_node(Some("C".to_string()), NodeData::Empty).unwrap();
    assert!(graph.add_child(a, b).is_ok());
    assert!(graph.add_child(a, c).is_ok());
    assert!(graph.add_child(b, c).is_ok());
    let result = validator(&graph, &config(0));
    assert_eq!(result, Err(ValidationFailure::MultiplePathsDetected));
}

#[test]
fn rejected_edges_leave_the_graph_unchanged() {
    let mut graph = AcyclicGraph::new("steady".to_string());
    let a = graph.add_node(Some("a".to_string()), NodeData::Number(1)).unwrap();
    let b = graph.add_node(Some("b".to_string()), NodeData::Number(2)).unwrap();
    let c = graph.add_node(None, NodeData::Empty).unwrap();
    assert!(graph.add_child(a, b).is_ok());
    assert!(graph.add_child(b, c).is_ok());
    let before = graph.dot().to_text();
    // closing a cycle is refused
    assert!(matches!(
        graph.add_child(c, a),
        Err(family_graph::graph::Error::Cycle { .. })
    ));
    assert_eq!(graph.dot().to_text(), before);
    // inserting the same edge twice is refused as a duplicate
    assert!(matches!(
        graph.add_child(a, b),
        Err(family_graph::graph::Error::ChildAlreadyExist { .. })
    ));
    assert_eq!(graph.dot().to_text(), before);
}

#[test]
fn rendering_twice_is_byte_identical() {
    let cfg = config(123);
    let graph = generate(&cfg).unwrap();
    assert_eq!(graph.dot().to_text(), graph.dot().to_text());
    assert_eq!(graph.mermaid().to_text(), graph.mermaid().to_text());
}

#[test]
fn validator_statistics_count_the_edges() {
    let mut graph = AcyclicGraph::new("stats".to_string());
    let a = graph.add_node(Some("a".to_string()), NodeData::Empty).unwrap();
    let b = graph.add_node(Some("b".to_string()), NodeData::Empty).unwrap();
    let c = graph.add_node(Some("c".to_string()), NodeData::Empty).unwrap();
    assert!(graph.add_child(a, b).is_ok());
    assert!(graph.add_child(b, c).is_ok());
    let report = validator(&graph, &config(0)).unwrap();
    assert_eq!(report.node_count, 3);
    assert_eq!(report.childs_total, 2);
    assert_eq!(report.branching_nodes, 2);
    assert_eq!(report.max_deepth, 2);
    assert_eq!(report.level_count, 3);
    assert_eq!(report.levels_total_width, 2);
}
