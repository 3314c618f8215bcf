use family_graph::graph::{AcyclicGraph, Error, NodeData};
use rand::SeedableRng;

#[test]
fn test_add_node() {
    let mut graph = AcyclicGraph::new("Test Graph".to_string());
    let uuid = graph
        .add_node(Some("Node".to_string()), NodeData::Text("This is some data".to_string()))
        .unwrap();
    let node = graph.get_node(uuid).unwrap().clone();
    assert_eq!(node.name.as_deref(), Some("Node"));
    match &node.data {
        NodeData::Text(s) => assert_eq!(s, "This is some data"),
        _ => panic!("Expected NodeData::Text"),
    }
    assert_eq!(graph.get_node(uuid), Ok(&node));
}

#[test]
fn test_add_child() {
    let mut graph = AcyclicGraph::new("Test Graph".to_string());
    let parent_uuid = graph.add_node(Some("Parent".to_string()), NodeData::Empty).unwrap();
    let child_uuid = graph.add_node(Some("Child".to_string()), NodeData::Empty).unwrap();
    assert!(graph.add_child(parent_uuid, child_uuid).is_ok());
    let parent_node = graph.get_node(parent_uuid).unwrap();
    assert!(parent_node.childs.contains(&child_uuid));
}

#[test]
fn test_cycle_detection() {
    let mut graph = AcyclicGraph::new("Test Graph".to_string());
    let parent_uuid = graph.add_node(Some("Parent".to_string()), NodeData::Empty).unwrap();
    let child_uuid = graph.add_node(Some("Child".to_string()), NodeData::Empty).unwrap();
    assert!(graph.add_child(parent_uuid, child_uuid).is_ok());
    let result = graph.add_child(child_uuid, parent_uuid);
    assert!(matches!(result, Err(Error::Cycle { .. })));
}

#[test]
fn test_child_already_exist() {
    let mut graph = AcyclicGraph::new("Test Graph".to_string());
    let parent_uuid = graph.add_node(Some("Parent".to_string()), NodeData::Empty).unwrap();
    let child_uuid = graph.add_node(Some("Child".to_string()), NodeData::Empty).unwrap();
    assert!(graph.add_child(parent_uuid, child_uuid).is_ok());
    let result = graph.add_child(parent_uuid, child_uuid);
    assert!(matches!(result, Err(Error::ChildAlreadyExist { .. })));
}

#[test]
fn test_uuid_not_found() {
    let mut graph = AcyclicGraph::new("Test Graph".to_string());
    let node_uuid = graph.add_node(Some("Node".to_string()), NodeData::Empty).unwrap();
    let fake_uuid = uuid::Uuid::new_v4().as_u128();
    let result = graph.add_child(node_uuid, fake_uuid);
    assert!(matches!(result, Err(Error::UuidNotFound { .. })));
}

#[test]
fn test_dot_format() {
    let mut rng = rand::rngs::StdRng::seed_from_u64(42);
    let mut graph = AcyclicGraph::new("Test Graph".to_string());
    let parent_uuid = graph
        .add_node_with_rng(Some("Parent".to_string()), NodeData::Empty, &mut rng)
        .unwrap();
    let child_uuid = graph
        .add_node_with_rng(Some("Child".to_string()), NodeData::Empty, &mut rng)
        .unwrap();
    assert!(graph.add_child(parent_uuid, child_uuid).is_ok());
    let dot_output = graph.dot().to_text();
    dot_parser::ast::Graph::try_from(dot_output.as_str()).expect("DOT format is invalid");

    let expected_output = r###"digraph "Test Graph" {
  node [shape = box]
  graph [rankdir = TB]

  "cDe6M3HmMtiJnhL4ihtnyx" [label = "Child"];
  "m43pF1xXxnZvhCY1VeAnMV" [label = "Parent"];
  "m43pF1xXxnZvhCY1VeAnMV" -> {"cDe6M3HmMtiJnhL4ihtnyx"};
}
"###;
    assert_eq!(dot_output, expected_output);
}

#[test]
fn test_mermaid_format() {
    let mut rng = rand::rngs::StdRng::seed_from_u64(42);
    let mut graph = AcyclicGraph::new("Test Graph".to_string());
    let parent_uuid = graph
        .add_node_with_rng(Some("Parent".to_string()), NodeData::Empty, &mut rng)
        .unwrap();
    let child_uuid = graph
        .add_node_with_rng(Some("Child".to_string()), NodeData::Empty, &mut rng)
        .unwrap();
    assert!(graph.add_child(parent_uuid, child_uuid).is_ok());
    let mermaid_output = graph.mermaid().to_text();

    let expected_output = r###"---
title: Test Graph
---
flowchart TB
  cDe6M3HmMtiJnhL4ihtnyx[Child]
  m43pF1xXxnZvhCY1VeAnMV[Parent] --> cDe6M3HmMtiJnhL4ihtnyx
"###;
    assert_eq!(mermaid_output, expected_output);
}

#[test]
fn test_parents() {
    let mut graph = AcyclicGraph::new("Test Graph".to_string());
    let parent_uuid = graph.add_node(Some("Parent".to_string()), NodeData::Empty).unwrap();
    let child_uuid = graph.add_node(Some("Child".to_string()), NodeData::Empty).unwrap();
    assert!(graph.add_child(parent_uuid, child_uuid).is_ok());
    let parents = graph.parents();
    let entry = parents.iter().find(|e| e.0 == child_uuid).unwrap();
    assert!(entry.1.contains(&parent_uuid));
}

#[test]
fn get_node_mut_edits_in_place() {
    let mut graph = AcyclicGraph::new("Edit".to_string());
    let id = graph.add_node(Some("old".to_string()), NodeData::Empty).unwrap();
    {
        let node = graph.get_node_mut(id).unwrap();
        node.name = Some("new".to_string());
    }
    assert_eq!(graph.get_node(id).unwrap().name.as_deref(), Some("new"));
    assert!(graph.get_node_mut(uuid::Uuid::new_v4().as_u128()).is_err());
}

#[test]
fn node_data_from_conversions() {
    assert_eq!(NodeData::from(42u64), NodeData::Number(42));
    assert_eq!(NodeData::from("hi".to_string()), NodeData::Text("hi".to_string()));
    assert_eq!(NodeData::from(()), NodeData::Empty);
}
