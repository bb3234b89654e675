use std::collections::HashSet;

use class_graph::{
    build_class_graph, extract_file_contents, filter_edges_by_class, merge_file_edges,
    parse_file, CommandLineConfig, Edge, ReadModule,
};

fn edge(child: &str, parent: &str) -> Edge {
    (child.to_string(), parent.to_string())
}

/// `A→B`, `B→C`, `X→Y` written parent to child.
fn sample() -> Vec<Edge> {
    vec![edge("B", "A"), edge("C", "B"), edge("Y", "X")]
}

fn as_set(edges: &[Edge]) -> HashSet<Edge> {
    edges.iter().cloned().collect()
}

#[test]
fn filter_without_anchor_keeps_everything() {
    assert_eq!(filter_edges_by_class(sample(), None), sample());
}

#[test]
fn filter_anchor_keeps_descendant_edges() {
    let actual = filter_edges_by_class(sample(), Some(String::from("A")));
    assert_eq!(actual, vec![edge("B", "A"), edge("C", "B")]);
}

#[test]
fn filter_leaf_anchor_keeps_edges_into_it() {
    let actual = filter_edges_by_class(sample(), Some(String::from("C")));
    assert_eq!(actual, vec![edge("C", "B")]);
}

#[test]
fn filter_absent_anchor_keeps_nothing() {
    let actual = filter_edges_by_class(sample(), Some(String::from("Nope")));
    assert!(actual.is_empty());
}

#[test]
fn filter_middle_anchor_keeps_its_parent_edge() {
    let actual = filter_edges_by_class(sample(), Some(String::from("B")));
    assert_eq!(actual, vec![edge("B", "A"), edge("C", "B")]);
}

#[test]
fn filter_survives_cycles() {
    let edges = vec![edge("B", "A"), edge("A", "B"), edge("Z", "Q")];
    let actual = filter_edges_by_class(edges, Some(String::from("A")));
    assert_eq!(actual, vec![edge("B", "A"), edge("A", "B")]);
}

#[test]
fn merge_in_any_order_gives_same_set() {
    let texts = vec![
        String::from("class Bee(Ant): pass"),
        String::from("class Cat(Bee, Dog): pass\nclass Eel(Cat): pass"),
        String::from("class Yak(Xen): pass"),
    ];
    let per_file: Vec<Vec<Edge>> = texts.iter().map(|t| parse_file(t.clone())).collect();
    let mut reversed = per_file.clone();
    reversed.reverse();
    let first = merge_file_edges(per_file, None);
    let second = merge_file_edges(reversed, None);
    assert_eq!(first.len(), 5);
    assert_ne!(first, second);
    assert_eq!(as_set(&first), as_set(&second));
    let mut sorted_first = first.clone();
    let mut sorted_second = second.clone();
    sorted_first.sort();
    sorted_second.sort();
    assert_eq!(sorted_first, sorted_second);
}

#[test]
fn merge_keeps_repeated_edges_in_any_order() {
    let texts = vec![
        String::from("class Bee(Ant): pass"),
        String::from("class Bee(Ant): pass\nclass Cat(Bee): pass"),
    ];
    let per_file: Vec<Vec<Edge>> = texts.iter().map(|t| parse_file(t.clone())).collect();
    let mut reversed = per_file.clone();
    reversed.reverse();
    let mut first = merge_file_edges(per_file, Some(String::from("Ant")));
    let mut second = merge_file_edges(reversed, Some(String::from("Ant")));
    assert_eq!(first.len(), 3);
    first.sort();
    second.sort();
    assert_eq!(first, second);
}

#[test]
fn merge_filters_after_merging() {
    let per_file = vec![vec![edge("B", "A")], vec![edge("C", "B")], vec![edge("Y", "X")]];
    let actual = merge_file_edges(per_file, Some(String::from("A")));
    assert_eq!(as_set(&actual), as_set(&[edge("B", "A"), edge("C", "B")]));
}

#[test]
fn end_to_end_graph() {
    let text = String::from("class Base: pass\nclass Derived(Base): pass");
    let edges = merge_file_edges(vec![parse_file(text)], None);
    let graph = build_class_graph(&edges);
    assert_eq!(graph.names, vec![String::from("Base"), String::from("Derived")]);
    assert_eq!(graph.graph.node_count(), 2);
    assert_eq!(graph.graph.edge_count(), 1);
    assert!(graph.graph.contains_edge(0, 1));
    assert!(!graph.graph.contains_edge(1, 0));
    assert_eq!(graph.graph.edge_weight(0, 1), Some(&-1));
}

#[test]
fn root_class_without_children_is_no_node() {
    let text = String::from("class Lonely: pass\nclass Base: pass\nclass Derived(Base): pass");
    let graph = build_class_graph(&parse_file(text));
    assert!(!graph.names.contains(&String::from("Lonely")));
    assert_eq!(graph.graph.node_count(), 2);
}

#[test]
fn graph_nodes_are_unique() {
    let edges = vec![edge("B", "A"), edge("C", "A"), edge("C", "B"), edge("B", "A")];
    let graph = build_class_graph(&edges);
    assert_eq!(graph.names, vec![String::from("A"), String::from("B"), String::from("C")]);
    assert_eq!(graph.graph.node_count(), 3);
    assert_eq!(graph.graph.edge_count(), 3);
    assert!(graph.graph.contains_edge(0, 1));
    assert!(graph.graph.contains_edge(0, 2));
    assert!(graph.graph.contains_edge(1, 2));
}

#[test]
fn empty_edges_give_empty_graph() {
    let graph = build_class_graph(&Vec::new());
    assert!(graph.names.is_empty());
    assert_eq!(graph.graph.node_count(), 0);
}

#[test]
fn config_single_file() {
    let args = vec![String::from("prog"), String::from("src/model.py")];
    let config = CommandLineConfig::new(&args);
    assert_eq!(config.file_path, Some(String::from("src/model.py")));
    assert_eq!(config.module, None);
    assert_eq!(config.class, None);
}

#[test]
fn config_directory_and_class() {
    let args = vec![String::from("prog"), String::from("src"), String::from("Base")];
    let config = CommandLineConfig::new(&args);
    assert_eq!(config.file_path, None);
    assert_eq!(config.module, Some(String::from("src")));
    assert_eq!(config.class, Some(String::from("Base")));
}

#[test]
fn config_short_name_is_a_directory() {
    let args = vec![String::from("prog"), String::from("py")];
    let config = CommandLineConfig::new(&args);
    assert_eq!(config.module, Some(String::from("py")));
}

#[test]
fn contents_of_single_file() {
    let mut module = ReadModule::new();
    module.files.push(String::from("ignored"));
    let contents = extract_file_contents(Some(String::from("class A: pass")), module);
    assert_eq!(contents, vec![String::from("class A: pass")]);
}

#[test]
fn contents_of_directory() {
    let mut module = ReadModule::new();
    assert!(module.files.is_empty());
    module.files.push(String::from("one"));
    module.files.push(String::from("two"));
    let contents = extract_file_contents(None, module);
    assert_eq!(contents, vec![String::from("one"), String::from("two")]);
}
