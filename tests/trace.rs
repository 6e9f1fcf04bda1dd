use tracecraft::graph::{CallGraph, CallGraphNode};
use tracecraft::source_manager::SourceManager;
use tracecraft::trace::{CyclePolicy, PathExplorer, TraceGenerator, TracePath};

fn node(id: &str, callees: &[&str]) -> CallGraphNode {
    CallGraphNode {
        id: id.to_string(),
        label: Some(format!("{}.rs:1", id)),
        callees: callees.iter().map(|c| c.to_string()).collect(),
    }
}

fn ids(p: &TracePath) -> Vec<String> {
    p.steps.iter().map(|s| s.id.clone()).collect()
}

#[test]
fn cycle_is_marked_once() {
    let g = CallGraph { nodes: vec![node("A", &["B"]), node("B", &["C"]), node("C", &["A"])] };
    let sm = SourceManager::new(&vec![]);
    let paths = TraceGenerator::new(&g, &sm).generate_paths("A");
    assert_eq!(paths.len(), 1);
    assert_eq!(ids(&paths[0]), vec!["A", "B", "C", "A"]);
    let last = paths[0].steps.last().unwrap();
    assert_eq!(last.note, Some("[Cycle Detected]".to_string()));
    assert_eq!(last.depth, 3);
    assert!(paths[0].steps[..3].iter().all(|s| s.note.is_none()));
    assert_eq!(paths[0].steps[1].location, Some("B.rs:1".to_string()));
}

#[test]
fn reverse_query_finds_both_simple_paths() {
    let g = CallGraph {
        nodes: vec![node("A", &["B", "C"]), node("B", &["D"]), node("C", &["D"]), node("D", &[])],
    };
    let paths = PathExplorer::reverse_query("D".to_string()).generate_paths(&g, &"A".to_string());
    let mut found: Vec<Vec<String>> = paths.iter().map(ids).collect();
    found.sort();
    assert_eq!(found, vec![vec!["A", "B", "D"], vec!["A", "C", "D"]]);
}

#[test]
fn reverse_query_skips_cycles_and_dead_ends() {
    let g = CallGraph {
        nodes: vec![node("A", &["B", "E"]), node("B", &["A", "D"]), node("D", &[]), node("E", &[])],
    };
    let paths = PathExplorer::reverse_query("D".to_string()).generate_paths(&g, &"A".to_string());
    assert_eq!(paths.len(), 1);
    assert_eq!(ids(&paths[0]), vec!["A", "B", "D"]);
}

#[test]
fn caps_bound_count_and_length() {
    let g = CallGraph {
        nodes: vec![node("A", &["A", "B", "C"]), node("B", &["A", "B", "C"]), node("C", &["A", "B", "C"])],
    };
    let e = PathExplorer {
        max_depth: Some(3),
        max_paths: Some(4),
        cycle_policy: CyclePolicy::MarkAndStop,
        target: None,
    };
    let paths = e.generate_paths(&g, &"A".to_string());
    assert_eq!(paths.len(), 4);
    assert!(paths.iter().all(|p| p.steps.len() <= 3));
    assert_eq!(ids(&paths[0]), vec!["A", "A"]);
    assert_eq!(ids(&paths[1]), vec!["A", "B", "A"]);
}

#[test]
fn zero_path_cap_gives_nothing() {
    let g = CallGraph { nodes: vec![node("A", &[])] };
    let e = PathExplorer { max_depth: Some(3), max_paths: Some(0), cycle_policy: CyclePolicy::Skip, target: None };
    assert!(e.generate_paths(&g, &"A".to_string()).is_empty());
}

#[test]
fn depth_cap_cuts_paths() {
    let g = CallGraph { nodes: vec![node("A", &["B"]), node("B", &["C"]), node("C", &["D"]), node("D", &[])] };
    let e = PathExplorer { max_depth: Some(2), max_paths: None, cycle_policy: CyclePolicy::Skip, target: None };
    let paths = e.generate_paths(&g, &"A".to_string());
    assert_eq!(paths.len(), 1);
    assert_eq!(ids(&paths[0]), vec!["A", "B"]);
}

#[test]
fn missing_node_ends_its_path() {
    let g = CallGraph { nodes: vec![node("A", &["X", "B"]), node("B", &[])] };
    let sm = SourceManager::new(&vec![]);
    let paths = TraceGenerator::new(&g, &sm).generate_paths("A");
    assert_eq!(paths.len(), 2);
    assert_eq!(ids(&paths[0]), vec!["A", "X"]);
    assert_eq!(paths[0].steps[1].location, None);
    assert_eq!(ids(&paths[1]), vec!["A", "B"]);
}

#[test]
fn expansion_drops_cyclic_branches() {
    let g = CallGraph { nodes: vec![node("A", &["B", "C"]), node("B", &["A"]), node("C", &[])] };
    let paths = PathExplorer::expand_paths().generate_paths(&g, &"A".to_string());
    assert_eq!(paths.len(), 1);
    assert_eq!(ids(&paths[0]), vec!["A", "C"]);
}

#[test]
fn siblings_may_revisit_a_node() {
    let g = CallGraph { nodes: vec![node("A", &["B", "C"]), node("B", &["C"]), node("C", &[])] };
    let paths = PathExplorer::expand_paths().generate_paths(&g, &"A".to_string());
    let found: Vec<Vec<String>> = paths.iter().map(ids).collect();
    assert_eq!(found, vec![vec!["A", "B", "C"], vec!["A", "C"]]);
    assert_eq!(paths[0].steps[2].depth, 2);
}

#[test]
fn entry_point_is_first_main() {
    let g = CallGraph { nodes: vec![node("foo@main", &[]), node("main@b", &[]), node("main@a", &[])] };
    assert_eq!(g.entry_point(), Some(1));
    let g = CallGraph { nodes: vec![node("main", &[]), node("mai@x", &[])] };
    assert_eq!(g.entry_point(), None);
}

#[test]
fn trace_steps_show_their_source_line() {
    let g = CallGraph { nodes: vec![node("A", &["B"]), node("B", &[])] };
    let files = vec![
        ("main".to_string(), "A.rs".to_string(), "  fn a() {  \r\nb();\n".to_string()),
        ("main".to_string(), "B.rs".to_string(), "\tfn b() {}".to_string()),
    ];
    let sm = SourceManager::new(&files);
    let paths = TraceGenerator::new(&g, &sm).generate_paths("A");
    assert_eq!(paths.len(), 1);
    assert_eq!(paths[0].steps[0].snippet, Some("fn a() {".to_string()));
    assert_eq!(paths[0].steps[1].snippet, Some("fn b() {}".to_string()));
}

#[test]
fn forward_trace_configuration() {
    let e = PathExplorer::forward_trace();
    assert_eq!(e.max_depth, Some(30));
    assert_eq!(e.max_paths, Some(50));
    assert_eq!(e.cycle_policy, CyclePolicy::MarkAndStop);
    assert!(e.target.is_none());
    let g = CallGraph { nodes: vec![node("A", &["B"]), node("B", &["A"])] };
    let paths = e.generate_paths(&g, &"A".to_string());
    assert_eq!(paths.len(), 1);
    assert_eq!(ids(&paths[0]), vec!["A", "B", "A"]);
    let chain: Vec<CallGraphNode> = (0..40).map(|i| node(&format!("n{}", i), &[format!("n{}", i + 1).as_str()])).collect();
    let g = CallGraph { nodes: chain };
    let paths = e.generate_paths(&g, &"n0".to_string());
    assert_eq!(paths.len(), 1);
    assert_eq!(paths[0].steps.len(), 30);
}
