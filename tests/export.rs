use tracecraft::application::AnalyzeUsecase;
use tracecraft::collector::{Function, Item, SimpleCallGraphBuilder};
use tracecraft::export::{DotExporter, GraphDto};
use tracecraft::graph::{CallGraph, CallGraphNode};
use tracecraft::ports::AstParser;
use tracecraft::syntax::{Expr, Stmt};

fn sample() -> CallGraph {
    CallGraph {
        nodes: vec![
            CallGraphNode {
                id: "a@m".to_string(),
                label: Some("say \"hi\"".to_string()),
                callees: vec!["b@m".to_string(), "c@m".to_string()],
            },
            CallGraphNode { id: "b@m".to_string(), label: None, callees: vec![] },
        ],
    }
}

#[test]
fn dot_text_lists_nodes_and_edges() {
    let text = DotExporter.render(&sample());
    let expected = "digraph G {\n    \"a@m\" [label=\"say \\\"hi\\\"\"];\n    \"a@m\" -> \"b@m\";\n    \"a@m\" -> \"c@m\";\n    \"b@m\" [label=\"b@m\"];\n}";
    assert_eq!(text, expected);
}

#[test]
fn dot_text_of_empty_graph() {
    assert_eq!(DotExporter.render(&CallGraph { nodes: vec![] }), "digraph G {\n}");
}

#[test]
fn dto_lists_nodes_and_edges() {
    let dto = GraphDto::from(sample());
    assert_eq!(dto.nodes.len(), 2);
    assert_eq!(dto.nodes[0].label, "say \"hi\"");
    assert_eq!(dto.nodes[1].label, "b@m");
    assert!(dto.nodes[1].package.is_none() && dto.nodes[1].location.is_none());
    let edges: Vec<(String, String)> = dto.edges.iter().map(|e| (e.from.clone(), e.to.clone())).collect();
    assert_eq!(edges, vec![("a@m".to_string(), "b@m".to_string()), ("a@m".to_string(), "c@m".to_string())]);
    assert!(dto.edges.iter().all(|e| e.label == Some("call".to_string())));
}

struct FixedParser;

impl AstParser for FixedParser {
    fn parse(&self, _src: &str) -> Option<Vec<Item>> {
        Some(vec![
            Item::Fn {
                func: Function {
                    name: "main".to_string(),
                    line: 2,
                    body: vec![Stmt::Expr { expr: Expr::Call { func: Some(vec!["go".to_string()]), args: vec![] } }],
                },
            },
            Item::Fn { func: Function { name: "go".to_string(), line: 5, body: vec![] } },
        ])
    }
}

#[test]
fn use_case_renders_parsed_source() {
    let uc = AnalyzeUsecase { parser: &FixedParser, callgraph_builder: &SimpleCallGraphBuilder, exporter: &DotExporter };
    let text = uc.run("fn main() { go() }", "in.rs");
    assert_eq!(
        text,
        "digraph G {\n    \"go@main\" [label=\"in.rs:5\"];\n    \"main@main\" [label=\"in.rs:2\"];\n    \"main@main\" -> \"go@main\";\n}"
    );
}
