use protobuf::Message;
use tracecraft::range::{parse_scip_range, SourceRange};
use tracecraft::scip_ingest::{
    extract_label_from_symbol, Document, IngestError, Occurrence, ScipIngestor,
};

fn index_bytes(num_docs: usize, defs_per_doc: usize) -> Vec<u8> {
    let mut index = scip::types::Index::new();
    for doc_idx in 0..num_docs {
        let mut doc = scip::types::Document::new();
        doc.relative_path = format!("src/file_{}.rs", doc_idx);
        for def_idx in 0..defs_per_doc {
            let mut occ = scip::types::Occurrence::new();
            occ.symbol = format!("pkg::file_{}::func_{}", doc_idx, def_idx);
            let start_line = (def_idx * 20) as i32;
            occ.range = vec![start_line, 0, start_line + 15, 0];
            occ.symbol_roles = 1;
            doc.occurrences.push(occ);
        }
        index.documents.push(doc);
    }
    index.write_to_bytes().unwrap()
}

fn occ(symbol: &str, roles: i32, range: Vec<i32>) -> Occurrence {
    Occurrence { symbol: symbol.to_string(), symbol_roles: roles, range }
}

fn doc(path: &str, occurrences: Vec<Occurrence>) -> Document {
    Document { relative_path: path.to_string(), occurrences }
}

#[test]
fn test_source_range_contains() {
    let outer = SourceRange { start_line: 10, start_col: 0, end_line: 20, end_col: 0 };
    let inner = SourceRange { start_line: 15, start_col: 5, end_line: 15, end_col: 10 };
    assert!(outer.contains(&inner));
    assert!(!inner.contains(&outer));
}

#[test]
fn test_parse_scip_range() {
    let r3 = parse_scip_range(&[10, 5, 15]);
    assert_eq!(r3.start_line, 10);
    assert_eq!(r3.end_line, 10);

    let r4 = parse_scip_range(&[10, 5, 20, 10]);
    assert_eq!(r4.start_line, 10);
    assert_eq!(r4.end_line, 20);
}

#[test]
fn test_extract_label() {
    let symbol = "rust-analyzer cargo my_crate 0.1.0 src/lib.rs/MyStruct#my_method().";
    let label = extract_label_from_symbol(symbol);
    assert!(label.contains("my_method"));
}

#[test]
fn test_mmap_loading_basic() {
    let bytes = index_bytes(5, 10);
    let result = ScipIngestor::ingest_bytes(&bytes);
    assert!(result.is_ok(), "Failed: {:?}", result.err());
    let graph = result.unwrap();
    assert_eq!(graph.nodes.len(), 50);
}

#[test]
fn test_mmap_loading_empty_index() {
    let index = scip::types::Index::new();
    let bytes = index.write_to_bytes().unwrap();
    let result = ScipIngestor::ingest_bytes(&bytes);
    assert!(result.is_ok());
    let graph = result.unwrap();
    assert_eq!(graph.nodes.len(), 0);
}

#[test]
fn test_mmap_loading_large_index() {
    let bytes = index_bytes(100, 50);
    let result = ScipIngestor::ingest_bytes(&bytes);
    assert!(result.is_ok(), "Failed: {:?}", result.err());
    let graph = result.unwrap();
    assert_eq!(graph.nodes.len(), 5000);
}

#[test]
fn test_mmap_loading_invalid_protobuf() {
    let result = ScipIngestor::ingest_bytes(b"this is not a valid protobuf");
    assert!(result.is_err());
    let err = result.unwrap_err();
    assert_eq!(err, IngestError::Decode);
    assert!(err.message().contains("Failed to parse"));
}

#[test]
fn test_parallel_processing_correctness() {
    let mut index = scip::types::Index::new();

    let mut doc1 = scip::types::Document::new();
    doc1.relative_path = "src/a.rs".to_string();
    let mut def_a = scip::types::Occurrence::new();
    def_a.symbol = "pkg::func_a".to_string();
    def_a.range = vec![0, 0, 20, 0];
    def_a.symbol_roles = 1;
    doc1.occurrences.push(def_a);
    let mut ref_b = scip::types::Occurrence::new();
    ref_b.symbol = "pkg::func_b".to_string();
    ref_b.range = vec![10, 5, 15];
    ref_b.symbol_roles = 0;
    doc1.occurrences.push(ref_b);
    index.documents.push(doc1);

    let mut doc2 = scip::types::Document::new();
    doc2.relative_path = "src/b.rs".to_string();
    let mut def_b = scip::types::Occurrence::new();
    def_b.symbol = "pkg::func_b".to_string();
    def_b.range = vec![0, 0, 10, 0];
    def_b.symbol_roles = 1;
    doc2.occurrences.push(def_b);
    index.documents.push(doc2);

    let bytes = index.write_to_bytes().unwrap();
    let result = ScipIngestor::ingest_bytes(&bytes);
    assert!(result.is_ok());
    let graph = result.unwrap();
    assert_eq!(graph.nodes.len(), 2);
    let func_a = graph.nodes.iter().find(|n| n.id == "pkg::func_a");
    assert!(func_a.is_some());
    assert!(func_a.unwrap().callees.contains(&"pkg::func_b".to_string()));
}

#[test]
fn label_is_last_segment_without_marks() {
    let label = extract_label_from_symbol("rust-analyzer cargo my_crate 0.1.0 src/lib.rs/MyStruct#my_method().");
    assert_eq!(label, "src::lib.rs::MyStruct#my_method");
    assert_eq!(extract_label_from_symbol("plain"), "plain");
    assert_eq!(extract_label_from_symbol("a b/c#"), "b::c");
    assert_eq!(extract_label_from_symbol("trailing "), "");
}

#[test]
fn equal_ranges_contain_each_other() {
    let a = SourceRange { start_line: 3, start_col: 4, end_line: 9, end_col: 1 };
    assert!(a.contains(&a));
    let b = SourceRange { start_line: 3, start_col: 3, end_line: 9, end_col: 1 };
    assert!(b.contains(&a));
    assert!(!a.contains(&b));
}

#[test]
fn range_of_other_lengths_is_origin() {
    let r = parse_scip_range(&[1, 2]);
    assert_eq!(r, SourceRange { start_line: 0, start_col: 0, end_line: 0, end_col: 0 });
    let r = parse_scip_range(&[4, 5, 6]);
    assert_eq!(r, SourceRange { start_line: 4, start_col: 5, end_line: 4, end_col: 6 });
    assert_eq!(r.size(), 1);
    let r = parse_scip_range(&[1, 2, 3, 4]);
    assert_eq!(r.size(), 2002);
}

#[test]
fn nodes_are_sorted_and_labelled() {
    let docs = vec![
        doc("b.rs", vec![occ("zeta", 1, vec![0, 0, 5, 0]), occ("alpha", 1, vec![6, 0, 9, 0])]),
        doc("a.rs", vec![occ("mid", 1, vec![0, 0, 5, 0]), occ("", 1, vec![0, 0, 1, 0])]),
    ];
    let g = ScipIngestor::build_graph(&docs);
    let ids: Vec<&str> = g.nodes.iter().map(|n| n.id.as_str()).collect();
    assert_eq!(ids, vec!["alpha", "mid", "zeta"]);
    assert_eq!(g.nodes[0].label, Some("alpha".to_string()));
}

#[test]
fn ingestion_is_deterministic() {
    let docs = vec![
        doc("a.rs", vec![
            occ("s a#f().", 1, vec![0, 0, 30, 0]),
            occ("s b#g().", 0, vec![3, 0, 4]),
            occ("s c#h().", 0, vec![5, 0, 6]),
        ]),
        doc("b.rs", vec![occ("s b#g().", 1, vec![0, 0, 9, 0]), occ("s c#h().", 0, vec![2, 0, 3])]),
        doc("c.rs", vec![occ("s c#h().", 1, vec![0, 0, 9, 0])]),
    ];
    let g1 = ScipIngestor::build_graph(&docs);
    let g2 = ScipIngestor::build_graph(&docs);
    assert_eq!(format!("{:?}", g1), format!("{:?}", g2));
    assert_eq!(g1.nodes[0].callees, vec!["s b#g().".to_string(), "s c#h().".to_string()]);
}

#[test]
fn self_reference_gives_no_edge() {
    let docs = vec![doc("a.rs", vec![
        occ("f", 1, vec![0, 0, 10, 0]),
        occ("f", 0, vec![2, 0, 3]),
        occ("g", 0, vec![4, 0, 5]),
        occ("g", 1, vec![20, 0, 30, 0]),
        occ("f", 0, vec![25, 0, 26]),
    ])];
    let g = ScipIngestor::build_graph(&docs);
    for n in &g.nodes {
        assert!(!n.callees.contains(&n.id));
    }
    assert_eq!(g.nodes[0].callees, vec!["g".to_string()]);
    assert_eq!(g.nodes[1].callees, vec!["f".to_string()]);
}

#[test]
fn repeated_call_listed_once() {
    let docs = vec![doc("a.rs", vec![
        occ("f", 1, vec![0, 0, 10, 0]),
        occ("g", 0, vec![2, 0, 3]),
        occ("g", 0, vec![4, 0, 5]),
        occ("h", 0, vec![6, 0, 7]),
        occ("g", 0, vec![8, 0, 9]),
    ])];
    let g = ScipIngestor::build_graph(&docs);
    assert_eq!(g.nodes.len(), 1);
    assert_eq!(g.nodes[0].callees, vec!["g".to_string(), "h".to_string()]);
}

#[test]
fn reference_goes_to_containing_definition() {
    let docs = vec![doc("a.rs", vec![
        occ("outer", 1, vec![0, 0, 20, 0]),
        occ("callee", 0, vec![10, 0, 15, 0]),
        occ("other", 1, vec![30, 0, 40, 0]),
        occ("far", 0, vec![50, 0, 51]),
    ])];
    let g = ScipIngestor::build_graph(&docs);
    let outer = g.nodes.iter().find(|n| n.id == "outer").unwrap();
    assert_eq!(outer.callees, vec!["callee".to_string()]);
    let other = g.nodes.iter().find(|n| n.id == "other").unwrap();
    assert!(other.callees.is_empty());
}

#[test]
fn largest_containing_definition_wins() {
    let docs = vec![doc("a.rs", vec![
        occ("inner", 1, vec![5, 0, 8, 0]),
        occ("outer", 1, vec![0, 0, 20, 0]),
        occ("callee", 0, vec![6, 0, 7]),
    ])];
    let g = ScipIngestor::build_graph(&docs);
    let outer = g.nodes.iter().find(|n| n.id == "outer").unwrap();
    assert_eq!(outer.callees, vec!["callee".to_string()]);
    let inner = g.nodes.iter().find(|n| n.id == "inner").unwrap();
    assert!(inner.callees.is_empty());
}

#[test]
fn error_messages_name_the_step() {
    assert!(IngestError::Open.message().contains("Failed to open"));
    assert!(IngestError::Mmap.message().contains("memory-map"));
}

#[test]
fn error_messages_are_fixed() {
    assert_eq!(IngestError::Open.message(), "Failed to open SCIP index file");
    assert_eq!(IngestError::Mmap.message(), "Failed to memory-map SCIP index file");
    assert_eq!(IngestError::Decode.message(), "Failed to parse SCIP index protobuf");
}
