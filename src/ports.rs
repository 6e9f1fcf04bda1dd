//! The seams of the analysis: parsing, graph building and export.  The
//! builder's and exporter's results are what their spec functions say.
use vstd::prelude::*;
use crate::collector::{Item, SimpleCallGraphBuilder, SourceFile, syntactic_model};
use crate::export::{DotExporter, dot_text};
use crate::graph::{CallGraph, NodeView, canonical_for, lemma_canonical_unique};

verus! {

/// Parses source text into the items of a file, or `None` where it does
/// not parse.  Implemented outside the library (with a parser crate), so
/// nothing is promised of its result.
pub trait AstParser {
    fn parse(&self, src: &str) -> Option<Vec<Item>>;
}

/// Builds a call graph from source files.
pub trait CallGraphBuilder {
    /// The graph of `files`.
    spec fn built(&self, files: Seq<SourceFile>) -> Seq<NodeView>;

    fn build_call_graph(&self, files: &Vec<SourceFile>) -> (r: CallGraph)
        ensures
            r@ == self.built(files@),
    ;
}

/// Renders a call graph as text.
pub trait OutputExporter {
    /// The text of graph `g`.
    spec fn exported(&self, g: Seq<NodeView>) -> Seq<char>;

    fn export(&self, graph: &CallGraph) -> (r: String)
        ensures
            r@ == self.exported(graph@),
    ;
}

/// The canonical listing of the graph of `files`.
pub open spec fn syntactic_graph(files: Seq<SourceFile>) -> Seq<NodeView> {
    choose|g: Seq<NodeView>| canonical_for(g, syntactic_model(files))
}

impl CallGraphBuilder for SimpleCallGraphBuilder {
    open spec fn built(&self, files: Seq<SourceFile>) -> Seq<NodeView> {
        syntactic_graph(files)
    }

    fn build_call_graph(&self, files: &Vec<SourceFile>) -> (r: CallGraph) {
        let r = SimpleCallGraphBuilder::build_call_graph(self, files);
        proof {
            let m = syntactic_model(files@);
            assert(canonical_for(r@, m));
            lemma_canonical_unique(r@, syntactic_graph(files@), m);
        }
        r
    }
}

impl OutputExporter for DotExporter {
    open spec fn exported(&self, g: Seq<NodeView>) -> Seq<char> {
        dot_text(g)
    }

    fn export(&self, graph: &CallGraph) -> (r: String) {
        self.render(graph)
    }
}

} // verus!
