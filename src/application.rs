//! The analysis use case: parse one source text, build its call graph and
//! render it.
use vstd::prelude::*;
use crate::collector::SourceFile;
use crate::ports::{AstParser, CallGraphBuilder, OutputExporter};

verus! {

/// Parse, build and export, through the given collaborators.
pub struct AnalyzeUsecase<'a, P: AstParser, B: CallGraphBuilder, E: OutputExporter> {
    pub parser: &'a P,
    pub callgraph_builder: &'a B,
    pub exporter: &'a E,
}

impl<'a, P: AstParser, B: CallGraphBuilder, E: OutputExporter> AnalyzeUsecase<'a, P, B, E> {
    /// The rendered call graph of `src`, read as the file `path` of the unit
    /// `main`: the exporter's text of the builder's graph of that one file,
    /// whose items are the parser's result.
    pub fn run(&self, src: &str, path: &str) -> (r: String)
        ensures
            exists|files: Seq<SourceFile>|
                {
                    &&& files.len() == 1
                    &&& files[0].unit@ == "main"@
                    &&& files[0].path@ == path@
                    &&& r@ == self.exporter.exported(self.callgraph_builder.built(files))
                },
    {
        let items = self.parser.parse(src);
        let mut files: Vec<SourceFile> = Vec::new();
        files.push(SourceFile { unit: "main".to_owned(), path: path.to_owned(), items });
        let cg = self.callgraph_builder.build_call_graph(&files);
        let r = self.exporter.export(&cg);
        assert(files@[0].unit@ == "main"@);
        r
    }
}

} // verus!
