//! Rendering a call graph: the DOT text format, and a flat node/edge listing.
use vstd::prelude::*;
use crate::graph::{CallGraph, NodeView};
use crate::text::{chars_of, push_chars, string_from_chars};

verus! {

/// `s` with each `"` escaped as `\"`.
pub open spec fn escape_quotes(s: Seq<char>) -> Seq<char>
    decreases s.len(),
{
    if s.len() == 0 {
        s
    } else if s.last() == '"' {
        escape_quotes(s.drop_last()) + seq!['\\', '"']
    } else {
        escape_quotes(s.drop_last()).push(s.last())
    }
}

/// What a node is shown as: its label, or its id where it has none.
pub open spec fn display_label(n: NodeView) -> Seq<char> {
    match n.label {
        Some(l) => l,
        None => n.id,
    }
}

pub open spec fn quoted(s: Seq<char>) -> Seq<char> {
    seq!['"'] + s + seq!['"']
}

/// The declaration of node `n`: `    "id" [label="label"];`.
pub open spec fn node_line(n: NodeView) -> Seq<char> {
    "    "@ + quoted(n.id) + " [label="@ + quoted(escape_quotes(display_label(n))) + "];"@
}

/// The arrow of an edge: `    "from" -> "to";`.
pub open spec fn edge_line(from: Seq<char>, to: Seq<char>) -> Seq<char> {
    "    "@ + quoted(from) + " -> "@ + quoted(to) + ";"@
}

/// The arrows from `from` to each of `cs`, each line preceded by a newline.
pub open spec fn edge_lines(from: Seq<char>, cs: Seq<Seq<char>>) -> Seq<char>
    decreases cs.len(),
{
    if cs.len() == 0 {
        Seq::empty()
    } else {
        edge_lines(from, cs.drop_last()) + seq!['\n'] + edge_line(from, cs.last())
    }
}

/// The lines of the nodes of `g`, each preceded by a newline: a node's
/// declaration, then its arrows.
pub open spec fn node_lines(g: Seq<NodeView>) -> Seq<char>
    decreases g.len(),
{
    if g.len() == 0 {
        Seq::empty()
    } else {
        node_lines(g.drop_last()) + seq!['\n'] + node_line(g.last()) + edge_lines(
            g.last().id,
            g.last().callees,
        )
    }
}

/// The DOT text of a graph: one declaration per node, one arrow per edge.
pub open spec fn dot_text(g: Seq<NodeView>) -> Seq<char> {
    "digraph G {"@ + node_lines(g) + seq!['\n', '}']
}

/// Writes graphs in the DOT format.
pub struct DotExporter;

fn escaped(s: &Vec<char>) -> (r: Vec<char>)
    ensures
        r@ == escape_quotes(s@),
{
    let mut r: Vec<char> = Vec::new();
    let mut i: usize = 0;
    while i < s.len()
        invariant
            i <= s.len(),
            r@ == escape_quotes(s@.take(i as int)),
        decreases s.len() - i,
    {
        assert(s@.take(i + 1).drop_last() =~= s@.take(i as int));
        if s[i] == '"' {
            r.push('\\');
            r.push('"');
            assert(r@ =~= escape_quotes(s@.take(i as int)) + seq!['\\', '"']);
        } else {
            r.push(s[i]);
        }
        i = i + 1;
    }
    assert(s@.take(i as int) =~= s@);
    r
}

fn push_quoted(out: &mut Vec<char>, s: &Vec<char>)
    ensures
        final(out)@ == old(out)@ + quoted(s@),
{
    out.push('"');
    push_chars(out, s);
    out.push('"');
    assert(final(out)@ =~= old(out)@ + quoted(s@));
}

fn push_str(out: &mut Vec<char>, s: &str)
    ensures
        final(out)@ == old(out)@ + s@,
{
    push_chars(out, &chars_of(s));
}

impl DotExporter {
    /// The DOT text of `cg`, see [`dot_text`].
    pub fn render(&self, cg: &CallGraph) -> (r: String)
        ensures
            r@ == dot_text(cg@),
    {
        let ghost g = cg@;
        let mut out: Vec<char> = Vec::new();
        push_str(&mut out, "digraph G {");
        let ghost head = out@;
        let mut i: usize = 0;
        assert(g.take(0) =~= Seq::<NodeView>::empty());
        assert(out@ =~= head + node_lines(g.take(0)));
        while i < cg.nodes.len()
            invariant
                i <= cg.nodes.len(),
                g == cg@,
                out@ == head + node_lines(g.take(i as int)),
            decreases cg.nodes.len() - i,
        {
            let n = &cg.nodes[i];
            assert(g[i as int] == n@);
            let id = chars_of(n.id.as_str());
            let label = match &n.label {
                Some(l) => chars_of(l.as_str()),
                None => chars_of(n.id.as_str()),
            };
            let ghost before = out@;
            out.push('\n');
            push_str(&mut out, "    ");
            push_quoted(&mut out, &id);
            push_str(&mut out, " [label=");
            push_quoted(&mut out, &escaped(&label));
            push_str(&mut out, "];");
            assert(out@ =~= before + seq!['\n'] + node_line(n@));
            let ghost after_decl = out@;
            let mut j: usize = 0;
            let ghost cs = n@.callees;
            assert(cs.take(0) =~= Seq::<Seq<char>>::empty());
            assert(out@ =~= after_decl + edge_lines(id@, cs.take(0)));
            while j < n.callees.len()
                invariant
                    j <= n.callees.len(),
                    n == &cg.nodes[i as int],
                    i < cg.nodes.len(),
                    cs == n@.callees,
                    id@ == n.id@,
                    out@ == after_decl + edge_lines(id@, cs.take(j as int)),
                decreases n.callees.len() - j,
            {
                let c = chars_of(n.callees[j].as_str());
                assert(cs[j as int] == c@);
                let ghost b2 = out@;
                out.push('\n');
                push_str(&mut out, "    ");
                push_quoted(&mut out, &id);
                push_str(&mut out, " -> ");
                push_quoted(&mut out, &c);
                push_str(&mut out, ";");
                assert(cs.take(j + 1).drop_last() =~= cs.take(j as int));
                assert(out@ =~= after_decl + edge_lines(id@, cs.take(j + 1)));
                j = j + 1;
            }
            assert(cs.take(j as int) =~= cs);
            assert(g.take(i + 1).drop_last() =~= g.take(i as int));
            assert(out@ =~= head + node_lines(g.take(i + 1)));
            i = i + 1;
        }
        assert(g.take(i as int) =~= g);
        out.push('\n');
        out.push('}');
        assert(out@ =~= dot_text(g));
        string_from_chars(&out)
    }
}

/// A graph as a flat listing of nodes and edges.
#[derive(Debug)]
pub struct GraphDto {
    pub nodes: Vec<NodeDto>,
    pub edges: Vec<EdgeDto>,
}

#[derive(Debug)]
pub struct NodeDto {
    pub id: String,
    pub label: String,
    pub package: Option<String>,
    pub location: Option<String>,
}

#[derive(Debug)]
pub struct EdgeDto {
    pub from: String,
    pub to: String,
    pub label: Option<String>,
}

/// The edges of `g`: node after node, each callee in its order.
pub open spec fn graph_edges(g: Seq<NodeView>) -> Seq<(Seq<char>, Seq<char>)>
    decreases g.len(),
{
    if g.len() == 0 {
        Seq::empty()
    } else {
        graph_edges(g.drop_last()) + g.last().callees.map_values(|c: Seq<char>| (g.last().id, c))
    }
}

/// `dto` lists the nodes of `g` by id and display label, and its edges,
/// each labelled `call`.
pub open spec fn dto_of(dto: GraphDto, g: Seq<NodeView>) -> bool {
    &&& dto.nodes.len() == g.len()
    &&& forall|i: int| 0 <= i < g.len() ==> {
        &&& (#[trigger] dto.nodes[i]).id@ == g[i].id
        &&& dto.nodes[i].label@ == display_label(g[i])
        &&& dto.nodes[i].package is None
        &&& dto.nodes[i].location is None
    }
    &&& dto.edges@.map_values(|e: EdgeDto| (e.from@, e.to@)) == graph_edges(g)
    &&& forall|i: int| 0 <= i < dto.edges.len() ==> (#[trigger] dto.edges[i]).label.deep_view() == Some("call"@)
}

impl GraphDto {
    /// The flat listing of `cg`.
    pub fn from(cg: CallGraph) -> (r: GraphDto)
        ensures
            dto_of(r, cg@),
    {
        let ghost g = cg@;
        let mut nodes: Vec<NodeDto> = Vec::new();
        let mut edges: Vec<EdgeDto> = Vec::new();
        let mut i: usize = 0;
        assert(g.take(0) =~= Seq::<NodeView>::empty());
        while i < cg.nodes.len()
            invariant
                i <= cg.nodes.len(),
                g == cg@,
                nodes.len() == i,
                forall|x: int| 0 <= x < i ==> {
                    &&& (#[trigger] nodes[x]).id@ == g[x].id
                    &&& nodes[x].label@ == display_label(g[x])
                    &&& nodes[x].package is None
                    &&& nodes[x].location is None
                },
                edges@.map_values(|e: EdgeDto| (e.from@, e.to@)) == graph_edges(g.take(i as int)),
                forall|x: int| 0 <= x < edges.len() ==> (#[trigger] edges[x]).label.deep_view() == Some("call"@),
            decreases cg.nodes.len() - i,
        {
            let n = &cg.nodes[i];
            assert(g[i as int] == n@);
            let label = match &n.label {
                Some(l) => l.clone(),
                None => n.id.clone(),
            };
            nodes.push(NodeDto { id: n.id.clone(), label, package: None, location: None });
            let ghost e0 = edges@.map_values(|e: EdgeDto| (e.from@, e.to@));
            let ghost cs = n@.callees;
            let mut j: usize = 0;
            assert(cs.take(0).map_values(|c: Seq<char>| (n.id@, c)) =~= Seq::<(Seq<char>, Seq<char>)>::empty());
            while j < n.callees.len()
                invariant
                    j <= n.callees.len(),
                    n == &cg.nodes[i as int],
                    i < cg.nodes.len(),
                    cs == n@.callees,
                    edges@.map_values(|e: EdgeDto| (e.from@, e.to@)) == e0 + cs.take(j as int).map_values(
                        |c: Seq<char>| (n.id@, c),
                    ),
                    forall|x: int| 0 <= x < edges.len() ==> (#[trigger] edges[x]).label.deep_view() == Some("call"@),
                decreases n.callees.len() - j,
            {
                let e = EdgeDto { from: n.id.clone(), to: n.callees[j].clone(), label: Some("call".to_owned()) };
                assert(cs[j as int] == e.to@);
                let ghost before = edges@;
                edges.push(e);
                assert(edges@.map_values(|e: EdgeDto| (e.from@, e.to@)) =~= before.map_values(
                    |e: EdgeDto| (e.from@, e.to@),
                ).push((n.id@, cs[j as int])));
                assert(cs.take(j + 1).map_values(|c: Seq<char>| (n.id@, c)) =~= cs.take(j as int).map_values(
                    |c: Seq<char>| (n.id@, c),
                ).push((n.id@, cs[j as int])));
                j = j + 1;
            }
            assert(cs.take(j as int) =~= cs);
            assert(g.take(i + 1).drop_last() =~= g.take(i as int));
            i = i + 1;
        }
        assert(g.take(i as int) =~= g);
        GraphDto { nodes, edges }
    }
}

} // verus!
