//! The path explorer: a bounded depth-first enumeration of call paths, used
//! for forward traces, reverse queries and full path expansion.
use vstd::prelude::*;
use crate::graph::{CallGraph, NodeView};
use crate::source_manager::{SourceManager, location_snippet};

verus! {

/// One step of a call path.
#[derive(Debug, Clone)]
pub struct TraceStep {
    pub id: String,
    /// The label of the step's node, if the node is in the graph and has one.
    pub location: Option<String>,
    pub depth: usize,
    /// The source line at the location, where one is known.
    pub snippet: Option<String>,
    /// Set on a step that closes a cycle.
    pub note: Option<String>,
}

/// A call path, from the start node on.
#[derive(Debug, Clone)]
pub struct TracePath {
    pub steps: Vec<TraceStep>,
}

pub struct StepView {
    pub id: Seq<char>,
    pub location: Option<Seq<char>>,
    pub depth: nat,
    pub snippet: Option<Seq<char>>,
    pub note: Option<Seq<char>>,
}

impl View for TraceStep {
    type V = StepView;

    open spec fn view(&self) -> StepView {
        StepView {
            id: self.id@,
            location: self.location.deep_view(),
            depth: self.depth as nat,
            snippet: self.snippet.deep_view(),
            note: self.note.deep_view(),
        }
    }
}

pub open spec fn steps_view(steps: Seq<TraceStep>) -> Seq<StepView> {
    steps.map_values(|s: TraceStep| s@)
}

impl View for TracePath {
    type V = Seq<StepView>;

    open spec fn view(&self) -> Seq<StepView> {
        steps_view(self.steps@)
    }
}

pub open spec fn paths_view(paths: Seq<TracePath>) -> Seq<Seq<StepView>> {
    paths.map_values(|p: TracePath| p@)
}

/// What happens when a path reaches a node that is already on it.
#[derive(Debug, Clone, Copy, PartialEq, Eq, Structural)]
pub enum CyclePolicy {
    /// Mark the step as closing a cycle, keep the path, and go no further.
    MarkAndStop,
    /// Drop the path silently.
    Skip,
}

/// A configuration of the bounded depth-first search.
#[derive(Debug, Clone)]
pub struct PathExplorer {
    /// Paths are cut, and kept, at this many steps.
    pub max_depth: Option<usize>,
    /// No more than this many paths are returned.
    pub max_paths: Option<usize>,
    pub cycle_policy: CyclePolicy,
    /// When set, only the paths that end at this node are kept, and the
    /// search goes no further than it.
    pub target: Option<String>,
}

pub struct ExplorerView {
    pub max_depth: Option<usize>,
    pub max_paths: Option<usize>,
    pub cycle_policy: CyclePolicy,
    pub target: Option<Seq<char>>,
}

impl View for PathExplorer {
    type V = ExplorerView;

    open spec fn view(&self) -> ExplorerView {
        ExplorerView {
            max_depth: self.max_depth,
            max_paths: self.max_paths,
            cycle_policy: self.cycle_policy,
            target: self.target.deep_view(),
        }
    }
}

/// The text of the note on a step that closes a cycle.
pub open spec fn cycle_note() -> Seq<char> {
    "[Cycle Detected]"@
}

/// The first node of `g` with id `id`.
pub open spec fn node_at(g: Seq<NodeView>, id: Seq<char>) -> Option<NodeView>
    decreases g.len(),
{
    if g.len() == 0 {
        None
    } else if g[0].id == id {
        Some(g[0])
    } else {
        node_at(g.drop_first(), id)
    }
}

/// A finished path is kept, unless the search looks for a target.
pub open spec fn accept(cfg: ExplorerView, p: Seq<StepView>) -> Seq<Seq<StepView>> {
    if cfg.target is None {
        seq![p]
    } else {
        Seq::empty()
    }
}

/// The step at `id`: its node's label, and a note where it closes a cycle.
pub open spec fn step_at(g: Seq<NodeView>, id: Seq<char>, depth: nat, anc: Seq<Seq<char>>) -> StepView {
    StepView {
        id: id,
        location: match node_at(g, id) {
            Some(n) => n.label,
            None => None,
        },
        depth: depth,
        snippet: None,
        note: if anc.contains(id) {
            Some(cycle_note())
        } else {
            None
        },
    }
}

/// The paths the search finds from `id`, in the order it finds them, with
/// no cap on their number: `path` holds the steps before `id`, `anc` the
/// ids on them.  A node already on the path closes a cycle; a node that is
/// not in the graph, or that calls nothing, ends its path.  (Ancestors are
/// distinct nodes of `g`, so the search never holds as many ancestors as
/// `g` has nodes; the test on `anc.len()` only makes termination evident.)
pub open spec fn explore(
    g: Seq<NodeView>,
    cfg: ExplorerView,
    id: Seq<char>,
    depth: nat,
    path: Seq<StepView>,
    anc: Seq<Seq<char>>,
) -> Seq<Seq<StepView>>
    decreases g.len() - anc.len(), 1nat, 0nat,
{
    if cfg.max_depth matches Some(d) && depth >= d {
        accept(cfg, path)
    } else {
        let p = path.push(step_at(g, id, depth, anc));
        if anc.contains(id) {
            if cfg.cycle_policy == CyclePolicy::MarkAndStop {
                accept(cfg, p)
            } else {
                Seq::empty()
            }
        } else if cfg.target == Some(id) {
            seq![p]
        } else {
            match node_at(g, id) {
                None => accept(cfg, p),
                Some(n) => if n.callees.len() == 0 || anc.len() >= g.len() {
                    accept(cfg, p)
                } else {
                    explore_list(g, cfg, n.callees, depth + 1, p, anc.push(id))
                },
            }
        }
    }
}

/// The paths that the callees `cs` give, one callee after the other.
pub open spec fn explore_list(
    g: Seq<NodeView>,
    cfg: ExplorerView,
    cs: Seq<Seq<char>>,
    depth: nat,
    path: Seq<StepView>,
    anc: Seq<Seq<char>>,
) -> Seq<Seq<StepView>>
    decreases g.len() - anc.len() + 1, 0nat, cs.len(),
{
    if cs.len() == 0 || anc.len() > g.len() {
        Seq::empty()
    } else {
        explore_list(g, cfg, cs.drop_last(), depth, path, anc) + explore(
            g,
            cfg,
            cs.last(),
            depth,
            path,
            anc,
        )
    }
}

/// `s` cut to at most `cap` items.
pub open spec fn capped<A>(s: Seq<A>, cap: Option<usize>) -> Seq<A> {
    match cap {
        Some(p) => if s.len() <= p {
            s
        } else {
            s.take(p as int)
        },
        None => s,
    }
}

proof fn lemma_capped_append<A>(a: Seq<A>, b: Seq<A>, cap: Option<usize>)
    ensures
        capped(capped(a, cap) + b, cap) == capped(a + b, cap),
{
    if let Some(p) = cap {
        if a.len() > p {
            assert((a.take(p as int) + b).take(p as int) =~= a.take(p as int));
            assert((a + b).take(p as int) =~= a.take(p as int));
        }
    }
}

proof fn lemma_capped_full<A>(a: Seq<A>, b: Seq<A>, p: usize)
    requires
        a.len() == p,
    ensures
        capped(a + b, Some(p)) == a,
{
    assert((a + b).take(p as int) =~= a);
}

/// An ancestor list the search can hold: distinct ids of nodes of `g`.
pub open spec fn ancestors_ok(g: Seq<NodeView>, anc: Seq<Seq<char>>) -> bool {
    &&& anc.no_duplicates()
    &&& forall|i: int| 0 <= i < anc.len() ==> (#[trigger] node_at(g, anc[i])) is Some
}

proof fn lemma_node_at_in(g: Seq<NodeView>, id: Seq<char>)
    ensures
        node_at(g, id) is Some <==> g.map_values(|n: NodeView| n.id).contains(id),
        node_at(g, id) matches Some(n) ==> n.id == id,
    decreases g.len(),
{
    let ids = g.map_values(|n: NodeView| n.id);
    if g.len() > 0 {
        let t = g.drop_first();
        lemma_node_at_in(t, id);
        let tids = t.map_values(|n: NodeView| n.id);
        assert(tids =~= ids.drop_first());
        if tids.contains(id) {
            let i = choose|i: int| 0 <= i < tids.len() && tids[i] == id;
            assert(ids[i + 1] == id);
        }
        if ids.contains(id) && g[0].id != id {
            let i = choose|i: int| 0 <= i < ids.len() && ids[i] == id;
            assert(tids[i - 1] == id);
        }
        assert(ids[0] == g[0].id);
    }
}

/// Distinct ancestors that are all nodes are fewer than the nodes, as long
/// as one more node is not among them.
proof fn lemma_ancestors_bound(g: Seq<NodeView>, anc: Seq<Seq<char>>, id: Seq<char>)
    requires
        ancestors_ok(g, anc),
        !anc.contains(id),
        node_at(g, id) is Some,
    ensures
        anc.len() < g.len(),
{
    let ids = g.map_values(|n: NodeView| n.id);
    let a2 = anc.push(id);
    assert(a2.no_duplicates()) by {
        assert forall|i: int, j: int| 0 <= i < j < a2.len() implies a2[i] != a2[j] by {
            if j == anc.len() {
                assert(anc.contains(a2[i]));
            }
        }
    }
    lemma_node_at_in(g, id);
    assert(a2.to_set().subset_of(ids.to_set())) by {
        assert forall|x: Seq<char>| a2.to_set().contains(x) implies ids.to_set().contains(x) by {
            let i = choose|i: int| 0 <= i < a2.len() && a2[i] == x;
            if i < anc.len() {
                assert(node_at(g, anc[i]) is Some);
                lemma_node_at_in(g, anc[i]);
            }
        }
    }
    a2.unique_seq_to_set();
    ids.lemma_cardinality_of_set();
    vstd::set_lib::lemma_len_subset(a2.to_set(), ids.to_set());
}

/// A prefix of the callees gives a prefix of the paths.
proof fn lemma_explore_list_prefix(
    g: Seq<NodeView>,
    cfg: ExplorerView,
    cs: Seq<Seq<char>>,
    k: int,
    depth: nat,
    path: Seq<StepView>,
    anc: Seq<Seq<char>>,
)
    requires
        0 <= k <= cs.len(),
    ensures
        ({
            let all = explore_list(g, cfg, cs, depth, path, anc);
            let pre = explore_list(g, cfg, cs.take(k), depth, path, anc);
            pre.len() <= all.len() && all.take(pre.len() as int) == pre
        }),
    decreases cs.len(),
{
    let all = explore_list(g, cfg, cs, depth, path, anc);
    if k == cs.len() {
        assert(cs.take(k) =~= cs);
        assert(all.take(all.len() as int) =~= all);
    } else {
        let t = cs.drop_last();
        assert(t.take(k) =~= cs.take(k));
        lemma_explore_list_prefix(g, cfg, t, k, depth, path, anc);
        let mid = explore_list(g, cfg, t, depth, path, anc);
        let pre = explore_list(g, cfg, cs.take(k), depth, path, anc);
        if anc.len() <= g.len() {
            assert(all == mid + explore(g, cfg, cs.last(), depth, path, anc));
            assert(all.take(pre.len() as int) =~= mid.take(pre.len() as int));
        } else {
            assert(pre =~= Seq::<Seq<StepView>>::empty());
            assert(all.take(0) =~= Seq::<Seq<StepView>>::empty());
        }
    }
}

pub open spec fn ids_view(v: Seq<String>) -> Seq<Seq<char>> {
    v.map_values(|s: String| s@)
}

/// The index of the first node of `g` with id `id`.
fn find_node(g: &CallGraph, id: &String) -> (r: Option<usize>)
    ensures
        match r {
            Some(i) => i < g.nodes.len() && node_at(g@, id@) == Some(g@[i as int]),
            None => node_at(g@, id@) is None,
        },
{
    let ghost gv = g@;
    let mut i: usize = 0;
    assert(gv.skip(0) =~= gv);
    while i < g.nodes.len()
        invariant
            i <= g.nodes.len(),
            gv == g@,
            node_at(gv, id@) == node_at(gv.skip(i as int), id@),
        decreases g.nodes.len() - i,
    {
        assert(gv.skip(i as int)[0] == gv[i as int]);
        if g.nodes[i].id == *id {
            return Some(i);
        }
        assert(gv.skip(i as int).drop_first() =~= gv.skip(i + 1));
        i = i + 1;
    }
    None
}

/// Whether `id` is among `anc`.
fn on_path(anc: &Vec<String>, id: &String) -> (r: bool)
    ensures
        r == ids_view(anc@).contains(id@),
{
    let mut i: usize = 0;
    while i < anc.len()
        invariant
            i <= anc.len(),
            forall|j: int| 0 <= j < i ==> anc[j]@ != id@,
        decreases anc.len() - i,
    {
        if anc[i] == *id {
            assert(ids_view(anc@)[i as int] == id@);
            return true;
        }
        i = i + 1;
    }
    assert(!ids_view(anc@).contains(id@)) by {
        if ids_view(anc@).contains(id@) {
            let j = choose|j: int| 0 <= j < anc.len() && ids_view(anc@)[j] == id@;
            assert(anc[j]@ == id@);
        }
    }
    false
}

fn copy_text(o: &Option<String>) -> (r: Option<String>)
    ensures
        r.deep_view() == o.deep_view(),
{
    match o {
        Some(s) => Some(s.clone()),
        None => None,
    }
}

fn copy_steps(steps: &Vec<TraceStep>) -> (r: Vec<TraceStep>)
    ensures
        steps_view(r@) == steps_view(steps@),
{
    let mut r: Vec<TraceStep> = Vec::new();
    let mut i: usize = 0;
    while i < steps.len()
        invariant
            i <= steps.len(),
            steps_view(r@) == steps_view(steps@).take(i as int),
        decreases steps.len() - i,
    {
        let s = &steps[i];
        let c = TraceStep {
            id: s.id.clone(),
            location: copy_text(&s.location),
            depth: s.depth,
            snippet: copy_text(&s.snippet),
            note: copy_text(&s.note),
        };
        let ghost before = steps_view(r@);
        r.push(c);
        assert(steps_view(r@) =~= before.push(s@));
        assert(steps_view(steps@).take(i + 1) =~= steps_view(steps@).take(i as int).push(s@));
        i = i + 1;
    }
    assert(steps_view(steps@).take(i as int) =~= steps_view(steps@));
    r
}

impl PathExplorer {
    /// Keep the current path as a result, unless the search looks for a target.
    fn commit(&self, path: &Vec<TraceStep>, results: &mut Vec<TracePath>)
        requires
            self.max_paths matches Some(p) ==> old(results).len() < p,
        ensures
            paths_view(final(results)@) == capped(
                paths_view(old(results)@) + accept(self@, steps_view(path@)),
                self.max_paths,
            ),
    {
        let ghost before = paths_view(results@);
        if self.target.is_none() {
            results.push(TracePath { steps: copy_steps(path) });
            assert(paths_view(results@) =~= before + seq![steps_view(path@)]);
        } else {
            assert(before + accept(self@, steps_view(path@)) =~= before);
        }
    }

    fn dfs(
        &self,
        g: &CallGraph,
        id: &String,
        depth: usize,
        path: &mut Vec<TraceStep>,
        anc: &mut Vec<String>,
        results: &mut Vec<TracePath>,
    )
        requires
            ancestors_ok(g@, ids_view(old(anc)@)),
            depth == old(anc).len(),
            self.max_paths matches Some(p) ==> old(results).len() <= p,
        ensures
            steps_view(final(path)@) == steps_view(old(path)@),
            ids_view(final(anc)@) == ids_view(old(anc)@),
            final(anc).len() == old(anc).len(),
            paths_view(final(results)@) == capped(
                paths_view(old(results)@) + explore(
                    g@,
                    self@,
                    id@,
                    depth as nat,
                    steps_view(old(path)@),
                    ids_view(old(anc)@),
                ),
                self.max_paths,
            ),
        decreases g.nodes.len() - old(anc).len(),
    {
        let ghost gv = g@;
        let ghost cfg = self@;
        let ghost old_path = steps_view(path@);
        let ghost av = ids_view(anc@);
        let ghost before = paths_view(results@);
        let ghost all = explore(gv, cfg, id@, depth as nat, old_path, av);
        if let Some(p) = self.max_paths {
            if results.len() >= p {
                proof {
                    lemma_capped_full(before, all, p);
                }
                return;
            }
        }
        if let Some(d) = self.max_depth {
            if depth >= d {
                self.commit(path, results);
                return;
            }
        }
        let node = find_node(g, id);
        let cyc = on_path(anc, id);
        let location = match node {
            Some(i) => copy_text(&g.nodes[i].label),
            None => None,
        };
        let note = if cyc {
            Some("[Cycle Detected]".to_owned())
        } else {
            None
        };
        let step = TraceStep { id: id.clone(), location, depth, snippet: None, note };
        assert(step@ == step_at(gv, id@, depth as nat, av));
        path.push(step);
        let ghost p = steps_view(path@);
        assert(p =~= old_path.push(step_at(gv, id@, depth as nat, av)));
        let is_target = match &self.target {
            Some(t) => *t == *id,
            None => false,
        };
        if cyc {
            if self.cycle_policy == CyclePolicy::MarkAndStop {
                self.commit(path, results);
            } else {
                assert(before + Seq::<Seq<StepView>>::empty() =~= before);
                proof {
                    if let Some(mp) = self.max_paths {
                        assert(before.len() <= mp);
                    }
                }
            }
        } else if is_target {
            let ghost b2 = paths_view(results@);
            results.push(TracePath { steps: copy_steps(path) });
            assert(paths_view(results@) =~= b2 + seq![p]);
        } else {
            match node {
                None => {
                    self.commit(path, results);
                },
                Some(i) => {
                    if g.nodes[i].callees.len() == 0 {
                        self.commit(path, results);
                    } else {
                        proof {
                            crate::trace::lemma_ancestors_bound(gv, av, id@);
                        }
                        let ghost n = gv[i as int];
                        anc.push(id.clone());
                        let ghost av2 = ids_view(anc@);
                        assert(av2 =~= av.push(id@));
                        assert(ancestors_ok(gv, av2)) by {
                            assert forall|x: int, y: int| 0 <= x < y < av2.len() implies av2[x] != av2[y] by {
                                if y == av.len() {
                                    assert(av.contains(av2[x]));
                                }
                            }
                            assert forall|x: int| 0 <= x < av2.len() implies (#[trigger] node_at(gv, av2[x])) is Some by {
                                if x < av.len() {
                                    assert(av2[x] == av[x]);
                                }
                            }
                        }
                        let callees = &g.nodes[i].callees;
                        let ghost cs = n.callees;
                        assert(cs == ids_view(callees@));
                        let mut k: usize = 0;
                        assert(cs.take(0) =~= Seq::<Seq<char>>::empty());
                        assert(before + Seq::<Seq<StepView>>::empty() =~= before);
                        proof {
                            if let Some(mp) = self.max_paths {
                                assert(before.len() <= mp);
                            }
                        }
                        while k < callees.len()
                            invariant
                                k <= callees.len(),
                                cs == ids_view(callees@),
                                callees == &g.nodes[i as int].callees,
                                i < g.nodes.len(),
                                gv == g@,
                                g.nodes.len() == gv.len(),
                                av.len() == old(anc).len(),
                                cfg == self@,
                                ancestors_ok(gv, av2),
                                av2 == av.push(id@),
                                av.len() < gv.len(),
                                ids_view(anc@) == av2,
                                anc.len() == av2.len(),
                                depth == av.len(),
                                steps_view(path@) == p,
                                paths_view(results@) == capped(
                                    before + explore_list(gv, cfg, cs.take(k as int), (depth + 1) as nat, p, av2),
                                    self.max_paths,
                                ),
                            ensures
                                k == callees.len() || (self.max_paths matches Some(mp) && results.len() >= mp),
                            decreases callees.len() - k,
                        {
                            let ghost b2 = paths_view(results@);
                            proof {
                                if let Some(mp) = self.max_paths {
                                    assert(b2.len() <= mp);
                                }
                            }
                            self.dfs(g, &callees[k], depth + 1, path, anc, results);
                            proof {
                                let pre = explore_list(gv, cfg, cs.take(k as int), (depth + 1) as nat, p, av2);
                                let e = explore(gv, cfg, cs[k as int], (depth + 1) as nat, p, av2);
                                assert(cs.take(k + 1).drop_last() =~= cs.take(k as int));
                                assert(cs.take(k + 1).last() == cs[k as int]);
                                assert(explore_list(gv, cfg, cs.take(k + 1), (depth + 1) as nat, p, av2) == pre + e);
                                lemma_capped_append(before + pre, e, self.max_paths);
                                assert(before + pre + e =~= before + (pre + e));
                            }
                            k = k + 1;
                            if let Some(mp) = self.max_paths {
                                if results.len() >= mp {
                                    break;
                                }
                            }
                        }
                        proof {
                            let whole = explore_list(gv, cfg, cs, (depth + 1) as nat, p, av2);
                            let pre = explore_list(gv, cfg, cs.take(k as int), (depth + 1) as nat, p, av2);
                            lemma_explore_list_prefix(gv, cfg, cs, k as int, (depth + 1) as nat, p, av2);
                            if k < cs.len() {
                                let mp = self.max_paths->0;
                                let x = before + pre;
                                let y = before + whole;
                                assert(capped(x, self.max_paths).len() >= mp);
                                assert(x.len() >= mp);
                                assert(y.take(x.len() as int) =~= x) by {
                                    assert(whole.take(pre.len() as int) == pre);
                                }
                                assert(y.take(mp as int) =~= x.take(mp as int));
                            } else {
                                assert(cs.take(k as int) =~= cs);
                            }
                            assert(all == explore_list(gv, cfg, cs, (depth + 1) as nat, p, av2));
                        }
                        let ghost a_before = anc@;
                        anc.pop();
                        assert(anc@ =~= a_before.drop_last());
                        assert(ids_view(anc@) =~= ids_view(a_before).drop_last());
                        assert(av2.drop_last() =~= av);
                    }
                },
            }
        }
        let ghost p_before = path@;
        path.pop();
        assert(path@ =~= p_before.drop_last());
        assert(steps_view(path@) =~= steps_view(p_before).drop_last());
        assert(p.drop_last() =~= old_path);
    }
}

impl PathExplorer {
    /// Forward trace: paths of at most 30 steps, at most 50 of them, and a
    /// step that closes a cycle is marked and ends its path.
    pub fn forward_trace() -> (e: PathExplorer)
        ensures
            e@ == (ExplorerView {
                max_depth: Some(30),
                max_paths: Some(50),
                cycle_policy: CyclePolicy::MarkAndStop,
                target: None,
            }),
    {
        PathExplorer {
            max_depth: Some(30),
            max_paths: Some(50),
            cycle_policy: CyclePolicy::MarkAndStop,
            target: None,
        }
    }

    /// Reverse query: every simple path that reaches `target`, with no cap.
    pub fn reverse_query(target: String) -> (e: PathExplorer)
        ensures
            e@ == (ExplorerView {
                max_depth: None,
                max_paths: None,
                cycle_policy: CyclePolicy::Skip,
                target: Some(target@),
            }),
    {
        PathExplorer { max_depth: None, max_paths: None, cycle_policy: CyclePolicy::Skip, target: Some(target) }
    }

    /// Path expansion: every simple path, cut at 128 steps.
    pub fn expand_paths() -> (e: PathExplorer)
        ensures
            e@ == (ExplorerView {
                max_depth: Some(128),
                max_paths: None,
                cycle_policy: CyclePolicy::Skip,
                target: None,
            }),
    {
        PathExplorer { max_depth: Some(128), max_paths: None, cycle_policy: CyclePolicy::Skip, target: None }
    }

    /// The paths from `start`, in the order the search finds them, cut to
    /// the cap on their number.
    pub fn generate_paths(&self, graph: &CallGraph, start: &String) -> (r: Vec<TracePath>)
        ensures
            paths_view(r@) == capped(
                explore(graph@, self@, start@, 0, Seq::empty(), Seq::empty()),
                self.max_paths,
            ),
    {
        let mut results: Vec<TracePath> = Vec::new();
        let mut path: Vec<TraceStep> = Vec::new();
        let mut anc: Vec<String> = Vec::new();
        assert(ids_view(anc@) =~= Seq::<Seq<char>>::empty());
        assert(steps_view(path@) =~= Seq::<StepView>::empty());
        assert(paths_view(results@) =~= Seq::<Seq<StepView>>::empty());
        self.dfs(graph, start, 0, &mut path, &mut anc, &mut results);
        assert(Seq::<Seq<StepView>>::empty() + explore(graph@, self@, start@, 0, Seq::empty(), Seq::empty())
            =~= explore(graph@, self@, start@, 0, Seq::empty(), Seq::empty()));
        results
    }
}

proof fn lemma_explore_len(
    g: Seq<NodeView>,
    cfg: ExplorerView,
    id: Seq<char>,
    depth: nat,
    path: Seq<StepView>,
    anc: Seq<Seq<char>>,
    d: usize,
)
    requires
        cfg.max_depth == Some(d),
        path.len() == depth,
        depth <= d,
    ensures
        forall|i: int| 0 <= i < explore(g, cfg, id, depth, path, anc).len() ==> (#[trigger] explore(g, cfg, id, depth, path, anc)[i]).len() <= d,
    decreases g.len() - anc.len(), 1nat, 0nat,
{
    let r = explore(g, cfg, id, depth, path, anc);
    let p = path.push(step_at(g, id, depth, anc));
    let descends = depth < d && !anc.contains(id) && cfg.target != Some(id) && node_at(g, id) is Some
        && node_at(g, id)->0.callees.len() > 0 && anc.len() < g.len();
    if descends {
        lemma_explore_list_len(g, cfg, node_at(g, id)->0.callees, depth + 1, p, anc.push(id), d);
        assert(r == explore_list(g, cfg, node_at(g, id)->0.callees, depth + 1, p, anc.push(id)));
    } else {
        assert forall|i: int| 0 <= i < r.len() implies (#[trigger] r[i]).len() <= d by {
            if depth >= d {
                assert(r[i] == path);
            } else {
                assert(r[i] == p);
            }
        }
    }
}

proof fn lemma_explore_list_len(
    g: Seq<NodeView>,
    cfg: ExplorerView,
    cs: Seq<Seq<char>>,
    depth: nat,
    path: Seq<StepView>,
    anc: Seq<Seq<char>>,
    d: usize,
)
    requires
        cfg.max_depth == Some(d),
        path.len() == depth,
        depth <= d,
    ensures
        forall|i: int| 0 <= i < explore_list(g, cfg, cs, depth, path, anc).len() ==> (#[trigger] explore_list(g, cfg, cs, depth, path, anc)[i]).len() <= d,
    decreases g.len() - anc.len() + 1, 0nat, cs.len(),
{
    if cs.len() > 0 && anc.len() <= g.len() {
        lemma_explore_list_len(g, cfg, cs.drop_last(), depth, path, anc, d);
        lemma_explore_len(g, cfg, cs.last(), depth, path, anc, d);
        let a = explore_list(g, cfg, cs.drop_last(), depth, path, anc);
        let b = explore(g, cfg, cs.last(), depth, path, anc);
        assert forall|i: int| 0 <= i < (a + b).len() implies (#[trigger] (a + b)[i]).len() <= d by {
            if i < a.len() {
                assert((a + b)[i] == a[i]);
            } else {
                assert((a + b)[i] == b[i - a.len()]);
            }
        }
    }
}

/// With a cap of `d` steps and of `p` paths, the search from any node of
/// any graph, cycles included, returns at most `p` paths of at most `d`
/// steps each.
pub proof fn lemma_paths_bounded(g: Seq<NodeView>, cfg: ExplorerView, start: Seq<char>, d: usize, p: usize)
    requires
        cfg.max_depth == Some(d),
        cfg.max_paths == Some(p),
    ensures
        capped(explore(g, cfg, start, 0, Seq::empty(), Seq::empty()), cfg.max_paths).len() <= p,
        forall|i: int| 0 <= i < capped(explore(g, cfg, start, 0, Seq::empty(), Seq::empty()), cfg.max_paths).len()
            ==> (#[trigger] capped(explore(g, cfg, start, 0, Seq::empty(), Seq::empty()), cfg.max_paths)[i]).len() <= d,
{
    let all = explore(g, cfg, start, 0, Seq::empty(), Seq::empty());
    lemma_explore_len(g, cfg, start, 0, Seq::empty(), Seq::empty(), d);
    let r = capped(all, cfg.max_paths);
    assert forall|i: int| 0 <= i < r.len() implies (#[trigger] r[i]).len() <= d by {
        assert(r[i] == all[i]);
    }
}

/// The step `s` with the source line at its location.
pub open spec fn with_snippet(s: StepView, m: Map<Seq<char>, Seq<Seq<char>>>) -> StepView {
    StepView {
        snippet: match s.location {
            Some(l) => location_snippet(m, l),
            None => None,
        },
        ..s
    }
}

/// Each step of `paths` with the source line at its location.
pub open spec fn with_snippets(paths: Seq<Seq<StepView>>, m: Map<Seq<char>, Seq<Seq<char>>>) -> Seq<Seq<StepView>> {
    paths.map_values(|p: Seq<StepView>| p.map_values(|s: StepView| with_snippet(s, m)))
}

/// Forward traces over one graph, each step shown with its source line.
pub struct TraceGenerator<'a> {
    graph: &'a CallGraph,
    source_manager: &'a SourceManager,
    max_depth: usize,
    max_paths: usize,
}

impl<'a> TraceGenerator<'a> {
    /// A generator with the forward-trace caps: 30 steps, 50 paths.
    pub fn new(graph: &'a CallGraph, source_manager: &'a SourceManager) -> (t: TraceGenerator<'a>)
        ensures
            t.graph() == graph,
            t.source_manager() == source_manager,
            t.max_depth() == 30,
            t.max_paths() == 50,
    {
        TraceGenerator { graph, source_manager, max_depth: 30, max_paths: 50 }
    }

    pub closed spec fn graph(&self) -> &'a CallGraph {
        self.graph
    }

    pub closed spec fn source_manager(&self) -> &'a SourceManager {
        self.source_manager
    }

    pub closed spec fn max_depth(&self) -> usize {
        self.max_depth
    }

    pub closed spec fn max_paths(&self) -> usize {
        self.max_paths
    }

    fn decorate(&self, paths: &Vec<TracePath>) -> (r: Vec<TracePath>)
        ensures
            paths_view(r@) == with_snippets(paths_view(paths@), self.source_manager().lines()),
    {
        let ghost m = self.source_manager.lines();
        let mut out: Vec<TracePath> = Vec::new();
        let mut i: usize = 0;
        while i < paths.len()
            invariant
                i <= paths.len(),
                m == self.source_manager.lines(),
                paths_view(out@) == with_snippets(paths_view(paths@), m).take(i as int),
            decreases paths.len() - i,
        {
            let p = &paths[i];
            let mut steps: Vec<TraceStep> = Vec::new();
            let mut j: usize = 0;
            while j < p.steps.len()
                invariant
                    j <= p.steps.len(),
                    m == self.source_manager.lines(),
                    steps_view(steps@) == p@.map_values(|s: StepView| with_snippet(s, m)).take(j as int),
                decreases p.steps.len() - j,
            {
                let s = &p.steps[j];
                let snippet = match &s.location {
                    Some(l) => self.source_manager.snippet_at(l.as_str()),
                    None => None,
                };
                let c = TraceStep {
                    id: s.id.clone(),
                    location: copy_text(&s.location),
                    depth: s.depth,
                    snippet,
                    note: copy_text(&s.note),
                };
                let ghost before = steps_view(steps@);
                steps.push(c);
                assert(p@[j as int] == s@);
                assert(steps_view(steps@) =~= before.push(with_snippet(s@, m)));
                assert(p@.map_values(|s: StepView| with_snippet(s, m)).take(j + 1) =~= p@.map_values(
                    |s: StepView| with_snippet(s, m),
                ).take(j as int).push(with_snippet(s@, m)));
                j = j + 1;
            }
            assert(p@.map_values(|s: StepView| with_snippet(s, m)).take(j as int) =~= p@.map_values(
                |s: StepView| with_snippet(s, m),
            ));
            let ghost before = paths_view(out@);
            let np = TracePath { steps };
            out.push(np);
            assert(paths_view(paths@)[i as int] == p@);
            assert(paths_view(out@) =~= before.push(np@));
            assert(with_snippets(paths_view(paths@), m).take(i + 1) =~= with_snippets(paths_view(paths@), m).take(
                i as int,
            ).push(np@));
            i = i + 1;
        }
        assert(with_snippets(paths_view(paths@), m).take(i as int) =~= with_snippets(paths_view(paths@), m));
        out
    }

    /// The forward trace from `start_node_id`: the paths the search finds,
    /// at most the generator's cap of them, each cut at its depth cap, a
    /// step that closes a cycle marked and ending its path; each step shows
    /// the source line at its location.
    pub fn generate_paths(&self, start_node_id: &str) -> (r: Vec<TracePath>)
        ensures
            paths_view(r@) == with_snippets(
                capped(
                    explore(
                        self.graph()@,
                        ExplorerView {
                            max_depth: Some(self.max_depth()),
                            max_paths: Some(self.max_paths()),
                            cycle_policy: CyclePolicy::MarkAndStop,
                            target: None,
                        },
                        start_node_id@,
                        0,
                        Seq::empty(),
                        Seq::empty(),
                    ),
                    Some(self.max_paths()),
                ),
                self.source_manager().lines(),
            ),
    {
        let explorer = PathExplorer {
            max_depth: Some(self.max_depth),
            max_paths: Some(self.max_paths),
            cycle_policy: CyclePolicy::MarkAndStop,
            target: None,
        };
        let start = start_node_id.to_owned();
        let paths = explorer.generate_paths(self.graph, &start);
        self.decorate(&paths)
    }
}

} // verus!
