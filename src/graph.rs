//! The call graph shared by both ingestion pipelines, and the registry that
//! assembles it in canonical form (nodes sorted by id).
use vstd::prelude::*;
use crate::text::{lex_lt, lex_compare, chars_of, lemma_lex_irreflexive, lemma_lex_transitive,
    lemma_lex_asymmetric};

verus! {

/// One function or method of the analyzed code.
#[derive(Debug, Clone)]
pub struct CallGraphNode {
    pub id: String,
    pub label: Option<String>,
    pub callees: Vec<String>,
}

/// The nodes of a call graph; in canonical form they are sorted by id.
#[derive(Debug, Clone)]
pub struct CallGraph {
    pub nodes: Vec<CallGraphNode>,
}

/// The mathematical value of a node.
pub struct NodeView {
    pub id: Seq<char>,
    pub label: Option<Seq<char>>,
    pub callees: Seq<Seq<char>>,
}

impl View for CallGraphNode {
    type V = NodeView;

    open spec fn view(&self) -> NodeView {
        NodeView { id: self.id@, label: self.label.deep_view(), callees: self.callees.deep_view() }
    }
}

impl View for CallGraph {
    type V = Seq<NodeView>;

    open spec fn view(&self) -> Seq<NodeView> {
        self.nodes@.map_values(|n: CallGraphNode| n@)
    }
}

/// A node lists each callee once and never itself.
pub open spec fn node_well_formed(n: NodeView) -> bool {
    &&& n.callees.no_duplicates()
    &&& !n.callees.contains(n.id)
}

/// Node ids are strictly increasing, hence unique.
pub open spec fn ids_strictly_sorted(g: Seq<NodeView>) -> bool {
    forall|i: int, j: int| 0 <= i < j < g.len() ==> lex_lt(#[trigger] g[i].id, #[trigger] g[j].id)
}

/// `g` is the canonical listing of the nodes of `m` (a map from each id to
/// its node): every node of `m` once, in increasing order of id.
pub open spec fn canonical_for(g: Seq<NodeView>, m: Map<Seq<char>, NodeView>) -> bool {
    &&& ids_strictly_sorted(g)
    &&& forall|i: int| 0 <= i < g.len() ==> m.contains_key(#[trigger] g[i].id) && m[g[i].id] == g[i]
    &&& forall|k: Seq<char>| #[trigger] m.contains_key(k) ==> exists|i: int| 0 <= i < g.len() && g[i].id == k
}

/// A well-formed graph: canonical order, and every node well formed.
pub open spec fn graph_well_formed(g: Seq<NodeView>) -> bool {
    &&& ids_strictly_sorted(g)
    &&& forall|i: int| 0 <= i < g.len() ==> node_well_formed(#[trigger] g[i])
}

/// The node `n` after recording a call to `c`: unchanged when `c` is the
/// node itself or is already listed, else `c` is appended.
pub open spec fn with_callee(n: NodeView, c: Seq<char>) -> NodeView {
    if c == n.id || n.callees.contains(c) {
        n
    } else {
        NodeView { callees: n.callees.push(c), ..n }
    }
}

/// Two strictly increasing sequences of ids with the same elements are equal.
proof fn lemma_sorted_ids_unique(a: Seq<Seq<char>>, b: Seq<Seq<char>>)
    requires
        forall|i: int, j: int| 0 <= i < j < a.len() ==> lex_lt(#[trigger] a[i], #[trigger] a[j]),
        forall|i: int, j: int| 0 <= i < j < b.len() ==> lex_lt(#[trigger] b[i], #[trigger] b[j]),
        forall|x: Seq<char>| a.contains(x) <==> b.contains(x),
    ensures
        a == b,
    decreases a.len(),
{
    if a.len() == 0 {
        if b.len() > 0 {
            assert(b.contains(b[0]));
        }
        assert(a =~= b);
    } else if b.len() == 0 {
        assert(a.contains(a[0]));
    } else {
        assert(a.contains(a[0]));
        assert(b.contains(b[0]));
        if a[0] != b[0] {
            let j = choose|j: int| 0 <= j < b.len() && b[j] == a[0];
            let k = choose|k: int| 0 <= k < a.len() && a[k] == b[0];
            assert(j > 0 && k > 0);
            assert(lex_lt(b[0], b[j]));
            assert(lex_lt(a[0], a[k]));
            lemma_lex_asymmetric(a[0], b[0]);
        }
        let ta = a.drop_first();
        let tb = b.drop_first();
        assert forall|x: Seq<char>| ta.contains(x) <==> tb.contains(x) by {
            if ta.contains(x) {
                let i = choose|i: int| 0 <= i < ta.len() && ta[i] == x;
                assert(a[i + 1] == x);
                assert(lex_lt(a[0], x));
                lemma_lex_irreflexive(x);
                assert(b.contains(x));
                let j = choose|j: int| 0 <= j < b.len() && b[j] == x;
                assert(j != 0);
                assert(tb[j - 1] == x);
            }
            if tb.contains(x) {
                let i = choose|i: int| 0 <= i < tb.len() && tb[i] == x;
                assert(b[i + 1] == x);
                assert(lex_lt(b[0], x));
                lemma_lex_irreflexive(x);
                assert(a.contains(x));
                let j = choose|j: int| 0 <= j < a.len() && a[j] == x;
                assert(j != 0);
                assert(ta[j - 1] == x);
            }
        }
        lemma_sorted_ids_unique(ta, tb);
        assert(a =~= seq![a[0]] + ta);
        assert(b =~= seq![b[0]] + tb);
    }
}

/// The canonical listing of a node map is unique: whatever order the nodes
/// were discovered in, the graph that is returned is the same.
pub proof fn lemma_canonical_unique(g1: Seq<NodeView>, g2: Seq<NodeView>, m: Map<Seq<char>, NodeView>)
    requires
        canonical_for(g1, m),
        canonical_for(g2, m),
    ensures
        g1 == g2,
{
    let a = g1.map_values(|n: NodeView| n.id);
    let b = g2.map_values(|n: NodeView| n.id);
    assert forall|i: int, j: int| 0 <= i < j < a.len() implies lex_lt(#[trigger] a[i], #[trigger] a[j]) by {
        assert(lex_lt(g1[i].id, g1[j].id));
    }
    assert forall|i: int, j: int| 0 <= i < j < b.len() implies lex_lt(#[trigger] b[i], #[trigger] b[j]) by {
        assert(lex_lt(g2[i].id, g2[j].id));
    }
    assert forall|x: Seq<char>| a.contains(x) <==> b.contains(x) by {
        if a.contains(x) {
            let i = choose|i: int| 0 <= i < a.len() && a[i] == x;
            assert(m.contains_key(g1[i].id));
            let j = choose|j: int| 0 <= j < g2.len() && g2[j].id == x;
            assert(b[j] == x);
        }
        if b.contains(x) {
            let i = choose|i: int| 0 <= i < b.len() && b[i] == x;
            assert(m.contains_key(g2[i].id));
            let j = choose|j: int| 0 <= j < g1.len() && g1[j].id == x;
            assert(a[j] == x);
        }
    }
    lemma_sorted_ids_unique(a, b);
    assert forall|i: int| 0 <= i < g1.len() implies g1[i] == g2[i] by {
        assert(a[i] == b[i]);
    }
    assert(g1 =~= g2);
}

/// Collects nodes by id, keeping them sorted, so that the finished graph is
/// in canonical form whatever order the nodes were discovered in.
pub struct GraphBuilder {
    nodes: Vec<CallGraphNode>,
    keys: Vec<Vec<char>>,
    model: Ghost<Map<Seq<char>, NodeView>>,
}

/// The result of looking an id up among sorted keys.
pub enum Lookup {
    Found(usize),
    Absent(usize),
}

impl GraphBuilder {
    /// The nodes collected so far, by id.
    pub closed spec fn model(&self) -> Map<Seq<char>, NodeView> {
        self.model@
    }

    pub closed spec fn wf(&self) -> bool {
        &&& self.nodes.len() == self.keys.len()
        &&& forall|i: int| 0 <= i < self.keys.len() ==> #[trigger] self.keys[i]@ == self.nodes[i].id@
        &&& canonical_for(self.nodes@.map_values(|n: CallGraphNode| n@), self.model@)
        &&& forall|k: Seq<char>| #[trigger] self.model@.contains_key(k) ==> self.model@[k].id == k
            && node_well_formed(self.model@[k])
    }

    pub fn new() -> (b: GraphBuilder)
        ensures
            b.wf(),
            b.model() == Map::<Seq<char>, NodeView>::empty(),
    {
        let b = GraphBuilder { nodes: Vec::new(), keys: Vec::new(), model: Ghost(Map::empty()) };
        assert(b.nodes@.map_values(|n: CallGraphNode| n@) =~= Seq::<NodeView>::empty());
        b
    }

    /// Binary search for `key` among the sorted keys.
    fn search(&self, key: &Vec<char>) -> (r: Lookup)
        requires
            self.wf(),
        ensures
            r matches Lookup::Found(i) ==> i < self.keys.len() && self.keys[i as int]@ == key@,
            r matches Lookup::Absent(p) ==> p <= self.keys.len() && (forall|j: int|
                0 <= j < p ==> lex_lt(#[trigger] self.keys[j]@, key@)) && (forall|j: int|
                p <= j < self.keys.len() ==> lex_lt(key@, #[trigger] self.keys[j]@)),
            r is Found <==> self.model().contains_key(key@),
    {
        let ghost g = self.nodes@.map_values(|n: CallGraphNode| n@);
        let mut lo: usize = 0;
        let mut hi: usize = self.keys.len();
        while lo < hi
            invariant
                self.wf(),
                g == self.nodes@.map_values(|n: CallGraphNode| n@),
                lo <= hi <= self.keys.len(),
                forall|j: int| 0 <= j < lo ==> lex_lt(#[trigger] self.keys[j]@, key@),
                forall|j: int| hi <= j < self.keys.len() ==> lex_lt(key@, #[trigger] self.keys[j]@),
            decreases hi - lo,
        {
            let mid = lo + (hi - lo) / 2;
            match lex_compare(&self.keys[mid], key) {
                core::cmp::Ordering::Equal => {
                    assert(g[mid as int].id == key@);
                    return Lookup::Found(mid);
                },
                core::cmp::Ordering::Less => {
                    assert forall|j: int| 0 <= j <= mid implies lex_lt(#[trigger] self.keys[j]@, key@) by {
                        if j < mid {
                            assert(lex_lt(g[j].id, g[mid as int].id));
                            lemma_lex_transitive(self.keys[j]@, self.keys[mid as int]@, key@);
                        }
                    }
                    lo = mid + 1;
                },
                core::cmp::Ordering::Greater => {
                    assert forall|j: int| mid <= j < self.keys.len() implies lex_lt(key@, #[trigger] self.keys[j]@) by {
                        if j > mid {
                            assert(lex_lt(g[mid as int].id, g[j].id));
                            lemma_lex_transitive(key@, self.keys[mid as int]@, self.keys[j]@);
                        }
                    }
                    hi = mid;
                },
            }
        }
        proof {
            if self.model().contains_key(key@) {
                let i = choose|i: int| 0 <= i < g.len() && g[i].id == key@;
                assert(self.keys[i]@ == key@);
                lemma_lex_irreflexive(key@);
            }
        }
        Lookup::Absent(lo)
    }

    /// Whether a node with id `key` has been collected.
    pub fn contains(&self, key: &Vec<char>) -> (r: bool)
        requires
            self.wf(),
        ensures
            r == self.model().contains_key(key@),
    {
        match self.search(key) {
            Lookup::Found(_) => true,
            Lookup::Absent(_) => false,
        }
    }

    /// Register the node `id`, unless it is already there; a new node has
    /// the given label and no callees.
    pub fn get_or_create(&mut self, id: String, label: Option<String>)
        requires
            old(self).wf(),
        ensures
            final(self).wf(),
            final(self).model() == (if old(self).model().contains_key(id@) {
                old(self).model()
            } else {
                old(self).model().insert(
                    id@,
                    NodeView { id: id@, label: label.deep_view(), callees: Seq::empty() },
                )
            }),
    {
        let key = chars_of(id.as_str());
        match self.search(&key) {
            Lookup::Found(_) => {},
            Lookup::Absent(p) => {
                let ghost old_g = self.nodes@.map_values(|n: CallGraphNode| n@);
                let ghost old_m = self.model@;
                let node = CallGraphNode { id, label, callees: Vec::new() };
                let ghost nv = node@;
                assert(nv.callees =~= Seq::<Seq<char>>::empty());
                self.nodes.insert(p, node);
                self.keys.insert(p, key);
                self.model = Ghost(old_m.insert(nv.id, nv));
                let ghost g = self.nodes@.map_values(|n: CallGraphNode| n@);
                assert(g =~= old_g.insert(p as int, nv));
                assert forall|i: int| 0 <= i < self.keys.len() implies #[trigger] self.keys[i]@
                    == self.nodes[i].id@ by {
                    if i > p {
                        assert(self.keys[i] == old(self).keys[i - 1]);
                    }
                }
                assert forall|i: int, j: int| 0 <= i < j < g.len() implies lex_lt(
                    #[trigger] g[i].id,
                    #[trigger] g[j].id,
                ) by {
                    if i < p && j == p {
                        assert(lex_lt(old(self).keys[i]@, key@));
                    } else if i == p && j > p {
                        assert(lex_lt(key@, old(self).keys[j - 1]@));
                    } else if i < p && j > p {
                        assert(lex_lt(old_g[i].id, old_g[j - 1].id));
                    } else if i > p {
                        assert(lex_lt(old_g[i - 1].id, old_g[j - 1].id));
                    }
                }
                assert forall|i: int| 0 <= i < g.len() implies self.model@.contains_key(
                    #[trigger] g[i].id,
                ) && self.model@[g[i].id] == g[i] by {
                    if i < p {
                        assert(g[i] == old_g[i]);
                        assert(old_m.contains_key(old_g[i].id));
                        assert(old_g[i].id != nv.id);
                    } else if i > p {
                        assert(g[i] == old_g[i - 1]);
                        assert(old_m.contains_key(old_g[i - 1].id));
                        assert(old_g[i - 1].id != nv.id) by {
                            assert(lex_lt(key@, old(self).keys[i - 1]@));
                            lemma_lex_irreflexive(key@);
                        }
                    }
                }
                assert forall|k: Seq<char>| #[trigger] self.model@.contains_key(k) implies exists|
                    i: int,
                | 0 <= i < g.len() && g[i].id == k by {
                    if k == nv.id {
                        assert(g[p as int].id == k);
                    } else {
                        assert(old_m.contains_key(k));
                        let i = choose|i: int| 0 <= i < old_g.len() && old_g[i].id == k;
                        if i < p {
                            assert(g[i].id == k);
                        } else {
                            assert(g[i + 1].id == k);
                        }
                    }
                }
                assert(node_well_formed(nv));
            },
        }
    }

    /// Record a call from the node `caller` to `callee`; nothing changes
    /// when there is no such node, when the call is to the node itself, or
    /// when the callee is already listed.
    pub fn add_callee(&mut self, caller: &Vec<char>, callee: &String)
        requires
            old(self).wf(),
        ensures
            final(self).wf(),
            final(self).model() == (if old(self).model().contains_key(caller@) {
                old(self).model().insert(caller@, with_callee(old(self).model()[caller@], callee@))
            } else {
                old(self).model()
            }),
    {
        match self.search(caller) {
            Lookup::Absent(_) => {},
            Lookup::Found(i) => {
                let ghost old_g = self.nodes@.map_values(|n: CallGraphNode| n@);
                let ghost old_m = self.model@;
                assert(old_g[i as int].id == caller@);
                assert(old_m[caller@] == old_g[i as int]);
                if self.nodes[i].id == *callee {
                    return;
                }
                let mut j: usize = 0;
                while j < self.nodes[i].callees.len()
                    invariant
                        self.wf(),
                        self.model@ == old_m,
                        self.nodes@.map_values(|n: CallGraphNode| n@) == old_g,
                        old_m[caller@] == old_g[i as int],
                        *self == *old(self),
                        j <= self.nodes[i as int].callees.len(),
                        i < self.nodes.len(),
                        forall|k: int| 0 <= k < j ==> self.nodes[i as int].callees[k]@ != callee@,
                    decreases self.nodes[i as int].callees.len() - j,
                {
                    if self.nodes[i].callees[j] == *callee {
                        assert(old_g[i as int].callees[j as int] == callee@);
                        assert(old_m[caller@].callees[j as int] == callee@);
                        assert(old_m[caller@].callees.contains(callee@));
                        return;
                    }
                    j = j + 1;
                }
                assert(!old_g[i as int].callees.contains(callee@));
                self.nodes[i].callees.push(callee.clone());
                let ghost nv = with_callee(old_m[caller@], callee@);
                self.model = Ghost(old_m.insert(caller@, nv));
                let ghost g = self.nodes@.map_values(|n: CallGraphNode| n@);
                assert(g[i as int].callees =~= nv.callees);
                assert(g =~= old_g.update(i as int, nv));
                assert forall|x: int| 0 <= x < self.keys.len() implies #[trigger] self.keys[x]@
                    == self.nodes[x].id@ by {
                    assert(self.nodes[x].id == old(self).nodes[x].id);
                }
                assert forall|x: int| 0 <= x < g.len() implies self.model@.contains_key(
                    #[trigger] g[x].id,
                ) && self.model@[g[x].id] == g[x] by {
                    if x != i {
                        assert(old_m.contains_key(old_g[x].id));
                        if x < i {
                            assert(lex_lt(old_g[x].id, old_g[i as int].id));
                        } else {
                            assert(lex_lt(old_g[i as int].id, old_g[x].id));
                        }
                        lemma_lex_irreflexive(old_g[x].id);
                    }
                }
                assert forall|k: Seq<char>| #[trigger] self.model@.contains_key(k) implies exists|
                    x: int,
                | 0 <= x < g.len() && g[x].id == k by {
                    assert(old_m.contains_key(k));
                    let x = choose|x: int| 0 <= x < old_g.len() && old_g[x].id == k;
                    assert(g[x].id == k);
                }
                assert(node_well_formed(nv)) by {
                    assert(old_m.contains_key(caller@));
                    assert(nv.callees.no_duplicates()) by {
                        assert forall|a: int, b: int| 0 <= a < b < nv.callees.len() implies nv.callees[a]
                            != nv.callees[b] by {
                            if b == nv.callees.len() - 1 {
                                assert(nv.callees[a] == old_m[caller@].callees[a]);
                                assert(nv.callees[b] == callee@);
                            }
                        }
                    }
                    assert(!nv.callees.contains(caller@)) by {
                        if nv.callees.contains(caller@) {
                            let x = choose|x: int| 0 <= x < nv.callees.len() && nv.callees[x] == caller@;
                            if x < nv.callees.len() - 1 {
                                assert(old_m[caller@].callees.contains(caller@));
                            }
                        }
                    }
                }
            },
        }
    }

    /// The canonical graph of the collected nodes.
    pub fn finish(self) -> (g: CallGraph)
        requires
            self.wf(),
        ensures
            canonical_for(g@, self.model()),
            graph_well_formed(g@),
    {
        let g = CallGraph { nodes: self.nodes };
        assert forall|i: int| 0 <= i < g@.len() implies node_well_formed(#[trigger] g@[i]) by {
            assert(self.model@.contains_key(g@[i].id));
        }
        g
    }
}

/// An id of a `main` function: it begins with `main@`.
pub open spec fn is_main_id(id: Seq<char>) -> bool {
    id.len() >= 5 && id.take(5) == "main@"@
}

impl CallGraph {
    /// The entry point of traversals: the first node whose id begins with
    /// `main@`.
    pub fn entry_point(&self) -> (r: Option<usize>)
        ensures
            match r {
                Some(i) => i < self.nodes.len() && is_main_id(self.nodes[i as int].id@) && forall|j: int|
                    0 <= j < i ==> !is_main_id(#[trigger] self.nodes[j].id@),
                None => forall|j: int| 0 <= j < self.nodes.len() ==> !is_main_id(#[trigger] self.nodes[j].id@),
            },
    {
        let prefix = chars_of("main@");
        proof {
            reveal_strlit("main@");
        }
        let mut i: usize = 0;
        while i < self.nodes.len()
            invariant
                i <= self.nodes.len(),
                prefix@ == "main@"@,
                prefix@.len() == 5,
                forall|j: int| 0 <= j < i ==> !is_main_id(#[trigger] self.nodes[j].id@),
            decreases self.nodes.len() - i,
        {
            let id = chars_of(self.nodes[i].id.as_str());
            if id.len() >= 5 {
                let mut k: usize = 0;
                while k < 5 && id[k] == prefix[k]
                    invariant
                        k <= 5,
                        id@.len() >= 5,
                        prefix@.len() == 5,
                        forall|x: int| 0 <= x < k ==> id@[x] == prefix@[x],
                    decreases 5 - k,
                {
                    k = k + 1;
                }
                if k == 5 {
                    assert(id@.take(5) =~= prefix@);
                    return Some(i);
                }
                assert(id@.take(5)[k as int] != prefix@[k as int]);
            }
            i = i + 1;
        }
        None
    }
}

/// The callees of `k` that `edges` give: each once, in order of first
/// appearance, never `k` itself.
pub open spec fn callee_list(edges: Seq<(Seq<char>, Seq<char>)>, k: Seq<char>) -> Seq<Seq<char>>
    decreases edges.len(),
{
    if edges.len() == 0 {
        Seq::empty()
    } else {
        let prev = callee_list(edges.drop_last(), k);
        let (caller, callee) = edges.last();
        if caller == k && callee != k && !prev.contains(callee) {
            prev.push(callee)
        } else {
            prev
        }
    }
}

/// A symbol is a callee of `k` exactly when some pair calls it from `k` and
/// it is not `k` itself; and it is listed once, however many pairs call it.
pub proof fn lemma_callee_list_members(edges: Seq<(Seq<char>, Seq<char>)>, k: Seq<char>, x: Seq<char>)
    ensures
        callee_list(edges, k).contains(x) <==> x != k && edges.contains((k, x)),
        callee_list(edges, k).no_duplicates(),
    decreases edges.len(),
{
    if edges.len() > 0 {
        let prev = callee_list(edges.drop_last(), k);
        lemma_callee_list_members(edges.drop_last(), k, x);
        let (c, e) = edges.last();
        lemma_callee_list_members(edges.drop_last(), k, e);
        assert(edges =~= edges.drop_last().push(edges.last()));
        if edges.drop_last().contains((k, x)) {
            let i = choose|i: int| 0 <= i < edges.drop_last().len() && edges.drop_last()[i] == (k, x);
            assert(edges[i] == (k, x));
        }
        if edges.contains((k, x)) {
            let i = choose|i: int| 0 <= i < edges.len() && edges[i] == (k, x);
            if i < edges.len() - 1 {
                assert(edges.drop_last()[i] == (k, x));
            }
        }
        if c == k && e != k && !prev.contains(e) {
            let cur = prev.push(e);
            assert(cur[prev.len() as int] == e);
            if prev.contains(x) {
                let i = choose|i: int| 0 <= i < prev.len() && prev[i] == x;
                assert(cur[i] == x);
            }
            if cur.contains(x) {
                let i = choose|i: int| 0 <= i < cur.len() && cur[i] == x;
                if i < prev.len() {
                    assert(prev[i] == x);
                }
            }
        }
    }
}

} // verus!
