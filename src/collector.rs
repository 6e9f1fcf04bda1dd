//! The syntactic ingestion pipeline: functions and methods of parsed source
//! files become nodes, and the calls in their bodies become edges to the
//! definitions they resolve to.
use vstd::prelude::*;
use crate::graph::{CallGraph, GraphBuilder, NodeView, callee_list, canonical_for, graph_well_formed, with_callee};
use crate::syntax::{Stmt, stmts_calls, names_view, body_calls};
use crate::text::{chars_of, decimal, decimal_chars, lex_compare, push_chars, string_from_chars};

verus! {

/// A function or method.
#[derive(Debug)]
pub struct Function {
    pub name: String,
    /// The line its name stands on, from 1.
    pub line: usize,
    pub body: Vec<Stmt>,
}

/// A top-level item of a source file.
#[derive(Debug)]
pub enum Item {
    Fn { func: Function },
    /// An impl block; `self_ty` is the last segment of its type where the
    /// type is a path.
    Impl { self_ty: Option<String>, methods: Vec<Function> },
    Other,
}

/// A source file of a unit (crate), with its items; `None` where it did
/// not parse, in which case it is skipped.
#[derive(Debug)]
pub struct SourceFile {
    pub unit: String,
    pub path: String,
    pub items: Option<Vec<Item>>,
}

/// A definition found in the sources.
pub struct DefView {
    pub id: Seq<char>,
    pub unit: Seq<char>,
    pub label: Seq<char>,
    pub calls: Seq<Seq<char>>,
}

/// The crate-qualified id `name@unit`.
pub open spec fn at_unit(name: Seq<char>, unit: Seq<char>) -> Seq<char> {
    name + seq!['@'] + unit
}

/// The label `path:line`.
pub open spec fn line_label(path: Seq<char>, line: usize) -> Seq<char> {
    path + seq![':'] + decimal(line as nat)
}

/// The definition of function `f`, a method of `ty` where `ty` is given.
pub open spec fn function_def(f: Function, ty: Option<Seq<char>>, unit: Seq<char>, path: Seq<char>) -> DefView {
    let name = match ty {
        Some(t) => t + seq![':', ':'] + f.name@,
        None => f.name@,
    };
    DefView {
        id: at_unit(name, unit),
        unit: unit,
        label: line_label(path, f.line),
        calls: stmts_calls(f.body@, Seq::empty()),
    }
}

pub open spec fn method_defs(ms: Seq<Function>, ty: Seq<char>, unit: Seq<char>, path: Seq<char>) -> Seq<DefView>
    decreases ms.len(),
{
    if ms.len() == 0 {
        Seq::empty()
    } else {
        method_defs(ms.drop_last(), ty, unit, path).push(function_def(ms.last(), Some(ty), unit, path))
    }
}

pub open spec fn item_defs(it: Item, unit: Seq<char>, path: Seq<char>) -> Seq<DefView> {
    match it {
        Item::Fn { func } => seq![function_def(func, None, unit, path)],
        Item::Impl { self_ty: Some(ty), methods } => method_defs(methods@, ty@, unit, path),
        _ => Seq::empty(),
    }
}

pub open spec fn items_defs(items: Seq<Item>, unit: Seq<char>, path: Seq<char>) -> Seq<DefView>
    decreases items.len(),
{
    if items.len() == 0 {
        Seq::empty()
    } else {
        items_defs(items.drop_last(), unit, path) + item_defs(items.last(), unit, path)
    }
}

/// The definitions of the analyzed files, file after file; a file that did
/// not parse gives none.
pub open spec fn all_defs(files: Seq<SourceFile>) -> Seq<DefView>
    decreases files.len(),
{
    if files.len() == 0 {
        Seq::empty()
    } else {
        let f = files.last();
        let own = match f.items {
            Some(items) => items_defs(items@, f.unit@, f.path@),
            None => Seq::empty(),
        };
        all_defs(files.drop_last()) + own
    }
}

/// A definition with the raw callee names of its body.
pub struct Definition {
    pub id: Vec<char>,
    pub unit: Vec<char>,
    pub label: String,
    pub calls: Vec<Vec<char>>,
}

impl View for Definition {
    type V = DefView;

    open spec fn view(&self) -> DefView {
        DefView { id: self.id@, unit: self.unit@, label: self.label@, calls: names_view(self.calls@) }
    }
}

pub open spec fn defs_view(v: Seq<Definition>) -> Seq<DefView> {
    v.map_values(|d: Definition| d@)
}

fn function_definition(f: &Function, ty: Option<&String>, unit: &String, path: &String) -> (d: Definition)
    ensures
        d@ == function_def(
            *f,
            match ty {
                Some(t) => Some(t@),
                None => None,
            },
            unit@,
            path@,
        ),
{
    let u = chars_of(unit.as_str());
    let mut id: Vec<char> = match ty {
        Some(t) => {
            let mut v = chars_of(t.as_str());
            v.push(':');
            v.push(':');
            v
        },
        None => Vec::new(),
    };
    push_chars(&mut id, &chars_of(f.name.as_str()));
    id.push('@');
    push_chars(&mut id, &u);
    let mut label = chars_of(path.as_str());
    label.push(':');
    push_chars(&mut label, &decimal_chars(f.line));
    let calls = body_calls(&f.body);
    let d = Definition { id, unit: u, label: string_from_chars(&label), calls };
    proof {
        let tv = match ty {
            Some(t) => Some(t@),
            None => None,
        };
        let spec_d = function_def(*f, tv, unit@, path@);
        match ty {
            Some(t) => {
                assert(d.id@ =~= spec_d.id);
            },
            None => {
                assert(d.id@ =~= spec_d.id);
            },
        }
        assert(d.label@ =~= spec_d.label);
    }
    d
}

fn push_definition(out: &mut Vec<Definition>, d: Definition)
    ensures
        defs_view(final(out)@) == defs_view(old(out)@).push(d@),
{
    out.push(d);
    assert(defs_view(out@) =~= defs_view(old(out)@).push(d@));
}

fn item_definitions(it: &Item, unit: &String, path: &String, out: &mut Vec<Definition>)
    ensures
        defs_view(final(out)@) == defs_view(old(out)@) + item_defs(*it, unit@, path@),
{
    let ghost d0 = defs_view(out@);
    match it {
        Item::Fn { func } => {
            let d = function_definition(func, None, unit, path);
            push_definition(out, d);
            assert(defs_view(out@) =~= d0 + item_defs(*it, unit@, path@));
        },
        Item::Impl { self_ty: Some(ty), methods } => {
            let mut i: usize = 0;
            assert(methods@.take(0) =~= Seq::<Function>::empty());
            assert(d0 + Seq::<DefView>::empty() =~= d0);
            while i < methods.len()
                invariant
                    i <= methods.len(),
                    defs_view(out@) == d0 + method_defs(methods@.take(i as int), ty@, unit@, path@),
                decreases methods.len() - i,
            {
                let d = function_definition(&methods[i], Some(ty), unit, path);
                let ghost prev = method_defs(methods@.take(i as int), ty@, unit@, path@);
                push_definition(out, d);
                assert(methods@.take(i + 1).drop_last() =~= methods@.take(i as int));
                assert(defs_view(out@) =~= d0 + prev.push(d@));
                i = i + 1;
            }
            assert(methods@.take(i as int) =~= methods@);
        },
        _ => {
            assert(defs_view(out@) =~= d0 + item_defs(*it, unit@, path@));
        },
    }
}

/// The definitions of the files, see [`all_defs`].
pub fn collect_definitions(files: &Vec<SourceFile>) -> (r: Vec<Definition>)
    ensures
        defs_view(r@) == all_defs(files@),
{
    let mut out: Vec<Definition> = Vec::new();
    let mut i: usize = 0;
    assert(files@.take(0) =~= Seq::<SourceFile>::empty());
    assert(defs_view(out@) =~= Seq::<DefView>::empty());
    while i < files.len()
        invariant
            i <= files.len(),
            defs_view(out@) == all_defs(files@.take(i as int)),
        decreases files.len() - i,
    {
        let f = &files[i];
        let ghost d0 = defs_view(out@);
        assert(files@.take(i + 1).drop_last() =~= files@.take(i as int));
        assert(files@.take(i + 1).last() == *f);
        match &f.items {
            Some(items) => {
                let mut j: usize = 0;
                assert(items@.take(0) =~= Seq::<Item>::empty());
                assert(d0 + Seq::<DefView>::empty() =~= d0);
                while j < items.len()
                    invariant
                        j <= items.len(),
                        defs_view(out@) == d0 + items_defs(items@.take(j as int), f.unit@, f.path@),
                    decreases items.len() - j,
                {
                    let ghost prev = items_defs(items@.take(j as int), f.unit@, f.path@);
                    item_definitions(&items[j], &f.unit, &f.path, &mut out);
                    assert(items@.take(j + 1).drop_last() =~= items@.take(j as int));
                    assert(defs_view(out@) =~= d0 + (prev + item_defs(items@[j as int], f.unit@, f.path@)));
                    j = j + 1;
                }
                assert(items@.take(j as int) =~= items@);
            },
            None => {
                assert(d0 + Seq::<DefView>::empty() =~= d0);
            },
        }
        i = i + 1;
    }
    assert(files@.take(i as int) =~= files@);
    out
}

/// The units of the files that parsed, file after file: a file that did
/// not parse contributes nothing, not even its unit name.
pub open spec fn units_view(files: Seq<SourceFile>) -> Seq<Seq<char>>
    decreases files.len(),
{
    if files.len() == 0 {
        Seq::empty()
    } else if files.last().items is Some {
        units_view(files.drop_last()).push(files.last().unit@)
    } else {
        units_view(files.drop_last())
    }
}

pub open spec fn def_ids(defs: Seq<DefView>) -> Seq<Seq<char>> {
    defs.map_values(|d: DefView| d.id)
}

/// `::` stands at position `i` of `n`.
pub open spec fn is_separator(n: Seq<char>, i: int) -> bool {
    0 <= i && i + 1 < n.len() && n[i] == ':' && n[i + 1] == ':'
}

/// The first position, from `i` on, where `::` stands in `n`.
pub open spec fn first_separator(n: Seq<char>, i: int) -> Option<int>
    decreases n.len() - i,
{
    if i < 0 || i + 1 >= n.len() {
        None
    } else if is_separator(n, i) {
        Some(i)
    } else {
        first_separator(n, i + 1)
    }
}

/// The id that callee name `name`, called from unit `unit`, stands for: a
/// name whose first segment is one of the analyzed units names the rest of
/// it in that unit; any other name is looked for in the caller's unit.
pub open spec fn resolve_target(name: Seq<char>, unit: Seq<char>, units: Seq<Seq<char>>) -> Seq<char> {
    match first_separator(name, 0) {
        Some(i) => if units.contains(name.take(i)) {
            at_unit(name.skip(i + 2), name.take(i))
        } else {
            at_unit(name, unit)
        },
        None => at_unit(name, unit),
    }
}

/// The (caller, callee) pairs of the calls `calls` of `caller`: each call
/// whose target is a known id gives one; the others are dropped.
pub open spec fn call_edges(
    caller: Seq<char>,
    unit: Seq<char>,
    calls: Seq<Seq<char>>,
    units: Seq<Seq<char>>,
    ids: Seq<Seq<char>>,
) -> Seq<(Seq<char>, Seq<char>)>
    decreases calls.len(),
{
    if calls.len() == 0 {
        Seq::empty()
    } else {
        let prev = call_edges(caller, unit, calls.drop_last(), units, ids);
        let t = resolve_target(calls.last(), unit, units);
        if ids.contains(t) {
            prev.push((caller, t))
        } else {
            prev
        }
    }
}

/// The pairs of all definitions, one definition after the other.
pub open spec fn defs_edges(defs: Seq<DefView>, units: Seq<Seq<char>>, ids: Seq<Seq<char>>) -> Seq<
    (Seq<char>, Seq<char>),
>
    decreases defs.len(),
{
    if defs.len() == 0 {
        Seq::empty()
    } else {
        let d = defs.last();
        defs_edges(defs.drop_last(), units, ids) + call_edges(d.id, d.unit, d.calls, units, ids)
    }
}

/// The label of the first definition of `k`.
pub open spec fn first_label(defs: Seq<DefView>, k: Seq<char>) -> Option<Seq<char>>
    decreases defs.len(),
{
    if defs.len() == 0 {
        None
    } else if def_ids(defs.drop_last()).contains(k) {
        first_label(defs.drop_last(), k)
    } else if defs.last().id == k {
        Some(defs.last().label)
    } else {
        None
    }
}

/// The nodes of `defs`, each with the callees that `edges` give it.
pub open spec fn model_with(defs: Seq<DefView>, edges: Seq<(Seq<char>, Seq<char>)>) -> Map<Seq<char>, NodeView> {
    Map::new(
        |k: Seq<char>| def_ids(defs).contains(k),
        |k: Seq<char>| NodeView { id: k, label: first_label(defs, k), callees: callee_list(edges, k) },
    )
}

/// The nodes of the graph of the analyzed files: one per definition id,
/// labelled by its first definition, with the callees its calls resolve to.
pub open spec fn syntactic_model(files: Seq<SourceFile>) -> Map<Seq<char>, NodeView> {
    let defs = all_defs(files);
    model_with(defs, defs_edges(defs, units_view(files), def_ids(defs)))
}

proof fn lemma_model_with_push(defs: Seq<DefView>, edges: Seq<(Seq<char>, Seq<char>)>, c: Seq<char>, x: Seq<char>)
    ensures
        model_with(defs, edges.push((c, x))) == (if model_with(defs, edges).contains_key(c) {
            model_with(defs, edges).insert(c, with_callee(model_with(defs, edges)[c], x))
        } else {
            model_with(defs, edges)
        }),
{
    let e2 = edges.push((c, x));
    assert(e2.drop_last() =~= edges);
    let m1 = model_with(defs, edges);
    let m2 = model_with(defs, e2);
    if m1.contains_key(c) {
        assert(m2 =~= m1.insert(c, with_callee(m1[c], x)));
    } else {
        assert(m2 =~= m1);
    }
}

/// The characters `n[a..b]`.
fn sub_chars(n: &Vec<char>, a: usize, b: usize) -> (r: Vec<char>)
    requires
        a <= b <= n.len(),
    ensures
        r@ == n@.subrange(a as int, b as int),
{
    let mut r: Vec<char> = Vec::new();
    let mut i: usize = a;
    while i < b
        invariant
            a <= i <= b <= n.len(),
            r@ == n@.subrange(a as int, i as int),
        decreases b - i,
    {
        r.push(n[i]);
        assert(r@ =~= n@.subrange(a as int, i + 1));
        i = i + 1;
    }
    r
}

fn find_separator(n: &Vec<char>) -> (r: Option<usize>)
    ensures
        match r {
            Some(i) => i + 1 < n.len() && first_separator(n@, 0) == Some(i as int),
            None => first_separator(n@, 0) is None,
        },
{
    let mut i: usize = 0;
    while n.len() > 0 && i < n.len() - 1
        invariant
            i <= n.len(),
            first_separator(n@, 0) == first_separator(n@, i as int),
        decreases n.len() - i,
    {
        if n[i] == ':' && n[i + 1] == ':' {
            return Some(i);
        }
        i = i + 1;
    }
    None
}

fn is_unit(units: &Vec<Vec<char>>, q: &Vec<char>) -> (r: bool)
    ensures
        r == names_view(units@).contains(q@),
{
    let mut i: usize = 0;
    while i < units.len()
        invariant
            i <= units.len(),
            forall|j: int| 0 <= j < i ==> units[j]@ != q@,
        decreases units.len() - i,
    {
        if let core::cmp::Ordering::Equal = lex_compare(&units[i], q) {
            assert(names_view(units@)[i as int] == q@);
            return true;
        }
        i = i + 1;
    }
    assert(!names_view(units@).contains(q@)) by {
        if names_view(units@).contains(q@) {
            let j = choose|j: int| 0 <= j < units.len() && names_view(units@)[j] == q@;
            assert(units[j]@ == q@);
        }
    }
    false
}

fn qualified(name: &Vec<char>, unit: &Vec<char>) -> (r: Vec<char>)
    ensures
        r@ == at_unit(name@, unit@),
{
    let mut r: Vec<char> = Vec::new();
    push_chars(&mut r, name);
    r.push('@');
    push_chars(&mut r, unit);
    assert(r@ =~= at_unit(name@, unit@));
    r
}

/// The id a callee name stands for, see [`resolve_target`].
pub fn resolve(name: &Vec<char>, unit: &Vec<char>, units: &Vec<Vec<char>>) -> (r: Vec<char>)
    ensures
        r@ == resolve_target(name@, unit@, names_view(units@)),
{
    match find_separator(name) {
        Some(i) => {
            let q = sub_chars(name, 0, i);
            assert(q@ =~= name@.take(i as int));
            if is_unit(units, &q) {
                let leaf = sub_chars(name, i + 2, name.len());
                assert(leaf@ =~= name@.skip(i + 2));
                qualified(&leaf, &q)
            } else {
                qualified(name, unit)
            }
        },
        None => qualified(name, unit),
    }
}

/// Builds call graphs from parsed source files.
pub struct SimpleCallGraphBuilder;

impl SimpleCallGraphBuilder {
    /// The call graph of the files: a node per function (`name@unit`) and
    /// method (`Type::method@unit`), with an edge for each call that
    /// resolves to one of them; calls that resolve to nothing are dropped.
    pub fn build_call_graph(&self, files: &Vec<SourceFile>) -> (g: CallGraph)
        ensures
            canonical_for(g@, syntactic_model(files@)),
            graph_well_formed(g@),
    {
        let defs = collect_definitions(files);
        let ghost dv = defs_view(defs@);
        let ghost ids = def_ids(dv);
        let mut units: Vec<Vec<char>> = Vec::new();
        let mut i: usize = 0;
        assert(files@.take(0) =~= Seq::<SourceFile>::empty());
        assert(names_view(units@) =~= Seq::<Seq<char>>::empty());
        while i < files.len()
            invariant
                i <= files.len(),
                names_view(units@) == units_view(files@.take(i as int)),
            decreases files.len() - i,
        {
            let ghost before = names_view(units@);
            assert(files@.take(i + 1).drop_last() =~= files@.take(i as int));
            assert(files@.take(i + 1).last() == files[i as int]);
            if files[i].items.is_some() {
                let u = chars_of(files[i].unit.as_str());
                units.push(u);
                assert(names_view(units@) =~= before.push(u@));
            }
            i = i + 1;
        }
        assert(files@.take(i as int) =~= files@);
        let ghost uv = names_view(units@);
        let mut b = GraphBuilder::new();
        let mut i: usize = 0;
        assert(dv.take(0) =~= Seq::<DefView>::empty());
        while i < defs.len()
            invariant
                b.wf(),
                i <= defs.len(),
                dv == defs_view(defs@),
                forall|k: Seq<char>| #[trigger] b.model().contains_key(k) <==> def_ids(dv.take(i as int)).contains(k),
                forall|k: Seq<char>| #[trigger] b.model().contains_key(k) ==> b.model()[k] == model_with(
                    dv.take(i as int),
                    Seq::empty(),
                )[k],
            decreases defs.len() - i,
        {
            let d = &defs[i];
            let ghost pre = dv.take(i as int);
            let ghost nxt = dv.take(i + 1);
            assert(nxt.drop_last() =~= pre);
            assert(nxt.last() == d@);
            assert(def_ids(nxt) =~= def_ids(pre).push(d.id@));
            b.get_or_create(string_from_chars(&d.id), Some(d.label.clone()));
            proof {
                assert forall|k: Seq<char>| #[trigger] b.model().contains_key(k) <==> def_ids(nxt).contains(k) by {
                    if k == d.id@ {
                        assert(def_ids(nxt)[i as int] == k);
                    }
                    if def_ids(nxt).contains(k) && k != d.id@ {
                        let x = choose|x: int| 0 <= x < def_ids(nxt).len() && def_ids(nxt)[x] == k;
                        assert(def_ids(pre)[x] == k);
                    }
                    if def_ids(pre).contains(k) {
                        let x = choose|x: int| 0 <= x < def_ids(pre).len() && def_ids(pre)[x] == k;
                        assert(def_ids(nxt)[x] == k);
                    }
                }
            }
            i = i + 1;
        }
        assert(dv.take(i as int) =~= dv);
        assert(b.model() =~= model_with(dv, defs_edges(dv.take(0), uv, ids)));
        let mut i: usize = 0;
        while i < defs.len()
            invariant
                b.wf(),
                i <= defs.len(),
                dv == defs_view(defs@),
                ids == def_ids(dv),
                uv == names_view(units@),
                b.model() == model_with(dv, defs_edges(dv.take(i as int), uv, ids)),
            decreases defs.len() - i,
        {
            let d = &defs[i];
            let ghost before = defs_edges(dv.take(i as int), uv, ids);
            let ghost cv = names_view(d.calls@);
            let mut j: usize = 0;
            assert(cv.take(0) =~= Seq::<Seq<char>>::empty());
            assert(before + Seq::<(Seq<char>, Seq<char>)>::empty() =~= before);
            while j < d.calls.len()
                invariant
                    b.wf(),
                    j <= d.calls.len(),
                    i < defs.len(),
                    d == &defs[i as int],
                    dv == defs_view(defs@),
                    ids == def_ids(dv),
                    uv == names_view(units@),
                    cv == names_view(d.calls@),
                    b.model() == model_with(dv, before + call_edges(d.id@, d.unit@, cv.take(j as int), uv, ids)),
                decreases d.calls.len() - j,
            {
                let t = resolve(&d.calls[j], &d.unit, &units);
                let ghost prev = call_edges(d.id@, d.unit@, cv.take(j as int), uv, ids);
                assert(cv.take(j + 1).drop_last() =~= cv.take(j as int));
                assert(cv.take(j + 1).last() == d.calls[j as int]@);
                if b.contains(&t) {
                    proof {
                        lemma_model_with_push(dv, before + prev, d.id@, t@);
                        assert((before + prev).push((d.id@, t@)) =~= before + prev.push((d.id@, t@)));
                    }
                    b.add_callee(&d.id, &string_from_chars(&t));
                }
                j = j + 1;
            }
            proof {
                assert(cv.take(j as int) =~= cv);
                assert(dv.take(i + 1).drop_last() =~= dv.take(i as int));
                assert(dv.take(i + 1).last() == d@);
            }
            i = i + 1;
        }
        assert(dv.take(i as int) =~= dv);
        b.finish()
    }
}

proof fn lemma_edges_resolved(defs: Seq<DefView>, units: Seq<Seq<char>>, ids: Seq<Seq<char>>, e: (Seq<char>, Seq<char>))
    requires
        defs_edges(defs, units, ids).contains(e),
    ensures
        ids.contains(e.1),
    decreases defs.len(),
{
    let d = defs.last();
    let a = defs_edges(defs.drop_last(), units, ids);
    let b = call_edges(d.id, d.unit, d.calls, units, ids);
    let i = choose|i: int| 0 <= i < (a + b).len() && (a + b)[i] == e;
    if i < a.len() {
        assert(a[i] == e);
        lemma_edges_resolved(defs.drop_last(), units, ids, e);
    } else {
        assert(b[i - a.len()] == e);
        lemma_call_edges_resolved(d.id, d.unit, d.calls, units, ids, e);
    }
}

proof fn lemma_call_edges_resolved(
    caller: Seq<char>,
    unit: Seq<char>,
    calls: Seq<Seq<char>>,
    units: Seq<Seq<char>>,
    ids: Seq<Seq<char>>,
    e: (Seq<char>, Seq<char>),
)
    requires
        call_edges(caller, unit, calls, units, ids).contains(e),
    ensures
        ids.contains(e.1),
    decreases calls.len(),
{
    let prev = call_edges(caller, unit, calls.drop_last(), units, ids);
    let t = resolve_target(calls.last(), unit, units);
    let cur = call_edges(caller, unit, calls, units, ids);
    let i = choose|i: int| 0 <= i < cur.len() && cur[i] == e;
    if i < prev.len() {
        assert(prev[i] == e);
        lemma_call_edges_resolved(caller, unit, calls.drop_last(), units, ids, e);
    }
}

/// Every callee in the graph of the sources is the id of one of their
/// definitions: a call that resolves to no definition gives no edge.
pub proof fn lemma_callees_are_definitions(files: Seq<SourceFile>, k: Seq<char>, x: Seq<char>)
    requires
        syntactic_model(files).contains_key(k),
        syntactic_model(files)[k].callees.contains(x),
    ensures
        def_ids(all_defs(files)).contains(x),
{
    let defs = all_defs(files);
    let edges = defs_edges(defs, units_view(files), def_ids(defs));
    crate::graph::lemma_callee_list_members(edges, k, x);
    lemma_edges_resolved(defs, units_view(files), def_ids(defs), (k, x));
}

/// A file that did not parse is skipped: the graph of the sources is the
/// graph of the sources without it.
pub proof fn lemma_unparsed_file_skipped(files: Seq<SourceFile>, k: int)
    requires
        0 <= k < files.len(),
        files[k].items is None,
    ensures
        syntactic_model(files) == syntactic_model(files.remove(k)),
{
    lemma_unparsed_defs_units(files, k);
}

proof fn lemma_unparsed_defs_units(files: Seq<SourceFile>, k: int)
    requires
        0 <= k < files.len(),
        files[k].items is None,
    ensures
        all_defs(files) == all_defs(files.remove(k)),
        units_view(files) == units_view(files.remove(k)),
    decreases files.len(),
{
    let r = files.remove(k);
    if k == files.len() - 1 {
        assert(r =~= files.drop_last());
        assert(all_defs(files) =~= all_defs(files.drop_last()) + Seq::<DefView>::empty());
    } else {
        let t = files.drop_last();
        lemma_unparsed_defs_units(t, k);
        assert(r.drop_last() =~= t.remove(k));
        assert(r.last() == files.last());
    }
}

} // verus!
