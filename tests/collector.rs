use tracecraft::collector::{Function, Item, SimpleCallGraphBuilder, SourceFile};
use tracecraft::graph::CallGraph;
use tracecraft::syntax::{visit_stmts, Expr, Stmt};

fn path(segs: &[&str]) -> Expr {
    Expr::Path { segments: segs.iter().map(|s| s.to_string()).collect() }
}

fn call(segs: &[&str], args: Vec<Expr>) -> Expr {
    Expr::Call { func: Some(segs.iter().map(|s| s.to_string()).collect()), args }
}

fn method(receiver: Expr, name: &str) -> Expr {
    Expr::MethodCall { receiver: Box::new(receiver), method: name.to_string(), args: vec![] }
}

fn stmt(e: Expr) -> Stmt {
    Stmt::Expr { expr: e }
}

fn let_path(name: &str, segs: &[&str]) -> Stmt {
    Stmt::Local { name: Some(name.to_string()), init: Some(path(segs)) }
}

fn func(name: &str, line: usize, body: Vec<Stmt>) -> Item {
    Item::Fn { func: Function { name: name.to_string(), line, body } }
}

fn file(unit: &str, p: &str, items: Vec<Item>) -> SourceFile {
    SourceFile { unit: unit.to_string(), path: p.to_string(), items: Some(items) }
}

fn callees(g: &CallGraph, id: &str) -> Vec<String> {
    g.nodes.iter().find(|n| n.id == id).unwrap().callees.clone()
}

#[test]
fn foo_calls_bar() {
    let files = vec![file("main", "demo.rs", vec![
        func("foo", 4, vec![stmt(call(&["bar"], vec![Expr::Other]))]),
        func("bar", 7, vec![stmt(Expr::Other)]),
    ])];
    let g = SimpleCallGraphBuilder.build_call_graph(&files);
    let ids: Vec<&str> = g.nodes.iter().map(|n| n.id.as_str()).collect();
    assert_eq!(ids, vec!["bar@main", "foo@main"]);
    assert_eq!(callees(&g, "foo@main"), vec!["bar@main".to_string()]);
    assert!(callees(&g, "bar@main").is_empty());
    assert_eq!(g.nodes[1].label, Some("demo.rs:4".to_string()));
}

#[test]
fn unknown_callee_is_dropped() {
    let files = vec![file("main", "a.rs", vec![
        func("foo", 1, vec![stmt(call(&["nowhere"], vec![])), stmt(call(&["std", "mem", "swap"], vec![]))]),
    ])];
    let g = SimpleCallGraphBuilder.build_call_graph(&files);
    assert_eq!(g.nodes.len(), 1);
    assert!(g.nodes[0].callees.is_empty());
}

#[test]
fn method_resolves_through_let_binding() {
    let files = vec![file("main", "a.rs", vec![
        Item::Impl {
            self_ty: Some("Add".to_string()),
            methods: vec![Function { name: "apply".to_string(), line: 3, body: vec![] }],
        },
        func("run", 9, vec![let_path("add", &["Add"]), stmt(method(path(&["add"]), "apply"))]),
    ])];
    let g = SimpleCallGraphBuilder.build_call_graph(&files);
    assert_eq!(callees(&g, "run@main"), vec!["Add::apply@main".to_string()]);
    assert_eq!(g.nodes[0].id, "Add::apply@main");
    assert_eq!(g.nodes[0].label, Some("a.rs:3".to_string()));
}

#[test]
fn unknown_receiver_falls_back_to_bare_name() {
    let files = vec![file("main", "a.rs", vec![
        func("apply", 1, vec![]),
        func("run", 2, vec![stmt(method(path(&["op"]), "apply"))]),
    ])];
    let g = SimpleCallGraphBuilder.build_call_graph(&files);
    assert_eq!(callees(&g, "run@main"), vec!["apply@main".to_string()]);
}

#[test]
fn binding_in_nested_block_stays_inside() {
    let inner = Expr::Block { stmts: vec![let_path("x", &["Add"]), stmt(method(path(&["x"]), "apply"))] };
    let files = vec![file("main", "a.rs", vec![
        Item::Impl {
            self_ty: Some("Add".to_string()),
            methods: vec![Function { name: "apply".to_string(), line: 3, body: vec![] }],
        },
        func("apply", 5, vec![]),
        func("run", 9, vec![stmt(inner), stmt(method(path(&["x"]), "apply"))]),
    ])];
    let g = SimpleCallGraphBuilder.build_call_graph(&files);
    assert_eq!(callees(&g, "run@main"), vec!["Add::apply@main".to_string(), "apply@main".to_string()]);
}

#[test]
fn unit_qualified_call_crosses_units() {
    let files = vec![
        file("app", "app.rs", vec![func("main", 1, vec![stmt(call(&["lib_a", "helper"], vec![])), stmt(call(&["local"], vec![]))]), func("local", 2, vec![])]),
        file("lib_a", "lib.rs", vec![func("helper", 1, vec![])]),
    ];
    let g = SimpleCallGraphBuilder.build_call_graph(&files);
    assert_eq!(callees(&g, "main@app"), vec!["helper@lib_a".to_string(), "local@app".to_string()]);
    assert_eq!(g.entry_point(), Some(2));
}

#[test]
fn all_branches_and_loops_are_walked() {
    let body = vec![
        stmt(Expr::If {
            cond: Box::new(call(&["a"], vec![])),
            then_branch: vec![stmt(call(&["b"], vec![]))],
            else_branch: Some(Box::new(Expr::Block { stmts: vec![stmt(call(&["c"], vec![]))] })),
        }),
        stmt(Expr::Match { scrutinee: Box::new(Expr::Other), arms: vec![call(&["d"], vec![]), Expr::Other] }),
        stmt(Expr::Loop { head: None, body: vec![stmt(call(&["e"], vec![call(&["a"], vec![])]))] }),
    ];
    let mut items = vec![func("f", 1, body)];
    for n in ["a", "b", "c", "d", "e"] {
        items.push(func(n, 2, vec![]));
    }
    let g = SimpleCallGraphBuilder.build_call_graph(&vec![file("main", "x.rs", items)]);
    assert_eq!(callees(&g, "f@main"), vec!["a@main", "b@main", "c@main", "d@main", "e@main"]);
}

#[test]
fn recursion_gives_no_self_loop() {
    let files = vec![file("main", "a.rs", vec![func("f", 1, vec![stmt(call(&["f"], vec![])), stmt(call(&["g"], vec![])), stmt(call(&["g"], vec![]))]), func("g", 2, vec![])])];
    let g = SimpleCallGraphBuilder.build_call_graph(&files);
    assert_eq!(callees(&g, "f@main"), vec!["g@main".to_string()]);
}

#[test]
fn unparsed_file_is_skipped() {
    let files = vec![
        SourceFile { unit: "main".to_string(), path: "bad.rs".to_string(), items: None },
        file("main", "good.rs", vec![func("ok", 1, vec![])]),
    ];
    let g = SimpleCallGraphBuilder.build_call_graph(&files);
    assert_eq!(g.nodes.len(), 1);
    assert_eq!(g.nodes[0].id, "ok@main");
}

#[test]
fn duplicate_definitions_share_a_node() {
    let files = vec![
        file("main", "one.rs", vec![func("f", 3, vec![stmt(call(&["g"], vec![]))]), func("g", 1, vec![])]),
        file("main", "two.rs", vec![func("f", 8, vec![stmt(call(&["h"], vec![]))]), func("h", 1, vec![])]),
    ];
    let g = SimpleCallGraphBuilder.build_call_graph(&files);
    assert_eq!(g.nodes.len(), 3);
    assert_eq!(callees(&g, "f@main"), vec!["g@main".to_string(), "h@main".to_string()]);
    assert_eq!(g.nodes[0].label, Some("one.rs:3".to_string()));
}

#[test]
fn unit_of_unparsed_file_is_no_qualifier() {
    let imp = Item::Impl {
        self_ty: Some("u".to_string()),
        methods: vec![
            Function { name: "x".to_string(), line: 1, body: vec![] },
            Function { name: "y".to_string(), line: 2, body: vec![stmt(call(&["u", "x"], vec![]))] },
        ],
    };
    let files = vec![
        file("m", "m.rs", vec![imp]),
        SourceFile { unit: "u".to_string(), path: "u.rs".to_string(), items: None },
    ];
    let g = SimpleCallGraphBuilder.build_call_graph(&files);
    assert_eq!(callees(&g, "u::y@m"), vec!["u::x@m".to_string()]);
}

#[test]
fn top_level_lets_bind_and_nested_ones_do_not() {
    let ss = vec![
        let_path("a", &["crate", "T"]),
        stmt(Expr::Block { stmts: vec![let_path("b", &["U"])] }),
        stmt(method(path(&["a"]), "m")),
    ];
    let mut cal: Vec<Vec<char>> = Vec::new();
    let mut sym: Vec<(String, String)> = Vec::new();
    visit_stmts(&ss, &mut cal, &mut sym);
    assert_eq!(sym, vec![("a".to_string(), "T".to_string())]);
    let names: Vec<String> = cal.iter().map(|c| c.iter().collect()).collect();
    assert_eq!(names, vec!["T::m".to_string()]);
}
