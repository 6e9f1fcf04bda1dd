//! The syntax tree the syntactic pipeline reads, and the flow-insensitive
//! collection of the calls in a function body.
use vstd::prelude::*;
use crate::text::{chars_of, push_chars, texts_view};

verus! {

/// An expression, reduced to what call collection reads.
#[derive(Debug)]
pub enum Expr {
    /// A call; `func` holds the segments of the callee's path when the
    /// callee is a path.
    Call { func: Option<Vec<String>>, args: Vec<Expr> },
    MethodCall { receiver: Box<Expr>, method: String, args: Vec<Expr> },
    Path { segments: Vec<String> },
    Block { stmts: Vec<Stmt> },
    If { cond: Box<Expr>, then_branch: Vec<Stmt>, else_branch: Option<Box<Expr>> },
    Match { scrutinee: Box<Expr>, arms: Vec<Expr> },
    /// A `loop`, `while` or `for`: the condition or iterated expression,
    /// if any, and the body.
    Loop { head: Option<Box<Expr>>, body: Vec<Stmt> },
    Other,
}

/// A statement.
#[derive(Debug)]
pub enum Stmt {
    /// A `let`; `name` is set when the pattern is a single identifier.
    Local { name: Option<String>, init: Option<Expr> },
    Expr { expr: Expr },
    Other,
}

/// Local bindings, latest last: a variable and the type it was assigned from.
pub type SymbolView = Seq<(Seq<char>, Seq<char>)>;

/// The type most recently bound to `name`.
pub open spec fn lookup(sym: SymbolView, name: Seq<char>) -> Option<Seq<char>>
    decreases sym.len(),
{
    if sym.len() == 0 {
        None
    } else if sym.last().0 == name {
        Some(sym.last().1)
    } else {
        lookup(sym.drop_last(), name)
    }
}

/// Path segments joined by `::`.
pub open spec fn path_name(segs: Seq<Seq<char>>) -> Seq<char>
    decreases segs.len(),
{
    if segs.len() == 0 {
        Seq::empty()
    } else if segs.len() == 1 {
        segs[0]
    } else {
        path_name(segs.drop_last()) + seq![':', ':'] + segs.last()
    }
}

/// The name a method call gives: qualified by the receiver's type where the
/// receiver is a variable whose type is known, else the bare method name.
pub open spec fn method_callee(receiver: Expr, method: Seq<char>, sym: SymbolView) -> Seq<char> {
    let ty = match receiver {
        Expr::Path { segments } => if segments@.len() > 0 {
            lookup(sym, segments@.last()@)
        } else {
            None
        },
        _ => None,
    };
    match ty {
        Some(t) => t + seq![':', ':'] + method,
        None => method,
    }
}

/// The callee names of the calls in `e`, in order, with `sym` in scope.
pub open spec fn expr_calls(e: Expr, sym: SymbolView) -> Seq<Seq<char>>
    decreases e,
{
    match e {
        Expr::Call { func, args } => {
            let head = match func {
                Some(segs) => seq![path_name(texts_view(segs@))],
                None => Seq::empty(),
            };
            head + exprs_calls(args@, sym)
        },
        Expr::MethodCall { receiver, method, args } => seq![method_callee(*receiver, method@, sym)]
            + exprs_calls(args@, sym) + expr_calls(*receiver, sym),
        Expr::Path { .. } => Seq::empty(),
        Expr::Block { stmts } => stmts_calls(stmts@, sym),
        Expr::If { cond, then_branch, else_branch } => {
            let tail = match else_branch {
                Some(e2) => expr_calls(*e2, sym),
                None => Seq::empty(),
            };
            expr_calls(*cond, sym) + stmts_calls(then_branch@, sym) + tail
        },
        Expr::Match { scrutinee, arms } => expr_calls(*scrutinee, sym) + exprs_calls(arms@, sym),
        Expr::Loop { head, body } => {
            let first = match head {
                Some(h) => expr_calls(*h, sym),
                None => Seq::empty(),
            };
            first + stmts_calls(body@, sym)
        },
        Expr::Other => Seq::empty(),
    }
}

/// The calls of each of `es`, one after the other.
pub open spec fn exprs_calls(es: Seq<Expr>, sym: SymbolView) -> Seq<Seq<char>>
    decreases es,
{
    if es.len() == 0 {
        Seq::empty()
    } else {
        expr_calls(es[0], sym) + exprs_calls(es.subrange(1, es.len() as int), sym)
    }
}

/// The bindings after statement `s`: a `let` of a variable from a path
/// binds the variable to the path's last segment.
pub open spec fn bind(s: Stmt, sym: SymbolView) -> SymbolView {
    match s {
        Stmt::Local { name: Some(n), init: Some(Expr::Path { segments }) } => if segments@.len() > 0 {
            sym.push((n@, segments@.last()@))
        } else {
            sym
        },
        _ => sym,
    }
}

/// The calls of statement `s`.
pub open spec fn stmt_calls(s: Stmt, sym: SymbolView) -> Seq<Seq<char>>
    decreases s,
{
    match s {
        Stmt::Local { init, .. } => match init {
            Some(e) => expr_calls(e, sym),
            None => Seq::empty(),
        },
        Stmt::Expr { expr } => expr_calls(expr, sym),
        Stmt::Other => Seq::empty(),
    }
}

/// The bindings after a statement list: each top-level statement's, in
/// order; those made inside nested blocks and branches are not among them.
pub open spec fn binds(ss: Seq<Stmt>, sym: SymbolView) -> SymbolView
    decreases ss.len(),
{
    if ss.len() == 0 {
        sym
    } else {
        bind(ss.last(), binds(ss.drop_last(), sym))
    }
}

/// The calls of a statement list, each statement seeing the bindings of
/// those before it; bindings end with the list.
pub open spec fn stmts_calls(ss: Seq<Stmt>, sym: SymbolView) -> Seq<Seq<char>>
    decreases ss,
{
    if ss.len() == 0 {
        Seq::empty()
    } else {
        stmt_calls(ss[0], sym) + stmts_calls(ss.subrange(1, ss.len() as int), bind(ss[0], sym))
    }
}

pub open spec fn symbols_view(v: Seq<(String, String)>) -> SymbolView {
    v.map_values(|b: (String, String)| (b.0@, b.1@))
}

pub open spec fn names_view(v: Seq<Vec<char>>) -> Seq<Seq<char>> {
    v.map_values(|c: Vec<char>| c@)
}

/// The type most recently bound to `name` in `sym`.
fn lookup_type(sym: &Vec<(String, String)>, name: &String) -> (r: Option<Vec<char>>)
    ensures
        match r {
            Some(t) => lookup(symbols_view(sym@), name@) == Some(t@),
            None => lookup(symbols_view(sym@), name@) is None,
        },
{
    let ghost sv = symbols_view(sym@);
    let mut i: usize = sym.len();
    assert(sv.take(i as int) =~= sv);
    while i > 0
        invariant
            i <= sym.len(),
            sv == symbols_view(sym@),
            lookup(sv, name@) == lookup(sv.take(i as int), name@),
        decreases i,
    {
        assert(sv.take(i as int).drop_last() =~= sv.take(i - 1));
        assert(sv.take(i as int).last() == (sym[i - 1].0@, sym[i - 1].1@));
        if sym[i - 1].0 == *name {
            return Some(chars_of(sym[i - 1].1.as_str()));
        }
        i = i - 1;
    }
    None
}

/// The segments of a path joined by `::`.
fn join_path(segs: &Vec<String>) -> (r: Vec<char>)
    ensures
        r@ == path_name(texts_view(segs@)),
{
    let ghost tv = texts_view(segs@);
    let mut out: Vec<char> = Vec::new();
    let mut i: usize = 0;
    assert(tv.take(0) =~= Seq::<Seq<char>>::empty());
    while i < segs.len()
        invariant
            i <= segs.len(),
            tv == texts_view(segs@),
            out@ == path_name(tv.take(i as int)),
        decreases segs.len() - i,
    {
        let part = chars_of(segs[i].as_str());
        let ghost t = tv.take(i + 1);
        assert(t.drop_last() =~= tv.take(i as int));
        assert(t.last() == part@);
        if i > 0 {
            out.push(':');
            out.push(':');
        }
        let ghost mid = out@;
        push_chars(&mut out, &part);
        if i == 0 {
            assert(out@ =~= part@);
        } else {
            assert(out@ =~= path_name(tv.take(i as int)) + seq![':', ':'] + part@);
        }
        i = i + 1;
    }
    assert(tv.take(i as int) =~= tv);
    out
}

/// The callee name of a method call, see [`method_callee`].
fn method_name(receiver: &Expr, method: &String, sym: &Vec<(String, String)>) -> (r: Vec<char>)
    ensures
        r@ == method_callee(*receiver, method@, symbols_view(sym@)),
{
    let m = chars_of(method.as_str());
    let ty = match receiver {
        Expr::Path { segments } => if segments.len() > 0 {
            lookup_type(sym, &segments[segments.len() - 1])
        } else {
            None
        },
        _ => None,
    };
    match ty {
        Some(t) => {
            let mut out = t;
            out.push(':');
            out.push(':');
            let ghost mid = out@;
            push_chars(&mut out, &m);
            out
        },
        None => m,
    }
}

fn push_name(cal: &mut Vec<Vec<char>>, name: Vec<char>)
    ensures
        names_view(final(cal)@) == names_view(old(cal)@).push(name@),
{
    cal.push(name);
    assert(names_view(cal@) =~= names_view(old(cal)@).push(name@));
}

/// Collect the calls of `e` into `cal`; `sym` is left as it was.
pub fn visit_expr(e: &Expr, cal: &mut Vec<Vec<char>>, sym: &mut Vec<(String, String)>)
    ensures
        names_view(final(cal)@) == names_view(old(cal)@) + expr_calls(*e, symbols_view(old(sym)@)),
        final(sym)@ == old(sym)@,
    decreases e,
{
    let ghost c0 = names_view(cal@);
    let ghost sv = symbols_view(sym@);
    match e {
        Expr::Call { func, args } => {
            match func {
                Some(segs) => {
                    let name = join_path(segs);
                    push_name(cal, name);
                },
                None => {},
            }
            let ghost c1 = names_view(cal@);
            visit_exprs(args, cal, sym);
            assert(names_view(cal@) =~= c0 + expr_calls(*e, sv));
        },
        Expr::MethodCall { receiver, method, args } => {
            let name = method_name(receiver, method, sym);
            push_name(cal, name);
            visit_exprs(args, cal, sym);
            visit_expr(receiver, cal, sym);
            assert(names_view(cal@) =~= c0 + expr_calls(*e, sv));
        },
        Expr::Path { .. } => {
            assert(names_view(cal@) =~= c0 + expr_calls(*e, sv));
        },
        Expr::Block { stmts } => {
            visit_block(stmts, cal, sym);
        },
        Expr::If { cond, then_branch, else_branch } => {
            visit_expr(cond, cal, sym);
            visit_block(then_branch, cal, sym);
            match else_branch {
                Some(e2) => {
                    visit_expr(e2, cal, sym);
                },
                None => {},
            }
            assert(names_view(cal@) =~= c0 + expr_calls(*e, sv));
        },
        Expr::Match { scrutinee, arms } => {
            visit_expr(scrutinee, cal, sym);
            visit_exprs(arms, cal, sym);
            assert(names_view(cal@) =~= c0 + expr_calls(*e, sv));
        },
        Expr::Loop { head, body } => {
            match head {
                Some(h) => {
                    visit_expr(h, cal, sym);
                },
                None => {},
            }
            visit_block(body, cal, sym);
            assert(names_view(cal@) =~= c0 + expr_calls(*e, sv));
        },
        Expr::Other => {
            assert(names_view(cal@) =~= c0 + expr_calls(*e, sv));
        },
    }
}

/// Collect the calls of each of `es` into `cal`.
pub fn visit_exprs(es: &Vec<Expr>, cal: &mut Vec<Vec<char>>, sym: &mut Vec<(String, String)>)
    ensures
        names_view(final(cal)@) == names_view(old(cal)@) + exprs_calls(es@, symbols_view(old(sym)@)),
        final(sym)@ == old(sym)@,
    decreases es,
{
    let ghost sv = symbols_view(sym@);
    let ghost c0 = names_view(cal@);
    let mut i: usize = 0;
    assert(es@.subrange(0, es@.len() as int) =~= es@);
    while i < es.len()
        invariant
            i <= es.len(),
            sym@ == old(sym)@,
            sv == symbols_view(sym@),
            names_view(cal@) + exprs_calls(es@.subrange(i as int, es@.len() as int), sv) == c0 + exprs_calls(es@, sv),
        decreases es.len() - i,
    {
        let ghost rest = es@.subrange(i as int, es@.len() as int);
        assert(rest[0] == es@[i as int]);
        assert(rest.subrange(1, rest.len() as int) =~= es@.subrange(i + 1, es@.len() as int));
        let ghost before = names_view(cal@);
        proof {
            assert(decreases_to!(es => es@));
            assert(decreases_to!(es@ => es@[i as int]));
        }
        visit_expr(&es[i], cal, sym);
        assert(names_view(cal@) + exprs_calls(es@.subrange(i + 1, es@.len() as int), sv) =~= before + exprs_calls(rest, sv));
        i = i + 1;
    }
    assert(es@.subrange(i as int, es@.len() as int) =~= Seq::<Expr>::empty());
    assert(names_view(cal@) + Seq::<Seq<char>>::empty() =~= names_view(cal@));
}

/// Collect the calls of a nested block: its bindings end with it.
pub fn visit_block(ss: &Vec<Stmt>, cal: &mut Vec<Vec<char>>, sym: &mut Vec<(String, String)>)
    ensures
        names_view(final(cal)@) == names_view(old(cal)@) + stmts_calls(ss@, symbols_view(old(sym)@)),
        final(sym)@ == old(sym)@,
    decreases ss, 1nat,
{
    let n = sym.len();
    visit_stmts(ss, cal, sym);
    sym.truncate(n);
}

/// Collect the calls of a statement list into `cal`; the bindings it makes
/// are pushed onto `sym`.
pub fn visit_stmts(ss: &Vec<Stmt>, cal: &mut Vec<Vec<char>>, sym: &mut Vec<(String, String)>)
    ensures
        names_view(final(cal)@) == names_view(old(cal)@) + stmts_calls(ss@, symbols_view(old(sym)@)),
        symbols_view(final(sym)@) == binds(ss@, symbols_view(old(sym)@)),
        final(sym)@.len() >= old(sym)@.len(),
        final(sym)@.subrange(0, old(sym)@.len() as int) == old(sym)@,
    decreases ss, 0nat,
{
    let ghost c0 = names_view(cal@);
    let ghost s0 = symbols_view(sym@);
    let mut i: usize = 0;
    assert(ss@.subrange(0, ss@.len() as int) =~= ss@);
    assert(ss@.take(0) =~= Seq::<Stmt>::empty());
    assert(sym@.subrange(0, sym@.len() as int) =~= sym@);
    while i < ss.len()
        invariant
            i <= ss.len(),
            sym@.len() >= old(sym)@.len(),
            sym@.subrange(0, old(sym)@.len() as int) == old(sym)@,
            symbols_view(sym@) == binds(ss@.take(i as int), s0),
            names_view(cal@) + stmts_calls(ss@.subrange(i as int, ss@.len() as int), symbols_view(sym@))
                == c0 + stmts_calls(ss@, s0),
        decreases ss.len() - i,
    {
        let ghost rest = ss@.subrange(i as int, ss@.len() as int);
        let ghost sv = symbols_view(sym@);
        assert(rest[0] == ss@[i as int]);
        assert(rest.subrange(1, rest.len() as int) =~= ss@.subrange(i + 1, ss@.len() as int));
        let ghost before = names_view(cal@);
        let ghost sym_before = sym@;
        proof {
            assert(decreases_to!(ss => ss@));
            assert(decreases_to!(ss@ => ss@[i as int]));
        }
        visit_stmt(&ss[i], cal, sym);
        assert(names_view(cal@) + stmts_calls(ss@.subrange(i + 1, ss@.len() as int), symbols_view(sym@)) =~= before
            + stmts_calls(rest, sv));
        assert(sym@.subrange(0, old(sym)@.len() as int) =~= sym_before.subrange(0, old(sym)@.len() as int));
        assert(ss@.take(i + 1).drop_last() =~= ss@.take(i as int));
        assert(ss@.take(i + 1).last() == ss@[i as int]);
        i = i + 1;
    }
    assert(ss@.subrange(i as int, ss@.len() as int) =~= Seq::<Stmt>::empty());
    assert(ss@.take(i as int) =~= ss@);
    assert(names_view(cal@) + Seq::<Seq<char>>::empty() =~= names_view(cal@));
}

/// Collect the calls of one statement, and push the binding it makes.
pub fn visit_stmt(s: &Stmt, cal: &mut Vec<Vec<char>>, sym: &mut Vec<(String, String)>)
    ensures
        names_view(final(cal)@) == names_view(old(cal)@) + stmt_calls(*s, symbols_view(old(sym)@)),
        symbols_view(final(sym)@) == bind(*s, symbols_view(old(sym)@)),
        final(sym)@.len() >= old(sym)@.len(),
        final(sym)@.subrange(0, old(sym)@.len() as int) == old(sym)@,
    decreases s,
{
    let ghost c0 = names_view(cal@);
    let ghost sv = symbols_view(sym@);
    assert(sym@.subrange(0, sym@.len() as int) =~= sym@);
    match s {
        Stmt::Local { name, init } => {
            match init {
                Some(e) => {
                    visit_expr(e, cal, sym);
                },
                None => {
                    assert(names_view(cal@) =~= c0 + stmt_calls(*s, sv));
                },
            }
            match (name, init) {
                (Some(n), Some(Expr::Path { segments })) => {
                    if segments.len() > 0 {
                        let ghost before = sym@;
                        sym.push((n.clone(), segments[segments.len() - 1].clone()));
                        assert(symbols_view(sym@) =~= sv.push((n@, segments@.last()@)));
                        assert(sym@.subrange(0, old(sym)@.len() as int) =~= before);
                    }
                },
                _ => {},
            }
        },
        Stmt::Expr { expr } => {
            visit_expr(expr, cal, sym);
        },
        Stmt::Other => {
            assert(names_view(cal@) =~= c0 + stmt_calls(*s, sv));
        },
    }
}

/// The callee names of the calls in a function body, in order.
pub fn body_calls(body: &Vec<Stmt>) -> (r: Vec<Vec<char>>)
    ensures
        names_view(r@) == stmts_calls(body@, Seq::empty()),
{
    let mut cal: Vec<Vec<char>> = Vec::new();
    let mut sym: Vec<(String, String)> = Vec::new();
    assert(symbols_view(sym@) =~= Seq::<(Seq<char>, Seq<char>)>::empty());
    assert(names_view(cal@) =~= Seq::<Seq<char>>::empty());
    visit_block(body, &mut cal, &mut sym);
    assert(Seq::<Seq<char>>::empty() + stmts_calls(body@, Seq::empty()) =~= stmts_calls(body@, Seq::empty()));
    cal
}

} // verus!
