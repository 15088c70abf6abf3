//! Syntax trees as trees of one kind of node: what stands directly in a node, and what
//! its parts are.

use vstd::prelude::*;
use crate::ast::{Expr, ExprKind, Pat, Span, Stmt};
use crate::types::Ty;

verus! {

/// A part of a syntax tree.
pub enum Node {
    Stmt(Stmt),
    Expr(Expr),
    Pat(Pat),
}

// ---------------------------------------------------------------------------
// Lists of parts

/// Statements as parts.
pub open spec fn stmt_nodes(ss: Seq<Stmt>) -> Seq<Node> {
    Seq::new(ss.len(), |i: int| Node::Stmt(ss[i]))
}

/// Expressions as parts.
pub open spec fn expr_nodes(es: Seq<Expr>) -> Seq<Node> {
    Seq::new(es.len(), |i: int| Node::Expr(es[i]))
}

/// Patterns as parts.
pub open spec fn pat_nodes(ps: Seq<Pat>) -> Seq<Node> {
    Seq::new(ps.len(), |i: int| Node::Pat(ps[i]))
}

/// The values of named expressions as parts.
pub open spec fn field_nodes(fs: Seq<(Seq<char>, Expr)>) -> Seq<Node> {
    Seq::new(fs.len(), |i: int| Node::Expr(fs[i].1))
}

/// The patterns and the values of arms as parts, in turn.
pub open spec fn arm_nodes(arms: Seq<(Pat, Expr)>) -> Seq<Node> {
    Seq::new(
        2 * arms.len(),
        |i: int|
            if i % 2 == 0 {
                Node::Pat(arms[i / 2].0)
            } else {
                Node::Expr(arms[i / 2].1)
            },
    )
}

/// The methods of an interface as parts.
pub open spec fn method_nodes(ms: Seq<(Stmt, bool)>) -> Seq<Node> {
    Seq::new(ms.len(), |i: int| Node::Stmt(ms[i].0))
}

/// An expression that may be missing, as a part.
pub open spec fn opt_node(e: Option<Expr>) -> Seq<Node> {
    match e {
        Some(e) => seq![Node::Expr(e)],
        None => Seq::empty(),
    }
}

/// An expression that may be missing, as a part.
pub open spec fn opt_box_node(e: Option<Box<Expr>>) -> Seq<Node> {
    match e {
        Some(e) => seq![Node::Expr(*e)],
        None => Seq::empty(),
    }
}

/// A statement that may be missing, as a part.
pub open spec fn opt_stmt_node(s: Option<Box<Stmt>>) -> Seq<Node> {
    match s {
        Some(s) => seq![Node::Stmt(*s)],
        None => Seq::empty(),
    }
}

/// The parts of a node, in the order in which they are written.
pub open spec fn children(n: Node) -> Seq<Node> {
    match n {
        Node::Stmt(s) => match s {
            Stmt::Root(b) => stmt_nodes(b),
            Stmt::Block(b) => stmt_nodes(b),
            Stmt::Function(_, _, _, b, _) => seq![Node::Stmt(*b)],
            Stmt::Return(v, _) => opt_node(v),
            Stmt::Assign(_, _, _, v, _) => seq![Node::Expr(v)],
            Stmt::ExpressionStatement(e, _) => seq![Node::Expr(e)],
            Stmt::If(c, b, o, _) => seq![Node::Expr(c)] + stmt_nodes(b) + opt_stmt_node(o),
            Stmt::Reassign(t, v, _) => seq![Node::Expr(t)] + seq![Node::Expr(v)],
            Stmt::While(c, b, _) => seq![Node::Expr(c)] + stmt_nodes(b),
            Stmt::For(c, b, _) => opt_node(c) + stmt_nodes(b),
            Stmt::ForIn(_, it, e, _, b, _) => seq![Node::Expr(it)] + opt_node(e) + stmt_nodes(b),
            Stmt::Destructure(_, _, v, _) => seq![Node::Expr(v)],
            Stmt::Group(b) => stmt_nodes(b),
            Stmt::CompoundAssign(t, _, v, _) => seq![Node::Expr(t)] + seq![Node::Expr(v)],
            Stmt::Impl(_, _, b, _) => stmt_nodes(b),
            Stmt::Generic(_, _, b) => seq![Node::Stmt(*b)],
            Stmt::Interface(_, ms, _) => method_nodes(ms),
            _ => Seq::empty(),
        },
        Node::Expr(e) => match e.kind {
            ExprKind::Infix(l, _, r) => seq![Node::Expr(*l)] + seq![Node::Expr(*r)],
            ExprKind::FunctionCall(f, a) => seq![Node::Expr(*f)] + expr_nodes(a),
            ExprKind::Not(x) => seq![Node::Expr(*x)],
            ExprKind::BitNot(x) => seq![Node::Expr(*x)],
            ExprKind::Negate(x) => seq![Node::Expr(*x)],
            ExprKind::Pointer(x) => seq![Node::Expr(*x)],
            ExprKind::Deref(x) => seq![Node::Expr(*x)],
            ExprKind::Interpolation(a) => expr_nodes(a),
            ExprKind::Array(a) => expr_nodes(a),
            ExprKind::Tuple(a) => expr_nodes(a),
            ExprKind::Try(x) => seq![Node::Expr(*x)],
            ExprKind::If(c, x, y) => seq![Node::Expr(*c)] + seq![Node::Expr(*x)] + opt_box_node(y),
            ExprKind::Closure(_, _, b) => stmt_nodes(b),
            ExprKind::MakeClosure(_, a) => expr_nodes(a),
            ExprKind::NewCell(x) => seq![Node::Expr(*x)],
            ExprKind::CallClosure(f, a) => seq![Node::Expr(*f)] + expr_nodes(a),
            ExprKind::ArrayAccess(x, y) => seq![Node::Expr(*x)] + seq![Node::Expr(*y)],
            ExprKind::StructInitialisation(x, fs) => seq![Node::Expr(*x)] + field_nodes(fs),
            ExprKind::StructAccess(x, y) => seq![Node::Expr(*x)] + seq![Node::Expr(*y)],
            ExprKind::NamespaceAccess(x, y) => seq![Node::Expr(*x)] + seq![Node::Expr(*y)],
            ExprKind::Match(x, cs) => seq![Node::Expr(*x)] + arm_nodes(cs),
            ExprKind::Cast(x, _) => seq![Node::Expr(*x)],
            ExprKind::Alloc(x) => seq![Node::Expr(*x)],
            ExprKind::Block(b, l) => stmt_nodes(b) + opt_box_node(l),
            _ => Seq::empty(),
        },
        Node::Pat(p) => match p {
            Pat::Or(ps) => pat_nodes(ps),
            Pat::Guarded(p, g) => seq![Node::Pat(*p)] + seq![Node::Expr(*g)],
            Pat::Tuple(ps) => pat_nodes(ps),
            _ => Seq::empty(),
        },
    }
}

/// The node that `path` leads to, one step to a part after the other.
pub open spec fn at(n: Node, path: Seq<int>) -> Option<Node>
    decreases path.len(),
{
    if path.len() == 0 {
        Some(n)
    } else if 0 <= path[0] < children(n).len() {
        at(children(n)[path[0]], path.skip(1))
    } else {
        None
    }
}

// ---------------------------------------------------------------------------
// Types

/// The types of typed names.
pub open spec fn typed_types(s: Seq<(Ty, Seq<char>)>) -> Seq<Ty> {
    Seq::new(s.len(), |i: int| s[i].0)
}

/// The type that is there.
pub open spec fn opt_types(t: Option<Ty>) -> Seq<Ty> {
    match t {
        Some(t) => seq![t],
        None => Seq::empty(),
    }
}

/// The types in the first `n` payloads.
pub open spec fn payload_types(s: Seq<Seq<Ty>>, n: int) -> Seq<Ty>
    decreases n,
{
    if n <= 0 {
        Seq::empty()
    } else {
        payload_types(s, n - 1) + s[n - 1]
    }
}

/// The types of the first `n` parameters of a closure.
pub open spec fn param_types(s: Seq<(Option<Ty>, Seq<char>)>, n: int) -> Seq<Ty>
    decreases n,
{
    if n <= 0 {
        Seq::empty()
    } else {
        param_types(s, n - 1) + opt_types(s[n - 1].0)
    }
}

/// The types that stand directly in a node.
pub open spec fn types(n: Node) -> Seq<Ty> {
    match n {
        Node::Stmt(s) => match s {
            Stmt::Function(_, a, r, _, _) => typed_types(a) + seq![r],
            Stmt::Assign(_, _, t, _, _) => opt_types(t),
            Stmt::ExternFunction(_, _, a, r, _) => a + seq![r],
            Stmt::Struct(_, a, _) => typed_types(a),
            Stmt::Impl(t, of, _, _) => seq![t] + opt_types(of),
            Stmt::Enum(_, _, ps, _) => payload_types(ps, ps.len() as int),
            Stmt::TypeAlias(_, t, _) => seq![t],
            Stmt::Conforms(t, _, _) => seq![t],
            _ => Seq::empty(),
        },
        Node::Expr(e) => seq![e.typed] + match e.kind {
            ExprKind::SizeOf(t) => seq![t],
            ExprKind::Closure(ps, r, _) => param_types(ps, ps.len() as int) + opt_types(r),
            ExprKind::Cast(_, t) => seq![t],
            ExprKind::Turbofish(_, ts) => ts,
            _ => Seq::empty(),
        },
        Node::Pat(p) => Seq::empty(),
    }
}

// ---------------------------------------------------------------------------
// What is left without types and parts

/// A statement that stands for any other.
pub open spec fn blank_stmt() -> Stmt {
    Stmt::Group(Seq::empty())
}

/// An expression that stands for any other.
pub open spec fn blank_expr() -> Expr {
    Expr { kind: ExprKind::Null, typed: Ty::Infer, span: Span { start: 0, end: 0 } }
}

/// A pattern that stands for any other.
pub open spec fn blank_pat() -> Pat {
    Pat::Wildcard
}

/// Statements that stand for any others.
pub open spec fn blank_stmts(n: nat) -> Seq<Stmt> {
    Seq::new(n, |i: int| blank_stmt())
}

/// Expressions that stand for any others.
pub open spec fn blank_exprs(n: nat) -> Seq<Expr> {
    Seq::new(n, |i: int| blank_expr())
}

/// Patterns that stand for any others.
pub open spec fn blank_pats(n: nat) -> Seq<Pat> {
    Seq::new(n, |i: int| blank_pat())
}

/// Arms that stand for any others.
pub open spec fn blank_arms(n: nat) -> Seq<(Pat, Expr)> {
    Seq::new(n, |i: int| (blank_pat(), blank_expr()))
}

/// Types that stand for any others.
pub open spec fn blank_types(n: nat) -> Seq<Ty> {
    Seq::new(n, |i: int| Ty::Infer)
}

/// The names of named expressions.
pub open spec fn blank_fields(fs: Seq<(Seq<char>, Expr)>) -> Seq<(Seq<char>, Expr)> {
    Seq::new(fs.len(), |i: int| (fs[i].0, blank_expr()))
}

/// Which methods of an interface have a default body.
pub open spec fn blank_methods(ms: Seq<(Stmt, bool)>) -> Seq<(Stmt, bool)> {
    Seq::new(ms.len(), |i: int| (blank_stmt(), ms[i].1))
}

/// The names of typed names.
pub open spec fn blank_typed(s: Seq<(Ty, Seq<char>)>) -> Seq<(Ty, Seq<char>)> {
    Seq::new(s.len(), |i: int| (Ty::Infer, s[i].1))
}

/// How many types each payload has.
pub open spec fn blank_payloads(s: Seq<Seq<Ty>>) -> Seq<Seq<Ty>> {
    Seq::new(s.len(), |i: int| blank_types(s[i].len()))
}

/// The names of parameters, and which of them have types.
pub open spec fn blank_params(s: Seq<(Option<Ty>, Seq<char>)>) -> Seq<(Option<Ty>, Seq<char>)> {
    Seq::new(
        s.len(),
        |i: int|
            (
                if s[i].0 is Some {
                    Some(Ty::Infer)
                } else {
                    None
                },
                s[i].1,
            ),
    )
}

/// The statement without its types and parts.
pub open spec fn stmt_shell(s: Stmt) -> Stmt {
    match s {
        Stmt::Root(b) => Stmt::Root(
            blank_stmts(b.len()),
        ),
        Stmt::Block(b) => Stmt::Block(
            blank_stmts(b.len()),
        ),
        Stmt::Function(n, a, r, b, sp) => Stmt::Function(
            n,
            blank_typed(a),
            Ty::Infer,
            Box::new(blank_stmt()),
            sp,
        ),
        Stmt::Return(v, sp) => Stmt::Return(
            if v is Some { Some(blank_expr()) } else { None },
            sp,
        ),
        Stmt::Assign(mu, n, t, v, sp) => Stmt::Assign(
            mu,
            n,
            if t is Some { Some(Ty::Infer) } else { None },
            blank_expr(),
            sp,
        ),
        Stmt::ExpressionStatement(e, sp) => Stmt::ExpressionStatement(
            blank_expr(),
            sp,
        ),
        Stmt::If(c, b, o, sp) => Stmt::If(
            blank_expr(),
            blank_stmts(b.len()),
            if o is Some { Some(Box::new(blank_stmt())) } else { None },
            sp,
        ),
        Stmt::ExternFunction(n, va, a, r, sp) => Stmt::ExternFunction(
            n,
            va,
            blank_types(a.len()),
            Ty::Infer,
            sp,
        ),
        Stmt::Reassign(t, v, sp) => Stmt::Reassign(
            blank_expr(),
            blank_expr(),
            sp,
        ),
        Stmt::While(c, b, sp) => Stmt::While(
            blank_expr(),
            blank_stmts(b.len()),
            sp,
        ),
        Stmt::For(c, b, sp) => Stmt::For(
            if c is Some { Some(blank_expr()) } else { None },
            blank_stmts(b.len()),
            sp,
        ),
        Stmt::ForIn(n, it, e, inc, b, sp) => Stmt::ForIn(
            n,
            blank_expr(),
            if e is Some { Some(blank_expr()) } else { None },
            inc,
            blank_stmts(b.len()),
            sp,
        ),
        Stmt::Destructure(mu, ns, v, sp) => Stmt::Destructure(
            mu,
            ns,
            blank_expr(),
            sp,
        ),
        Stmt::Group(b) => Stmt::Group(
            blank_stmts(b.len()),
        ),
        Stmt::CompoundAssign(t, op, v, sp) => Stmt::CompoundAssign(
            blank_expr(),
            op,
            blank_expr(),
            sp,
        ),
        Stmt::Struct(n, a, sp) => Stmt::Struct(
            n,
            blank_typed(a),
            sp,
        ),
        Stmt::Impl(t, of, b, sp) => Stmt::Impl(
            Ty::Infer,
            if of is Some { Some(Ty::Infer) } else { None },
            blank_stmts(b.len()),
            sp,
        ),
        Stmt::Enum(n, vs, ps, sp) => Stmt::Enum(
            n,
            vs,
            blank_payloads(ps),
            sp,
        ),
        Stmt::TypeAlias(n, t, sp) => Stmt::TypeAlias(
            n,
            Ty::Infer,
            sp,
        ),
        Stmt::Generic(ps, bs, b) => Stmt::Generic(
            ps,
            bs,
            Box::new(blank_stmt()),
        ),
        Stmt::Interface(n, ms, sp) => Stmt::Interface(
            n,
            blank_methods(ms),
            sp,
        ),
        Stmt::Conforms(t, ns, sp) => Stmt::Conforms(
            Ty::Infer,
            ns,
            sp,
        ),
        _ => s,
    }
}

/// What an expression is, without its types and parts.
pub open spec fn kind_shell(k: ExprKind) -> ExprKind {
    match k {
        ExprKind::Infix(l, op, r) => ExprKind::Infix(
            Box::new(blank_expr()),
            op,
            Box::new(blank_expr()),
        ),
        ExprKind::FunctionCall(f, a) => ExprKind::FunctionCall(
            Box::new(blank_expr()),
            blank_exprs(a.len()),
        ),
        ExprKind::Not(x) => ExprKind::Not(
            Box::new(blank_expr()),
        ),
        ExprKind::BitNot(x) => ExprKind::BitNot(
            Box::new(blank_expr()),
        ),
        ExprKind::SizeOf(t) => ExprKind::SizeOf(
            Ty::Infer,
        ),
        ExprKind::Negate(x) => ExprKind::Negate(
            Box::new(blank_expr()),
        ),
        ExprKind::Pointer(x) => ExprKind::Pointer(
            Box::new(blank_expr()),
        ),
        ExprKind::Deref(x) => ExprKind::Deref(
            Box::new(blank_expr()),
        ),
        ExprKind::Interpolation(a) => ExprKind::Interpolation(
            blank_exprs(a.len()),
        ),
        ExprKind::Array(a) => ExprKind::Array(
            blank_exprs(a.len()),
        ),
        ExprKind::Tuple(a) => ExprKind::Tuple(
            blank_exprs(a.len()),
        ),
        ExprKind::Try(x) => ExprKind::Try(
            Box::new(blank_expr()),
        ),
        ExprKind::If(c, x, y) => ExprKind::If(
            Box::new(blank_expr()),
            Box::new(blank_expr()),
            if y is Some { Some(Box::new(blank_expr())) } else { None },
        ),
        ExprKind::Closure(ps, r, b) => ExprKind::Closure(
            blank_params(ps),
            if r is Some { Some(Ty::Infer) } else { None },
            blank_stmts(b.len()),
        ),
        ExprKind::MakeClosure(n, a) => ExprKind::MakeClosure(
            n,
            blank_exprs(a.len()),
        ),
        ExprKind::NewCell(x) => ExprKind::NewCell(
            Box::new(blank_expr()),
        ),
        ExprKind::CallClosure(f, a) => ExprKind::CallClosure(
            Box::new(blank_expr()),
            blank_exprs(a.len()),
        ),
        ExprKind::ArrayAccess(x, y) => ExprKind::ArrayAccess(
            Box::new(blank_expr()),
            Box::new(blank_expr()),
        ),
        ExprKind::StructInitialisation(x, fs) => ExprKind::StructInitialisation(
            Box::new(blank_expr()),
            blank_fields(fs),
        ),
        ExprKind::StructAccess(x, y) => ExprKind::StructAccess(
            Box::new(blank_expr()),
            Box::new(blank_expr()),
        ),
        ExprKind::NamespaceAccess(x, y) => ExprKind::NamespaceAccess(
            Box::new(blank_expr()),
            Box::new(blank_expr()),
        ),
        ExprKind::Match(x, cs) => ExprKind::Match(
            Box::new(blank_expr()),
            blank_arms(cs.len()),
        ),
        ExprKind::Cast(x, t) => ExprKind::Cast(
            Box::new(blank_expr()),
            Ty::Infer,
        ),
        ExprKind::Alloc(x) => ExprKind::Alloc(
            Box::new(blank_expr()),
        ),
        ExprKind::Turbofish(n, ts) => ExprKind::Turbofish(
            n,
            blank_types(ts.len()),
        ),
        ExprKind::Block(b, l) => ExprKind::Block(
            blank_stmts(b.len()),
            if l is Some { Some(Box::new(blank_expr())) } else { None },
        ),
        _ => k,
    }
}

/// The pattern without its parts.
pub open spec fn pat_shell(p: Pat) -> Pat {
    match p {
        Pat::Or(ps) => Pat::Or(
            blank_pats(ps.len()),
        ),
        Pat::Guarded(p, g) => Pat::Guarded(
            Box::new(blank_pat()),
            Box::new(blank_expr()),
        ),
        Pat::Tuple(ps) => Pat::Tuple(
            blank_pats(ps.len()),
        ),
        _ => p,
    }
}

/// The node without its types and parts.
pub open spec fn shell(n: Node) -> Node {
    match n {
        Node::Stmt(s) => Node::Stmt(stmt_shell(s)),
        Node::Expr(e) => Node::Expr(
            Expr { kind: kind_shell(e.kind), typed: Ty::Infer, span: e.span },
        ),
        Node::Pat(p) => Node::Pat(pat_shell(p)),
    }
}

/// The names that a node binds as types in its parts: the parameters of a generic
/// definition.
pub open spec fn binds(n: Node) -> Seq<Seq<char>> {
    match n {
        Node::Stmt(Stmt::Generic(params, _, _)) => params,
        _ => Seq::empty(),
    }
}

/// The names that are bound as types along a path.
pub open spec fn bound_along(n: Node, path: Seq<int>) -> Seq<Seq<char>>
    decreases path.len(),
{
    if path.len() == 0 || !(0 <= path[0] < children(n).len()) {
        Seq::empty()
    } else {
        binds(n) + bound_along(children(n)[path[0]], path.skip(1))
    }
}

// ---------------------------------------------------------------------------
// How deep a tree goes

/// The larger one of two depths.
pub open spec fn deeper(a: nat, b: nat) -> nat {
    if a < b {
        b
    } else {
        a
    }
}

/// How deep a statement goes.
pub open spec fn stmt_depth(s: Stmt) -> nat
    decreases s, 0int,
{
    match s {
        Stmt::Root(b) => 1 + stmts_depth(b, b.len() as int),
        Stmt::Block(b) => 1 + stmts_depth(b, b.len() as int),
        Stmt::Function(_, _, _, b, _) => 1 + stmt_depth(*b),
        Stmt::Return(v, _) => 1 + match v { Some(x) => expr_depth(x), None => 0 },
        Stmt::Assign(_, _, _, v, _) => 1 + expr_depth(v),
        Stmt::ExpressionStatement(e, _) => 1 + expr_depth(e),
        Stmt::If(c, b, o, _) => 1 + deeper(expr_depth(c), deeper(stmts_depth(b, b.len() as int), match o { Some(x) => stmt_depth(*x), None => 0 })),
        Stmt::Reassign(t, v, _) => 1 + deeper(expr_depth(t), expr_depth(v)),
        Stmt::While(c, b, _) => 1 + deeper(expr_depth(c), stmts_depth(b, b.len() as int)),
        Stmt::For(c, b, _) => 1 + deeper(match c { Some(x) => expr_depth(x), None => 0 }, stmts_depth(b, b.len() as int)),
        Stmt::ForIn(_, it, e, _, b, _) => 1 + deeper(expr_depth(it), deeper(match e { Some(x) => expr_depth(x), None => 0 }, stmts_depth(b, b.len() as int))),
        Stmt::Destructure(_, _, v, _) => 1 + expr_depth(v),
        Stmt::Group(b) => 1 + stmts_depth(b, b.len() as int),
        Stmt::CompoundAssign(t, _, v, _) => 1 + deeper(expr_depth(t), expr_depth(v)),
        Stmt::Impl(_, _, b, _) => 1 + stmts_depth(b, b.len() as int),
        Stmt::Generic(_, _, b) => 1 + stmt_depth(*b),
        Stmt::Interface(_, ms, _) => 1 + methods_depth(ms, ms.len() as int),
        _ => 0,
    }
}

/// How deep an expression goes.
pub open spec fn expr_depth(e: Expr) -> nat
    decreases e, 0int,
{
    match e.kind {
        ExprKind::Infix(l, _, r) => 1 + deeper(expr_depth(*l), expr_depth(*r)),
        ExprKind::FunctionCall(f, a) => 1 + deeper(expr_depth(*f), exprs_depth(a, a.len() as int)),
        ExprKind::Not(x) => 1 + expr_depth(*x),
        ExprKind::BitNot(x) => 1 + expr_depth(*x),
        ExprKind::Negate(x) => 1 + expr_depth(*x),
        ExprKind::Pointer(x) => 1 + expr_depth(*x),
        ExprKind::Deref(x) => 1 + expr_depth(*x),
        ExprKind::Interpolation(a) => 1 + exprs_depth(a, a.len() as int),
        ExprKind::Array(a) => 1 + exprs_depth(a, a.len() as int),
        ExprKind::Tuple(a) => 1 + exprs_depth(a, a.len() as int),
        ExprKind::Try(x) => 1 + expr_depth(*x),
        ExprKind::If(c, x, y) => 1 + deeper(expr_depth(*c), deeper(expr_depth(*x), match y { Some(x) => expr_depth(*x), None => 0 })),
        ExprKind::Closure(_, _, b) => 1 + stmts_depth(b, b.len() as int),
        ExprKind::MakeClosure(_, a) => 1 + exprs_depth(a, a.len() as int),
        ExprKind::NewCell(x) => 1 + expr_depth(*x),
        ExprKind::CallClosure(f, a) => 1 + deeper(expr_depth(*f), exprs_depth(a, a.len() as int)),
        ExprKind::ArrayAccess(x, y) => 1 + deeper(expr_depth(*x), expr_depth(*y)),
        ExprKind::StructInitialisation(x, fs) => 1 + deeper(expr_depth(*x), fields_depth(fs, fs.len() as int)),
        ExprKind::StructAccess(x, y) => 1 + deeper(expr_depth(*x), expr_depth(*y)),
        ExprKind::NamespaceAccess(x, y) => 1 + deeper(expr_depth(*x), expr_depth(*y)),
        ExprKind::Match(x, cs) => 1 + deeper(expr_depth(*x), arms_depth(cs, cs.len() as int)),
        ExprKind::Cast(x, _) => 1 + expr_depth(*x),
        ExprKind::Alloc(x) => 1 + expr_depth(*x),
        ExprKind::Block(b, l) => 1 + deeper(stmts_depth(b, b.len() as int), match l { Some(x) => expr_depth(*x), None => 0 }),
        _ => 0,
    }
}

/// How deep a pattern goes.
pub open spec fn pat_depth(p: Pat) -> nat
    decreases p, 0int,
{
    match p {
        Pat::Or(ps) => 1 + pats_depth(ps, ps.len() as int),
        Pat::Guarded(p, g) => 1 + deeper(pat_depth(*p), expr_depth(*g)),
        Pat::Tuple(ps) => 1 + pats_depth(ps, ps.len() as int),
        _ => 0,
    }
}

/// How deep the first `k` of some statements go.
pub open spec fn stmts_depth(ss: Seq<Stmt>, k: int) -> nat
    decreases ss, k,
{
    if k <= 0 || k > ss.len() {
        0
    } else {
        deeper(stmts_depth(ss, k - 1), stmt_depth(ss[k - 1]))
    }
}

/// How deep the first `k` of some expressions go.
pub open spec fn exprs_depth(ss: Seq<Expr>, k: int) -> nat
    decreases ss, k,
{
    if k <= 0 || k > ss.len() {
        0
    } else {
        deeper(exprs_depth(ss, k - 1), expr_depth(ss[k - 1]))
    }
}

/// How deep the first `k` of some patterns go.
pub open spec fn pats_depth(ss: Seq<Pat>, k: int) -> nat
    decreases ss, k,
{
    if k <= 0 || k > ss.len() {
        0
    } else {
        deeper(pats_depth(ss, k - 1), pat_depth(ss[k - 1]))
    }
}

/// How deep the first `k` of some named expressions go.
pub open spec fn fields_depth(ss: Seq<(Seq<char>, Expr)>, k: int) -> nat
    decreases ss, k,
{
    if k <= 0 || k > ss.len() {
        0
    } else {
        deeper(fields_depth(ss, k - 1), expr_depth(ss[k - 1].1))
    }
}

/// How deep the first `k` of some methods go.
pub open spec fn methods_depth(ss: Seq<(Stmt, bool)>, k: int) -> nat
    decreases ss, k,
{
    if k <= 0 || k > ss.len() {
        0
    } else {
        deeper(methods_depth(ss, k - 1), stmt_depth(ss[k - 1].0))
    }
}

/// How deep the first `k` of some arms go.
pub open spec fn arms_depth(ss: Seq<(Pat, Expr)>, k: int) -> nat
    decreases ss, k,
{
    if k <= 0 || k > ss.len() {
        0
    } else {
        deeper(arms_depth(ss, k - 1), deeper(pat_depth(ss[k - 1].0), expr_depth(ss[k - 1].1)))
    }
}

/// How deep a node goes.
pub open spec fn depth(n: Node) -> nat {
    match n {
        Node::Stmt(s) => stmt_depth(s),
        Node::Expr(e) => expr_depth(e),
        Node::Pat(p) => pat_depth(p),
    }
}

/// None of some statements goes deeper than all of them.
proof fn lemma_stmts_depth(ss: Seq<Stmt>, k: int, i: int)
    requires
        0 <= i < k <= ss.len(),
    ensures
        stmt_depth(ss[i]) <= stmts_depth(ss, k),
    decreases k,
{
    if i < k - 1 {
        lemma_stmts_depth(ss, k - 1, i);
    }
}

/// None of some expressions goes deeper than all of them.
proof fn lemma_exprs_depth(ss: Seq<Expr>, k: int, i: int)
    requires
        0 <= i < k <= ss.len(),
    ensures
        expr_depth(ss[i]) <= exprs_depth(ss, k),
    decreases k,
{
    if i < k - 1 {
        lemma_exprs_depth(ss, k - 1, i);
    }
}

/// None of some patterns goes deeper than all of them.
proof fn lemma_pats_depth(ss: Seq<Pat>, k: int, i: int)
    requires
        0 <= i < k <= ss.len(),
    ensures
        pat_depth(ss[i]) <= pats_depth(ss, k),
    decreases k,
{
    if i < k - 1 {
        lemma_pats_depth(ss, k - 1, i);
    }
}

/// None of some named expressions goes deeper than all of them.
proof fn lemma_fields_depth(ss: Seq<(Seq<char>, Expr)>, k: int, i: int)
    requires
        0 <= i < k <= ss.len(),
    ensures
        expr_depth(ss[i].1) <= fields_depth(ss, k),
    decreases k,
{
    if i < k - 1 {
        lemma_fields_depth(ss, k - 1, i);
    }
}

/// None of some methods goes deeper than all of them.
proof fn lemma_methods_depth(ss: Seq<(Stmt, bool)>, k: int, i: int)
    requires
        0 <= i < k <= ss.len(),
    ensures
        stmt_depth(ss[i].0) <= methods_depth(ss, k),
    decreases k,
{
    if i < k - 1 {
        lemma_methods_depth(ss, k - 1, i);
    }
}

/// None of some arms goes deeper than all of them.
proof fn lemma_arms_depth(ss: Seq<(Pat, Expr)>, k: int, i: int)
    requires
        0 <= i < k <= ss.len(),
    ensures
        deeper(pat_depth(ss[i].0), expr_depth(ss[i].1)) <= arms_depth(ss, k),
    decreases k,
{
    if i < k - 1 {
        lemma_arms_depth(ss, k - 1, i);
    }
}

/// A part does not go as deep as the node that it stands in.
pub proof fn lemma_parts_are_less_deep(n: Node, i: int)
    requires
        0 <= i < children(n).len(),
    ensures
        depth(children(n)[i]) < depth(n),
{
    match n {
        Node::Stmt(s) => match s {
            Stmt::Root(b) => {
                if i < stmt_nodes(b).len() {
                    lemma_stmts_depth(b, b.len() as int, i);
                }
            },
            Stmt::Block(b) => {
                if i < stmt_nodes(b).len() {
                    lemma_stmts_depth(b, b.len() as int, i);
                }
            },
            Stmt::If(c, b, o, _) => {
                if 1 <= i < 1 + stmt_nodes(b).len() {
                    lemma_stmts_depth(b, b.len() as int, i - 1);
                }
            },
            Stmt::While(c, b, _) => {
                if 1 <= i < 1 + stmt_nodes(b).len() {
                    lemma_stmts_depth(b, b.len() as int, i - 1);
                }
            },
            Stmt::For(c, b, _) => {
                if opt_node(c).len() <= i < opt_node(c).len() + stmt_nodes(b).len() {
                    lemma_stmts_depth(b, b.len() as int, i - opt_node(c).len());
                }
            },
            Stmt::ForIn(_, it, e, _, b, _) => {
                if 1 + opt_node(e).len() <= i < 1 + opt_node(e).len() + stmt_nodes(b).len() {
                    lemma_stmts_depth(b, b.len() as int, i - (1 + opt_node(e).len()));
                }
            },
            Stmt::Group(b) => {
                if i < stmt_nodes(b).len() {
                    lemma_stmts_depth(b, b.len() as int, i);
                }
            },
            Stmt::Impl(_, _, b, _) => {
                if i < stmt_nodes(b).len() {
                    lemma_stmts_depth(b, b.len() as int, i);
                }
            },
            Stmt::Interface(_, ms, _) => {
                if i < method_nodes(ms).len() {
                    lemma_methods_depth(ms, ms.len() as int, i);
                }
            },
            _ => {},
        },
        Node::Expr(e) => match e.kind {
            ExprKind::FunctionCall(f, a) => {
                if 1 <= i < 1 + expr_nodes(a).len() {
                    lemma_exprs_depth(a, a.len() as int, i - 1);
                }
            },
            ExprKind::Interpolation(a) => {
                if i < expr_nodes(a).len() {
                    lemma_exprs_depth(a, a.len() as int, i);
                }
            },
            ExprKind::Array(a) => {
                if i < expr_nodes(a).len() {
                    lemma_exprs_depth(a, a.len() as int, i);
                }
            },
            ExprKind::Tuple(a) => {
                if i < expr_nodes(a).len() {
                    lemma_exprs_depth(a, a.len() as int, i);
                }
            },
            ExprKind::Closure(_, _, b) => {
                if i < stmt_nodes(b).len() {
                    lemma_stmts_depth(b, b.len() as int, i);
                }
            },
            ExprKind::MakeClosure(_, a) => {
                if i < expr_nodes(a).len() {
                    lemma_exprs_depth(a, a.len() as int, i);
                }
            },
            ExprKind::CallClosure(f, a) => {
                if 1 <= i < 1 + expr_nodes(a).len() {
                    lemma_exprs_depth(a, a.len() as int, i - 1);
                }
            },
            ExprKind::StructInitialisation(x, fs) => {
                if 1 <= i < 1 + field_nodes(fs).len() {
                    lemma_fields_depth(fs, fs.len() as int, i - 1);
                }
            },
            ExprKind::Match(x, cs) => {
                if 1 <= i < 1 + arm_nodes(cs).len() {
                    lemma_arms_depth(cs, cs.len() as int, (i - 1) / 2);
                }
            },
            ExprKind::Block(b, l) => {
                if i < stmt_nodes(b).len() {
                    lemma_stmts_depth(b, b.len() as int, i);
                }
            },
            _ => {},
        },
        Node::Pat(p) => match p {
            Pat::Or(ps) => {
                if i < pat_nodes(ps).len() {
                    lemma_pats_depth(ps, ps.len() as int, i);
                }
            },
            Pat::Tuple(ps) => {
                if i < pat_nodes(ps).len() {
                    lemma_pats_depth(ps, ps.len() as int, i);
                }
            },
            _ => {},
        },
    }
}

} // verus!
