//! Generic definitions: putting types in the place of type parameters throughout a
//! tree, and inferring type arguments by unification.

pub mod everywhere;

use std::rc::Rc;
use vstd::hash_map::StringHashMap;
use vstd::prelude::*;
use vstd::string::*;
use crate::ast;
use crate::ast::{
    Expr, ExprKind, Expression, ExpressionNode, MatchPattern, Pat, Statement, Stmt,
    TypedIdentifier,
};
use crate::text::same;
use crate::types;
use crate::types::{AzulaType, Ty};

verus! {

/// The types that stand for type parameters.
pub type Substitution<'a> = StringHashMap<AzulaType<'a>>;

/// The generic type that each instance is made of, and the types it is made with.
pub type Instances<'a> = StringHashMap<(String, Vec<AzulaType<'a>>)>;

/// The model of a substitution.
pub open spec fn map_of<'a>(m: Map<Seq<char>, AzulaType<'a>>) -> Map<Seq<char>, Ty> {
    m.map_values(|t: AzulaType<'a>| types::ty_of(t))
}

/// The type with the types of `m` in the place of its parameters.
pub open spec fn substituted(t: Ty, m: Map<Seq<char>, Ty>) -> Ty
    decreases t,
{
    match t {
        Ty::Named(n) => if m.contains_key(n) {
            m[n]
        } else {
            t
        },
        Ty::Pointer(p) => Ty::Pointer(Box::new(substituted(*p, m))),
        Ty::Array(p, n) => Ty::Array(Box::new(substituted(*p, m)), n),
        Ty::Generic(n, args) => Ty::Generic(n, all_substituted(args, m)),
        Ty::Function(args, result) => Ty::Function(
            all_substituted(args, m),
            Box::new(substituted(*result, m)),
        ),
        _ => t,
    }
}

/// The types of a list, each with the types of `m` in the place of its parameters.
pub open spec fn all_substituted(ts: Seq<Ty>, m: Map<Seq<char>, Ty>) -> Seq<Ty>
    decreases ts,
{
    Seq::new(
        ts.len(),
        |i: int| if 0 <= i < ts.len() { substituted(ts[i], m) } else { arbitrary() },
    )
}

/// The type that is there, with the types of `m` in the place of its parameters.
pub open spec fn opt_substituted(t: Option<Ty>, m: Map<Seq<char>, Ty>) -> Option<Ty> {
    match t {
        Some(t) => Some(substituted(t, m)),
        None => None,
    }
}

/// Typed names, with the types of `m` in the place of type parameters.
pub open spec fn typed_substituted(s: Seq<(Ty, Seq<char>)>, m: Map<Seq<char>, Ty>) -> Seq<
    (Ty, Seq<char>),
> {
    Seq::new(s.len(), |i: int| (substituted(s[i].0, m), s[i].1))
}

/// The parameters of a closure, with the types of `m` in the place of type parameters.
pub open spec fn params_substituted(s: Seq<(Option<Ty>, Seq<char>)>, m: Map<Seq<char>, Ty>) -> Seq<
    (Option<Ty>, Seq<char>),
> {
    Seq::new(s.len(), |i: int| (opt_substituted(s[i].0, m), s[i].1))
}

/// The payload types of variants, with the types of `m` in the place of type
/// parameters.
pub open spec fn payloads_substituted(s: Seq<Seq<Ty>>, m: Map<Seq<char>, Ty>) -> Seq<Seq<Ty>> {
    Seq::new(s.len(), |i: int| all_substituted(s[i], m))
}

/// The types that stand for names other than `names`.
pub open spec fn without(m: Map<Seq<char>, Ty>, names: Seq<Seq<char>>) -> Map<Seq<char>, Ty> {
    m.remove_keys(names.to_set())
}

/// The statement with the types of `m` in the place of type parameters. A generic
/// definition binds its own parameters, so these are not replaced in it.
pub open spec fn stmt_substituted(s: Stmt, m: Map<Seq<char>, Ty>) -> Stmt
    decreases s,
{
    match s {
        Stmt::Root(body) => Stmt::Root(stmts_substituted(body, m)),
        Stmt::Block(body) => Stmt::Block(stmts_substituted(body, m)),
        Stmt::Function(name, args, result, body, span) => Stmt::Function(
            name,
            typed_substituted(args, m),
            substituted(result, m),
            Box::new(stmt_substituted(*body, m)),
            span,
        ),
        Stmt::Return(v, span) => Stmt::Return(
            match v {
                Some(v) => Some(expr_substituted(v, m)),
                None => None,
            },
            span,
        ),
        Stmt::Assign(mutable, name, t, v, span) => Stmt::Assign(
            mutable,
            name,
            opt_substituted(t, m),
            expr_substituted(v, m),
            span,
        ),
        Stmt::ExpressionStatement(e, span) => Stmt::ExpressionStatement(
            expr_substituted(e, m),
            span,
        ),
        Stmt::If(c, body, other, span) => Stmt::If(
            expr_substituted(c, m),
            stmts_substituted(body, m),
            match other {
                Some(o) => Some(Box::new(stmt_substituted(*o, m))),
                None => None,
            },
            span,
        ),
        Stmt::Reassign(t, v, span) => Stmt::Reassign(
            expr_substituted(t, m),
            expr_substituted(v, m),
            span,
        ),
        Stmt::While(c, body, span) => Stmt::While(
            expr_substituted(c, m),
            stmts_substituted(body, m),
            span,
        ),
        Stmt::For(c, body, span) => Stmt::For(
            match c {
                Some(c) => Some(expr_substituted(c, m)),
                None => None,
            },
            stmts_substituted(body, m),
            span,
        ),
        Stmt::ForIn(name, it, end, inclusive, body, span) => Stmt::ForIn(
            name,
            expr_substituted(it, m),
            match end {
                Some(e) => Some(expr_substituted(e, m)),
                None => None,
            },
            inclusive,
            stmts_substituted(body, m),
            span,
        ),
        Stmt::CompoundAssign(t, op, v, span) => Stmt::CompoundAssign(
            expr_substituted(t, m),
            op,
            expr_substituted(v, m),
            span,
        ),
        Stmt::Destructure(mutable, names, v, span) => Stmt::Destructure(
            mutable,
            names,
            expr_substituted(v, m),
            span,
        ),
        Stmt::Group(body) => Stmt::Group(stmts_substituted(body, m)),
        Stmt::ExternFunction(name, varargs, args, result, span) => Stmt::ExternFunction(
            name,
            varargs,
            all_substituted(args, m),
            substituted(result, m),
            span,
        ),
        Stmt::Struct(name, attributes, span) => Stmt::Struct(
            name,
            typed_substituted(attributes, m),
            span,
        ),
        Stmt::Impl(t, of, funcs, span) => Stmt::Impl(
            substituted(t, m),
            opt_substituted(of, m),
            stmts_substituted(funcs, m),
            span,
        ),
        Stmt::Enum(name, variants, payloads, span) => Stmt::Enum(
            name,
            variants,
            payloads_substituted(payloads, m),
            span,
        ),
        Stmt::TypeAlias(name, t, span) => Stmt::TypeAlias(name, substituted(t, m), span),
        Stmt::Generic(params, bounds, inner) => Stmt::Generic(
            params,
            bounds,
            Box::new(stmt_substituted(*inner, without(m, params))),
        ),
        Stmt::Interface(name, methods, span) => Stmt::Interface(
            name,
            methods_substituted(methods, m),
            span,
        ),
        Stmt::Conforms(t, names, span) => Stmt::Conforms(substituted(t, m), names, span),
        _ => s,
    }
}

/// The methods of an interface, with the types of `m` in the place of type parameters.
pub open spec fn methods_substituted(s: Seq<(Stmt, bool)>, m: Map<Seq<char>, Ty>) -> Seq<
    (Stmt, bool),
>
    decreases s,
{
    Seq::new(
        s.len(),
        |i: int|
            if 0 <= i < s.len() {
                (stmt_substituted(s[i].0, m), s[i].1)
            } else {
                arbitrary()
            },
    )
}

/// Statements with the types of `m` in the place of type parameters.
pub open spec fn stmts_substituted(s: Seq<Stmt>, m: Map<Seq<char>, Ty>) -> Seq<Stmt>
    decreases s,
{
    Seq::new(
        s.len(),
        |i: int| if 0 <= i < s.len() { stmt_substituted(s[i], m) } else { arbitrary() },
    )
}

/// The expression with the types of `m` in the place of type parameters.
pub open spec fn expr_substituted(e: Expr, m: Map<Seq<char>, Ty>) -> Expr
    decreases e,
{
    Expr {
        kind: kind_substituted(e.kind, m),
        typed: substituted(e.typed, m),
        span: e.span,
    }
}

/// What an expression is, with the types of `m` in the place of type parameters.
pub open spec fn kind_substituted(k: ExprKind, m: Map<Seq<char>, Ty>) -> ExprKind
    decreases k,
{
    match k {
        ExprKind::Infix(l, op, r) => ExprKind::Infix(
            Box::new(expr_substituted(*l, m)),
            op,
            Box::new(expr_substituted(*r, m)),
        ),
        ExprKind::FunctionCall(f, args) => ExprKind::FunctionCall(
            Box::new(expr_substituted(*f, m)),
            exprs_substituted(args, m),
        ),
        ExprKind::Not(e) => ExprKind::Not(Box::new(expr_substituted(*e, m))),
        ExprKind::BitNot(e) => ExprKind::BitNot(Box::new(expr_substituted(*e, m))),
        ExprKind::SizeOf(t) => ExprKind::SizeOf(substituted(t, m)),
        ExprKind::Negate(e) => ExprKind::Negate(Box::new(expr_substituted(*e, m))),
        ExprKind::Pointer(e) => ExprKind::Pointer(Box::new(expr_substituted(*e, m))),
        ExprKind::Deref(e) => ExprKind::Deref(Box::new(expr_substituted(*e, m))),
        ExprKind::Array(es) => ExprKind::Array(exprs_substituted(es, m)),
        ExprKind::Interpolation(es) => ExprKind::Interpolation(exprs_substituted(es, m)),
        ExprKind::Tuple(es) => ExprKind::Tuple(exprs_substituted(es, m)),
        ExprKind::Try(e) => ExprKind::Try(Box::new(expr_substituted(*e, m))),
        ExprKind::If(c, a, b) => ExprKind::If(
            Box::new(expr_substituted(*c, m)),
            Box::new(expr_substituted(*a, m)),
            match b {
                Some(b) => Some(Box::new(expr_substituted(*b, m))),
                None => None,
            },
        ),
        ExprKind::Closure(params, result, body) => ExprKind::Closure(
            params_substituted(params, m),
            opt_substituted(result, m),
            stmts_substituted(body, m),
        ),
        ExprKind::MakeClosure(n, es) => ExprKind::MakeClosure(n, exprs_substituted(es, m)),
        ExprKind::NewCell(e) => ExprKind::NewCell(Box::new(expr_substituted(*e, m))),
        ExprKind::CallClosure(f, args) => ExprKind::CallClosure(
            Box::new(expr_substituted(*f, m)),
            exprs_substituted(args, m),
        ),
        ExprKind::ArrayAccess(a, i) => ExprKind::ArrayAccess(
            Box::new(expr_substituted(*a, m)),
            Box::new(expr_substituted(*i, m)),
        ),
        ExprKind::StructInitialisation(s, fs) => ExprKind::StructInitialisation(
            Box::new(expr_substituted(*s, m)),
            fields_substituted(fs, m),
        ),
        ExprKind::StructAccess(a, b) => ExprKind::StructAccess(
            Box::new(expr_substituted(*a, m)),
            Box::new(expr_substituted(*b, m)),
        ),
        ExprKind::NamespaceAccess(a, b) => ExprKind::NamespaceAccess(
            Box::new(expr_substituted(*a, m)),
            Box::new(expr_substituted(*b, m)),
        ),
        ExprKind::Match(e, arms) => ExprKind::Match(
            Box::new(expr_substituted(*e, m)),
            arms_substituted(arms, m),
        ),
        ExprKind::Cast(e, t) => ExprKind::Cast(
            Box::new(expr_substituted(*e, m)),
            substituted(t, m),
        ),
        ExprKind::Alloc(e) => ExprKind::Alloc(Box::new(expr_substituted(*e, m))),
        ExprKind::Turbofish(n, ts) => ExprKind::Turbofish(n, all_substituted(ts, m)),
        ExprKind::Block(body, last) => ExprKind::Block(
            stmts_substituted(body, m),
            match last {
                Some(l) => Some(Box::new(expr_substituted(*l, m))),
                None => None,
            },
        ),
        _ => k,
    }
}

/// Expressions with the types of `m` in the place of type parameters.
pub open spec fn exprs_substituted(s: Seq<Expr>, m: Map<Seq<char>, Ty>) -> Seq<Expr>
    decreases s,
{
    Seq::new(
        s.len(),
        |i: int| if 0 <= i < s.len() { expr_substituted(s[i], m) } else { arbitrary() },
    )
}

/// Named expressions with the types of `m` in the place of type parameters.
pub open spec fn fields_substituted(s: Seq<(Seq<char>, Expr)>, m: Map<Seq<char>, Ty>) -> Seq<
    (Seq<char>, Expr),
>
    decreases s,
{
    Seq::new(
        s.len(),
        |i: int|
            if 0 <= i < s.len() {
                (s[i].0, expr_substituted(s[i].1, m))
            } else {
                arbitrary()
            },
    )
}

/// Arms of a match with the types of `m` in the place of type parameters.
pub open spec fn arms_substituted(s: Seq<(Pat, Expr)>, m: Map<Seq<char>, Ty>) -> Seq<(Pat, Expr)>
    decreases s,
{
    Seq::new(
        s.len(),
        |i: int|
            if 0 <= i < s.len() {
                (pat_substituted(s[i].0, m), expr_substituted(s[i].1, m))
            } else {
                arbitrary()
            },
    )
}

/// The pattern with the types of `m` in the place of type parameters in its guards.
pub open spec fn pat_substituted(p: Pat, m: Map<Seq<char>, Ty>) -> Pat
    decreases p,
{
    match p {
        Pat::Or(ps) => Pat::Or(pats_substituted(ps, m)),
        Pat::Guarded(p, guard) => Pat::Guarded(
            Box::new(pat_substituted(*p, m)),
            Box::new(expr_substituted(*guard, m)),
        ),
        Pat::Tuple(ps) => Pat::Tuple(pats_substituted(ps, m)),
        _ => p,
    }
}

/// Patterns with the types of `m` in the place of type parameters in their guards.
pub open spec fn pats_substituted(s: Seq<Pat>, m: Map<Seq<char>, Ty>) -> Seq<Pat>
    decreases s,
{
    Seq::new(
        s.len(),
        |i: int| if 0 <= i < s.len() { pat_substituted(s[i], m) } else { arbitrary() },
    )
}

/// The types that stand for type parameters where some names are bound by generic
/// definitions around.
struct Visible<'m, 'a> {
    map: &'m Substitution<'a>,
    bound: Vec<&'a str>,
}

impl<'m, 'a> View for Visible<'m, 'a> {
    type V = Map<Seq<char>, Ty>;

    closed spec fn view(&self) -> Map<Seq<char>, Ty> {
        without(map_of(self.map@), ast::strs_of(self.bound@))
    }
}

impl<'m, 'a> Visible<'m, 'a> {
    /// All types of a substitution.
    fn new(map: &'m Substitution<'a>) -> (r: Self)
        ensures
            r@ == map_of(map@),
    {
        let r = Visible { map, bound: Vec::new() };
        assert(r@ =~= map_of(map@));
        r
    }

    /// The types that are left inside a generic definition with the parameters
    /// `params`.
    fn under(&self, params: &Vec<&'a str>) -> (r: Self)
        ensures
            r@ == without(self@, ast::strs_of(params@)),
    {
        let mut bound = ast::clone_strs(&self.bound);
        let ghost outer = ast::strs_of(self.bound@);
        let ghost own = ast::strs_of(params@);
        assert(ast::strs_of(bound@) =~= outer + own.take(0));
        let mut i: usize = 0;
        while i < params.len()
            invariant
                i <= params@.len(),
                own == ast::strs_of(params@),
                ast::strs_of(bound@) == outer + own.take(i as int),
            decreases params@.len() - i,
        {
            let ghost before = bound@;
            bound.push(params[i]);
            assert(ast::strs_of(bound@) =~= ast::strs_of(before).push(own[i as int]));
            assert(outer + own.take(i + 1) =~= (outer + own.take(i as int)).push(own[i as int]));
            i += 1;
        }
        assert(own.take(own.len() as int) =~= own);
        let r = Visible { map: self.map, bound };
        proof {
            lemma_without_twice(map_of(self.map@), outer, own);
        }
        r
    }

    /// The type that stands for a name, if there is one.
    fn get(&self, name: &str) -> (r: Option<&AzulaType<'a>>)
        ensures
            match r {
                Some(t) => self@.contains_key(name@) && self@[name@] == types::ty_of(*t),
                None => !self@.contains_key(name@),
            },
    {
        let ghost all = ast::strs_of(self.bound@);
        let mut i: usize = 0;
        while i < self.bound.len()
            invariant
                i <= self.bound@.len(),
                all == ast::strs_of(self.bound@),
                forall|j: int| 0 <= j < i ==> (#[trigger] all[j]) != name@,
            decreases self.bound@.len() - i,
        {
            assert(all[i as int] == self.bound@[i as int]@);
            if same(self.bound[i], name) {
                return None;
            }
            i += 1;
        }
        self.map.get(name)
    }
}

/// Names can be taken out one after the other.
proof fn lemma_without_twice(m: Map<Seq<char>, Ty>, a: Seq<Seq<char>>, b: Seq<Seq<char>>)
    ensures
        without(without(m, a), b) == without(m, a + b),
{
    assert forall|n: Seq<char>| #[trigger] (a + b).contains(n) == (a.contains(n) || b.contains(
        n,
    )) by {
        if a.contains(n) {
            let i = choose|i: int| 0 <= i < a.len() && a[i] == n;
            assert((a + b)[i] == n);
        }
        if b.contains(n) {
            let i = choose|i: int| 0 <= i < b.len() && b[i] == n;
            assert((a + b)[a.len() + i] == n);
        }
    }
    assert(without(without(m, a), b) =~= without(m, a + b));
}

/// Put types in the place of the parameters of a type.
pub fn subst_type<'a>(typ: &AzulaType<'a>, map: &Substitution<'a>) -> (r: AzulaType<'a>)
    ensures
        types::ty_of(r) == substituted(types::ty_of(*typ), map_of(map@)),
{
    replace_type(typ, &Visible::new(map))
}

/// Put types in the place of type parameters in a statement. The parameters that a
/// generic definition in it declares itself stay.
pub fn subst_stmt<'a>(stmt: &Statement<'a>, map: &Substitution<'a>) -> (r: Statement<'a>)
    ensures
        ast::stmt_of(r) == stmt_substituted(ast::stmt_of(*stmt), map_of(map@)),
{
    replace_stmt(stmt, &Visible::new(map))
}

/// Put types in the place of type parameters in an expression.
pub fn subst_expr<'a>(expr: &ExpressionNode<'a>, map: &Substitution<'a>) -> (r: ExpressionNode<'a>)
    ensures
        ast::expr_of(r) == expr_substituted(ast::expr_of(*expr), map_of(map@)),
{
    replace_expr(expr, &Visible::new(map))
}

/// Put types in the place of the parameters of a type.
fn replace_type<'a>(typ: &AzulaType<'a>, map: &Visible<'_, 'a>) -> (r: AzulaType<'a>)
    ensures
        types::ty_of(r) == substituted(types::ty_of(*typ), map@),
    decreases typ,
{
    reveal(types::ty_of);
    reveal(types::types_of);
    match typ {
        AzulaType::Named(name) => match map.get(name.as_str()) {
            Some(t) => t.clone(),
            None => AzulaType::Named(name.clone()),
        },
        AzulaType::Pointer(inner) => AzulaType::Pointer(Rc::new(replace_type(inner, map))),
        AzulaType::Array(inner, size) => AzulaType::Array(
            Rc::new(replace_type(inner, map)),
            *size,
        ),
        AzulaType::Generic(name, args) => AzulaType::Generic(name.clone(), subst_types(args, map)),
        AzulaType::Function(args, result) => AzulaType::Function(
            subst_types(args, map),
            Rc::new(replace_type(result, map)),
        ),
        _ => typ.clone(),
    }
}

/// Put types in the place of the parameters of the types of a list.
fn subst_types<'a>(ts: &Vec<AzulaType<'a>>, map: &Visible<'_, 'a>) -> (r: Vec<AzulaType<'a>>)
    ensures
        types::types_of(r@) == all_substituted(types::types_of(ts@), map@),
    decreases ts,
{
    reveal(types::ty_of);
    reveal(types::types_of);
    let ghost m = map@;
    let mut r: Vec<AzulaType<'a>> = Vec::new();
    let mut i: usize = 0;
    while i < ts.len()
        invariant
            i <= ts@.len(),
            m == map@,
            r@.len() == i,
            forall|j: int|
                0 <= j < i ==> types::ty_of(#[trigger] r@[j]) == substituted(
                    types::ty_of(ts@[j]),
                    m,
                ),
        decreases ts@.len() - i,
    {
        r.push(replace_type(&ts[i], map));
        i += 1;
    }
    assert(types::types_of(r@) =~= all_substituted(types::types_of(ts@), m));
    r
}

/// Put types in the place of type parameters in statements.
fn subst_body<'a>(body: &Vec<Statement<'a>>, map: &Visible<'_, 'a>) -> (r: Vec<Statement<'a>>)
    ensures
        ast::stmts_of(r@) == stmts_substituted(ast::stmts_of(body@), map@),
    decreases body,
{
    let ghost m = map@;
    let mut r: Vec<Statement<'a>> = Vec::new();
    let mut i: usize = 0;
    while i < body.len()
        invariant
            i <= body@.len(),
            m == map@,
            r@.len() == i,
            forall|j: int|
                0 <= j < i ==> ast::stmt_of(#[trigger] r@[j]) == stmt_substituted(
                    ast::stmt_of(body@[j]),
                    m,
                ),
        decreases body@.len() - i,
    {
        r.push(replace_stmt(&body[i], map));
        i += 1;
    }
    assert(ast::stmts_of(r@) =~= stmts_substituted(ast::stmts_of(body@), m));
    r
}

/// Put types in the place of type parameters in the arguments of a function.
fn subst_typed<'a>(args: &Vec<TypedIdentifier<'a>>, map: &Visible<'_, 'a>) -> (r: Vec<
    TypedIdentifier<'a>,
>)
    ensures
        ast::typed_of(r@) == typed_substituted(ast::typed_of(args@), map@),
{
    let ghost m = map@;
    let mut r: Vec<TypedIdentifier<'a>> = Vec::new();
    let mut i: usize = 0;
    while i < args.len()
        invariant
            i <= args@.len(),
            m == map@,
            r@.len() == i,
            forall|j: int|
                0 <= j < i ==> types::ty_of((#[trigger] r@[j]).0) == substituted(
                    types::ty_of(args@[j].0),
                    m,
                ) && r@[j].1@ == args@[j].1@,
        decreases args@.len() - i,
    {
        r.push((replace_type(&args[i].0, map), args[i].1));
        i += 1;
    }
    assert(ast::typed_of(r@) =~= typed_substituted(ast::typed_of(args@), m));
    r
}

/// Put types in the place of the parameters of the type that is there.
fn subst_opt_type<'a>(t: &Option<AzulaType<'a>>, map: &Visible<'_, 'a>) -> (r: Option<
    AzulaType<'a>,
>)
    ensures
        types::opt_ty_of(r) == opt_substituted(types::opt_ty_of(*t), map@),
{
    match t {
        Some(t) => Some(replace_type(t, map)),
        None => None,
    }
}

/// Put types in the place of type parameters in the parameters of a closure.
fn subst_params<'a>(params: &Vec<(Option<AzulaType<'a>>, String)>, map: &Visible<'_, 'a>) -> (r:
    Vec<(Option<AzulaType<'a>>, String)>)
    ensures
        ast::params_of(r@) == params_substituted(ast::params_of(params@), map@),
{
    let ghost m = map@;
    let mut r: Vec<(Option<AzulaType<'a>>, String)> = Vec::new();
    let mut i: usize = 0;
    while i < params.len()
        invariant
            i <= params@.len(),
            m == map@,
            r@.len() == i,
            forall|j: int|
                0 <= j < i ==> types::opt_ty_of((#[trigger] r@[j]).0) == opt_substituted(
                    types::opt_ty_of(params@[j].0),
                    m,
                ) && r@[j].1@ == params@[j].1@,
        decreases params@.len() - i,
    {
        r.push((subst_opt_type(&params[i].0, map), params[i].1.clone()));
        i += 1;
    }
    assert(ast::params_of(r@) =~= params_substituted(ast::params_of(params@), m));
    r
}

/// Put types in the place of type parameters in the payload types of variants.
fn subst_payloads<'a>(payloads: &Vec<Vec<AzulaType<'a>>>, map: &Visible<'_, 'a>) -> (r: Vec<
    Vec<AzulaType<'a>>,
>)
    ensures
        ast::payloads_of(r@) == payloads_substituted(ast::payloads_of(payloads@), map@),
{
    let ghost m = map@;
    let mut r: Vec<Vec<AzulaType<'a>>> = Vec::new();
    let mut i: usize = 0;
    while i < payloads.len()
        invariant
            i <= payloads@.len(),
            m == map@,
            r@.len() == i,
            forall|j: int|
                0 <= j < i ==> types::types_of((#[trigger] r@[j])@) == all_substituted(
                    types::types_of(payloads@[j]@),
                    m,
                ),
        decreases payloads@.len() - i,
    {
        r.push(subst_types(&payloads[i], map));
        i += 1;
    }
    assert(ast::payloads_of(r@) =~= payloads_substituted(ast::payloads_of(payloads@), m));
    r
}

/// Put types in the place of type parameters in a statement.
fn replace_stmt<'a>(stmt: &Statement<'a>, map: &Visible<'_, 'a>) -> (r: Statement<'a>)
    ensures
        ast::stmt_of(r) == stmt_substituted(ast::stmt_of(*stmt), map@),
    decreases stmt,
{
    match stmt {
        Statement::Root(body) => Statement::Root(subst_body(body, map)),
        Statement::Block(body) => Statement::Block(subst_body(body, map)),
        Statement::Function { name, args, returns: result, body, span } => Statement::Function {
            name,
            args: subst_typed(args, map),
            returns: replace_type(result, map),
            body: Rc::new(replace_stmt(body, map)),
            span: *span,
        },
        Statement::Return(value, span) => Statement::Return(
            match value {
                Some(v) => Some(replace_expr(v, map)),
                None => None,
            },
            *span,
        ),
        Statement::Assign(mutable, name, annotation, value, span) => Statement::Assign(
            *mutable,
            name.clone(),
            match annotation {
                Some(t) => Some(replace_type(t, map)),
                None => None,
            },
            replace_expr(value, map),
            *span,
        ),
        Statement::ExpressionStatement(expr, span) => Statement::ExpressionStatement(
            replace_expr(expr, map),
            *span,
        ),
        Statement::If(cond, body, other, span) => Statement::If(
            replace_expr(cond, map),
            subst_body(body, map),
            match other {
                Some(e) => Some(Rc::new(replace_stmt(e, map))),
                None => None,
            },
            *span,
        ),
        Statement::Reassign(target, value, span) => Statement::Reassign(
            replace_expr(target, map),
            replace_expr(value, map),
            *span,
        ),
        Statement::While(cond, body, span) => Statement::While(
            replace_expr(cond, map),
            subst_body(body, map),
            *span,
        ),
        Statement::For(cond, body, span) => Statement::For(
            match cond {
                Some(c) => Some(replace_expr(c, map)),
                None => None,
            },
            subst_body(body, map),
            *span,
        ),
        Statement::ForIn(name, iterable, end, inclusive, body, span) => Statement::ForIn(
            name.clone(),
            replace_expr(iterable, map),
            match end {
                Some(e) => Some(replace_expr(e, map)),
                None => None,
            },
            *inclusive,
            subst_body(body, map),
            *span,
        ),
        Statement::CompoundAssign(target, op, value, span) => Statement::CompoundAssign(
            replace_expr(target, map),
            *op,
            replace_expr(value, map),
            *span,
        ),
        Statement::Destructure(mutable, names, value, span) => Statement::Destructure(
            *mutable,
            ast::clone_names(names),
            replace_expr(value, map),
            *span,
        ),
        Statement::Group(body) => Statement::Group(subst_body(body, map)),
        Statement::ExternFunction { name, varargs, args, returns: result, span } =>
            Statement::ExternFunction {
            name,
            varargs: *varargs,
            args: subst_types(args, map),
            returns: replace_type(result, map),
            span: *span,
        },
        Statement::Struct { name, attributes, span } => Statement::Struct {
            name,
            attributes: subst_typed(attributes, map),
            span: *span,
        },
        Statement::Impl { struct_impl, trait_impl, funcs, span } => Statement::Impl {
            struct_impl: replace_type(struct_impl, map),
            trait_impl: subst_opt_type(trait_impl, map),
            funcs: subst_body(funcs, map),
            span: *span,
        },
        Statement::Enum { name, variants, payloads, span } => Statement::Enum {
            name,
            variants: ast::clone_strs(variants),
            payloads: subst_payloads(payloads, map),
            span: *span,
        },
        Statement::TypeAlias { name, typ, span } => Statement::TypeAlias {
            name,
            typ: replace_type(typ, map),
            span: *span,
        },
        Statement::Generic(params, bounds, inner) => {
            let inside = map.under(params);
            Statement::Generic(
                ast::clone_strs(params),
                ast::clone_pairs(bounds),
                Rc::new(replace_stmt(inner, &inside)),
            )
        },
        Statement::Interface { name, methods, span } => Statement::Interface {
            name,
            methods: subst_methods(methods, map),
            span: *span,
        },
        Statement::Conforms(t, names, span) => Statement::Conforms(
            replace_type(t, map),
            ast::clone_strs(names),
            *span,
        ),
        _ => stmt.clone(),
    }
}

/// Put types in the place of type parameters in the methods of an interface.
fn subst_methods<'a>(methods: &Vec<(Statement<'a>, bool)>, map: &Visible<'_, 'a>) -> (r: Vec<
    (Statement<'a>, bool),
>)
    ensures
        ast::methods_of(r@) == methods_substituted(ast::methods_of(methods@), map@),
    decreases methods,
{
    let ghost m = map@;
    let mut r: Vec<(Statement<'a>, bool)> = Vec::new();
    let mut i: usize = 0;
    while i < methods.len()
        invariant
            i <= methods@.len(),
            m == map@,
            r@.len() == i,
            forall|j: int|
                0 <= j < i ==> ast::stmt_of((#[trigger] r@[j]).0) == stmt_substituted(
                    ast::stmt_of(methods@[j].0),
                    m,
                ) && r@[j].1 == methods@[j].1,
        decreases methods@.len() - i,
    {
        r.push((replace_stmt(&methods[i].0, map), methods[i].1));
        i += 1;
    }
    assert(ast::methods_of(r@) =~= methods_substituted(ast::methods_of(methods@), m));
    r
}

/// Put types in the place of type parameters in an expression.
fn replace_expr<'a>(expr: &ExpressionNode<'a>, map: &Visible<'_, 'a>) -> (r: ExpressionNode<'a>)
    ensures
        ast::expr_of(r) == expr_substituted(ast::expr_of(*expr), map@),
    decreases expr,
{
    ExpressionNode {
        expression: subst_kind(&expr.expression, map),
        typed: replace_type(&expr.typed, map),
        span: expr.span,
    }
}

/// Put types in the place of type parameters in what an expression is.
fn subst_kind<'a>(expression: &Expression<'a>, map: &Visible<'_, 'a>) -> (r: Expression<'a>)
    ensures
        ast::kind_of(r) == kind_substituted(ast::kind_of(*expression), map@),
    decreases expression,
{
    match expression {
        Expression::Infix(l, op, r) => Expression::Infix(
            Rc::new(replace_expr(l, map)),
            *op,
            Rc::new(replace_expr(r, map)),
        ),
        Expression::FunctionCall { function, args } => Expression::FunctionCall {
            function: Rc::new(replace_expr(function, map)),
            args: subst_exprs(args, map),
        },
        Expression::Not(e) => Expression::Not(Rc::new(replace_expr(e, map))),
        Expression::BitNot(e) => Expression::BitNot(Rc::new(replace_expr(e, map))),
        Expression::SizeOf(t) => Expression::SizeOf(replace_type(t, map)),
        Expression::Negate(e) => Expression::Negate(Rc::new(replace_expr(e, map))),
        Expression::Pointer(e) => Expression::Pointer(Rc::new(replace_expr(e, map))),
        Expression::Deref(e) => Expression::Deref(Rc::new(replace_expr(e, map))),
        Expression::Array(items) => Expression::Array(subst_exprs(items, map)),
        Expression::Interpolation(parts) => Expression::Interpolation(subst_exprs(parts, map)),
        Expression::Tuple(items) => Expression::Tuple(subst_exprs(items, map)),
        Expression::Try(e) => Expression::Try(Rc::new(replace_expr(e, map))),
        Expression::If(c, a, b) => Expression::If(
            Rc::new(replace_expr(c, map)),
            Rc::new(replace_expr(a, map)),
            match b {
                Some(b) => Some(Rc::new(replace_expr(b, map))),
                None => None,
            },
        ),
        Expression::Closure(params, result, body) => Expression::Closure(
            subst_params(params, map),
            subst_opt_type(result, map),
            subst_body(body, map),
        ),
        Expression::MakeClosure(name, captures) => Expression::MakeClosure(
            name.clone(),
            subst_exprs(captures, map),
        ),
        Expression::NewCell(e) => Expression::NewCell(Rc::new(replace_expr(e, map))),
        Expression::CallClosure(callee, args) => Expression::CallClosure(
            Rc::new(replace_expr(callee, map)),
            subst_exprs(args, map),
        ),
        Expression::ArrayAccess(a, i) => Expression::ArrayAccess(
            Rc::new(replace_expr(a, map)),
            Rc::new(replace_expr(i, map)),
        ),
        Expression::StructInitialisation(s, fields) => Expression::StructInitialisation(
            Rc::new(replace_expr(s, map)),
            subst_fields(fields, map),
        ),
        Expression::StructAccess(s, m) => Expression::StructAccess(
            Rc::new(replace_expr(s, map)),
            Rc::new(replace_expr(m, map)),
        ),
        Expression::NamespaceAccess(n, m) => Expression::NamespaceAccess(
            Rc::new(replace_expr(n, map)),
            Rc::new(replace_expr(m, map)),
        ),
        Expression::Match(scrutinee, arms) => Expression::Match(
            Rc::new(replace_expr(scrutinee, map)),
            subst_arms(arms, map),
        ),
        Expression::Cast(e, t) => Expression::Cast(
            Rc::new(replace_expr(e, map)),
            replace_type(t, map),
        ),
        Expression::Alloc(e) => Expression::Alloc(Rc::new(replace_expr(e, map))),
        Expression::Turbofish(name, args) => Expression::Turbofish(
            name.clone(),
            subst_types(args, map),
        ),
        Expression::Block(body, last) => Expression::Block(
            subst_body(body, map),
            match last {
                Some(l) => Some(Rc::new(replace_expr(l, map))),
                None => None,
            },
        ),
        _ => expression.clone(),
    }
}

/// Put types in the place of type parameters in expressions.
fn subst_exprs<'a>(es: &Vec<ExpressionNode<'a>>, map: &Visible<'_, 'a>) -> (r: Vec<
    ExpressionNode<'a>,
>)
    ensures
        ast::exprs_of(r@) == exprs_substituted(ast::exprs_of(es@), map@),
    decreases es,
{
    let ghost m = map@;
    let mut r: Vec<ExpressionNode<'a>> = Vec::new();
    let mut i: usize = 0;
    while i < es.len()
        invariant
            i <= es@.len(),
            m == map@,
            r@.len() == i,
            forall|j: int|
                0 <= j < i ==> ast::expr_of(#[trigger] r@[j]) == expr_substituted(
                    ast::expr_of(es@[j]),
                    m,
                ),
        decreases es@.len() - i,
    {
        r.push(replace_expr(&es[i], map));
        i += 1;
    }
    assert(ast::exprs_of(r@) =~= exprs_substituted(ast::exprs_of(es@), m));
    r
}

/// Put types in the place of type parameters in named expressions.
fn subst_fields<'a>(es: &Vec<(&'a str, ExpressionNode<'a>)>, map: &Visible<'_, 'a>) -> (r: Vec<
    (&'a str, ExpressionNode<'a>),
>)
    ensures
        ast::fields_of(r@) == fields_substituted(ast::fields_of(es@), map@),
    decreases es,
{
    let ghost m = map@;
    let mut r: Vec<(&'a str, ExpressionNode<'a>)> = Vec::new();
    let mut i: usize = 0;
    while i < es.len()
        invariant
            i <= es@.len(),
            m == map@,
            r@.len() == i,
            forall|j: int|
                0 <= j < i ==> (#[trigger] r@[j]).0@ == es@[j].0@ && ast::expr_of(r@[j].1)
                    == expr_substituted(ast::expr_of(es@[j].1), m),
        decreases es@.len() - i,
    {
        r.push((es[i].0, replace_expr(&es[i].1, map)));
        i += 1;
    }
    assert(ast::fields_of(r@) =~= fields_substituted(ast::fields_of(es@), m));
    r
}

/// Put types in the place of type parameters in the arms of a match.
fn subst_arms<'a>(arms: &Vec<(MatchPattern<'a>, ExpressionNode<'a>)>, map: &Visible<'_, 'a>) -> (r:
    Vec<(MatchPattern<'a>, ExpressionNode<'a>)>)
    ensures
        ast::arms_of(r@) == arms_substituted(ast::arms_of(arms@), map@),
    decreases arms,
{
    let ghost m = map@;
    let mut r: Vec<(MatchPattern<'a>, ExpressionNode<'a>)> = Vec::new();
    let mut i: usize = 0;
    while i < arms.len()
        invariant
            i <= arms@.len(),
            m == map@,
            r@.len() == i,
            forall|j: int|
                0 <= j < i ==> ast::pat_of((#[trigger] r@[j]).0) == pat_substituted(
                    ast::pat_of(arms@[j].0),
                    m,
                ) && ast::expr_of(r@[j].1) == expr_substituted(ast::expr_of(arms@[j].1), m),
        decreases arms@.len() - i,
    {
        r.push((subst_pattern(&arms[i].0, map), replace_expr(&arms[i].1, map)));
        i += 1;
    }
    assert(ast::arms_of(r@) =~= arms_substituted(ast::arms_of(arms@), m));
    r
}

/// Put types in the place of type parameters in the guards of a pattern.
fn subst_pattern<'a>(pattern: &MatchPattern<'a>, map: &Visible<'_, 'a>) -> (r: MatchPattern<'a>)
    ensures
        ast::pat_of(r) == pat_substituted(ast::pat_of(*pattern), map@),
    decreases pattern,
{
    match pattern {
        MatchPattern::Or(items) => MatchPattern::Or(subst_patterns(items, map)),
        MatchPattern::Guarded(p, guard) => MatchPattern::Guarded(
            Rc::new(subst_pattern(p, map)),
            Rc::new(replace_expr(guard, map)),
        ),
        MatchPattern::Tuple(items) => MatchPattern::Tuple(subst_patterns(items, map)),
        _ => pattern.clone(),
    }
}

/// Put types in the place of type parameters in the guards of patterns.
fn subst_patterns<'a>(ps: &Vec<MatchPattern<'a>>, map: &Visible<'_, 'a>) -> (r: Vec<
    MatchPattern<'a>,
>)
    ensures
        ast::pats_of(r@) == pats_substituted(ast::pats_of(ps@), map@),
    decreases ps,
{
    let ghost m = map@;
    let mut r: Vec<MatchPattern<'a>> = Vec::new();
    let mut i: usize = 0;
    while i < ps.len()
        invariant
            i <= ps@.len(),
            m == map@,
            r@.len() == i,
            forall|j: int|
                0 <= j < i ==> ast::pat_of(#[trigger] r@[j]) == pat_substituted(
                    ast::pat_of(ps@[j]),
                    m,
                ),
        decreases ps@.len() - i,
    {
        r.push(subst_pattern(&ps[i], map));
        i += 1;
    }
    assert(ast::pats_of(r@) =~= pats_substituted(ast::pats_of(ps@), m));
    r
}

// ---------------------------------------------------------------------------
// Unification

/// The instances of generic types: the generic type that each name stands for, and
/// its arguments.
pub open spec fn instances_of<'a>(m: Map<Seq<char>, (String, Vec<AzulaType<'a>>)>) -> Map<
    Seq<char>,
    (Seq<char>, Seq<Ty>),
> {
    m.map_values(|v: (String, Vec<AzulaType<'a>>)| (v.0@, types::types_of(v.1@)))
}

/// The bindings, with those that matching `pattern` against `concrete` adds. A
/// parameter that is bound keeps its type.
pub open spec fn unified(
    pattern: Ty,
    concrete: Ty,
    params: Seq<Seq<char>>,
    instances: Map<Seq<char>, (Seq<char>, Seq<Ty>)>,
    bindings: Map<Seq<char>, Ty>,
) -> Map<Seq<char>, Ty>
    decreases pattern, 0int,
{
    match pattern {
        Ty::Named(name) => if params.contains(name) && !bindings.contains_key(name) {
            bindings.insert(name, concrete)
        } else {
            bindings
        },
        Ty::Pointer(p) => match concrete {
            Ty::Pointer(c) => unified(*p, *c, params, instances, bindings),
            _ => bindings,
        },
        Ty::Array(p, _) => match concrete {
            Ty::Array(c, _) => unified(*p, *c, params, instances, bindings),
            _ => bindings,
        },
        Ty::Generic(name, args) => match concrete {
            Ty::Named(instance) => if instances.contains_key(instance) && instances[instance].0
                == name {
                all_unified(args, instances[instance].1, 0, params, instances, bindings)
            } else {
                bindings
            },
            _ => bindings,
        },
        Ty::Function(args, result) => match concrete {
            Ty::Function(cargs, c) => unified(
                *result,
                *c,
                params,
                instances,
                all_unified(args, cargs, 0, params, instances, bindings),
            ),
            _ => bindings,
        },
        _ => bindings,
    }
}

/// The bindings, with those that matching the types of two lists from position `k`
/// on adds.
pub open spec fn all_unified(
    patterns: Seq<Ty>,
    concrete: Seq<Ty>,
    k: int,
    params: Seq<Seq<char>>,
    instances: Map<Seq<char>, (Seq<char>, Seq<Ty>)>,
    bindings: Map<Seq<char>, Ty>,
) -> Map<Seq<char>, Ty>
    decreases patterns, patterns.len() - k,
{
    if k < 0 || k >= patterns.len() || k >= concrete.len() {
        bindings
    } else {
        all_unified(
            patterns,
            concrete,
            k + 1,
            params,
            instances,
            unified(patterns[k], concrete[k], params, instances, bindings),
        )
    }
}

/// Whether a name is in a list.
fn listed(names: &[String], name: &str) -> (r: bool)
    ensures
        r == ast::names_of(names@).contains(name@),
{
    let mut i: usize = 0;
    while i < names.len()
        invariant
            i <= names@.len(),
            forall|j: int| 0 <= j < i ==> (#[trigger] names@[j])@ != name@,
        decreases names@.len() - i,
    {
        if same(names[i].as_str(), name) {
            assert(ast::names_of(names@)[i as int] == name@);
            return true;
        }
        i += 1;
    }
    assert forall|j: int| 0 <= j < names@.len() implies ast::names_of(names@)[j] != name@ by {
        assert(names@[j]@ != name@);
    }
    false
}

/// Infer type parameters by matching a (generic) `pattern` type against a concrete
/// type. `instances` maps instance names such as `Vec<int>` back to the generic they
/// came from and its arguments.
pub fn unify<'a>(
    pattern: &AzulaType<'a>,
    concrete: &AzulaType<'a>,
    params: &[String],
    instances: &Instances<'a>,
    bindings: &mut Substitution<'a>,
)
    ensures
        map_of(final(bindings)@) == unified(
            types::ty_of(*pattern),
            types::ty_of(*concrete),
            ast::names_of(params@),
            instances_of(instances@),
            map_of(old(bindings)@),
        ),
    decreases pattern, 0int,
{
    reveal(types::ty_of);
    reveal(types::types_of);
    match pattern {
        AzulaType::Named(name) => {
            if listed(params, name.as_str()) && !bindings.contains_key(name.as_str()) {
                let ghost before = bindings@;
                let t = concrete.clone();
                bindings.insert(name.clone(), t);
                assert(map_of(bindings@) =~= map_of(before).insert(
                    name@,
                    types::ty_of(*concrete),
                ));
            }
        },
        AzulaType::Pointer(p) => match concrete {
            AzulaType::Pointer(c) => {
                unify(p, c, params, instances, bindings);
            },
            _ => {},
        },
        AzulaType::Array(p, _) => match concrete {
            AzulaType::Array(c, _) => {
                unify(p, c, params, instances, bindings);
            },
            _ => {},
        },
        AzulaType::Generic(name, args) => match concrete {
            AzulaType::Named(instance) => {
                if let Some(found) = instances.get(instance.as_str()) {
                    if same(found.0.as_str(), name.as_str()) {
                        unify_all(args, &found.1, params, instances, bindings);
                    }
                }
            },
            _ => {},
        },
        AzulaType::Function(args, result) => match concrete {
            AzulaType::Function(cargs, c) => {
                unify_all(args, cargs, params, instances, bindings);
                unify(result, c, params, instances, bindings);
            },
            _ => {},
        },
        _ => {},
    }
}

/// Infer type parameters by matching the types of two lists.
fn unify_all<'a>(
    patterns: &Vec<AzulaType<'a>>,
    concrete: &Vec<AzulaType<'a>>,
    params: &[String],
    instances: &Instances<'a>,
    bindings: &mut Substitution<'a>,
)
    ensures
        map_of(final(bindings)@) == all_unified(
            types::types_of(patterns@),
            types::types_of(concrete@),
            0,
            ast::names_of(params@),
            instances_of(instances@),
            map_of(old(bindings)@),
        ),
    decreases patterns, 1int,
{
    reveal(types::types_of);
    reveal(types::ty_of);
    let ghost ps = types::types_of(patterns@);
    let ghost cs = types::types_of(concrete@);
    let mut k: usize = 0;
    while k < patterns.len() && k < concrete.len()
        invariant
            k <= patterns@.len(),
            k <= concrete@.len(),
            ps == types::types_of(patterns@),
            cs == types::types_of(concrete@),
            ps.len() == patterns@.len(),
            cs.len() == concrete@.len(),
            all_unified(
                ps,
                cs,
                0,
                ast::names_of(params@),
                instances_of(instances@),
                map_of(old(bindings)@),
            ) == all_unified(
                ps,
                cs,
                k as int,
                ast::names_of(params@),
                instances_of(instances@),
                map_of(bindings@),
            ),
        decreases patterns@.len() - k,
    {
        reveal(types::types_of);
        reveal(types::ty_of);
        unify(&patterns[k], &concrete[k], params, instances, bindings);
        k += 1;
    }
}

// ---------------------------------------------------------------------------
// What substitution and unification keep

/// No name of the type is to be replaced.
pub open spec fn free_of(t: Ty, m: Map<Seq<char>, Ty>) -> bool
    decreases t,
{
    match t {
        Ty::Named(n) => !m.contains_key(n),
        Ty::Pointer(p) => free_of(*p, m),
        Ty::Array(p, _) => free_of(*p, m),
        Ty::Generic(_, args) => all_free_of(args, m),
        Ty::Function(args, result) => all_free_of(args, m) && free_of(*result, m),
        _ => true,
    }
}

/// No name of the types is to be replaced.
pub open spec fn all_free_of(ts: Seq<Ty>, m: Map<Seq<char>, Ty>) -> bool
    decreases ts,
{
    forall|i: int| 0 <= i < ts.len() ==> free_of(#[trigger] ts[i], m)
}

/// A type without parameters that are to be replaced stays as it is.
pub proof fn lemma_free_type_unchanged(t: Ty, m: Map<Seq<char>, Ty>)
    requires
        free_of(t, m),
    ensures
        substituted(t, m) == t,
    decreases t,
{
    match t {
        Ty::Pointer(p) => lemma_free_type_unchanged(*p, m),
        Ty::Array(p, _) => lemma_free_type_unchanged(*p, m),
        Ty::Generic(_, args) => {
            lemma_free_types_unchanged(args, m);
        },
        Ty::Function(args, result) => {
            lemma_free_types_unchanged(args, m);
            lemma_free_type_unchanged(*result, m);
        },
        _ => {},
    }
}

/// Types without parameters that are to be replaced stay as they are.
proof fn lemma_free_types_unchanged(ts: Seq<Ty>, m: Map<Seq<char>, Ty>)
    requires
        all_free_of(ts, m),
    ensures
        all_substituted(ts, m) == ts,
    decreases ts,
{
    assert forall|i: int| 0 <= i < ts.len() implies #[trigger] all_substituted(ts, m)[i]
        == ts[i] by {
        assert(free_of(ts[i], m));
        lemma_free_type_unchanged(ts[i], m);
    }
    assert(all_substituted(ts, m) =~= ts);
}

/// No parameter that was replaced is left, as long as none occurs in what it was
/// replaced with. Replacing them again then changes nothing.
pub proof fn lemma_no_parameter_left(t: Ty, m: Map<Seq<char>, Ty>)
    requires
        forall|n: Seq<char>| #[trigger] m.contains_key(n) ==> free_of(m[n], m),
    ensures
        free_of(substituted(t, m), m),
        substituted(substituted(t, m), m) == substituted(t, m),
    decreases t,
{
    match t {
        Ty::Pointer(p) => lemma_no_parameter_left(*p, m),
        Ty::Array(p, _) => lemma_no_parameter_left(*p, m),
        Ty::Generic(_, args) => {
            assert forall|i: int| 0 <= i < args.len() implies free_of(
                #[trigger] all_substituted(args, m)[i],
                m,
            ) by {
                lemma_no_parameter_left(args[i], m);
            }
            assert(all_free_of(all_substituted(args, m), m));
        },
        Ty::Function(args, result) => {
            assert forall|i: int| 0 <= i < args.len() implies free_of(
                #[trigger] all_substituted(args, m)[i],
                m,
            ) by {
                lemma_no_parameter_left(args[i], m);
            }
            assert(all_free_of(all_substituted(args, m), m));
            lemma_no_parameter_left(*result, m);
        },
        _ => {},
    }
    lemma_free_type_unchanged(substituted(t, m), m);
}

/// Whether a name occurs as a type in a type that is there.
pub open spec fn opt_occurs(t: Option<Ty>, name: Seq<char>) -> bool {
    t matches Some(t) && occurs(t, name)
}

/// Whether a name occurs as a type in typed names.
pub open spec fn typed_mention(s: Seq<(Ty, Seq<char>)>, name: Seq<char>) -> bool {
    exists|i: int| 0 <= i < s.len() && occurs((#[trigger] s[i]).0, name)
}

/// Whether a name occurs as a type in the parameters of a closure.
pub open spec fn params_mention(s: Seq<(Option<Ty>, Seq<char>)>, name: Seq<char>) -> bool {
    exists|i: int| 0 <= i < s.len() && opt_occurs((#[trigger] s[i]).0, name)
}

/// Whether a name occurs as a type in the payload types of variants.
pub open spec fn payloads_mention(s: Seq<Seq<Ty>>, name: Seq<char>) -> bool {
    exists|i: int| 0 <= i < s.len() && any_occurs(#[trigger] s[i], name)
}

/// Whether a name occurs as a type in a statement. A parameter of a generic definition
/// does not occur in it: it is bound there.
pub open spec fn stmt_mentions(s: Stmt, name: Seq<char>) -> bool
    decreases s,
{
    match s {
        Stmt::Root(body) => stmts_mention(body, name),
        Stmt::Block(body) => stmts_mention(body, name),
        Stmt::Function(_, args, result, body, _) => typed_mention(args, name) || occurs(
            result,
            name,
        ) || stmt_mentions(*body, name),
        Stmt::Return(v, _) => v matches Some(v) && expr_mentions(v, name),
        Stmt::Assign(_, _, t, v, _) => opt_occurs(t, name) || expr_mentions(v, name),
        Stmt::ExpressionStatement(e, _) => expr_mentions(e, name),
        Stmt::If(c, body, other, _) => {
            ||| expr_mentions(c, name)
            ||| stmts_mention(body, name)
            ||| (other matches Some(o) && stmt_mentions(*o, name))
        },
        Stmt::ExternFunction(_, _, args, result, _) => any_occurs(args, name) || occurs(
            result,
            name,
        ),
        Stmt::Reassign(t, v, _) => expr_mentions(t, name) || expr_mentions(v, name),
        Stmt::While(c, body, _) => expr_mentions(c, name) || stmts_mention(body, name),
        Stmt::For(c, body, _) => {
            ||| (c matches Some(c) && expr_mentions(c, name))
            ||| stmts_mention(body, name)
        },
        Stmt::ForIn(_, it, end, _, body, _) => {
            ||| expr_mentions(it, name)
            ||| (end matches Some(e) && expr_mentions(e, name))
            ||| stmts_mention(body, name)
        },
        Stmt::Destructure(_, _, v, _) => expr_mentions(v, name),
        Stmt::Group(body) => stmts_mention(body, name),
        Stmt::CompoundAssign(t, _, v, _) => expr_mentions(t, name) || expr_mentions(v, name),
        Stmt::Struct(_, attributes, _) => typed_mention(attributes, name),
        Stmt::Impl(t, of, funcs, _) => occurs(t, name) || opt_occurs(of, name) || stmts_mention(
            funcs,
            name,
        ),
        Stmt::Enum(_, _, payloads, _) => payloads_mention(payloads, name),
        Stmt::TypeAlias(_, t, _) => occurs(t, name),
        Stmt::Generic(params, _, inner) => !params.contains(name) && stmt_mentions(*inner, name),
        Stmt::Interface(_, methods, _) => methods_mention(methods, name),
        Stmt::Conforms(t, _, _) => occurs(t, name),
        _ => false,
    }
}

/// Whether a name occurs as a type in statements.
pub open spec fn stmts_mention(ss: Seq<Stmt>, name: Seq<char>) -> bool
    decreases ss,
{
    exists|i: int| 0 <= i < ss.len() && stmt_mentions(#[trigger] ss[i], name)
}

/// Whether a name occurs as a type in the methods of an interface.
pub open spec fn methods_mention(ss: Seq<(Stmt, bool)>, name: Seq<char>) -> bool
    decreases ss,
{
    exists|i: int| 0 <= i < ss.len() && stmt_mentions((#[trigger] ss[i]).0, name)
}

/// Whether a name occurs as a type in an expression.
pub open spec fn expr_mentions(e: Expr, name: Seq<char>) -> bool
    decreases e,
{
    occurs(e.typed, name) || kind_mentions(e.kind, name)
}

/// Whether a name occurs as a type in what an expression is.
pub open spec fn kind_mentions(k: ExprKind, name: Seq<char>) -> bool
    decreases k,
{
    match k {
        ExprKind::Infix(l, _, r) => expr_mentions(*l, name) || expr_mentions(*r, name),
        ExprKind::FunctionCall(f, args) => expr_mentions(*f, name) || exprs_mention(args, name),
        ExprKind::Not(e) => expr_mentions(*e, name),
        ExprKind::BitNot(e) => expr_mentions(*e, name),
        ExprKind::SizeOf(t) => occurs(t, name),
        ExprKind::Negate(e) => expr_mentions(*e, name),
        ExprKind::Pointer(e) => expr_mentions(*e, name),
        ExprKind::Deref(e) => expr_mentions(*e, name),
        ExprKind::Interpolation(es) => exprs_mention(es, name),
        ExprKind::Array(es) => exprs_mention(es, name),
        ExprKind::Tuple(es) => exprs_mention(es, name),
        ExprKind::Try(e) => expr_mentions(*e, name),
        ExprKind::If(c, a, b) => {
            ||| expr_mentions(*c, name)
            ||| expr_mentions(*a, name)
            ||| (b matches Some(b) && expr_mentions(*b, name))
        },
        ExprKind::Closure(params, result, body) => params_mention(params, name) || opt_occurs(
            result,
            name,
        ) || stmts_mention(body, name),
        ExprKind::MakeClosure(_, es) => exprs_mention(es, name),
        ExprKind::NewCell(e) => expr_mentions(*e, name),
        ExprKind::CallClosure(f, args) => expr_mentions(*f, name) || exprs_mention(args, name),
        ExprKind::ArrayAccess(a, i) => expr_mentions(*a, name) || expr_mentions(*i, name),
        ExprKind::StructInitialisation(s, fs) => expr_mentions(*s, name) || fields_mention(
            fs,
            name,
        ),
        ExprKind::StructAccess(a, b) => expr_mentions(*a, name) || expr_mentions(*b, name),
        ExprKind::NamespaceAccess(a, b) => expr_mentions(*a, name) || expr_mentions(*b, name),
        ExprKind::Match(e, arms) => expr_mentions(*e, name) || arms_mention(arms, name),
        ExprKind::Cast(e, t) => expr_mentions(*e, name) || occurs(t, name),
        ExprKind::Alloc(e) => expr_mentions(*e, name),
        ExprKind::Turbofish(_, ts) => any_occurs(ts, name),
        ExprKind::Block(body, last) => {
            ||| stmts_mention(body, name)
            ||| (last matches Some(l) && expr_mentions(*l, name))
        },
        _ => false,
    }
}

/// Whether a name occurs as a type in expressions.
pub open spec fn exprs_mention(es: Seq<Expr>, name: Seq<char>) -> bool
    decreases es,
{
    exists|i: int| 0 <= i < es.len() && expr_mentions(#[trigger] es[i], name)
}

/// Whether a name occurs as a type in named expressions.
pub open spec fn fields_mention(fs: Seq<(Seq<char>, Expr)>, name: Seq<char>) -> bool
    decreases fs,
{
    exists|i: int| 0 <= i < fs.len() && expr_mentions((#[trigger] fs[i]).1, name)
}

/// Whether a name occurs as a type in the arms of a match.
pub open spec fn arms_mention(arms: Seq<(Pat, Expr)>, name: Seq<char>) -> bool
    decreases arms,
{
    exists|i: int|
        0 <= i < arms.len() && (pat_mentions((#[trigger] arms[i]).0, name) || expr_mentions(
            arms[i].1,
            name,
        ))
}

/// Whether a name occurs as a type in the guards of a pattern.
pub open spec fn pat_mentions(p: Pat, name: Seq<char>) -> bool
    decreases p,
{
    match p {
        Pat::Or(ps) => pats_mention(ps, name),
        Pat::Guarded(p, guard) => pat_mentions(*p, name) || expr_mentions(*guard, name),
        Pat::Tuple(ps) => pats_mention(ps, name),
        _ => false,
    }
}

/// Whether a name occurs as a type in the guards of patterns.
pub open spec fn pats_mention(ps: Seq<Pat>, name: Seq<char>) -> bool
    decreases ps,
{
    exists|i: int| 0 <= i < ps.len() && pat_mentions(#[trigger] ps[i], name)
}

/// A type in which no name occurs that is to be replaced stays as it is. So does every
/// type where there is nothing to replace.
pub proof fn lemma_type_unchanged(t: Ty, m: Map<Seq<char>, Ty>)
    requires
        forall|n: Seq<char>| #[trigger] m.contains_key(n) ==> !occurs(t, n),
    ensures
        substituted(t, m) == t,
    decreases t,
{
    match t {
        Ty::Named(n) => {
            assert(occurs(t, n));
        },
        Ty::Pointer(p) => lemma_type_unchanged(*p, m),
        Ty::Array(p, _) => lemma_type_unchanged(*p, m),
        Ty::Generic(_, args) => lemma_types_unchanged(args, m),
        Ty::Function(args, result) => {
            lemma_types_unchanged(args, m);
            lemma_type_unchanged(*result, m);
        },
        _ => {},
    }
}

/// Types in which no name occurs that is to be replaced stay as they are.
proof fn lemma_types_unchanged(ts: Seq<Ty>, m: Map<Seq<char>, Ty>)
    requires
        forall|n: Seq<char>| #[trigger] m.contains_key(n) ==> !any_occurs(ts, n),
    ensures
        all_substituted(ts, m) == ts,
    decreases ts,
{
    assert forall|i: int| 0 <= i < ts.len() implies #[trigger] all_substituted(ts, m)[i]
        == ts[i] by {
        assert forall|n: Seq<char>| #[trigger] m.contains_key(n) implies !occurs(ts[i], n) by {
            assert(!any_occurs(ts, n));
        }
        lemma_type_unchanged(ts[i], m);
    }
    assert(all_substituted(ts, m) =~= ts);
}

/// Typed names in which no name occurs that is to be replaced stay as they are.
proof fn lemma_typed_unchanged(s: Seq<(Ty, Seq<char>)>, m: Map<Seq<char>, Ty>)
    requires
        forall|n: Seq<char>| #[trigger] m.contains_key(n) ==> !typed_mention(s, n),
    ensures
        typed_substituted(s, m) == s,
{
    assert forall|i: int| 0 <= i < s.len() implies #[trigger] typed_substituted(s, m)[i]
        == s[i] by {
        assert forall|n: Seq<char>| #[trigger] m.contains_key(n) implies !occurs(s[i].0, n) by {
            assert(!typed_mention(s, n));
        }
        lemma_type_unchanged(s[i].0, m);
    }
    assert(typed_substituted(s, m) =~= s);
}

/// A type that is there, in which no name occurs that is to be replaced, stays as it is.
proof fn lemma_opt_unchanged(t: Option<Ty>, m: Map<Seq<char>, Ty>)
    requires
        forall|n: Seq<char>| #[trigger] m.contains_key(n) ==> !opt_occurs(t, n),
    ensures
        opt_substituted(t, m) == t,
{
    if let Some(t) = t {
        lemma_type_unchanged(t, m);
    }
}

/// Parameters in which no name occurs that is to be replaced stay as they are.
proof fn lemma_params_unchanged(s: Seq<(Option<Ty>, Seq<char>)>, m: Map<Seq<char>, Ty>)
    requires
        forall|n: Seq<char>| #[trigger] m.contains_key(n) ==> !params_mention(s, n),
    ensures
        params_substituted(s, m) == s,
{
    assert forall|i: int| 0 <= i < s.len() implies #[trigger] params_substituted(s, m)[i]
        == s[i] by {
        assert forall|n: Seq<char>| #[trigger] m.contains_key(n) implies !opt_occurs(
            s[i].0,
            n,
        ) by {
            assert(!params_mention(s, n));
        }
        lemma_opt_unchanged(s[i].0, m);
    }
    assert(params_substituted(s, m) =~= s);
}

/// Payload types in which no name occurs that is to be replaced stay as they are.
proof fn lemma_payloads_unchanged(s: Seq<Seq<Ty>>, m: Map<Seq<char>, Ty>)
    requires
        forall|n: Seq<char>| #[trigger] m.contains_key(n) ==> !payloads_mention(s, n),
    ensures
        payloads_substituted(s, m) == s,
{
    assert forall|i: int| 0 <= i < s.len() implies #[trigger] payloads_substituted(s, m)[i]
        == s[i] by {
        assert forall|n: Seq<char>| #[trigger] m.contains_key(n) implies !any_occurs(s[i], n) by {
            assert(!payloads_mention(s, n));
        }
        lemma_types_unchanged(s[i], m);
    }
    assert(payloads_substituted(s, m) =~= s);
}

/// A statement in which no name occurs that is to be replaced stays as it is. So does
/// every statement where there is nothing to replace.
pub proof fn lemma_statement_unchanged(s: Stmt, m: Map<Seq<char>, Ty>)
    requires
        forall|n: Seq<char>| #[trigger] m.contains_key(n) ==> !stmt_mentions(s, n),
    ensures
        stmt_substituted(s, m) == s,
    decreases s,
{
    match s {
        Stmt::Root(body) => lemma_statements_unchanged(body, m),
        Stmt::Block(body) => lemma_statements_unchanged(body, m),
        Stmt::Function(_, args, result, body, _) => {
            lemma_typed_unchanged(args, m);
            lemma_type_unchanged(result, m);
            lemma_statement_unchanged(*body, m);
        },
        Stmt::Return(v, _) => {
            if let Some(v) = v {
                lemma_expression_unchanged(v, m);
            }
        },
        Stmt::Assign(_, _, t, v, _) => {
            lemma_opt_unchanged(t, m);
            lemma_expression_unchanged(v, m);
        },
        Stmt::ExpressionStatement(e, _) => lemma_expression_unchanged(e, m),
        Stmt::If(c, body, other, _) => {
            lemma_expression_unchanged(c, m);
            lemma_statements_unchanged(body, m);
            if let Some(o) = other {
                lemma_statement_unchanged(*o, m);
            }
        },
        Stmt::ExternFunction(_, _, args, result, _) => {
            lemma_types_unchanged(args, m);
            lemma_type_unchanged(result, m);
        },
        Stmt::Reassign(t, v, _) => {
            lemma_expression_unchanged(t, m);
            lemma_expression_unchanged(v, m);
        },
        Stmt::While(c, body, _) => {
            lemma_expression_unchanged(c, m);
            lemma_statements_unchanged(body, m);
        },
        Stmt::For(c, body, _) => {
            if let Some(c) = c {
                lemma_expression_unchanged(c, m);
            }
            lemma_statements_unchanged(body, m);
        },
        Stmt::ForIn(_, it, end, _, body, _) => {
            lemma_expression_unchanged(it, m);
            if let Some(e) = end {
                lemma_expression_unchanged(e, m);
            }
            lemma_statements_unchanged(body, m);
        },
        Stmt::Destructure(_, _, v, _) => lemma_expression_unchanged(v, m),
        Stmt::Group(body) => lemma_statements_unchanged(body, m),
        Stmt::CompoundAssign(t, _, v, _) => {
            lemma_expression_unchanged(t, m);
            lemma_expression_unchanged(v, m);
        },
        Stmt::Struct(_, attributes, _) => lemma_typed_unchanged(attributes, m),
        Stmt::Impl(t, of, funcs, _) => {
            lemma_type_unchanged(t, m);
            lemma_opt_unchanged(of, m);
            lemma_statements_unchanged(funcs, m);
        },
        Stmt::Enum(_, _, payloads, _) => lemma_payloads_unchanged(payloads, m),
        Stmt::TypeAlias(_, t, _) => lemma_type_unchanged(t, m),
        Stmt::Generic(params, _, inner) => {
            let inside = without(m, params);
            assert forall|n: Seq<char>| #[trigger] inside.contains_key(n) implies !stmt_mentions(
                *inner,
                n,
            ) by {
                assert(m.contains_key(n) && !params.contains(n));
                assert(!stmt_mentions(s, n));
            }
            lemma_statement_unchanged(*inner, inside);
        },
        Stmt::Interface(_, methods, _) => {
            assert forall|i: int| 0 <= i < methods.len() implies #[trigger] methods_substituted(
                methods,
                m,
            )[i] == methods[i] by {
                assert forall|n: Seq<char>| #[trigger] m.contains_key(n) implies !stmt_mentions(
                    methods[i].0,
                    n,
                ) by {
                    assert(!stmt_mentions(s, n));
                    assert(!methods_mention(methods, n));
                }
                lemma_statement_unchanged(methods[i].0, m);
            }
            assert(methods_substituted(methods, m) =~= methods);
        },
        Stmt::Conforms(t, _, _) => lemma_type_unchanged(t, m),
        _ => {},
    }
}

/// Statements in which no name occurs that is to be replaced stay as they are.
proof fn lemma_statements_unchanged(ss: Seq<Stmt>, m: Map<Seq<char>, Ty>)
    requires
        forall|n: Seq<char>| #[trigger] m.contains_key(n) ==> !stmts_mention(ss, n),
    ensures
        stmts_substituted(ss, m) == ss,
    decreases ss,
{
    assert forall|i: int| 0 <= i < ss.len() implies #[trigger] stmts_substituted(ss, m)[i]
        == ss[i] by {
        assert forall|n: Seq<char>| #[trigger] m.contains_key(n) implies !stmt_mentions(
            ss[i],
            n,
        ) by {
            assert(!stmts_mention(ss, n));
        }
        lemma_statement_unchanged(ss[i], m);
    }
    assert(stmts_substituted(ss, m) =~= ss);
}

/// An expression in which no name occurs that is to be replaced stays as it is. So
/// does every expression where there is nothing to replace.
pub proof fn lemma_expression_unchanged(e: Expr, m: Map<Seq<char>, Ty>)
    requires
        forall|n: Seq<char>| #[trigger] m.contains_key(n) ==> !expr_mentions(e, n),
    ensures
        expr_substituted(e, m) == e,
    decreases e,
{
    lemma_type_unchanged(e.typed, m);
    lemma_kind_unchanged(e.kind, m);
}

/// What an expression is stays, if no name occurs in it that is to be replaced.
proof fn lemma_kind_unchanged(k: ExprKind, m: Map<Seq<char>, Ty>)
    requires
        forall|n: Seq<char>| #[trigger] m.contains_key(n) ==> !kind_mentions(k, n),
    ensures
        kind_substituted(k, m) == k,
    decreases k,
{
    match k {
        ExprKind::Infix(l, _, r) => {
            lemma_expression_unchanged(*l, m);
            lemma_expression_unchanged(*r, m);
        },
        ExprKind::FunctionCall(f, args) => {
            lemma_expression_unchanged(*f, m);
            lemma_expressions_unchanged(args, m);
        },
        ExprKind::Not(e) => lemma_expression_unchanged(*e, m),
        ExprKind::BitNot(e) => lemma_expression_unchanged(*e, m),
        ExprKind::SizeOf(t) => lemma_type_unchanged(t, m),
        ExprKind::Negate(e) => lemma_expression_unchanged(*e, m),
        ExprKind::Pointer(e) => lemma_expression_unchanged(*e, m),
        ExprKind::Deref(e) => lemma_expression_unchanged(*e, m),
        ExprKind::Interpolation(es) => lemma_expressions_unchanged(es, m),
        ExprKind::Array(es) => lemma_expressions_unchanged(es, m),
        ExprKind::Tuple(es) => lemma_expressions_unchanged(es, m),
        ExprKind::Try(e) => lemma_expression_unchanged(*e, m),
        ExprKind::If(c, a, b) => {
            lemma_expression_unchanged(*c, m);
            lemma_expression_unchanged(*a, m);
            if let Some(b) = b {
                lemma_expression_unchanged(*b, m);
            }
        },
        ExprKind::Closure(params, result, body) => {
            lemma_params_unchanged(params, m);
            lemma_opt_unchanged(result, m);
            lemma_statements_unchanged(body, m);
        },
        ExprKind::MakeClosure(_, es) => lemma_expressions_unchanged(es, m),
        ExprKind::NewCell(e) => lemma_expression_unchanged(*e, m),
        ExprKind::CallClosure(f, args) => {
            lemma_expression_unchanged(*f, m);
            lemma_expressions_unchanged(args, m);
        },
        ExprKind::ArrayAccess(a, i) => {
            lemma_expression_unchanged(*a, m);
            lemma_expression_unchanged(*i, m);
        },
        ExprKind::StructInitialisation(s, fs) => {
            lemma_expression_unchanged(*s, m);
            assert forall|i: int| 0 <= i < fs.len() implies #[trigger] fields_substituted(fs, m)[i]
                == fs[i] by {
                assert forall|n: Seq<char>| #[trigger] m.contains_key(n) implies !expr_mentions(
                    fs[i].1,
                    n,
                ) by {
                    assert(!kind_mentions(k, n));
                    assert(!fields_mention(fs, n));
                }
                lemma_expression_unchanged(fs[i].1, m);
            }
            assert(fields_substituted(fs, m) =~= fs);
        },
        ExprKind::StructAccess(a, b) => {
            lemma_expression_unchanged(*a, m);
            lemma_expression_unchanged(*b, m);
        },
        ExprKind::NamespaceAccess(a, b) => {
            lemma_expression_unchanged(*a, m);
            lemma_expression_unchanged(*b, m);
        },
        ExprKind::Match(e, arms) => {
            lemma_expression_unchanged(*e, m);
            assert forall|i: int| 0 <= i < arms.len() implies #[trigger] arms_substituted(
                arms,
                m,
            )[i] == arms[i] by {
                assert forall|n: Seq<char>| #[trigger] m.contains_key(n) implies !expr_mentions(
                    arms[i].1,
                    n,
                ) && !pat_mentions(arms[i].0, n) by {
                    assert(!kind_mentions(k, n));
                    assert(!arms_mention(arms, n));
                }
                lemma_pattern_unchanged(arms[i].0, m);
                lemma_expression_unchanged(arms[i].1, m);
            }
            assert(arms_substituted(arms, m) =~= arms);
        },
        ExprKind::Cast(e, t) => {
            lemma_expression_unchanged(*e, m);
            lemma_type_unchanged(t, m);
        },
        ExprKind::Alloc(e) => lemma_expression_unchanged(*e, m),
        ExprKind::Turbofish(_, ts) => lemma_types_unchanged(ts, m),
        ExprKind::Block(body, last) => {
            lemma_statements_unchanged(body, m);
            if let Some(l) = last {
                lemma_expression_unchanged(*l, m);
            }
        },
        _ => {},
    }
}

/// Expressions in which no name occurs that is to be replaced stay as they are.
proof fn lemma_expressions_unchanged(es: Seq<Expr>, m: Map<Seq<char>, Ty>)
    requires
        forall|n: Seq<char>| #[trigger] m.contains_key(n) ==> !exprs_mention(es, n),
    ensures
        exprs_substituted(es, m) == es,
    decreases es,
{
    assert forall|i: int| 0 <= i < es.len() implies #[trigger] exprs_substituted(es, m)[i]
        == es[i] by {
        assert forall|n: Seq<char>| #[trigger] m.contains_key(n) implies !expr_mentions(
            es[i],
            n,
        ) by {
            assert(!exprs_mention(es, n));
        }
        lemma_expression_unchanged(es[i], m);
    }
    assert(exprs_substituted(es, m) =~= es);
}

/// A pattern in whose guards no name occurs that is to be replaced stays as it is.
proof fn lemma_pattern_unchanged(p: Pat, m: Map<Seq<char>, Ty>)
    requires
        forall|n: Seq<char>| #[trigger] m.contains_key(n) ==> !pat_mentions(p, n),
    ensures
        pat_substituted(p, m) == p,
    decreases p,
{
    match p {
        Pat::Or(ps) => lemma_patterns_unchanged(ps, m),
        Pat::Guarded(p, guard) => {
            lemma_pattern_unchanged(*p, m);
            lemma_expression_unchanged(*guard, m);
        },
        Pat::Tuple(ps) => lemma_patterns_unchanged(ps, m),
        _ => {},
    }
}

/// Patterns in whose guards no name occurs that is to be replaced stay as they are.
proof fn lemma_patterns_unchanged(ps: Seq<Pat>, m: Map<Seq<char>, Ty>)
    requires
        forall|n: Seq<char>| #[trigger] m.contains_key(n) ==> !pats_mention(ps, n),
    ensures
        pats_substituted(ps, m) == ps,
    decreases ps,
{
    assert forall|i: int| 0 <= i < ps.len() implies #[trigger] pats_substituted(ps, m)[i]
        == ps[i] by {
        assert forall|n: Seq<char>| #[trigger] m.contains_key(n) implies !pat_mentions(
            ps[i],
            n,
        ) by {
            assert(!pats_mention(ps, n));
        }
        lemma_pattern_unchanged(ps[i], m);
    }
    assert(pats_substituted(ps, m) =~= ps);
}

/// Bindings that are kept in two steps are kept.
proof fn lemma_submap_then(a: Map<Seq<char>, Ty>, b: Map<Seq<char>, Ty>, c: Map<Seq<char>, Ty>)
    requires
        a.submap_of(b),
        b.submap_of(c),
    ensures
        a.submap_of(c),
{
    assert forall|name: Seq<char>| #[trigger] a.dom().contains(name) implies (
    #[trigger] c.dom().contains(name)) && a[name] == c[name] by {
        assert(b.dom().contains(name));
        assert(c.dom().contains(name));
    }
}

/// Unification only adds bindings, and only of parameters: what is bound keeps its
/// type.
pub proof fn lemma_unify_keeps(
    pattern: Ty,
    concrete: Ty,
    params: Seq<Seq<char>>,
    instances: Map<Seq<char>, (Seq<char>, Seq<Ty>)>,
    bindings: Map<Seq<char>, Ty>,
)
    ensures
        bindings.submap_of(unified(pattern, concrete, params, instances, bindings)),
        forall|name: Seq<char>| #[trigger]
            unified(pattern, concrete, params, instances, bindings).contains_key(name)
                ==> bindings.contains_key(name) || params.contains(name),
    decreases pattern, 0int,
{
    match pattern {
        Ty::Pointer(p) => {
            if let Ty::Pointer(c) = concrete {
                lemma_unify_keeps(*p, *c, params, instances, bindings);
            }
        },
        Ty::Array(p, _) => {
            if let Ty::Array(c, _) = concrete {
                lemma_unify_keeps(*p, *c, params, instances, bindings);
            }
        },
        Ty::Generic(name, args) => {
            if let Ty::Named(instance) = concrete {
                if instances.contains_key(instance) {
                    lemma_unify_all_keeps(
                        args,
                        instances[instance].1,
                        0,
                        params,
                        instances,
                        bindings,
                    );
                }
            }
        },
        Ty::Function(args, result) => {
            if let Ty::Function(cargs, c) = concrete {
                lemma_unify_all_keeps(args, cargs, 0, params, instances, bindings);
                let next = all_unified(args, cargs, 0, params, instances, bindings);
                lemma_unify_keeps(*result, *c, params, instances, next);
                let after = unified(*result, *c, params, instances, next);
                lemma_submap_then(bindings, next, after);
            }
        },
        _ => {},
    }
}

/// Unification of lists only adds bindings.
proof fn lemma_unify_all_keeps(
    patterns: Seq<Ty>,
    concrete: Seq<Ty>,
    k: int,
    params: Seq<Seq<char>>,
    instances: Map<Seq<char>, (Seq<char>, Seq<Ty>)>,
    bindings: Map<Seq<char>, Ty>,
)
    ensures
        bindings.submap_of(
            all_unified(patterns, concrete, k, params, instances, bindings),
        ),
        forall|name: Seq<char>| #[trigger]
            all_unified(patterns, concrete, k, params, instances, bindings).contains_key(name)
                ==> bindings.contains_key(name) || params.contains(name),
    decreases patterns, patterns.len() - k,
{
    if 0 <= k < patterns.len() && k < concrete.len() {
        lemma_unify_keeps(patterns[k], concrete[k], params, instances, bindings);
        lemma_unify_all_keeps(
            patterns,
            concrete,
            k + 1,
            params,
            instances,
            unified(patterns[k], concrete[k], params, instances, bindings),
        );
        let next = unified(patterns[k], concrete[k], params, instances, bindings);
        let after = all_unified(patterns, concrete, k + 1, params, instances, next);
        assert forall|name: Seq<char>| #[trigger] bindings.contains_key(name) implies {
            &&& after.contains_key(name)
            &&& after[name] == bindings[name]
        } by {
            assert(next.contains_key(name));
        }
    }
}

/// `concrete` is what `pattern` becomes when every parameter stands for its type in
/// `m`. What is no parameter has to agree in shape.
pub open spec fn is_instance(
    pattern: Ty,
    concrete: Ty,
    params: Seq<Seq<char>>,
    instances: Map<Seq<char>, (Seq<char>, Seq<Ty>)>,
    m: Map<Seq<char>, Ty>,
) -> bool
    decreases pattern,
{
    match pattern {
        Ty::Named(name) => if params.contains(name) {
            m.contains_key(name) && concrete == m[name]
        } else {
            concrete == pattern
        },
        Ty::Pointer(p) => match concrete {
            Ty::Pointer(c) => is_instance(*p, *c, params, instances, m),
            _ => false,
        },
        Ty::Array(p, n) => match concrete {
            Ty::Array(c, k) => n == k && is_instance(*p, *c, params, instances, m),
            _ => false,
        },
        Ty::Generic(name, args) => match concrete {
            Ty::Named(instance) => instances.contains_key(instance) && instances[instance].0
                == name && are_instances(args, instances[instance].1, params, instances, m),
            _ => false,
        },
        Ty::Function(args, result) => match concrete {
            Ty::Function(cargs, c) => are_instances(args, cargs, params, instances, m)
                && is_instance(*result, *c, params, instances, m),
            _ => false,
        },
        _ => concrete == pattern,
    }
}

/// The types of a list are what the patterns of another list become.
pub open spec fn are_instances(
    patterns: Seq<Ty>,
    concrete: Seq<Ty>,
    params: Seq<Seq<char>>,
    instances: Map<Seq<char>, (Seq<char>, Seq<Ty>)>,
    m: Map<Seq<char>, Ty>,
) -> bool
    decreases patterns,
{
    patterns.len() == concrete.len() && forall|i: int|
        0 <= i < patterns.len() ==> is_instance(
            #[trigger] patterns[i],
            concrete[i],
            params,
            instances,
            m,
        )
}

/// Whether a parameter occurs in a type.
pub open spec fn occurs(t: Ty, name: Seq<char>) -> bool
    decreases t,
{
    match t {
        Ty::Named(n) => n == name,
        Ty::Pointer(p) => occurs(*p, name),
        Ty::Array(p, _) => occurs(*p, name),
        Ty::Generic(_, args) => any_occurs(args, name),
        Ty::Function(args, result) => any_occurs(args, name) || occurs(*result, name),
        _ => false,
    }
}

/// Whether a parameter occurs in a type of a list.
pub open spec fn any_occurs(ts: Seq<Ty>, name: Seq<char>) -> bool
    decreases ts,
{
    exists|i: int| 0 <= i < ts.len() && occurs(#[trigger] ts[i], name)
}

/// Unifying a pattern with one of its instances recovers the types that its
/// parameters stand for: every parameter that occurs is bound, and to its own type.
pub proof fn lemma_unify_recovers(
    pattern: Ty,
    concrete: Ty,
    params: Seq<Seq<char>>,
    instances: Map<Seq<char>, (Seq<char>, Seq<Ty>)>,
    bindings: Map<Seq<char>, Ty>,
    m: Map<Seq<char>, Ty>,
)
    requires
        is_instance(pattern, concrete, params, instances, m),
        bindings.submap_of(m),
    ensures
        unified(pattern, concrete, params, instances, bindings).submap_of(m),
        forall|name: Seq<char>|
            params.contains(name) && #[trigger] occurs(pattern, name) ==> unified(
                pattern,
                concrete,
                params,
                instances,
                bindings,
            ).contains_key(name),
    decreases pattern, 0int,
{
    match pattern {
        Ty::Pointer(p) => {
            if let Ty::Pointer(c) = concrete {
                lemma_unify_recovers(*p, *c, params, instances, bindings, m);
                assert forall|name: Seq<char>|
                    params.contains(name) && #[trigger] occurs(pattern, name) implies unified(
                    pattern,
                    concrete,
                    params,
                    instances,
                    bindings,
                ).contains_key(name) by {
                    assert(occurs(*p, name));
                }
            }
        },
        Ty::Array(p, _) => {
            if let Ty::Array(c, _) = concrete {
                lemma_unify_recovers(*p, *c, params, instances, bindings, m);
                assert forall|name: Seq<char>|
                    params.contains(name) && #[trigger] occurs(pattern, name) implies unified(
                    pattern,
                    concrete,
                    params,
                    instances,
                    bindings,
                ).contains_key(name) by {
                    assert(occurs(*p, name));
                }
            }
        },
        Ty::Generic(_, args) => {
            if let Ty::Named(instance) = concrete {
                let cargs = instances[instance].1;
                lemma_unify_all_recovers(args, cargs, 0, params, instances, bindings, m);
                assert forall|name: Seq<char>|
                    params.contains(name) && #[trigger] occurs(pattern, name) implies unified(
                    pattern,
                    concrete,
                    params,
                    instances,
                    bindings,
                ).contains_key(name) by {
                    assert(any_occurs(args, name));
                    let i = choose|i: int| 0 <= i < args.len() && occurs(#[trigger] args[i], name);
                    assert(occurs(args[i], name));
                }
            }
        },
        Ty::Function(args, result) => {
            if let Ty::Function(cargs, c) = concrete {
                lemma_unify_all_recovers(args, cargs, 0, params, instances, bindings, m);
                let next = all_unified(args, cargs, 0, params, instances, bindings);
                lemma_unify_recovers(*result, *c, params, instances, next, m);
                lemma_unify_keeps(*result, *c, params, instances, next);
                assert forall|name: Seq<char>|
                    params.contains(name) && #[trigger] occurs(pattern, name) implies unified(
                    pattern,
                    concrete,
                    params,
                    instances,
                    bindings,
                ).contains_key(name) by {
                    if any_occurs(args, name) {
                        let i = choose|i: int|
                            0 <= i < args.len() && occurs(#[trigger] args[i], name);
                        assert(occurs(args[i], name));
                        assert(next.contains_key(name));
                    } else {
                        assert(occurs(*result, name));
                    }
                }
            }
        },
        _ => {},
    }
}

/// Unifying the patterns of a list from position `k` on with their instances
/// recovers the types that their parameters stand for.
proof fn lemma_unify_all_recovers(
    patterns: Seq<Ty>,
    concrete: Seq<Ty>,
    k: int,
    params: Seq<Seq<char>>,
    instances: Map<Seq<char>, (Seq<char>, Seq<Ty>)>,
    bindings: Map<Seq<char>, Ty>,
    m: Map<Seq<char>, Ty>,
)
    requires
        0 <= k <= patterns.len(),
        are_instances(patterns, concrete, params, instances, m),
        bindings.submap_of(m),
    ensures
        all_unified(patterns, concrete, k, params, instances, bindings).submap_of(m),
        forall|name: Seq<char>, i: int|
            params.contains(name) && k <= i < patterns.len() && #[trigger] occurs(
                patterns[i],
                name,
            ) ==> all_unified(
                patterns,
                concrete,
                k,
                params,
                instances,
                bindings,
            ).contains_key(name),
    decreases patterns, patterns.len() - k,
{
    if k < patterns.len() {
        assert(is_instance(patterns[k], concrete[k], params, instances, m));
        lemma_unify_recovers(patterns[k], concrete[k], params, instances, bindings, m);
        let next = unified(patterns[k], concrete[k], params, instances, bindings);
        lemma_unify_all_recovers(patterns, concrete, k + 1, params, instances, next, m);
        lemma_unify_all_keeps(patterns, concrete, k + 1, params, instances, next);
        let after = all_unified(patterns, concrete, k, params, instances, bindings);
        assert forall|name: Seq<char>, i: int|
            params.contains(name) && k <= i < patterns.len() && #[trigger] occurs(
                patterns[i],
                name,
            ) implies after.contains_key(name) by {
            if i == k {
                assert(occurs(patterns[k], name));
                assert(next.contains_key(name));
            }
        }
    }
}

/// Whether no generic type occurs in a type.
pub open spec fn without_generics(t: Ty) -> bool
    decreases t,
{
    match t {
        Ty::Pointer(p) => without_generics(*p),
        Ty::Array(p, _) => without_generics(*p),
        Ty::Generic(..) => false,
        Ty::Function(args, result) => all_without_generics(args) && without_generics(*result),
        _ => true,
    }
}

/// Whether no generic type occurs in types.
pub open spec fn all_without_generics(ts: Seq<Ty>) -> bool
    decreases ts,
{
    forall|i: int| 0 <= i < ts.len() ==> without_generics(#[trigger] ts[i])
}

/// Inference and substitution fit together: a pattern in which no generic type occurs
/// becomes its instance again, when its parameters are replaced with the types that
/// unification finds for them.
pub proof fn lemma_unify_gives_back(
    pattern: Ty,
    concrete: Ty,
    params: Seq<Seq<char>>,
    instances: Map<Seq<char>, (Seq<char>, Seq<Ty>)>,
    m: Map<Seq<char>, Ty>,
)
    requires
        is_instance(pattern, concrete, params, instances, m),
        without_generics(pattern),
    ensures
        substituted(pattern, unified(pattern, concrete, params, instances, Map::empty()))
            == concrete,
{
    let found = unified(pattern, concrete, params, instances, Map::empty());
    assert(Map::<Seq<char>, Ty>::empty().submap_of(m));
    lemma_unify_recovers(pattern, concrete, params, instances, Map::empty(), m);
    lemma_unify_keeps(pattern, concrete, params, instances, Map::empty());
    lemma_instance_back(pattern, concrete, params, instances, m, found);
}

/// A pattern becomes its instance when its parameters are replaced with their types.
proof fn lemma_instance_back(
    pattern: Ty,
    concrete: Ty,
    params: Seq<Seq<char>>,
    instances: Map<Seq<char>, (Seq<char>, Seq<Ty>)>,
    m: Map<Seq<char>, Ty>,
    found: Map<Seq<char>, Ty>,
)
    requires
        is_instance(pattern, concrete, params, instances, m),
        without_generics(pattern),
        found.submap_of(m),
        forall|name: Seq<char>| #[trigger] found.contains_key(name) ==> params.contains(name),
        forall|name: Seq<char>|
            params.contains(name) && #[trigger] occurs(pattern, name) ==> found.contains_key(name),
    ensures
        substituted(pattern, found) == concrete,
    decreases pattern,
{
    match pattern {
        Ty::Named(name) => {
            assert(occurs(pattern, name));
        },
        Ty::Pointer(p) => {
            if let Ty::Pointer(c) = concrete {
                assert forall|name: Seq<char>|
                    params.contains(name) && #[trigger] occurs(*p, name) implies found.contains_key(
                    name,
                ) by {
                    assert(occurs(pattern, name));
                }
                lemma_instance_back(*p, *c, params, instances, m, found);
            }
        },
        Ty::Array(p, _) => {
            if let Ty::Array(c, _) = concrete {
                assert forall|name: Seq<char>|
                    params.contains(name) && #[trigger] occurs(*p, name) implies found.contains_key(
                    name,
                ) by {
                    assert(occurs(pattern, name));
                }
                lemma_instance_back(*p, *c, params, instances, m, found);
            }
        },
        Ty::Function(args, result) => {
            if let Ty::Function(cargs, c) = concrete {
                assert(are_instances(args, cargs, params, instances, m));
                assert(all_without_generics(args));
                assert forall|i: int| 0 <= i < args.len() implies #[trigger] all_substituted(
                    args,
                    found,
                )[i] == cargs[i] by {
                    assert(is_instance(args[i], cargs[i], params, instances, m));
                    assert(without_generics(args[i]));
                    assert forall|name: Seq<char>|
                        params.contains(name) && #[trigger] occurs(args[i], name)
                        implies found.contains_key(name) by {
                        assert(any_occurs(args, name));
                        assert(occurs(pattern, name));
                    }
                    lemma_instance_back(args[i], cargs[i], params, instances, m, found);
                }
                assert(all_substituted(args, found) =~= cargs);
                assert forall|name: Seq<char>|
                    params.contains(name) && #[trigger] occurs(*result, name)
                    implies found.contains_key(name) by {
                    assert(occurs(pattern, name));
                }
                lemma_instance_back(*result, *c, params, instances, m, found);
            }
        },
        _ => {},
    }
}

} // verus!
