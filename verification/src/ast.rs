//! The syntax tree, and the mathematical model of it that contracts speak of.

use std::rc::Rc;
use vstd::prelude::*;
use crate::types::{clone_opt_type, clone_types, AzulaType, Ty};

verus! {

/// Where in the source text a node stands.
#[derive(Debug, PartialEq, Clone, Copy)]
pub struct Span {
    pub start: usize,
    pub end: usize,
}

#[derive(Debug, PartialEq, Clone, Copy, Hash, Eq)]
pub enum Operator {
    Add,
    Sub,
    Mul,
    Div,
    Mod,
    Power,
    Or,
    And,
    Eq,
    Neq,
    Lt,
    Lte,
    Gt,
    Gte,
    BitAnd,
    BitOr,
    BitXor,
    Shl,
    Shr,
}

pub type Body<'a> = Vec<Statement<'a>>;

pub type TypedIdentifier<'a> = (AzulaType<'a>, &'a str);

#[derive(Debug, PartialEq)]
pub enum Statement<'a> {
    Root(Body<'a>),
    Block(Body<'a>),
    Function {
        name: &'a str,
        args: Vec<TypedIdentifier<'a>>,
        returns: AzulaType<'a>,
        body: Rc<Statement<'a>>,
        span: Span,
    },
    Return(Option<ExpressionNode<'a>>, Span),
    Assign(bool, String, Option<AzulaType<'a>>, ExpressionNode<'a>, Span),
    ExpressionStatement(ExpressionNode<'a>, Span),
    If(ExpressionNode<'a>, Body<'a>, Option<Rc<Statement<'a>>>, Span),
    ExternFunction {
        name: &'a str,
        varargs: bool,
        args: Vec<AzulaType<'a>>,
        returns: AzulaType<'a>,
        span: Span,
    },
    Reassign(ExpressionNode<'a>, ExpressionNode<'a>, Span),
    While(ExpressionNode<'a>, Body<'a>, Span),
    For(Option<ExpressionNode<'a>>, Body<'a>, Span),
    /// `for name in iterable { }`, or `for name in start..end` (the second
    /// expression and whether the range includes its end)
    ForIn(String, ExpressionNode<'a>, Option<ExpressionNode<'a>>, bool, Body<'a>, Span),
    /// `var (a, _, c) = tuple;` (`_` ignores an element)
    Destructure(bool, Vec<String>, ExpressionNode<'a>, Span),
    /// Statements that share the enclosing scope
    Group(Body<'a>),
    /// `target op= value`
    CompoundAssign(ExpressionNode<'a>, Operator, ExpressionNode<'a>, Span),
    Break(Span),
    Continue(Span),
    Struct { name: &'a str, attributes: Vec<TypedIdentifier<'a>>, span: Span },
    Impl {
        struct_impl: AzulaType<'a>,
        trait_impl: Option<AzulaType<'a>>,
        funcs: Vec<Statement<'a>>,
        span: Span,
    },
    Enum {
        name: &'a str,
        variants: Vec<&'a str>,
        /// The payload types carried by each variant (empty for plain variants)
        payloads: Vec<Vec<AzulaType<'a>>>,
        span: Span,
    },
    TypeAlias { name: &'a str, typ: AzulaType<'a>, span: Span },
    Import(String, Span),
    /// A generic definition: a Function, Struct, Enum or Impl parameterised
    /// over the listed type parameters, with bounds (`T is Show` as ("T", "Show"))
    Generic(Vec<&'a str>, Vec<(&'a str, &'a str)>, Rc<Statement<'a>>),
    /// `interface Name { methods }`: each method, and whether it has a default body
    Interface { name: &'a str, methods: Vec<(Statement<'a>, bool)>, span: Span },
    /// `Type is A, B`: the type implements these interfaces
    Conforms(AzulaType<'a>, Vec<&'a str>, Span),
}

#[derive(Debug, PartialEq)]
pub enum Expression<'a> {
    Infix(Rc<ExpressionNode<'a>>, Operator, Rc<ExpressionNode<'a>>),
    Integer(i64),
    /// A number with a fraction, as the bits of its 64-bit IEEE 754 form
    Float(u64),
    Identifier(String),
    Boolean(bool),
    String(String),
    FunctionCall { function: Rc<ExpressionNode<'a>>, args: Vec<ExpressionNode<'a>> },
    Not(Rc<ExpressionNode<'a>>),
    BitNot(Rc<ExpressionNode<'a>>),
    SizeOf(AzulaType<'a>),
    Negate(Rc<ExpressionNode<'a>>),
    Pointer(Rc<ExpressionNode<'a>>),
    /// `*pointer`
    Deref(Rc<ExpressionNode<'a>>),
    /// `"text ${expr} text"`: the pieces to convert to strings and join
    Interpolation(Vec<ExpressionNode<'a>>),
    Array(Vec<ExpressionNode<'a>>),
    /// `(a, b)`
    Tuple(Vec<ExpressionNode<'a>>),
    /// `value?`: the value of an Option or Result, or return early with its None or Err
    Try(Rc<ExpressionNode<'a>>),
    /// `if cond { a } else { b }` used as a value
    If(Rc<ExpressionNode<'a>>, Rc<ExpressionNode<'a>>, Option<Rc<ExpressionNode<'a>>>),
    /// `func(a: A, b) : R { body }` or `func(a) => value`: parameters (whose
    /// types may be left to inference), return type if given, and body
    Closure(Vec<(Option<AzulaType<'a>>, String)>, Option<AzulaType<'a>>, Vec<Statement<'a>>),
    /// A closure object for the lifted function, holding the given captured
    /// variable cells
    MakeClosure(String, Vec<ExpressionNode<'a>>),
    /// Cell `n` of the current closure's environment
    EnvCell(usize),
    /// A new heap cell holding a value: variables captured by closures live
    /// in these
    NewCell(Rc<ExpressionNode<'a>>),
    /// Call of a function value
    CallClosure(Rc<ExpressionNode<'a>>, Vec<ExpressionNode<'a>>),
    ArrayAccess(Rc<ExpressionNode<'a>>, Rc<ExpressionNode<'a>>),
    StructInitialisation(Rc<ExpressionNode<'a>>, Vec<(&'a str, ExpressionNode<'a>)>),
    StructAccess(Rc<ExpressionNode<'a>>, Rc<ExpressionNode<'a>>),
    NamespaceAccess(Rc<ExpressionNode<'a>>, Rc<ExpressionNode<'a>>),
    Match(Rc<ExpressionNode<'a>>, Vec<(MatchPattern<'a>, ExpressionNode<'a>)>),
    Cast(Rc<ExpressionNode<'a>>, AzulaType<'a>),
    Alloc(Rc<ExpressionNode<'a>>),
    Null,
    /// `Name::<Types>`: explicit type arguments for a generic function or type
    Turbofish(String, Vec<AzulaType<'a>>),
    Block(Vec<Statement<'a>>, Option<Rc<ExpressionNode<'a>>>),
}

#[derive(Debug, PartialEq)]
pub enum MatchPattern<'a> {
    /// EnumName::Variant
    Variant(&'a str, &'a str),
    /// EnumName::Variant(a, _, c): binds the variant's payload fields (`_` ignores one)
    Destructure(&'a str, &'a str, Vec<Option<&'a str>>),
    /// integer or char literal
    Integer(i64),
    /// _
    Wildcard,
    /// A name binding a tuple element
    Binding(&'a str),
    /// `A | B`: any of the alternatives (which can't bind names)
    Or(Vec<MatchPattern<'a>>),
    /// `pattern if condition`
    Guarded(Rc<MatchPattern<'a>>, Rc<ExpressionNode<'a>>),
    /// (p, q, ...)
    Tuple(Vec<MatchPattern<'a>>),
}

#[derive(Debug, PartialEq)]
pub struct ExpressionNode<'a> {
    pub expression: Expression<'a>,
    pub typed: AzulaType<'a>,
    pub span: Span,
}

/// The model of a statement.
pub enum Stmt {
    Root(Seq<Stmt>),
    Block(Seq<Stmt>),
    Function(Seq<char>, Seq<(Ty, Seq<char>)>, Ty, Box<Stmt>, Span),
    Return(Option<Expr>, Span),
    Assign(bool, Seq<char>, Option<Ty>, Expr, Span),
    ExpressionStatement(Expr, Span),
    If(Expr, Seq<Stmt>, Option<Box<Stmt>>, Span),
    ExternFunction(Seq<char>, bool, Seq<Ty>, Ty, Span),
    Reassign(Expr, Expr, Span),
    While(Expr, Seq<Stmt>, Span),
    For(Option<Expr>, Seq<Stmt>, Span),
    ForIn(Seq<char>, Expr, Option<Expr>, bool, Seq<Stmt>, Span),
    Destructure(bool, Seq<Seq<char>>, Expr, Span),
    Group(Seq<Stmt>),
    CompoundAssign(Expr, Operator, Expr, Span),
    Break(Span),
    Continue(Span),
    Struct(Seq<char>, Seq<(Ty, Seq<char>)>, Span),
    Impl(Ty, Option<Ty>, Seq<Stmt>, Span),
    Enum(Seq<char>, Seq<Seq<char>>, Seq<Seq<Ty>>, Span),
    TypeAlias(Seq<char>, Ty, Span),
    Import(Seq<char>, Span),
    Generic(Seq<Seq<char>>, Seq<(Seq<char>, Seq<char>)>, Box<Stmt>),
    Interface(Seq<char>, Seq<(Stmt, bool)>, Span),
    Conforms(Ty, Seq<Seq<char>>, Span),
}

/// The model of an expression.
pub struct Expr {
    pub kind: ExprKind,
    pub typed: Ty,
    pub span: Span,
}

/// The model of what an expression is.
pub enum ExprKind {
    Infix(Box<Expr>, Operator, Box<Expr>),
    Integer(i64),
    Float(u64),
    Identifier(Seq<char>),
    Boolean(bool),
    String(Seq<char>),
    FunctionCall(Box<Expr>, Seq<Expr>),
    Not(Box<Expr>),
    BitNot(Box<Expr>),
    SizeOf(Ty),
    Negate(Box<Expr>),
    Pointer(Box<Expr>),
    Deref(Box<Expr>),
    Interpolation(Seq<Expr>),
    Array(Seq<Expr>),
    Tuple(Seq<Expr>),
    Try(Box<Expr>),
    If(Box<Expr>, Box<Expr>, Option<Box<Expr>>),
    Closure(Seq<(Option<Ty>, Seq<char>)>, Option<Ty>, Seq<Stmt>),
    MakeClosure(Seq<char>, Seq<Expr>),
    EnvCell(usize),
    NewCell(Box<Expr>),
    CallClosure(Box<Expr>, Seq<Expr>),
    ArrayAccess(Box<Expr>, Box<Expr>),
    StructInitialisation(Box<Expr>, Seq<(Seq<char>, Expr)>),
    StructAccess(Box<Expr>, Box<Expr>),
    NamespaceAccess(Box<Expr>, Box<Expr>),
    Match(Box<Expr>, Seq<(Pat, Expr)>),
    Cast(Box<Expr>, Ty),
    Alloc(Box<Expr>),
    Null,
    Turbofish(Seq<char>, Seq<Ty>),
    Block(Seq<Stmt>, Option<Box<Expr>>),
}

/// The model of a pattern.
pub enum Pat {
    Variant(Seq<char>, Seq<char>),
    Destructure(Seq<char>, Seq<char>, Seq<Option<Seq<char>>>),
    Integer(i64),
    Wildcard,
    Binding(Seq<char>),
    Or(Seq<Pat>),
    Guarded(Box<Pat>, Box<Expr>),
    Tuple(Seq<Pat>),
}

/// The names in a list.
pub open spec fn names_of(s: Seq<String>) -> Seq<Seq<char>> {
    Seq::new(s.len(), |i: int| s[i]@)
}

/// The names in a list.
pub open spec fn strs_of(s: Seq<&str>) -> Seq<Seq<char>> {
    Seq::new(s.len(), |i: int| s[i]@)
}

/// The pairs of names in a list.
pub open spec fn pairs_of(s: Seq<(&str, &str)>) -> Seq<(Seq<char>, Seq<char>)> {
    Seq::new(s.len(), |i: int| (s[i].0@, s[i].1@))
}

/// The name that is there, if there is one.
pub open spec fn opt_str_of(s: Option<&str>) -> Option<Seq<char>> {
    match s {
        Some(n) => Some(n@),
        None => None,
    }
}

/// The names in a list with gaps.
pub open spec fn opt_strs_of(s: Seq<Option<&str>>) -> Seq<Option<Seq<char>>> {
    Seq::new(s.len(), |i: int| opt_str_of(s[i]))
}

/// The typed names in a list.
pub open spec fn typed_of(s: Seq<TypedIdentifier>) -> Seq<(Ty, Seq<char>)> {
    Seq::new(s.len(), |i: int| (crate::types::ty_of(s[i].0), s[i].1@))
}

/// The parameters of a closure.
pub open spec fn params_of(s: Seq<(Option<AzulaType>, String)>) -> Seq<(Option<Ty>, Seq<char>)> {
    Seq::new(s.len(), |i: int| (crate::types::opt_ty_of(s[i].0), s[i].1@))
}

/// The payload types of the variants of an enum.
pub open spec fn payloads_of(s: Seq<Vec<AzulaType>>) -> Seq<Seq<Ty>> {
    Seq::new(s.len(), |i: int| crate::types::types_of(s[i]@))
}

/// The statement that `s` holds.
pub open spec fn stmt_of(s: Statement) -> Stmt
    decreases s,
{
    match s {
        Statement::Root(body) => Stmt::Root(stmts_of(body@)),
        Statement::Block(body) => Stmt::Block(stmts_of(body@)),
        Statement::Function { name, args, returns: result, body, span } => Stmt::Function(
            name@,
            typed_of(args@),
            crate::types::ty_of(result),
            Box::new(stmt_of(*body)),
            span,
        ),
        Statement::Return(v, span) => Stmt::Return(
            match v {
                Some(v) => Some(expr_of(v)),
                None => None,
            },
            span,
        ),
        Statement::Assign(m, name, t, v, span) => Stmt::Assign(
            m,
            name@,
            crate::types::opt_ty_of(t),
            expr_of(v),
            span,
        ),
        Statement::ExpressionStatement(e, span) => Stmt::ExpressionStatement(expr_of(e), span),
        Statement::If(c, body, other, span) => Stmt::If(
            expr_of(c),
            stmts_of(body@),
            match other {
                Some(o) => Some(Box::new(stmt_of(*o))),
                None => None,
            },
            span,
        ),
        Statement::ExternFunction { name, varargs, args, returns: result, span } => Stmt::ExternFunction(
            name@,
            varargs,
            crate::types::types_of(args@),
            crate::types::ty_of(result),
            span,
        ),
        Statement::Reassign(t, v, span) => Stmt::Reassign(expr_of(t), expr_of(v), span),
        Statement::While(c, body, span) => Stmt::While(expr_of(c), stmts_of(body@), span),
        Statement::For(c, body, span) => Stmt::For(
            match c {
                Some(c) => Some(expr_of(c)),
                None => None,
            },
            stmts_of(body@),
            span,
        ),
        Statement::ForIn(name, it, end, inclusive, body, span) => Stmt::ForIn(
            name@,
            expr_of(it),
            match end {
                Some(e) => Some(expr_of(e)),
                None => None,
            },
            inclusive,
            stmts_of(body@),
            span,
        ),
        Statement::Destructure(m, names, v, span) => Stmt::Destructure(
            m,
            names_of(names@),
            expr_of(v),
            span,
        ),
        Statement::Group(body) => Stmt::Group(stmts_of(body@)),
        Statement::CompoundAssign(t, op, v, span) => Stmt::CompoundAssign(
            expr_of(t),
            op,
            expr_of(v),
            span,
        ),
        Statement::Break(span) => Stmt::Break(span),
        Statement::Continue(span) => Stmt::Continue(span),
        Statement::Struct { name, attributes, span } => Stmt::Struct(
            name@,
            typed_of(attributes@),
            span,
        ),
        Statement::Impl { struct_impl, trait_impl, funcs, span } => Stmt::Impl(
            crate::types::ty_of(struct_impl),
            crate::types::opt_ty_of(trait_impl),
            stmts_of(funcs@),
            span,
        ),
        Statement::Enum { name, variants, payloads, span } => Stmt::Enum(
            name@,
            strs_of(variants@),
            payloads_of(payloads@),
            span,
        ),
        Statement::TypeAlias { name, typ, span } => Stmt::TypeAlias(
            name@,
            crate::types::ty_of(typ),
            span,
        ),
        Statement::Import(path, span) => Stmt::Import(path@, span),
        Statement::Generic(params, bounds, inner) => Stmt::Generic(
            strs_of(params@),
            pairs_of(bounds@),
            Box::new(stmt_of(*inner)),
        ),
        Statement::Interface { name, methods, span } => Stmt::Interface(
            name@,
            methods_of(methods@),
            span,
        ),
        Statement::Conforms(t, names, span) => Stmt::Conforms(
            crate::types::ty_of(t),
            strs_of(names@),
            span,
        ),
    }
}

/// The statements in a list.
pub open spec fn stmts_of(s: Seq<Statement>) -> Seq<Stmt>
    decreases s,
{
    Seq::new(s.len(), |i: int| if 0 <= i < s.len() { stmt_of(s[i]) } else { arbitrary() })
}

/// The methods of an interface.
pub open spec fn methods_of(s: Seq<(Statement, bool)>) -> Seq<(Stmt, bool)>
    decreases s,
{
    Seq::new(
        s.len(),
        |i: int| if 0 <= i < s.len() { (stmt_of(s[i].0), s[i].1) } else { arbitrary() },
    )
}

/// The expression that `e` holds.
pub open spec fn expr_of(e: ExpressionNode) -> Expr
    decreases e,
{
    Expr {
        kind: kind_of(e.expression),
        typed: crate::types::ty_of(e.typed),
        span: e.span,
    }
}

/// What the expression `e` is.
pub open spec fn kind_of(e: Expression) -> ExprKind
    decreases e,
{
    match e {
        Expression::Infix(l, op, r) => ExprKind::Infix(
            Box::new(expr_of(*l)),
            op,
            Box::new(expr_of(*r)),
        ),
        Expression::Integer(v) => ExprKind::Integer(v),
        Expression::Float(v) => ExprKind::Float(v),
        Expression::Identifier(n) => ExprKind::Identifier(n@),
        Expression::Boolean(b) => ExprKind::Boolean(b),
        Expression::String(s) => ExprKind::String(s@),
        Expression::FunctionCall { function, args } => ExprKind::FunctionCall(
            Box::new(expr_of(*function)),
            exprs_of(args@),
        ),
        Expression::Not(e) => ExprKind::Not(Box::new(expr_of(*e))),
        Expression::BitNot(e) => ExprKind::BitNot(Box::new(expr_of(*e))),
        Expression::SizeOf(t) => ExprKind::SizeOf(crate::types::ty_of(t)),
        Expression::Negate(e) => ExprKind::Negate(Box::new(expr_of(*e))),
        Expression::Pointer(e) => ExprKind::Pointer(Box::new(expr_of(*e))),
        Expression::Deref(e) => ExprKind::Deref(Box::new(expr_of(*e))),
        Expression::Interpolation(es) => ExprKind::Interpolation(exprs_of(es@)),
        Expression::Array(es) => ExprKind::Array(exprs_of(es@)),
        Expression::Tuple(es) => ExprKind::Tuple(exprs_of(es@)),
        Expression::Try(e) => ExprKind::Try(Box::new(expr_of(*e))),
        Expression::If(c, a, b) => ExprKind::If(
            Box::new(expr_of(*c)),
            Box::new(expr_of(*a)),
            match b {
                Some(b) => Some(Box::new(expr_of(*b))),
                None => None,
            },
        ),
        Expression::Closure(params, result, body) => ExprKind::Closure(
            params_of(params@),
            crate::types::opt_ty_of(result),
            stmts_of(body@),
        ),
        Expression::MakeClosure(n, es) => ExprKind::MakeClosure(n@, exprs_of(es@)),
        Expression::EnvCell(n) => ExprKind::EnvCell(n),
        Expression::NewCell(e) => ExprKind::NewCell(Box::new(expr_of(*e))),
        Expression::CallClosure(e, es) => ExprKind::CallClosure(
            Box::new(expr_of(*e)),
            exprs_of(es@),
        ),
        Expression::ArrayAccess(a, i) => ExprKind::ArrayAccess(
            Box::new(expr_of(*a)),
            Box::new(expr_of(*i)),
        ),
        Expression::StructInitialisation(s, fs) => ExprKind::StructInitialisation(
            Box::new(expr_of(*s)),
            fields_of(fs@),
        ),
        Expression::StructAccess(a, b) => ExprKind::StructAccess(
            Box::new(expr_of(*a)),
            Box::new(expr_of(*b)),
        ),
        Expression::NamespaceAccess(a, b) => ExprKind::NamespaceAccess(
            Box::new(expr_of(*a)),
            Box::new(expr_of(*b)),
        ),
        Expression::Match(e, arms) => ExprKind::Match(Box::new(expr_of(*e)), arms_of(arms@)),
        Expression::Cast(e, t) => ExprKind::Cast(Box::new(expr_of(*e)), crate::types::ty_of(t)),
        Expression::Alloc(e) => ExprKind::Alloc(Box::new(expr_of(*e))),
        Expression::Null => ExprKind::Null,
        Expression::Turbofish(n, ts) => ExprKind::Turbofish(n@, crate::types::types_of(ts@)),
        Expression::Block(body, last) => ExprKind::Block(
            stmts_of(body@),
            match last {
                Some(l) => Some(Box::new(expr_of(*l))),
                None => None,
            },
        ),
    }
}

/// The expressions in a list.
pub open spec fn exprs_of(s: Seq<ExpressionNode>) -> Seq<Expr>
    decreases s,
{
    Seq::new(s.len(), |i: int| if 0 <= i < s.len() { expr_of(s[i]) } else { arbitrary() })
}

/// The named expressions in a list.
pub open spec fn fields_of(s: Seq<(&str, ExpressionNode)>) -> Seq<(Seq<char>, Expr)>
    decreases s,
{
    Seq::new(
        s.len(),
        |i: int| if 0 <= i < s.len() { (s[i].0@, expr_of(s[i].1)) } else { arbitrary() },
    )
}

/// The arms of a match.
pub open spec fn arms_of(s: Seq<(MatchPattern, ExpressionNode)>) -> Seq<(Pat, Expr)>
    decreases s,
{
    Seq::new(
        s.len(),
        |i: int| if 0 <= i < s.len() { (pat_of(s[i].0), expr_of(s[i].1)) } else { arbitrary() },
    )
}

/// The pattern that `p` holds.
pub open spec fn pat_of(p: MatchPattern) -> Pat
    decreases p,
{
    match p {
        MatchPattern::Variant(e, v) => Pat::Variant(e@, v@),
        MatchPattern::Destructure(e, v, names) => Pat::Destructure(e@, v@, opt_strs_of(names@)),
        MatchPattern::Integer(v) => Pat::Integer(v),
        MatchPattern::Wildcard => Pat::Wildcard,
        MatchPattern::Binding(n) => Pat::Binding(n@),
        MatchPattern::Or(ps) => Pat::Or(pats_of(ps@)),
        MatchPattern::Guarded(p, e) => Pat::Guarded(Box::new(pat_of(*p)), Box::new(expr_of(*e))),
        MatchPattern::Tuple(ps) => Pat::Tuple(pats_of(ps@)),
    }
}

/// The patterns in a list.
pub open spec fn pats_of(s: Seq<MatchPattern>) -> Seq<Pat>
    decreases s,
{
    Seq::new(s.len(), |i: int| if 0 <= i < s.len() { pat_of(s[i]) } else { arbitrary() })
}

/// A copy of a list of statements.
pub fn clone_statements<'a>(v: &Vec<Statement<'a>>) -> (r: Vec<Statement<'a>>)
    ensures
        stmts_of(r@) == stmts_of(v@),
    decreases v,
{
    let mut r: Vec<Statement<'a>> = Vec::new();
    let mut i: usize = 0;
    while i < v.len()
        invariant
            i <= v@.len(),
            r@.len() == i,
            forall|j: int| 0 <= j < i ==> stmt_of(#[trigger] r@[j]) == stmt_of(v@[j]),
        decreases v@.len() - i,
    {
        r.push(v[i].clone());
        i += 1;
    }
    assert(stmts_of(r@) =~= stmts_of(v@));
    r
}

/// A copy of a list of expressions.
pub fn clone_expressions<'a>(v: &Vec<ExpressionNode<'a>>) -> (r: Vec<ExpressionNode<'a>>)
    ensures
        exprs_of(r@) == exprs_of(v@),
    decreases v,
{
    let mut r: Vec<ExpressionNode<'a>> = Vec::new();
    let mut i: usize = 0;
    while i < v.len()
        invariant
            i <= v@.len(),
            r@.len() == i,
            forall|j: int| 0 <= j < i ==> expr_of(#[trigger] r@[j]) == expr_of(v@[j]),
        decreases v@.len() - i,
    {
        r.push(v[i].clone());
        i += 1;
    }
    assert(exprs_of(r@) =~= exprs_of(v@));
    r
}

/// A copy of a list of named expressions.
pub fn clone_fields<'a>(v: &Vec<(&'a str, ExpressionNode<'a>)>) -> (r: Vec<(&'a str, ExpressionNode<'a>)>)
    ensures
        fields_of(r@) == fields_of(v@),
    decreases v,
{
    let mut r: Vec<(&'a str, ExpressionNode<'a>)> = Vec::new();
    let mut i: usize = 0;
    while i < v.len()
        invariant
            i <= v@.len(),
            r@.len() == i,
            forall|j: int| 0 <= j < i ==> (#[trigger] r@[j]).0@ == v@[j].0@ && expr_of(r@[j].1) == expr_of(v@[j].1),
        decreases v@.len() - i,
    {
        r.push((v[i].0, v[i].1.clone()));
        i += 1;
    }
    assert(fields_of(r@) =~= fields_of(v@));
    r
}

/// A copy of the arms of a match.
pub fn clone_arms<'a>(v: &Vec<(MatchPattern<'a>, ExpressionNode<'a>)>) -> (r: Vec<(MatchPattern<'a>, ExpressionNode<'a>)>)
    ensures
        arms_of(r@) == arms_of(v@),
    decreases v,
{
    let mut r: Vec<(MatchPattern<'a>, ExpressionNode<'a>)> = Vec::new();
    let mut i: usize = 0;
    while i < v.len()
        invariant
            i <= v@.len(),
            r@.len() == i,
            forall|j: int| 0 <= j < i ==> pat_of((#[trigger] r@[j]).0) == pat_of(v@[j].0) && expr_of(r@[j].1) == expr_of(v@[j].1),
        decreases v@.len() - i,
    {
        r.push((v[i].0.clone(), v[i].1.clone()));
        i += 1;
    }
    assert(arms_of(r@) =~= arms_of(v@));
    r
}

/// A copy of a list of patterns.
pub fn clone_patterns<'a>(v: &Vec<MatchPattern<'a>>) -> (r: Vec<MatchPattern<'a>>)
    ensures
        pats_of(r@) == pats_of(v@),
    decreases v,
{
    let mut r: Vec<MatchPattern<'a>> = Vec::new();
    let mut i: usize = 0;
    while i < v.len()
        invariant
            i <= v@.len(),
            r@.len() == i,
            forall|j: int| 0 <= j < i ==> pat_of(#[trigger] r@[j]) == pat_of(v@[j]),
        decreases v@.len() - i,
    {
        r.push(v[i].clone());
        i += 1;
    }
    assert(pats_of(r@) =~= pats_of(v@));
    r
}

/// A copy of the methods of an interface.
pub fn clone_methods<'a>(v: &Vec<(Statement<'a>, bool)>) -> (r: Vec<(Statement<'a>, bool)>)
    ensures
        methods_of(r@) == methods_of(v@),
    decreases v,
{
    let mut r: Vec<(Statement<'a>, bool)> = Vec::new();
    let mut i: usize = 0;
    while i < v.len()
        invariant
            i <= v@.len(),
            r@.len() == i,
            forall|j: int| 0 <= j < i ==> stmt_of((#[trigger] r@[j]).0) == stmt_of(v@[j].0) && r@[j].1 == v@[j].1,
        decreases v@.len() - i,
    {
        r.push((v[i].0.clone(), v[i].1));
        i += 1;
    }
    assert(methods_of(r@) =~= methods_of(v@));
    r
}

/// A copy of a list of names.
pub fn clone_names(v: &Vec<String>) -> (r: Vec<String>)
    ensures
        names_of(r@) == names_of(v@),
{
    let mut r: Vec<String> = Vec::new();
    let mut i: usize = 0;
    while i < v.len()
        invariant
            i <= v@.len(),
            r@.len() == i,
            forall|j: int| 0 <= j < i ==> (#[trigger] r@[j])@ == v@[j]@,
        decreases v@.len() - i,
    {
        r.push(v[i].clone());
        i += 1;
    }
    assert(names_of(r@) =~= names_of(v@));
    r
}

/// A copy of a list of names.
pub fn clone_strs<'a>(v: &Vec<&'a str>) -> (r: Vec<&'a str>)
    ensures
        strs_of(r@) == strs_of(v@),
{
    let mut r: Vec<&'a str> = Vec::new();
    let mut i: usize = 0;
    while i < v.len()
        invariant
            i <= v@.len(),
            r@.len() == i,
            forall|j: int| 0 <= j < i ==> (#[trigger] r@[j])@ == v@[j]@,
        decreases v@.len() - i,
    {
        r.push(v[i]);
        i += 1;
    }
    assert(strs_of(r@) =~= strs_of(v@));
    r
}

/// A copy of a list of pairs of names.
pub fn clone_pairs<'a>(v: &Vec<(&'a str, &'a str)>) -> (r: Vec<(&'a str, &'a str)>)
    ensures
        pairs_of(r@) == pairs_of(v@),
{
    let mut r: Vec<(&'a str, &'a str)> = Vec::new();
    let mut i: usize = 0;
    while i < v.len()
        invariant
            i <= v@.len(),
            r@.len() == i,
            forall|j: int| 0 <= j < i ==> (#[trigger] r@[j]).0@ == v@[j].0@ && r@[j].1@ == v@[j].1@,
        decreases v@.len() - i,
    {
        r.push((v[i].0, v[i].1));
        i += 1;
    }
    assert(pairs_of(r@) =~= pairs_of(v@));
    r
}

/// A copy of a list of names with gaps.
pub fn clone_optional_strs<'a>(v: &Vec<Option<&'a str>>) -> (r: Vec<Option<&'a str>>)
    ensures
        opt_strs_of(r@) == opt_strs_of(v@),
{
    let mut r: Vec<Option<&'a str>> = Vec::new();
    let mut i: usize = 0;
    while i < v.len()
        invariant
            i <= v@.len(),
            r@.len() == i,
            forall|j: int| 0 <= j < i ==> opt_str_of(#[trigger] r@[j]) == opt_str_of(v@[j]),
        decreases v@.len() - i,
    {
        r.push(v[i]);
        i += 1;
    }
    assert(opt_strs_of(r@) =~= opt_strs_of(v@));
    r
}

/// A copy of a list of typed names.
pub fn clone_typed<'a>(v: &Vec<TypedIdentifier<'a>>) -> (r: Vec<TypedIdentifier<'a>>)
    ensures
        typed_of(r@) == typed_of(v@),
{
    let mut r: Vec<TypedIdentifier<'a>> = Vec::new();
    let mut i: usize = 0;
    while i < v.len()
        invariant
            i <= v@.len(),
            r@.len() == i,
            forall|j: int| 0 <= j < i ==> crate::types::ty_of((#[trigger] r@[j]).0) == crate::types::ty_of(v@[j].0) && r@[j].1@ == v@[j].1@,
        decreases v@.len() - i,
    {
        r.push((v[i].0.clone(), v[i].1));
        i += 1;
    }
    assert(typed_of(r@) =~= typed_of(v@));
    r
}

/// A copy of the parameters of a closure.
pub fn clone_params<'a>(v: &Vec<(Option<AzulaType<'a>>, String)>) -> (r: Vec<(Option<AzulaType<'a>>, String)>)
    ensures
        params_of(r@) == params_of(v@),
{
    let mut r: Vec<(Option<AzulaType<'a>>, String)> = Vec::new();
    let mut i: usize = 0;
    while i < v.len()
        invariant
            i <= v@.len(),
            r@.len() == i,
            forall|j: int| 0 <= j < i ==> crate::types::opt_ty_of((#[trigger] r@[j]).0) == crate::types::opt_ty_of(v@[j].0) && r@[j].1@ == v@[j].1@,
        decreases v@.len() - i,
    {
        r.push((clone_opt_type(&v[i].0), v[i].1.clone()));
        i += 1;
    }
    assert(params_of(r@) =~= params_of(v@));
    r
}

/// A copy of the payload types of the variants of an enum.
pub fn clone_payloads<'a>(v: &Vec<Vec<AzulaType<'a>>>) -> (r: Vec<Vec<AzulaType<'a>>>)
    ensures
        payloads_of(r@) == payloads_of(v@),
{
    let mut r: Vec<Vec<AzulaType<'a>>> = Vec::new();
    let mut i: usize = 0;
    while i < v.len()
        invariant
            i <= v@.len(),
            r@.len() == i,
            forall|j: int| 0 <= j < i ==> crate::types::types_of((#[trigger] r@[j])@) == crate::types::types_of(v@[j]@),
        decreases v@.len() - i,
    {
        r.push(clone_types(&v[i]));
        i += 1;
    }
    assert(payloads_of(r@) =~= payloads_of(v@));
    r
}

impl<'a> Clone for Statement<'a> {
    fn clone(&self) -> (r: Self)
        ensures
            stmt_of(r) == stmt_of(*self),
        decreases self,
    {
        match self {
            Statement::Root(body) => Statement::Root(clone_statements(body)),
            Statement::Block(body) => Statement::Block(clone_statements(body)),
            Statement::Function { name, args, returns: result, body, span } => Statement::Function {
                name,
                args: clone_typed(args),
                returns: result.clone(),
                body: body.clone(),
                span: *span,
            },
            Statement::Return(v, span) => Statement::Return(
                match v {
                    Some(v) => Some(v.clone()),
                    None => None,
                },
                *span,
            ),
            Statement::Assign(m, name, t, v, span) => Statement::Assign(
                *m,
                name.clone(),
                clone_opt_type(t),
                v.clone(),
                *span,
            ),
            Statement::ExpressionStatement(e, span) => Statement::ExpressionStatement(
                e.clone(),
                *span,
            ),
            Statement::If(c, body, other, span) => Statement::If(
                c.clone(),
                clone_statements(body),
                match other {
                    Some(o) => Some(o.clone()),
                    None => None,
                },
                *span,
            ),
            Statement::ExternFunction { name, varargs, args, returns: result, span } => {
                Statement::ExternFunction {
                    name,
                    varargs: *varargs,
                    args: clone_types(args),
                    returns: result.clone(),
                    span: *span,
                }
            },
            Statement::Reassign(t, v, span) => Statement::Reassign(t.clone(), v.clone(), *span),
            Statement::While(c, body, span) => Statement::While(
                c.clone(),
                clone_statements(body),
                *span,
            ),
            Statement::For(c, body, span) => Statement::For(
                match c {
                    Some(c) => Some(c.clone()),
                    None => None,
                },
                clone_statements(body),
                *span,
            ),
            Statement::ForIn(name, it, end, inclusive, body, span) => Statement::ForIn(
                name.clone(),
                it.clone(),
                match end {
                    Some(e) => Some(e.clone()),
                    None => None,
                },
                *inclusive,
                clone_statements(body),
                *span,
            ),
            Statement::Destructure(m, names, v, span) => Statement::Destructure(
                *m,
                clone_names(names),
                v.clone(),
                *span,
            ),
            Statement::Group(body) => Statement::Group(clone_statements(body)),
            Statement::CompoundAssign(t, op, v, span) => Statement::CompoundAssign(
                t.clone(),
                *op,
                v.clone(),
                *span,
            ),
            Statement::Break(span) => Statement::Break(*span),
            Statement::Continue(span) => Statement::Continue(*span),
            Statement::Struct { name, attributes, span } => Statement::Struct {
                name,
                attributes: clone_typed(attributes),
                span: *span,
            },
            Statement::Impl { struct_impl, trait_impl, funcs, span } => Statement::Impl {
                struct_impl: struct_impl.clone(),
                trait_impl: clone_opt_type(trait_impl),
                funcs: clone_statements(funcs),
                span: *span,
            },
            Statement::Enum { name, variants, payloads, span } => Statement::Enum {
                name,
                variants: clone_strs(variants),
                payloads: clone_payloads(payloads),
                span: *span,
            },
            Statement::TypeAlias { name, typ, span } => Statement::TypeAlias {
                name,
                typ: typ.clone(),
                span: *span,
            },
            Statement::Import(path, span) => Statement::Import(path.clone(), *span),
            Statement::Generic(params, bounds, inner) => Statement::Generic(
                clone_strs(params),
                clone_pairs(bounds),
                inner.clone(),
            ),
            Statement::Interface { name, methods, span } => Statement::Interface {
                name,
                methods: clone_methods(methods),
                span: *span,
            },
            Statement::Conforms(t, names, span) => Statement::Conforms(
                t.clone(),
                clone_strs(names),
                *span,
            ),
        }
    }
}

impl<'a> Clone for ExpressionNode<'a> {
    fn clone(&self) -> (r: Self)
        ensures
            expr_of(r) == expr_of(*self),
        decreases self,
    {
        ExpressionNode {
            expression: self.expression.clone(),
            typed: self.typed.clone(),
            span: self.span,
        }
    }
}

impl<'a> Clone for Expression<'a> {
    fn clone(&self) -> (r: Self)
        ensures
            kind_of(r) == kind_of(*self),
        decreases self,
    {
        match self {
            Expression::Infix(l, op, r) => Expression::Infix(l.clone(), *op, r.clone()),
            Expression::Integer(v) => Expression::Integer(*v),
            Expression::Float(v) => Expression::Float(*v),
            Expression::Identifier(n) => Expression::Identifier(n.clone()),
            Expression::Boolean(b) => Expression::Boolean(*b),
            Expression::String(s) => Expression::String(s.clone()),
            Expression::FunctionCall { function, args } => Expression::FunctionCall {
                function: function.clone(),
                args: clone_expressions(args),
            },
            Expression::Not(e) => Expression::Not(e.clone()),
            Expression::BitNot(e) => Expression::BitNot(e.clone()),
            Expression::SizeOf(t) => Expression::SizeOf(t.clone()),
            Expression::Negate(e) => Expression::Negate(e.clone()),
            Expression::Pointer(e) => Expression::Pointer(e.clone()),
            Expression::Deref(e) => Expression::Deref(e.clone()),
            Expression::Interpolation(es) => Expression::Interpolation(clone_expressions(es)),
            Expression::Array(es) => Expression::Array(clone_expressions(es)),
            Expression::Tuple(es) => Expression::Tuple(clone_expressions(es)),
            Expression::Try(e) => Expression::Try(e.clone()),
            Expression::If(c, a, b) => Expression::If(
                c.clone(),
                a.clone(),
                match b {
                    Some(b) => Some(b.clone()),
                    None => None,
                },
            ),
            Expression::Closure(params, result, body) => Expression::Closure(
                clone_params(params),
                clone_opt_type(result),
                clone_statements(body),
            ),
            Expression::MakeClosure(n, es) => Expression::MakeClosure(
                n.clone(),
                clone_expressions(es),
            ),
            Expression::EnvCell(n) => Expression::EnvCell(*n),
            Expression::NewCell(e) => Expression::NewCell(e.clone()),
            Expression::CallClosure(e, es) => Expression::CallClosure(
                e.clone(),
                clone_expressions(es),
            ),
            Expression::ArrayAccess(a, i) => Expression::ArrayAccess(a.clone(), i.clone()),
            Expression::StructInitialisation(s, fs) => Expression::StructInitialisation(
                s.clone(),
                clone_fields(fs),
            ),
            Expression::StructAccess(a, b) => Expression::StructAccess(a.clone(), b.clone()),
            Expression::NamespaceAccess(a, b) => Expression::NamespaceAccess(
                a.clone(),
                b.clone(),
            ),
            Expression::Match(e, arms) => Expression::Match(e.clone(), clone_arms(arms)),
            Expression::Cast(e, t) => Expression::Cast(e.clone(), t.clone()),
            Expression::Alloc(e) => Expression::Alloc(e.clone()),
            Expression::Null => Expression::Null,
            Expression::Turbofish(n, ts) => Expression::Turbofish(n.clone(), clone_types(ts)),
            Expression::Block(body, last) => Expression::Block(
                clone_statements(body),
                match last {
                    Some(l) => Some(l.clone()),
                    None => None,
                },
            ),
        }
    }
}

impl<'a> Clone for MatchPattern<'a> {
    fn clone(&self) -> (r: Self)
        ensures
            pat_of(r) == pat_of(*self),
        decreases self,
    {
        match self {
            MatchPattern::Variant(e, v) => MatchPattern::Variant(e, v),
            MatchPattern::Destructure(e, v, names) => MatchPattern::Destructure(
                e,
                v,
                clone_optional_strs(names),
            ),
            MatchPattern::Integer(v) => MatchPattern::Integer(*v),
            MatchPattern::Wildcard => MatchPattern::Wildcard,
            MatchPattern::Binding(n) => MatchPattern::Binding(n),
            MatchPattern::Or(ps) => MatchPattern::Or(clone_patterns(ps)),
            MatchPattern::Guarded(p, e) => MatchPattern::Guarded(p.clone(), e.clone()),
            MatchPattern::Tuple(ps) => MatchPattern::Tuple(clone_patterns(ps)),
        }
    }
}

} // verus!
