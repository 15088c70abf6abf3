//! Which variables closures use from their surroundings. Closures capture variables
//! by reference, so the typechecker keeps mutable variables that a closure uses in
//! heap cells.

pub mod occurrences;

use vstd::prelude::*;
use vstd::string::*;
use crate::ast;
use crate::ast::{
    Expr, ExprKind, Expression, ExpressionNode, MatchPattern, Pat, Statement, Stmt,
    TypedIdentifier,
};
use crate::names;
use crate::names::NameSet;
use crate::types::{AzulaType, Ty};

verus! {

/// The names that a part of a tree is concerned with.
pub struct Uses {
    /// Identifiers read or written
    pub used: Set<Seq<char>>,
    /// Names declared (variables, loop variables, pattern bindings, parameters)
    pub declared: Set<Seq<char>>,
    /// Names used by closures that they don't declare themselves
    pub free: Set<Seq<char>>,
}

/// No names.
pub open spec fn none() -> Uses {
    Uses { used: Set::empty(), declared: Set::empty(), free: Set::empty() }
}

/// The names of two parts.
pub open spec fn join(a: Uses, b: Uses) -> Uses {
    Uses {
        used: a.used.union(b.used),
        declared: a.declared.union(b.declared),
        free: a.free.union(b.free),
    }
}

/// A use of `name`.
pub open spec fn using(name: Seq<char>) -> Uses {
    Uses { used: Set::empty().insert(name), ..none() }
}

/// Declarations of `names`.
pub open spec fn declaring(names: Set<Seq<char>>) -> Uses {
    Uses { declared: names, ..none() }
}

/// The names of a statement.
pub open spec fn stmt_uses(s: Stmt) -> Uses
    decreases s, 0int,
{
    match s {
        Stmt::Root(body) => stmts_uses(body, 0),
        Stmt::Block(body) => stmts_uses(body, 0),
        Stmt::Group(body) => stmts_uses(body, 0),
        Stmt::Function(_, args, _, body, _) => join(
            declaring(arg_names(args).to_set()),
            stmt_uses(*body),
        ),
        Stmt::Return(v, _) => match v {
            Some(v) => expr_uses(v),
            None => none(),
        },
        Stmt::Assign(_, name, _, v, _) => join(
            declaring(Set::empty().insert(name)),
            expr_uses(v),
        ),
        Stmt::ExpressionStatement(e, _) => expr_uses(e),
        Stmt::If(c, body, other, _) => join(
            join(expr_uses(c), stmts_uses(body, 0)),
            match other {
                Some(o) => stmt_uses(*o),
                None => none(),
            },
        ),
        Stmt::Reassign(t, v, _) => join(expr_uses(t), expr_uses(v)),
        Stmt::CompoundAssign(t, _, v, _) => join(expr_uses(t), expr_uses(v)),
        Stmt::While(c, body, _) => join(expr_uses(c), stmts_uses(body, 0)),
        Stmt::For(c, body, _) => join(
            match c {
                Some(c) => expr_uses(c),
                None => none(),
            },
            stmts_uses(body, 0),
        ),
        Stmt::ForIn(name, it, end, _, body, _) => join(
            join(
                join(declaring(Set::empty().insert(name)), expr_uses(it)),
                match end {
                    Some(e) => expr_uses(e),
                    None => none(),
                },
            ),
            stmts_uses(body, 0),
        ),
        Stmt::Destructure(_, bound, v, _) => join(declaring(bound.to_set()), expr_uses(v)),
        _ => none(),
    }
}

/// The names of the statements from position `k` on.
pub open spec fn stmts_uses(ss: Seq<Stmt>, k: int) -> Uses
    decreases ss, ss.len() - k,
{
    if k < 0 || k >= ss.len() {
        none()
    } else {
        join(stmt_uses(ss[k]), stmts_uses(ss, k + 1))
    }
}

/// The names of an expression. The name of a member is no variable. A closure uses
/// what its body uses and neither the body nor the parameters declare.
pub open spec fn expr_uses(e: Expr) -> Uses
    decreases e, 0int,
{
    match e.kind {
        ExprKind::Identifier(name) => using(name),
        ExprKind::Infix(l, _, r) => join(expr_uses(*l), expr_uses(*r)),
        ExprKind::ArrayAccess(l, r) => join(expr_uses(*l), expr_uses(*r)),
        ExprKind::FunctionCall(f, args) => join(expr_uses(*f), exprs_uses(args, 0)),
        ExprKind::Not(e) => expr_uses(*e),
        ExprKind::BitNot(e) => expr_uses(*e),
        ExprKind::Negate(e) => expr_uses(*e),
        ExprKind::Pointer(e) => expr_uses(*e),
        ExprKind::Deref(e) => expr_uses(*e),
        ExprKind::Cast(e, _) => expr_uses(*e),
        ExprKind::Alloc(e) => expr_uses(*e),
        ExprKind::Try(e) => expr_uses(*e),
        ExprKind::NewCell(e) => expr_uses(*e),
        ExprKind::If(c, a, b) => join(
            join(expr_uses(*c), expr_uses(*a)),
            match b {
                Some(b) => expr_uses(*b),
                None => none(),
            },
        ),
        ExprKind::MakeClosure(_, es) => exprs_uses(es, 0),
        ExprKind::CallClosure(f, args) => join(expr_uses(*f), exprs_uses(args, 0)),
        ExprKind::Array(es) => exprs_uses(es, 0),
        ExprKind::Tuple(es) => exprs_uses(es, 0),
        ExprKind::Interpolation(es) => exprs_uses(es, 0),
        ExprKind::StructInitialisation(_, fs) => fields_uses(fs, 0),
        ExprKind::StructAccess(object, _) => expr_uses(*object),
        ExprKind::Match(e, arms) => join(expr_uses(*e), arms_uses(arms, 0)),
        ExprKind::Block(body, last) => join(
            stmts_uses(body, 0),
            match last {
                Some(l) => expr_uses(*l),
                None => none(),
            },
        ),
        ExprKind::Closure(params, _, body) => closure_uses(
            join(declaring(param_names(params).to_set()), stmts_uses(body, 0)),
        ),
        _ => none(),
    }
}

/// The names of the parameters of a closure.
pub open spec fn param_names(params: Seq<(Option<Ty>, Seq<char>)>) -> Seq<Seq<char>> {
    Seq::new(params.len(), |i: int| params[i].1)
}

/// The names of the parameters of a function.
pub open spec fn arg_names(args: Seq<(Ty, Seq<char>)>) -> Seq<Seq<char>> {
    Seq::new(args.len(), |i: int| args[i].1)
}

/// What a closure is concerned with, of the names of its parameters and its body.
pub open spec fn closure_uses(inner: Uses) -> Uses {
    let free = inner.used.difference(inner.declared);
    Uses { used: free, declared: Set::empty(), free: free.union(inner.free) }
}

/// The names of the expressions from position `k` on.
pub open spec fn exprs_uses(es: Seq<Expr>, k: int) -> Uses
    decreases es, es.len() - k,
{
    if k < 0 || k >= es.len() {
        none()
    } else {
        join(expr_uses(es[k]), exprs_uses(es, k + 1))
    }
}

/// The names of the named expressions from position `k` on.
pub open spec fn fields_uses(fs: Seq<(Seq<char>, Expr)>, k: int) -> Uses
    decreases fs, fs.len() - k,
{
    if k < 0 || k >= fs.len() {
        none()
    } else {
        join(expr_uses(fs[k].1), fields_uses(fs, k + 1))
    }
}

/// The names of the arms from position `k` on.
pub open spec fn arms_uses(arms: Seq<(Pat, Expr)>, k: int) -> Uses
    decreases arms, arms.len() - k,
{
    if k < 0 || k >= arms.len() {
        none()
    } else {
        join(
            join(pat_uses(arms[k].0), expr_uses(arms[k].1)),
            arms_uses(arms, k + 1),
        )
    }
}

/// The names of a pattern: those that it binds, and those that its guard uses.
/// Alternatives bind no names.
pub open spec fn pat_uses(p: Pat) -> Uses
    decreases p, 0int,
{
    match p {
        Pat::Destructure(_, _, bindings) => declaring(bound_names(bindings, 0)),
        Pat::Binding(name) => declaring(Set::empty().insert(name)),
        Pat::Tuple(items) => pats_uses(items, 0),
        Pat::Guarded(p, guard) => join(pat_uses(*p), expr_uses(*guard)),
        _ => none(),
    }
}

/// The names in a list with gaps, from position `k` on.
pub open spec fn bound_names(bindings: Seq<Option<Seq<char>>>, k: int) -> Set<Seq<char>>
    decreases bindings.len() - k,
{
    if k < 0 || k >= bindings.len() {
        Set::empty()
    } else {
        match bindings[k] {
            Some(name) => bound_names(bindings, k + 1).insert(name),
            None => bound_names(bindings, k + 1),
        }
    }
}

/// The names of the patterns from position `k` on.
pub open spec fn pats_uses(ps: Seq<Pat>, k: int) -> Uses
    decreases ps, ps.len() - k,
{
    if k < 0 || k >= ps.len() {
        none()
    } else {
        join(pat_uses(ps[k]), pats_uses(ps, k + 1))
    }
}

/// The names of a closure with the parameters `params` and the body `body`.
pub open spec fn body_uses(params: Seq<Seq<char>>, body: Seq<Stmt>) -> Uses {
    join(declaring(params.to_set()), stmts_uses(body, 0))
}

/// The names that are found while a tree is walked.
struct Names {
    used: NameSet,
    declared: NameSet,
    closure_free: NameSet,
}

impl View for Names {
    type V = Uses;

    closed spec fn view(&self) -> Uses {
        Uses { used: self.used@, declared: self.declared@, free: self.closure_free@ }
    }
}

/// Names can be joined in any grouping.
broadcast proof fn lemma_join_grouping(a: Uses, b: Uses, c: Uses)
    ensures
        #[trigger] join(join(a, b), c) == join(a, join(b, c)),
{
    assert(join(join(a, b), c).used =~= join(a, join(b, c)).used);
    assert(join(join(a, b), c).declared =~= join(a, join(b, c)).declared);
    assert(join(join(a, b), c).free =~= join(a, join(b, c)).free);
}

/// Joining no names changes nothing.
broadcast proof fn lemma_join_none(a: Uses)
    ensures
        #[trigger] join(a, none()) == a,
{
    assert(join(a, none()).used =~= a.used);
    assert(join(a, none()).declared =~= a.declared);
    assert(join(a, none()).free =~= a.free);
}

/// Names joined to no names are the names.
broadcast proof fn lemma_none_join(a: Uses)
    ensures
        #[trigger] join(none(), a) == a,
{
    assert(join(none(), a).used =~= a.used);
    assert(join(none(), a).declared =~= a.declared);
    assert(join(none(), a).free =~= a.free);
}

broadcast group group_join {
    lemma_join_grouping,
    lemma_join_none,
    lemma_none_join,
}

impl Names {
    spec fn well_formed(&self) -> bool {
        self.used.well_formed() && self.declared.well_formed() && self.closure_free.well_formed()
    }

    /// No names.
    fn new() -> (r: Self)
        ensures
            r.well_formed(),
            r@ == none(),
    {
        Names { used: NameSet::new(), declared: NameSet::new(), closure_free: NameSet::new() }
    }

    /// Note a declaration.
    fn declare(&mut self, name: &str)
        requires
            old(self).well_formed(),
        ensures
            final(self).well_formed(),
            final(self)@ == join(old(self)@, declaring(Set::empty().insert(name@))),
    {
        let ghost before = self@;
        self.declared.insert(name.to_owned());
        proof {
            let after = join(before, declaring(Set::empty().insert(name@)));
            assert(self@.used =~= after.used);
            assert(self@.declared =~= after.declared);
            assert(self@.free =~= after.free);
        }
    }

    /// Note a use.
    fn add_use(&mut self, name: &str)
        requires
            old(self).well_formed(),
        ensures
            final(self).well_formed(),
            final(self)@ == join(old(self)@, using(name@)),
    {
        let ghost before = self@;
        self.used.insert(name.to_owned());
        proof {
            let after = join(before, using(name@));
            assert(self@.used =~= after.used);
            assert(self@.declared =~= after.declared);
            assert(self@.free =~= after.free);
        }
    }

    /// Note declarations.
    fn declare_all(&mut self, names: &[String])
        requires
            old(self).well_formed(),
        ensures
            final(self).well_formed(),
            final(self)@ == join(
                old(self)@,
                declaring(ast::names_of(names@).to_set()),
            ),
    {
        let ghost start = self@;
        let ghost all = ast::names_of(names@);
        let mut i: usize = 0;
        proof {
            assert(all.take(0).to_set() =~= Set::empty());
            lemma_join_none(start);
        }
        while i < names.len()
            invariant
                self.well_formed(),
                all == ast::names_of(names@),
                i <= all.len(),
                self@ == join(start, declaring(all.take(i as int).to_set())),
            decreases all.len() - i,
        {
            self.declare(names[i].as_str());
            proof {
                lemma_take_insert(all, i as int);
                let after = join(start, declaring(all.take(i + 1).to_set()));
                assert(self@.used =~= after.used);
                assert(self@.declared =~= after.declared);
                assert(self@.free =~= after.free);
            }
            i += 1;
        }
        assert(all.take(i as int) =~= all);
    }

    /// Note what a closure is concerned with.
    fn add_closure(&mut self, inner: &Names)
        requires
            old(self).well_formed(),
        ensures
            final(self).well_formed(),
            final(self)@ == join(old(self)@, closure_uses(inner@)),
    {
        let ghost before = self@;
        self.used.extend_without(&inner.used, &inner.declared);
        self.closure_free.extend_without(&inner.used, &inner.declared);
        self.closure_free.extend(&inner.closure_free);
        proof {
            let after = join(before, closure_uses(inner@));
            assert(self@.used =~= after.used);
            assert(self@.declared =~= after.declared);
            assert(self@.free =~= after.free);
        }
    }
}

/// The names up to a position are those before it and the one at it.
proof fn lemma_take_insert(s: Seq<Seq<char>>, i: int)
    requires
        0 <= i < s.len(),
    ensures
        s.take(i + 1).to_set() == s.take(i).to_set().insert(s[i]),
{
    let x = s.take(i + 1);
    let y = s.take(i);
    assert(x =~= y.push(s[i]));
    assert forall|n: Seq<char>| x.to_set().contains(n) == y.to_set().insert(s[i]).contains(n) by {
        if x.to_set().contains(n) {
            let k = choose|k: int| 0 <= k < x.len() && x[k] == n;
            if k < i {
                assert(y[k] == n);
            }
        }
        if y.to_set().contains(n) {
            let k = choose|k: int| 0 <= k < y.len() && y[k] == n;
            assert(x[k] == n);
        }
        if n == s[i] {
            assert(x[i] == n);
        }
    }
    assert(x.to_set() =~= y.to_set().insert(s[i]));
}

/// Walk statements.
fn walk_body(body: &Vec<Statement>, names: &mut Names)
    requires
        old(names).well_formed(),
    ensures
        final(names).well_formed(),
        final(names)@ == join(old(names)@, stmts_uses(ast::stmts_of(body@), 0)),
    decreases body, 1int,
{
    broadcast use group_join;

    let ghost all = ast::stmts_of(body@);
    let mut k: usize = 0;
    while k < body.len()
        invariant
            names.well_formed(),
            all == ast::stmts_of(body@),
            k <= all.len(),
            all.len() == body@.len(),
            join(old(names)@, stmts_uses(all, 0)) == join(names@, stmts_uses(all, k as int)),
        decreases all.len() - k,
    {
        broadcast use group_join;

        walk_stmt(&body[k], names);
        k += 1;
    }
}

/// Walk a statement.
fn walk_stmt(stmt: &Statement, names: &mut Names)
    requires
        old(names).well_formed(),
    ensures
        final(names).well_formed(),
        final(names)@ == join(old(names)@, stmt_uses(ast::stmt_of(*stmt))),
    decreases stmt, 0int,
{
    broadcast use group_join;

    match stmt {
        Statement::Root(body) => walk_body(body, names),
        Statement::Block(body) => walk_body(body, names),
        Statement::Group(body) => walk_body(body, names),
        Statement::Function { args, body, .. } => {
            let arg_list = names_of_args(args);
            names.declare_all(arg_list.as_slice());
            walk_stmt(body, names);
        },
        Statement::Return(value, _) => {
            if let Some(v) = value {
                walk_expr(v, names);
            }
        },
        Statement::Assign(_, name, _, value, _) => {
            names.declare(name.as_str());
            walk_expr(value, names);
        },
        Statement::ExpressionStatement(e, _) => walk_expr(e, names),
        Statement::If(cond, body, other, _) => {
            walk_expr(cond, names);
            walk_body(body, names);
            if let Some(e) = other {
                walk_stmt(e, names);
            }
        },
        Statement::Reassign(target, value, _) => {
            walk_expr(target, names);
            walk_expr(value, names);
        },
        Statement::CompoundAssign(target, _, value, _) => {
            walk_expr(target, names);
            walk_expr(value, names);
        },
        Statement::While(cond, body, _) => {
            walk_expr(cond, names);
            walk_body(body, names);
        },
        Statement::For(cond, body, _) => {
            if let Some(c) = cond {
                walk_expr(c, names);
            }
            walk_body(body, names);
        },
        Statement::ForIn(name, iterable, end, _, body, _) => {
            names.declare(name.as_str());
            walk_expr(iterable, names);
            if let Some(e) = end {
                walk_expr(e, names);
            }
            walk_body(body, names);
        },
        Statement::Destructure(_, bound, value, _) => {
            names.declare_all(bound.as_slice());
            walk_expr(value, names);
        },
        _ => {},
    }
}

/// Note the names in a list with gaps.
fn declare_bindings(bindings: &Vec<Option<&str>>, names: &mut Names)
    requires
        old(names).well_formed(),
    ensures
        final(names).well_formed(),
        final(names)@ == join(
            old(names)@,
            declaring(bound_names(ast::opt_strs_of(bindings@), 0)),
        ),
{
    broadcast use group_join;

    let ghost all = ast::opt_strs_of(bindings@);
    let mut k: usize = 0;
    while k < bindings.len()
        invariant
            names.well_formed(),
            all == ast::opt_strs_of(bindings@),
            k <= all.len(),
            all.len() == bindings@.len(),
            join(old(names)@, declaring(bound_names(all, 0))) == join(
                names@,
                declaring(bound_names(all, k as int)),
            ),
        decreases all.len() - k,
    {
        broadcast use group_join;

        if let Some(name) = bindings[k] {
            names.declare(name);
            proof {
                let rest = declaring(bound_names(all, k + 1));
                let this = declaring(Set::empty().insert(name@));
                assert(join(this, rest).declared =~= bound_names(all, k as int));
                assert(join(this, rest).used =~= Set::empty());
                assert(join(this, rest).free =~= Set::empty());
            }
        }
        k += 1;
    }
}

/// Walk a pattern: note the names that it binds, and walk its guard.
fn declare_pattern(pattern: &MatchPattern, names: &mut Names)
    requires
        old(names).well_formed(),
    ensures
        final(names).well_formed(),
        final(names)@ == join(old(names)@, pat_uses(ast::pat_of(*pattern))),
    decreases pattern, 0int,
{
    broadcast use group_join;

    match pattern {
        MatchPattern::Destructure(_, _, bindings) => declare_bindings(bindings, names),
        MatchPattern::Binding(name) => names.declare(name),
        MatchPattern::Tuple(items) => declare_patterns(items, names),
        MatchPattern::Guarded(p, guard) => {
            declare_pattern(p, names);
            walk_expr(guard, names);
        },
        _ => {},
    }
}

/// Walk patterns.
fn declare_patterns(items: &Vec<MatchPattern>, names: &mut Names)
    requires
        old(names).well_formed(),
    ensures
        final(names).well_formed(),
        final(names)@ == join(old(names)@, pats_uses(ast::pats_of(items@), 0)),
    decreases items, 1int,
{
    broadcast use group_join;

    let ghost all = ast::pats_of(items@);
    let mut k: usize = 0;
    while k < items.len()
        invariant
            names.well_formed(),
            all == ast::pats_of(items@),
            k <= all.len(),
            all.len() == items@.len(),
            join(old(names)@, pats_uses(all, 0)) == join(names@, pats_uses(all, k as int)),
        decreases all.len() - k,
    {
        broadcast use group_join;

        declare_pattern(&items[k], names);
        k += 1;
    }
}

/// Walk expressions.
fn walk_exprs(es: &Vec<ExpressionNode>, names: &mut Names)
    requires
        old(names).well_formed(),
    ensures
        final(names).well_formed(),
        final(names)@ == join(old(names)@, exprs_uses(ast::exprs_of(es@), 0)),
    decreases es, 1int,
{
    broadcast use group_join;

    let ghost all = ast::exprs_of(es@);
    let mut k: usize = 0;
    while k < es.len()
        invariant
            names.well_formed(),
            all == ast::exprs_of(es@),
            k <= all.len(),
            all.len() == es@.len(),
            join(old(names)@, exprs_uses(all, 0)) == join(names@, exprs_uses(all, k as int)),
        decreases all.len() - k,
    {
        broadcast use group_join;

        walk_expr(&es[k], names);
        k += 1;
    }
}

/// Walk named expressions.
fn walk_fields(fs: &Vec<(&str, ExpressionNode)>, names: &mut Names)
    requires
        old(names).well_formed(),
    ensures
        final(names).well_formed(),
        final(names)@ == join(old(names)@, fields_uses(ast::fields_of(fs@), 0)),
    decreases fs, 1int,
{
    broadcast use group_join;

    let ghost all = ast::fields_of(fs@);
    let mut k: usize = 0;
    while k < fs.len()
        invariant
            names.well_formed(),
            all == ast::fields_of(fs@),
            k <= all.len(),
            all.len() == fs@.len(),
            join(old(names)@, fields_uses(all, 0)) == join(names@, fields_uses(all, k as int)),
        decreases all.len() - k,
    {
        broadcast use group_join;

        walk_expr(&fs[k].1, names);
        k += 1;
    }
}

/// Walk the arms of a match.
fn walk_arms(arms: &Vec<(MatchPattern, ExpressionNode)>, names: &mut Names)
    requires
        old(names).well_formed(),
    ensures
        final(names).well_formed(),
        final(names)@ == join(old(names)@, arms_uses(ast::arms_of(arms@), 0)),
    decreases arms, 1int,
{
    broadcast use group_join;

    let ghost all = ast::arms_of(arms@);
    let mut k: usize = 0;
    while k < arms.len()
        invariant
            names.well_formed(),
            all == ast::arms_of(arms@),
            k <= all.len(),
            all.len() == arms@.len(),
            join(old(names)@, arms_uses(all, 0)) == join(names@, arms_uses(all, k as int)),
        decreases all.len() - k,
    {
        broadcast use group_join;

        declare_pattern(&arms[k].0, names);
        walk_expr(&arms[k].1, names);
        k += 1;
    }
}

/// Walk an expression.
fn walk_expr(expr: &ExpressionNode, names: &mut Names)
    requires
        old(names).well_formed(),
    ensures
        final(names).well_formed(),
        final(names)@ == join(old(names)@, expr_uses(ast::expr_of(*expr))),
    decreases expr, 0int,
{
    broadcast use group_join;

    match &expr.expression {
        Expression::Identifier(name) => names.add_use(name.as_str()),
        Expression::Infix(l, _, r) => {
            walk_expr(l, names);
            walk_expr(r, names);
        },
        Expression::ArrayAccess(l, r) => {
            walk_expr(l, names);
            walk_expr(r, names);
        },
        Expression::FunctionCall { function, args } => {
            walk_expr(function, names);
            walk_exprs(args, names);
        },
        Expression::Not(e) => walk_expr(e, names),
        Expression::BitNot(e) => walk_expr(e, names),
        Expression::Negate(e) => walk_expr(e, names),
        Expression::Pointer(e) => walk_expr(e, names),
        Expression::Deref(e) => walk_expr(e, names),
        Expression::Cast(e, _) => walk_expr(e, names),
        Expression::Alloc(e) => walk_expr(e, names),
        Expression::Try(e) => walk_expr(e, names),
        Expression::NewCell(e) => walk_expr(e, names),
        Expression::If(c, a, b) => {
            walk_expr(c, names);
            walk_expr(a, names);
            if let Some(b) = b {
                walk_expr(b, names);
            }
        },
        Expression::MakeClosure(_, captures) => walk_exprs(captures, names),
        Expression::CallClosure(callee, args) => {
            walk_expr(callee, names);
            walk_exprs(args, names);
        },
        Expression::Array(items) => walk_exprs(items, names),
        Expression::Tuple(items) => walk_exprs(items, names),
        Expression::Interpolation(items) => walk_exprs(items, names),
        Expression::StructInitialisation(_, fields) => walk_fields(fields, names),
        Expression::StructAccess(object, _) => walk_expr(object, names),
        Expression::Match(scrutinee, arms) => {
            walk_expr(scrutinee, names);
            walk_arms(arms, names);
        },
        Expression::Block(stmts, last) => {
            walk_body(stmts, names);
            if let Some(l) = last {
                walk_expr(l, names);
            }
        },
        Expression::Closure(params, _, body) => {
            let mut inner = Names::new();
            let param_list = names_of_params(params);
            inner.declare_all(param_list.as_slice());
            walk_body(body, &mut inner);
            names.add_closure(&inner);
        },
        _ => {},
    }
}

/// The names of the parameters of a closure.
fn names_of_params(params: &Vec<(Option<AzulaType>, String)>) -> (r: Vec<String>)
    ensures
        ast::names_of(r@) == param_names(ast::params_of(params@)),
{
    let mut r: Vec<String> = Vec::new();
    let mut i: usize = 0;
    while i < params.len()
        invariant
            i <= params@.len(),
            r@.len() == i,
            forall|j: int| 0 <= j < i ==> (#[trigger] r@[j])@ == params@[j].1@,
        decreases params@.len() - i,
    {
        r.push(params[i].1.clone());
        i += 1;
    }
    assert(ast::names_of(r@) =~= param_names(ast::params_of(params@)));
    r
}

/// The names of the parameters of a function.
fn names_of_args(args: &Vec<TypedIdentifier>) -> (r: Vec<String>)
    ensures
        ast::names_of(r@) == arg_names(ast::typed_of(args@)),
{
    let mut r: Vec<String> = Vec::new();
    let mut i: usize = 0;
    while i < args.len()
        invariant
            i <= args@.len(),
            r@.len() == i,
            forall|j: int| 0 <= j < i ==> (#[trigger] r@[j])@ == args@[j].1@,
        decreases args@.len() - i,
    {
        r.push(args[i].1.to_owned());
        i += 1;
    }
    assert(ast::names_of(r@) =~= arg_names(ast::typed_of(args@)));
    r
}

/// Walk the statements of a slice.
fn walk_slice(body: &[Statement], names: &mut Names)
    requires
        old(names).well_formed(),
    ensures
        final(names).well_formed(),
        final(names)@ == join(old(names)@, stmts_uses(ast::stmts_of(body@), 0)),
{
    broadcast use group_join;

    let ghost all = ast::stmts_of(body@);
    let mut k: usize = 0;
    while k < body.len()
        invariant
            names.well_formed(),
            all == ast::stmts_of(body@),
            k <= all.len(),
            all.len() == body@.len(),
            join(old(names)@, stmts_uses(all, 0)) == join(names@, stmts_uses(all, k as int)),
        decreases all.len() - k,
    {
        broadcast use group_join;

        walk_stmt(&body[k], names);
        k += 1;
    }
}

/// Names that `body` (of a closure with `params`) uses without declaring, in order.
pub fn closure_free_names(params: &[String], body: &[Statement]) -> (r: Vec<String>)
    ensures
        names::is_sorted(ast::names_of(r@)),
        ast::names_of(r@).to_set() == closure_uses(
            body_uses(ast::names_of(params@), ast::stmts_of(body@)),
        ).used,
{
    broadcast use group_join;

    let mut inner = Names::new();
    inner.declare_all(params);
    walk_slice(body, &mut inner);
    let mut free = NameSet::new();
    free.extend_without(&inner.used, &inner.declared);
    proof {
        free.lemma_list();
        assert(free@ =~= inner@.used.difference(inner@.declared));
    }
    free.into_names()
}

/// Names used from outside by the closures in `body`: variables with these names may
/// be captured.
pub fn captured_names(body: &[Statement]) -> (r: NameSet)
    ensures
        r.well_formed(),
        r@ == stmts_uses(ast::stmts_of(body@), 0).free,
{
    broadcast use group_join;

    let mut names = Names::new();
    walk_slice(body, &mut names);
    names.closure_free
}

/// What a closure uses from its surroundings is neither one of its parameters nor
/// declared in its body.
pub proof fn lemma_free_names_are_not_declared(params: Seq<Seq<char>>, body: Seq<Stmt>, name: Seq<char>)
    requires
        closure_uses(body_uses(params, body)).used.contains(name),
    ensures
        !params.contains(name),
        !stmts_uses(body, 0).declared.contains(name),
        stmts_uses(body, 0).used.contains(name),
{
    if params.contains(name) {
        assert(params.to_set().contains(name));
    }
}

// ---------------------------------------------------------------------------
// What is captured

/// A closure: the names of its parameters, and its body.
pub struct Inner {
    pub params: Seq<Seq<char>>,
    pub body: Seq<Stmt>,
}

/// The names that a closure uses from its surroundings.
pub open spec fn free_names(c: Inner) -> Set<Seq<char>> {
    closure_uses(body_uses(c.params, c.body)).used
}

/// The closures in a statement, at every depth.
pub open spec fn stmt_closures(s: Stmt) -> Set<Inner>
    decreases s, 0int,
{
    match s {
        Stmt::Root(body) => stmts_closures(body, 0),
        Stmt::Block(body) => stmts_closures(body, 0),
        Stmt::Group(body) => stmts_closures(body, 0),
        Stmt::Function(_, _, _, body, _) => stmt_closures(*body),
        Stmt::Return(v, _) => match v {
            Some(v) => expr_closures(v),
            None => Set::empty(),
        },
        Stmt::Assign(_, _, _, v, _) => expr_closures(v),
        Stmt::ExpressionStatement(e, _) => expr_closures(e),
        Stmt::If(c, body, other, _) => expr_closures(c).union(stmts_closures(body, 0)).union(
            match other {
                Some(o) => stmt_closures(*o),
                None => Set::empty(),
            },
        ),
        Stmt::Reassign(t, v, _) => expr_closures(t).union(expr_closures(v)),
        Stmt::CompoundAssign(t, _, v, _) => expr_closures(t).union(expr_closures(v)),
        Stmt::While(c, body, _) => expr_closures(c).union(stmts_closures(body, 0)),
        Stmt::For(c, body, _) => (match c {
            Some(c) => expr_closures(c),
            None => Set::empty(),
        }).union(stmts_closures(body, 0)),
        Stmt::ForIn(_, it, end, _, body, _) => expr_closures(it).union(
            match end {
                Some(e) => expr_closures(e),
                None => Set::empty(),
            },
        ).union(stmts_closures(body, 0)),
        Stmt::Destructure(_, _, v, _) => expr_closures(v),
        _ => Set::empty(),
    }
}

/// The closures in the statements from position `k` on, at every depth.
pub open spec fn stmts_closures(ss: Seq<Stmt>, k: int) -> Set<Inner>
    decreases ss, ss.len() - k,
{
    if k < 0 || k >= ss.len() {
        Set::empty()
    } else {
        stmt_closures(ss[k]).union(stmts_closures(ss, k + 1))
    }
}

/// The closures in an expression, at every depth.
pub open spec fn expr_closures(e: Expr) -> Set<Inner>
    decreases e, 0int,
{
    match e.kind {
        ExprKind::Infix(l, _, r) => expr_closures(*l).union(expr_closures(*r)),
        ExprKind::ArrayAccess(l, r) => expr_closures(*l).union(expr_closures(*r)),
        ExprKind::FunctionCall(f, args) => expr_closures(*f).union(exprs_closures(args, 0)),
        ExprKind::Not(e) => expr_closures(*e),
        ExprKind::BitNot(e) => expr_closures(*e),
        ExprKind::Negate(e) => expr_closures(*e),
        ExprKind::Pointer(e) => expr_closures(*e),
        ExprKind::Deref(e) => expr_closures(*e),
        ExprKind::Cast(e, _) => expr_closures(*e),
        ExprKind::Alloc(e) => expr_closures(*e),
        ExprKind::Try(e) => expr_closures(*e),
        ExprKind::NewCell(e) => expr_closures(*e),
        ExprKind::If(c, a, b) => expr_closures(*c).union(expr_closures(*a)).union(
            match b {
                Some(b) => expr_closures(*b),
                None => Set::empty(),
            },
        ),
        ExprKind::MakeClosure(_, es) => exprs_closures(es, 0),
        ExprKind::CallClosure(f, args) => expr_closures(*f).union(exprs_closures(args, 0)),
        ExprKind::Array(es) => exprs_closures(es, 0),
        ExprKind::Tuple(es) => exprs_closures(es, 0),
        ExprKind::Interpolation(es) => exprs_closures(es, 0),
        ExprKind::StructInitialisation(_, fs) => fields_closures(fs, 0),
        ExprKind::StructAccess(object, _) => expr_closures(*object),
        ExprKind::Match(e, arms) => expr_closures(*e).union(arms_closures(arms, 0)),
        ExprKind::Block(body, last) => stmts_closures(body, 0).union(
            match last {
                Some(l) => expr_closures(*l),
                None => Set::empty(),
            },
        ),
        ExprKind::Closure(params, _, body) => stmts_closures(body, 0).insert(
            Inner { params: param_names(params), body },
        ),
        _ => Set::empty(),
    }
}

/// The closures in the expressions from position `k` on, at every depth.
pub open spec fn exprs_closures(es: Seq<Expr>, k: int) -> Set<Inner>
    decreases es, es.len() - k,
{
    if k < 0 || k >= es.len() {
        Set::empty()
    } else {
        expr_closures(es[k]).union(exprs_closures(es, k + 1))
    }
}

/// The closures in the named expressions from position `k` on, at every depth.
pub open spec fn fields_closures(fs: Seq<(Seq<char>, Expr)>, k: int) -> Set<Inner>
    decreases fs, fs.len() - k,
{
    if k < 0 || k >= fs.len() {
        Set::empty()
    } else {
        expr_closures(fs[k].1).union(fields_closures(fs, k + 1))
    }
}

/// The closures in the arms from position `k` on, at every depth.
pub open spec fn arms_closures(arms: Seq<(Pat, Expr)>, k: int) -> Set<Inner>
    decreases arms, arms.len() - k,
{
    if k < 0 || k >= arms.len() {
        Set::empty()
    } else {
        pat_closures(arms[k].0).union(expr_closures(arms[k].1)).union(arms_closures(arms, k + 1))
    }
}

/// The closures in the guards of a pattern, at every depth.
pub open spec fn pat_closures(p: Pat) -> Set<Inner>
    decreases p, 0int,
{
    match p {
        Pat::Tuple(items) => pats_closures(items, 0),
        Pat::Guarded(p, guard) => pat_closures(*p).union(expr_closures(*guard)),
        _ => Set::empty(),
    }
}

/// The closures in the guards of the patterns from position `k` on, at every depth.
pub open spec fn pats_closures(ps: Seq<Pat>, k: int) -> Set<Inner>
    decreases ps, ps.len() - k,
{
    if k < 0 || k >= ps.len() {
        Set::empty()
    } else {
        pat_closures(ps[k]).union(pats_closures(ps, k + 1))
    }
}

/// Whether the names that may be captured are those that the closures use from their
/// surroundings, all taken together.
#[verifier::opaque]
pub open spec fn captures(u: Uses, cs: Set<Inner>) -> bool {
    forall|name: Seq<char>| #[trigger]
        u.free.contains(name) <==> exists|c: Inner|
            #![trigger free_names(c)]
            cs.contains(c) && free_names(c).contains(name)
}

/// What holds of two parts holds of both together.
broadcast proof fn lemma_captures_join(u: Uses, v: Uses, a: Set<Inner>, b: Set<Inner>)
    requires
        captures(u, a),
        captures(v, b),
    ensures
        #[trigger] captures(join(u, v), a.union(b)),
{
    reveal(captures);
    assert forall|name: Seq<char>| #[trigger]
        join(u, v).free.contains(name) <==> exists|c: Inner|
            #![trigger free_names(c)]
            a.union(b).contains(c) && free_names(c).contains(name) by {
        if u.free.contains(name) {
            let c = choose|c: Inner|
                #![trigger free_names(c)]
                a.contains(c) && free_names(c).contains(name);
            assert(a.union(b).contains(c) && free_names(c).contains(name));
        }
        if v.free.contains(name) {
            let c = choose|c: Inner|
                #![trigger free_names(c)]
                b.contains(c) && free_names(c).contains(name);
            assert(a.union(b).contains(c) && free_names(c).contains(name));
        }
        if exists|c: Inner|
            #![trigger free_names(c)]
            a.union(b).contains(c) && free_names(c).contains(name) {
            let c = choose|c: Inner|
                #![trigger free_names(c)]
                a.union(b).contains(c) && free_names(c).contains(name);
            if a.contains(c) {
                assert(u.free.contains(name));
            } else {
                assert(v.free.contains(name));
            }
        }
    }
}

/// Nothing is captured where there is no closure.
broadcast proof fn lemma_captures_none(u: Uses)
    requires
        u.free == Set::<Seq<char>>::empty(),
    ensures
        #[trigger] captures(u, Set::empty()),
{
    reveal(captures);
}

/// Declarations capture nothing.
broadcast proof fn lemma_captures_declared(names: Set<Seq<char>>, u: Uses, a: Set<Inner>)
    requires
        captures(u, a),
    ensures
        #[trigger] captures(join(declaring(names), u), a),
{
    lemma_captures_none(declaring(names));
    lemma_captures_join(declaring(names), u, Set::empty(), a);
    assert(Set::<Inner>::empty().union(a) =~= a);
}

/// A closure captures what it uses from its surroundings, and what is captured in it.
proof fn lemma_captures_closure(params: Seq<Seq<char>>, body: Seq<Stmt>)
    requires
        captures(stmts_uses(body, 0), stmts_closures(body, 0)),
    ensures
        captures(
            closure_uses(join(declaring(params.to_set()), stmts_uses(body, 0))),
            stmts_closures(body, 0).insert(Inner { params, body }),
        ),
{
    reveal(captures);
    let inner = stmts_uses(body, 0);
    let u = closure_uses(join(declaring(params.to_set()), inner));
    let a = stmts_closures(body, 0);
    let this = Inner { params, body };
    let b = a.insert(this);
    assert forall|name: Seq<char>| #[trigger]
        u.free.contains(name) <==> exists|c: Inner|
            #![trigger free_names(c)]
            b.contains(c) && free_names(c).contains(name) by {
        if u.free.contains(name) {
            if free_names(this).contains(name) {
                assert(b.contains(this));
            } else {
                assert(inner.free.contains(name));
                let c = choose|c: Inner|
                    #![trigger free_names(c)]
                    a.contains(c) && free_names(c).contains(name);
                assert(b.contains(c) && free_names(c).contains(name));
            }
        }
        if exists|c: Inner|
            #![trigger free_names(c)]
            b.contains(c) && free_names(c).contains(name) {
            let c = choose|c: Inner|
                #![trigger free_names(c)]
                b.contains(c) && free_names(c).contains(name);
            if c != this {
                assert(a.contains(c) && free_names(c).contains(name));
                assert(inner.free.contains(name));
            }
        }
    }
}

broadcast group group_captures {
    lemma_captures_join,
    lemma_captures_none,
    lemma_captures_declared,
}

/// Captures in a statement.
proof fn lemma_stmt_captures(s: Stmt)
    ensures
        captures(stmt_uses(s), stmt_closures(s)),
    decreases s, 0int,
{
    broadcast use group_captures;

    match s {
        Stmt::Root(body) => lemma_stmts_captures(body, 0),
        Stmt::Block(body) => lemma_stmts_captures(body, 0),
        Stmt::Group(body) => lemma_stmts_captures(body, 0),
        Stmt::Function(_, _, _, body, _) => lemma_stmt_captures(*body),
        Stmt::Return(v, _) => {
            if let Some(v) = v {
                lemma_expr_captures(v);
            }
        },
        Stmt::Assign(_, _, _, v, _) => lemma_expr_captures(v),
        Stmt::ExpressionStatement(e, _) => lemma_expr_captures(e),
        Stmt::If(c, body, other, _) => {
            lemma_expr_captures(c);
            lemma_stmts_captures(body, 0);
            if let Some(o) = other {
                lemma_stmt_captures(*o);
            }
        },
        Stmt::Reassign(t, v, _) => {
            lemma_expr_captures(t);
            lemma_expr_captures(v);
        },
        Stmt::CompoundAssign(t, _, v, _) => {
            lemma_expr_captures(t);
            lemma_expr_captures(v);
        },
        Stmt::While(c, body, _) => {
            lemma_expr_captures(c);
            lemma_stmts_captures(body, 0);
        },
        Stmt::For(c, body, _) => {
            if let Some(c) = c {
                lemma_expr_captures(c);
            }
            lemma_stmts_captures(body, 0);
        },
        Stmt::ForIn(name, it, end, _, body, _) => {
            lemma_expr_captures(it);
            lemma_captures_declared(Set::empty().insert(name), expr_uses(it), expr_closures(it));
            if let Some(e) = end {
                lemma_expr_captures(e);
            }
            lemma_stmts_captures(body, 0);
        },
        Stmt::Destructure(_, _, v, _) => lemma_expr_captures(v),
        _ => {},
    }
}

/// Captures in statements.
proof fn lemma_stmts_captures(ss: Seq<Stmt>, k: int)
    ensures
        captures(stmts_uses(ss, k), stmts_closures(ss, k)),
    decreases ss, ss.len() - k,
{
    broadcast use group_captures;

    if 0 <= k < ss.len() {
        lemma_stmt_captures(ss[k]);
        lemma_stmts_captures(ss, k + 1);
    }
}

/// Captures in an expression.
proof fn lemma_expr_captures(e: Expr)
    ensures
        captures(expr_uses(e), expr_closures(e)),
    decreases e, 0int,
{
    broadcast use group_captures;

    match e.kind {
        ExprKind::Infix(l, _, r) => {
            lemma_expr_captures(*l);
            lemma_expr_captures(*r);
        },
        ExprKind::ArrayAccess(l, r) => {
            lemma_expr_captures(*l);
            lemma_expr_captures(*r);
        },
        ExprKind::FunctionCall(f, args) => {
            lemma_expr_captures(*f);
            lemma_exprs_captures(args, 0);
        },
        ExprKind::Not(e) => lemma_expr_captures(*e),
        ExprKind::BitNot(e) => lemma_expr_captures(*e),
        ExprKind::Negate(e) => lemma_expr_captures(*e),
        ExprKind::Pointer(e) => lemma_expr_captures(*e),
        ExprKind::Deref(e) => lemma_expr_captures(*e),
        ExprKind::Cast(e, _) => lemma_expr_captures(*e),
        ExprKind::Alloc(e) => lemma_expr_captures(*e),
        ExprKind::Try(e) => lemma_expr_captures(*e),
        ExprKind::NewCell(e) => lemma_expr_captures(*e),
        ExprKind::If(c, a, b) => {
            lemma_expr_captures(*c);
            lemma_expr_captures(*a);
            if let Some(b) = b {
                lemma_expr_captures(*b);
            }
        },
        ExprKind::MakeClosure(_, es) => lemma_exprs_captures(es, 0),
        ExprKind::CallClosure(f, args) => {
            lemma_expr_captures(*f);
            lemma_exprs_captures(args, 0);
        },
        ExprKind::Array(es) => lemma_exprs_captures(es, 0),
        ExprKind::Tuple(es) => lemma_exprs_captures(es, 0),
        ExprKind::Interpolation(es) => lemma_exprs_captures(es, 0),
        ExprKind::StructInitialisation(_, fs) => lemma_fields_captures(fs, 0),
        ExprKind::StructAccess(object, _) => lemma_expr_captures(*object),
        ExprKind::Match(e, arms) => {
            lemma_expr_captures(*e);
            lemma_arms_captures(arms, 0);
        },
        ExprKind::Block(body, last) => {
            lemma_stmts_captures(body, 0);
            if let Some(l) = last {
                lemma_expr_captures(*l);
            }
        },
        ExprKind::Closure(params, _, body) => {
            lemma_stmts_captures(body, 0);
            lemma_captures_closure(param_names(params), body);
        },
        _ => {},
    }
}

/// Captures in expressions.
proof fn lemma_exprs_captures(es: Seq<Expr>, k: int)
    ensures
        captures(exprs_uses(es, k), exprs_closures(es, k)),
    decreases es, es.len() - k,
{
    broadcast use group_captures;

    if 0 <= k < es.len() {
        lemma_expr_captures(es[k]);
        lemma_exprs_captures(es, k + 1);
    }
}

/// Captures in named expressions.
proof fn lemma_fields_captures(fs: Seq<(Seq<char>, Expr)>, k: int)
    ensures
        captures(fields_uses(fs, k), fields_closures(fs, k)),
    decreases fs, fs.len() - k,
{
    broadcast use group_captures;

    if 0 <= k < fs.len() {
        lemma_expr_captures(fs[k].1);
        lemma_fields_captures(fs, k + 1);
    }
}

/// Captures in arms.
proof fn lemma_arms_captures(arms: Seq<(Pat, Expr)>, k: int)
    ensures
        captures(arms_uses(arms, k), arms_closures(arms, k)),
    decreases arms, arms.len() - k,
{
    broadcast use group_captures;

    if 0 <= k < arms.len() {
        lemma_pat_captures(arms[k].0);
        lemma_expr_captures(arms[k].1);
        lemma_arms_captures(arms, k + 1);
    }
}

/// Captures in a pattern.
proof fn lemma_pat_captures(p: Pat)
    ensures
        captures(pat_uses(p), pat_closures(p)),
    decreases p, 0int,
{
    broadcast use group_captures;

    match p {
        Pat::Tuple(items) => lemma_pats_captures(items, 0),
        Pat::Guarded(p, guard) => {
            lemma_pat_captures(*p);
            lemma_expr_captures(*guard);
        },
        _ => {},
    }
}

/// Captures in patterns.
proof fn lemma_pats_captures(ps: Seq<Pat>, k: int)
    ensures
        captures(pats_uses(ps, k), pats_closures(ps, k)),
    decreases ps, ps.len() - k,
{
    broadcast use group_captures;

    if 0 <= k < ps.len() {
        lemma_pat_captures(ps[k]);
        lemma_pats_captures(ps, k + 1);
    }
}

/// The names that may be captured in a body are those that its closures, at every
/// depth, use from their surroundings: all of them, and no others.
pub proof fn lemma_captured_names(body: Seq<Stmt>, name: Seq<char>)
    ensures
        stmts_uses(body, 0).free.contains(name) <==> exists|c: Inner|
            #![trigger free_names(c)]
            stmts_closures(body, 0).contains(c) && free_names(c).contains(name),
{
    lemma_stmts_captures(body, 0);
    reveal(captures);
}

} // verus!
