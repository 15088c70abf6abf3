//! What statements mean, and that generated code does what they mean: it goes through the
//! same states, takes the same decisions and returns the same values.

use vstd::prelude::*;
use crate::assoc;
use crate::ast::{Expression, ExpressionNode, Statement, TypedIdentifier};
use crate::ir;
use crate::ir::Value;
use crate::machine;
use crate::machine::{Env, Val, World};
use crate::running;
use crate::running::control;
use crate::running::control::Loop;
use crate::running::effects;
use crate::running::functions;
use crate::running::meaning;
use crate::running::meaning::{apart, evaluated, found, sees, Scopes, Store};
use crate::running::values;
use crate::running::{any, here, part, reaches, Blocks, Conf};
use crate::shape;
use crate::shape::{numbers, parts, programs, scopes, statements};
use crate::translation;
use crate::translation::{Cg, G};
use crate::types;
use crate::types::{AzulaType, Ty};

verus! {

// ---------------------------------------------------------------------------
// Statements

/// How a statement ends.
pub enum Outcome {
    /// The next one follows
    Next,
    /// The innermost loop ends
    Break,
    /// The next turn of the innermost loop follows
    Continue,
    /// The function ends with a value
    Return(Val),
}

/// What a statement does to the variables, and how it ends, if it ends after at most `fuel`
/// turns of each loop.
pub open spec fn done(w: World, s: Store, st: Statement, fuel: nat) -> Option<(Outcome, Store)>
    decreases fuel, st, 1int,
{
    match st {
        Statement::Assign(_, name, annotation, value, _) => {
            let t = match annotation {
                Some(t) => types::ty_of(t),
                None => types::ty_of(value.typed),
            };
            match evaluated(w, s, value) {
                Some(x) => if s.len() > 0 {
                    let top = s.len() - 1;
                    let y = machine::fitted(x, (w.kind)(t));
                    Some((Outcome::Next, s.update(top, s[top].insert(name@, y))))
                } else {
                    None
                },
                None => None,
            }
        },
        Statement::Reassign(target, value, _) => match target.expression {
            Expression::Identifier(name) => match (
                evaluated(w, s, value),
                found(s, name@, s.len() as int),
            ) {
                (Some(x), Some(k)) => {
                    let y = machine::fitted(x, (w.kind)(types::ty_of(target.typed)));
                    Some((Outcome::Next, s.update(k, s[k].insert(name@, y))))
                },
                _ => None,
            },
            _ => None,
        },
        Statement::ExpressionStatement(value, _) => match evaluated(w, s, value) {
            Some(_) => Some((Outcome::Next, s)),
            None => None,
        },
        Statement::If(cond, body, other, _) => match evaluated(w, s, cond) {
            None => None,
            Some(c) => if machine::is_true(c) {
                scope_done(w, s, body@, fuel)
            } else {
                match other {
                    None => Some((Outcome::Next, s)),
                    Some(other) => match done(w, s.push(Map::empty()), *other, fuel) {
                        None => None,
                        Some((o, t)) => Some((o, t.take(s.len() as int))),
                    },
                }
            },
        },
        Statement::While(cond, body, _) => loop_done(w, s, cond, body@, fuel),
        Statement::For(Some(cond), body, _) => loop_done(w, s, cond, body@, fuel),
        Statement::Block(body) => scope_done(w, s, body@, fuel),
        Statement::Group(body) => all_done(w, s, body@, 0, fuel),
        Statement::Break(_) => Some((Outcome::Break, s)),
        Statement::Continue(_) => Some((Outcome::Continue, s)),
        Statement::Return(Some(value), _) => match evaluated(w, s, value) {
            Some(x) => Some((Outcome::Return(x), s)),
            None => None,
        },
        _ => None,
    }
}

/// What the statements from position `k` on do, one after the other.
pub open spec fn all_done(w: World, s: Store, ss: Seq<Statement>, k: int, fuel: nat) -> Option<
    (Outcome, Store),
>
    decreases fuel, ss, ss.len() - k,
{
    if k < 0 || k >= ss.len() {
        Some((Outcome::Next, s))
    } else {
        match done(w, s, ss[k], fuel) {
            Some((Outcome::Next, t)) => all_done(w, t, ss, k + 1, fuel),
            r => r,
        }
    }
}

/// What statements in a scope of their own do. Their variables are gone behind it.
pub open spec fn scope_done(w: World, s: Store, ss: Seq<Statement>, fuel: nat) -> Option<
    (Outcome, Store),
>
    decreases fuel, ss, ss.len() + 1,
{
    match all_done(w, s.push(Map::empty()), ss, 0, fuel) {
        None => None,
        Some((o, t)) => Some((o, t.take(s.len() as int))),
    }
}

/// What a loop does: as long as the condition holds, the body is run again.
pub open spec fn loop_done(
    w: World,
    s: Store,
    cond: ExpressionNode,
    ss: Seq<Statement>,
    fuel: nat,
) -> Option<(Outcome, Store)>
    decreases fuel, ss, ss.len() + 2,
{
    if fuel == 0 {
        None
    } else {
        match evaluated(w, s, cond) {
            None => None,
            Some(c) => if !machine::is_true(c) {
                Some((Outcome::Next, s))
            } else {
                match scope_done(w, s, ss, fuel) {
                    None => None,
                    Some((Outcome::Break, t)) => Some((Outcome::Next, t)),
                    Some((Outcome::Return(x), t)) => Some((Outcome::Return(x), t)),
                    Some((_, t)) => loop_done(w, t, cond, ss, (fuel - 1) as nat),
                }
            },
        }
    }
}

// ---------------------------------------------------------------------------
// States

/// Whether the variables are in memory where generation is, and code can be added there.
pub open spec fn at(w: World, g: G, e: Env, s: Store) -> bool {
    &&& shape::sound(g)
    &&& apart(w)
    &&& scopes::counted(g)
    &&& sees(w, g.cg.scopes, g.f.variables, e.memory, s)
    &&& s.len() > 0
    &&& !ir::current_terminated(g.f)
}

/// Whether the variables of all scopes but the innermost one are in memory.
pub open spec fn around(w: World, g: G, e: Env, s: Store) -> bool {
    let n = g.cg.scopes.len() - 1;
    s.len() == n + 1 && exists|variables: Seq<(Seq<char>, Ty)>| #[trigger]
        sees(w, g.cg.scopes.take(n), variables, e.memory, s.take(n))
}

/// Whether code does what it is to do: it comes to its end, to where `break` or `continue`
/// go, or to the end of the function with the value, and the variables have their values
/// there.
pub open spec fn conducts(
    w: World,
    blocks: Blocks,
    g: G,
    e: Env,
    h: G,
    r: (Outcome, Store),
    e2: Env,
) -> bool {
    match r.0 {
        Outcome::Next => reaches(w, blocks, here(g, e), here(h, e2)) && at(w, h, e2, r.1),
        Outcome::Break => g.cg.loop_ends.len() > 0 && reaches(
            w,
            blocks,
            here(g, e),
            Conf::At(g.cg.loop_ends.last(), 0, e2),
        ) && around(w, g, e2, r.1),
        Outcome::Continue => g.cg.loop_continues.len() > 0 && reaches(
            w,
            blocks,
            here(g, e),
            Conf::At(g.cg.loop_continues.last(), 0, e2),
        ) && around(w, g, e2, r.1),
        Outcome::Return(x) => reaches(w, blocks, here(g, e), Conf::Done(Some(x), e2)),
    }
}

/// A block in which there is nothing yet has not ended.
proof fn lemma_open(g: G)
    requires
        shape::sound(g),
        g.f.blocks.last().1.len() == 0,
    ensures
        !ir::current_terminated(g.f),
{
    reveal(shape::sound);
    reveal(ir::current_terminated);
    let f = g.f;
    let last = f.blocks.len() - 1;
    assert(assoc::first_at(f.blocks, f.current, last)) by {
        assert forall|j: int| 0 <= j < last implies (#[trigger] f.blocks[j]).0 != f.current by {
            assert(f.blocks[j].0 != f.blocks[last].0);
        }
    }
    assoc::lemma_first_at(f.blocks, f.current, last);
}

/// A block whose last instruction does not end it has not ended.
proof fn lemma_still_open(g: G, i: ir::Inst)
    requires
        shape::sound(g),
        shape::sound(translation::emit(g, i)),
        !ir::ends_block(i),
    ensures
        !ir::current_terminated(translation::emit(g, i).f),
{
    reveal(shape::sound);
    reveal(ir::current_terminated);
    reveal(ir::appended);
    let f = g.f;
    let last = f.blocks.len() - 1;
    assert(assoc::first_at(f.blocks, f.current, last)) by {
        assert forall|j: int| 0 <= j < last implies (#[trigger] f.blocks[j]).0 != f.current by {
            assert(f.blocks[j].0 != f.blocks[last].0);
        }
    }
    assoc::lemma_first_at(f.blocks, f.current, last);
    let h = translation::emit(g, i).f;
    assert(assoc::first_at(h.blocks, h.current, last)) by {
        assert forall|j: int| 0 <= j < last implies (#[trigger] h.blocks[j]).0 != h.current by {
            assert(h.blocks[j].0 == f.blocks[j].0);
            assert(f.blocks[j].0 != f.blocks[last].0);
        }
    }
    assoc::lemma_first_at(h.blocks, h.current, last);
}

/// The variables of the scopes around are in memory, where those of all scopes are.
proof fn lemma_settled(
    w: World,
    g: G,
    before: Map<int, Val>,
    s: Store,
    all: Scopes,
    variables: Seq<(Seq<char>, Ty)>,
    memory: Map<int, Val>,
    t: Store,
)
    requires
        sees(w, g.cg.scopes, g.f.variables, before, s),
        sees(w, all, variables, memory, t),
        s.len() <= t.len(),
        forall|k: int| 0 <= k < s.len() ==> #[trigger] g.cg.scopes[k] == all[k],
    ensures
        sees(w, g.cg.scopes, g.f.variables, memory, t.take(s.len() as int)),
{
    reveal(sees);
    let u = t.take(s.len() as int);
    let scopes = g.cg.scopes;
    assert forall|j: int, name: Seq<char>| 0 <= j < u.len() implies (#[trigger] assoc::get(
        scopes[j],
        name,
    ) is Some <==> u[j].contains_key(name)) by {
        assert(assoc::get(all[j], name) is Some <==> t[j].contains_key(name));
    }
    assert forall|j: int, name: Seq<char>| 0 <= j < u.len() implies (#[trigger] assoc::get(
        scopes[j],
        name,
    ) matches Some(v) ==> memory[(w.place)(v)] == u[j][name] && assoc::defined(
        g.f.variables,
        v,
    )) by {
        assert(scopes[j] == all[j]);
        assert(assoc::get(all[j], name) is Some <==> t[j].contains_key(name));
    }
}

/// The variables are in memory behind code that declares none in the scopes around.
proof fn lemma_behind(w: World, g: G, h: G, memory: Map<int, Val>, s: Store)
    requires
        sees(w, g.cg.scopes, g.f.variables, memory, s),
        shape::leads(g, h, any()),
        h.cg.scopes == g.cg.scopes,
    ensures
        sees(w, h.cg.scopes, h.f.variables, memory, s),
{
    assert(s.take(s.len() as int) =~= s);
    assert(g.cg.scopes.len() == s.len()) by {
        reveal(sees);
    }
    assert forall|x: Seq<char>| assoc::defined(g.f.variables, x) implies #[trigger] assoc::defined(
        h.f.variables,
        x,
    ) by {
        shape::lemma_kept(g, h, any(), x);
    }
    meaning::lemma_outer(
        w,
        g.cg.scopes,
        g.f.variables,
        memory,
        s,
        h.cg.scopes,
        h.f.variables,
        s.len() as int,
    );
}

/// There are as many scopes as there are maps of values.
proof fn lemma_levels(w: World, scopes: Scopes, variables: Seq<(Seq<char>, Ty)>, memory: Map<int, Val>, s: Store)
    requires
        sees(w, scopes, variables, memory, s),
    ensures
        scopes.len() == s.len(),
{
    reveal(sees);
}

/// The variables of the scopes around are in memory where those of all scopes are.
proof fn lemma_around(w: World, g: G, e: Env, s: Store)
    requires
        sees(w, g.cg.scopes, g.f.variables, e.memory, s),
        s.len() > 0,
    ensures
        around(w, g, e, s),
{
    lemma_levels(w, g.cg.scopes, g.f.variables, e.memory, s);
    let n = s.len() - 1;
    meaning::lemma_outer(
        w,
        g.cg.scopes,
        g.f.variables,
        e.memory,
        s,
        g.cg.scopes.take(n),
        g.f.variables,
        n,
    );
}

/// Whether code in a scope of its own does what it is to do.
pub open spec fn inside(
    w: World,
    blocks: Blocks,
    g: G,
    e: Env,
    h: G,
    r: (Outcome, Store),
    e2: Env,
) -> bool {
    match r.0 {
        Outcome::Next => reaches(w, blocks, here(g, e), here(h, e2)) && !ir::current_terminated(
            h.f,
        ) && sees(w, g.cg.scopes, g.f.variables, e2.memory, r.1),
        Outcome::Break => g.cg.loop_ends.len() > 0 && reaches(
            w,
            blocks,
            here(g, e),
            Conf::At(g.cg.loop_ends.last(), 0, e2),
        ) && sees(w, g.cg.scopes, g.f.variables, e2.memory, r.1),
        Outcome::Continue => g.cg.loop_continues.len() > 0 && reaches(
            w,
            blocks,
            here(g, e),
            Conf::At(g.cg.loop_continues.last(), 0, e2),
        ) && sees(w, g.cg.scopes, g.f.variables, e2.memory, r.1),
        Outcome::Return(x) => reaches(w, blocks, here(g, e), Conf::Done(Some(x), e2)),
    }
}

/// Code in a new scope can be added.
proof fn lemma_enter_at(w: World, g: G, e: Env, s: Store)
    requires
        at(w, g, e, s),
    ensures
        at(w, translation::enter(g), e, s.push(Map::empty())),
        here(g, e) == here(translation::enter(g), e),
        translation::enter(g).cg.loop_ends == g.cg.loop_ends,
        translation::enter(g).cg.loop_continues == g.cg.loop_continues,
        translation::enter(g).cg.scopes == g.cg.scopes.push(Seq::empty()),
{
    meaning::lemma_entered(w, g.cg.scopes, g.f.variables, e.memory, s);
    running::lemma_ready(g);
    shape::lemma_enter(g, any());
    reveal(translation::enter);
}

/// What is left of a scope behind it.
proof fn lemma_left(
    w: World,
    g: G,
    e: Env,
    h: G,
    blocks: Blocks,
    s: Store,
    r: (Outcome, Store),
    e2: Env,
)
    requires
        at(w, g, e, s),
        shape::leads(translation::enter(g), h, any()),
        conducts(w, blocks, translation::enter(g), e, h, r, e2),
        r.1.len() == s.len() + 1,
    ensures
        inside(w, blocks, g, e, h, (r.0, r.1.take(s.len() as int)), e2),
{
    lemma_enter_at(w, g, e, s);
    let start = translation::enter(g);
    let n = s.len() as int;
    lemma_levels(w, g.cg.scopes, g.f.variables, e.memory, s);
    match r.0 {
        Outcome::Next => {
            lemma_levels(w, h.cg.scopes, h.f.variables, e2.memory, r.1);
            assert forall|k: int| 0 <= k < s.len() implies #[trigger] g.cg.scopes[k]
                == h.cg.scopes[k] by {
                reveal(shape::level);
                assert(h.cg.scopes[k] == start.cg.scopes[k]);
            }
            lemma_settled(
                w,
                g,
                e.memory,
                s,
                h.cg.scopes,
                h.f.variables,
                e2.memory,
                r.1,
            );
        },
        Outcome::Return(_) => {},
        _ => {
            let all = start.cg.scopes.take(n);
            let t = r.1.take(n);
            let variables = choose|variables: Seq<(Seq<char>, Ty)>| #[trigger]
                sees(w, all, variables, e2.memory, t);
            assert(sees(w, all, variables, e2.memory, t));
            lemma_settled(w, g, e.memory, s, all, variables, e2.memory, t);
            assert(t.take(n) =~= t);
        },
    }
}

/// Code in a scope of its own, with what comes before and behind it.
proof fn lemma_joined(
    w: World,
    g: G,
    e: Env,
    p: G,
    e1: Env,
    q: G,
    h: G,
    blocks: Blocks,
    s: Store,
    r: (Outcome, Store),
    e2: Env,
)
    requires
        at(w, g, e, s),
        reaches(w, blocks, here(g, e), here(p, e1)),
        inside(w, blocks, p, e1, q, r, e2),
        r.1.len() == s.len(),
        p.cg.scopes == g.cg.scopes,
        p.cg.loop_ends == g.cg.loop_ends,
        p.cg.loop_continues == g.cg.loop_continues,
        r.0 is Next ==> {
            &&& reaches(w, blocks, here(q, e2), here(h, e2))
            &&& shape::sound(h)
            &&& shape::leads(g, h, any())
            &&& h.cg.scopes == g.cg.scopes
            &&& !ir::current_terminated(h.f)
            &&& scopes::counted(h)
        },
    ensures
        conducts(w, blocks, g, e, h, r, e2),
{
    match r.0 {
        Outcome::Next => {
            running::lemma_on(w, blocks, here(p, e1), here(q, e2), here(h, e2));
            running::lemma_on(w, blocks, here(g, e), here(p, e1), here(h, e2));
            lemma_settled(
                w,
                g,
                e.memory,
                s,
                p.cg.scopes,
                p.f.variables,
                e2.memory,
                r.1,
            );
            assert(r.1.take(s.len() as int) =~= r.1);
            lemma_behind(w, g, h, e2.memory, r.1);
        },
        Outcome::Break => {
            running::lemma_on(
                w,
                blocks,
                here(g, e),
                here(p, e1),
                Conf::At(g.cg.loop_ends.last(), 0, e2),
            );
            lemma_settled(w, g, e.memory, s, p.cg.scopes, p.f.variables, e2.memory, r.1);
            assert(r.1.take(s.len() as int) =~= r.1);
            lemma_around(w, g, e2, r.1);
        },
        Outcome::Continue => {
            running::lemma_on(
                w,
                blocks,
                here(g, e),
                here(p, e1),
                Conf::At(g.cg.loop_continues.last(), 0, e2),
            );
            lemma_settled(w, g, e.memory, s, p.cg.scopes, p.f.variables, e2.memory, r.1);
            assert(r.1.take(s.len() as int) =~= r.1);
            lemma_around(w, g, e2, r.1);
        },
        Outcome::Return(x) => {
            running::lemma_on(w, blocks, here(g, e), here(p, e1), Conf::Done(Some(x), e2));
        },
    }
}

/// Code that comes behind other code.
proof fn lemma_prefixed(
    w: World,
    blocks: Blocks,
    g: G,
    e: Env,
    g1: G,
    e1: Env,
    h: G,
    r: (Outcome, Store),
    e2: Env,
)
    requires
        reaches(w, blocks, here(g, e), here(g1, e1)),
        shape::leads(g, g1, any()),
        g.cg.scopes.len() > 0,
        conducts(w, blocks, g1, e1, h, r, e2),
    ensures
        conducts(w, blocks, g, e, h, r, e2),
{
    reveal(shape::level);
    let n = g.cg.scopes.len() - 1;
    assert forall|k: int| 0 <= k < n implies #[trigger] g.cg.scopes[k] == g1.cg.scopes[k] by {}
    match r.0 {
        Outcome::Next => running::lemma_on(w, blocks, here(g, e), here(g1, e1), here(h, e2)),
        Outcome::Break => {
            running::lemma_on(
                w,
                blocks,
                here(g, e),
                here(g1, e1),
                Conf::At(g.cg.loop_ends.last(), 0, e2),
            );
            assert(g.cg.scopes.take(n) =~= g1.cg.scopes.take(n));
        },
        Outcome::Continue => {
            running::lemma_on(
                w,
                blocks,
                here(g, e),
                here(g1, e1),
                Conf::At(g.cg.loop_continues.last(), 0, e2),
            );
            assert(g.cg.scopes.take(n) =~= g1.cg.scopes.take(n));
        },
        Outcome::Return(x) => running::lemma_on(
            w,
            blocks,
            here(g, e),
            here(g1, e1),
            Conf::Done(Some(x), e2),
        ),
    }
}

/// The code of statements, one after the other.
proof fn lemma_all(w: World, g: G, ss: Seq<Statement>, k: int, h: G, blocks: Blocks, e: Env, s: Store, fuel: nat) -> (e2: Env)
    requires
        at(w, g, e, s),
        0 <= k,
        translation::stmts(g, ss, k) == Some(h),
        part(h, blocks),
        numbers::stmts_plain(ss),
        all_done(w, s, ss, k, fuel) is Some,
    ensures
        part(g, blocks),
        conducts(w, blocks, g, e, h, all_done(w, s, ss, k, fuel)->0, e2),
        (all_done(w, s, ss, k, fuel)->0).1.len() == s.len(),
    decreases fuel, ss, ss.len() - k,
{
    reveal(translation::stmts);
    reveal(translation::stmt);
    if k < ss.len() {
        let g1 = translation::stmt(g, ss[k])->0;
        effects::lemma_statement(g, ss[k], g1);
        running::lemma_ready(g1);
        statements::lemma_stmts(g1, ss, k + 1, any());
        running::lemma_part(g1, h, blocks);
        assert(numbers::stmt_plain(ss[k]));
        let e1 = lemma_conduct(w, g, ss[k], g1, blocks, e, s, fuel);
        let (o, t) = done(w, s, ss[k], fuel)->0;
        lemma_levels(w, g.cg.scopes, g.f.variables, e.memory, s);
        if o is Next {
            let e2 = lemma_all(w, g1, ss, k + 1, h, blocks, e1, t, fuel);
            lemma_prefixed(
                w,
                blocks,
                g,
                e,
                g1,
                e1,
                h,
                all_done(w, t, ss, k + 1, fuel)->0,
                e2,
            );
            e2
        } else {
            e1
        }
    } else {
        running::lemma_here(w, blocks, here(g, e));
        e
    }
}

/// The code of statements in a scope of their own.
proof fn lemma_scope(w: World, g: G, ss: Seq<Statement>, h: G, blocks: Blocks, e: Env, s: Store, fuel: nat) -> (e2: Env)
    requires
        at(w, g, e, s),
        translation::scope(g, ss) == Some(h),
        part(h, blocks),
        numbers::stmts_plain(ss),
        scope_done(w, s, ss, fuel) is Some,
    ensures
        part(g, blocks),
        inside(w, blocks, g, e, h, scope_done(w, s, ss, fuel)->0, e2),
        (scope_done(w, s, ss, fuel)->0).1.len() == s.len(),
    decreases fuel, ss, ss.len() + 1,
{
    let places = effects::lemma_scope(g, ss, h, blocks);
    lemma_enter_at(w, g, e, s);
    let start = translation::enter(g);
    let last = translation::stmts(start, ss, 0)->0;
    assert(translation::stmts(start, ss, 0) is Some && h == translation::leave(last)) by {
        reveal(translation::scope);
        reveal(translation::stmts);
    }
    running::lemma_ready(start);
    statements::lemma_stmts(start, ss, 0, any());
    assert(last.f == h.f) by {
        reveal(translation::leave);
    }
    running::lemma_same_code(last, h, blocks);
    let inner = s.push(Map::empty());
    let e2 = lemma_all(w, start, ss, 0, last, blocks, e, inner, fuel);
    lemma_left(w, g, e, last, blocks, s, all_done(w, inner, ss, 0, fuel)->0, e2);
    assert(here(last, e2) == here(h, e2));
    e2
}

/// The code of a loop, from its condition on.
proof fn lemma_loop(w: World, g: G, l: Loop, cond: ExpressionNode, ss: Seq<Statement>, h: G, blocks: Blocks, e: Env, s: Store, fuel: nat) -> (e2: Env)
    requires
        control::is_loop(l, g, h, cond, ss),
        control::loop_in(l, blocks),
        control::loops(w, blocks, l, g, h),
        apart(w),
        scopes::counted(l.test),
        sees(w, l.test.cg.scopes, l.test.f.variables, e.memory, s),
        s.len() > 0,
        numbers::stmts_plain(ss),
        loop_done(w, s, cond, ss, fuel) is Some,
    ensures
        (loop_done(w, s, cond, ss, fuel)->0).1.len() == s.len(),
        match (loop_done(w, s, cond, ss, fuel)->0).0 {
            Outcome::Next => reaches(w, blocks, here(l.test, e), here(h, e2)) && sees(
                w,
                l.test.cg.scopes,
                l.test.f.variables,
                e2.memory,
                (loop_done(w, s, cond, ss, fuel)->0).1,
            ),
            Outcome::Return(x) => reaches(
                w,
                blocks,
                here(l.test, e),
                Conf::Done(Some(x), e2),
            ),
            _ => false,
        },
    decreases fuel, ss, ss.len() + 2,
{
    lemma_open(l.test);
    lemma_found_in(w, l.test, e.memory, s);
    let e1 = lemma_expression(w, l.test, cond, l.tested, l.cond, blocks, e, s);
    let c = evaluated(w, s, cond)->0;
    let from = here(l.test, e);
    if !machine::is_true(c) {
        running::lemma_on(w, blocks, from, here(l.tested, e1), here(h, e1));
        e1
    } else {
        running::lemma_on(w, blocks, from, here(l.tested, e1), here(l.body, e1));
        lemma_open(l.body);
        assert(at(w, l.body, e1, s));
        let e2 = lemma_scope(w, l.body, ss, l.done, blocks, e1, s, fuel);
        let (o, t) = scope_done(w, s, ss, fuel)->0;
        match o {
            Outcome::Break => {
                assert(here(h, e2) == Conf::At(l.body.cg.loop_ends.last(), 0, e2));
                running::lemma_on(w, blocks, from, here(l.body, e1), here(h, e2));
                e2
            },
            Outcome::Return(x) => {
                running::lemma_on(w, blocks, from, here(l.body, e1), Conf::Done(Some(x), e2));
                e2
            },
            _ => {
                if o is Next {
                    running::lemma_on(w, blocks, from, here(l.body, e1), here(l.done, e2));
                    running::lemma_on(w, blocks, from, here(l.done, e2), here(l.test, e2));
                } else {
                    assert(here(l.test, e2) == Conf::At(
                        l.body.cg.loop_continues.last(),
                        0,
                        e2,
                    ));
                    running::lemma_on(w, blocks, from, here(l.body, e1), here(l.test, e2));
                }
                let e3 = lemma_loop(
                    w,
                    g,
                    l,
                    cond,
                    ss,
                    h,
                    blocks,
                    e2,
                    t,
                    (fuel - 1) as nat,
                );
                let r = loop_done(w, t, cond, ss, (fuel - 1) as nat)->0;
                match r.0 {
                    Outcome::Next => running::lemma_on(
                        w,
                        blocks,
                        from,
                        here(l.test, e2),
                        here(h, e3),
                    ),
                    Outcome::Return(x) => running::lemma_on(
                        w,
                        blocks,
                        from,
                        here(l.test, e2),
                        Conf::Done(Some(x), e3),
                    ),
                    _ => {},
                }
                e3
            },
        }
    }
}

/// A loop, from before it to behind it.
proof fn lemma_whole_loop(w: World, g: G, l: Loop, cond: ExpressionNode, ss: Seq<Statement>, h: G, blocks: Blocks, e: Env, s: Store, fuel: nat) -> (e2: Env)
    requires
        at(w, g, e, s),
        control::is_loop(l, g, h, cond, ss),
        control::loop_in(l, blocks),
        control::loops(w, blocks, l, g, h),
        shape::leads(g, h, any()),
        shape::sound(h),
        scopes::counted(h),
        numbers::stmts_plain(ss),
        loop_done(w, s, cond, ss, fuel) is Some,
    ensures
        conducts(w, blocks, g, e, h, loop_done(w, s, cond, ss, fuel)->0, e2),
        (loop_done(w, s, cond, ss, fuel)->0).1.len() == s.len(),
    decreases fuel, ss, ss.len() + 3,
{
    assert(scopes::counted(l.test));
    assert(reaches(w, blocks, here(g, e), here(l.test, e)));
    let e2 = lemma_loop(w, g, l, cond, ss, h, blocks, e, s, fuel);
    let r = loop_done(w, s, cond, ss, fuel)->0;
    lemma_open(h);
    match r.0 {
        Outcome::Next => {
            running::lemma_on(w, blocks, here(g, e), here(l.test, e), here(h, e2));
            assert(h.cg.scopes == g.cg.scopes) by {
                lemma_loop_scopes(w, l, cond, ss, blocks, e, s);
            }
            lemma_behind(w, g, h, e2.memory, r.1);
        },
        Outcome::Return(x) => {
            running::lemma_on(w, blocks, here(g, e), here(l.test, e), Conf::Done(Some(x), e2));
        },
        _ => {},
    }
    e2
}

/// The scopes are the same throughout a loop.
proof fn lemma_loop_scopes(w: World, l: Loop, cond: ExpressionNode, ss: Seq<Statement>, blocks: Blocks, e: Env, s: Store)
    requires
        control::loop_in(l, blocks),
        translation::expr(l.test, cond, true) == Some((l.tested, l.cond)),
        translation::scope(l.body, ss) == Some(l.done),
        l.body.cg.scopes == l.tested.cg.scopes,
        sees(w, l.test.cg.scopes, l.test.f.variables, e.memory, s),
        evaluated(w, s, cond) is Some,
    ensures
        l.done.cg.scopes == l.test.cg.scopes,
{
    meaning::lemma_evaluated(w, l.test, cond, l.tested, l.cond, blocks, e, s);
    let places = effects::lemma_scope(l.body, ss, l.done, blocks);
}

// ---------------------------------------------------------------------------
// The code of statements

/// The code of an expression, behind which generation goes on.
proof fn lemma_expression(w: World, g: G, node: ExpressionNode, h: G, v: Value, blocks: Blocks, e: Env, s: Store) -> (e2: Env)
    requires
        at(w, g, e, s),
        translation::expr(g, node, true) == Some((h, v)),
        part(h, blocks),
        evaluated(w, s, node) is Some,
    ensures
        part(g, blocks),
        reaches(w, blocks, here(g, e), here(h, e2)),
        machine::value_of(w, e2, v) == evaluated(w, s, node)->0,
        at(w, h, e2, s),
        h.cg == g.cg,
        h.f.variables == g.f.variables,
{
    meaning::lemma_evaluated(w, g, node, h, v, blocks, e, s);
    values::lemma_value(g, node, true, h, v);
    lemma_found_in(w, g, e.memory, s);
    lemma_expression_open(w, g, node, h, v, s);
    let e2 = meaning::lemma_gives(w, blocks, g, e, h, v, evaluated(w, s, node)->0);
    assert(scopes::counted(h));
    e2
}

/// An instruction with a register does not end a block.
proof fn lemma_def_open(g: G, i: ir::Inst, h: G, v: Value)
    requires
        shape::sound(g),
        shape::sound(h),
        translation::def(g, i) == Some((h, v)),
        !ir::ends_block(i),
    ensures
        !ir::current_terminated(h.f),
{
    reveal(shape::sound);
    reveal(ir::current_terminated);
    reveal(ir::defining);
    reveal(ir::appended);
    let f = g.f;
    let last = f.blocks.len() - 1;
    assert(assoc::first_at(f.blocks, f.current, last)) by {
        assert forall|j: int| 0 <= j < last implies (#[trigger] f.blocks[j]).0 != f.current by {
            assert(f.blocks[j].0 != f.blocks[last].0);
        }
    }
    assoc::lemma_first_at(f.blocks, f.current, last);
    assert(assoc::first_at(h.f.blocks, h.f.current, last)) by {
        assert forall|j: int| 0 <= j < last implies (#[trigger] h.f.blocks[j]).0
            != h.f.current by {
            assert(h.f.blocks[j].0 == f.blocks[j].0);
            assert(f.blocks[j].0 != f.blocks[last].0);
        }
    }
    assoc::lemma_first_at(h.f.blocks, h.f.current, last);
}

/// The code of an expression does not end the block.
proof fn lemma_expression_open(w: World, g: G, node: ExpressionNode, h: G, v: Value, s: Store)
    requires
        shape::sound(g),
        shape::sound(h),
        translation::expr(g, node, true) == Some((h, v)),
        evaluated(w, s, node) is Some,
        found_in(g, s),
    ensures
        !ir::current_terminated(h.f),
{
    reveal(translation::expr);
    reveal(translation::inner);
    let r = g.f.registers;
    match node.expression {
        Expression::Integer(n) => lemma_def_open(g, ir::Inst::ConstInt(n, r), h, v),
        Expression::Boolean(b) => if b {
            lemma_def_open(g, ir::Inst::ConstTrue(r), h, v);
        } else {
            lemma_def_open(g, ir::Inst::ConstFalse(r), h, v);
        },
        Expression::Identifier(name) => {
            reveal(translation::name_use);
            reveal(translation::read_name);
            let unique = translation::lookup(g, name@)->0;
            lemma_def_open(
                g,
                ir::Inst::Load(unique, r, types::ty_of(node.typed)),
                h,
                v,
            );
        },
        Expression::Infix(left, op, right) => {
            reveal(translation::infix);
            let (g1, a) = translation::expr(g, parts::node(left), true)->0;
            values::lemma_value(g, parts::node(left), true, g1, a);
            let (g2, b) = translation::expr(g1, parts::node(right), true)->0;
            values::lemma_value(g1, parts::node(right), true, g2, b);
            let i = translation::infix_inst(op, a, b, g2.f.registers)->0;
            assert(!ir::ends_block(i)) by {
                reveal(translation::infix_inst);
            }
            lemma_def_open(g2, i, h, v);
        },
        Expression::Not(operand) => {
            reveal(translation::unary);
            let (g1, a) = translation::expr(g, parts::node(operand), true)->0;
            values::lemma_value(g, parts::node(operand), true, g1, a);
            lemma_def_open(g1, ir::Inst::Not(a, g1.f.registers), h, v);
        },
        Expression::BitNot(operand) => {
            reveal(translation::unary);
            let (g1, a) = translation::expr(g, parts::node(operand), true)->0;
            values::lemma_value(g, parts::node(operand), true, g1, a);
            lemma_def_open(g1, ir::Inst::Not(a, g1.f.registers), h, v);
        },
        Expression::Cast(operand, t) => {
            reveal(translation::unary);
            let (g1, a) = translation::expr(g, parts::node(operand), true)->0;
            values::lemma_value(g, parts::node(operand), true, g1, a);
            lemma_def_open(g1, ir::Inst::Cast(a, types::ty_of(t), g1.f.registers), h, v);
        },
        Expression::Negate(operand) => {
            reveal(translation::unary);
            let (g0, zero) = translation::int_const(g, 0)->0;
            running::lemma_ready(g);
            parts::lemma_int(g, g, 0, any());
            let (g1, a) = translation::expr(g0, parts::node(operand), true)->0;
            values::lemma_value(g0, parts::node(operand), true, g1, a);
            lemma_def_open(g1, ir::Inst::Sub(zero, a, g1.f.registers), h, v);
        },
        _ => {},
    }
}

/// Whether the names of variables stand for them.
spec fn found_in(g: G, s: Store) -> bool {
    forall|name: Seq<char>|
        found(s, name, s.len() as int) is Some ==> #[trigger] translation::lookup(
            g,
            name,
        ) is Some
}

/// The names of variables stand for them.
proof fn lemma_found_in(w: World, g: G, memory: Map<int, Val>, s: Store)
    requires
        sees(w, g.cg.scopes, g.f.variables, memory, s),
    ensures
        found_in(g, s),
{
    assert forall|name: Seq<char>|
        found(s, name, s.len() as int) is Some implies #[trigger] translation::lookup(
        g,
        name,
    ) is Some by {
        meaning::lemma_read(w, g, memory, s, name);
    }
}

/// A declaration.
proof fn lemma_assign(w: World, g: G, st: Statement, h: G, blocks: Blocks, e: Env, s: Store, fuel: nat) -> (e2: Env)
    requires
        at(w, g, e, s),
        st is Assign,
        translation::stmt(g, st) == Some(h),
        part(h, blocks),
        numbers::stmt_plain(st),
        done(w, s, st, fuel) is Some,
    ensures
        part(g, blocks),
        conducts(w, blocks, g, e, h, done(w, s, st, fuel)->0, e2),
        (done(w, s, st, fuel)->0).1.len() == s.len(),
{
    match st {
        Statement::Assign(_, name, annotation, value, _) => {
            let t = match annotation {
                Some(t) => types::ty_of(t),
                None => types::ty_of(value.typed),
            };
            let (g1, v, g2, unique) = lemma_assign_code(g, st, h);
            let store = ir::Inst::Store(unique, v, t);
            running::lemma_emitted(w, g2, store, blocks, e);
            running::lemma_same_code(g1, g2, blocks);
            let e1 = lemma_expression(w, g, value, g1, v, blocks, e, s);
            let x = machine::fitted(evaluated(w, s, value)->0, (w.kind)(t));
            let e2 = machine::stored(e1, (w.place)(unique), x);
            running::lemma_emitted(w, g2, store, blocks, e1);
            assert(here(g1, e1) == here(g2, e1));
            running::lemma_on(w, blocks, here(g, e), here(g1, e1), here(h, e2));
            scopes::lemma_declared_is_new(g1, name@, t);
            lemma_assign_sees(w, g1, name@, t, g2, unique, e1.memory, s, x);
            lemma_still_open(g2, store);
            assert(scopes::counted(h));
            e2
        },
        _ => arbitrary(),
    }
}

/// The code of a declaration.
proof fn lemma_assign_code(g: G, st: Statement, h: G) -> (r: (G, Value, G, Seq<char>))
    requires
        shape::sound(g),
        st is Assign,
        translation::stmt(g, st) == Some(h),
    ensures
        st matches Statement::Assign(_, name, annotation, value, _) && {
            let t = match annotation {
                Some(t) => types::ty_of(t),
                None => types::ty_of(value.typed),
            };
            let (g1, v, g2, unique) = r;
            &&& translation::expr(g, value, true) == Some((g1, v))
            &&& translation::declare(g1, name@, t) == Some((g2, unique))
            &&& h == translation::emit(g2, ir::Inst::Store(unique, v, t))
            &&& shape::sound(g1)
            &&& shape::sound(g2)
            &&& shape::sound(h)
            &&& g2.f.blocks == g1.f.blocks
            &&& g2.f.current == g1.f.current
            &&& h.cg == g2.cg
            &&& h.f.variables == g2.f.variables
        },
{
    reveal(translation::stmt);
    reveal(translation::assign);
    reveal(translation::expr);
    effects::lemma_statement(g, st, h);
    match st {
        Statement::Assign(_, name, annotation, value, _) => {
            let t = match annotation {
                Some(t) => types::ty_of(t),
                None => types::ty_of(value.typed),
            };
            assert(translation::assign(g, st) == Some(h));
            let (g1, v) = translation::expr(g, value, true)->0;
            values::lemma_value(g, value, true, g1, v);
            running::lemma_ready(g1);
            shape::lemma_declare(g1, g1, name@, t, any());
            let (g2, unique) = translation::declare(g1, name@, t)->0;
            assert(g2.f.blocks == g1.f.blocks && g2.f.current == g1.f.current) by {
                reveal(translation::declare);
            }
            assert(h.f.variables == g2.f.variables) by {
                reveal(ir::appended);
            }
            (g1, v, g2, unique)
        },
        _ => arbitrary(),
    }
}

/// The variables behind a declaration.
proof fn lemma_assign_sees(w: World, g1: G, name: Seq<char>, t: Ty, g2: G, unique: Seq<char>, memory: Map<int, Val>, s: Store, x: Val)
    requires
        apart(w),
        sees(w, g1.cg.scopes, g1.f.variables, memory, s),
        s.len() > 0,
        translation::declare(g1, name, t) == Some((g2, unique)),
        !assoc::defined(g1.f.variables, unique),
    ensures
        sees(
            w,
            g2.cg.scopes,
            g2.f.variables,
            memory.insert((w.place)(unique), x),
            s.update(s.len() - 1, s[s.len() - 1].insert(name, x)),
        ),
{
    lemma_levels(w, g1.cg.scopes, g1.f.variables, memory, s);
    meaning::lemma_declared(w, g1.cg.scopes, g1.f.variables, memory, s, name, unique, t, x);
    let top = s.len() - 1;
    assert(g2.cg.scopes == g1.cg.scopes.update(
        top,
        assoc::put(g1.cg.scopes[top], name, unique),
    ) && g2.f.variables == assoc::put(g1.f.variables, unique, t)) by {
        reveal(translation::declare);
    }
}

/// An assignment.
proof fn lemma_reassign(w: World, g: G, st: Statement, h: G, blocks: Blocks, e: Env, s: Store, fuel: nat) -> (e2: Env)
    requires
        at(w, g, e, s),
        st is Reassign,
        translation::stmt(g, st) == Some(h),
        part(h, blocks),
        done(w, s, st, fuel) is Some,
    ensures
        part(g, blocks),
        conducts(w, blocks, g, e, h, done(w, s, st, fuel)->0, e2),
        (done(w, s, st, fuel)->0).1.len() == s.len(),
{
    match st {
        Statement::Reassign(target, value, _) => {
            let name = target.expression->Identifier_0@;
            let (g1, v) = effects::lemma_reassign(w, g, st, h, blocks);
            let e1 = lemma_expression(w, g, value, g1, v, blocks, e, s);
            meaning::lemma_read(w, g1, e1.memory, s, name);
            let k = found(s, name, s.len() as int)->0;
            let unique = translation::lookup(g1, name)->0;
            let x = machine::fitted(
                evaluated(w, s, value)->0,
                (w.kind)(types::ty_of(target.typed)),
            );
            let e2 = machine::stored(e1, (w.place)(unique), x);
            meaning::lemma_written(w, g1.cg.scopes, g1.f.variables, e1.memory, s, k, name, x);
            let store = ir::Inst::Store(unique, v, types::ty_of(target.typed));
            assert(h == translation::emit(g1, store)) by {
                reveal(translation::stmt);
                reveal(translation::reassign);
                reveal(translation::store_to);
                reveal(translation::expr);
                assert(translation::reassign(g, st) == Some(h));
                assert(translation::store_to(g1, target, v) == Some(h));
            }
            assert(h.cg == g1.cg && h.f.variables == g1.f.variables) by {
                reveal(ir::appended);
            }
            lemma_still_open(g1, store);
            running::lemma_on(w, blocks, here(g, e), here(g1, e1), here(h, e2));
            e2
        },
        _ => arbitrary(),
    }
}

/// The code of a statement does what the statement means: from the same values of the
/// variables it ends in the same way and leaves the same values.
pub proof fn lemma_conduct(w: World, g: G, st: Statement, h: G, blocks: Blocks, e: Env, s: Store, fuel: nat) -> (e2: Env)
    requires
        at(w, g, e, s),
        translation::stmt(g, st) == Some(h),
        part(h, blocks),
        numbers::stmt_plain(st),
        done(w, s, st, fuel) is Some,
    ensures
        part(g, blocks),
        conducts(w, blocks, g, e, h, done(w, s, st, fuel)->0, e2),
        (done(w, s, st, fuel)->0).1.len() == s.len(),
    decreases fuel, st, 1int,
{
    effects::lemma_statement(g, st, h);
    numbers::lemma_stmt(g, st);
    lemma_levels(w, g.cg.scopes, g.f.variables, e.memory, s);
    let n = s.len() as int;
    match st {
        Statement::Assign(..) => lemma_assign(w, g, st, h, blocks, e, s, fuel),
        Statement::Reassign(..) => lemma_reassign(w, g, st, h, blocks, e, s, fuel),
        Statement::ExpressionStatement(value, _) => {
            reveal(translation::stmt);
            reveal(translation::expr);
            let (g1, v) = translation::expr(g, value, true)->0;
            lemma_expression(w, g, value, g1, v, blocks, e, s)
        },
        Statement::Break(_) => {
            effects::lemma_jumps(w, g, st, h, blocks, e);
            lemma_around(w, g, e, s);
            e
        },
        Statement::Continue(_) => {
            effects::lemma_jumps(w, g, st, h, blocks, e);
            lemma_around(w, g, e, s);
            e
        },
        Statement::Return(Some(value), _) => {
            effects::lemma_return(w, g, st, h, blocks);
            let (g1, v) = translation::expr(g, value, true)->0;
            let e1 = lemma_expression(w, g, value, g1, v, blocks, e, s);
            running::lemma_on(
                w,
                blocks,
                here(g, e),
                here(g1, e1),
                Conf::Done(Some(machine::value_of(w, e1, v)), e1),
            );
            e1
        },
        Statement::Group(body) => {
            reveal(translation::stmt);
            reveal(translation::stmts);
            lemma_all(w, g, body@, 0, h, blocks, e, s, fuel)
        },
        Statement::Block(body) => {
            reveal(translation::stmt);
            reveal(translation::scope);
            let e2 = lemma_scope(w, g, body@, h, blocks, e, s, fuel);
            let places = effects::lemma_scope(g, body@, h, blocks);
            running::lemma_here(w, blocks, here(g, e));
            running::lemma_here(w, blocks, here(h, e2));
            lemma_joined(w, g, e, g, e, h, h, blocks, s, done(w, s, st, fuel)->0, e2);
            e2
        },
        Statement::If(cond, body, other, _) => {
            reveal(translation::stmt);
            assert(translation::if_stmt(g, st) == Some(h));
            let r = control::lemma_if(w, g, st, h, blocks);
            let e1 = lemma_expression(w, g, cond, r.tested, r.cond, blocks, e, s);
            let c = evaluated(w, s, cond)->0;
            assert(here(r.tested, e1) == here(r.tested, e1));
            lemma_open(h);
            lemma_open(r.yes);
            let places = effects::lemma_scope(r.yes, body@, r.yes_done, blocks);
            assert(at(w, r.yes, e1, s));
            if machine::is_true(c) {
                running::lemma_on(w, blocks, here(g, e), here(r.tested, e1), here(r.yes, e1));
                let e2 = lemma_scope(w, r.yes, body@, r.yes_done, blocks, e1, s, fuel);
                assert(here(r.yes_done, e2) == here(r.yes_done, e2));
                lemma_joined(
                    w,
                    g,
                    e,
                    r.yes,
                    e1,
                    r.yes_done,
                    h,
                    blocks,
                    s,
                    done(w, s, st, fuel)->0,
                    e2,
                );
                e2
            } else if other is Some {
                let branch = parts::branch(other->0);
                running::lemma_on(w, blocks, here(g, e), here(r.tested, e1), here(r.no, e1));
                lemma_open(r.no);
                numbers::lemma_scope(r.yes, body@);
                assert(scopes::counted(r.no));
                running::lemma_ready(r.yes);
                statements::lemma_scope(r.yes, body@, any());
                lemma_behind(w, r.yes, r.yes_done, e1.memory, s);
                assert(at(w, r.no, e1, s));
                lemma_enter_at(w, r.no, e1, s);
                let start = translation::enter(r.no);
                let e2 = lemma_conduct(
                    w,
                    start,
                    branch,
                    r.no_done,
                    blocks,
                    e1,
                    s.push(Map::empty()),
                    fuel,
                );
                let inner = done(w, s.push(Map::empty()), branch, fuel)->0;
                effects::lemma_statement(start, branch, r.no_done);
                lemma_left(w, r.no, e1, r.no_done, blocks, s, inner, e2);
                assert(here(r.no_done, e2) == here(r.no_done, e2));
                lemma_joined(
                    w,
                    g,
                    e,
                    r.no,
                    e1,
                    r.no_done,
                    h,
                    blocks,
                    s,
                    done(w, s, st, fuel)->0,
                    e2,
                );
                e2
            } else {
                running::lemma_on(w, blocks, here(g, e), here(r.tested, e1), here(h, e1));
                lemma_behind(w, g, h, e1.memory, s);
                e1
            }
        },
        Statement::While(cond, body, _) => {
            reveal(translation::stmt);
            assert(translation::while_stmt(g, st) == Some(h));
            let l = control::lemma_while(w, g, st, h, blocks);
            lemma_whole_loop(w, g, l, cond, body@, h, blocks, e, s, fuel)
        },
        Statement::For(Some(cond), body, _) => {
            reveal(translation::stmt);
            assert(translation::for_stmt(g, st) == Some(h));
            let l = control::lemma_for(w, g, st, h, blocks);
            lemma_whole_loop(w, g, l, cond, body@, h, blocks, e, s, fuel)
        },
        _ => e,
    }
}

// ---------------------------------------------------------------------------
// Functions

/// A function without arguments whose body returns a value gives that value to its caller:
/// from its entry the generated code comes to its end with it.
pub proof fn lemma_function_returns(
    w: World,
    cg: Cg,
    name: Seq<char>,
    args: Seq<TypedIdentifier>,
    result: AzulaType,
    body: Statement,
    after: Cg,
    e: Env,
    fuel: nat,
    x: Val,
) -> (e2: Env)
    requires
        programs::outside_loops(cg),
        args.len() == 0,
        translation::define(cg, name, args, result, body) == Some(after),
        apart(w),
        numbers::stmts_plain(functions::statements_of(body)),
        all_done(
            w,
            seq![Map::<Seq<char>, Val>::empty()],
            functions::statements_of(body),
            0,
            fuel,
        ) matches Some((o, _)) && o == Outcome::Return(x),
    ensures
        assoc::get(after.module.functions, name) matches Some(f) && reaches(
            w,
            ir::ended(f).blocks,
            Conf::At("entry"@, 0, e),
            Conf::Done(Some(x), e2),
        ),
{
    let ss = functions::statements_of(body);
    let s = seq![Map::<Seq<char>, Val>::empty()];
    programs::lemma_define(cg, name, args, result, body);
    let f = choose|f: ir::Fun| #[trigger]
        programs::well_formed(f) && after.module.functions == assoc::put(
            cg.module.functions,
            name,
            f,
        ) && f.arguments == translation::arguments_of(args) && f.result == types::ty_of(result);
    assoc::lemma_put_get(cg.module.functions, name, f, name);
    functions::lemma_ended(f);
    let blocks = ir::ended(f).blocks;
    let (g, places, e1) = functions::lemma_define(
        w,
        cg,
        name,
        args,
        result,
        body,
        after,
        blocks,
        e,
    );
    let start = translation::blank(translation::arguments_of(args), types::ty_of(result));
    assert(g.f == start) by {
        reveal(translation::define);
        reveal(translation::spill);
    }
    assert(at(w, g, e1, s)) by {
        assert(scopes::counted(g)) by {
            reveal(scopes::numbered_to);
            assert forall|y: Seq<char>| !#[trigger] assoc::defined(g.f.variables, y) by {
                assoc::lemma_absent(g.f.variables, y);
            }
        }
        lemma_open(g);
        reveal(sees);
        assert forall|y: Seq<char>| (#[trigger] assoc::get(g.cg.scopes[0], y)) is None by {
            assoc::lemma_absent(g.cg.scopes[0], y);
        }
    }
    let h = places.last();
    assert(translation::stmts(g, ss, 0) == Some(h)) by {
        reveal(translation::define);
    }
    let e2 = lemma_all(w, g, ss, 0, h, blocks, e1, s, fuel);
    running::lemma_on(w, blocks, Conf::At("entry"@, 0, e), here(g, e1), Conf::Done(Some(x), e2));
    e2
}

} // verus!
