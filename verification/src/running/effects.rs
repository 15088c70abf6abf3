//! What the code of statements does.

use vstd::prelude::*;
use crate::assoc;
use crate::ast::{Expression, Operator, Statement};
use crate::ir;
use crate::ir::{Inst, Value};
use crate::machine;
use crate::machine::{Env, Val, World};
use crate::running;
use crate::running::matches::agree;
use crate::running::values;
use crate::running::{any, here, part, reaches, Blocks, Conf};
use crate::shape;
use crate::shape::{expressions, parts, scopes, statements};
use crate::translation;
use crate::translation::G;
use crate::types;
use crate::types::Ty;

verus! {

// ---------------------------------------------------------------------------
// One after the other

/// The code of a statement leads on.
pub proof fn lemma_statement(g: G, s: Statement, h: G)
    requires
        shape::sound(g),
        translation::stmt(g, s) == Some(h),
    ensures
        shape::sound(h),
        shape::leads(g, h, any()),
{
    running::lemma_ready(g);
    statements::lemma_stmt(g, s, any());
}

/// Whether the code of statements goes from each place to the next.
pub open spec fn in_turn(g: G, ss: Seq<Statement>, places: Seq<G>) -> bool {
    &&& places.len() == ss.len() + 1
    &&& places[0] == g
    &&& forall|k: int|
        0 <= k < ss.len() ==> #[trigger] translation::stmt(places[k], ss[k]) == Some(places[k + 1])
}

/// Statements are run in the order in which they are written.
pub proof fn lemma_in_turn(g: G, ss: Seq<Statement>, k: int, places: Seq<G>, h: G) -> (r: Seq<G>)
    requires
        shape::sound(g),
        0 <= k <= ss.len(),
        places.len() == k + 1,
        places[k] == g,
        forall|j: int|
            0 <= j < k ==> #[trigger] translation::stmt(places[j], ss[j]) == Some(places[j + 1]),
        translation::stmts(g, ss, k) == Some(h),
    ensures
        in_turn(places[0], ss, r),
        r.last() == h,
        shape::sound(h),
        shape::leads(g, h, any()),
    decreases ss.len() - k,
{
    reveal(translation::stmts);
    reveal(translation::stmt);
    running::lemma_ready(g);
    if k < ss.len() {
        let g1 = translation::stmt(g, ss[k])->0;
        lemma_statement(g, ss[k], g1);
        let next = places.push(g1);
        assert forall|j: int| 0 <= j < k + 1 implies #[trigger] translation::stmt(next[j], ss[j])
            == Some(next[j + 1]) by {
            if j < k {
                assert(translation::stmt(places[j], ss[j]) == Some(places[j + 1]));
            }
        }
        let r = lemma_in_turn(g1, ss, k + 1, next, h);
        shape::lemma_then(g, g1, h, any());
        r
    } else {
        places
    }
}

/// The statements of a block are run in a scope of their own, one after the other.
pub proof fn lemma_scope(g: G, ss: Seq<Statement>, h: G, blocks: Blocks) -> (r: Seq<G>)
    requires
        shape::sound(g),
        translation::scope(g, ss) == Some(h),
        part(h, blocks),
    ensures
        in_turn(translation::enter(g), ss, r),
        part(g, blocks),
        part(r.last(), blocks),
        forall|e: Env| #[trigger] here(g, e) == here(translation::enter(g), e),
        forall|e: Env| #[trigger] here(r.last(), e) == here(h, e),
        h.cg.scopes == g.cg.scopes,
        h.cg.loop_ends == g.cg.loop_ends,
        h.cg.loop_continues == g.cg.loop_continues,
{
    reveal(translation::scope);
    reveal(translation::stmts);
    running::lemma_ready(g);
    shape::lemma_enter(g, any());
    let start = translation::enter(g);
    let g1 = translation::stmts(start, ss, 0)->0;
    let r = lemma_in_turn(start, ss, 0, seq![start], g1);
    shape::lemma_leave(g, g, g1, any());
    assert(h.f == g1.f && start.f == g.f) by {
        reveal(translation::enter);
        reveal(translation::leave);
    }
    running::lemma_same_code(g1, h, blocks);
    running::lemma_part(start, g1, blocks);
    assert(h.cg.scopes == g.cg.scopes && h.cg.loop_ends == g.cg.loop_ends && h.cg.loop_continues
        == g.cg.loop_continues) by {
        reveal(translation::enter);
        reveal(translation::leave);
        reveal(shape::level);
        assert(h.cg.scopes =~= g.cg.scopes);
    }
    r
}

// ---------------------------------------------------------------------------
// Variables

/// A declaration stores the value of its expression in a new variable, which its name
/// stands for from then on. The name does not stand for it in the expression.
pub proof fn lemma_assign(w: World, g: G, s: Statement, h: G, blocks: Blocks) -> (r: (G, Value))
    requires
        shape::sound(g),
        s is Assign,
        translation::stmt(g, s) == Some(h),
        part(h, blocks),
    ensures
        s matches Statement::Assign(_, name, annotation, value, _) && {
            let t = match annotation {
                Some(t) => types::ty_of(t),
                None => types::ty_of(value.typed),
            };
            &&& translation::expr(g, value, true) == Some(r)
            &&& part(g, blocks)
            &&& part(r.0, blocks)
            &&& translation::lookup(h, name@) matches Some(unique) && {
                &&& assoc::get(h.f.variables, unique) == Some(t)
                &&& forall|other: Seq<char>|
                    other != name@ ==> #[trigger] translation::lookup(h, other)
                        == translation::lookup(r.0, other)
                &&& scopes::counted(r.0) && !scopes::is_numbered(name@) ==> !assoc::defined(
                    r.0.f.variables,
                    unique,
                )
                &&& forall|e: Env|
                    #![trigger here(r.0, e)]
                    reaches(
                        w,
                        blocks,
                        here(r.0, e),
                        here(
                            h,
                            machine::stored(
                                e,
                                (w.place)(unique),
                                machine::fitted(machine::value_of(w, e, r.1), (w.kind)(t)),
                            ),
                        ),
                    )
            }
        },
{
    reveal(translation::stmt);
    reveal(translation::assign);
    reveal(translation::expr);
    match s {
        Statement::Assign(_, name, annotation, value, _) => {
            let t = match annotation {
                Some(t) => types::ty_of(t),
                None => types::ty_of(value.typed),
            };
            let (g1, v) = translation::expr(g, value, true)->0;
            values::lemma_value(g, value, true, g1, v);
            running::lemma_ready(g1);
            shape::lemma_declare(g1, g1, name@, t, any());
            let (g2, unique) = translation::declare(g1, name@, t)->0;
            scopes::lemma_declared_is_found(g1, name@, t);
            let store = Inst::Store(unique, v, t);
            shape::lemma_emit(g1, g2, store, any());
            assert(g2.f.blocks == g1.f.blocks && g2.f.current == g1.f.current) by {
                reveal(translation::declare);
            }
            running::lemma_emitted(w, g2, store, blocks, arbitrary());
            running::lemma_same_code(g1, g2, blocks);
            running::lemma_part(g, g1, blocks);
            assert(h.cg == g2.cg && h.f.variables == g2.f.variables);
            assert forall|other: Seq<char>| other != name@ implies #[trigger] translation::lookup(
                h,
                other,
            ) == translation::lookup(g1, other) by {
                scopes::lemma_others_stay(g1, name@, t, other);
                reveal(translation::lookup);
            }
            assert(translation::lookup(h, name@) == translation::lookup(g2, name@)) by {
                reveal(translation::lookup);
            }
            if scopes::counted(g1) && !scopes::is_numbered(name@) {
                scopes::lemma_declared_is_new(g1, name@, t);
            }
            assert forall|e: Env| #![trigger here(g1, e)]
                reaches(
                    w,
                    blocks,
                    here(g1, e),
                    here(
                        h,
                        machine::stored(
                            e,
                            (w.place)(unique),
                            machine::fitted(machine::value_of(w, e, v), (w.kind)(t)),
                        ),
                    ),
                ) by {
                running::lemma_emitted(w, g2, store, blocks, e);
                assert(here(g1, e) == here(g2, e));
            }
            (g1, v)
        },
        _ => arbitrary(),
    }
}

/// An assignment to a variable stores the value in the variable that the name stands for.
pub proof fn lemma_reassign(w: World, g: G, s: Statement, h: G, blocks: Blocks) -> (r: (G, Value))
    requires
        shape::sound(g),
        s is Reassign,
        s->Reassign_0.expression is Identifier,
        translation::stmt(g, s) == Some(h),
        part(h, blocks),
    ensures
        s matches Statement::Reassign(target, value, _) && {
            let name = target.expression->Identifier_0@;
            &&& translation::expr(g, value, true) == Some(r)
            &&& part(g, blocks)
            &&& part(r.0, blocks)
            &&& translation::lookup(r.0, name) matches Some(unique) && forall|e: Env|
                #![trigger here(r.0, e)]
                reaches(
                    w,
                    blocks,
                    here(r.0, e),
                    here(
                        h,
                        machine::stored(
                            e,
                            (w.place)(unique),
                            machine::fitted(
                                machine::value_of(w, e, r.1),
                                (w.kind)(types::ty_of(target.typed)),
                            ),
                        ),
                    ),
                )
        },
{
    reveal(translation::stmt);
    reveal(translation::reassign);
    reveal(translation::store_to);
    reveal(translation::expr);
    match s {
        Statement::Reassign(target, value, _) => {
            assert(translation::reassign(g, s) == Some(h));
            let (g1, v) = translation::expr(g, value, true)->0;
            values::lemma_value(g, value, true, g1, v);
            assert(translation::store_to(g1, target, v) == Some(h));
            let unique = translation::lookup(g1, target.expression->Identifier_0@)->0;
            let store = Inst::Store(unique, v, types::ty_of(target.typed));
            running::lemma_emitted(w, g1, store, blocks, arbitrary());
            running::lemma_part(g, g1, blocks);
            assert forall|e: Env| #![trigger here(g1, e)]
                reaches(
                    w,
                    blocks,
                    here(g1, e),
                    here(
                        h,
                        machine::stored(
                            e,
                            (w.place)(unique),
                            machine::fitted(
                                machine::value_of(w, e, v),
                                (w.kind)(types::ty_of(target.typed)),
                            ),
                        ),
                    ),
                ) by {
                running::lemma_emitted(w, g1, store, blocks, e);
            }
            (g1, v)
        },
        _ => arbitrary(),
    }
}

/// An assignment to an element stores the value at the index in the array. The value is
/// evaluated first, then the array, then the index.
pub proof fn lemma_store_element(w: World, g: G, s: Statement, h: G, blocks: Blocks) -> (r: (G, Value, values::Operands))
    requires
        shape::sound(g),
        s is Reassign,
        s->Reassign_0.expression is ArrayAccess,
        translation::stmt(g, s) == Some(h),
        part(h, blocks),
    ensures
        s matches Statement::Reassign(target, value, _) && {
            let array = *target.expression->ArrayAccess_0;
            &&& translation::expr(g, value, true) == Some((r.0, r.1))
            &&& translation::expr(r.0, array, true) == Some((r.2.left, r.2.a))
            &&& translation::expr(r.2.left, *target.expression->ArrayAccess_1, true) == Some(
                (r.2.right, r.2.b),
            )
            &&& part(g, blocks)
            &&& part(r.0, blocks)
            &&& part(r.2.left, blocks)
            &&& part(r.2.right, blocks)
            &&& translation::element(types::ty_of(array.typed)) matches Some(t) && forall|e: Env|
                #![trigger here(r.2.right, e)]
                reaches(
                    w,
                    blocks,
                    here(r.2.right, e),
                    here(
                        h,
                        machine::stored(
                            e,
                            (w.element)(
                                (w.kind)(t),
                                machine::address(machine::value_of(w, e, r.2.a)),
                                machine::number(machine::value_of(w, e, r.2.b)),
                            ),
                            machine::fitted(machine::value_of(w, e, r.1), (w.kind)(t)),
                        ),
                    ),
                )
        },
{
    reveal(translation::stmt);
    reveal(translation::reassign);
    reveal(translation::store_to);
    reveal(translation::expr);
    match s {
        Statement::Reassign(target, value, _) => {
            assert(translation::reassign(g, s) == Some(h));
            let (g1, v) = translation::expr(g, value, true)->0;
            values::lemma_value(g, value, true, g1, v);
            assert(translation::store_to(g1, target, v) == Some(h));
            match target.expression {
                Expression::ArrayAccess(array, index) => {
                    let t = translation::element(types::ty_of(parts::node(array).typed))->0;
                    let (g2, a) = translation::expr(g1, parts::node(array), true)->0;
                    values::lemma_value(g1, parts::node(array), true, g2, a);
                    let (g3, b) = translation::expr(g2, parts::node(index), true)->0;
                    values::lemma_value(g2, parts::node(index), true, g3, b);
                    let store = Inst::StoreElement(a, b, v, t);
                    running::lemma_emitted(w, g3, store, blocks, arbitrary());
                    running::lemma_part(g2, g3, blocks);
                    running::lemma_part(g1, g2, blocks);
                    running::lemma_part(g, g1, blocks);
                    assert forall|e: Env| #![trigger here(g3, e)]
                        reaches(
                            w,
                            blocks,
                            here(g3, e),
                            here(h, machine::performed(w, e, store)),
                        ) by {
                        running::lemma_emitted(w, g3, store, blocks, e);
                    }
                    (g1, v, values::Operands { left: g2, a, right: g3, b })
                },
                _ => arbitrary(),
            }
        },
        _ => arbitrary(),
    }
}

/// An assignment through a pointer stores the value where the pointer leads to.
pub proof fn lemma_store_behind(w: World, g: G, s: Statement, h: G, blocks: Blocks) -> (r: (G, Value, G, Value))
    requires
        shape::sound(g),
        s is Reassign,
        s->Reassign_0.expression is Deref,
        translation::stmt(g, s) == Some(h),
        part(h, blocks),
    ensures
        s matches Statement::Reassign(target, value, _) && {
            let t = (w.kind)(types::ty_of(target.typed));
            &&& translation::expr(g, value, true) == Some((r.0, r.1))
            &&& translation::expr(r.0, *target.expression->Deref_0, true) == Some((r.2, r.3))
            &&& part(g, blocks)
            &&& part(r.0, blocks)
            &&& part(r.2, blocks)
            &&& forall|e: Env|
                #![trigger here(r.2, e)]
                shape::in_use(r.1, r.2.f.registers as nat) ==> exists|e2: Env|
                    #![trigger here(h, e2)]
                    reaches(w, blocks, here(r.2, e), here(h, e2)) && agree(
                        machine::stored(
                            e,
                            (w.element)(t, machine::address(machine::value_of(w, e, r.3)), 0),
                            machine::fitted(machine::value_of(w, e, r.1), t),
                        ),
                        e2,
                        r.2.f.registers as nat,
                    )
        },
{
    reveal(translation::stmt);
    reveal(translation::reassign);
    reveal(translation::store_to);
    reveal(translation::expr);
    match s {
        Statement::Reassign(target, value, _) => {
            assert(translation::reassign(g, s) == Some(h));
            let (g1, v) = translation::expr(g, value, true)->0;
            values::lemma_value(g, value, true, g1, v);
            assert(translation::store_to(g1, target, v) == Some(h));
            match target.expression {
                Expression::Deref(pointer) => {
                    let t = types::ty_of(target.typed);
                    let (g2, p) = translation::expr(g1, parts::node(pointer), true)->0;
                    values::lemma_value(g1, parts::node(pointer), true, g2, p);
                    running::lemma_ready(g2);
                    parts::lemma_int(g2, g2, 0, any());
                    let (g3, zero) = translation::int_const(g2, 0)->0;
                    let store = Inst::StoreElement(p, zero, v, t);
                    let constant = Inst::ConstInt(0, g2.f.registers);
                    running::lemma_emitted(w, g3, store, blocks, arbitrary());
                    running::lemma_defined(w, g2, constant, g3, zero, blocks, arbitrary());
                    running::lemma_part(g1, g2, blocks);
                    running::lemma_part(g, g1, blocks);
                    assert forall|e: Env|
                        #![trigger here(g2, e)]
                        shape::in_use(v, g2.f.registers as nat) implies exists|e2: Env|
                            #![trigger here(h, e2)]
                            reaches(w, blocks, here(g2, e), here(h, e2)) && agree(
                                machine::stored(
                                    e,
                                    (w.element)(
                                        (w.kind)(t),
                                        machine::address(machine::value_of(w, e, p)),
                                        0,
                                    ),
                                    machine::fitted(machine::value_of(w, e, v), (w.kind)(t)),
                                ),
                                e2,
                                g2.f.registers as nat,
                            ) by {
                        let e1 = machine::performed(w, e, constant);
                        let e2 = machine::performed(w, e1, store);
                        running::lemma_defined(w, g2, constant, g3, zero, blocks, e);
                        running::lemma_emitted(w, g3, store, blocks, e1);
                        running::lemma_on(w, blocks, here(g2, e), here(g3, e1), here(h, e2));
                        assert(machine::value_of(w, e1, zero) == Val::Int(64, 0));
                        assert(machine::value_of(w, e1, v) == machine::value_of(w, e, v));
                        assert(machine::value_of(w, e1, p) == machine::value_of(w, e, p));
                        assert(reaches(w, blocks, here(g2, e), here(h, e2)));
                    }
                    (g1, v, g2, p)
                },
                _ => arbitrary(),
            }
        },
        _ => arbitrary(),
    }
}

/// The places in the code of an assignment with an operator.
pub struct Compound {
    /// Behind the address of the target
    pub found: G,
    pub pointer: Value,
    /// Before the value
    pub start: G,
    /// The register with what the target held
    pub before: Value,
    /// Behind the value
    pub done: G,
    pub value: Value,
    pub zero: Value,
}

/// What the target holds is read.
pub open spec fn reads_target(w: World, blocks: Blocks, r: Compound, ty: Ty) -> bool {
    forall|e: Env|
        #![trigger here(r.found, e)]
        values::gives(
            w,
            blocks,
            r.found,
            e,
            r.start,
            r.before,
            machine::read_as(
                w,
                (w.kind)(ty),
                e.memory[(w.element)(
                    (w.kind)(ty),
                    machine::address(machine::value_of(w, e, r.pointer)),
                    0,
                )],
            ),
        ) && values::gives(w, blocks, r.found, e, r.start, r.zero, Val::Int(64, 0))
}

/// What the operator makes of what the target held and of the value is stored in the
/// target.
pub open spec fn writes_target(
    w: World,
    blocks: Blocks,
    r: Compound,
    op: Operator,
    ty: Ty,
    h: G,
) -> bool {
    forall|e: Env|
        #![trigger here(r.done, e)]
        values::applies(
            op,
            machine::value_of(w, e, r.before),
            machine::value_of(w, e, r.value),
        ) && machine::value_of(w, e, r.zero) == Val::Int(64, 0) ==> exists|e2: Env|
            #![trigger here(h, e2)]
            reaches(w, blocks, here(r.done, e), here(h, e2)) && agree(
                machine::stored(
                    e,
                    (w.element)(
                        (w.kind)(ty),
                        machine::address(machine::value_of(w, e, r.pointer)),
                        0,
                    ),
                    machine::fitted(
                        values::operated(
                            w,
                            op,
                            machine::value_of(w, e, r.before),
                            machine::value_of(w, e, r.value),
                        ),
                        (w.kind)(ty),
                    ),
                ),
                e2,
                r.done.f.registers as nat,
            )
}

/// An assignment with an operator reads the target once, applies the operator to what it
/// held and the value, in that order, and stores the result where it was read.
pub proof fn lemma_compound(w: World, g: G, s: Statement, h: G, blocks: Blocks) -> (r: Compound)
    requires
        shape::sound(g),
        s is CompoundAssign,
        translation::stmt(g, s) == Some(h),
        part(h, blocks),
    ensures
        s matches Statement::CompoundAssign(target, op, value, _) && {
            &&& translation::address(g, target) == Some((r.found, r.pointer))
            &&& translation::expr(r.start, value, true) == Some((r.done, r.value))
            &&& part(g, blocks)
            &&& part(r.found, blocks)
            &&& part(r.start, blocks)
            &&& part(r.done, blocks)
            &&& reads_target(w, blocks, r, types::ty_of(target.typed))
            &&& writes_target(w, blocks, r, op, types::ty_of(target.typed), h)
        },
{
    match s {
        Statement::CompoundAssign(target, op, value, _) => {
            let ty = types::ty_of(target.typed);
            let (r, g2, g5, i, x) = lemma_compound_code(w, g, s, h, blocks);
            assert forall|e: Env| #![trigger here(r.found, e)]
                values::gives(
                    w,
                    blocks,
                    r.found,
                    e,
                    r.start,
                    r.before,
                    machine::read_as(
                        w,
                        (w.kind)(ty),
                        e.memory[(w.element)(
                            (w.kind)(ty),
                            machine::address(machine::value_of(w, e, r.pointer)),
                            0,
                        )],
                    ),
                ) && values::gives(w, blocks, r.found, e, r.start, r.zero, Val::Int(64, 0)) by {
                lemma_read_target(w, r, g2, ty, blocks, e);
            }
            assert forall|e: Env|
                #![trigger here(r.done, e)]
                values::applies(
                    op,
                    machine::value_of(w, e, r.before),
                    machine::value_of(w, e, r.value),
                ) && machine::value_of(w, e, r.zero) == Val::Int(64, 0) implies exists|e2: Env|
                    #![trigger here(h, e2)]
                    reaches(w, blocks, here(r.done, e), here(h, e2)) && agree(
                        machine::stored(
                            e,
                            (w.element)(
                                (w.kind)(ty),
                                machine::address(machine::value_of(w, e, r.pointer)),
                                0,
                            ),
                            machine::fitted(
                                values::operated(
                                    w,
                                    op,
                                    machine::value_of(w, e, r.before),
                                    machine::value_of(w, e, r.value),
                                ),
                                (w.kind)(ty),
                            ),
                        ),
                        e2,
                        r.done.f.registers as nat,
                    ) by {
                let e2 = lemma_write_target(w, r, op, ty, i, x, g5, h, blocks, e);
                assert(reaches(w, blocks, here(r.done, e), here(h, e2)));
            }
            assert(reads_target(w, blocks, r, ty));
            assert(writes_target(w, blocks, r, op, ty, h));
            assert(translation::address(g, target) == Some((r.found, r.pointer)));
            assert(translation::expr(r.start, value, true) == Some((r.done, r.value)));
            r
        },
        _ => arbitrary(),
    }
}

/// The code of an assignment with an operator.
proof fn lemma_compound_code(w: World, g: G, s: Statement, h: G, blocks: Blocks) -> (r: (Compound, G, G, Inst, Value))
    requires
        shape::sound(g),
        s is CompoundAssign,
        translation::stmt(g, s) == Some(h),
        part(h, blocks),
    ensures
        s matches Statement::CompoundAssign(target, op, value, _) && {
            let ty = types::ty_of(target.typed);
            let (c, g2, g5, i, x) = r;
            &&& translation::address(g, target) == Some((c.found, c.pointer))
            &&& translation::int_const(c.found, 0) == Some((g2, c.zero))
            &&& translation::def(
                g2,
                Inst::AccessElement(c.pointer, c.zero, g2.f.registers, ty),
            ) == Some((c.start, c.before))
            &&& translation::expr(c.start, value, true) == Some((c.done, c.value))
            &&& translation::infix_inst(op, c.before, c.value, c.done.f.registers) == Some(i)
            &&& translation::def(c.done, i) == Some((g5, x))
            &&& h == translation::emit(g5, Inst::StoreElement(c.pointer, c.zero, x, ty))
            &&& part(g, blocks)
            &&& part(c.found, blocks)
            &&& part(g2, blocks)
            &&& part(c.start, blocks)
            &&& part(c.done, blocks)
            &&& part(g5, blocks)
            &&& part(h, blocks)
            &&& shape::in_use(c.pointer, c.found.f.registers as nat)
            &&& c.found.f.registers < g2.f.registers
            &&& c.found.f.registers < c.done.f.registers
            &&& c.zero == Value::Local(c.found.f.registers)
        },
{
    reveal(translation::stmt);
    reveal(translation::expr);
    reveal(translation::address);
    running::lemma_ready(g);
    match s {
        Statement::CompoundAssign(target, op, value, _) => {
            let ty = types::ty_of(target.typed);
            expressions::lemma_address(g, target, any());
            let (g1, p) = translation::address(g, target)->0;
            running::lemma_ready(g1);
            parts::lemma_int(g1, g1, 0, any());
            let (g2, zero) = translation::int_const(g1, 0)->0;
            let read = Inst::AccessElement(p, zero, g2.f.registers, ty);
            shape::lemma_def(g1, g2, read, any());
            let (g3, before) = translation::def(g2, read)->0;
            let (g4, v) = translation::expr(g3, value, true)->0;
            values::lemma_value(g3, value, true, g4, v);
            let i = translation::infix_inst(op, before, v, g4.f.registers)->0;
            parts::lemma_infix_inst(op, before, v, g4.f.registers);
            assert(!ir::ends_block(i)) by {
                reveal(translation::infix_inst);
            }
            running::lemma_ready(g4);
            shape::lemma_def(g4, g4, i, any());
            let (g5, x) = translation::def(g4, i)->0;
            let some = arbitrary::<Env>();
            running::lemma_emitted(w, g5, Inst::StoreElement(p, zero, x, ty), blocks, some);
            running::lemma_defined(w, g4, i, g5, x, blocks, some);
            running::lemma_part(g3, g4, blocks);
            running::lemma_defined(w, g2, read, g3, before, blocks, some);
            running::lemma_defined(w, g1, Inst::ConstInt(0, g1.f.registers), g2, zero, blocks, some);
            running::lemma_part(g, g1, blocks);
            (
                Compound { found: g1, pointer: p, start: g3, before, done: g4, value: v, zero },
                g2,
                g5,
                i,
                x,
            )
        },
        _ => arbitrary(),
    }
}

/// The target is read.
proof fn lemma_read_target(w: World, r: Compound, g2: G, ty: Ty, blocks: Blocks, e: Env)
    requires
        translation::int_const(r.found, 0) == Some((g2, r.zero)),
        translation::def(
            g2,
            Inst::AccessElement(r.pointer, r.zero, g2.f.registers, ty),
        ) == Some((r.start, r.before)),
        part(r.found, blocks),
        part(g2, blocks),
        part(r.start, blocks),
        shape::in_use(r.pointer, r.found.f.registers as nat),
        r.found.f.registers < g2.f.registers,
        r.zero == Value::Local(r.found.f.registers),
    ensures
        values::gives(
            w,
            blocks,
            r.found,
            e,
            r.start,
            r.before,
            machine::read_as(
                w,
                (w.kind)(ty),
                e.memory[(w.element)(
                    (w.kind)(ty),
                    machine::address(machine::value_of(w, e, r.pointer)),
                    0,
                )],
            ),
        ),
        values::gives(w, blocks, r.found, e, r.start, r.zero, Val::Int(64, 0)),
{
    let constant = Inst::ConstInt(0, r.found.f.registers);
    let read = Inst::AccessElement(r.pointer, r.zero, g2.f.registers, ty);
    let e1 = machine::performed(w, e, constant);
    let e2 = machine::performed(w, e1, read);
    running::lemma_defined(w, r.found, constant, g2, r.zero, blocks, e);
    running::lemma_defined(w, g2, read, r.start, r.before, blocks, e1);
    running::lemma_on(w, blocks, here(r.found, e), here(g2, e1), here(r.start, e2));
    assert(machine::value_of(w, e1, r.pointer) == machine::value_of(w, e, r.pointer));
    assert(machine::value_of(w, e1, r.zero) == Val::Int(64, 0));
    assert(machine::value_of(w, e2, r.zero) == Val::Int(64, 0));
    assert(reaches(w, blocks, here(r.found, e), here(r.start, e2)) && agree(
        e,
        e2,
        r.found.f.registers as nat,
    ));
}

/// The target is written.
proof fn lemma_write_target(
    w: World,
    r: Compound,
    op: Operator,
    ty: Ty,
    i: Inst,
    x: Value,
    g5: G,
    h: G,
    blocks: Blocks,
    e: Env,
) -> (e2: Env)
    requires
        translation::infix_inst(op, r.before, r.value, r.done.f.registers) == Some(i),
        translation::def(r.done, i) == Some((g5, x)),
        h == translation::emit(g5, Inst::StoreElement(r.pointer, r.zero, x, ty)),
        part(r.done, blocks),
        part(g5, blocks),
        part(h, blocks),
        shape::in_use(r.pointer, r.found.f.registers as nat),
        r.found.f.registers < r.done.f.registers,
        r.zero == Value::Local(r.found.f.registers),
        values::applies(op, machine::value_of(w, e, r.before), machine::value_of(w, e, r.value)),
        machine::value_of(w, e, r.zero) == Val::Int(64, 0),
    ensures
        reaches(w, blocks, here(r.done, e), here(h, e2)),
        agree(
            machine::stored(
                e,
                (w.element)(
                    (w.kind)(ty),
                    machine::address(machine::value_of(w, e, r.pointer)),
                    0,
                ),
                machine::fitted(
                    values::operated(
                        w,
                        op,
                        machine::value_of(w, e, r.before),
                        machine::value_of(w, e, r.value),
                    ),
                    (w.kind)(ty),
                ),
            ),
            e2,
            r.done.f.registers as nat,
        ),
{
    let store = Inst::StoreElement(r.pointer, r.zero, x, ty);
    values::lemma_operation(w, e, op, r.before, r.value, r.done.f.registers);
    let e1 = machine::performed(w, e, i);
    let e2 = machine::performed(w, e1, store);
    running::lemma_defined(w, r.done, i, g5, x, blocks, e);
    running::lemma_emitted(w, g5, store, blocks, e1);
    running::lemma_on(w, blocks, here(r.done, e), here(g5, e1), here(h, e2));
    assert(machine::value_of(w, e1, r.pointer) == machine::value_of(w, e, r.pointer));
    assert(machine::value_of(w, e1, r.zero) == Val::Int(64, 0));
    e2
}

// ---------------------------------------------------------------------------
// Jumps

/// A return ends the function with the value of its expression.
pub proof fn lemma_return(w: World, g: G, s: Statement, h: G, blocks: Blocks)
    requires
        shape::sound(g),
        s is Return,
        translation::stmt(g, s) == Some(h),
        part(h, blocks),
    ensures
        part(g, blocks),
        s matches Statement::Return(value, _) && match value {
            None => forall|e: Env|
                #![trigger here(g, e)]
                reaches(w, blocks, here(g, e), Conf::Done(None, e)),
            Some(value) => translation::expr(g, value, true) matches Some((g1, v)) && part(
                g1,
                blocks,
            ) && forall|e: Env|
                #![trigger here(g1, e)]
                reaches(
                    w,
                    blocks,
                    here(g1, e),
                    Conf::Done(Some(machine::value_of(w, e, v)), e),
                ),
        },
{
    reveal(translation::stmt);
    reveal(translation::ret);
    reveal(translation::expr);
    match s {
        Statement::Return(None, _) => {
            running::lemma_emitted(w, g, Inst::Return(None), blocks, arbitrary());
            assert forall|e: Env|
                #![trigger here(g, e)]
                reaches(w, blocks, here(g, e), Conf::Done(None, e)) by {
                running::lemma_emitted(w, g, Inst::Return(None), blocks, e);
            }
        },
        Statement::Return(Some(value), _) => {
            let (g1, v) = translation::expr(g, value, true)->0;
            values::lemma_value(g, value, true, g1, v);
            let i = Inst::Return(Some(v));
            running::lemma_emitted(w, g1, i, blocks, arbitrary());
            running::lemma_part(g, g1, blocks);
            assert forall|e: Env|
                #![trigger here(g1, e)]
                reaches(
                    w,
                    blocks,
                    here(g1, e),
                    Conf::Done(Some(machine::value_of(w, e, v)), e),
                ) by {
                running::lemma_emitted(w, g1, i, blocks, e);
            }
        },
        _ => {},
    }
}

/// A `break` goes behind the innermost loop, and a `continue` to where its next turn
/// starts.
pub proof fn lemma_jumps(w: World, g: G, s: Statement, h: G, blocks: Blocks, e: Env)
    requires
        shape::sound(g),
        s is Break || s is Continue,
        translation::stmt(g, s) == Some(h),
        part(h, blocks),
    ensures
        part(g, blocks),
        s is Break ==> g.cg.loop_ends.len() > 0 && reaches(
            w,
            blocks,
            here(g, e),
            Conf::At(g.cg.loop_ends.last(), 0, e),
        ),
        s is Continue ==> g.cg.loop_continues.len() > 0 && reaches(
            w,
            blocks,
            here(g, e),
            Conf::At(g.cg.loop_continues.last(), 0, e),
        ),
{
    reveal(translation::stmt);
    match s {
        Statement::Break(_) => running::lemma_emitted(
            w,
            g,
            Inst::Jump(g.cg.loop_ends.last()),
            blocks,
            e,
        ),
        Statement::Continue(_) => running::lemma_emitted(
            w,
            g,
            Inst::Jump(g.cg.loop_continues.last()),
            blocks,
            e,
        ),
        _ => {},
    }
}

} // verus!
