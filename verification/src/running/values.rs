//! What the code of expressions gives.

use std::rc::Rc;
use vstd::prelude::*;
use crate::assoc;
use crate::ast::{Expression, ExpressionNode, Operator};
use crate::ir;
use crate::ir::{GlobalValue, Inst, Value};
use crate::labels;
use crate::labels::{Label, Part};
use crate::lowering::{FloatOp, IntOp, Predicate};
use crate::machine;
use crate::machine::{Env, Val, World};
use crate::running;
use crate::running::matches::agree;
use crate::running::{any, here, part, reaches, Blocks};
use crate::shape;
use crate::shape::{expressions, parts};
use crate::translation;
use crate::translation::G;
use crate::types;
use crate::types::Ty;

verus! {

// ---------------------------------------------------------------------------
// Parts

/// The code of an expression leads on.
pub proof fn lemma_value(g: G, e: ExpressionNode, resolve: bool, h: G, v: Value)
    requires
        shape::sound(g),
        translation::expr(g, e, resolve) == Some((h, v)),
    ensures
        shape::sound(h),
        shape::leads(g, h, any()),
        shape::in_use(v, h.f.registers as nat),
        g.f.registers <= h.f.registers,
{
    running::lemma_ready(g);
    expressions::lemma_expr(g, e, resolve, any());
}

/// An expression that is no call goes on behind its code.
proof fn lemma_inner(g: G, e: ExpressionNode, resolve: bool)
    requires
        !(e.expression is FunctionCall),
    ensures
        translation::expr(g, e, resolve) == translation::inner(g, e, resolve),
{
    reveal(translation::expr);
    reveal(translation::inner);
}

/// From behind `g` control comes behind `h`, with `x` as the value of `v`, and nothing
/// else changed that could be read before.
pub open spec fn gives(w: World, blocks: Blocks, g: G, e: Env, h: G, v: Value, x: Val) -> bool {
    exists|e2: Env|
        #![trigger here(h, e2)]
        reaches(w, blocks, here(g, e), here(h, e2)) && agree(e, e2, g.f.registers as nat)
            && machine::value_of(w, e2, v) == x
}

/// One instruction gives a value.
pub proof fn lemma_one(w: World, g: G, i: Inst, h: G, v: Value, blocks: Blocks, e: Env, x: Val)
    requires
        shape::sound(g),
        translation::def(g, i) == Some((h, v)),
        part(h, blocks),
        !ir::ends_block(i),
        machine::performed(w, e, i) == machine::set(e, g.f.registers, x),
    ensures
        part(g, blocks),
        gives(w, blocks, g, e, h, v, x),
{
    running::lemma_defined(w, g, i, h, v, blocks, e);
    let e2 = machine::performed(w, e, i);
    assert(reaches(w, blocks, here(g, e), here(h, e2)) && agree(e, e2, g.f.registers as nat)
        && machine::value_of(w, e2, v) == x);
}

// ---------------------------------------------------------------------------
// Literals and names

/// A literal gives the value that it stands for.
pub proof fn lemma_literal(w: World, g: G, node: ExpressionNode, h: G, v: Value, blocks: Blocks, e: Env)
    requires
        shape::sound(g),
        translation::expr(g, node, true) == Some((h, v)),
        part(h, blocks),
    ensures
        match node.expression {
            Expression::Integer(n) => gives(w, blocks, g, e, h, v, Val::Int(64, n as int)),
            Expression::Float(n) => gives(w, blocks, g, e, h, v, Val::Float(64, n as int)),
            Expression::Boolean(b) => gives(w, blocks, g, e, h, v, machine::truth(b)),
            Expression::Null => gives(w, blocks, g, e, h, v, Val::Pointer(0)),
            Expression::SizeOf(t) => gives(
                w,
                blocks,
                g,
                e,
                h,
                v,
                Val::Int(64, (w.size)((w.kind)(types::ty_of(t)))),
            ),
            Expression::String(s) => {
                &&& here(g, e) == here(h, e)
                &&& v matches Value::Global(n) && n as int == g.cg.module.strings.len() as usize
                &&& h.cg.module.strings == g.cg.module.strings.push(s@)
            },
            _ => true,
        },
{
    reveal(translation::expr);
    reveal(translation::inner);
    let r = g.f.registers;
    match node.expression {
        Expression::Integer(n) => lemma_one(
            w,
            g,
            Inst::ConstInt(n, r),
            h,
            v,
            blocks,
            e,
            Val::Int(64, n as int),
        ),
        Expression::Float(n) => lemma_one(
            w,
            g,
            Inst::ConstFloat(n, r),
            h,
            v,
            blocks,
            e,
            Val::Float(64, n as int),
        ),
        Expression::Boolean(b) => if b {
            lemma_one(w, g, Inst::ConstTrue(r), h, v, blocks, e, machine::truth(b));
        } else {
            lemma_one(w, g, Inst::ConstFalse(r), h, v, blocks, e, machine::truth(b));
        },
        Expression::Null => lemma_one(w, g, Inst::ConstNull(r), h, v, blocks, e, Val::Pointer(0)),
        Expression::SizeOf(t) => lemma_one(
            w,
            g,
            Inst::SizeOf(types::ty_of(t), r),
            h,
            v,
            blocks,
            e,
            Val::Int(64, (w.size)((w.kind)(types::ty_of(t)))),
        ),
        _ => {},
    }
}

/// A name gives what is stored in the variable that it stands for, its address where that
/// is asked for, and else what is stored in the global of that name.
pub proof fn lemma_name(w: World, g: G, node: ExpressionNode, resolve: bool, h: G, v: Value, blocks: Blocks, e: Env)
    requires
        shape::sound(g),
        node.expression is Identifier,
        translation::expr(g, node, resolve) == Some((h, v)),
        part(h, blocks),
    ensures
        ({
            let name = node.expression->Identifier_0@;
            let t = (w.kind)(types::ty_of(node.typed));
            match translation::lookup(g, name) {
                Some(unique) => gives(
                    w,
                    blocks,
                    g,
                    e,
                    h,
                    v,
                    if resolve {
                        machine::read_as(w, t, e.memory[(w.place)(unique)])
                    } else {
                        Val::Pointer((w.place)(unique))
                    },
                ),
                None => match assoc::get(g.cg.module.global_values, name) {
                    Some(GlobalValue::String(n)) => v == Value::Global(n) && h == g,
                    Some(_) => gives(
                        w,
                        blocks,
                        g,
                        e,
                        h,
                        v,
                        machine::read_as(w, t, e.memory[(w.global)(name)]),
                    ),
                    None => name == "nil"@ && gives(w, blocks, g, e, h, v, Val::Pointer(0)),
                },
            }
        }),
{
    reveal(translation::expr);
    reveal(translation::inner);
    reveal(translation::name_use);
    reveal(translation::read_name);
    let name = node.expression->Identifier_0@;
    let ty = types::ty_of(node.typed);
    let t = (w.kind)(ty);
    let r = g.f.registers;
    match translation::lookup(g, name) {
        Some(unique) => if resolve {
            lemma_one(
                w,
                g,
                Inst::Load(unique, r, ty),
                h,
                v,
                blocks,
                e,
                machine::read_as(w, t, e.memory[(w.place)(unique)]),
            );
        } else {
            lemma_one(
                w,
                g,
                Inst::Pointer(unique, r),
                h,
                v,
                blocks,
                e,
                Val::Pointer((w.place)(unique)),
            );
        },
        None => match assoc::get(g.cg.module.global_values, name) {
            Some(GlobalValue::String(n)) => {},
            Some(_) => lemma_one(
                w,
                g,
                Inst::LoadGlobal(name, r, ty),
                h,
                v,
                blocks,
                e,
                machine::read_as(w, t, e.memory[(w.global)(name)]),
            ),
            None => lemma_one(w, g, Inst::ConstNull(r), h, v, blocks, e, Val::Pointer(0)),
        },
    }
}

// ---------------------------------------------------------------------------
// Operators

/// What an operator makes of two values. Integers are taken in the larger one of their
/// widths.
pub open spec fn operated(w: World, op: Operator, a: Val, b: Val) -> Val {
    match (a, b) {
        (Val::Int(m, x), Val::Int(n, y)) => {
            let bits = machine::wider(m, n);
            match op {
                Operator::Add => Val::Int(bits, machine::wrapped(bits, x + y)),
                Operator::Sub => Val::Int(bits, machine::wrapped(bits, x - y)),
                Operator::Mul => Val::Int(bits, machine::wrapped(bits, x * y)),
                Operator::Div => Val::Int(bits, machine::wrapped(bits, machine::quotient(x, y))),
                Operator::Mod => Val::Int(bits, machine::wrapped(bits, machine::remainder(x, y))),
                Operator::Eq => machine::truth(x == y),
                Operator::Neq => machine::truth(x != y),
                Operator::Lt => machine::truth(x < y),
                Operator::Lte => machine::truth(x <= y),
                Operator::Gt => machine::truth(x > y),
                Operator::Gte => machine::truth(x >= y),
                Operator::BitAnd => Val::Int(bits, machine::calculated(IntOp::And, bits, x, y)),
                Operator::BitOr => Val::Int(bits, machine::calculated(IntOp::Or, bits, x, y)),
                Operator::BitXor => Val::Int(bits, machine::calculated(IntOp::Xor, bits, x, y)),
                Operator::Shl => Val::Int(bits, machine::calculated(IntOp::Shl, bits, x, y)),
                Operator::Shr => Val::Int(bits, machine::calculated(IntOp::Shr, bits, x, y)),
                _ => a,
            }
        },
        (Val::Float(m, x), Val::Float(_, y)) => match op {
            Operator::Add => Val::Float(m, (w.float)(FloatOp::Add, x, y)),
            Operator::Sub => Val::Float(m, (w.float)(FloatOp::Sub, x, y)),
            Operator::Mul => Val::Float(m, (w.float)(FloatOp::Mul, x, y)),
            Operator::Div => Val::Float(m, (w.float)(FloatOp::Div, x, y)),
            Operator::Mod => Val::Float(m, (w.float)(FloatOp::Rem, x, y)),
            Operator::Eq => machine::truth((w.ordered)(Predicate::Eq, x, y)),
            Operator::Neq => machine::truth((w.ordered)(Predicate::Neq, x, y)),
            Operator::Lt => machine::truth((w.ordered)(Predicate::Lt, x, y)),
            Operator::Lte => machine::truth((w.ordered)(Predicate::Lte, x, y)),
            Operator::Gt => machine::truth((w.ordered)(Predicate::Gt, x, y)),
            Operator::Gte => machine::truth((w.ordered)(Predicate::Gte, x, y)),
            _ => a,
        },
        (Val::Pointer(x), Val::Pointer(y)) => match op {
            Operator::Eq => machine::truth(machine::wrapped(64, x) == machine::wrapped(64, y)),
            Operator::Neq => machine::truth(machine::wrapped(64, x) != machine::wrapped(64, y)),
            _ => a,
        },
        _ => a,
    }
}

/// Whether an operator can be applied to two values.
pub open spec fn applies(op: Operator, a: Val, b: Val) -> bool {
    match (a, b) {
        (Val::Int(..), Val::Int(..)) => !(op is Power || op is Or || op is And),
        (Val::Float(..), Val::Float(..)) => op is Add || op is Sub || op is Mul || op is Div
            || op is Mod || op is Eq || op is Neq || op is Lt || op is Lte || op is Gt || op is Gte,
        (Val::Pointer(..), Val::Pointer(..)) => op is Eq || op is Neq,
        _ => false,
    }
}

/// The instruction of an operator does what the operator means.
pub proof fn lemma_operation(w: World, e: Env, op: Operator, a: Value, b: Value, d: usize)
    requires
        applies(op, machine::value_of(w, e, a), machine::value_of(w, e, b)),
    ensures
        translation::infix_inst(op, a, b, d) matches Some(i) && !ir::ends_block(i)
            && machine::performed(w, e, i) == machine::set(
            e,
            d,
            operated(w, op, machine::value_of(w, e, a), machine::value_of(w, e, b)),
        ),
{
    reveal(translation::infix_inst);
}

/// The places in the code of two operands.
pub struct Operands {
    /// Behind the left operand
    pub left: G,
    pub a: Value,
    /// Behind the right operand
    pub right: G,
    pub b: Value,
}

/// Two operands are evaluated from left to right, and the operator is applied to their
/// values in that order.
pub proof fn lemma_infix(w: World, g: G, node: ExpressionNode, h: G, v: Value, blocks: Blocks) -> (r: Operands)
    requires
        shape::sound(g),
        node.expression is Infix,
        !(node.expression->Infix_1 is Or),
        !(node.expression->Infix_1 is And),
        translation::expr(g, node, true) == Some((h, v)),
        part(h, blocks),
    ensures
        ({
            let op = node.expression->Infix_1;
            &&& translation::expr(g, *node.expression->Infix_0, true) == Some((r.left, r.a))
            &&& translation::expr(r.left, *node.expression->Infix_2, true) == Some((r.right, r.b))
            &&& part(g, blocks)
            &&& part(r.left, blocks)
            &&& part(r.right, blocks)
            &&& forall|e: Env|
                #![trigger here(r.right, e)]
                applies(op, machine::value_of(w, e, r.a), machine::value_of(w, e, r.b)) ==> gives(
                    w,
                    blocks,
                    r.right,
                    e,
                    h,
                    v,
                    operated(w, op, machine::value_of(w, e, r.a), machine::value_of(w, e, r.b)),
                )
            &&& op is Power ==> forall|e: Env|
                #![trigger here(r.right, e)]
                reaches(
                    w,
                    blocks,
                    here(r.right, e),
                    here(
                        h,
                        machine::called(
                            w,
                            e,
                            "pow"@,
                            machine::same_width(
                                machine::value_of(w, e, r.a),
                                machine::value_of(w, e, r.b),
                            ),
                            r.right.f.registers,
                        ),
                    ),
                )
        }),
{
    reveal(translation::expr);
    reveal(translation::inner);
    reveal(translation::infix);
    match node.expression {
        Expression::Infix(left, op, right) => {
            let (g1, a) = translation::expr(g, parts::node(left), true)->0;
            lemma_value(g, parts::node(left), true, g1, a);
            let (g2, b) = translation::expr(g1, parts::node(right), true)->0;
            lemma_value(g1, parts::node(right), true, g2, b);
            let i = translation::infix_inst(op, a, b, g2.f.registers)->0;
            assert(!ir::ends_block(i)) by {
                reveal(translation::infix_inst);
            }
            running::lemma_defined(w, g2, i, h, v, blocks, arbitrary());
            running::lemma_part(g1, g2, blocks);
            running::lemma_part(g, g1, blocks);
            assert forall|e: Env|
                #![trigger here(g2, e)]
                applies(op, machine::value_of(w, e, a), machine::value_of(w, e, b)) implies gives(
                w,
                blocks,
                g2,
                e,
                h,
                v,
                operated(w, op, machine::value_of(w, e, a), machine::value_of(w, e, b)),
            ) by {
                lemma_operation(w, e, op, a, b, g2.f.registers);
                lemma_one(
                    w,
                    g2,
                    i,
                    h,
                    v,
                    blocks,
                    e,
                    operated(w, op, machine::value_of(w, e, a), machine::value_of(w, e, b)),
                );
            }
            if op is Power {
                assert forall|e: Env|
                    #![trigger here(g2, e)]
                    reaches(
                        w,
                        blocks,
                        here(g2, e),
                        here(
                            h,
                            machine::called(
                                w,
                                e,
                                "pow"@,
                                machine::same_width(
                                    machine::value_of(w, e, a),
                                    machine::value_of(w, e, b),
                                ),
                                g2.f.registers,
                            ),
                        ),
                    ) by {
                    reveal(translation::infix_inst);
                    running::lemma_defined(w, g2, i, h, v, blocks, e);
                }
            }
            Operands { left: g1, a, right: g2, b }
        },
        _ => arbitrary(),
    }
}

/// The places in the code of `or` and `and`.
pub struct Choice {
    /// Before the left operand
    pub start: G,
    /// Behind the left operand
    pub left: G,
    pub a: Value,
    /// Before the right operand
    pub rest: G,
    /// Behind the right operand
    pub right: G,
    pub b: Value,
    /// The variable that holds the result
    pub result: Seq<char>,
}

/// The value that `or` and `and` have when the left operand decides is kept first; the
/// right operand is evaluated only if the left one does not decide, and gives the value
/// then.
pub proof fn lemma_choice(w: World, g: G, node: ExpressionNode, h: G, v: Value, blocks: Blocks) -> (r: Choice)
    requires
        shape::sound(g),
        node.expression is Infix,
        node.expression->Infix_1 is Or || node.expression->Infix_1 is And,
        translation::expr(g, node, true) == Some((h, v)),
        part(h, blocks),
    ensures
        ({
            let or = node.expression->Infix_1 is Or;
            let t = (w.kind)(Ty::Bool);
            let at = (w.place)(r.result);
            &&& translation::expr(r.start, *node.expression->Infix_0, true) == Some((r.left, r.a))
            &&& translation::expr(r.rest, *node.expression->Infix_2, true) == Some((r.right, r.b))
            &&& part(g, blocks)
            &&& part(r.start, blocks)
            &&& part(r.left, blocks)
            &&& part(r.rest, blocks)
            &&& part(r.right, blocks)
            &&& r.result == translation::label("__sc_"@, g.f.if_index)
            &&& forall|e: Env|
                #![trigger here(g, e)]
                exists|e2: Env|
                    #![trigger here(r.start, e2)]
                    reaches(w, blocks, here(g, e), here(r.start, e2)) && agree(
                        machine::stored(e, at, machine::fitted(machine::truth(or), t)),
                        e2,
                        g.f.registers as nat,
                    )
            &&& forall|e: Env|
                #![trigger here(r.left, e)]
                if machine::is_true(machine::value_of(w, e, r.a)) == or {
                    gives(w, blocks, r.left, e, h, v, machine::read_as(w, t, e.memory[at]))
                } else {
                    reaches(w, blocks, here(r.left, e), here(r.rest, e))
                }
            &&& forall|e: Env|
                #![trigger here(r.right, e)]
                exists|e2: Env|
                    #![trigger here(h, e2)]
                    reaches(w, blocks, here(r.right, e), here(h, e2)) && machine::value_of(
                        w,
                        e2,
                        v,
                    ) == machine::read_as(
                        w,
                        t,
                        machine::fitted(machine::value_of(w, e, r.b), t),
                    ) && agree(
                        machine::stored(e, at, machine::fitted(machine::value_of(w, e, r.b), t)),
                        e2,
                        r.right.f.registers as nat,
                    )
        }),
{
    reveal(translation::expr);
    reveal(translation::inner);
    reveal(translation::infix);
    match node.expression {
        Expression::Infix(left, op, right) => {
            let n = g.f.if_index;
            let or = op is Or;
            let result = translation::label("__sc_"@, n);
            let rest = translation::label("sc_rhs_"@, n);
            let end = translation::label("sc_end_"@, n);
            let rest_label = Label::Part(Part::Rest, n);
            let end_label = Label::Part(Part::Decided, n);
            assert(labels::named(rest_label) == rest);
            assert(labels::named(end_label) == end);
            let t = (w.kind)(Ty::Bool);
            let at = (w.place)(result);
            running::lemma_ready(g);
            shape::lemma_new(g, rest_label);
            shape::lemma_new(g, end_label);
            shape::lemma_next_if(g, g, any());
            let g1 = translation::next_if(g)->0;
            shape::lemma_slot(g, g1, result, Ty::Bool, any());
            let g2 = translation::slot(g1, result, Ty::Bool);
            let constant = if or {
                Inst::ConstTrue(g2.f.registers)
            } else {
                Inst::ConstFalse(g2.f.registers)
            };
            shape::lemma_def(g, g2, constant, any());
            let (g3, decided) = translation::def(g2, constant)->0;
            let first = Inst::Store(result, decided, Ty::Bool);
            shape::lemma_emit(g, g3, first, any());
            let g4 = translation::emit(g3, first);
            running::lemma_ready(g4);
            let (g5, a) = translation::expr(g4, parts::node(left), true)->0;
            lemma_value(g4, parts::node(left), true, g5, a);
            expressions::lemma_next_expr(g, g4, parts::node(left), any());
            let jump = if or {
                Inst::Jcond(a, end, rest)
            } else {
                Inst::Jcond(a, rest, end)
            };
            shape::lemma_fresh(g4, g5, rest_label, any());
            shape::lemma_fresh(g4, g5, end_label, any());
            shape::lemma_kept(g4, g5, any(), result);
            parts::lemma_jump_and_open(g, g5, jump, rest_label, any());
            shape::lemma_emit(g, g5, jump, any());
            let j5 = translation::emit(g5, jump);
            let g6 = translation::block(j5, rest);
            assert(!assoc::defined(g6.f.blocks, end)) by {
                if end == rest {
                    labels::lemma_named(end_label, rest_label);
                }
            }
            running::lemma_ready(g6);
            let (g7, b) = translation::expr(g6, parts::node(right), true)->0;
            lemma_value(g6, parts::node(right), true, g7, b);
            expressions::lemma_next_expr(g, g6, parts::node(right), any());
            shape::lemma_fresh(g6, g7, end_label, any());
            shape::lemma_kept(g6, g7, any(), result);
            let keep = Inst::Store(result, b, Ty::Bool);
            shape::lemma_emit(g, g7, keep, any());
            let g8 = translation::emit(g7, keep);
            let go = Inst::Jump(end);
            shape::lemma_emit(g, g8, go, any());
            let g9 = translation::emit(g8, go);
            shape::lemma_block(g, g9, end_label, any());
            let g10 = translation::block(g9, end);
            let load = Inst::Load(result, g10.f.registers, Ty::Bool);
            // from the end of the code to its start
            let some = arbitrary::<Env>();
            running::lemma_defined(w, g10, load, h, v, blocks, some);
            running::lemma_opened(g9, end, blocks, some);
            running::lemma_emitted(w, g8, go, blocks, some);
            running::lemma_emitted(w, g7, keep, blocks, some);
            running::lemma_part(g6, g7, blocks);
            running::lemma_opened(j5, rest, blocks, some);
            running::lemma_emitted(w, g5, jump, blocks, some);
            running::lemma_part(g4, g5, blocks);
            running::lemma_emitted(w, g3, first, blocks, some);
            running::lemma_defined(w, g2, constant, g3, decided, blocks, some);
            running::lemma_same_code(g, g2, blocks);
            assert forall|e: Env|
                #![trigger here(g, e)]
                exists|e2: Env|
                    #![trigger here(g4, e2)]
                    reaches(w, blocks, here(g, e), here(g4, e2)) && agree(
                        machine::stored(e, at, machine::fitted(machine::truth(or), t)),
                        e2,
                        g.f.registers as nat,
                    ) by {
                let e1 = machine::performed(w, e, constant);
                let e2 = machine::performed(w, e1, first);
                running::lemma_emitted(w, g3, first, blocks, e1);
                running::lemma_defined(w, g2, constant, g3, decided, blocks, e);
                assert(here(g, e) == here(g2, e));
                running::lemma_on(w, blocks, here(g, e), here(g3, e1), here(g4, e2));
                assert(machine::value_of(w, e1, decided) == machine::truth(or));
                assert(agree(
                    machine::stored(e, at, machine::fitted(machine::truth(or), t)),
                    e2,
                    g.f.registers as nat,
                ));
            }
            assert forall|e: Env| #![trigger here(g5, e)]
                if machine::is_true(machine::value_of(w, e, a)) == or {
                    gives(w, blocks, g5, e, h, v, machine::read_as(w, t, e.memory[at]))
                } else {
                    reaches(w, blocks, here(g5, e), here(g6, e))
                } by {
                running::lemma_emitted(w, g5, jump, blocks, e);
                running::lemma_opened(j5, rest, blocks, e);
                running::lemma_opened(g9, end, blocks, e);
                if machine::is_true(machine::value_of(w, e, a)) == or {
                    running::lemma_defined(w, g10, load, h, v, blocks, e);
                    let e2 = machine::performed(w, e, load);
                    running::lemma_on(w, blocks, here(g5, e), here(g10, e), here(h, e2));
                    assert(g5.f.registers <= g10.f.registers);
                    assert(agree(e, e2, g5.f.registers as nat));
                }
            }
            assert forall|e: Env|
                #![trigger here(g7, e)]
                exists|e2: Env|
                    #![trigger here(h, e2)]
                    reaches(w, blocks, here(g7, e), here(h, e2)) && machine::value_of(w, e2, v)
                        == machine::read_as(
                        w,
                        t,
                        machine::fitted(machine::value_of(w, e, b), t),
                    ) && agree(
                        machine::stored(e, at, machine::fitted(machine::value_of(w, e, b), t)),
                        e2,
                        g7.f.registers as nat,
                    ) by {
                let e1 = machine::performed(w, e, keep);
                let e2 = machine::performed(w, e1, load);
                running::lemma_emitted(w, g7, keep, blocks, e);
                running::lemma_emitted(w, g8, go, blocks, e1);
                running::lemma_opened(g9, end, blocks, e1);
                running::lemma_defined(w, g10, load, h, v, blocks, e1);
                running::lemma_on(w, blocks, here(g7, e), here(g8, e1), here(g10, e1));
                running::lemma_on(w, blocks, here(g7, e), here(g10, e1), here(h, e2));
                assert(g7.f.registers <= g10.f.registers);
                assert(agree(
                    machine::stored(e, at, machine::fitted(machine::value_of(w, e, b), t)),
                    e2,
                    g7.f.registers as nat,
                ));
            }
            Choice { start: g4, left: g5, a, rest: g6, right: g7, b, result }
        },
        _ => arbitrary(),
    }
}

// ---------------------------------------------------------------------------
// Operations on one operand

/// What an operation makes of its operand.
pub open spec fn changed(w: World, e: Env, node: ExpressionNode, a: Val) -> Val {
    match node.expression {
        Expression::Not(_) => machine::complement(a),
        Expression::BitNot(_) => machine::complement(a),
        Expression::Cast(_, t) => machine::converted(w, a, (w.kind)(types::ty_of(t))),
        Expression::Deref(_) => {
            let t = (w.kind)(types::ty_of(node.typed));
            machine::read_as(w, t, e.memory[(w.element)(t, machine::address(a), 0)])
        },
        _ => a,
    }
}

/// The operand of an operation.
pub open spec fn operand_of<'a>(node: ExpressionNode<'a>) -> Option<Rc<ExpressionNode<'a>>> {
    match node.expression {
        Expression::Not(x) => Some(x),
        Expression::BitNot(x) => Some(x),
        Expression::Cast(x, _) => Some(x),
        Expression::Deref(x) => Some(x),
        _ => None,
    }
}

/// The operand is evaluated, and the operation is applied to its value: the complement,
/// the conversion, or what is stored behind the pointer.
pub proof fn lemma_unary(w: World, g: G, node: ExpressionNode, h: G, v: Value, blocks: Blocks) -> (r: (G, Value))
    requires
        shape::sound(g),
        operand_of(node) is Some,
        translation::expr(g, node, true) == Some((h, v)),
        part(h, blocks),
    ensures
        translation::expr(g, *operand_of(node)->0, true) == Some(r),
        part(g, blocks),
        part(r.0, blocks),
        forall|e: Env|
            #![trigger here(r.0, e)]
            gives(w, blocks, r.0, e, h, v, changed(w, e, node, machine::value_of(w, e, r.1))),
{
    reveal(translation::expr);
    reveal(translation::inner);
    reveal(translation::unary);
    let operand = parts::node(operand_of(node)->0);
    let (g1, a) = translation::expr(g, operand, true)->0;
    lemma_value(g, operand, true, g1, a);
    let some = arbitrary::<Env>();
    match node.expression {
        Expression::Deref(_) => {
            running::lemma_ready(g1);
            parts::lemma_int(g1, g1, 0, any());
            let (g2, zero) = translation::int_const(g1, 0)->0;
            let t = types::ty_of(node.typed);
            let i = Inst::AccessElement(a, zero, g2.f.registers, t);
            let constant = Inst::ConstInt(0, g1.f.registers);
            running::lemma_defined(w, g2, i, h, v, blocks, some);
            running::lemma_defined(w, g1, constant, g2, zero, blocks, some);
            assert forall|e: Env| #![trigger here(g1, e)]
                gives(w, blocks, g1, e, h, v, changed(w, e, node, machine::value_of(w, e, a))) by {
                let e1 = machine::performed(w, e, constant);
                let e2 = machine::performed(w, e1, i);
                running::lemma_defined(w, g1, constant, g2, zero, blocks, e);
                running::lemma_defined(w, g2, i, h, v, blocks, e1);
                running::lemma_on(w, blocks, here(g1, e), here(g2, e1), here(h, e2));
                assert(machine::value_of(w, e1, a) == machine::value_of(w, e, a));
                assert(machine::value_of(w, e1, zero) == Val::Int(64, 0));
                assert(reaches(w, blocks, here(g1, e), here(h, e2)) && agree(
                    e,
                    e2,
                    g1.f.registers as nat,
                ));
            }
        },
        _ => {
            let i = match node.expression {
                Expression::Cast(_, t) => Inst::Cast(a, types::ty_of(t), g1.f.registers),
                _ => Inst::Not(a, g1.f.registers),
            };
            running::lemma_defined(w, g1, i, h, v, blocks, some);
            assert forall|e: Env| #![trigger here(g1, e)]
                gives(w, blocks, g1, e, h, v, changed(w, e, node, machine::value_of(w, e, a))) by {
                lemma_one(
                    w,
                    g1,
                    i,
                    h,
                    v,
                    blocks,
                    e,
                    changed(w, e, node, machine::value_of(w, e, a)),
                );
            }
        },
    }
    running::lemma_part(g, g1, blocks);
    (g1, a)
}

/// The places in the code of a negation.
pub struct Negation {
    /// Before the operand
    pub start: G,
    pub zero: Value,
    /// Behind the operand
    pub done: G,
    pub a: Value,
}

/// The operand of a negation is subtracted from zero.
pub proof fn lemma_negate(w: World, g: G, node: ExpressionNode, h: G, v: Value, blocks: Blocks) -> (r: Negation)
    requires
        shape::sound(g),
        node.expression is Negate,
        translation::expr(g, node, true) == Some((h, v)),
        part(h, blocks),
    ensures
        ({
            let operand = *node.expression->Negate_0;
            &&& translation::expr(r.start, operand, true) == Some((r.done, r.a))
            &&& !(types::ty_of(operand.typed) is Float) ==> translation::int_const(g, 0) == Some(
                (r.start, r.zero),
            )
            &&& part(g, blocks)
            &&& part(r.start, blocks)
            &&& part(r.done, blocks)
            &&& forall|e: Env|
                #![trigger here(g, e)]
                gives(
                    w,
                    blocks,
                    g,
                    e,
                    r.start,
                    r.zero,
                    if types::ty_of(operand.typed) is Float {
                        Val::Float(64, 0)
                    } else {
                        Val::Int(64, 0)
                    },
                )
            &&& forall|e: Env|
                #![trigger here(r.done, e)]
                match (machine::value_of(w, e, r.zero), machine::value_of(w, e, r.a)) {
                    (Val::Int(64, z), Val::Int(bits, x)) => z == 0 && bits <= 64 ==> gives(
                        w,
                        blocks,
                        r.done,
                        e,
                        h,
                        v,
                        Val::Int(64, machine::wrapped(64, -x)),
                    ),
                    (Val::Float(64, z), Val::Float(_, x)) => z == 0 ==> gives(
                        w,
                        blocks,
                        r.done,
                        e,
                        h,
                        v,
                        Val::Float(64, (w.float)(FloatOp::Sub, 0, x)),
                    ),
                    _ => true,
                }
        }),
{
    reveal(translation::expr);
    reveal(translation::inner);
    reveal(translation::unary);
    match node.expression {
        Expression::Negate(operand) => {
            let float = types::ty_of(parts::node(operand).typed) is Float;
            let constant = if float {
                Inst::ConstFloat(0, g.f.registers)
            } else {
                Inst::ConstInt(0, g.f.registers)
            };
            running::lemma_ready(g);
            shape::lemma_def(g, g, constant, any());
            let (g1, zero) = translation::def(g, constant)->0;
            let (g2, a) = translation::expr(g1, parts::node(operand), true)->0;
            lemma_value(g1, parts::node(operand), true, g2, a);
            let i = Inst::Sub(zero, a, g2.f.registers);
            let some = arbitrary::<Env>();
            running::lemma_defined(w, g2, i, h, v, blocks, some);
            running::lemma_part(g1, g2, blocks);
            running::lemma_defined(w, g, constant, g1, zero, blocks, some);
            assert forall|e: Env| #![trigger here(g, e)]
                gives(
                    w,
                    blocks,
                    g,
                    e,
                    g1,
                    zero,
                    if float {
                        Val::Float(64, 0)
                    } else {
                        Val::Int(64, 0)
                    },
                ) by {
                lemma_one(
                    w,
                    g,
                    constant,
                    g1,
                    zero,
                    blocks,
                    e,
                    if float {
                        Val::Float(64, 0)
                    } else {
                        Val::Int(64, 0)
                    },
                );
            }
            assert forall|e: Env| #![trigger here(g2, e)]
                match (machine::value_of(w, e, zero), machine::value_of(w, e, a)) {
                    (Val::Int(64, z), Val::Int(bits, x)) => z == 0 && bits <= 64 ==> gives(
                        w,
                        blocks,
                        g2,
                        e,
                        h,
                        v,
                        Val::Int(64, machine::wrapped(64, -x)),
                    ),
                    (Val::Float(64, z), Val::Float(_, x)) => z == 0 ==> gives(
                        w,
                        blocks,
                        g2,
                        e,
                        h,
                        v,
                        Val::Float(64, (w.float)(FloatOp::Sub, 0, x)),
                    ),
                    _ => true,
                } by {
                match (machine::value_of(w, e, zero), machine::value_of(w, e, a)) {
                    (Val::Int(64, z), Val::Int(bits, x)) => {
                        if z == 0 && bits <= 64 {
                            assert(0 - x == -x);
                            lemma_one(
                                w,
                                g2,
                                i,
                                h,
                                v,
                                blocks,
                                e,
                                Val::Int(64, machine::wrapped(64, -x)),
                            );
                        }
                    },
                    (Val::Float(64, z), Val::Float(_, x)) => {
                        if z == 0 {
                            lemma_one(
                                w,
                                g2,
                                i,
                                h,
                                v,
                                blocks,
                                e,
                                Val::Float(64, (w.float)(FloatOp::Sub, 0, x)),
                            );
                        }
                    },
                    _ => {},
                }
            }
            Negation { start: g1, zero, done: g2, a }
        },
        _ => arbitrary(),
    }
}

// ---------------------------------------------------------------------------
// Elements, members and calls

/// The array is evaluated first, then the index, and the element at that index is read.
pub proof fn lemma_array_access(w: World, g: G, node: ExpressionNode, h: G, v: Value, blocks: Blocks) -> (r: Operands)
    requires
        shape::sound(g),
        node.expression is ArrayAccess,
        translation::expr(g, node, true) == Some((h, v)),
        part(h, blocks),
    ensures
        ({
            let array = *node.expression->ArrayAccess_0;
            &&& translation::expr(g, array, true) == Some((r.left, r.a))
            &&& translation::expr(r.left, *node.expression->ArrayAccess_1, true) == Some(
                (r.right, r.b),
            )
            &&& part(g, blocks)
            &&& part(r.left, blocks)
            &&& part(r.right, blocks)
            &&& translation::element(types::ty_of(array.typed)) is Some
            &&& forall|e: Env|
                #![trigger here(r.right, e)]
                ({
                    let t = (w.kind)(translation::element(types::ty_of(array.typed))->0);
                    gives(
                        w,
                        blocks,
                        r.right,
                        e,
                        h,
                        v,
                        machine::read_as(
                            w,
                            t,
                            e.memory[(w.element)(
                                t,
                                machine::address(machine::value_of(w, e, r.a)),
                                machine::number(machine::value_of(w, e, r.b)),
                            )],
                        ),
                    )
                })
        }),
{
    reveal(translation::expr);
    reveal(translation::inner);
    reveal(translation::array_access);
    match node.expression {
        Expression::ArrayAccess(array, index) => {
            let t = translation::element(types::ty_of(parts::node(array).typed))->0;
            let (g1, a) = translation::expr(g, parts::node(array), true)->0;
            lemma_value(g, parts::node(array), true, g1, a);
            let (g2, b) = translation::expr(g1, parts::node(index), true)->0;
            lemma_value(g1, parts::node(index), true, g2, b);
            let i = Inst::AccessElement(a, b, g2.f.registers, t);
            running::lemma_defined(w, g2, i, h, v, blocks, arbitrary());
            running::lemma_part(g1, g2, blocks);
            running::lemma_part(g, g1, blocks);
            assert forall|e: Env| #![trigger here(g2, e)]
                gives(
                    w,
                    blocks,
                    g2,
                    e,
                    h,
                    v,
                    machine::read_as(
                        w,
                        (w.kind)(t),
                        e.memory[(w.element)(
                            (w.kind)(t),
                            machine::address(machine::value_of(w, e, a)),
                            machine::number(machine::value_of(w, e, b)),
                        )],
                    ),
                ) by {
                lemma_one(
                    w,
                    g2,
                    i,
                    h,
                    v,
                    blocks,
                    e,
                    machine::read_as(
                        w,
                        (w.kind)(t),
                        e.memory[(w.element)(
                            (w.kind)(t),
                            machine::address(machine::value_of(w, e, a)),
                            machine::number(machine::value_of(w, e, b)),
                        )],
                    ),
                );
            }
            Operands { left: g1, a, right: g2, b }
        },
        _ => arbitrary(),
    }
}

/// The places behind each of some expressions: from each place the code of the next
/// expression leads to the next place, with its value.
pub open spec fn in_turn(g: G, es: Seq<ExpressionNode>, places: Seq<G>, values: Seq<Value>) -> bool {
    &&& places.len() == es.len() + 1
    &&& values.len() == es.len()
    &&& places[0] == g
    &&& forall|k: int|
        0 <= k < es.len() ==> #[trigger] translation::expr(places[k], es[k], true) == Some(
            (places[k + 1], values[k]),
        )
}

/// Expressions are evaluated in the order in which they are written, and their values come
/// in that order.
pub proof fn lemma_in_turn(g: G, es: Seq<ExpressionNode>, k: int, values: Seq<Value>, places: Seq<G>, h: G, out: Seq<Value>) -> (r: Seq<G>)
    requires
        shape::sound(g),
        0 <= k <= es.len(),
        places.len() == k + 1,
        places[k] == g,
        values.len() >= k,
        forall|j: int|
            0 <= j < k ==> #[trigger] translation::expr(places[j], es[j], true) == Some(
                (places[j + 1], values[values.len() - k + j]),
            ),
        translation::exprs(g, es, k, values) == Some((h, out)),
    ensures
        r.len() == es.len() + 1,
        r[0] == places[0],
        r[es.len() as int] == h,
        out.len() == values.len() + es.len() - k,
        forall|j: int| 0 <= j < values.len() ==> out[j] == values[j],
        in_turn(places[0], es, r, out.skip(values.len() - k)),
        shape::sound(h),
        shape::leads(g, h, any()),
    decreases es.len() - k,
{
    reveal(translation::exprs);
    reveal(translation::expr);
    running::lemma_ready(g);
    if k < es.len() {
        let (g1, v) = translation::expr(g, es[k], true)->0;
        lemma_value(g, es[k], true, g1, v);
        let more = values.push(v);
        let next = places.push(g1);
        assert forall|j: int| 0 <= j < k + 1 implies #[trigger] translation::expr(
            next[j],
            es[j],
            true,
        ) == Some((next[j + 1], more[more.len() - (k + 1) + j])) by {
            if j < k {
                assert(translation::expr(places[j], es[j], true) == Some(
                    (places[j + 1], values[values.len() - k + j]),
                ));
            }
        }
        let r = lemma_in_turn(g1, es, k + 1, more, next, h, out);
        shape::lemma_then(g, g1, h, any());
        assert forall|j: int| 0 <= j < values.len() implies out[j] == values[j] by {
            assert(out[j] == more[j]);
        }
        r
    } else {
        let rest = values.skip(values.len() - k);
        assert forall|j: int| 0 <= j < es.len() implies #[trigger] translation::expr(
            places[j],
            es[j],
            true,
        ) == Some((places[j + 1], rest[j])) by {}
        places
    }
}

/// A function that is called by its name gets the values of the arguments, which are
/// evaluated from left to right, in that order.
pub proof fn lemma_function_call(w: World, g: G, node: ExpressionNode, h: G, v: Value, blocks: Blocks, name: Seq<char>) -> (r: (Seq<G>, Seq<Value>))
    requires
        shape::sound(g),
        node.expression matches Expression::FunctionCall { function, args } && {
            &&& translation::boxed_variant(g.cg.module, *function) is None
            &&& translation::resolve(*function) == Some(name)
            &&& !(function.expression is StructAccess)
        },
        !(types::ty_of(node.typed) is Never),
        translation::expr(g, node, true) == Some((h, v)),
        part(h, blocks),
    ensures
        node.expression matches Expression::FunctionCall { function, args } && {
            &&& in_turn(g, args@, r.0, r.1)
            &&& part(r.0.last(), blocks)
            &&& part(g, blocks)
            &&& v == Value::Local(r.0.last().f.registers)
            &&& forall|e: Env|
                #![trigger here(r.0.last(), e)]
                reaches(
                    w,
                    blocks,
                    here(r.0.last(), e),
                    here(h, machine::call(w, e, name, r.1, r.0.last().f.registers)),
                )
        },
{
    reveal(translation::expr);
    reveal(translation::inner);
    reveal(translation::exprs);
    reveal(translation::function_call);
    match node.expression {
        Expression::FunctionCall { function, args } => {
            let (g1, values) = translation::exprs(g, args@, 0, Seq::empty())->0;
            let places = lemma_in_turn(g, args@, 0, Seq::empty(), seq![g], g1, values);
            assert(values.skip(0) =~= values);
            let i = Inst::FunctionCall(name, values, g1.f.registers);
            running::lemma_defined(w, g1, i, h, v, blocks, arbitrary());
            running::lemma_part(g, g1, blocks);
            assert(places.last() == g1);
            assert forall|e: Env| #![trigger here(g1, e)]
                reaches(
                    w,
                    blocks,
                    here(g1, e),
                    here(h, machine::call(w, e, name, values, g1.f.registers)),
                ) by {
                running::lemma_defined(w, g1, i, h, v, blocks, e);
            }
            (places, values)
        },
        _ => arbitrary(),
    }
}

} // verus!
