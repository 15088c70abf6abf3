//! Statements keep the shape of functions.

use vstd::prelude::*;
use crate::assoc;
use crate::ast::{ExpressionNode, Statement};
use crate::ir::Inst;
use crate::labels;
use crate::labels::{Label, Part};
use crate::shape;
use crate::shape::{expressions, parts, stores};
use crate::translation;
use crate::translation::G;
use crate::types;

verus! {

// ---------------------------------------------------------------------------
// Statements

/// Statements, one after the other.
pub proof fn lemma_stmts(g: G, ss: Seq<Statement>, k: int, ahead: Set<Seq<char>>)
    requires
        shape::ready(g, ahead),
    ensures
        parts::goes(g, translation::stmts(g, ss, k), ahead),
    decreases ss, ss.len() - k,
{
    reveal(translation::stmts);
    reveal(translation::stmt);
    shape::lemma_start(g, ahead);
    if 0 <= k < ss.len() {
        lemma_stmt(g, ss[k], ahead);
        if let Some(g1) = translation::stmt(g, ss[k]) {
            lemma_stmts(g1, ss, k + 1, ahead);
            if let Some(g2) = translation::stmts(g1, ss, k + 1) {
                shape::lemma_then(g, g1, g2, ahead);
            }
        }
    }
}

/// The statements of a body.
pub(crate) proof fn lemma_scope(g: G, ss: Seq<Statement>, ahead: Set<Seq<char>>)
    requires
        shape::ready(g, ahead),
    ensures
        parts::goes(g, translation::scope(g, ss), ahead),
    decreases ss, ss.len() + 1,
{
    reveal(translation::scope);
    reveal(translation::stmts);
    shape::lemma_start(g, ahead);
    shape::lemma_enter(g, ahead);
    let start = translation::enter(g);
    lemma_stmts(start, ss, 0, ahead);
    if let Some(g1) = translation::stmts(start, ss, 0) {
        shape::lemma_leave(g, g, g1, ahead);
    }
}

/// A statement.
pub(crate) proof fn lemma_stmt(g: G, s: Statement, ahead: Set<Seq<char>>)
    requires
        shape::ready(g, ahead),
    ensures
        parts::goes(g, translation::stmt(g, s), ahead),
    decreases s, 1int,
{
    reveal(translation::stmt);
    reveal(translation::expr);
    reveal(translation::address);
    reveal(translation::stmts);
    reveal(translation::scope);
    reveal(translation::assign);
    reveal(translation::reassign);
    reveal(translation::ret);
    reveal(translation::if_stmt);
    reveal(translation::while_stmt);
    reveal(translation::for_stmt);
    shape::lemma_start(g, ahead);
    match s {
        Statement::Assign(..) => {
            lemma_assign(g, s, ahead);
        },
        Statement::Return(..) => {
            lemma_ret(g, s, ahead);
        },
        Statement::Group(body) => {
            lemma_stmts(g, body@, 0, ahead);
        },
        Statement::ExpressionStatement(e, _) => {
            expressions::lemma_expr(g, e, true, ahead);
        },
        Statement::If(..) => {
            lemma_if(g, s, ahead);
        },
        Statement::While(..) => {
            lemma_while(g, s, ahead);
        },
        Statement::For(..) => {
            lemma_for(g, s, ahead);
        },
        Statement::Break(_) => {
            if g.cg.loop_ends.len() > 0 {
                let jump = Inst::Jump(g.cg.loop_ends.last());
                assert(shape::targets(jump) =~= seq![g.cg.loop_ends.last()]);
                reveal(shape::loops_in);
                shape::lemma_emit(g, g, jump, ahead);
            }
        },
        Statement::Continue(_) => {
            if g.cg.loop_continues.len() > 0 {
                let jump = Inst::Jump(g.cg.loop_continues.last());
                assert(shape::targets(jump) =~= seq![g.cg.loop_continues.last()]);
                reveal(shape::loops_in);
                shape::lemma_emit(g, g, jump, ahead);
            }
        },
        Statement::Reassign(..) => {
            lemma_reassign(g, s, ahead);
        },
        Statement::CompoundAssign(target, op, value, _) => {
            let t = types::ty_of(target.typed);
            expressions::lemma_address(g, target, ahead);
            if let Some((g1, p)) = translation::address(g, target) {
                parts::lemma_int(g, g1, 0, ahead);
                if let Some((g2, zero)) = translation::int_const(g1, 0) {
                    let read = Inst::AccessElement(p, zero, g2.f.registers, t);
                    shape::lemma_def(g, g2, read, ahead);
                    if let Some((g3, old_value)) = translation::def(g2, read) {
                        expressions::lemma_next_expr(g, g3, value, ahead);
                        if let Some((g4, v)) = translation::expr(g3, value, true) {
                            parts::lemma_infix_inst(op, old_value, v, g4.f.registers);
                            if let Some(i) = translation::infix_inst(
                                op,
                                old_value,
                                v,
                                g4.f.registers,
                            ) {
                                shape::lemma_def(g, g4, i, ahead);
                                if let Some((g5, x)) = translation::def(g4, i) {
                                    shape::lemma_emit(
                                        g,
                                        g5,
                                        Inst::StoreElement(p, zero, x, t),
                                        ahead,
                                    );
                                }
                            }
                        }
                    }
                }
            }
        },
        Statement::Block(body) => {
            lemma_scope(g, body@, ahead);
        },
        _ => {},
    }
}

/// The declaration of a variable.
pub(crate) proof fn lemma_assign(g: G, s: Statement, ahead: Set<Seq<char>>)
    requires
        shape::ready(g, ahead),
    ensures
        parts::goes(g, translation::assign(g, s), ahead),
    decreases s, 0int,
{
    reveal(translation::assign);
    reveal(translation::expr);
    if let Statement::Assign(_, name, annotation, e, _) = s {
        expressions::lemma_expr(g, e, true, ahead);
        if let Some((g1, v)) = translation::expr(g, e, true) {
            let t = match annotation {
                Some(t) => types::ty_of(t),
                None => types::ty_of(e.typed),
            };
            shape::lemma_declare(g, g1, name@, t, ahead);
            if let Some((g2, unique)) = translation::declare(g1, name@, t) {
                shape::lemma_emit(g, g2, Inst::Store(unique, v, t), ahead);
            }
        }
    }
}

/// An assignment.
pub(crate) proof fn lemma_reassign(g: G, s: Statement, ahead: Set<Seq<char>>)
    requires
        shape::ready(g, ahead),
    ensures
        parts::goes(g, translation::reassign(g, s), ahead),
    decreases s, 0int,
{
    reveal(translation::reassign);
    reveal(translation::expr);
    reveal(translation::store_to);
    if let Statement::Reassign(target, e, _) = s {
        expressions::lemma_expr(g, e, true, ahead);
        if let Some((g1, v)) = translation::expr(g, e, true) {
            stores::lemma_store_to(g1, target, v, ahead);
            if let Some(g2) = translation::store_to(g1, target, v) {
                shape::lemma_then(g, g1, g2, ahead);
            }
        }
    }
}

/// The end of a function.
pub(crate) proof fn lemma_ret(g: G, s: Statement, ahead: Set<Seq<char>>)
    requires
        shape::ready(g, ahead),
    ensures
        parts::goes(g, translation::ret(g, s), ahead),
    decreases s, 0int,
{
    reveal(translation::ret);
    reveal(translation::expr);
    shape::lemma_start(g, ahead);
    match s {
        Statement::Return(None, _) => {
            shape::lemma_emit(g, g, Inst::Return(None), ahead);
        },
        Statement::Return(Some(e), _) => {
            expressions::lemma_expr(g, e, true, ahead);
            if let Some((g1, v)) = translation::expr(g, e, true) {
                shape::lemma_emit(g, g1, Inst::Return(Some(v)), ahead);
            }
        },
        _ => {},
    }
}

/// A conditional.
#[verifier::rlimit(40)]
pub(crate) proof fn lemma_if(g: G, s: Statement, ahead: Set<Seq<char>>)
    requires
        shape::ready(g, ahead),
    ensures
        parts::goes(g, translation::if_stmt(g, s), ahead),
    decreases s, 0int,
{
    reveal(translation::if_stmt);
    reveal(translation::expr);
    reveal(translation::scope);
    reveal(translation::stmt);
    if let Statement::If(cond, body, other, _) = s {
        expressions::lemma_expr(g, cond, true, ahead);
        if let Some((g0, c)) = translation::expr(g, cond, true) {
            let n = g0.f.if_index;
            let yes_label = Label::Part(Part::Yes, n);
            let no_label = Label::Part(Part::No, n);
            let end_label = Label::Part(Part::End, n);
            let yes = translation::label("true-"@, n);
            let no = translation::label("else-"@, n);
            let end = translation::label("end-"@, n);
            assert(labels::named(yes_label) == yes);
            assert(labels::named(no_label) == no);
            assert(labels::named(end_label) == end);
            let wide = if other is Some {
                ahead.insert(no)
            } else {
                ahead
            };
            let more = wide.insert(end);
            shape::lemma_more(g0, ahead, no);
            shape::lemma_more(g0, wide, end);
            shape::lemma_start(g0, more);
            shape::lemma_new(g0, yes_label);
            shape::lemma_new(g0, no_label);
            shape::lemma_new(g0, end_label);
            shape::lemma_next_if(g0, g0, more);
            if let Some(g1) = translation::next_if(g0) {
                let jump = Inst::Jcond(
                    c,
                    yes,
                    if other is Some {
                        no
                    } else {
                        end
                    },
                );
                parts::lemma_jump_and_open(g0, g1, jump, yes_label, more);
                let g2 = translation::block(translation::emit(g1, jump), yes);
                lemma_different(n);
                lemma_scope(g2, body@, more);
                if let Some(g3) = translation::scope(g2, body@) {
                    shape::lemma_then(g0, g2, g3, more);
                    shape::lemma_fresh(g2, g3, no_label, more);
                    shape::lemma_fresh(g2, g3, end_label, more);
                    shape::lemma_fall(g0, g3, end, more);
                    let g4 = translation::fall_to(g3, end);
                    match other {
                        None => {
                            shape::lemma_block(g0, g4, end_label, more);
                            let g5 = translation::block(g4, end);
                            expressions::lemma_opened(g0, g5, end, ahead);
                            shape::lemma_then(g, g0, g5, ahead);
                        },
                        Some(other) => {
                            shape::lemma_block(g0, g4, no_label, more);
                            let g5 = translation::block(g4, no);
                            let g6 = translation::enter(g5);
                            shape::lemma_enter(g5, more);
                            lemma_stmt(g6, parts::branch(other), more);
                            if let Some(g7) = translation::stmt(g6, parts::branch(other)) {
                                shape::lemma_leave(g0, g5, g7, more);
                                let g8 = translation::leave(g7);
                                shape::lemma_fresh(g6, g7, end_label, more);
                                shape::lemma_kept(g6, g7, more, no);
                                shape::lemma_fall(g0, g8, end, more);
                                let g9 = translation::fall_to(g8, end);
                                shape::lemma_block(g0, g9, end_label, more);
                                let g10 = translation::block(g9, end);
                                expressions::lemma_opened(g0, g10, end, wide);
                                expressions::lemma_opened(g0, g10, no, ahead);
                                shape::lemma_then(g, g0, g10, ahead);
                            }
                        },
                    }
                }
            }
        }
    }
}

/// The labels of a conditional differ.
pub(crate) proof fn lemma_different(n: usize)
    ensures
        forall|p: Part, q: Part|
            #![trigger labels::named(Label::Part(p, n)), labels::named(Label::Part(q, n))]
            p != q ==> labels::named(Label::Part(p, n)) != labels::named(Label::Part(q, n)),
{
    assert forall|p: Part, q: Part|
        #![trigger labels::named(Label::Part(p, n)), labels::named(Label::Part(q, n))]
        p != q implies labels::named(Label::Part(p, n)) != labels::named(Label::Part(q, n)) by {
        if labels::named(Label::Part(p, n)) == labels::named(Label::Part(q, n)) {
            labels::lemma_named(Label::Part(p, n), Label::Part(q, n));
        }
    }
}

/// A loop that tests its condition first, up to where its body starts.
pub(crate) proof fn lemma_loop_start(g: G, cond: ExpressionNode, ahead: Set<Seq<char>>)
    requires
        shape::ready(g, ahead),
    ensures
        ({
            let n = g.f.if_index;
            let eval = translation::label("eval-"@, n);
            let again = translation::label("loop-"@, n);
            let end = translation::label("end-"@, n);
            let more = ahead.insert(eval).insert(end);
            let l = translation::enter_loop(g, end, eval);
            translation::next_if(g) matches Some(g1) ==> {
                let g2 = translation::enter_loop(g1, end, eval);
                let g3 = translation::block(translation::emit(g2, Inst::Jump(eval)), eval);
                translation::expr(g3, cond, true) matches Some((g4, c)) ==> {
                    let g5 = translation::block(
                        translation::emit(g4, Inst::Jcond(c, again, end)),
                        again,
                    );
                    &&& shape::leads(l, g5, more)
                    &&& g5.f.if_index > n
                    &&& assoc::defined(g5.f.blocks, eval)
                    &&& !assoc::defined(g5.f.blocks, end)
                }
            }
        }),
    decreases cond, 5int,
{
    let n = g.f.if_index;
    let eval_label = Label::Part(Part::Test, n);
    let again_label = Label::Part(Part::Again, n);
    let end_label = Label::Part(Part::End, n);
    let eval = translation::label("eval-"@, n);
    let again = translation::label("loop-"@, n);
    let end = translation::label("end-"@, n);
    assert(labels::named(eval_label) == eval);
    assert(labels::named(again_label) == again);
    assert(labels::named(end_label) == end);
    let more = ahead.insert(eval).insert(end);
    shape::lemma_more(g, ahead, eval);
    shape::lemma_more(g, ahead.insert(eval), end);
    shape::lemma_new(g, eval_label);
    shape::lemma_new(g, again_label);
    shape::lemma_new(g, end_label);
    let l = translation::enter_loop(g, end, eval);
    shape::lemma_enter_loop(g, end, eval, more);
    shape::lemma_start(l, more);
    shape::lemma_next_if(l, l, more);
    lemma_different(n);
    if let Some(g1) = translation::next_if(g) {
        let g2 = translation::enter_loop(g1, end, eval);
        assert(translation::next_if(l) == Some(g2)) by {
            reveal(translation::enter_loop);
        }
        let jump = Inst::Jump(eval);
        assert(shape::targets(jump) =~= seq![eval]);
        parts::lemma_jump_and_open(l, g2, jump, eval_label, more);
        let g3 = translation::block(translation::emit(g2, jump), eval);
        expressions::lemma_next_expr(l, g3, cond, more);
        if let Some((g4, c)) = translation::expr(g3, cond, true) {
            shape::lemma_fresh(g3, g4, again_label, more);
            shape::lemma_fresh(g3, g4, end_label, more);
            shape::lemma_kept(g3, g4, more, eval);
            let test = Inst::Jcond(c, again, end);
            assert(shape::targets(test) =~= seq![again, end]);
            parts::lemma_jump_and_open(l, g4, test, again_label, more);
        }
    }
}

/// A loop, from the end of its body on.
pub(crate) proof fn lemma_loop_end(
    g: G,
    b: G,
    end: Seq<char>,
    again: Seq<char>,
    n: usize,
    ahead: Set<Seq<char>>,
)
    requires
        shape::ready(g, ahead),
        shape::leads(
            translation::enter_loop(g, end, again),
            b,
            ahead.insert(again).insert(end),
        ),
        end == labels::named(Label::Part(Part::End, n)),
        n == g.f.if_index,
        n < b.f.if_index,
        assoc::defined(b.f.blocks, again),
        !assoc::defined(b.f.blocks, end),
    ensures
        shape::leads(g, translation::block(translation::leave_loop(b), end), ahead),
{
    let more = ahead.insert(again).insert(end);
    shape::lemma_more(g, ahead, again);
    shape::lemma_more(g, ahead.insert(again), end);
    shape::lemma_start(g, more);
    shape::lemma_leave_loop(g, g, b, end, again, more);
    let c = translation::leave_loop(b);
    shape::lemma_block(g, c, Label::Part(Part::End, n), more);
    let d = translation::block(c, end);
    expressions::lemma_opened(g, d, end, ahead.insert(again));
    expressions::lemma_opened(g, d, again, ahead);
}

/// A loop that tests its condition first.
pub(crate) proof fn lemma_while(g: G, s: Statement, ahead: Set<Seq<char>>)
    requires
        shape::ready(g, ahead),
    ensures
        parts::goes(g, translation::while_stmt(g, s), ahead),
    decreases s, 0int,
{
    reveal(translation::while_stmt);
    reveal(translation::expr);
    reveal(translation::scope);
    if let Statement::While(cond, body, _) = s {
        let n = g.f.if_index;
        let end_label = Label::Part(Part::End, n);
        let eval = translation::label("eval-"@, n);
        let again = translation::label("loop-"@, n);
        let end = translation::label("end-"@, n);
        assert(labels::named(end_label) == end);
        let more = ahead.insert(eval).insert(end);
        let l = translation::enter_loop(g, end, eval);
        lemma_loop_start(g, cond, ahead);
        if let Some(g1) = translation::next_if(g) {
            let g2 = translation::enter_loop(g1, end, eval);
            let g3 = translation::block(translation::emit(g2, Inst::Jump(eval)), eval);
            if let Some((g4, c)) = translation::expr(g3, cond, true) {
                let g5 = translation::block(
                    translation::emit(g4, Inst::Jcond(c, again, end)),
                    again,
                );
                lemma_scope(g5, body@, more);
                if let Some(g6) = translation::scope(g5, body@) {
                    shape::lemma_then(l, g5, g6, more);
                    shape::lemma_fresh(g5, g6, end_label, more);
                    shape::lemma_kept(g5, g6, more, eval);
                    let jump = Inst::Jump(eval);
                    assert(shape::targets(jump) =~= seq![eval]);
                    shape::lemma_emit(l, g6, jump, more);
                    lemma_loop_end(g, translation::emit(g6, jump), end, eval, n, ahead);
                }
            }
        }
    }
}

/// A loop with a condition, or without end.
pub(crate) proof fn lemma_for(g: G, s: Statement, ahead: Set<Seq<char>>)
    requires
        shape::ready(g, ahead),
    ensures
        parts::goes(g, translation::for_stmt(g, s), ahead),
    decreases s, 0int,
{
    reveal(translation::for_stmt);
    reveal(translation::expr);
    reveal(translation::scope);
    if let Statement::For(cond, body, _) = s {
        let n = g.f.if_index;
        let end_label = Label::Part(Part::End, n);
        let again_label = Label::Part(Part::Again, n);
        let again = translation::label("loop-"@, n);
        let end = translation::label("end-"@, n);
        let eval = translation::label("eval-"@, n);
        assert(labels::named(end_label) == end);
        assert(labels::named(again_label) == again);
        if let Some(g1) = translation::next_if(g) {
            match cond {
                Some(cond) => {
                    let more = ahead.insert(eval).insert(end);
                    let l = translation::enter_loop(g, end, eval);
                    lemma_loop_start(g, cond, ahead);
                    let g2 = translation::enter_loop(g1, end, eval);
                    let g3 = translation::block(
                        translation::emit(g2, Inst::Jump(eval)),
                        eval,
                    );
                    if let Some((g4, c)) = translation::expr(g3, cond, true) {
                        let g5 = translation::block(
                            translation::emit(g4, Inst::Jcond(c, again, end)),
                            again,
                        );
                        lemma_scope(g5, body@, more);
                        if let Some(g6) = translation::scope(g5, body@) {
                            shape::lemma_then(l, g5, g6, more);
                            shape::lemma_fresh(g5, g6, end_label, more);
                            shape::lemma_kept(g5, g6, more, eval);
                            shape::lemma_fall(l, g6, eval, more);
                            lemma_loop_end(
                                g,
                                translation::fall_to(g6, eval),
                                end,
                                eval,
                                n,
                                ahead,
                            );
                        }
                    }
                },
                None => {
                    let more = ahead.insert(again).insert(end);
                    shape::lemma_more(g, ahead, again);
                    shape::lemma_more(g, ahead.insert(again), end);
                    shape::lemma_new(g, again_label);
                    shape::lemma_new(g, end_label);
                    lemma_different(n);
                    let l = translation::enter_loop(g, end, again);
                    shape::lemma_enter_loop(g, end, again, more);
                    shape::lemma_start(l, more);
                    shape::lemma_next_if(l, l, more);
                    let g2 = translation::enter_loop(g1, end, again);
                    assert(translation::next_if(l) == Some(g2)) by {
                        reveal(translation::enter_loop);
                    }
                    let jump = Inst::Jump(again);
                    assert(shape::targets(jump) =~= seq![again]);
                    parts::lemma_jump_and_open(l, g2, jump, again_label, more);
                    let g3 = translation::block(translation::emit(g2, jump), again);
                    lemma_scope(g3, body@, more);
                    if let Some(g4) = translation::scope(g3, body@) {
                        shape::lemma_then(l, g3, g4, more);
                        shape::lemma_fresh(g3, g4, end_label, more);
                        shape::lemma_kept(g3, g4, more, again);
                        shape::lemma_fall(l, g4, again, more);
                        lemma_loop_end(
                            g,
                            translation::fall_to(g4, again),
                            end,
                            again,
                            n,
                            ahead,
                        );
                    }
                },
            }
        }
    }
}

} // verus!
