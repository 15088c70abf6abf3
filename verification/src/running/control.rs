//! Where control goes in generated conditionals and loops.

use vstd::prelude::*;
use crate::assoc;
use crate::ast::{ExpressionNode, Statement};
use crate::ir;
use crate::ir::{Inst, Value};
use crate::labels;
use crate::labels::{Label, Part};
use crate::machine;
use crate::machine::{Env, World};
use crate::running;
use crate::running::{any, here, part, reaches, Blocks, Conf};
use crate::shape;
use crate::shape::{expressions, parts, statements};
use crate::translation;
use crate::translation::G;

verus! {

// ---------------------------------------------------------------------------
// Loops

/// The places in the code of a loop with a condition.
pub struct Loop {
    /// Before the condition
    pub test: G,
    /// Behind the condition
    pub tested: G,
    /// The register with the value of the condition
    pub cond: Value,
    /// Before the body
    pub body: G,
    /// Behind the body
    pub done: G,
}

/// Whether places are those of a loop with the condition `cond` and the body `body`, from
/// `g` to `h`: between them lies the code of the condition and of the body. There are the
/// same variables in both, and `break` and `continue` in the body belong to this loop.
pub open spec fn is_loop(l: Loop, g: G, h: G, cond: ExpressionNode, body: Seq<Statement>) -> bool {
    &&& translation::expr(l.test, cond, true) == Some((l.tested, l.cond))
    &&& translation::scope(l.body, body) == Some(l.done)
    &&& l.test.cg.scopes == g.cg.scopes
    &&& l.test.f.variables == g.f.variables
    &&& l.body.cg.scopes == l.tested.cg.scopes
    &&& l.body.f.variables == l.tested.f.variables
    &&& l.body.f.registers == l.tested.f.registers
    &&& l.body.cg.loop_ends == g.cg.loop_ends.push(h.f.current)
    &&& l.body.cg.loop_continues == g.cg.loop_continues.push(l.test.f.current)
    &&& l.test.f.blocks.last().1.len() == 0
    &&& h.f.blocks.last().1.len() == 0
    &&& h.cg.scopes == l.done.cg.scopes
    &&& h.f.variables == l.done.f.variables
    &&& l.body.f.blocks.last().1.len() == 0
    &&& l.test.cg.var_counter == g.cg.var_counter
    &&& l.body.cg.var_counter == l.tested.cg.var_counter
}

/// Whether the places of a loop are parts of a function.
pub open spec fn loop_in(l: Loop, blocks: Blocks) -> bool {
    part(l.test, blocks) && part(l.tested, blocks) && part(l.body, blocks) && part(l.done, blocks)
}

/// Where control goes in a loop: first to the condition; from there to the body if the
/// condition holds, and behind the loop if it does not; and from the end of the body to the
/// condition again.
pub open spec fn loops(w: World, blocks: Blocks, l: Loop, g: G, h: G) -> bool {
    &&& forall|e: Env| #[trigger] reaches(w, blocks, here(g, e), here(l.test, e))
    &&& forall|e: Env|
        #![trigger here(l.tested, e)]
        reaches(
            w,
            blocks,
            here(l.tested, e),
            if machine::is_true(machine::value_of(w, e, l.cond)) {
                here(l.body, e)
            } else {
                here(h, e)
            },
        )
    &&& forall|e: Env|
        #![trigger here(l.done, e)]
        !ir::current_terminated(l.done.f) ==> reaches(w, blocks, here(l.done, e), here(l.test, e))
}

/// The start of a loop with a condition.
proof fn lemma_loop_start(w: World, g: G, cond: ExpressionNode, g4: G, c: Value, blocks: Blocks)
    requires
        shape::sound(g),
        ({
            let n = g.f.if_index;
            let eval = translation::label("eval-"@, n);
            let again = translation::label("loop-"@, n);
            let end = translation::label("end-"@, n);
            &&& translation::next_if(g) matches Some(g1) && {
                let g2 = translation::enter_loop(g1, end, eval);
                let g3 = translation::block(translation::emit(g2, Inst::Jump(eval)), eval);
                &&& translation::expr(g3, cond, true) == Some((g4, c))
                &&& shape::sound(
                    translation::block(translation::emit(g4, Inst::Jcond(c, again, end)), again),
                )
                &&& shape::code_kept(
                    translation::block(
                        translation::emit(g4, Inst::Jcond(c, again, end)),
                        again,
                    ).f.blocks,
                    blocks,
                )
            }
        }),
        assoc::distinct(blocks),
    ensures
        ({
            let n = g.f.if_index;
            let eval = translation::label("eval-"@, n);
            let again = translation::label("loop-"@, n);
            let end = translation::label("end-"@, n);
            let g2 = translation::enter_loop(translation::next_if(g)->0, end, eval);
            let g3 = translation::block(translation::emit(g2, Inst::Jump(eval)), eval);
            let g5 = translation::block(
                translation::emit(g4, Inst::Jcond(c, again, end)),
                again,
            );
            &&& part(g, blocks)
            &&& part(g3, blocks)
            &&& part(g4, blocks)
            &&& part(g5, blocks)
            &&& forall|e: Env| #[trigger] reaches(w, blocks, here(g, e), here(g3, e))
            &&& forall|e: Env|
                #![trigger here(g4, e)]
                reaches(
                    w,
                    blocks,
                    here(g4, e),
                    if machine::is_true(machine::value_of(w, e, c)) {
                        here(g5, e)
                    } else {
                        Conf::At(end, 0, e)
                    },
                )
            &&& forall|e: Env| #[trigger] here(g3, e) == Conf::At(eval, 0, e)
            &&& g3.f.current == eval
            &&& g3.cg == g2.cg
            &&& g3.f.variables == g.f.variables
            &&& g3.f.blocks.last().1.len() == 0
            &&& g5.f.blocks.last().1.len() == 0
            &&& g5.cg == g4.cg
            &&& g5.f.variables == g4.f.variables
            &&& g5.f.registers == g4.f.registers
        }),
{
    let n = g.f.if_index;
    let eval_label = Label::Part(Part::Test, n);
    let again_label = Label::Part(Part::Again, n);
    let end_label = Label::Part(Part::End, n);
    let eval = translation::label("eval-"@, n);
    let again = translation::label("loop-"@, n);
    let end = translation::label("end-"@, n);
    assert(labels::named(eval_label) == eval);
    assert(labels::named(again_label) == again);
    assert(labels::named(end_label) == end);
    running::lemma_ready(g);
    shape::lemma_new(g, eval_label);
    shape::lemma_new(g, again_label);
    shape::lemma_new(g, end_label);
    let l = translation::enter_loop(g, end, eval);
    shape::lemma_enter_loop(g, end, eval, any());
    shape::lemma_start(l, any());
    shape::lemma_next_if(l, l, any());
    let g2 = translation::enter_loop(translation::next_if(g)->0, end, eval);
    assert(translation::next_if(l) == Some(g2)) by {
        reveal(translation::enter_loop);
    }
    let jump = Inst::Jump(eval);
    let j2 = translation::emit(g2, jump);
    parts::lemma_jump_and_open(l, g2, jump, eval_label, any());
    let g3 = translation::block(j2, eval);
    running::lemma_ready(g3);
    expressions::lemma_expr(g3, cond, true, any());
    let test = Inst::Jcond(c, again, end);
    let j4 = translation::emit(g4, test);
    let g5 = translation::block(j4, again);
    shape::lemma_emit(l, g2, jump, any());
    running::lemma_ready(g4);
    assert(shape::usable(g4.f, test));
    shape::lemma_emit(g4, g4, test, any());
    assert forall|e: Env|
        #![trigger here(g4, e)]
        reaches(
            w,
            blocks,
            here(g4, e),
            if machine::is_true(machine::value_of(w, e, c)) {
                here(g5, e)
            } else {
                Conf::At(end, 0, e)
            },
        ) && part(g4, blocks) by {
        running::lemma_opened(j4, again, blocks, e);
        running::lemma_emitted(w, g4, test, blocks, e);
    }
    let some = arbitrary::<Env>();
    assert(part(g4, blocks)) by {
        running::lemma_opened(j4, again, blocks, some);
        running::lemma_emitted(w, g4, test, blocks, some);
    }
    running::lemma_part(g3, g4, blocks);
    assert forall|e: Env| #[trigger] reaches(w, blocks, here(g, e), here(g3, e)) by {
        running::lemma_opened(j2, eval, blocks, e);
        running::lemma_emitted(w, g2, jump, blocks, e);
        assert(here(g, e) == here(g2, e)) by {
            reveal(translation::enter_loop);
        }
    }
    assert(part(g2, blocks)) by {
        running::lemma_opened(j2, eval, blocks, some);
        running::lemma_emitted(w, g2, jump, blocks, some);
    }
    assert(g2.f.blocks == g.f.blocks) by {
        reveal(translation::enter_loop);
    }
    reveal(ir::opened);
    reveal(ir::appended);
    reveal(translation::enter_loop);
}

/// A `while` loop evaluates its condition first, and again behind the body, and goes on
/// behind the loop when the condition does not hold.
pub proof fn lemma_while(w: World, g: G, s: Statement, h: G, blocks: Blocks) -> (l: Loop)
    requires
        shape::sound(g),
        s is While,
        translation::while_stmt(g, s) == Some(h),
        part(h, blocks),
    ensures
        is_loop(l, g, h, s->While_0, s->While_1@),
        loop_in(l, blocks),
        part(g, blocks),
        loops(w, blocks, l, g, h),
{
    reveal(translation::while_stmt);
    reveal(translation::expr);
    reveal(translation::scope);
    running::lemma_ready(g);
    match s {
        Statement::While(cond, body, _) => {
            let n = g.f.if_index;
            let eval = translation::label("eval-"@, n);
            let again = translation::label("loop-"@, n);
            let end = translation::label("end-"@, n);
            assert(labels::named(Label::Part(Part::End, n)) == end);
            assert(labels::named(Label::Part(Part::Test, n)) == eval);
            let start = translation::enter_loop(g, end, eval);
            statements::lemma_loop_start(g, cond, any());
            assert(any().insert(eval).insert(end) =~= any());
            let g2 = translation::enter_loop(translation::next_if(g)->0, end, eval);
            let g3 = translation::block(translation::emit(g2, Inst::Jump(eval)), eval);
            let (g4, c) = translation::expr(g3, cond, true)->0;
            let g5 = translation::block(
                translation::emit(g4, Inst::Jcond(c, again, end)),
                again,
            );
            statements::lemma_scope(g5, body@, any());
            let g6 = translation::scope(g5, body@)->0;
            shape::lemma_then(start, g5, g6, any());
            let jump = Inst::Jump(eval);
            shape::lemma_emit(start, g6, jump, any());
            let j = translation::emit(g6, jump);
            let out = translation::leave_loop(j);
            shape::lemma_leave_loop(g, g, j, end, eval, any());
            let some = arbitrary::<Env>();
            assert(part(g6, blocks)) by {
                running::lemma_opened(out, end, blocks, some);
                assert(out.f.blocks == j.f.blocks) by {
                    reveal(translation::leave_loop);
                }
                running::lemma_emitted(w, g6, jump, blocks, some);
            }
            running::lemma_part(g5, g6, blocks);
            lemma_loop_start(w, g, cond, g4, c, blocks);
            let l = Loop { test: g3, tested: g4, cond: c, body: g5, done: g6 };
            assert forall|e: Env|
                #![trigger here(l.done, e)]
                !ir::current_terminated(l.done.f) implies reaches(
                w,
                blocks,
                here(l.done, e),
                here(l.test, e),
            ) by {
                assert(out.f.blocks == j.f.blocks) by {
                    reveal(translation::leave_loop);
                }
                running::lemma_opened(out, end, blocks, e);
                running::lemma_emitted(w, g6, jump, blocks, e);
                assert(here(g3, e) == Conf::At(eval, 0, e));
            }
            assert forall|e: Env|
                #![trigger here(l.tested, e)]
                reaches(
                    w,
                    blocks,
                    here(l.tested, e),
                    if machine::is_true(machine::value_of(w, e, l.cond)) {
                        here(l.body, e)
                    } else {
                        here(h, e)
                    },
                ) by {
                running::lemma_opened(out, end, blocks, e);
            }
            lemma_loop_places(l, g, h, g2, cond, eval, end);
            l
        },
        _ => arbitrary(),
    }
}

/// What the places of a loop have in common.
proof fn lemma_loop_places(l: Loop, g: G, h: G, g2: G, cond: ExpressionNode, eval: Seq<char>, end: Seq<char>)
    requires
        shape::sound(l.test),
        translation::expr(l.test, cond, true) == Some((l.tested, l.cond)),
        translation::next_if(g) is Some,
        g2 == translation::enter_loop(translation::next_if(g)->0, end, eval),
        l.test.cg == g2.cg,
        l.test.f.current == eval,
        l.body.cg == l.tested.cg,
        h == translation::block(translation::leave_loop(translation::emit(l.done, Inst::Jump(eval))), end)
            || h == translation::block(translation::leave_loop(translation::fall_to(l.done, eval)), end),
    ensures
        l.test.cg.scopes == g.cg.scopes,
        l.test.cg.var_counter == g.cg.var_counter,
        l.body.cg.loop_ends == g.cg.loop_ends.push(end),
        l.body.cg.loop_continues == g.cg.loop_continues.push(eval),
        h.f.current == end,
        h.f.blocks.last().1.len() == 0,
        h.cg.scopes == l.done.cg.scopes,
        h.f.variables == l.done.f.variables,
{
    reveal(translation::enter_loop);
    reveal(translation::leave_loop);
    reveal(translation::fall_to);
    reveal(ir::opened);
    reveal(ir::appended);
    running::lemma_ready(l.test);
    expressions::lemma_expr(l.test, cond, true, any());
    reveal(shape::level);
}

/// A `for` loop with a condition evaluates it first, and again behind the body, and goes on
/// behind the loop when the condition does not hold.
pub proof fn lemma_for(w: World, g: G, s: Statement, h: G, blocks: Blocks) -> (l: Loop)
    requires
        shape::sound(g),
        s is For,
        s->For_0 is Some,
        translation::for_stmt(g, s) == Some(h),
        part(h, blocks),
    ensures
        is_loop(l, g, h, s->For_0->0, s->For_1@),
        loop_in(l, blocks),
        part(g, blocks),
        loops(w, blocks, l, g, h),
{
    reveal(translation::for_stmt);
    reveal(translation::expr);
    reveal(translation::scope);
    running::lemma_ready(g);
    match s {
        Statement::For(Some(cond), body, _) => {
            let n = g.f.if_index;
            let eval = translation::label("eval-"@, n);
            let again = translation::label("loop-"@, n);
            let end = translation::label("end-"@, n);
            assert(labels::named(Label::Part(Part::End, n)) == end);
            assert(labels::named(Label::Part(Part::Test, n)) == eval);
            let start = translation::enter_loop(g, end, eval);
            statements::lemma_loop_start(g, cond, any());
            assert(any().insert(eval).insert(end) =~= any());
            let g2 = translation::enter_loop(translation::next_if(g)->0, end, eval);
            let g3 = translation::block(translation::emit(g2, Inst::Jump(eval)), eval);
            let (g4, c) = translation::expr(g3, cond, true)->0;
            let g5 = translation::block(
                translation::emit(g4, Inst::Jcond(c, again, end)),
                again,
            );
            statements::lemma_scope(g5, body@, any());
            let g6 = translation::scope(g5, body@)->0;
            shape::lemma_then(start, g5, g6, any());
            shape::lemma_fall(start, g6, eval, any());
            let j = translation::fall_to(g6, eval);
            let out = translation::leave_loop(j);
            shape::lemma_leave_loop(g, g, j, end, eval, any());
            let some = arbitrary::<Env>();
            assert(out.f.blocks == j.f.blocks) by {
                reveal(translation::leave_loop);
            }
            assert(part(g6, blocks)) by {
                running::lemma_opened(out, end, blocks, some);
                running::lemma_fell(w, g6, eval, blocks, some);
            }
            running::lemma_part(g5, g6, blocks);
            lemma_loop_start(w, g, cond, g4, c, blocks);
            let l = Loop { test: g3, tested: g4, cond: c, body: g5, done: g6 };
            assert forall|e: Env|
                #![trigger here(l.done, e)]
                !ir::current_terminated(l.done.f) implies reaches(
                w,
                blocks,
                here(l.done, e),
                here(l.test, e),
            ) by {
                running::lemma_opened(out, end, blocks, e);
                running::lemma_fell(w, g6, eval, blocks, e);
                assert(here(g3, e) == Conf::At(eval, 0, e));
            }
            assert forall|e: Env|
                #![trigger here(l.tested, e)]
                reaches(
                    w,
                    blocks,
                    here(l.tested, e),
                    if machine::is_true(machine::value_of(w, e, l.cond)) {
                        here(l.body, e)
                    } else {
                        here(h, e)
                    },
                ) by {
                running::lemma_opened(out, end, blocks, e);
            }
            lemma_loop_places(l, g, h, g2, cond, eval, end);
            l
        },
        _ => arbitrary(),
    }
}

/// A loop keeps going until its condition does not hold: if the condition holds `n` times
/// in turn, and then does not, the body is run `n` times, and control goes on behind the
/// loop. `before` are the states before each evaluation of the condition, and `tested` those
/// behind it.
pub proof fn lemma_loop_runs(
    w: World,
    blocks: Blocks,
    l: Loop,
    g: G,
    h: G,
    before: Seq<Env>,
    tested: Seq<Env>,
    n: nat,
)
    requires
        loops(w, blocks, l, g, h),
        !ir::current_terminated(l.done.f),
        before.len() == n + 1,
        tested.len() == n + 1,
        forall|i: int|
            0 <= i <= n ==> #[trigger] reaches(
                w,
                blocks,
                here(l.test, before[i]),
                here(l.tested, tested[i]),
            ),
        forall|i: int|
            0 <= i < n ==> machine::is_true(
                #[trigger] machine::value_of(w, tested[i], l.cond),
            ),
        forall|i: int|
            0 <= i < n ==> #[trigger] reaches(
                w,
                blocks,
                here(l.body, tested[i]),
                here(l.done, before[i + 1]),
            ),
        !machine::is_true(machine::value_of(w, tested[n as int], l.cond)),
    ensures
        reaches(w, blocks, here(g, before[0]), here(h, tested[n as int])),
{
    lemma_turns(w, blocks, l, g, h, before, tested, n, n);
    running::lemma_on(
        w,
        blocks,
        here(l.test, before[0]),
        here(l.test, before[n as int]),
        here(l.tested, tested[n as int]),
    );
    running::lemma_on(
        w,
        blocks,
        here(l.test, before[0]),
        here(l.tested, tested[n as int]),
        here(h, tested[n as int]),
    );
    running::lemma_on(
        w,
        blocks,
        here(g, before[0]),
        here(l.test, before[0]),
        here(h, tested[n as int]),
    );
}

/// The first `k` turns of a loop.
proof fn lemma_turns(
    w: World,
    blocks: Blocks,
    l: Loop,
    g: G,
    h: G,
    before: Seq<Env>,
    tested: Seq<Env>,
    n: nat,
    k: nat,
)
    requires
        loops(w, blocks, l, g, h),
        !ir::current_terminated(l.done.f),
        k <= n,
        before.len() == n + 1,
        tested.len() == n + 1,
        forall|i: int|
            0 <= i <= n ==> #[trigger] reaches(
                w,
                blocks,
                here(l.test, before[i]),
                here(l.tested, tested[i]),
            ),
        forall|i: int|
            0 <= i < n ==> machine::is_true(
                #[trigger] machine::value_of(w, tested[i], l.cond),
            ),
        forall|i: int|
            0 <= i < n ==> #[trigger] reaches(
                w,
                blocks,
                here(l.body, tested[i]),
                here(l.done, before[i + 1]),
            ),
    ensures
        reaches(w, blocks, here(l.test, before[0]), here(l.test, before[k as int])),
    decreases k,
{
    if k == 0 {
        running::lemma_here(w, blocks, here(l.test, before[0]));
    } else {
        let i = k - 1;
        lemma_turns(w, blocks, l, g, h, before, tested, n, i as nat);
        let start = here(l.test, before[0]);
        let x = here(l.test, before[i]);
        let y = here(l.tested, tested[i]);
        let z = here(l.body, tested[i]);
        let u = here(l.done, before[i + 1]);
        running::lemma_on(w, blocks, start, x, y);
        assert(machine::is_true(machine::value_of(w, tested[i], l.cond)));
        running::lemma_on(w, blocks, start, y, z);
        running::lemma_on(w, blocks, start, z, u);
        running::lemma_on(w, blocks, start, u, here(l.test, before[i + 1]));
    }
}

/// The places in the code of a loop without a condition.
pub struct Endless {
    /// Before the body
    pub body: G,
    /// Behind the body
    pub done: G,
}

/// A `for` loop without a condition runs its body again and again: from the end of the body
/// control goes to its start. `break` in the body goes behind the loop, and `continue` to
/// the start of the body.
pub proof fn lemma_endless(w: World, g: G, s: Statement, h: G, blocks: Blocks) -> (l: Endless)
    requires
        shape::sound(g),
        s is For,
        s->For_0 is None,
        translation::for_stmt(g, s) == Some(h),
        part(h, blocks),
    ensures
        translation::scope(l.body, s->For_1@) == Some(l.done),
        part(g, blocks),
        part(l.body, blocks),
        part(l.done, blocks),
        l.body.cg.scopes == g.cg.scopes,
        l.body.cg.loop_ends == g.cg.loop_ends.push(h.f.current),
        l.body.cg.loop_continues == g.cg.loop_continues.push(l.body.f.current),
        l.body.f.blocks.last().1.len() == 0,
        h.f.blocks.last().1.len() == 0,
        forall|e: Env| #[trigger] reaches(w, blocks, here(g, e), here(l.body, e)),
        forall|e: Env|
            #![trigger here(l.done, e)]
            !ir::current_terminated(l.done.f) ==> reaches(
                w,
                blocks,
                here(l.done, e),
                here(l.body, e),
            ),
{
    reveal(translation::for_stmt);
    reveal(translation::scope);
    running::lemma_ready(g);
    match s {
        Statement::For(None, body, _) => {
            let n = g.f.if_index;
            let again = translation::label("loop-"@, n);
            let end = translation::label("end-"@, n);
            let again_label = Label::Part(Part::Again, n);
            let end_label = Label::Part(Part::End, n);
            assert(labels::named(end_label) == end);
            assert(labels::named(again_label) == again);
            shape::lemma_new(g, again_label);
            shape::lemma_new(g, end_label);
            let start = translation::enter_loop(g, end, again);
            shape::lemma_enter_loop(g, end, again, any());
            shape::lemma_start(start, any());
            shape::lemma_next_if(start, start, any());
            let g1 = translation::next_if(g)->0;
            let g2 = translation::enter_loop(g1, end, again);
            assert(translation::next_if(start) == Some(g2)) by {
                reveal(translation::enter_loop);
            }
            let jump = Inst::Jump(again);
            parts::lemma_jump_and_open(start, g2, jump, again_label, any());
            shape::lemma_emit(start, g2, jump, any());
            let j2 = translation::emit(g2, jump);
            let g3 = translation::block(j2, again);
            running::lemma_ready(g3);
            statements::lemma_scope(g3, body@, any());
            let g4 = translation::scope(g3, body@)->0;
            shape::lemma_then(start, g3, g4, any());
            shape::lemma_fall(start, g4, again, any());
            let j = translation::fall_to(g4, again);
            let out = translation::leave_loop(j);
            shape::lemma_leave_loop(g, g, j, end, again, any());
            assert(out.f.blocks == j.f.blocks) by {
                reveal(translation::leave_loop);
            }
            let some = arbitrary::<Env>();
            running::lemma_opened(out, end, blocks, some);
            running::lemma_fell(w, g4, again, blocks, some);
            running::lemma_part(g3, g4, blocks);
            running::lemma_opened(j2, again, blocks, some);
            running::lemma_emitted(w, g2, jump, blocks, some);
            assert(g2.f.blocks == g.f.blocks && g2.f.current == g.f.current) by {
                reveal(translation::enter_loop);
            }
            running::lemma_same_code(g, g2, blocks);
            assert forall|e: Env| #[trigger] reaches(w, blocks, here(g, e), here(g3, e)) by {
                running::lemma_opened(j2, again, blocks, e);
                running::lemma_emitted(w, g2, jump, blocks, e);
            }
            assert forall|e: Env|
                #![trigger here(g4, e)]
                !ir::current_terminated(g4.f) implies reaches(
                w,
                blocks,
                here(g4, e),
                here(g3, e),
            ) by {
                running::lemma_opened(j2, again, blocks, e);
                running::lemma_fell(w, g4, again, blocks, e);
            }
            assert(g3.cg == g2.cg && g3.f.current == again && g3.f.blocks.last().1.len() == 0) by {
                reveal(ir::opened);
            }
            assert(h.f.current == end && h.f.blocks.last().1.len() == 0) by {
                reveal(ir::opened);
            }
            assert(g2.cg.scopes == g.cg.scopes && g2.cg.loop_ends == g.cg.loop_ends.push(end)
                && g2.cg.loop_continues == g.cg.loop_continues.push(again)) by {
                reveal(translation::enter_loop);
            }
            Endless { body: g3, done: g4 }
        },
        _ => arbitrary(),
    }
}

// ---------------------------------------------------------------------------
// Conditionals

/// The places in the code of a conditional.
pub struct Branches {
    /// Behind the condition
    pub tested: G,
    /// The register with the value of the condition
    pub cond: Value,
    /// Before the statements that are run if the condition holds
    pub yes: G,
    /// Behind them
    pub yes_done: G,
    /// Before the statement that is run if the condition does not hold
    pub no: G,
    /// Behind it
    pub no_done: G,
}

/// A conditional evaluates its condition, and runs its body if the condition holds, and
/// else the other statement, where there is one. From the end of either control goes behind
/// the conditional.
pub proof fn lemma_if(w: World, g: G, s: Statement, h: G, blocks: Blocks) -> (r: Branches)
    requires
        shape::sound(g),
        s is If,
        translation::if_stmt(g, s) == Some(h),
        part(h, blocks),
    ensures
        s matches Statement::If(cond, body, other, _) && {
            &&& translation::expr(g, cond, true) == Some((r.tested, r.cond))
            &&& translation::scope(r.yes, body@) == Some(r.yes_done)
            &&& other matches Some(other) ==> {
                &&& translation::stmt(translation::enter(r.no), *other) == Some(r.no_done)
                &&& part(r.no, blocks)
                &&& part(r.no_done, blocks)
                &&& r.no.cg.scopes == r.yes_done.cg.scopes
            }
            &&& part(g, blocks)
            &&& part(r.tested, blocks)
            &&& part(r.yes, blocks)
            &&& part(r.yes_done, blocks)
            &&& r.yes.cg == r.tested.cg
            &&& r.yes.f.variables == r.tested.f.variables
            &&& r.yes.f.blocks.last().1.len() == 0
            &&& h.f.blocks.last().1.len() == 0
            &&& other is Some ==> r.no.cg == r.yes_done.cg && r.no.f.variables
                == r.yes_done.f.variables && r.no.f.blocks.last().1.len() == 0
            &&& h.cg.scopes == r.yes_done.cg.scopes
            &&& forall|e: Env|
                #![trigger here(r.tested, e)]
                reaches(
                    w,
                    blocks,
                    here(r.tested, e),
                    if machine::is_true(machine::value_of(w, e, r.cond)) {
                        here(r.yes, e)
                    } else if other is Some {
                        here(r.no, e)
                    } else {
                        here(h, e)
                    },
                )
            &&& forall|e: Env|
                #![trigger here(r.yes_done, e)]
                !ir::current_terminated(r.yes_done.f) ==> reaches(
                    w,
                    blocks,
                    here(r.yes_done, e),
                    here(h, e),
                )
            &&& other is Some ==> forall|e: Env|
                #![trigger here(r.no_done, e)]
                !ir::current_terminated(r.no_done.f) ==> reaches(
                    w,
                    blocks,
                    here(r.no_done, e),
                    here(h, e),
                )
        },
{
    reveal(translation::if_stmt);
    reveal(translation::expr);
    reveal(translation::scope);
    reveal(translation::stmt);
    match s {
        Statement::If(cond, body, other, _) => {
            running::lemma_ready(g);
            expressions::lemma_expr(g, cond, true, any());
            let (g0, c) = translation::expr(g, cond, true)->0;
            let n = g0.f.if_index;
            let yes_label = Label::Part(Part::Yes, n);
            let no_label = Label::Part(Part::No, n);
            let end_label = Label::Part(Part::End, n);
            let yes = translation::label("true-"@, n);
            let no = translation::label("else-"@, n);
            let end = translation::label("end-"@, n);
            assert(labels::named(yes_label) == yes);
            assert(labels::named(no_label) == no);
            assert(labels::named(end_label) == end);
            running::lemma_ready(g0);
            shape::lemma_new(g0, yes_label);
            shape::lemma_new(g0, no_label);
            shape::lemma_new(g0, end_label);
            shape::lemma_next_if(g0, g0, any());
            let g1 = translation::next_if(g0)->0;
            let jump = Inst::Jcond(
                c,
                yes,
                if other is Some {
                    no
                } else {
                    end
                },
            );
            parts::lemma_jump_and_open(g0, g1, jump, yes_label, any());
            shape::lemma_emit(g0, g1, jump, any());
            let j1 = translation::emit(g1, jump);
            let g2 = translation::block(j1, yes);
            statements::lemma_different(n);
            running::lemma_ready(g2);
            statements::lemma_scope(g2, body@, any());
            let g3 = translation::scope(g2, body@)->0;
            shape::lemma_then(g0, g2, g3, any());
            shape::lemma_fresh(g2, g3, no_label, any());
            shape::lemma_fresh(g2, g3, end_label, any());
            shape::lemma_fall(g0, g3, end, any());
            let g4 = translation::fall_to(g3, end);
            let some = arbitrary::<Env>();
            assert(g1.f.blocks == g0.f.blocks && g1.f.current == g0.f.current && g1.cg == g0.cg);
            assert(g2.cg == g1.cg && g2.f.variables == g1.f.variables && g2.f.blocks.last().1.len()
                == 0) by {
                reveal(ir::opened);
                reveal(ir::appended);
            }
            let (r, last) = match other {
                None => {
                    running::lemma_opened(g4, end, blocks, some);
                    (
                        Branches {
                            tested: g0,
                            cond: c,
                            yes: g2,
                            yes_done: g3,
                            no: g3,
                            no_done: g3,
                        },
                        g4,
                    )
                },
                Some(other) => {
                    shape::lemma_block(g0, g4, no_label, any());
                    let g5 = translation::block(g4, no);
                    let g6 = translation::enter(g5);
                    shape::lemma_enter(g5, any());
                    running::lemma_ready(g6);
                    statements::lemma_stmt(g6, parts::branch(other), any());
                    let g7 = translation::stmt(g6, parts::branch(other))->0;
                    shape::lemma_leave(g0, g5, g7, any());
                    let g8 = translation::leave(g7);
                    shape::lemma_fresh(g6, g7, end_label, any());
                    shape::lemma_fall(g0, g8, end, any());
                    let g9 = translation::fall_to(g8, end);
                    assert(g8.f == g7.f && g6.f == g5.f) by {
                        reveal(translation::enter);
                        reveal(translation::leave);
                    }
                    running::lemma_opened(g9, end, blocks, some);
                    running::lemma_fell(w, g8, end, blocks, some);
                    running::lemma_same_code(g7, g8, blocks);
                    running::lemma_part(g6, g7, blocks);
                    running::lemma_same_code(g5, g6, blocks);
                    running::lemma_opened(g4, no, blocks, some);
                    assert forall|e: Env| #![trigger here(g7, e)]
                        !ir::current_terminated(g7.f) implies reaches(
                        w,
                        blocks,
                        here(g7, e),
                        here(h, e),
                    ) by {
                        running::lemma_fell(w, g8, end, blocks, e);
                        running::lemma_opened(g9, end, blocks, e);
                    }
                    assert(g5.cg == g3.cg && g5.f.variables == g3.f.variables
                        && g5.f.blocks.last().1.len() == 0) by {
                        reveal(ir::opened);
                        reveal(ir::appended);
                        reveal(translation::fall_to);
                    }
                    assert(g9.cg.scopes == g5.cg.scopes) by {
                        reveal(translation::enter);
                        reveal(translation::leave);
                        reveal(translation::fall_to);
                        reveal(shape::level);
                        assert(g8.cg.scopes =~= g5.cg.scopes);
                    }
                    (
                        Branches {
                            tested: g0,
                            cond: c,
                            yes: g2,
                            yes_done: g3,
                            no: g5,
                            no_done: g7,
                        },
                        g9,
                    )
                },
            };
            assert(h == translation::block(last, end));
            assert(h.f.blocks.last().1.len() == 0 && h.cg.scopes == g3.cg.scopes) by {
                reveal(ir::opened);
                reveal(translation::fall_to);
            }
            running::lemma_fell(w, g3, end, blocks, some);
            running::lemma_part(g2, g3, blocks);
            running::lemma_opened(j1, yes, blocks, some);
            running::lemma_emitted(w, g1, jump, blocks, some);
            running::lemma_same_code(g0, g1, blocks);
            running::lemma_part(g, g0, blocks);
            assert forall|e: Env| #![trigger here(g3, e)]
                !ir::current_terminated(g3.f) implies reaches(
                w,
                blocks,
                here(g3, e),
                here(h, e),
            ) by {
                running::lemma_fell(w, g3, end, blocks, e);
                running::lemma_opened(last, end, blocks, e);
            }
            assert forall|e: Env| #![trigger here(g0, e)]
                reaches(
                    w,
                    blocks,
                    here(g0, e),
                    if machine::is_true(machine::value_of(w, e, c)) {
                        here(g2, e)
                    } else if other is Some {
                        here(r.no, e)
                    } else {
                        here(h, e)
                    },
                ) by {
                running::lemma_emitted(w, g1, jump, blocks, e);
                running::lemma_opened(j1, yes, blocks, e);
                running::lemma_opened(last, end, blocks, e);
                if other is Some {
                    running::lemma_opened(g4, no, blocks, e);
                }
            }
            r
        },
        _ => arbitrary(),
    }
}

} // verus!
