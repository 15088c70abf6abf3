//! What generated functions do before their bodies and behind them.

use vstd::prelude::*;
use crate::assoc;
use crate::ast::{Statement, TypedIdentifier};
use crate::ir;
use crate::ir::{Fun, Inst, Value};
use crate::machine;
use crate::machine::{Env, Val, World};
use crate::running;
use crate::running::effects;
use crate::running::{any, here, part, reaches, Blocks, Conf};
use crate::shape;
use crate::shape::programs;
use crate::translation;
use crate::translation::{Cg, G};
use crate::types;
use crate::types::{AzulaType, Ty};

verus! {

/// Memory after the arguments from position `k` on are stored in the variables of their
/// names.
pub open spec fn spilled(w: World, memory: Map<int, Val>, args: Seq<(Seq<char>, Ty)>, k: int) -> Map<
    int,
    Val,
>
    decreases args.len() - k,
{
    if k < 0 || k >= args.len() {
        memory
    } else {
        spilled(
            w,
            memory.insert(
                (w.place)(args[k].0),
                machine::fitted((w.argument)(k as usize), (w.kind)(args[k].1)),
            ),
            args,
            k + 1,
        )
    }
}

/// Arguments are stored in the variables of their names.
proof fn lemma_spill(w: World, g: G, f: Fun, k: int, last: G, blocks: Blocks, e: Env) -> (after: Env)
    requires
        0 <= k,
        shape::sound(g),
        g.f == programs::with_variables(f, g.f.variables),
        forall|j: int|
            k <= j < f.arguments.len() ==> assoc::defined(
                g.f.variables,
                (#[trigger] f.arguments[j]).0,
            ),
        translation::spill(f, k) matches Some(h) && last == (G {
            f: programs::with_variables(h, g.f.variables),
            ..g
        }),
        part(last, blocks),
    ensures
        part(g, blocks),
        reaches(w, blocks, here(g, e), here(last, after)),
        after.memory == spilled(w, e.memory, f.arguments, k),
        after.events == e.events,
    decreases f.arguments.len() - k,
{
    if k < f.arguments.len() {
        let name = f.arguments[k].0;
        let t = f.arguments[k].1;
        let load = Inst::LoadArg(k as usize, g.f.registers, t);
        let (next, d, v) = lemma_one_argument(g, f, k);
        let store = Inst::Store(name, v, t);
        let x = translation::emit(d, store);
        let e1 = machine::performed(w, e, load);
        let e2 = machine::performed(w, e1, store);
        let e3 = lemma_spill(w, x, next, k + 1, last, blocks, e2);
        running::lemma_emitted(w, d, store, blocks, e1);
        running::lemma_defined(w, g, load, d, v, blocks, e);
        running::lemma_on(w, blocks, here(g, e), here(d, e1), here(x, e2));
        running::lemma_on(w, blocks, here(g, e), here(x, e2), here(last, e3));
        e3
    } else {
        assert(last == g) by {
            reveal(translation::spill);
        }
        running::lemma_here(w, blocks, here(g, e));
        e
    }
}

/// The code of one argument.
proof fn lemma_one_argument(g: G, f: Fun, k: int) -> (r: (Fun, G, Value))
    requires
        0 <= k < f.arguments.len(),
        shape::sound(g),
        g.f == programs::with_variables(f, g.f.variables),
        assoc::defined(g.f.variables, f.arguments[k].0),
        translation::spill(f, k) is Some,
    ensures
        ({
            let (next, d, v) = r;
            let name = f.arguments[k].0;
            let t = f.arguments[k].1;
            let x = translation::emit(d, Inst::Store(name, v, t));
            &&& translation::def(g, Inst::LoadArg(k as usize, g.f.registers, t)) == Some((d, v))
            &&& shape::sound(d)
            &&& shape::sound(x)
            &&& x.f == programs::with_variables(next, g.f.variables)
            &&& x.f.variables == g.f.variables
            &&& x.cg == g.cg
            &&& next.arguments == f.arguments
            &&& translation::spill(f, k) == translation::spill(next, k + 1)
        }),
{
    reveal_with_fuel(translation::spill, 2);
    running::lemma_ready(g);
    let name = f.arguments[k].0;
    let t = f.arguments[k].1;
    let all = g.f.variables;
    let load = Inst::LoadArg(k as usize, f.registers, t);
    shape::lemma_def(g, g, load, any());
    let (c, v) = ir::defining(f, load)->0;
    let d = G { f: programs::with_variables(c, all), ..g };
    assert(translation::def(g, load) == Some((d, v)) && c.arguments == f.arguments) by {
        reveal(ir::defining);
        reveal(ir::appended);
    }
    let store = Inst::Store(name, v, t);
    shape::lemma_emit(g, d, store, any());
    programs::lemma_appended_apart(c, store, all);
    let stored = ir::appended(c, store);
    let next = Fun { variables: assoc::put(stored.variables, name, t), ..stored };
    assert(translation::emit(d, store).f == programs::with_variables(next, all));
    assert(next.arguments == f.arguments) by {
        reveal(ir::appended);
    }
    (next, d, v)
}

/// The statements of a body.
pub open spec fn statements_of<'a>(body: Statement<'a>) -> Seq<Statement<'a>> {
    match body {
        Statement::Block(ss) => ss@,
        _ => Seq::empty(),
    }
}

/// A function starts in its first block. There each argument is stored in the variable of
/// its name, in the order in which they are declared, and then the statements of the body
/// are run, one after the other.
pub proof fn lemma_define(
    w: World,
    cg: Cg,
    name: Seq<char>,
    args: Seq<TypedIdentifier>,
    result: AzulaType,
    body: Statement,
    after: Cg,
    blocks: Blocks,
    e: Env,
) -> (r: (G, Seq<G>, Env))
    requires
        programs::outside_loops(cg),
        translation::define(cg, name, args, result, body) == Some(after),
        assoc::get(after.module.functions, name) matches Some(f) && shape::code_kept(
            f.blocks,
            blocks,
        ),
        assoc::distinct(blocks),
    ensures
        assoc::get(after.module.functions, name) == Some(r.1.last().f),
        effects::in_turn(r.0, statements_of(body), r.1),
        part(r.0, blocks),
        part(r.1.last(), blocks),
        r.0.cg.scopes == seq![Seq::<(Seq<char>, Seq<char>)>::empty()],
        translation::spill(
            translation::blank(translation::arguments_of(args), types::ty_of(result)),
            0,
        ) == Some(r.0.f),
        translation::stmts(r.0, statements_of(body), 0) == Some(r.1.last()),
        forall|k: int|
            0 <= k < args.len() ==> translation::lookup(r.0, (#[trigger] args[k]).1@) == Some(
                args[k].1@,
            ),
        reaches(w, blocks, Conf::At("entry"@, 0, e), here(r.0, r.2)),
        r.2.memory == spilled(w, e.memory, translation::arguments_of(args), 0),
        r.2.events == e.events,
{
    reveal(translation::define);
    let start = translation::blank(translation::arguments_of(args), types::ty_of(result));
    let inner = Cg { scopes: seq![Seq::empty()], declared: Seq::empty(), ..cg };
    let f = translation::spill(start, 0)->0;
    let h = G { cg: inner, f };
    let g = G { cg: inner, f: programs::with_variables(start, f.variables) };
    programs::lemma_blank(g.cg, g.f);
    shape::lemma_start(g, Set::empty());
    programs::lemma_spilled(start, 0);
    programs::lemma_spill(g, g, start, 0);
    assert(programs::with_variables(f, f.variables) == f);
    let ss = statements_of(body);
    let k = translation::stmts(h, ss, 0)->0;
    let places = effects::lemma_in_turn(h, ss, 0, seq![h], k);
    assoc::lemma_put_get(k.cg.module.functions, name, k.f, name);
    assert(part(k, blocks));
    running::lemma_part(h, k, blocks);
    let e1 = lemma_spill(w, g, start, 0, h, blocks, e);
    assert(here(g, e) == Conf::At("entry"@, 0, e));
    assert forall|j: int| 0 <= j < args.len() implies translation::lookup(
        h,
        (#[trigger] args[j]).1@,
    ) == Some(args[j].1@) by {
        reveal(translation::lookup);
        reveal_with_fuel(translation::scoped, 2);
        assert(start.arguments[j].0 == args[j].1@);
        assert(h.cg.scopes[0] == Seq::<(Seq<char>, Seq<char>)>::empty());
        assoc::lemma_absent(h.cg.scopes[0], args[j].1@);
        assert(assoc::defined(f.variables, start.arguments[j].0));
    }
    (h, places, e1)
}

/// The blocks of a function stay as they are when those that have no end are ended.
pub proof fn lemma_ended(f: Fun)
    ensures
        shape::code_kept(f.blocks, ir::ended(f).blocks),
        assoc::distinct(f.blocks) ==> assoc::distinct(ir::ended(f).blocks),
{
    reveal(shape::code_kept);
    let b = ir::ended(f).blocks;
    assert forall|i: int, j: int| assoc::distinct(f.blocks) && 0 <= i < j < b.len() implies (
    #[trigger] b[i]).0 != (#[trigger] b[j]).0 by {
        assert(f.blocks[i].0 != f.blocks[j].0);
    }
}

/// A function that comes to the end of its body returns, if it has nothing to give back,
/// and else goes nowhere.
pub proof fn lemma_falls_off(w: World, g: G, e: Env)
    requires
        shape::sound(g),
        !ir::current_terminated(g.f),
    ensures
        reaches(
            w,
            ir::ended(g.f).blocks,
            here(g, e),
            if g.f.result is Void {
                Conf::Done(None, e)
            } else {
                Conf::Stopped(e)
            },
        ),
{
    reveal(shape::sound);
    reveal(ir::current_terminated);
    let f = g.f;
    let b = ir::ended(f).blocks;
    let last = f.blocks.len() - 1;
    assert(assoc::first_at(f.blocks, f.current, last)) by {
        assert forall|j: int| 0 <= j < last implies (#[trigger] f.blocks[j]).0 != f.current by {
            assert(f.blocks[j].0 != f.blocks[last].0);
        }
    }
    assoc::lemma_first_at(f.blocks, f.current, last);
    assert(assoc::first_at(b, f.current, last)) by {
        assert forall|j: int| 0 <= j < last implies (#[trigger] b[j]).0 != f.current by {
            assert(f.blocks[j].0 != f.blocks[last].0);
        }
    }
    assoc::lemma_first_at(b, f.current, last);
    running::lemma_next(w, b, here(g, e));
}

} // verus!
