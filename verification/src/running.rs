//! Running generated functions: which instruction comes after which, and what becomes of
//! registers and memory on the way.
//!
//! The laws for a construct name the places in its code: the states of generation before
//! and behind the code of its parts. Of each they say where control goes from there, for
//! every state of registers and memory that it gets there with. [`meaning`] and
//! [`conduct`] put them together: they say what programs mean, and that generated code does
//! what they mean.

pub mod conduct;
pub mod control;
pub mod effects;
pub mod functions;
pub mod matches;
pub mod meaning;
pub mod objects;
pub mod places;
pub mod tuples;
pub mod values;

use vstd::prelude::*;
use crate::assoc;
use crate::ir;
use crate::ir::{Inst, Value};
use crate::machine;
use crate::machine::{Env, Val, World};
use crate::shape;
use crate::translation;
use crate::translation::G;

verus! {

/// The blocks of a function.
pub type Blocks = Seq<(Seq<char>, Seq<Inst>)>;

/// Where a running function is.
pub enum Conf {
    /// In a block, before the instruction of that number
    At(Seq<char>, int, Env),
    /// At its end, with what it gives back
    Done(Option<Val>, Env),
    /// Where nothing comes next
    Stopped(Env),
}

/// Where a function is after an instruction of the block `name`, before which it was at
/// position `k`.
pub open spec fn after(w: World, name: Seq<char>, k: int, i: Inst, e: Env) -> Conf {
    match i {
        Inst::Jump(target) => Conf::At(target, 0, e),
        Inst::Jcond(c, yes, no) => Conf::At(
            if machine::is_true(machine::value_of(w, e, c)) {
                yes
            } else {
                no
            },
            0,
            e,
        ),
        Inst::Return(v) => Conf::Done(
            match v {
                Some(v) => Some(machine::value_of(w, e, v)),
                None => None,
            },
            e,
        ),
        Inst::Unreachable => Conf::Stopped(e),
        _ => Conf::At(name, k + 1, machine::performed(w, e, i)),
    }
}

/// Where a function is one instruction later.
pub open spec fn next(w: World, blocks: Blocks, c: Conf) -> Conf {
    match c {
        Conf::At(name, k, e) => match assoc::get(blocks, name) {
            Some(code) => if 0 <= k < code.len() {
                after(w, name, k, code[k], e)
            } else {
                Conf::Stopped(e)
            },
            None => Conf::Stopped(e),
        },
        _ => c,
    }
}

/// Where a function is `n` instructions later.
pub open spec fn later(w: World, blocks: Blocks, c: Conf, n: nat) -> Conf
    decreases n,
{
    if n == 0 {
        c
    } else {
        later(w, blocks, next(w, blocks, c), (n - 1) as nat)
    }
}

/// Whether a function that is at `a` gets to `b`.
pub open spec fn reaches(w: World, blocks: Blocks, a: Conf, b: Conf) -> bool {
    exists|n: nat| #[trigger] later(w, blocks, a, n) == b
}

/// A function is where it is.
pub proof fn lemma_here(w: World, blocks: Blocks, a: Conf)
    ensures
        reaches(w, blocks, a, a),
{
    assert(later(w, blocks, a, 0) == a);
}

/// A function gets to where it is next.
pub proof fn lemma_next(w: World, blocks: Blocks, a: Conf)
    ensures
        reaches(w, blocks, a, next(w, blocks, a)),
{
    reveal_with_fuel(later, 2);
    assert(later(w, blocks, a, 1) == next(w, blocks, a));
}

/// Instructions are run one after the other.
proof fn lemma_later(w: World, blocks: Blocks, a: Conf, m: nat, n: nat)
    ensures
        later(w, blocks, a, m + n) == later(w, blocks, later(w, blocks, a, m), n),
    decreases m,
{
    if m > 0 {
        lemma_later(w, blocks, next(w, blocks, a), (m - 1) as nat, n);
    }
}

/// A function that gets from `a` to `b` and from there to `c` gets from `a` to `c`.
pub proof fn lemma_on(w: World, blocks: Blocks, a: Conf, b: Conf, c: Conf)
    requires
        reaches(w, blocks, a, b),
        reaches(w, blocks, b, c),
    ensures
        reaches(w, blocks, a, c),
{
    let m = choose|m: nat| #[trigger] later(w, blocks, a, m) == b;
    let n = choose|n: nat| #[trigger] later(w, blocks, b, n) == c;
    lemma_later(w, blocks, a, m, n);
}

/// A function that has come to its end stays there.
proof fn lemma_done(w: World, blocks: Blocks, a: Conf, n: nat)
    requires
        !(a is At),
    ensures
        later(w, blocks, a, n) == a,
    decreases n,
{
    if n > 0 {
        lemma_done(w, blocks, a, (n - 1) as nat);
    }
}

/// A function comes to one end only.
pub proof fn lemma_one_end(w: World, blocks: Blocks, a: Conf, b: Conf, c: Conf)
    requires
        reaches(w, blocks, a, b),
        reaches(w, blocks, a, c),
        !(b is At),
        !(c is At),
    ensures
        b == c,
{
    let m = choose|m: nat| #[trigger] later(w, blocks, a, m) == b;
    let n = choose|n: nat| #[trigger] later(w, blocks, a, n) == c;
    if m <= n {
        lemma_later(w, blocks, a, m, (n - m) as nat);
        lemma_done(w, blocks, b, (n - m) as nat);
    } else {
        lemma_later(w, blocks, a, n, (m - n) as nat);
        lemma_done(w, blocks, c, (m - n) as nat);
    }
}

// ---------------------------------------------------------------------------
// Functions that are being generated

/// The place behind the code that has been generated so far.
pub open spec fn here(g: G, e: Env) -> Conf {
    Conf::At(g.f.current, g.f.blocks.last().1.len() as int, e)
}

/// Whether the code that has been generated so far is part of a function.
pub open spec fn part(g: G, blocks: Blocks) -> bool {
    &&& shape::sound(g)
    &&& shape::code_kept(g.f.blocks, blocks)
    &&& assoc::distinct(blocks)
}

/// Blocks of any name may be opened later.
pub open spec fn any() -> Set<Seq<char>> {
    Set::full()
}

/// A function of the right shape can be added to.
pub proof fn lemma_ready(g: G)
    requires
        shape::sound(g),
    ensures
        shape::ready(g, any()),
        shape::leads(g, g, any()),
{
    reveal(shape::loops_in);
    shape::lemma_start(g, any());
}

/// What leads on to a part of a function is a part of it.
pub proof fn lemma_part(a: G, b: G, blocks: Blocks)
    requires
        shape::sound(a),
        shape::leads(a, b, any()),
        part(b, blocks),
    ensures
        part(a, blocks),
{
    shape::lemma_code_kept(a, b, any());
    shape::lemma_code_then(a.f.blocks, b.f.blocks, blocks);
}

/// What is the same but for names and numbers is a part of the same function.
pub proof fn lemma_same_code(a: G, b: G, blocks: Blocks)
    requires
        shape::sound(a),
        a.f.blocks == b.f.blocks,
        part(b, blocks),
    ensures
        part(a, blocks),
{
}

/// The code of an instruction that has been added.
pub proof fn lemma_added(w: World, g: G, i: Inst, h: G, blocks: Blocks, e: Env)
    requires
        shape::sound(g),
        h.f.blocks == translation::emit(g, i).f.blocks,
        h.f.current == g.f.current,
        shape::code_kept(h.f.blocks, blocks),
        assoc::distinct(blocks),
    ensures
        part(g, blocks),
        next(w, blocks, here(g, e)) == after(
            w,
            g.f.current,
            g.f.blocks.last().1.len() as int,
            i,
            e,
        ),
        reaches(
            w,
            blocks,
            here(g, e),
            after(w, g.f.current, g.f.blocks.last().1.len() as int, i, e),
        ),
        !ir::ends_block(i) ==> reaches(
            w,
            blocks,
            here(g, e),
            here(h, machine::performed(w, e, i)),
        ),
        h.f.blocks.last().1.len() == g.f.blocks.last().1.len() + 1,
{
    reveal(shape::sound);
    reveal(shape::code_kept);
    reveal(ir::appended);
    let f = g.f;
    let last = f.blocks.len() - 1;
    assert(assoc::first_at(f.blocks, f.current, last)) by {
        assert forall|j: int| 0 <= j < last implies (#[trigger] f.blocks[j]).0 != f.current by {
            assert(f.blocks[j].0 != f.blocks[last].0);
        }
    }
    assoc::lemma_first_at(f.blocks, f.current, last);
    let n = f.blocks[last].1.len() as int;
    let more = f.blocks.update(last, (f.blocks[last].0, f.blocks[last].1.push(i)));
    assert(h.f.blocks == more);
    assert(shape::code_kept(f.blocks, more));
    shape::lemma_code_then(f.blocks, more, blocks);
    assert(blocks[last].0 == f.current);
    assert(assoc::first_at(blocks, f.current, last)) by {
        assert forall|j: int| 0 <= j < last implies (#[trigger] blocks[j]).0 != f.current by {
            assert(blocks[j].0 != blocks[last].0);
        }
    }
    assoc::lemma_first_at(blocks, f.current, last);
    assert(more.last().1[n] == i);
    assert(blocks[last].1[n] == i);
    lemma_next(w, blocks, here(g, e));
}

/// An instruction without a register.
pub proof fn lemma_emitted(w: World, g: G, i: Inst, blocks: Blocks, e: Env)
    requires
        shape::sound(g),
        shape::code_kept(translation::emit(g, i).f.blocks, blocks),
        assoc::distinct(blocks),
    ensures
        part(g, blocks),
        reaches(
            w,
            blocks,
            here(g, e),
            after(w, g.f.current, g.f.blocks.last().1.len() as int, i, e),
        ),
        !ir::ends_block(i) ==> reaches(
            w,
            blocks,
            here(g, e),
            here(translation::emit(g, i), machine::performed(w, e, i)),
        ),
{
    reveal(ir::appended);
    lemma_added(w, g, i, translation::emit(g, i), blocks, e);
}

/// An instruction with a register.
pub proof fn lemma_defined(w: World, g: G, i: Inst, h: G, v: Value, blocks: Blocks, e: Env)
    requires
        shape::sound(g),
        translation::def(g, i) == Some((h, v)),
        shape::code_kept(h.f.blocks, blocks),
        assoc::distinct(blocks),
        !ir::ends_block(i),
    ensures
        part(g, blocks),
        reaches(w, blocks, here(g, e), here(h, machine::performed(w, e, i))),
        v == Value::Local(g.f.registers),
{
    reveal(ir::defining);
    reveal(ir::appended);
    lemma_added(w, g, i, h, blocks, e);
}

/// The start of a block.
pub proof fn lemma_opened(g: G, name: Seq<char>, blocks: Blocks, e: Env)
    requires
        shape::sound(g),
        shape::code_kept(translation::block(g, name).f.blocks, blocks),
        assoc::distinct(blocks),
    ensures
        part(g, blocks),
        here(translation::block(g, name), e) == Conf::At(name, 0, e),
{
    reveal(ir::opened);
    shape::lemma_code_opened(g.f.blocks, name);
    shape::lemma_code_then(g.f.blocks, translation::block(g, name).f.blocks, blocks);
}

/// The end of code that goes on at `target`.
pub proof fn lemma_fell(w: World, g: G, target: Seq<char>, blocks: Blocks, e: Env)
    requires
        shape::sound(g),
        shape::code_kept(translation::fall_to(g, target).f.blocks, blocks),
        assoc::distinct(blocks),
    ensures
        part(g, blocks),
        !ir::current_terminated(g.f) ==> reaches(
            w,
            blocks,
            here(g, e),
            Conf::At(target, 0, e),
        ),
{
    reveal(translation::fall_to);
    if !ir::current_terminated(g.f) {
        lemma_emitted(w, g, Inst::Jump(target), blocks, e);
    }
}

} // verus!
