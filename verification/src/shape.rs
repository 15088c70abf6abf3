//! The shape of generated functions, and the steps that keep it.
//!
//! A function is made of blocks with different names, of which the last is the one
//! that instructions are added to. In the order in which they were added, the
//! instructions write the registers one after the other, and read only registers
//! that were written before. They name only variables that the function declares,
//! and go only to blocks that there are.

pub mod expressions;
pub mod numbers;
pub mod parts;
pub mod programs;
pub mod scopes;
pub mod statements;
pub mod stores;

use vstd::prelude::*;
use crate::assoc;
use crate::ir;
use crate::ir::{Fun, Inst, Mod, Value};
use crate::labels;
use crate::labels::Label;
use crate::translation;
use crate::translation::{Cg, G};
use crate::types::Ty;

verus! {

// ---------------------------------------------------------------------------
// Instructions

/// The register that an instruction writes.
pub open spec fn dest(i: Inst) -> Option<usize> {
    match i {
        Inst::Load(_, d, _) => Some(d),
        Inst::LoadGlobal(_, d, _) => Some(d),
        Inst::LoadArg(_, d, _) => Some(d),
        Inst::Store(..) => None,
        Inst::ConstInt(_, d) => Some(d),
        Inst::ConstFloat(_, d) => Some(d),
        Inst::ConstTrue(d) => Some(d),
        Inst::ConstFalse(d) => Some(d),
        Inst::ConstNull(d) => Some(d),
        Inst::Add(_, _, d) => Some(d),
        Inst::Sub(_, _, d) => Some(d),
        Inst::Mul(_, _, d) => Some(d),
        Inst::Div(_, _, d) => Some(d),
        Inst::Mod(_, _, d) => Some(d),
        Inst::Pow(_, _, d) => Some(d),
        Inst::Or(_, _, d) => Some(d),
        Inst::And(_, _, d) => Some(d),
        Inst::Eq(_, _, d) => Some(d),
        Inst::Neq(_, _, d) => Some(d),
        Inst::Lt(_, _, d) => Some(d),
        Inst::Lte(_, _, d) => Some(d),
        Inst::Gt(_, _, d) => Some(d),
        Inst::Gte(_, _, d) => Some(d),
        Inst::BitAnd(_, _, d) => Some(d),
        Inst::BitOr(_, _, d) => Some(d),
        Inst::BitXor(_, _, d) => Some(d),
        Inst::Shl(_, _, d) => Some(d),
        Inst::Shr(_, _, d) => Some(d),
        Inst::Not(_, d) => Some(d),
        Inst::Return(_) => None,
        Inst::Unreachable => None,
        Inst::FunctionCall(_, _, d) => Some(d),
        Inst::FunctionAddress(_, d) => Some(d),
        Inst::IndirectCall(_, _, _, _, d) => Some(d),
        Inst::Jump(_) => None,
        Inst::Jcond(..) => None,
        Inst::SizeOf(_, d) => Some(d),
        Inst::ElementPtr(_, _, d, _) => Some(d),
        Inst::Pointer(_, d) => Some(d),
        Inst::CreateArray(_, _, d) => Some(d),
        Inst::StoreElement(..) => None,
        Inst::AccessElement(_, _, d, _) => Some(d),
        Inst::StoreStructMember(..) => None,
        Inst::CreateStruct(_, _, d) => Some(d),
        Inst::AccessStructMember(_, _, d, _, _) => Some(d),
        Inst::Cast(_, _, d) => Some(d),
    }
}

/// The values that an instruction reads.
pub open spec fn operands(i: Inst) -> Seq<Value> {
    match i {
        Inst::Store(_, v, _) => seq![v],
        Inst::Add(a, b, _) => seq![a, b],
        Inst::Sub(a, b, _) => seq![a, b],
        Inst::Mul(a, b, _) => seq![a, b],
        Inst::Div(a, b, _) => seq![a, b],
        Inst::Mod(a, b, _) => seq![a, b],
        Inst::Pow(a, b, _) => seq![a, b],
        Inst::Or(a, b, _) => seq![a, b],
        Inst::And(a, b, _) => seq![a, b],
        Inst::Eq(a, b, _) => seq![a, b],
        Inst::Neq(a, b, _) => seq![a, b],
        Inst::Lt(a, b, _) => seq![a, b],
        Inst::Lte(a, b, _) => seq![a, b],
        Inst::Gt(a, b, _) => seq![a, b],
        Inst::Gte(a, b, _) => seq![a, b],
        Inst::BitAnd(a, b, _) => seq![a, b],
        Inst::BitOr(a, b, _) => seq![a, b],
        Inst::BitXor(a, b, _) => seq![a, b],
        Inst::Shl(a, b, _) => seq![a, b],
        Inst::Shr(a, b, _) => seq![a, b],
        Inst::Not(v, _) => seq![v],
        Inst::Return(Some(v)) => seq![v],
        Inst::FunctionCall(_, vs, _) => vs,
        Inst::IndirectCall(c, vs, _, _, _) => seq![c] + vs,
        Inst::Jcond(c, _, _) => seq![c],
        Inst::ElementPtr(a, i, _, _) => seq![a, i],
        Inst::StoreElement(a, i, v, _) => seq![a, i, v],
        Inst::AccessElement(a, i, _, _) => seq![a, i],
        Inst::StoreStructMember(s, _, v, _) => seq![s, v],
        Inst::CreateStruct(_, vs, _) => vs,
        Inst::AccessStructMember(s, _, _, _, _) => seq![s],
        Inst::Cast(v, _, _) => seq![v],
        _ => Seq::empty(),
    }
}

/// The blocks that an instruction goes to.
pub open spec fn targets(i: Inst) -> Seq<Seq<char>> {
    match i {
        Inst::Jump(t) => seq![t],
        Inst::Jcond(_, t, f) => seq![t, f],
        _ => Seq::empty(),
    }
}

/// The variable that an instruction names.
pub open spec fn variable(i: Inst) -> Option<Seq<char>> {
    match i {
        Inst::Load(n, _, _) => Some(n),
        Inst::Store(n, _, _) => Some(n),
        Inst::Pointer(n, _) => Some(n),
        _ => None,
    }
}

/// Whether a value can be read once `n` registers are written.
pub open spec fn in_use(v: Value, n: nat) -> bool {
    match v {
        Value::Local(r) => r < n,
        _ => true,
    }
}

/// Whether values can be read once `n` registers are written.
pub open spec fn all_in_use(vs: Seq<Value>, n: nat) -> bool {
    forall|k: int| 0 <= k < vs.len() ==> in_use(#[trigger] vs[k], n)
}

/// The number of registers that instructions write.
pub open spec fn written(s: Seq<Inst>) -> nat
    decreases s.len(),
{
    if s.len() == 0 {
        0
    } else {
        written(s.drop_last()) + if dest(s.last()) is Some {
            1nat
        } else {
            0nat
        }
    }
}

/// Whether instructions write the registers one after the other, and read only
/// registers that were written before.
pub open spec fn in_order(s: Seq<Inst>) -> bool
    decreases s.len(),
{
    s.len() == 0 || {
        &&& in_order(s.drop_last())
        &&& all_in_use(operands(s.last()), written(s.drop_last()))
        &&& dest(s.last()) matches Some(d) ==> d == written(s.drop_last())
    }
}

/// The instructions of blocks, one after the other.
pub open spec fn flat(blocks: Seq<(Seq<char>, Seq<Inst>)>) -> Seq<Inst>
    decreases blocks.len(),
{
    if blocks.len() == 0 {
        Seq::empty()
    } else {
        flat(blocks.drop_last()) + blocks.last().1
    }
}

// ---------------------------------------------------------------------------
// Functions

/// Whether a label has a number from `i0` to `i1`, or from `m0` to `m1` if it is that
/// of a match.
pub open spec fn within(l: Label, i0: int, i1: int, m0: int, m1: int) -> bool {
    match l {
        Label::Part(_, n) => i0 <= n < i1,
        Label::MatchEnd(n) => m0 <= n < m1,
        Label::MatchArm(n, _) => m0 <= n < m1,
        Label::MatchNext(n, _) => m0 <= n < m1,
        Label::MatchTest(n, _, _) => m0 <= n < m1,
    }
}

/// Whether a name is that of a label with such a number.
pub open spec fn marked(x: Seq<char>, i0: int, i1: int, m0: int, m1: int) -> bool {
    exists|l: Label| #[trigger] labels::named(l) == x && within(l, i0, i1, m0, m1)
}

/// Whether the blocks of a function have different names, the first is the entry, and
/// the last is the current one.
pub open spec fn blocks_sound(f: Fun) -> bool {
    &&& f.blocks.len() > 0
    &&& f.blocks[0].0 == "entry"@
    &&& f.current == f.blocks.last().0
    &&& assoc::distinct(f.blocks)
    &&& forall|k: int|
        1 <= k < f.blocks.len() ==> marked(
            (#[trigger] f.blocks[k]).0,
            0,
            f.if_index as int,
            0,
            f.match_index as int,
        )
}

/// Whether instructions name only declared variables.
pub open spec fn names_declared(s: Seq<Inst>, variables: Seq<(Seq<char>, Ty)>) -> bool {
    forall|k: int|
        0 <= k < s.len() ==> (variable(#[trigger] s[k]) matches Some(x) ==> assoc::defined(
            variables,
            x,
        ))
}

/// Whether the instructions of a function write its registers in order, and name only
/// variables that it declares.
pub open spec fn code_sound(f: Fun) -> bool {
    &&& in_order(flat(f.blocks))
    &&& written(flat(f.blocks)) == f.registers
    &&& names_declared(flat(f.blocks), f.variables)
}

/// Whether scopes hold only names of declared variables.
pub open spec fn scopes_sound(
    scopes: Seq<Seq<(Seq<char>, Seq<char>)>>,
    variables: Seq<(Seq<char>, Ty)>,
) -> bool {
    forall|k: int, j: int|
        0 <= k < scopes.len() && 0 <= j < scopes[k].len() ==> assoc::defined(
            variables,
            (#[trigger] scopes[k][j]).1,
        )
}

/// Whether a function that is being generated has the shape that it is to have.
#[verifier::opaque]
pub open spec fn sound(g: G) -> bool {
    &&& blocks_sound(g.f)
    &&& code_sound(g.f)
    &&& scopes_sound(g.cg.scopes, g.f.variables)
}

/// Whether `break` and `continue` go to blocks in `ahead`.
#[verifier::opaque]
pub open spec fn loops_in(cg: Cg, ahead: Set<Seq<char>>) -> bool {
    &&& forall|k: int| 0 <= k < cg.loop_ends.len() ==> ahead.contains(#[trigger] cg.loop_ends[k])
    &&& forall|k: int|
        0 <= k < cg.loop_continues.len() ==> ahead.contains(#[trigger] cg.loop_continues[k])
}

/// Whether generation can go on, with blocks in `ahead` to be opened later.
pub open spec fn ready(g: G, ahead: Set<Seq<char>>) -> bool {
    sound(g) && loops_in(g.cg, ahead)
}

/// Whether `b` holds what `a` holds and more.
pub open spec fn extends<T>(a: Seq<T>, b: Seq<T>) -> bool {
    a.len() <= b.len() && forall|k: int| 0 <= k < a.len() ==> b[k] == #[trigger] a[k]
}

/// Whether the blocks in `b` are those in `a`, by name, and more.
pub open spec fn more_blocks(a: Seq<(Seq<char>, Seq<Inst>)>, b: Seq<(Seq<char>, Seq<Inst>)>) -> bool {
    a.len() <= b.len() && forall|k: int| 0 <= k < a.len() ==> (#[trigger] b[k]).0 == a[k].0
}

/// Whether the blocks in `b` are those in `a`, with instructions added behind those that
/// they have, and more.
#[verifier::opaque]
pub open spec fn code_kept(a: Seq<(Seq<char>, Seq<Inst>)>, b: Seq<(Seq<char>, Seq<Inst>)>) -> bool {
    &&& more_blocks(a, b)
    &&& forall|k: int| 0 <= k < a.len() ==> extends(a[k].1, (#[trigger] b[k]).1)
}

/// Whether an instruction goes only to blocks that there are, or that are to be
/// opened.
pub open spec fn aims(
    i: Inst,
    blocks: Seq<(Seq<char>, Seq<Inst>)>,
    ahead: Set<Seq<char>>,
) -> bool {
    forall|j: int|
        0 <= j < targets(i).len() ==> ahead.contains(#[trigger] targets(i)[j]) || assoc::defined(
            blocks,
            targets(i)[j],
        )
}

/// Whether a name is that of a variable that generation makes for itself.
pub open spec fn is_temporary(x: Seq<char>) -> bool {
    exists|prefix: Seq<char>, n: usize|
        x == #[trigger] translation::label(prefix, n) && (prefix == "__match_"@ || prefix
            == "__sc_"@ || prefix == "__tmp_"@)
}

/// Whether of the variables in `a` the same are declared in `b`, and those that are
/// new in `b` are declared, or temporaries.
#[verifier::opaque]
pub open spec fn names_kept(
    a: Seq<(Seq<char>, Ty)>,
    declared_a: Seq<Seq<char>>,
    b: Seq<(Seq<char>, Ty)>,
    declared_b: Seq<Seq<char>>,
) -> bool {
    forall|x: Seq<char>| #[trigger]
        assoc::defined(b, x) ==> if assoc::defined(a, x) {
            declared_b.contains(x) == declared_a.contains(x)
        } else {
            declared_b.contains(x) || is_temporary(x)
        }
}

/// What generation adds to a function: blocks with labels that were not used before,
/// instructions behind those that were there, which go only to blocks that there are
/// or that are to be opened, and variables, which are declared but for temporaries. Of
/// the rest of the program it adds only string constants.
#[verifier::opaque]
pub open spec fn extended(a: G, b: G, ahead: Set<Seq<char>>) -> bool {
    &&& more_blocks(a.f.blocks, b.f.blocks)
    &&& forall|k: int|
        a.f.blocks.len() <= k < b.f.blocks.len() ==> marked(
            (#[trigger] b.f.blocks[k]).0,
            a.f.if_index as int,
            b.f.if_index as int,
            a.f.match_index as int,
            b.f.match_index as int,
        )
    &&& code_kept(a.f.blocks, b.f.blocks)
    &&& extends(flat(a.f.blocks), flat(b.f.blocks))
    &&& forall|k: int|
        flat(a.f.blocks).len() <= k < flat(b.f.blocks).len() ==> aims(
            #[trigger] flat(b.f.blocks)[k],
            b.f.blocks,
            ahead,
        )
    &&& forall|x: Seq<char>|
        assoc::defined(a.f.variables, x) ==> #[trigger] assoc::defined(b.f.variables, x)
    &&& names_kept(
        a.f.variables,
        a.cg.declared,
        b.f.variables,
        b.cg.declared,
    )
    &&& a.f.arguments == b.f.arguments
    &&& a.f.result == b.f.result
    &&& extends(a.cg.module.strings, b.cg.module.strings)
    &&& b.cg.module == (Mod { strings: b.cg.module.strings, ..a.cg.module })
    &&& a.cg.signatures == b.cg.signatures
}

/// Whether the loops that generation is in are the same, and the scopes but for what
/// the innermost one declares.
#[verifier::opaque]
pub open spec fn level(a: G, b: G) -> bool {
    &&& a.cg.loop_ends == b.cg.loop_ends
    &&& a.cg.loop_continues == b.cg.loop_continues
    &&& a.cg.scopes.len() == b.cg.scopes.len()
    &&& forall|k: int|
        0 <= k < a.cg.scopes.len() - 1 ==> (#[trigger] b.cg.scopes[k]) == a.cg.scopes[k]
}

/// Whether generation leads from `a` to `b`, with blocks in `ahead` to be opened
/// later.
pub open spec fn leads(a: G, b: G, ahead: Set<Seq<char>>) -> bool {
    &&& ready(b, ahead)
    &&& extended(a, b, ahead)
    &&& level(a, b)
    &&& a.f.registers <= b.f.registers
    &&& a.f.if_index <= b.f.if_index
    &&& a.f.match_index <= b.f.match_index
}

/// Whether an instruction reads and names only what there is.
pub open spec fn usable(f: Fun, i: Inst) -> bool {
    &&& all_in_use(operands(i), f.registers as nat)
    &&& variable(i) matches Some(x) ==> assoc::defined(f.variables, x)
}

// ---------------------------------------------------------------------------
// Lists

/// Adding an instruction to the last block adds it to all instructions.
proof fn lemma_flat_push(blocks: Seq<(Seq<char>, Seq<Inst>)>, i: Inst)
    requires
        blocks.len() > 0,
    ensures
        ({
            let last = blocks.len() - 1;
            flat(blocks.update(last, (blocks[last].0, blocks[last].1.push(i)))) == flat(
                blocks,
            ).push(i)
        }),
{
    let last = blocks.len() - 1;
    let after = blocks.update(last, (blocks[last].0, blocks[last].1.push(i)));
    assert(after.drop_last() =~= blocks.drop_last());
    assert(flat(after) =~= flat(blocks).push(i));
}

/// Opening a block adds no instruction.
proof fn lemma_flat_open(blocks: Seq<(Seq<char>, Seq<Inst>)>, name: Seq<char>)
    ensures
        flat(blocks.push((name, Seq::empty()))) == flat(blocks),
{
    let after = blocks.push((name, Seq::empty()));
    assert(after.drop_last() =~= blocks);
    assert(flat(after) =~= flat(blocks));
}

/// Whether a name is defined is the same in lists with the same names.
proof fn lemma_same_names<V, W>(a: Seq<(Seq<char>, V)>, b: Seq<(Seq<char>, W)>, x: Seq<char>)
    requires
        a.len() <= b.len(),
        forall|k: int| 0 <= k < a.len() ==> (#[trigger] b[k]).0 == a[k].0,
    ensures
        assoc::defined(a, x) ==> assoc::defined(b, x),
        a.len() == b.len() ==> assoc::defined(a, x) == assoc::defined(b, x),
{
    reveal(assoc::defined);
    if assoc::defined(a, x) {
        let k = choose|k: int| assoc::first_at(a, x, k);
        assert(b[k].0 == x);
        assoc::lemma_present(b, x, k);
    }
    if assoc::defined(b, x) && a.len() == b.len() {
        let k = choose|k: int| assoc::first_at(b, x, k);
        assert(b[k].0 == a[k].0);
        assoc::lemma_present(a, x, k);
    }
}

/// A name that is defined stands somewhere.
pub proof fn lemma_defined_at<V>(a: Seq<(Seq<char>, V)>, x: Seq<char>) -> (k: int)
    requires
        assoc::defined(a, x),
    ensures
        0 <= k < a.len(),
        a[k].0 == x,
{
    reveal(assoc::defined);
    choose|k: int| assoc::first_at(a, x, k)
}

/// What is put under a name defines it, and nothing is lost.
proof fn lemma_put_defined<V>(a: Seq<(Seq<char>, V)>, name: Seq<char>, v: V)
    ensures
        assoc::defined(assoc::put(a, name, v), name),
        forall|x: Seq<char>|
            assoc::defined(a, x) ==> #[trigger] assoc::defined(assoc::put(a, name, v), x),
{
    let b = assoc::put(a, name, v);
    assoc::lemma_put_get(a, name, v, name);
    reveal(assoc::get);
    assert forall|x: Seq<char>| assoc::defined(a, x) implies #[trigger] assoc::defined(b, x) by {
        assoc::lemma_put_get(a, name, v, x);
    }
}

/// The current block is the last one, so an instruction is added there.
proof fn lemma_appended(f: Fun, i: Inst)
    requires
        blocks_sound(f),
    ensures
        ({
            let last = f.blocks.len() - 1;
            ir::appended(f, i) == (Fun {
                blocks: f.blocks.update(last, (f.blocks[last].0, f.blocks[last].1.push(i))),
                ..f
            })
        }),
        flat(ir::appended(f, i).blocks) == flat(f.blocks).push(i),
        more_blocks(f.blocks, ir::appended(f, i).blocks),
        blocks_sound(ir::appended(f, i)),
{
    reveal(ir::appended);
    let last = f.blocks.len() - 1;
    assert(assoc::first_at(f.blocks, f.current, last));
    assoc::lemma_first_at(f.blocks, f.current, last);
    lemma_flat_push(f.blocks, i);
    let after = ir::appended(f, i);
    assert forall|k: int| 1 <= k < after.blocks.len() implies marked(
        (#[trigger] after.blocks[k]).0,
        0,
        f.if_index as int,
        0,
        f.match_index as int,
    ) by {
        assert(after.blocks[k].0 == f.blocks[k].0);
    }
    assert forall|i: int, j: int| 0 <= i < j < after.blocks.len() implies (
    #[trigger] after.blocks[i]).0 != (#[trigger] after.blocks[j]).0 by {
        assert(f.blocks[i].0 != f.blocks[j].0);
    }
}

/// One more instruction keeps the order.
proof fn lemma_in_order(s: Seq<Inst>, i: Inst)
    requires
        in_order(s),
        all_in_use(operands(i), written(s)),
        dest(i) matches Some(d) ==> d == written(s),
    ensures
        in_order(s.push(i)),
        written(s.push(i)) == written(s) + if dest(i) is Some {
            1nat
        } else {
            0nat
        },
{
    assert(s.push(i).drop_last() =~= s);
}

// ---------------------------------------------------------------------------
// Steps

/// Code that is kept in two steps is kept.
pub proof fn lemma_code_then(
    a: Seq<(Seq<char>, Seq<Inst>)>,
    b: Seq<(Seq<char>, Seq<Inst>)>,
    c: Seq<(Seq<char>, Seq<Inst>)>,
)
    requires
        code_kept(a, b),
        code_kept(b, c),
    ensures
        code_kept(a, c),
{
    reveal(code_kept);
    assert forall|k: int| 0 <= k < a.len() implies (#[trigger] c[k]).0 == a[k].0 by {
        assert(b[k].0 == a[k].0);
    }
    assert forall|n: int| 0 <= n < a.len() implies extends(a[n].1, (#[trigger] c[n]).1) by {
        assert(extends(a[n].1, b[n].1));
        assert(extends(b[n].1, c[n].1));
        assert forall|k: int| 0 <= k < a[n].1.len() implies c[n].1[k] == #[trigger] a[n].1[k] by {
            assert(b[n].1[k] == a[n].1[k]);
        }
    }
}

/// Code keeps itself.
pub proof fn lemma_code_same(blocks: Seq<(Seq<char>, Seq<Inst>)>)
    ensures
        code_kept(blocks, blocks),
{
    reveal(code_kept);
}

/// An instruction at the end of the last block keeps the code.
proof fn lemma_code_pushed(blocks: Seq<(Seq<char>, Seq<Inst>)>, i: Inst)
    requires
        blocks.len() > 0,
    ensures
        ({
            let last = blocks.len() - 1;
            code_kept(blocks, blocks.update(last, (blocks[last].0, blocks[last].1.push(i))))
        }),
{
    reveal(code_kept);
}

/// A new block keeps the code.
pub proof fn lemma_code_opened(blocks: Seq<(Seq<char>, Seq<Inst>)>, name: Seq<char>)
    ensures
        code_kept(blocks, blocks.push((name, Seq::empty()))),
{
    reveal(code_kept);
}

/// Generation keeps the code that it has generated.
pub proof fn lemma_code_kept(a: G, b: G, ahead: Set<Seq<char>>)
    requires
        leads(a, b, ahead),
    ensures
        code_kept(a.f.blocks, b.f.blocks),
{
    reveal(extended);
}

/// Generation leads from a state to itself.
pub proof fn lemma_start(g: G, ahead: Set<Seq<char>>)
    requires
        ready(g, ahead),
    ensures
        leads(g, g, ahead),
{
    reveal(extended);
    reveal(code_kept);
    reveal(names_kept);
    reveal(level);
}

/// Names that are kept in two steps are kept.
proof fn lemma_names_then(
    a: Seq<(Seq<char>, Ty)>,
    declared_a: Seq<Seq<char>>,
    b: Seq<(Seq<char>, Ty)>,
    declared_b: Seq<Seq<char>>,
    c: Seq<(Seq<char>, Ty)>,
    declared_c: Seq<Seq<char>>,
)
    requires
        names_kept(a, declared_a, b, declared_b),
        names_kept(b, declared_b, c, declared_c),
        forall|x: Seq<char>| assoc::defined(a, x) ==> #[trigger] assoc::defined(b, x),
    ensures
        names_kept(a, declared_a, c, declared_c),
{
    reveal(names_kept);
    assert forall|x: Seq<char>| #[trigger] assoc::defined(c, x) implies if assoc::defined(a, x) {
        declared_c.contains(x) == declared_a.contains(x)
    } else {
        declared_c.contains(x) || is_temporary(x)
    } by {
        if assoc::defined(b, x) {
        }
    }
}

/// What is defined stays defined.
pub proof fn lemma_kept(a: G, b: G, ahead: Set<Seq<char>>, x: Seq<char>)
    requires
        leads(a, b, ahead),
    ensures
        assoc::defined(a.f.variables, x) ==> assoc::defined(b.f.variables, x),
        assoc::defined(a.f.blocks, x) ==> assoc::defined(b.f.blocks, x),
{
    reveal(extended);
    lemma_same_names(a.f.blocks, b.f.blocks, x);
}

/// A name that is marked stays so when more numbers are allowed.
proof fn lemma_marked(
    x: Seq<char>,
    i0: int,
    i1: int,
    m0: int,
    m1: int,
    j0: int,
    j1: int,
    n0: int,
    n1: int,
)
    requires
        marked(x, i0, i1, m0, m1),
        j0 <= i0,
        i1 <= j1,
        n0 <= m0,
        m1 <= n1,
    ensures
        marked(x, j0, j1, n0, n1),
{
    let l = choose|l: Label| #[trigger] labels::named(l) == x && within(l, i0, i1, m0, m1);
    assert(labels::named(l) == x && within(l, j0, j1, n0, n1));
}

/// Generation that leads on leads there from the start.
pub proof fn lemma_then(a: G, b: G, c: G, ahead: Set<Seq<char>>)
    requires
        leads(a, b, ahead),
        leads(b, c, ahead),
    ensures
        leads(a, c, ahead),
{
    reveal(extended);
    reveal(level);
    lemma_code_then(a.f.blocks, b.f.blocks, c.f.blocks);
    lemma_names_then(
        a.f.variables,
        a.cg.declared,
        b.f.variables,
        b.cg.declared,
        c.f.variables,
        c.cg.declared,
    );
    assert forall|k: int| 0 <= k < a.f.blocks.len() implies (#[trigger] c.f.blocks[k]).0
        == a.f.blocks[k].0 by {
        assert(b.f.blocks[k].0 == a.f.blocks[k].0);
    }
    assert forall|k: int| a.f.blocks.len() <= k < c.f.blocks.len() implies marked(
        (#[trigger] c.f.blocks[k]).0,
        a.f.if_index as int,
        c.f.if_index as int,
        a.f.match_index as int,
        c.f.match_index as int,
    ) by {
        if k < b.f.blocks.len() {
            assert(c.f.blocks[k].0 == b.f.blocks[k].0);
            lemma_marked(
                b.f.blocks[k].0,
                a.f.if_index as int,
                b.f.if_index as int,
                a.f.match_index as int,
                b.f.match_index as int,
                a.f.if_index as int,
                c.f.if_index as int,
                a.f.match_index as int,
                c.f.match_index as int,
            );
        } else {
            lemma_marked(
                c.f.blocks[k].0,
                b.f.if_index as int,
                c.f.if_index as int,
                b.f.match_index as int,
                c.f.match_index as int,
                a.f.if_index as int,
                c.f.if_index as int,
                a.f.match_index as int,
                c.f.match_index as int,
            );
        }
    }
    let x = flat(a.f.blocks);
    let y = flat(b.f.blocks);
    let z = flat(c.f.blocks);
    assert forall|k: int| 0 <= k < x.len() implies z[k] == #[trigger] x[k] by {
        assert(y[k] == x[k]);
    }
    assert forall|k: int| x.len() <= k < z.len() implies aims(
        #[trigger] z[k],
        c.f.blocks,
        ahead,
    ) by {
        if k < y.len() {
            assert(z[k] == y[k]);
            lemma_aims_kept(y[k], b.f.blocks, c.f.blocks, ahead);
        }
    }
    let p = a.cg.module.strings;
    let q = b.cg.module.strings;
    let r = c.cg.module.strings;
    assert forall|k: int| 0 <= k < p.len() implies r[k] == #[trigger] p[k] by {
        assert(q[k] == p[k]);
    }
    assert forall|k: int| 0 <= k < a.cg.scopes.len() - 1 implies (#[trigger] c.cg.scopes[k])
        == a.cg.scopes[k] by {
        assert(b.cg.scopes[k] == a.cg.scopes[k]);
    }
}

/// Where an instruction goes stays where blocks are added.
pub proof fn lemma_aims_kept(
    i: Inst,
    a: Seq<(Seq<char>, Seq<Inst>)>,
    b: Seq<(Seq<char>, Seq<Inst>)>,
    ahead: Set<Seq<char>>,
)
    requires
        aims(i, a, ahead),
        more_blocks(a, b),
    ensures
        aims(i, b, ahead),
{
    assert forall|j: int| 0 <= j < targets(i).len() implies ahead.contains(
        #[trigger] targets(i)[j],
    ) || assoc::defined(b, targets(i)[j]) by {
        lemma_same_names(a, b, targets(i)[j]);
    }
}

/// Blocks that were opened need not be opened later.
pub proof fn lemma_drop(a: G, b: G, ahead: Set<Seq<char>>, less: Set<Seq<char>>)
    requires
        leads(a, b, ahead),
        loops_in(b.cg, less),
        forall|x: Seq<char>|
            #[trigger] ahead.contains(x) ==> less.contains(x) || assoc::defined(b.f.blocks, x),
    ensures
        leads(a, b, less),
{
    reveal(extended);
    reveal(level);
    reveal(loops_in);
    let z = flat(b.f.blocks);
    assert forall|k: int| flat(a.f.blocks).len() <= k < z.len() implies aims(
        #[trigger] z[k],
        b.f.blocks,
        less,
    ) by {
        assert(aims(z[k], b.f.blocks, ahead));
        assert forall|j: int| 0 <= j < targets(z[k]).len() implies less.contains(
            #[trigger] targets(z[k])[j],
        ) || assoc::defined(b.f.blocks, targets(z[k])[j]) by {
            assert(ahead.contains(targets(z[k])[j]) || assoc::defined(
                b.f.blocks,
                targets(z[k])[j],
            ));
        }
    }
}

/// The loops are the same at the end, so they go to the same blocks.
pub proof fn lemma_loops(a: G, b: G, ahead: Set<Seq<char>>, less: Set<Seq<char>>)
    requires
        leads(a, b, ahead),
        loops_in(a.cg, less),
    ensures
        loops_in(b.cg, less),
{
    reveal(level);
    reveal(loops_in);
}

/// The loops are the same at the start.
pub proof fn lemma_loops_back(a: G, b: G, ahead: Set<Seq<char>>)
    requires
        leads(a, b, ahead),
    ensures
        loops_in(a.cg, ahead),
{
    reveal(level);
    reveal(loops_in);
}

/// More blocks may be opened later.
pub proof fn lemma_more(g: G, ahead: Set<Seq<char>>, x: Seq<char>)
    requires
        ready(g, ahead),
    ensures
        ready(g, ahead.insert(x)),
{
    reveal(loops_in);
}

/// What changes only the code of a function leads on when it adds what fits.
proof fn lemma_added(a: G, b: G, i: Inst, registers: usize, ahead: Set<Seq<char>>)
    requires
        leads(a, b, ahead),
        usable(b.f, i),
        aims(i, b.f.blocks, ahead),
        dest(i) is None ==> registers == b.f.registers,
        dest(i) matches Some(d) ==> d == b.f.registers && registers == b.f.registers + 1,
    ensures
        code_kept(b.f.blocks, ir::appended(Fun { registers, ..b.f }, i).blocks),
        leads(a, G { f: ir::appended(Fun { registers, ..b.f }, i), ..b }, ahead),
        ir::appended(Fun { registers, ..b.f }, i).registers == registers,
        ir::appended(Fun { registers, ..b.f }, i).variables == b.f.variables,
        forall|x: Seq<char>|
            #[trigger] assoc::defined(ir::appended(Fun { registers, ..b.f }, i).blocks, x)
                == assoc::defined(b.f.blocks, x),
{
    reveal(sound);
    reveal(extended);
    reveal(level);
    let f = Fun { registers, ..b.f };
    let c = G { f: ir::appended(f, i), ..b };
    assert(blocks_sound(f));
    lemma_appended(f, i);
    lemma_code_pushed(b.f.blocks, i);
    lemma_code_then(a.f.blocks, b.f.blocks, c.f.blocks);
    lemma_in_order(flat(b.f.blocks), i);
    assert(sound(c));
    assert forall|x: Seq<char>| #[trigger] assoc::defined(c.f.blocks, x) == assoc::defined(
        b.f.blocks,
        x,
    ) by {
        lemma_same_names(b.f.blocks, c.f.blocks, x);
    }
    assert forall|k: int| 0 <= k < a.f.blocks.len() implies (#[trigger] c.f.blocks[k]).0
        == a.f.blocks[k].0 by {
        assert(b.f.blocks[k].0 == a.f.blocks[k].0);
    }
    assert forall|k: int| a.f.blocks.len() <= k < c.f.blocks.len() implies marked(
        (#[trigger] c.f.blocks[k]).0,
        a.f.if_index as int,
        c.f.if_index as int,
        a.f.match_index as int,
        c.f.match_index as int,
    ) by {
        assert(c.f.blocks[k].0 == b.f.blocks[k].0);
    }
    let x = flat(a.f.blocks);
    let y = flat(b.f.blocks);
    let z = flat(c.f.blocks);
    assert(z == y.push(i));
    assert forall|k: int| x.len() <= k < z.len() implies aims(
        #[trigger] z[k],
        c.f.blocks,
        ahead,
    ) by {
        if k < y.len() {
            assert(z[k] == y[k]);
            lemma_aims_kept(y[k], b.f.blocks, c.f.blocks, ahead);
        } else {
            lemma_aims_kept(i, b.f.blocks, c.f.blocks, ahead);
        }
    }
}

/// Adding an instruction without a destination.
pub proof fn lemma_emit(a: G, b: G, i: Inst, ahead: Set<Seq<char>>)
    requires
        leads(a, b, ahead),
        dest(i) is None,
        usable(b.f, i),
        aims(i, b.f.blocks, ahead),
    ensures
        code_kept(b.f.blocks, translation::emit(b, i).f.blocks),
        leads(a, translation::emit(b, i), ahead),
        translation::emit(b, i).f.registers == b.f.registers,
        translation::emit(b, i).f.if_index == b.f.if_index,
        translation::emit(b, i).f.match_index == b.f.match_index,
        translation::emit(b, i).f.variables == b.f.variables,
        translation::emit(b, i).cg == b.cg,
        forall|x: Seq<char>|
            #[trigger] assoc::defined(translation::emit(b, i).f.blocks, x) == assoc::defined(
                b.f.blocks,
                x,
            ),
{
    lemma_added(a, b, i, b.f.registers, ahead);
    assert(Fun { registers: b.f.registers, ..b.f } == b.f);
    reveal(ir::appended);
}

/// Adding an instruction whose destination is the next register.
pub proof fn lemma_def(a: G, b: G, i: Inst, ahead: Set<Seq<char>>)
    requires
        leads(a, b, ahead),
        dest(i) == Some(b.f.registers),
        usable(b.f, i),
        targets(i).len() == 0,
    ensures
        translation::def(b, i) matches Some((c, v)) ==> {
            &&& leads(a, c, ahead)
            &&& code_kept(b.f.blocks, c.f.blocks)
            &&& in_use(v, c.f.registers as nat)
            &&& c.f.registers == b.f.registers + 1
            &&& c.f.if_index == b.f.if_index
            &&& c.f.match_index == b.f.match_index
            &&& c.f.variables == b.f.variables
            &&& c.cg == b.cg
            &&& forall|x: Seq<char>|
                #[trigger] assoc::defined(c.f.blocks, x) == assoc::defined(b.f.blocks, x)
        },
{
    reveal(ir::defining);
    reveal(ir::appended);
    if b.f.registers < usize::MAX {
        lemma_added(a, b, i, (b.f.registers + 1) as usize, ahead);
    }
}

/// A label that is not used yet.
pub proof fn lemma_new(g: G, l: Label)
    requires
        sound(g),
        !within(l, 0, g.f.if_index as int, 0, g.f.match_index as int),
    ensures
        !assoc::defined(g.f.blocks, labels::named(l)),
{
    reveal(sound);
    if assoc::defined(g.f.blocks, labels::named(l)) {
        let k = lemma_defined_at(g.f.blocks, labels::named(l));
        labels::lemma_entry(l);
        let m = choose|m: Label|
            #[trigger] labels::named(m) == g.f.blocks[k].0 && within(
                m,
                0,
                g.f.if_index as int,
                0,
                g.f.match_index as int,
            );
        assert(marked(g.f.blocks[k].0, 0, g.f.if_index as int, 0, g.f.match_index as int));
        labels::lemma_named(l, m);
    }
}

/// A label that was not used stays so where only labels with other numbers are used.
pub proof fn lemma_fresh(a: G, b: G, l: Label, ahead: Set<Seq<char>>)
    requires
        leads(a, b, ahead),
        !assoc::defined(a.f.blocks, labels::named(l)),
        !within(
            l,
            a.f.if_index as int,
            b.f.if_index as int,
            a.f.match_index as int,
            b.f.match_index as int,
        ),
    ensures
        !assoc::defined(b.f.blocks, labels::named(l)),
{
    reveal(extended);
    if assoc::defined(b.f.blocks, labels::named(l)) {
        let k = lemma_defined_at(b.f.blocks, labels::named(l));
        if k < a.f.blocks.len() {
            assert(b.f.blocks[k].0 == a.f.blocks[k].0);
            assoc::lemma_present(a.f.blocks, labels::named(l), k);
        } else {
            assert(marked(
                b.f.blocks[k].0,
                a.f.if_index as int,
                b.f.if_index as int,
                a.f.match_index as int,
                b.f.match_index as int,
            ));
            let m = choose|m: Label|
                #[trigger] labels::named(m) == b.f.blocks[k].0 && within(
                    m,
                    a.f.if_index as int,
                    b.f.if_index as int,
                    a.f.match_index as int,
                    b.f.match_index as int,
                );
            labels::lemma_named(l, m);
        }
    }
}

/// Opening a block.
pub proof fn lemma_block(a: G, b: G, l: Label, ahead: Set<Seq<char>>)
    requires
        leads(a, b, ahead),
        !assoc::defined(b.f.blocks, labels::named(l)),
        within(
            l,
            a.f.if_index as int,
            b.f.if_index as int,
            a.f.match_index as int,
            b.f.match_index as int,
        ),
    ensures
        code_kept(b.f.blocks, translation::block(b, labels::named(l)).f.blocks),
        leads(a, translation::block(b, labels::named(l)), ahead),
        forall|x: Seq<char>|
            #[trigger] assoc::defined(translation::block(b, labels::named(l)).f.blocks, x) == (
            assoc::defined(b.f.blocks, x) || x == labels::named(l)),
        translation::block(b, labels::named(l)).f.registers == b.f.registers,
        translation::block(b, labels::named(l)).f.if_index == b.f.if_index,
        translation::block(b, labels::named(l)).f.match_index == b.f.match_index,
        translation::block(b, labels::named(l)).f.variables == b.f.variables,
        translation::block(b, labels::named(l)).cg == b.cg,
{
    reveal(sound);
    reveal(extended);
    reveal(level);
    reveal(ir::opened);
    let name = labels::named(l);
    let c = translation::block(b, name);
    lemma_code_opened(b.f.blocks, name);
    lemma_code_then(a.f.blocks, b.f.blocks, c.f.blocks);
    lemma_flat_open(b.f.blocks, name);
    assert forall|i: int, j: int| 0 <= i < j < c.f.blocks.len() implies (
    #[trigger] c.f.blocks[i]).0 != (#[trigger] c.f.blocks[j]).0 by {
        if j < b.f.blocks.len() {
            assert(b.f.blocks[i].0 != b.f.blocks[j].0);
        } else if b.f.blocks[i].0 == name {
            assoc::lemma_present(b.f.blocks, name, i);
        }
    }
    assert(labels::named(l) == name && within(
        l,
        0,
        b.f.if_index as int,
        0,
        b.f.match_index as int,
    ));
    assert forall|k: int| 1 <= k < c.f.blocks.len() implies marked(
        (#[trigger] c.f.blocks[k]).0,
        0,
        c.f.if_index as int,
        0,
        c.f.match_index as int,
    ) by {
        if k < b.f.blocks.len() {
            assert(c.f.blocks[k].0 == b.f.blocks[k].0);
        }
    }
    assert(sound(c));
    assert forall|x: Seq<char>| #[trigger] assoc::defined(c.f.blocks, x) == (assoc::defined(
        b.f.blocks,
        x,
    ) || x == name) by {
        if assoc::defined(c.f.blocks, x) {
            let k = lemma_defined_at(c.f.blocks, x);
            if k < b.f.blocks.len() {
                assoc::lemma_present(b.f.blocks, x, k);
            }
        }
        lemma_same_names(b.f.blocks, c.f.blocks, x);
        assoc::lemma_present(c.f.blocks, name, b.f.blocks.len() as int);
    }
    assert forall|k: int| 0 <= k < a.f.blocks.len() implies (#[trigger] c.f.blocks[k]).0
        == a.f.blocks[k].0 by {
        assert(b.f.blocks[k].0 == a.f.blocks[k].0);
    }
    assert forall|k: int| a.f.blocks.len() <= k < c.f.blocks.len() implies marked(
        (#[trigger] c.f.blocks[k]).0,
        a.f.if_index as int,
        c.f.if_index as int,
        a.f.match_index as int,
        c.f.match_index as int,
    ) by {
        if k < b.f.blocks.len() {
            assert(c.f.blocks[k].0 == b.f.blocks[k].0);
        }
    }
    let x = flat(a.f.blocks);
    let z = flat(c.f.blocks);
    assert forall|k: int| x.len() <= k < z.len() implies aims(
        #[trigger] z[k],
        c.f.blocks,
        ahead,
    ) by {
        lemma_aims_kept(z[k], b.f.blocks, c.f.blocks, ahead);
    }
}

/// Going to a block unless the current one has ended.
pub proof fn lemma_fall(a: G, b: G, target: Seq<char>, ahead: Set<Seq<char>>)
    requires
        leads(a, b, ahead),
        ahead.contains(target) || assoc::defined(b.f.blocks, target),
    ensures
        leads(a, translation::fall_to(b, target), ahead),
        translation::fall_to(b, target).f.if_index == b.f.if_index,
        translation::fall_to(b, target).f.match_index == b.f.match_index,
        translation::fall_to(b, target).cg == b.cg,
        forall|x: Seq<char>|
            #[trigger] assoc::defined(translation::fall_to(b, target).f.blocks, x)
                == assoc::defined(b.f.blocks, x),
{
    reveal(translation::fall_to);
    assert(targets(Inst::Jump(target)) =~= seq![target]);
    lemma_emit(a, b, Inst::Jump(target), ahead);
}

/// Nothing but the counters of the function and its variables changes.
proof fn lemma_counted(a: G, b: G, c: G, ahead: Set<Seq<char>>)
    requires
        leads(a, b, ahead),
        c.f == (Fun {
            variables: c.f.variables,
            if_index: c.f.if_index,
            match_index: c.f.match_index,
            ..b.f
        }),
        b.f.if_index <= c.f.if_index,
        b.f.match_index <= c.f.match_index,
        forall|x: Seq<char>|
            assoc::defined(b.f.variables, x) ==> #[trigger] assoc::defined(c.f.variables, x),
        c.cg.loop_ends == b.cg.loop_ends,
        c.cg.loop_continues == b.cg.loop_continues,
        c.cg.scopes.len() == b.cg.scopes.len(),
        forall|k: int|
            0 <= k < b.cg.scopes.len() - 1 ==> (#[trigger] c.cg.scopes[k]) == b.cg.scopes[k],
        scopes_sound(c.cg.scopes, c.f.variables),
        names_kept(
            b.f.variables,
            b.cg.declared,
            c.f.variables,
            c.cg.declared,
        ),
        extends(b.cg.module.strings, c.cg.module.strings),
        c.cg.module == (Mod { strings: c.cg.module.strings, ..b.cg.module }),
        c.cg.signatures == b.cg.signatures,
    ensures
        leads(a, c, ahead),
{
    reveal(sound);
    reveal(extended);
    reveal(level);
    reveal(loops_in);
    lemma_names_then(
        a.f.variables,
        a.cg.declared,
        b.f.variables,
        b.cg.declared,
        c.f.variables,
        c.cg.declared,
    );
    let code = flat(c.f.blocks);
    assert forall|k: int| 1 <= k < c.f.blocks.len() implies marked(
        (#[trigger] c.f.blocks[k]).0,
        0,
        c.f.if_index as int,
        0,
        c.f.match_index as int,
    ) by {
        lemma_marked(
            c.f.blocks[k].0,
            0,
            b.f.if_index as int,
            0,
            b.f.match_index as int,
            0,
            c.f.if_index as int,
            0,
            c.f.match_index as int,
        );
    }
    assert forall|k: int| 0 <= k < code.len() implies (variable(#[trigger] code[k]) matches Some(
        x,
    ) ==> assoc::defined(c.f.variables, x)) by {
        if let Some(x) = variable(code[k]) {
            assert(assoc::defined(b.f.variables, x));
        }
    }
    assert(sound(c));
    assert forall|k: int| a.f.blocks.len() <= k < c.f.blocks.len() implies marked(
        (#[trigger] c.f.blocks[k]).0,
        a.f.if_index as int,
        c.f.if_index as int,
        a.f.match_index as int,
        c.f.match_index as int,
    ) by {
        lemma_marked(
            b.f.blocks[k].0,
            a.f.if_index as int,
            b.f.if_index as int,
            a.f.match_index as int,
            b.f.match_index as int,
            a.f.if_index as int,
            c.f.if_index as int,
            a.f.match_index as int,
            c.f.match_index as int,
        );
    }
    assert forall|x: Seq<char>|
        assoc::defined(a.f.variables, x) implies #[trigger] assoc::defined(c.f.variables, x) by {
        assert(assoc::defined(b.f.variables, x));
    }
    let p = a.cg.module.strings;
    let q = b.cg.module.strings;
    let r = c.cg.module.strings;
    assert forall|k: int| 0 <= k < p.len() implies r[k] == #[trigger] p[k] by {
        assert(q[k] == p[k]);
    }
    assert forall|k: int| 0 <= k < a.cg.scopes.len() - 1 implies (#[trigger] c.cg.scopes[k])
        == a.cg.scopes[k] by {
        assert(b.cg.scopes[k] == a.cg.scopes[k]);
    }
}

/// The scopes stay sound when variables are declared.
proof fn lemma_scopes_kept(
    scopes: Seq<Seq<(Seq<char>, Seq<char>)>>,
    a: Seq<(Seq<char>, Ty)>,
    b: Seq<(Seq<char>, Ty)>,
)
    requires
        scopes_sound(scopes, a),
        forall|x: Seq<char>| assoc::defined(a, x) ==> #[trigger] assoc::defined(b, x),
    ensures
        scopes_sound(scopes, b),
{
    assert forall|k: int, j: int|
        0 <= k < scopes.len() && 0 <= j < scopes[k].len() implies assoc::defined(
        b,
        (#[trigger] scopes[k][j]).1,
    ) by {
        assert(assoc::defined(a, scopes[k][j].1));
    }
}

/// Adding a temporary to the variables.
pub proof fn lemma_slot(a: G, b: G, name: Seq<char>, t: Ty, ahead: Set<Seq<char>>)
    requires
        leads(a, b, ahead),
        is_temporary(name),
    ensures
        leads(a, translation::slot(b, name, t), ahead),
        assoc::defined(translation::slot(b, name, t).f.variables, name),
{
    let c = translation::slot(b, name, t);
    lemma_put_defined(b.f.variables, name, t);
    reveal(sound);
    assert(names_kept(
        b.f.variables,
        b.cg.declared,
        c.f.variables,
        c.cg.declared,
    )) by {
        reveal(names_kept);
        reveal(assoc::get);
        assert forall|x: Seq<char>| #[trigger] assoc::defined(c.f.variables, x) implies x == name
            || assoc::defined(b.f.variables, x) by {
            assoc::lemma_put_get(b.f.variables, name, t, x);
        }
    }
    lemma_scopes_kept(b.cg.scopes, b.f.variables, c.f.variables);
    lemma_counted(a, b, c, ahead);
}

/// Counting one more conditional or loop.
pub proof fn lemma_next_if(a: G, b: G, ahead: Set<Seq<char>>)
    requires
        leads(a, b, ahead),
    ensures
        translation::next_if(b) matches Some(c) ==> leads(a, c, ahead),
{
    if let Some(c) = translation::next_if(b) {
        reveal(sound);
        reveal(names_kept);
        lemma_counted(a, b, c, ahead);
    }
}

/// Counting one more match.
pub proof fn lemma_next_match(a: G, b: G, ahead: Set<Seq<char>>)
    requires
        leads(a, b, ahead),
    ensures
        translation::next_match(b) matches Some(c) ==> leads(a, c, ahead),
{
    if let Some(c) = translation::next_match(b) {
        reveal(sound);
        reveal(names_kept);
        lemma_counted(a, b, c, ahead);
    }
}

/// Adding a string constant.
pub proof fn lemma_string(a: G, b: G, s: Seq<char>, ahead: Set<Seq<char>>)
    requires
        leads(a, b, ahead),
    ensures
        leads(a, translation::with_string(b, s), ahead),
{
    reveal(names_kept);
    reveal(sound);
    let c = translation::with_string(b, s);
    assert(c.cg.module.strings == b.cg.module.strings.push(s));
    lemma_counted(a, b, c, ahead);
}

/// Declaring a variable in the innermost scope.
pub proof fn lemma_declare(a: G, b: G, name: Seq<char>, t: Ty, ahead: Set<Seq<char>>)
    requires
        leads(a, b, ahead),
    ensures
        translation::declare(b, name, t) matches Some((c, unique)) ==> {
            &&& leads(a, c, ahead)
            &&& assoc::defined(c.f.variables, unique)
            &&& c.f.registers == b.f.registers
            &&& c.f.blocks == b.f.blocks
            &&& c.f.if_index == b.f.if_index
            &&& c.f.match_index == b.f.match_index
        },
{
    reveal(translation::declare);
    reveal(sound);
    if let Some((c, unique)) = translation::declare(b, name, t) {
        let top = b.cg.scopes.len() - 1;
        let old_scope = b.cg.scopes[top];
        let new_scope = assoc::put(old_scope, name, unique);
        assert(c.f.variables == assoc::put(b.f.variables, unique, t));
        assert(c.cg.scopes == b.cg.scopes.update(top, new_scope));
        lemma_put_defined(b.f.variables, unique, t);
        assert forall|k: int, j: int|
            0 <= k < c.cg.scopes.len() && 0 <= j < c.cg.scopes[k].len() implies assoc::defined(
            c.f.variables,
            (#[trigger] c.cg.scopes[k][j]).1,
        ) by {
            if k == top {
                reveal(assoc::put);
                reveal(assoc::defined);
                reveal(assoc::position);
                if j < old_scope.len() {
                    if new_scope[j].1 != unique {
                        assert(new_scope[j] == b.cg.scopes[top][j]);
                        assert(assoc::defined(b.f.variables, b.cg.scopes[top][j].1));
                    }
                }
            } else {
                assert(assoc::defined(b.f.variables, b.cg.scopes[k][j].1));
            }
        }
        assert(names_kept(
            b.f.variables,
            b.cg.declared,
            c.f.variables,
            c.cg.declared,
        )) by {
            reveal(names_kept);
            reveal(assoc::get);
            assert forall|x: Seq<char>| #[trigger]
                assoc::defined(c.f.variables, x) implies if assoc::defined(b.f.variables, x) {
                c.cg.declared.contains(x) == b.cg.declared.contains(x)
            } else {
                c.cg.declared.contains(x)
            } by {
                assoc::lemma_put_get(b.f.variables, unique, t, x);
                let d = b.cg.declared;
                if assoc::defined(b.f.variables, x) {
                    if x != unique && d.contains(x) {
                        let k = choose|k: int| 0 <= k < d.len() && d[k] == x;
                        assert(d.push(unique)[k] == x);
                    }
                } else {
                    assert(d.push(unique)[d.len() as int] == unique);
                }
            }
        }
        lemma_counted(a, b, c, ahead);
    }
}

/// A variable that is found is declared.
pub proof fn lemma_lookup(g: G, name: Seq<char>)
    requires
        sound(g),
    ensures
        translation::lookup(g, name) matches Some(unique) ==> assoc::defined(
            g.f.variables,
            unique,
        ),
{
    reveal(sound);
    reveal(translation::lookup);
    lemma_scoped(g, name, g.cg.scopes.len() as int);
}

/// A name that a scope gives is declared.
proof fn lemma_scoped(g: G, name: Seq<char>, k: int)
    requires
        scopes_sound(g.cg.scopes, g.f.variables),
    ensures
        translation::scoped(g.cg.scopes, name, k) matches Some(unique) ==> assoc::defined(
            g.f.variables,
            unique,
        ),
    decreases k,
{
    reveal(translation::scoped);
    if 0 < k <= g.cg.scopes.len() {
        let scope = g.cg.scopes[k - 1];
        if assoc::get(scope, name) is Some {
            reveal(assoc::get);
            reveal(assoc::defined);
            reveal(assoc::position);
            let j = assoc::position(scope, name);
            assert(assoc::first_at(scope, name, j));
            assert(g.cg.scopes[k - 1][j].1 == scope[j].1);
        } else {
            lemma_scoped(g, name, k - 1);
        }
    }
}

/// Entering a scope.
pub proof fn lemma_enter(g: G, ahead: Set<Seq<char>>)
    requires
        ready(g, ahead),
    ensures
        ready(translation::enter(g), ahead),
        translation::enter(g).f == g.f,
{
    reveal(translation::enter);
    reveal(sound);
    reveal(loops_in);
    let c = translation::enter(g);
    assert forall|k: int, j: int|
        0 <= k < c.cg.scopes.len() && 0 <= j < c.cg.scopes[k].len() implies assoc::defined(
        c.f.variables,
        (#[trigger] c.cg.scopes[k][j]).1,
    ) by {
        if k < g.cg.scopes.len() {
            assert(assoc::defined(g.f.variables, g.cg.scopes[k][j].1));
        }
    }
}

/// Leaving the scope that was entered at `b` restores the scopes there.
pub proof fn lemma_leave(a: G, b: G, c: G, ahead: Set<Seq<char>>)
    requires
        leads(a, b, ahead),
        leads(translation::enter(b), c, ahead),
    ensures
        leads(a, translation::leave(c), ahead),
        translation::leave(c).f == c.f,
        translation::leave(c).cg.scopes == b.cg.scopes,
{
    reveal(translation::enter);
    reveal(translation::leave);
    reveal(extended);
    reveal(level);
    reveal(sound);
    reveal(loops_in);
    let e = translation::enter(b);
    let d = translation::leave(c);
    assert(d.cg.scopes =~= b.cg.scopes) by {
        assert forall|k: int| 0 <= k < b.cg.scopes.len() implies d.cg.scopes[k]
            == b.cg.scopes[k] by {
            assert(c.cg.scopes[k] == e.cg.scopes[k]);
        }
    }
    assert(leads(b, d, ahead)) by {
        assert forall|k: int, j: int|
            0 <= k < d.cg.scopes.len() && 0 <= j < d.cg.scopes[k].len() implies assoc::defined(
            d.f.variables,
            (#[trigger] d.cg.scopes[k][j]).1,
        ) by {
            assert(assoc::defined(c.f.variables, c.cg.scopes[k][j].1));
        }
    }
    lemma_then(a, b, d, ahead);
}

/// Entering a loop.
pub proof fn lemma_enter_loop(g: G, end: Seq<char>, again: Seq<char>, ahead: Set<Seq<char>>)
    requires
        ready(g, ahead),
        ahead.contains(end),
        ahead.contains(again),
    ensures
        ready(translation::enter_loop(g, end, again), ahead),
        translation::enter_loop(g, end, again).f == g.f,
{
    reveal(translation::enter_loop);
    reveal(sound);
    reveal(loops_in);
    let c = translation::enter_loop(g, end, again);
    assert forall|k: int| 0 <= k < c.cg.loop_ends.len() implies ahead.contains(
        #[trigger] c.cg.loop_ends[k],
    ) by {
        if k < g.cg.loop_ends.len() {
            assert(ahead.contains(g.cg.loop_ends[k]));
        }
    }
    assert forall|k: int| 0 <= k < c.cg.loop_continues.len() implies ahead.contains(
        #[trigger] c.cg.loop_continues[k],
    ) by {
        if k < g.cg.loop_continues.len() {
            assert(ahead.contains(g.cg.loop_continues[k]));
        }
    }
}

/// Leaving the loop that was entered at `b` restores the loops there.
pub proof fn lemma_leave_loop(
    a: G,
    b: G,
    c: G,
    end: Seq<char>,
    again: Seq<char>,
    ahead: Set<Seq<char>>,
)
    requires
        leads(a, b, ahead),
        leads(translation::enter_loop(b, end, again), c, ahead),
    ensures
        leads(a, translation::leave_loop(c), ahead),
        translation::leave_loop(c).f == c.f,
{
    reveal(translation::enter_loop);
    reveal(translation::leave_loop);
    reveal(extended);
    reveal(level);
    reveal(sound);
    reveal(loops_in);
    let d = translation::leave_loop(c);
    assert(d.cg.loop_ends =~= b.cg.loop_ends);
    assert(d.cg.loop_continues =~= b.cg.loop_continues);
    assert(leads(b, d, ahead));
    lemma_then(a, b, d, ahead);
}

} // verus!
