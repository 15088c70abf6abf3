//! The functions of a generated program have the shape that they are to have.

use vstd::prelude::*;
use crate::assoc;
use crate::ast::{Statement, TypedIdentifier};
use crate::ir;
use crate::ir::{Fun, Inst, Mod};
use crate::shape;
use crate::shape::{parts, statements};
use crate::translation;
use crate::translation::{Cg, G};
use crate::types;
use crate::types::{AzulaType, Ty};

verus! {

/// Whether a function is well formed: its blocks have different names and start with
/// the entry; block after block, its instructions write the registers in order, and
/// read only registers that were written before; they name only variables that it
/// declares, and go only to blocks that it has.
pub open spec fn well_formed(f: Fun) -> bool {
    &&& f.blocks.len() > 0
    &&& f.blocks[0].0 == "entry"@
    &&& assoc::distinct(f.blocks)
    &&& shape::code_sound(f)
    &&& forall|k: int|
        0 <= k < shape::flat(f.blocks).len() ==> shape::aims(
            #[trigger] shape::flat(f.blocks)[k],
            f.blocks,
            Set::empty(),
        )
}

/// Whether every function of a program is well formed.
pub open spec fn all_well_formed(functions: Seq<(Seq<char>, Fun)>) -> bool {
    forall|k: int| 0 <= k < functions.len() ==> well_formed((#[trigger] functions[k]).1)
}

/// Whether generation is in no loop.
pub open spec fn outside_loops(cg: Cg) -> bool {
    cg.loop_ends.len() == 0 && cg.loop_continues.len() == 0
}

/// A function that has nothing in it is sound.
pub(crate) proof fn lemma_blank(cg: Cg, f: Fun)
    requires
        outside_loops(cg),
        f.blocks == seq![("entry"@, Seq::<Inst>::empty())],
        f.current == "entry"@,
        f.registers == 0,
        cg.scopes == seq![Seq::<(Seq<char>, Seq<char>)>::empty()],
    ensures
        shape::ready(G { cg, f }, Set::empty()),
        shape::flat(f.blocks).len() == 0,
{
    reveal(shape::sound);
    reveal(shape::loops_in);
    assert(f.blocks.drop_last() =~= Seq::empty());
    assert(shape::flat(f.blocks.drop_last()) =~= Seq::empty());
    assert(shape::flat(f.blocks) =~= Seq::empty());
}

/// The function with other variables.
pub(crate) open spec fn with_variables(f: Fun, variables: Seq<(Seq<char>, Ty)>) -> Fun {
    Fun { variables, ..f }
}

/// The instructions that are added do not depend on the variables.
pub(crate) proof fn lemma_appended_apart(f: Fun, i: Inst, variables: Seq<(Seq<char>, Ty)>)
    ensures
        ir::appended(with_variables(f, variables), i) == with_variables(
            ir::appended(f, i),
            variables,
        ),
        ir::appended(f, i).arguments == f.arguments,
        ir::appended(f, i).variables == f.variables,
        ir::appended(f, i).registers == f.registers,
{
    reveal(ir::appended);
}

/// Copying the arguments into variables makes all of them variables, and keeps those
/// that there are.
pub(crate) proof fn lemma_spilled(f: Fun, k: int)
    requires
        0 <= k,
    ensures
        translation::spill(f, k) matches Some(h) ==> {
            &&& h.arguments == f.arguments
            &&& forall|x: Seq<char>|
                assoc::defined(f.variables, x) ==> #[trigger] assoc::defined(h.variables, x)
            &&& forall|j: int|
                k <= j < f.arguments.len() ==> assoc::defined(
                    h.variables,
                    (#[trigger] f.arguments[j]).0,
                )
        },
    decreases f.arguments.len() - k,
{
    reveal(translation::spill);
    if k < f.arguments.len() {
        let name = f.arguments[k].0;
        let t = f.arguments[k].1;
        if let Some((c, v)) = ir::defining(f, Inst::LoadArg(k as usize, f.registers, t)) {
            let store = Inst::Store(name, v, t);
            assert(c.arguments == f.arguments && c.variables == f.variables) by {
                reveal(ir::defining);
                reveal(ir::appended);
            }
            lemma_appended_apart(c, store, c.variables);
            let d = ir::appended(c, store);
            let e = Fun { variables: assoc::put(d.variables, name, t), ..d };
            assert forall|x: Seq<char>|
                x == name || assoc::defined(f.variables, x) implies #[trigger] assoc::defined(
                e.variables,
                x,
            ) by {
                assoc::lemma_put_get(d.variables, name, t, x);
                reveal(assoc::get);
            }
            lemma_spilled(e, k + 1);
        }
    }
}

/// Copying the arguments into variables, where these are there.
pub(crate) proof fn lemma_spill(a: G, b: G, f: Fun, k: int)
    requires
        0 <= k,
        shape::leads(a, b, Set::empty()),
        b.f == with_variables(f, b.f.variables),
        forall|j: int|
            k <= j < f.arguments.len() ==> assoc::defined(
                b.f.variables,
                (#[trigger] f.arguments[j]).0,
            ),
    ensures
        translation::spill(f, k) matches Some(h) ==> shape::leads(
            a,
            G { f: with_variables(h, b.f.variables), ..b },
            Set::empty(),
        ),
    decreases f.arguments.len() - k,
{
    reveal(translation::spill);
    if k < f.arguments.len() {
        let name = f.arguments[k].0;
        let t = f.arguments[k].1;
        let all = b.f.variables;
        let load = Inst::LoadArg(k as usize, f.registers, t);
        shape::lemma_def(a, b, load, Set::empty());
        if let Some((c, v)) = ir::defining(f, load) {
            assert(translation::def(b, load) == Some((G { f: with_variables(c, all), ..b }, v))
                && c.arguments == f.arguments) by {
                reveal(ir::defining);
                reveal(ir::appended);
            }
            let store = Inst::Store(name, v, t);
            let d = G { f: with_variables(c, all), ..b };
            shape::lemma_emit(a, d, store, Set::empty());
            lemma_appended_apart(c, store, all);
            let e = translation::emit(d, store);
            let next = ir::appended(c, store);
            let next = Fun { variables: assoc::put(next.variables, name, t), ..next };
            assert(e.f == with_variables(next, all));
            lemma_spill(a, e, next, k + 1);
        }
    }
}

/// A function that is generated is well formed, has the arguments and the result that
/// it is declared with, and is the only one that changes.
pub proof fn lemma_define(
    cg: Cg,
    name: Seq<char>,
    args: Seq<TypedIdentifier>,
    result: AzulaType,
    body: Statement,
)
    requires
        outside_loops(cg),
    ensures
        translation::define(cg, name, args, result, body) matches Some(after) ==> {
            &&& outside_loops(after)
            &&& exists|f: Fun| #[trigger]
                well_formed(f) && after.module.functions == assoc::put(
                    cg.module.functions,
                    name,
                    f,
                ) && f.arguments == translation::arguments_of(args) && f.result
                    == types::ty_of(result)
        },
{
    reveal(translation::define);
    let none = Set::<Seq<char>>::empty();
    let start = translation::blank(translation::arguments_of(args), types::ty_of(result));
    let g = G { cg: Cg { scopes: seq![Seq::empty()], declared: Seq::empty(), ..cg }, f: start };
    if let Some(f) = translation::spill(start, 0) {
        let h = G { f, ..g };
        let g = G { f: with_variables(start, f.variables), ..g };
        lemma_blank(g.cg, g.f);
        shape::lemma_start(g, none);
        lemma_spilled(start, 0);
        lemma_spill(g, g, start, 0);
        assert(with_variables(f, f.variables) == f);
        let ss = match body {
            Statement::Block(ss) => ss@,
            _ => Seq::empty(),
        };
        statements::lemma_stmts(h, ss, 0, none);
        if let Some(k) = translation::stmts(h, ss, 0) {
            shape::lemma_then(g, h, k, none);
            reveal(shape::sound);
            reveal(shape::extended);
            reveal(shape::level);
            assert(well_formed(k.f));
        }
    }
}

/// Putting a well-formed function under a name keeps all functions well formed.
proof fn lemma_put_well_formed(functions: Seq<(Seq<char>, Fun)>, name: Seq<char>, f: Fun)
    requires
        all_well_formed(functions),
        well_formed(f),
    ensures
        all_well_formed(assoc::put(functions, name, f)),
{
    reveal(assoc::put);
    reveal(assoc::defined);
    reveal(assoc::position);
    let after = assoc::put(functions, name, f);
    assert forall|k: int| 0 <= k < after.len() implies well_formed((#[trigger] after[k]).1) by {
        if k < functions.len() && after[k] == functions[k] {
            assert(well_formed(functions[k].1));
        }
    }
}

/// Generating methods keeps all functions well formed.
proof fn lemma_methods(cg: Cg, owner: Seq<char>, funcs: Seq<Statement>, k: int)
    requires
        outside_loops(cg),
        all_well_formed(cg.module.functions),
    ensures
        translation::methods(cg, owner, funcs, k) matches Some(after) ==> outside_loops(after)
            && all_well_formed(after.module.functions),
    decreases funcs.len() - k,
{
    reveal(translation::methods);
    if 0 <= k < funcs.len() {
        if let Statement::Function { name, args, returns: result, body, .. } = funcs[k] {
            let body = parts::branch(body);
            let full = crate::text::dotted(owner, name@);
            lemma_define(cg, full, args@, result, body);
            if let Some(after) = translation::define(cg, full, args@, result, body) {
                let f = choose|f: Fun| #[trigger]
                    well_formed(f) && after.module.functions == assoc::put(
                        cg.module.functions,
                        full,
                        f,
                    );
                lemma_put_well_formed(cg.module.functions, full, f);
                lemma_methods(after, owner, funcs, k + 1);
            }
        }
    }
}

/// Generating functions and methods keeps all functions well formed.
proof fn lemma_all_generated(cg: Cg, ss: Seq<Statement>, k: int)
    requires
        outside_loops(cg),
        all_well_formed(cg.module.functions),
    ensures
        translation::all_generated(cg, ss, k) matches Some(after) ==> outside_loops(after)
            && all_well_formed(after.module.functions),
    decreases ss.len() - k,
{
    reveal(translation::all_generated);
    if 0 <= k < ss.len() {
        match ss[k] {
            Statement::Function { name, args, returns: result, body, .. } => {
                reveal(translation::function);
                let body = parts::branch(body);
                lemma_define(cg, name@, args@, result, body);
                if let Some(after) = translation::define(cg, name@, args@, result, body) {
                    let f = choose|f: Fun| #[trigger]
                        well_formed(f) && after.module.functions == assoc::put(
                            cg.module.functions,
                            name@,
                            f,
                        );
                    lemma_put_well_formed(cg.module.functions, name@, f);
                    lemma_all_generated(after, ss, k + 1);
                }
            },
            Statement::Impl { struct_impl, funcs, .. } => {
                reveal(translation::implementation);
                let owner = types::name_of(types::ty_of(struct_impl));
                lemma_methods(cg, owner, funcs@, 0);
                if let Some(after) = translation::methods(cg, owner, funcs@, 0) {
                    lemma_all_generated(after, ss, k + 1);
                }
            },
            _ => {
                lemma_all_generated(cg, ss, k + 1);
            },
        }
    }
}

/// Laying variants out changes no function.
proof fn lemma_variants_laid(
    m: Mod,
    name: Seq<char>,
    variants: Seq<&str>,
    payloads: Seq<Vec<AzulaType>>,
    k: int,
)
    ensures
        translation::variants_laid(m, name, variants, payloads, k).functions == m.functions,
    decreases variants.len() - k,
{
    reveal(translation::variants_laid);
    if 0 <= k < variants.len() && k < payloads.len() {
        let struct_name = crate::text::dotted(name, variants[k]@);
        let def = crate::ir::StructDef {
            name: struct_name,
            attributes: translation::variant_members(types::types_of(payloads[k]@)),
        };
        lemma_variants_laid(
            Mod { structs: assoc::put(m.structs, struct_name, def), ..m },
            name,
            variants,
            payloads,
            k + 1,
        );
    }
}

/// Noting what statements declare changes no function and enters no loop.
proof fn lemma_all_registered(cg: Cg, ss: Seq<Statement>, k: int)
    ensures
        translation::all_registered(cg, ss, k) matches Some(after) ==> after.module.functions
            == cg.module.functions && after.loop_ends == cg.loop_ends && after.loop_continues
            == cg.loop_continues,
    decreases ss.len() - k,
{
    reveal(translation::all_registered);
    if 0 <= k < ss.len() {
        reveal(translation::registered);
        reveal(translation::global);
        reveal(translation::boxed_enum);
        if let Statement::Enum { name, variants, payloads, .. } = ss[k] {
            let m = Mod {
                enums: assoc::put(
                    cg.module.enums,
                    name@,
                    crate::ast::strs_of(variants@),
                ),
                ..cg.module
            };
            let tag = name@ + ".__tag"@;
            let def = crate::ir::StructDef {
                name: tag,
                attributes: seq![(crate::types::Ty::Int, "tag"@)],
            };
            lemma_variants_laid(
                Mod {
                    boxed_enums: assoc::put(m.boxed_enums, name@, ()),
                    structs: assoc::put(m.structs, tag, def),
                    ..m
                },
                name@,
                variants@,
                payloads@,
                0,
            );
        }
        if let Some(after) = translation::registered(cg, ss[k]) {
            lemma_all_registered(after, ss, k + 1);
        }
    }
}

/// Every function of a program that is generated is well formed.
pub proof fn lemma_program(name: Seq<char>, root: Statement)
    ensures
        translation::program(translation::fresh(name), root) matches Some(cg) ==> outside_loops(
            cg,
        ) && all_well_formed(cg.module.functions),
{
    reveal(translation::program);
    let cg = translation::fresh(name);
    if let Statement::Root(ss) = root {
        lemma_all_registered(cg, ss@, 0);
        if let Some(after) = translation::all_registered(cg, ss@, 0) {
            lemma_all_generated(after, ss@, 0);
        }
    }
}

// ---------------------------------------------------------------------------
// Ending blocks

/// Whether instructions write the registers one after the other from `n` on, and read
/// only registers that were written before.
spec fn in_order_from(s: Seq<Inst>, n: nat) -> bool
    decreases s.len(),
{
    s.len() == 0 || {
        &&& in_order_from(s.drop_last(), n)
        &&& shape::all_in_use(
            shape::operands(s.last()),
            n + shape::written(s.drop_last()),
        )
        &&& shape::dest(s.last()) matches Some(d) ==> d == n + shape::written(s.drop_last())
    }
}

/// Instructions are in order if their first part is, and the second goes on from
/// there.
proof fn lemma_in_order_parts(a: Seq<Inst>, b: Seq<Inst>)
    ensures
        shape::in_order(a + b) == (shape::in_order(a) && in_order_from(b, shape::written(a))),
        shape::written(a + b) == shape::written(a) + shape::written(b),
    decreases b.len(),
{
    if b.len() == 0 {
        assert(a + b =~= a);
    } else {
        assert((a + b).drop_last() =~= a + b.drop_last());
        assert((a + b).last() == b.last());
        lemma_in_order_parts(a, b.drop_last());
    }
}

/// The instruction that ends a block reads, writes and names nothing.
proof fn lemma_terminator(t: crate::types::Ty)
    ensures
        ({
            let i = ir::terminator(t);
            &&& shape::operands(i).len() == 0
            &&& shape::dest(i) is None
            &&& shape::targets(i).len() == 0
            &&& shape::variable(i) is None
            &&& ir::ends_block(i)
        }),
{
}

/// Ending the blocks of a function keeps its instructions in order.
proof fn lemma_ended_order(blocks: Seq<(Seq<char>, Seq<Inst>)>, f: Fun)
    requires
        f.blocks == blocks,
        shape::in_order(shape::flat(blocks)),
    ensures
        shape::in_order(shape::flat(ir::ended(f).blocks)),
        shape::written(shape::flat(ir::ended(f).blocks)) == shape::written(shape::flat(blocks)),
        forall|k: int|
            0 <= k < shape::flat(ir::ended(f).blocks).len() ==> (#[trigger] shape::flat(
                ir::ended(f).blocks,
            )[k] == ir::terminator(f.result) || shape::flat(blocks).contains(
                shape::flat(ir::ended(f).blocks)[k],
            )),
    decreases blocks.len(),
{
    let after = ir::ended(f).blocks;
    if blocks.len() == 0 {
        assert(after =~= blocks);
    } else {
        let front = blocks.drop_last();
        let shorter = Fun { blocks: front, ..f };
        let a = shape::flat(front);
        let b = blocks.last().1;
        lemma_in_order_parts(a, b);
        lemma_ended_order(front, shorter);
        assert(after.drop_last() =~= ir::ended(shorter).blocks);
        let c = shape::flat(after.drop_last());
        let d = after.last().1;
        lemma_terminator(f.result);
        if !ir::terminated(b) {
            assert(d == b.push(ir::terminator(f.result)));
            assert(d.drop_last() =~= b);
            assert(in_order_from(d, shape::written(a)));
            assert(shape::written(d) == shape::written(b));
        }
        lemma_in_order_parts(c, d);
        let all = shape::flat(after);
        let old_code = shape::flat(blocks);
        assert forall|k: int| 0 <= k < all.len() implies (#[trigger] all[k] == ir::terminator(
            f.result,
        ) || old_code.contains(all[k])) by {
            if k < c.len() {
                assert(all[k] == c[k]);
                assert(c[k] == ir::terminator(f.result) || a.contains(c[k]));
                if a.contains(c[k]) {
                    let j = choose|j: int| 0 <= j < a.len() && a[j] == c[k];
                    assert(old_code[j] == c[k]);
                }
            } else {
                let j = k - c.len();
                assert(all[k] == d[j]);
                if j < b.len() {
                    assert(d[j] == b[j]);
                    assert(old_code[a.len() + j] == b[j]);
                }
            }
        }
    }
}

/// When the blocks of a well-formed function are ended, it is well formed, every block
/// ends with an instruction that leaves it, and ending them again changes nothing.
pub proof fn lemma_ended(f: Fun)
    requires
        well_formed(f),
    ensures
        well_formed(ir::ended(f)),
        forall|k: int|
            0 <= k < ir::ended(f).blocks.len() ==> ir::terminated(
                (#[trigger] ir::ended(f).blocks[k]).1,
            ),
        ir::ended(ir::ended(f)) == ir::ended(f),
{
    let e = ir::ended(f);
    lemma_ended_order(f.blocks, f);
    lemma_terminator(f.result);
    assert forall|k: int| 0 <= k < e.blocks.len() implies ir::terminated(
        (#[trigger] e.blocks[k]).1,
    ) by {
        let b = f.blocks[k].1;
        if !ir::terminated(b) {
            assert(e.blocks[k].1 == b.push(ir::terminator(f.result)));
        }
    }
    assert(ir::ended(e).blocks =~= e.blocks) by {
        assert forall|k: int| 0 <= k < e.blocks.len() implies ir::ended(e).blocks[k]
            == e.blocks[k] by {
            assert(ir::terminated(e.blocks[k].1));
        }
    }
    assert forall|i: int, j: int| 0 <= i < j < e.blocks.len() implies (#[trigger] e.blocks[i]).0
        != (#[trigger] e.blocks[j]).0 by {
        assert(f.blocks[i].0 != f.blocks[j].0);
    }
    let code = shape::flat(e.blocks);
    let old_code = shape::flat(f.blocks);
    assert forall|k: int| 0 <= k < code.len() implies (shape::variable(
        #[trigger] code[k],
    ) matches Some(x) ==> assoc::defined(e.variables, x)) by {
        if code[k] != ir::terminator(f.result) {
            let j = choose|j: int| 0 <= j < old_code.len() && old_code[j] == code[k];
            assert(old_code[j] == code[k]);
        }
    }
    assert forall|k: int| 0 <= k < code.len() implies shape::aims(
        #[trigger] code[k],
        e.blocks,
        Set::empty(),
    ) by {
        if code[k] != ir::terminator(f.result) {
            let j = choose|j: int| 0 <= j < old_code.len() && old_code[j] == code[k];
            assert(old_code[j] == code[k]);
            shape::lemma_aims_kept(code[k], f.blocks, e.blocks, Set::empty());
        }
    }
}

/// Instruction `k` of a function writes the register whose number is the number of
/// registers written before it, and reads only those.
pub proof fn lemma_order_at(s: Seq<Inst>, k: int)
    requires
        shape::in_order(s),
        0 <= k < s.len(),
    ensures
        shape::dest(s[k]) matches Some(d) ==> d == shape::written(s.take(k)),
        shape::all_in_use(shape::operands(s[k]), shape::written(s.take(k))),
    decreases s.len(),
{
    if k == s.len() - 1 {
        assert(s.take(k) =~= s.drop_last());
    } else {
        lemma_order_at(s.drop_last(), k);
        assert(s.drop_last().take(k) =~= s.take(k));
    }
}

/// No register is written twice.
pub proof fn lemma_written_once(s: Seq<Inst>, j: int, k: int)
    requires
        shape::in_order(s),
        0 <= j < k < s.len(),
        shape::dest(s[j]) is Some,
    ensures
        shape::dest(s[k]) != shape::dest(s[j]),
{
    lemma_order_at(s, j);
    lemma_order_at(s, k);
    let head = s.take(k);
    assert(head.take(j) =~= s.take(j));
    lemma_written_grows(head, j + 1);
    assert(head.take(j + 1).drop_last() =~= s.take(j));
    assert(head.take(j + 1).last() == s[j]);
}

/// More instructions write no fewer registers.
proof fn lemma_written_grows(s: Seq<Inst>, k: int)
    requires
        0 <= k <= s.len(),
    ensures
        shape::written(s.take(k)) <= shape::written(s),
    decreases s.len() - k,
{
    if k < s.len() {
        lemma_written_grows(s, k + 1);
        assert(s.take(k + 1).drop_last() =~= s.take(k));
    } else {
        assert(s.take(k) =~= s);
    }
}

} // verus!
