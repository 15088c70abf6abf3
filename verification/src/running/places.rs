//! Addresses, blocks that are values, methods and the cells of closures.

use vstd::prelude::*;
use crate::assoc;
use crate::ast::{Expression, ExpressionNode};
use crate::ir::{Inst, Value};
use crate::lowering::LlvmType;
use crate::machine;
use crate::machine::{Env, Val, World};
use crate::running;
use crate::running::effects;
use crate::running::matches::{agree, is_position};
use crate::running::objects;
use crate::running::values;
use crate::running::{any, here, part, reaches, Blocks};
use crate::shape;
use crate::shape::{expressions, parts};
use crate::translation;
use crate::translation::G;
use crate::types;
use crate::types::Ty;

verus! {

// ---------------------------------------------------------------------------
// Addresses

/// The address of a variable is where the variable that its name stands for is stored.
pub proof fn lemma_variable_address(w: World, g: G, node: ExpressionNode, h: G, v: Value, blocks: Blocks, e: Env)
    requires
        shape::sound(g),
        node.expression is Identifier,
        translation::address(g, node) == Some((h, v)),
        part(h, blocks),
    ensures
        translation::lookup(g, node.expression->Identifier_0@) matches Some(unique) ==> part(
            g,
            blocks,
        ) && values::gives(w, blocks, g, e, h, v, Val::Pointer((w.place)(unique))),
{
    reveal(translation::address);
    if let Some(unique) = translation::lookup(g, node.expression->Identifier_0@) {
        values::lemma_one(
            w,
            g,
            Inst::Pointer(unique, g.f.registers),
            h,
            v,
            blocks,
            e,
            Val::Pointer((w.place)(unique)),
        );
    }
}

/// The address of an element is found from the array and the index, which are evaluated in
/// that order.
pub proof fn lemma_element_address(w: World, g: G, node: ExpressionNode, h: G, v: Value, blocks: Blocks) -> (r: values::Operands)
    requires
        shape::sound(g),
        node.expression is ArrayAccess,
        translation::address(g, node) == Some((h, v)),
        part(h, blocks),
    ensures
        node.expression matches Expression::ArrayAccess(array, index) && {
            &&& translation::expr(g, *array, true) == Some((r.left, r.a))
            &&& translation::expr(r.left, *index, true) == Some((r.right, r.b))
            &&& part(g, blocks)
            &&& part(r.left, blocks)
            &&& part(r.right, blocks)
            &&& translation::element(types::ty_of(array.typed)) matches Some(t) && forall|e: Env|
                #![trigger here(r.right, e)]
                values::gives(
                    w,
                    blocks,
                    r.right,
                    e,
                    h,
                    v,
                    Val::Pointer(
                        (w.element)(
                            (w.kind)(t),
                            machine::address(machine::value_of(w, e, r.a)),
                            machine::number(machine::value_of(w, e, r.b)),
                        ),
                    ),
                )
        },
{
    reveal(translation::address);
    reveal(translation::expr);
    match node.expression {
        Expression::ArrayAccess(array, index) => {
            let t = translation::element(types::ty_of(parts::node(array).typed))->0;
            let (g1, a) = translation::expr(g, parts::node(array), true)->0;
            values::lemma_value(g, parts::node(array), true, g1, a);
            let (g2, b) = translation::expr(g1, parts::node(index), true)->0;
            values::lemma_value(g1, parts::node(index), true, g2, b);
            let i = Inst::ElementPtr(a, b, g2.f.registers, t);
            running::lemma_defined(w, g2, i, h, v, blocks, arbitrary());
            running::lemma_part(g1, g2, blocks);
            running::lemma_part(g, g1, blocks);
            assert forall|e: Env| #![trigger here(g2, e)]
                values::gives(
                    w,
                    blocks,
                    g2,
                    e,
                    h,
                    v,
                    Val::Pointer(
                        (w.element)(
                            (w.kind)(t),
                            machine::address(machine::value_of(w, e, a)),
                            machine::number(machine::value_of(w, e, b)),
                        ),
                    ),
                ) by {
                values::lemma_one(
                    w,
                    g2,
                    i,
                    h,
                    v,
                    blocks,
                    e,
                    Val::Pointer(
                        (w.element)(
                            (w.kind)(t),
                            machine::address(machine::value_of(w, e, a)),
                            machine::number(machine::value_of(w, e, b)),
                        ),
                    ),
                );
            }
            values::Operands { left: g1, a, right: g2, b }
        },
        _ => arbitrary(),
    }
}

/// The address behind a pointer is the pointer.
pub proof fn lemma_behind(g: G, node: ExpressionNode)
    requires
        node.expression is Deref,
    ensures
        translation::address(g, node) == translation::expr(g, *node.expression->Deref_0, true),
{
    reveal(translation::address);
    reveal(translation::expr);
}

/// The address of a member is found from the address of the struct, or from the pointer to
/// it, at the position that the struct declares its name at.
pub proof fn lemma_member_address(w: World, g: G, node: ExpressionNode, h: G, v: Value, blocks: Blocks) -> (r: (G, Value, int))
    requires
        shape::sound(g),
        node.expression is StructAccess,
        translation::address(g, node) == Some((h, v)),
        part(h, blocks),
    ensures
        node.expression matches Expression::StructAccess(struc, name) && {
            &&& translation::object(g, *struc) == Some((r.0, r.1))
            &&& part(g, blocks)
            &&& part(r.0, blocks)
            &&& translation::struct_name(types::ty_of(struc.typed)) matches Some(owner)
                && translation::ident(*name) matches Some(member) && {
                &&& objects::is_member(r.0.cg.module, owner, member, r.2)
                &&& forall|e: Env|
                    #![trigger here(r.0, e)]
                    machine::value_of(w, e, r.1) matches Val::Pointer(p) ==> values::gives(
                        w,
                        blocks,
                        r.0,
                        e,
                        h,
                        v,
                        Val::Pointer((w.member)((w.number)(owner), p, r.2 as usize as u32)),
                    )
            }
        },
{
    reveal(translation::address);
    reveal(translation::object);
    running::lemma_ready(g);
    match node.expression {
        Expression::StructAccess(struc, name) => {
            expressions::lemma_object(g, parts::node(struc), any());
            let (g1, o) = translation::object(g, parts::node(struc))->0;
            let owner = translation::struct_name(types::ty_of(parts::node(struc).typed))->0;
            let member = translation::ident(parts::node(name))->0;
            let p = translation::member_index(g1.cg.module, owner, member)->0;
            objects::lemma_member_index(g1.cg.module, owner, member);
            let i = Inst::AccessStructMember(o, p as usize, g1.f.registers, false, owner);
            running::lemma_defined(w, g1, i, h, v, blocks, arbitrary());
            running::lemma_part(g, g1, blocks);
            assert forall|e: Env|
                #![trigger here(g1, e)]
                machine::value_of(w, e, o) is Pointer implies values::gives(
                w,
                blocks,
                g1,
                e,
                h,
                v,
                Val::Pointer(
                    (w.member)(
                        (w.number)(owner),
                        machine::address(machine::value_of(w, e, o)),
                        p as usize as u32,
                    ),
                ),
            ) by {
                values::lemma_one(
                    w,
                    g1,
                    i,
                    h,
                    v,
                    blocks,
                    e,
                    Val::Pointer(
                        (w.member)(
                            (w.number)(owner),
                            machine::address(machine::value_of(w, e, o)),
                            p as usize as u32,
                        ),
                    ),
                );
            }
            (g1, o, p)
        },
        _ => arbitrary(),
    }
}

// ---------------------------------------------------------------------------
// Variants without payloads

/// A variant of an enum without payloads is the number of its position.
pub proof fn lemma_variant(w: World, g: G, node: ExpressionNode, h: G, v: Value, blocks: Blocks, e: Env) -> (p: int)
    requires
        shape::sound(g),
        node.expression matches Expression::NamespaceAccess(ns, variant) && {
            &&& translation::ident(*ns) matches Some(owner) && !assoc::defined(
                g.cg.module.boxed_enums,
                owner,
            )
        },
        translation::expr(g, node, true) == Some((h, v)),
        part(h, blocks),
    ensures
        node.expression matches Expression::NamespaceAccess(ns, variant)
            && translation::ident(*ns) matches Some(owner)
            && translation::ident(*variant) matches Some(name) && is_position(
            g.cg.module,
            owner,
            name,
            p,
        ) && part(g, blocks) && values::gives(
            w,
            blocks,
            g,
            e,
            h,
            v,
            Val::Int(64, (p as i64) as int),
        ),
{
    reveal(translation::expr);
    reveal(translation::inner);
    reveal(translation::variant_value);
    match node.expression {
        Expression::NamespaceAccess(ns, variant) => {
            let owner = translation::ident(parts::node(ns))->0;
            let name = translation::ident(parts::node(variant))->0;
            let p = translation::variant_index(g.cg.module, owner, name)->0;
            running::matches::lemma_position(g.cg.module, owner, name, 0);
            values::lemma_one(
                w,
                g,
                Inst::ConstInt(p as i64, g.f.registers),
                h,
                v,
                blocks,
                e,
                Val::Int(64, (p as i64) as int),
            );
            p
        },
        _ => arbitrary(),
    }
}

// ---------------------------------------------------------------------------
// Blocks that are values

/// A block that is a value runs its statements in a scope of their own, one after the
/// other, and has the value of its last expression, which sees the variables of the block.
pub proof fn lemma_block_value(g: G, node: ExpressionNode, h: G, v: Value, blocks: Blocks) -> (r: Seq<G>)
    requires
        shape::sound(g),
        node.expression is Block,
        node.expression->Block_1 is Some,
        translation::expr(g, node, true) == Some((h, v)),
        part(h, blocks),
    ensures
        node.expression matches Expression::Block(body, last) && {
            &&& effects::in_turn(translation::enter(g), body@, r)
            &&& part(g, blocks)
            &&& part(r.last(), blocks)
            &&& forall|e: Env| #[trigger] here(g, e) == here(translation::enter(g), e)
            &&& translation::expr(r.last(), *last->0, true) matches Some((done, x)) && {
                &&& x == v
                &&& forall|e: Env| #[trigger] here(done, e) == here(h, e)
            }
            &&& h.cg.scopes == g.cg.scopes
        },
{
    reveal(translation::expr);
    reveal(translation::inner);
    reveal(translation::block_value);
    reveal(translation::stmts);
    match node.expression {
        Expression::Block(body, Some(last)) => {
            running::lemma_ready(g);
            shape::lemma_enter(g, any());
            let start = translation::enter(g);
            let g1 = translation::stmts(start, body@, 0)->0;
            let places = effects::lemma_in_turn(start, body@, 0, seq![start], g1);
            let (g2, x) = translation::expr(g1, parts::node(last), true)->0;
            values::lemma_value(g1, parts::node(last), true, g2, x);
            shape::lemma_then(start, g1, g2, any());
            assert(h == translation::leave(g2));
            assert(h.f == g2.f && start.f == g.f) by {
                reveal(translation::enter);
                reveal(translation::leave);
            }
            running::lemma_same_code(g2, h, blocks);
            running::lemma_part(g1, g2, blocks);
            running::lemma_part(start, g1, blocks);
            assert(h.cg.scopes == g.cg.scopes) by {
                reveal(translation::enter);
                reveal(translation::leave);
                reveal(shape::level);
                assert(h.cg.scopes =~= g.cg.scopes);
            }
            places
        },
        _ => arbitrary(),
    }
}

// ---------------------------------------------------------------------------
// Methods

/// A method that takes what its receiver is gets the receiver first, and then the values of
/// the arguments, from left to right.
pub proof fn lemma_method_call(w: World, g: G, node: ExpressionNode, h: G, v: Value, blocks: Blocks, name: Seq<char>) -> (r: (G, Value, Seq<G>, Seq<Value>))
    requires
        shape::sound(g),
        node.expression matches Expression::FunctionCall { function, args } && {
            &&& translation::boxed_variant(g.cg.module, *function) is None
            &&& translation::resolve(*function) == Some(name)
            &&& function.expression matches Expression::StructAccess(left, _) && !(
            translation::receiver(g.cg.signatures, types::ty_of(left.typed), name) is Load)
        },
        !(types::ty_of(node.typed) is Never),
        translation::expr(g, node, true) == Some((h, v)),
        part(h, blocks),
    ensures
        node.expression matches Expression::FunctionCall { function, args }
            && function.expression matches Expression::StructAccess(left, _) && {
            &&& (if translation::receiver(
                g.cg.signatures,
                types::ty_of(left.typed),
                name,
            ) is Address {
                translation::address(g, *left)
            } else {
                translation::expr(g, *left, true)
            }) == Some((r.0, r.1))
            &&& values::in_turn(r.0, args@, r.2, r.3)
            &&& part(g, blocks)
            &&& part(r.0, blocks)
            &&& part(r.2.last(), blocks)
            &&& v == Value::Local(r.2.last().f.registers)
            &&& forall|e: Env|
                #![trigger here(r.2.last(), e)]
                reaches(
                    w,
                    blocks,
                    here(r.2.last(), e),
                    here(
                        h,
                        machine::call(w, e, name, seq![r.1] + r.3, r.2.last().f.registers),
                    ),
                )
        },
{
    reveal(translation::expr);
    reveal(translation::inner);
    reveal(translation::exprs);
    reveal(translation::address);
    reveal(translation::function_call);
    running::lemma_ready(g);
    match node.expression {
        Expression::FunctionCall { function, args } => {
            match parts::node(function).expression {
                Expression::StructAccess(left, _) => {
                    let by_address = translation::receiver(
                        g.cg.signatures,
                        types::ty_of(parts::node(left).typed),
                        name,
                    ) is Address;
                    expressions::lemma_address(g, parts::node(left), any());
                    expressions::lemma_expr(g, parts::node(left), true, any());
                    let (g1, o) = if by_address {
                        translation::address(g, parts::node(left))->0
                    } else {
                        translation::expr(g, parts::node(left), true)->0
                    };
                    running::lemma_ready(g1);
                    let (g2, vs) = translation::exprs(g1, args@, 0, seq![o])->0;
                    let places = values::lemma_in_turn(g1, args@, 0, seq![o], seq![g1], g2, vs);
                    let rest = vs.skip(1);
                    assert(seq![o] + rest =~= vs) by {
                        assert(vs[0] == seq![o][0]);
                    }
                    let i = Inst::FunctionCall(name, vs, g2.f.registers);
                    running::lemma_defined(w, g2, i, h, v, blocks, arbitrary());
                    running::lemma_part(g1, g2, blocks);
                    running::lemma_part(g, g1, blocks);
                    assert(places.last() == g2);
                    assert forall|e: Env| #![trigger here(g2, e)]
                        reaches(
                            w,
                            blocks,
                            here(g2, e),
                            here(h, machine::call(w, e, name, vs, g2.f.registers)),
                        ) by {
                        running::lemma_defined(w, g2, i, h, v, blocks, e);
                    }
                    (g1, o, places, rest)
                },
                _ => arbitrary(),
            }
        },
        _ => arbitrary(),
    }
}

// ---------------------------------------------------------------------------
// Cells of closures

/// A cell of the environment of a closure is read where cell `n` of its object is written:
/// behind the code, which takes as many bytes as a cell, and the `n` cells before it.
pub proof fn lemma_env_cell(w: World, g: G, n: usize, h: G, v: Value, blocks: Blocks, e: Env) -> (after: Env)
    requires
        shape::sound(g),
        translation::env_cell(g, n) == Some((h, v)),
        part(h, blocks),
        n < 0x1000_0000,
        (w.kind)(Ty::Str) is Pointer,
    ensures
        part(g, blocks),
        reaches(w, blocks, here(g, e), here(h, after)),
        agree(e, after, g.f.registers as nat),
        translation::lookup(g, "$env"@) matches Some(unique) && machine::value_of(w, after, v)
            == machine::read_as(
            w,
            LlvmType::Pointer,
            e.memory[(w.element)(
                LlvmType::Int(8),
                machine::address(
                    machine::read_as(w, LlvmType::Pointer, e.memory[(w.place)(unique)]),
                ),
                8 * (n + 1),
            )],
        ),
{
    reveal(translation::env_cell);
    reveal(translation::cells);
    running::lemma_ready(g);
    let unique = translation::lookup(g, "$env"@)->0;
    shape::lemma_lookup(g, "$env"@);
    let load = Inst::Load(unique, g.f.registers, Ty::Str);
    shape::lemma_def(g, g, load, any());
    let (g1, env) = translation::def(g, load)->0;
    let offset = translation::cells(n as i64)->0;
    parts::lemma_int(g, g1, offset, any());
    let constant = Inst::ConstInt(offset, g1.f.registers);
    let (g2, at) = translation::int_const(g1, offset)->0;
    parts::lemma_call(g, g2, "ptr_add"@, seq![env, at], any());
    let go = Inst::FunctionCall("ptr_add"@, seq![env, at], g2.f.registers);
    let (g3, cell) = translation::call(g2, "ptr_add"@, seq![env, at])->0;
    let read = Inst::FunctionCall("ptr_read_str"@, seq![cell], g3.f.registers);
    let e1 = machine::performed(w, e, load);
    let e2 = machine::performed(w, e1, constant);
    let e3 = machine::performed(w, e2, go);
    let e4 = machine::performed(w, e3, read);
    running::lemma_defined(w, g3, read, h, v, blocks, e3);
    running::lemma_defined(w, g2, go, g3, cell, blocks, e2);
    running::lemma_defined(w, g1, constant, g2, at, blocks, e1);
    running::lemma_defined(w, g, load, g1, env, blocks, e);
    running::lemma_on(w, blocks, here(g, e), here(g1, e1), here(g2, e2));
    running::lemma_on(w, blocks, here(g, e), here(g2, e2), here(g3, e3));
    running::lemma_on(w, blocks, here(g, e), here(g3, e3), here(h, e4));
    let base = machine::read_as(w, LlvmType::Pointer, e.memory[(w.place)(unique)]);
    assert(machine::value_of(w, e2, env) == base);
    assert(machine::value_of(w, e2, at) == Val::Int(64, 8 * (n + 1)));
    let moved = (w.element)(LlvmType::Int(8), machine::address(base), 8 * (n + 1));
    assert(e3 == machine::set(e2, g2.f.registers, Val::Pointer(moved))) by {
        let vs = machine::values_of(w, e2, seq![env, at]);
        assert(vs[0] == base && vs[1] == Val::Int(64, 8 * (n + 1)));
    }
    assert(machine::value_of(w, e3, cell) == Val::Pointer(moved));
    assert(e4 == machine::set(
        e3,
        g3.f.registers,
        machine::read_as(w, LlvmType::Pointer, e3.memory[moved]),
    )) by {
        let vs = machine::values_of(w, e3, seq![cell]);
        assert(vs[0] == Val::Pointer(moved));
        reveal_strlit("ptr_add");
        reveal_strlit("ptr_read_int");
        reveal_strlit("ptr_read_str");
        assert("ptr_add"@.len() == 7);
        assert("ptr_read_int"@[9] == 'i');
        assert("ptr_read_str"@[9] == 's');
    }
    e4
}

/// What a closure captures is written where the cells of its environment are read: cell
/// `k` behind the code, which takes as many bytes as a cell, and the `k` cells before it.
pub proof fn lemma_captured_cell(
    w: World,
    g: G,
    captures: Seq<ExpressionNode>,
    k: int,
    object: Value,
    h: G,
    blocks: Blocks,
) -> (r: (G, Value, G))
    requires
        shape::sound(g),
        shape::in_use(object, g.f.registers as nat),
        0 <= k < captures.len() < 0x1000_0000,
        translation::captured(g, captures, k, object) == Some(h),
        part(h, blocks),
    ensures
        translation::expr(g, captures[k], true) == Some((r.0, r.1)),
        translation::captured(r.2, captures, k + 1, object) == Some(h),
        part(g, blocks),
        part(r.0, blocks),
        part(r.2, blocks),
        forall|e: Env|
            #![trigger here(r.0, e)]
            machine::value_of(w, e, object) is Pointer && machine::value_of(w, e, r.1) is Pointer
                ==> exists|e2: Env|
                #![trigger here(r.2, e2)]
                reaches(w, blocks, here(r.0, e), here(r.2, e2)) && agree(
                    machine::stored(
                        e,
                        (w.element)(
                            LlvmType::Int(8),
                            machine::address(machine::value_of(w, e, object)),
                            8 * (k + 1),
                        ),
                        machine::value_of(w, e, r.1),
                    ),
                    e2,
                    r.0.f.registers as nat,
                ),
{
    reveal(translation::captured);
    reveal(translation::expr);
    reveal(translation::cells);
    running::lemma_ready(g);
    let (g1, cell) = translation::expr(g, captures[k], true)->0;
    values::lemma_value(g, captures[k], true, g1, cell);
    running::lemma_ready(g1);
    let n = k as usize as i64;
    assert(n == k);
    let offset = translation::cells(n)->0;
    parts::lemma_int(g1, g1, offset, any());
    let constant = Inst::ConstInt(offset, g1.f.registers);
    let (g2, at) = translation::int_const(g1, offset)->0;
    parts::lemma_call(g1, g2, "ptr_add"@, seq![object, at], any());
    let go = Inst::FunctionCall("ptr_add"@, seq![object, at], g2.f.registers);
    let (g3, place) = translation::call(g2, "ptr_add"@, seq![object, at])->0;
    parts::lemma_call(g1, g3, "ptr_write_str"@, seq![place, cell], any());
    let write = Inst::FunctionCall("ptr_write_str"@, seq![place, cell], g3.f.registers);
    let (g4, unused) = translation::call(g3, "ptr_write_str"@, seq![place, cell])->0;
    running::lemma_ready(g4);
    expressions::lemma_captured(g4, g4, captures, k + 1, object, any());
    running::lemma_part(g4, h, blocks);
    let some = arbitrary::<Env>();
    running::lemma_defined(w, g3, write, g4, unused, blocks, some);
    running::lemma_defined(w, g2, go, g3, place, blocks, some);
    running::lemma_defined(w, g1, constant, g2, at, blocks, some);
    running::lemma_part(g, g1, blocks);
    assert forall|e: Env|
        #![trigger here(g1, e)]
        machine::value_of(w, e, object) is Pointer && machine::value_of(w, e, cell) is Pointer
            implies exists|e2: Env|
            #![trigger here(g4, e2)]
            reaches(w, blocks, here(g1, e), here(g4, e2)) && agree(
                machine::stored(
                    e,
                    (w.element)(
                        LlvmType::Int(8),
                        machine::address(machine::value_of(w, e, object)),
                        8 * (k + 1),
                    ),
                    machine::value_of(w, e, cell),
                ),
                e2,
                g1.f.registers as nat,
            ) by {
        let e1 = machine::performed(w, e, constant);
        let e2 = machine::performed(w, e1, go);
        let e3 = machine::performed(w, e2, write);
        running::lemma_defined(w, g1, constant, g2, at, blocks, e);
        running::lemma_defined(w, g2, go, g3, place, blocks, e1);
        running::lemma_defined(w, g3, write, g4, unused, blocks, e2);
        running::lemma_on(w, blocks, here(g1, e), here(g2, e1), here(g3, e2));
        running::lemma_on(w, blocks, here(g1, e), here(g3, e2), here(g4, e3));
        let base = machine::value_of(w, e, object);
        let moved = (w.element)(LlvmType::Int(8), machine::address(base), 8 * (k + 1));
        assert(e2 == machine::set(e1, g2.f.registers, Val::Pointer(moved))) by {
            let vs = machine::values_of(w, e1, seq![object, at]);
            assert(vs[0] == base && vs[1] == Val::Int(64, 8 * (k + 1)));
        }
        assert(e3 == machine::stored(e2, moved, machine::value_of(w, e, cell))) by {
            let vs = machine::values_of(w, e2, seq![place, cell]);
            assert(vs[0] == Val::Pointer(moved));
            assert(vs[1] == machine::value_of(w, e, cell));
            reveal_strlit("ptr_add");
            reveal_strlit("ptr_read_int");
            reveal_strlit("ptr_read_str");
            reveal_strlit("ptr_write_str");
            assert("ptr_add"@.len() == 7);
            assert("ptr_read_int"@.len() == 12);
            assert("ptr_read_str"@.len() == 12);
            assert("ptr_write_str"@.len() == 13);
        }
        assert(reaches(w, blocks, here(g1, e), here(g4, e3)));
    }
    (g1, cell, g4)
}

/// What has no storage of its own gets some: its value is stored in a variable that the
/// program cannot name, and the address is that of the variable.
pub proof fn lemma_temporary_address(w: World, g: G, node: ExpressionNode, h: G, v: Value, blocks: Blocks) -> (r: (G, G, Value, Seq<char>))
    requires
        shape::sound(g),
        !(node.expression is StructAccess),
        !(node.expression is ArrayAccess),
        !(node.expression is Deref),
        node.expression matches Expression::Identifier(name) ==> translation::lookup(
            g,
            name@,
        ) is None,
        translation::address(g, node) == Some((h, v)),
        part(h, blocks),
    ensures
        ({
            let t = (w.kind)(types::ty_of(node.typed));
            &&& shape::is_temporary(r.3)
            &&& translation::expr(r.0, node, true) == Some((r.1, r.2))
            &&& part(g, blocks)
            &&& part(r.0, blocks)
            &&& part(r.1, blocks)
            &&& r.0.cg == g.cg
            &&& forall|e: Env| #[trigger] here(g, e) == here(r.0, e)
            &&& forall|e: Env|
                #![trigger here(r.1, e)]
                exists|e2: Env|
                    #![trigger here(h, e2)]
                    reaches(w, blocks, here(r.1, e), here(h, e2)) && machine::value_of(w, e2, v)
                        == Val::Pointer((w.place)(r.3)) && agree(
                        machine::stored(
                            e,
                            (w.place)(r.3),
                            machine::fitted(machine::value_of(w, e, r.2), t),
                        ),
                        e2,
                        r.1.f.registers as nat,
                    )
        }),
{
    reveal(translation::address);
    reveal(translation::expr);
    running::lemma_ready(g);
    let ty = types::ty_of(node.typed);
    let temp = translation::label("__tmp_"@, g.f.if_index);
    assert(shape::is_temporary(temp));
    shape::lemma_next_if(g, g, any());
    let g1 = translation::next_if(g)->0;
    running::lemma_ready(g1);
    let (g2, x) = translation::expr(g1, node, true)->0;
    values::lemma_value(g1, node, true, g2, x);
    running::lemma_ready(g2);
    shape::lemma_slot(g2, g2, temp, ty, any());
    let g3 = translation::slot(g2, temp, ty);
    let store = Inst::Store(temp, x, ty);
    shape::lemma_emit(g2, g3, store, any());
    let g4 = translation::emit(g3, store);
    let point = Inst::Pointer(temp, g4.f.registers);
    let some = arbitrary::<Env>();
    running::lemma_defined(w, g4, point, h, v, blocks, some);
    running::lemma_emitted(w, g3, store, blocks, some);
    running::lemma_same_code(g2, g3, blocks);
    running::lemma_part(g1, g2, blocks);
    running::lemma_same_code(g, g1, blocks);
    assert forall|e: Env| #![trigger here(g2, e)]
        exists|e2: Env|
            #![trigger here(h, e2)]
            reaches(w, blocks, here(g2, e), here(h, e2)) && machine::value_of(w, e2, v)
                == Val::Pointer((w.place)(temp)) && agree(
                machine::stored(
                    e,
                    (w.place)(temp),
                    machine::fitted(machine::value_of(w, e, x), (w.kind)(ty)),
                ),
                e2,
                g2.f.registers as nat,
            ) by {
        let e1 = machine::performed(w, e, store);
        let e2 = machine::performed(w, e1, point);
        running::lemma_emitted(w, g3, store, blocks, e);
        running::lemma_defined(w, g4, point, h, v, blocks, e1);
        assert(here(g2, e) == here(g3, e));
        running::lemma_on(w, blocks, here(g2, e), here(g4, e1), here(h, e2));
        assert(reaches(w, blocks, here(g2, e), here(h, e2)));
        assert(agree(
            machine::stored(
                e,
                (w.place)(temp),
                machine::fitted(machine::value_of(w, e, x), (w.kind)(ty)),
            ),
            e2,
            g2.f.registers as nat,
        ));
    }
    (g1, g2, x, temp)
}

} // verus!
