//! What the code of structs, variants and arrays builds, reads and binds.

use vstd::prelude::*;
use crate::assoc;
use crate::ast::{Expression, ExpressionNode, MatchPattern, Statement};
use crate::ir;
use crate::ir::{Inst, Value};
use crate::lowering::LlvmType;
use crate::machine;
use crate::machine::{Env, Event, Val, World};
use crate::running;
use crate::running::matches::{agree, is_position, member_of};
use crate::running::tuples::readable;
use crate::running::values;
use crate::running::{any, here, part, reaches, Blocks};
use crate::shape;
use crate::shape::{expressions, parts, scopes};
use crate::text;
use crate::translation;
use crate::translation::G;
use crate::types;
use crate::types::Ty;

verus! {

// ---------------------------------------------------------------------------
// Structs

/// Whether the code of named expressions goes from each place to the next, with their
/// values.
pub open spec fn in_turn(g: G, es: Seq<(&str, ExpressionNode)>, places: Seq<G>, vs: Seq<Value>) -> bool {
    &&& places.len() == es.len() + 1
    &&& vs.len() == es.len()
    &&& places[0] == g
    &&& forall|k: int|
        0 <= k < es.len() ==> #[trigger] translation::expr(places[k], es[k].1, true) == Some(
            (places[k + 1], vs[k]),
        )
}

/// The values of members are evaluated in the order in which they are written.
proof fn lemma_fields(g: G, es: Seq<(&str, ExpressionNode)>, k: int, vs: Seq<Value>, places: Seq<G>, h: G, out: Seq<Value>) -> (r: Seq<G>)
    requires
        shape::sound(g),
        0 <= k <= es.len(),
        places.len() == k + 1,
        places[k] == g,
        vs.len() == k,
        forall|j: int|
            0 <= j < k ==> #[trigger] translation::expr(places[j], es[j].1, true) == Some(
                (places[j + 1], vs[j]),
            ),
        translation::fields(g, es, k, vs) == Some((h, out)),
    ensures
        in_turn(places[0], es, r, out),
        r.last() == h,
        shape::sound(h),
        shape::leads(g, h, any()),
    decreases es.len() - k,
{
    reveal(translation::fields);
    reveal(translation::expr);
    running::lemma_ready(g);
    if k < es.len() {
        let (g1, v) = translation::expr(g, es[k].1, true)->0;
        values::lemma_value(g, es[k].1, true, g1, v);
        let more = vs.push(v);
        let next = places.push(g1);
        assert forall|j: int| 0 <= j < k + 1 implies #[trigger] translation::expr(
            next[j],
            es[j].1,
            true,
        ) == Some((next[j + 1], more[j])) by {
            if j < k {
                assert(translation::expr(places[j], es[j].1, true) == Some(
                    (places[j + 1], vs[j]),
                ));
            }
        }
        let r = lemma_fields(g1, es, k + 1, more, next, h, out);
        shape::lemma_then(g, g1, h, any());
        r
    } else {
        places
    }
}

/// A struct is made of the values of its members, in the order in which they are written.
pub proof fn lemma_struct(w: World, g: G, node: ExpressionNode, h: G, v: Value, blocks: Blocks) -> (r: (Seq<G>, Seq<Value>))
    requires
        shape::sound(g),
        node.expression is StructInitialisation,
        translation::expr(g, node, true) == Some((h, v)),
        part(h, blocks),
    ensures
        node.expression matches Expression::StructInitialisation(struc, fields) && {
            &&& in_turn(g, fields@, r.0, r.1)
            &&& part(g, blocks)
            &&& part(r.0.last(), blocks)
            &&& translation::ident(*struc) matches Some(name) && forall|e: Env|
                #![trigger here(r.0.last(), e)]
                ({
                    let n = (w.number)(name);
                    values::gives(
                        w,
                        blocks,
                        r.0.last(),
                        e,
                        h,
                        v,
                        Val::Struct(
                            n,
                            machine::with_members(
                                (w.unset)(n),
                                (w.layout)(n),
                                machine::values_of(w, e, r.1),
                                fields@.len() as int,
                            ),
                        ),
                    )
                })
        },
{
    reveal(translation::expr);
    reveal(translation::inner);
    reveal(translation::fields);
    reveal(translation::struct_value);
    match node.expression {
        Expression::StructInitialisation(struc, fields) => {
            let (g1, vs) = translation::fields(g, fields@, 0, Seq::empty())->0;
            let places = lemma_fields(g, fields@, 0, Seq::empty(), seq![g], g1, vs);
            let name = translation::ident(parts::node(struc))->0;
            let n = (w.number)(name);
            let i = Inst::CreateStruct(name, vs, g1.f.registers);
            running::lemma_defined(w, g1, i, h, v, blocks, arbitrary());
            running::lemma_part(g, g1, blocks);
            assert forall|e: Env| #![trigger here(g1, e)]
                values::gives(
                    w,
                    blocks,
                    g1,
                    e,
                    h,
                    v,
                    Val::Struct(
                        n,
                        machine::with_members(
                            (w.unset)(n),
                            (w.layout)(n),
                            machine::values_of(w, e, vs),
                            fields@.len() as int,
                        ),
                    ),
                ) by {
                values::lemma_one(
                    w,
                    g1,
                    i,
                    h,
                    v,
                    blocks,
                    e,
                    Val::Struct(
                        n,
                        machine::with_members(
                            (w.unset)(n),
                            (w.layout)(n),
                            machine::values_of(w, e, vs),
                            fields@.len() as int,
                        ),
                    ),
                );
            }
            (places, vs)
        },
        _ => arbitrary(),
    }
}

/// Whether `p` is the position of the member `name` of a struct.
pub open spec fn is_member(m: ir::Mod, owner: Seq<char>, name: Seq<char>, p: int) -> bool {
    assoc::get(m.structs, owner) matches Some(s) && {
        &&& 0 <= p < s.attributes.len()
        &&& s.attributes[p].1 == name
        &&& forall|q: int| 0 <= q < p ==> (#[trigger] s.attributes[q]).1 != name
    }
}

/// The number of a member is its position.
pub proof fn lemma_member_index(m: ir::Mod, owner: Seq<char>, name: Seq<char>)
    ensures
        translation::member_index(m, owner, name) matches Some(p) ==> is_member(m, owner, name, p),
{
    reveal(translation::member_index);
    if let Some(s) = assoc::get(m.structs, owner) {
        let names = Seq::new(s.attributes.len(), |i: int| s.attributes[i].1);
        running::matches::lemma_spot(names, name, 0);
        if let Some(p) = translation::spot(names, name, 0) {
            assert forall|q: int| 0 <= q < p implies (#[trigger] s.attributes[q]).1 != name by {
                assert(names[q] != name);
            }
        }
    }
}

/// A member of a struct is the one at the position that the struct declares its name at.
pub proof fn lemma_struct_access(w: World, g: G, node: ExpressionNode, h: G, v: Value, blocks: Blocks) -> (r: (G, Value, int))
    requires
        shape::sound(g),
        node.expression is StructAccess,
        translation::expr(g, node, true) == Some((h, v)),
        part(h, blocks),
    ensures
        node.expression matches Expression::StructAccess(struc, name) && {
            &&& translation::expr(g, *struc, true) == Some((r.0, r.1))
            &&& part(g, blocks)
            &&& part(r.0, blocks)
            &&& translation::struct_name(types::ty_of(struc.typed)) matches Some(owner)
                && translation::ident(*name) matches Some(member) && {
                &&& is_member(r.0.cg.module, owner, member, r.2)
                &&& forall|e: Env|
                    #![trigger here(r.0, e)]
                    readable(machine::value_of(w, e, r.1)) ==> values::gives(
                        w,
                        blocks,
                        r.0,
                        e,
                        h,
                        v,
                        member_of(
                            w,
                            e,
                            machine::value_of(w, e, r.1),
                            r.2 as usize as u32,
                            owner,
                        ),
                    )
            }
        },
{
    reveal(translation::expr);
    reveal(translation::inner);
    reveal(translation::struct_access);
    match node.expression {
        Expression::StructAccess(struc, name) => {
            let (g1, o) = translation::expr(g, parts::node(struc), true)->0;
            values::lemma_value(g, parts::node(struc), true, g1, o);
            let member = translation::ident(parts::node(name))->0;
            let owner = translation::struct_name(types::ty_of(parts::node(struc).typed))->0;
            let p = translation::member_index(g1.cg.module, owner, member)->0;
            lemma_member_index(g1.cg.module, owner, member);
            let i = Inst::AccessStructMember(o, p as usize, g1.f.registers, true, owner);
            running::lemma_defined(w, g1, i, h, v, blocks, arbitrary());
            running::lemma_part(g, g1, blocks);
            assert forall|e: Env|
                #![trigger here(g1, e)]
                readable(machine::value_of(w, e, o)) implies values::gives(
                w,
                blocks,
                g1,
                e,
                h,
                v,
                member_of(w, e, machine::value_of(w, e, o), p as usize as u32, owner),
            ) by {
                values::lemma_one(
                    w,
                    g1,
                    i,
                    h,
                    v,
                    blocks,
                    e,
                    member_of(w, e, machine::value_of(w, e, o), p as usize as u32, owner),
                );
            }
            (g1, o, p)
        },
        _ => arbitrary(),
    }
}

/// An assignment to a member stores the value at the position that the struct declares the
/// name at.
pub proof fn lemma_store_member(w: World, g: G, s: Statement, h: G, blocks: Blocks) -> (r: (G, Value, G, Value, int))
    requires
        shape::sound(g),
        s is Reassign,
        s->Reassign_0.expression is StructAccess,
        translation::stmt(g, s) == Some(h),
        part(h, blocks),
    ensures
        s matches Statement::Reassign(target, value, _) && {
            let struc = *target.expression->StructAccess_0;
            let name = *target.expression->StructAccess_1;
            &&& translation::expr(g, value, true) == Some((r.0, r.1))
            &&& translation::object(r.0, struc) == Some((r.2, r.3))
            &&& part(g, blocks)
            &&& part(r.0, blocks)
            &&& part(r.2, blocks)
            &&& translation::struct_name(types::ty_of(struc.typed)) matches Some(owner)
                && translation::ident(name) matches Some(member) && {
                &&& is_member(r.2.cg.module, owner, member, r.4)
                &&& forall|e: Env|
                    #![trigger here(r.2, e)]
                    machine::value_of(w, e, r.3) matches Val::Pointer(p) ==> reaches(
                        w,
                        blocks,
                        here(r.2, e),
                        here(
                            h,
                            machine::stored(
                                e,
                                (w.member)((w.number)(owner), p, r.4 as usize as u32),
                                machine::fitted(
                                    machine::value_of(w, e, r.1),
                                    (w.layout)((w.number)(owner))[r.4 as usize as u32 as int],
                                ),
                            ),
                        ),
                    )
            }
        },
{
    reveal(translation::stmt);
    reveal(translation::reassign);
    reveal(translation::store_to);
    reveal(translation::expr);
    reveal(translation::object);
    match s {
        Statement::Reassign(target, value, _) => {
            assert(translation::reassign(g, s) == Some(h));
            let (g1, v) = translation::expr(g, value, true)->0;
            values::lemma_value(g, value, true, g1, v);
            assert(translation::store_to(g1, target, v) == Some(h));
            match target.expression {
                Expression::StructAccess(struc, name) => {
                    running::lemma_ready(g1);
                    expressions::lemma_object(g1, parts::node(struc), any());
                    let (g2, o) = translation::object(g1, parts::node(struc))->0;
                    let member = translation::ident(parts::node(name))->0;
                    let owner = translation::struct_name(types::ty_of(parts::node(struc).typed))->0;
                    let p = translation::member_index(g2.cg.module, owner, member)->0;
                    lemma_member_index(g2.cg.module, owner, member);
                    let i = Inst::StoreStructMember(o, p as usize, v, owner);
                    running::lemma_emitted(w, g2, i, blocks, arbitrary());
                    running::lemma_part(g1, g2, blocks);
                    running::lemma_part(g, g1, blocks);
                    assert forall|e: Env| #![trigger here(g2, e)]
                        reaches(w, blocks, here(g2, e), here(h, machine::performed(w, e, i))) by {
                        running::lemma_emitted(w, g2, i, blocks, e);
                    }
                    (g1, v, g2, o, p)
                },
                _ => arbitrary(),
            }
        },
        _ => arbitrary(),
    }
}

// ---------------------------------------------------------------------------
// Variants

/// Memory after the values from position `k` on are stored in the members of a struct,
/// from member `first` on.
pub open spec fn filled(
    w: World,
    memory: Map<int, Val>,
    n: usize,
    p: int,
    first: int,
    vs: Seq<Val>,
    k: int,
) -> Map<int, Val>
    decreases vs.len() - k,
{
    if k < 0 || k >= vs.len() {
        memory
    } else {
        let i = (first + k) as usize as u32;
        filled(
            w,
            memory.insert(
                (w.member)(n, p, i),
                machine::fitted(vs[k], (w.layout)(n)[i as int]),
            ),
            n,
            p,
            first,
            vs,
            k + 1,
        )
    }
}

/// Values are stored in the members of a struct, one after the other.
proof fn lemma_store_members(
    w: World,
    g: G,
    object: Value,
    vs: Seq<Value>,
    first: int,
    name: Seq<char>,
    k: int,
    blocks: Blocks,
    e: Env,
    p: int,
    xs: Seq<Val>,
)
    requires
        shape::sound(g),
        shape::in_use(object, g.f.registers as nat),
        shape::all_in_use(vs, g.f.registers as nat),
        0 <= k,
        part(translation::store_members(g, object, vs, first, name, k), blocks),
        machine::value_of(w, e, object) == Val::Pointer(p),
        xs == machine::values_of(w, e, vs),
    ensures
        part(g, blocks),
        reaches(
            w,
            blocks,
            here(g, e),
            here(
                translation::store_members(g, object, vs, first, name, k),
                Env { memory: filled(w, e.memory, (w.number)(name), p, first, xs, k), ..e },
            ),
        ),
    decreases vs.len() - k,
{
    reveal(translation::store_members);
    running::lemma_ready(g);
    if k < vs.len() {
        let i = Inst::StoreStructMember(object, (first + k) as usize, vs[k], name);
        shape::lemma_emit(g, g, i, any());
        let g1 = translation::emit(g, i);
        let e1 = machine::performed(w, e, i);
        assert(xs[k] == machine::value_of(w, e, vs[k]));
        assert(machine::values_of(w, e1, vs) =~= xs) by {
            assert forall|j: int| 0 <= j < vs.len() implies machine::value_of(w, e1, vs[j])
                == #[trigger] xs[j] by {}
        }
        lemma_store_members(w, g1, object, vs, first, name, k + 1, blocks, e1, p, xs);
        running::lemma_emitted(w, g, i, blocks, e);
        let last = translation::store_members(g, object, vs, first, name, k);
        let e2 = Env { memory: filled(w, e.memory, (w.number)(name), p, first, xs, k), ..e };
        assert(e2 == Env {
            memory: filled(w, e1.memory, (w.number)(name), p, first, xs, k + 1),
            ..e1
        });
        running::lemma_on(w, blocks, here(g, e), here(g1, e1), here(last, e2));
    } else {
        running::lemma_here(w, blocks, here(g, e));
    }
}

/// A value of an enum with payloads is allocated in as many bytes as its variant takes. Its
/// first member is the position of the variant, and the members behind it are the payload,
/// in the order in which it is written.
pub proof fn lemma_construct(
    w: World,
    g: G,
    owner: Seq<char>,
    variant: Seq<char>,
    vs: Seq<Value>,
    h: G,
    v: Value,
    blocks: Blocks,
    e: Env,
) -> (r: (Env, int, int))
    requires
        shape::sound(g),
        shape::all_in_use(vs, g.f.registers as nat),
        translation::construct(g, owner, variant, vs) == Some((h, v)),
        part(h, blocks),
        (w.result)("malloc"@) == Some(LlvmType::Pointer),
    ensures
        part(g, blocks),
        is_position(g.cg.module, owner, variant, r.2),
        reaches(w, blocks, here(g, e), here(h, r.0)),
        machine::value_of(w, r.0, v) == Val::Pointer(r.1),
        forall|i: usize| i < g.f.registers ==> #[trigger] r.0.registers[i] == e.registers[i],
        ({
            let name = text::dotted(owner, variant);
            let n = (w.number)(name);
            let size = Val::Int(64, (w.size)((w.kind)(Ty::Named(name))));
            let asked = machine::seen(
                w,
                e,
                Event::Call(
                    "malloc"@,
                    machine::all_passed(w, seq![size], (w.params)("malloc"@)),
                ),
            );
            &&& r.0.events == asked.events
            &&& Val::Pointer(r.1) == machine::read_as(
                w,
                LlvmType::Pointer,
                (w.answer)(asked.events),
            )
            &&& r.0.memory == filled(
                w,
                asked.memory.insert(
                    (w.member)(n, r.1, 0),
                    machine::fitted(Val::Int(64, (r.2 as i64) as int), (w.layout)(n)[0]),
                ),
                n,
                r.1,
                1,
                machine::values_of(w, e, vs),
                0,
            )
        }),
{
    reveal(translation::construct);
    let name = text::dotted(owner, variant);
    running::lemma_ready(g);
    let sized = Inst::SizeOf(Ty::Named(name), g.f.registers);
    shape::lemma_def(g, g, sized, any());
    let (g1, size) = translation::def(g, sized)->0;
    parts::lemma_call(g, g1, "malloc"@, seq![size], any());
    let (g2, object) = translation::call(g1, "malloc"@, seq![size])->0;
    let index = translation::variant_index(g2.cg.module, owner, variant)->0;
    running::matches::lemma_position(g2.cg.module, owner, variant, 0);
    parts::lemma_int(g, g2, index as i64, any());
    let constant = Inst::ConstInt(index as i64, g2.f.registers);
    let (g3, tag) = translation::int_const(g2, index as i64)->0;
    let store = Inst::StoreStructMember(object, 0, tag, name);
    shape::lemma_emit(g, g3, store, any());
    let g4 = translation::emit(g3, store);
    assert(shape::all_in_use(vs, g4.f.registers as nat)) by {
        assert forall|j: int| 0 <= j < vs.len() implies shape::in_use(
            #[trigger] vs[j],
            g4.f.registers as nat,
        ) by {
            assert(shape::in_use(vs[j], g.f.registers as nat));
        }
    }
    parts::lemma_store_members(g, g4, object, vs, 1, name, 0, any());
    running::lemma_ready(g4);
    parts::lemma_store_members(g4, g4, object, vs, 1, name, 0, any());
    running::lemma_part(g4, h, blocks);
    running::lemma_emitted(w, g3, store, blocks, e);
    running::lemma_defined(w, g2, constant, g3, tag, blocks, e);
    let (e2, p) = lemma_asked(w, g, name, g1, size, g2, object, blocks, e);
    assert(machine::values_of(w, e2, vs) =~= machine::values_of(w, e, vs)) by {
        assert forall|j: int| 0 <= j < vs.len() implies machine::value_of(
            w,
            e2,
            #[trigger] vs[j],
        ) == machine::value_of(w, e, vs[j]) by {
            assert(shape::in_use(vs[j], g.f.registers as nat));
        }
    }
    let e5 = lemma_tagged(w, g2, object, index as i64, g3, tag, name, vs, h, blocks, e2, p);
    running::lemma_on(w, blocks, here(g, e), here(g2, e2), here(h, e5));
    (e5, p, index)
}

/// Memory is asked for.
proof fn lemma_asked(
    w: World,
    g: G,
    name: Seq<char>,
    g1: G,
    size: Value,
    g2: G,
    object: Value,
    blocks: Blocks,
    e: Env,
) -> (r: (Env, int))
    requires
        shape::sound(g),
        shape::sound(g1),
        translation::def(g, Inst::SizeOf(Ty::Named(name), g.f.registers)) == Some((g1, size)),
        translation::call(g1, "malloc"@, seq![size]) == Some((g2, object)),
        part(g2, blocks),
        (w.result)("malloc"@) == Some(LlvmType::Pointer),
        g1.f.registers == g.f.registers + 1,
    ensures
        part(g, blocks),
        reaches(w, blocks, here(g, e), here(g2, r.0)),
        machine::value_of(w, r.0, object) == Val::Pointer(r.1),
        forall|i: usize| i < g.f.registers ==> #[trigger] r.0.registers[i] == e.registers[i],
        ({
            let size = Val::Int(64, (w.size)((w.kind)(Ty::Named(name))));
            let asked = machine::seen(
                w,
                e,
                Event::Call(
                    "malloc"@,
                    machine::all_passed(w, seq![size], (w.params)("malloc"@)),
                ),
            );
            &&& r.0.events == asked.events
            &&& r.0.memory == asked.memory
            &&& Val::Pointer(r.1) == machine::read_as(
                w,
                LlvmType::Pointer,
                (w.answer)(asked.events),
            )
        }),
{
    let sized = Inst::SizeOf(Ty::Named(name), g.f.registers);
    let e1 = machine::performed(w, e, sized);
    let (e2, p) = lemma_malloc(w, g1, size, g2, object, blocks, e1);
    running::lemma_defined(w, g, sized, g1, size, blocks, e);
    running::lemma_on(w, blocks, here(g, e), here(g1, e1), here(g2, e2));
    assert forall|i: usize| i < g.f.registers implies #[trigger] e2.registers[i]
        == e.registers[i] by {
        assert(e2.registers[i] == e1.registers[i]);
    }
    (e2, p)
}

/// The tag and the payload are stored.
proof fn lemma_tagged(
    w: World,
    g2: G,
    object: Value,
    index: i64,
    g3: G,
    tag: Value,
    name: Seq<char>,
    vs: Seq<Value>,
    h: G,
    blocks: Blocks,
    e2: Env,
    p: int,
) -> (e5: Env)
    requires
        shape::sound(g2),
        shape::sound(g3),
        translation::int_const(g2, index) == Some((g3, tag)),
        ({
            let g4 = translation::emit(g3, Inst::StoreStructMember(object, 0, tag, name));
            &&& shape::sound(g4)
            &&& g4.f.registers == g3.f.registers
            &&& h == translation::store_members(g4, object, vs, 1, name, 0)
            &&& shape::all_in_use(vs, g4.f.registers as nat)
        }),
        g3.f.registers == g2.f.registers + 1,
        part(h, blocks),
        shape::in_use(object, g2.f.registers as nat),
        shape::all_in_use(vs, g2.f.registers as nat),
        machine::value_of(w, e2, object) == Val::Pointer(p),
    ensures
        reaches(w, blocks, here(g2, e2), here(h, e5)),
        machine::value_of(w, e5, object) == Val::Pointer(p),
        e5.events == e2.events,
        forall|i: usize| i < g2.f.registers ==> #[trigger] e5.registers[i] == e2.registers[i],
        e5.memory == filled(
            w,
            e2.memory.insert(
                (w.member)((w.number)(name), p, 0),
                machine::fitted(Val::Int(64, index as int), (w.layout)((w.number)(name))[0]),
            ),
            (w.number)(name),
            p,
            1,
            machine::values_of(w, e2, vs),
            0,
        ),
{
    let constant = Inst::ConstInt(index, g2.f.registers);
    let store = Inst::StoreStructMember(object, 0, tag, name);
    let g4 = translation::emit(g3, store);
    let e3 = machine::performed(w, e2, constant);
    let e4 = machine::performed(w, e3, store);
    let xs = machine::values_of(w, e2, vs);
    assert(tag == Value::Local(g2.f.registers)) by {
        reveal(ir::defining);
    }
    assert(machine::value_of(w, e3, object) == Val::Pointer(p));
    assert(machine::values_of(w, e4, vs) =~= xs) by {
        assert forall|j: int| 0 <= j < vs.len() implies machine::value_of(
            w,
            e4,
            #[trigger] vs[j],
        ) == machine::value_of(w, e2, vs[j]) by {
            assert(shape::in_use(vs[j], g2.f.registers as nat));
        }
    }
    lemma_store_members(w, g4, object, vs, 1, name, 0, blocks, e4, p, xs);
    let e5 = Env { memory: filled(w, e4.memory, (w.number)(name), p, 1, xs, 0), ..e4 };
    running::lemma_emitted(w, g3, store, blocks, e3);
    running::lemma_defined(w, g2, constant, g3, tag, blocks, e2);
    running::lemma_on(w, blocks, here(g2, e2), here(g3, e3), here(g4, e4));
    running::lemma_on(w, blocks, here(g2, e2), here(g4, e4), here(h, e5));
    e5
}

// ---------------------------------------------------------------------------
// Bindings

/// A name that a pattern binds to a member stands for a variable that holds the member.
pub proof fn lemma_bind_member(
    w: World,
    g: G,
    value: Value,
    index: int,
    owner: Seq<char>,
    name: Seq<char>,
    h: G,
    blocks: Blocks,
    e: Env,
) -> (r: (Env, Seq<char>))
    requires
        shape::sound(g),
        shape::in_use(value, g.f.registers as nat),
        translation::bind_member(g, value, index, owner, name) == Some(h),
        part(h, blocks),
        readable(machine::value_of(w, e, value)),
    ensures
        part(g, blocks),
        translation::lookup(h, name) == Some(r.1),
        forall|other: Seq<char>|
            other != name ==> #[trigger] translation::lookup(h, other) == translation::lookup(
                g,
                other,
            ),
        translation::member_type(g.cg.module, owner, index) matches Some(t) && {
            &&& reaches(w, blocks, here(g, e), here(h, r.0))
            &&& agree(
                machine::stored(
                    e,
                    (w.place)(r.1),
                    machine::fitted(
                        member_of(
                            w,
                            e,
                            machine::value_of(w, e, value),
                            index as usize as u32,
                            owner,
                        ),
                        (w.kind)(t),
                    ),
                ),
                r.0,
                g.f.registers as nat,
            )
        },
{
    reveal(translation::bind_member);
    running::lemma_ready(g);
    let t = translation::member_type(g.cg.module, owner, index)->0;
    parts::lemma_member(g, g, value, index, true, owner, any());
    let (g1, item) = translation::member(g, value, index, true, owner)->0;
    shape::lemma_declare(g, g1, name, t, any());
    let (g2, unique) = translation::declare(g1, name, t)->0;
    scopes::lemma_declared_is_found(g1, name, t);
    let read = Inst::AccessStructMember(value, index as usize, g.f.registers, true, owner);
    let store = Inst::Store(unique, item, t);
    shape::lemma_emit(g, g2, store, any());
    assert(g2.f.blocks == g1.f.blocks && g2.f.current == g1.f.current) by {
        reveal(translation::declare);
    }
    let e1 = machine::performed(w, e, read);
    let e2 = machine::performed(w, e1, store);
    running::lemma_emitted(w, g2, store, blocks, e1);
    running::lemma_same_code(g1, g2, blocks);
    running::lemma_defined(w, g, read, g1, item, blocks, e);
    running::lemma_on(w, blocks, here(g, e), here(g1, e1), here(h, e2));
    assert forall|other: Seq<char>| other != name implies #[trigger] translation::lookup(h, other)
        == translation::lookup(g, other) by {
        scopes::lemma_others_stay(g1, name, t, other);
        reveal(translation::lookup);
    }
    assert(translation::lookup(h, name) == translation::lookup(g2, name)) by {
        reveal(translation::lookup);
    }
    (e2, unique)
}

/// The payload that a pattern binds is the one that a value of the variant is built with:
/// the name at position `k` stands for the member behind the tag and the `k` before it.
pub proof fn lemma_bind_payload(
    w: World,
    g: G,
    bindings: Seq<Option<&str>>,
    k: int,
    value: Value,
    owner: Seq<char>,
    h: G,
    blocks: Blocks,
    e: Env,
) -> (r: (Env, Seq<char>, G))
    requires
        shape::sound(g),
        shape::in_use(value, g.f.registers as nat),
        0 <= k < bindings.len(),
        translation::bind_payload(g, bindings, k, value, owner) == Some(h),
        bindings[k] is Some,
        part(h, blocks),
        readable(machine::value_of(w, e, value)),
    ensures
        part(g, blocks),
        part(r.2, blocks),
        translation::bind_payload(r.2, bindings, k + 1, value, owner) == Some(h),
        translation::lookup(r.2, bindings[k]->0@) == Some(r.1),
        translation::member_type(g.cg.module, owner, k + 1) matches Some(t) && {
            &&& reaches(w, blocks, here(g, e), here(r.2, r.0))
            &&& agree(
                machine::stored(
                    e,
                    (w.place)(r.1),
                    machine::fitted(
                        member_of(
                            w,
                            e,
                            machine::value_of(w, e, value),
                            (k + 1) as usize as u32,
                            owner,
                        ),
                        (w.kind)(t),
                    ),
                ),
                r.0,
                g.f.registers as nat,
            )
        },
{
    reveal(translation::bind_payload);
    let name = bindings[k]->0;
    running::lemma_ready(g);
    parts::lemma_bind_member(g, g, value, k + 1, owner, name@, any());
    let g1 = translation::bind_member(g, value, k + 1, owner, name@)->0;
    running::lemma_ready(g1);
    parts::lemma_bind_payload(g1, g1, bindings, k + 1, value, owner, any());
    running::lemma_part(g1, h, blocks);
    let (e1, unique) = lemma_bind_member(w, g, value, k + 1, owner, name@, g1, blocks, e);
    (e1, unique, g1)
}

// ---------------------------------------------------------------------------
// Arrays

/// The places in the code of an element of an array literal.
pub struct Element {
    /// Behind the value of the element
    pub done: G,
    pub value: Value,
    /// Before the next element
    pub next: G,
}

/// Each item of an array is evaluated in turn, and stored at its position.
pub proof fn lemma_element(
    w: World,
    g: G,
    items: Seq<ExpressionNode>,
    k: int,
    array: Value,
    t: Ty,
    h: G,
    v: Value,
    blocks: Blocks,
) -> (r: Element)
    requires
        shape::sound(g),
        shape::in_use(array, g.f.registers as nat),
        0 <= k < items.len() <= i64::MAX,
        items.len() <= usize::MAX,
        translation::elements(g, items, k, array, t) == Some((h, v)),
        part(h, blocks),
    ensures
        translation::expr(g, items[k], true) == Some((r.done, r.value)),
        translation::elements(r.next, items, k + 1, array, t) == Some((h, v)),
        part(g, blocks),
        part(r.done, blocks),
        part(r.next, blocks),
        shape::in_use(array, r.next.f.registers as nat),
        forall|e: Env|
            #![trigger here(r.done, e)]
            exists|e2: Env|
                #![trigger here(r.next, e2)]
                reaches(w, blocks, here(r.done, e), here(r.next, e2)) && agree(
                    machine::stored(
                        e,
                        (w.element)(
                            (w.kind)(t),
                            machine::address(machine::value_of(w, e, array)),
                            k,
                        ),
                        machine::fitted(machine::value_of(w, e, r.value), (w.kind)(t)),
                    ),
                    e2,
                    r.done.f.registers as nat,
                ),
{
    reveal(translation::elements);
    reveal(translation::expr);
    running::lemma_ready(g);
    let (g1, x) = translation::expr(g, items[k], true)->0;
    values::lemma_value(g, items[k], true, g1, x);
    running::lemma_ready(g1);
    let at = k as usize as i64;
    assert(at == k);
    parts::lemma_int(g1, g1, at, any());
    let constant = Inst::ConstInt(at, g1.f.registers);
    let (g2, index) = translation::int_const(g1, at)->0;
    let store = Inst::StoreElement(array, index, x, t);
    shape::lemma_emit(g1, g2, store, any());
    let g3 = translation::emit(g2, store);
    running::lemma_ready(g3);
    expressions::lemma_elements(g3, g3, items, k + 1, array, t, any());
    running::lemma_part(g3, h, blocks);
    let some = arbitrary::<Env>();
    running::lemma_emitted(w, g2, store, blocks, some);
    running::lemma_defined(w, g1, constant, g2, index, blocks, some);
    running::lemma_part(g, g1, blocks);
    assert forall|e: Env| #![trigger here(g1, e)]
        exists|e2: Env|
            #![trigger here(g3, e2)]
            reaches(w, blocks, here(g1, e), here(g3, e2)) && agree(
                machine::stored(
                    e,
                    (w.element)(
                        (w.kind)(t),
                        machine::address(machine::value_of(w, e, array)),
                        k,
                    ),
                    machine::fitted(machine::value_of(w, e, x), (w.kind)(t)),
                ),
                e2,
                g1.f.registers as nat,
            ) by {
        let e1 = machine::performed(w, e, constant);
        let e2 = machine::performed(w, e1, store);
        running::lemma_defined(w, g1, constant, g2, index, blocks, e);
        running::lemma_emitted(w, g2, store, blocks, e1);
        running::lemma_on(w, blocks, here(g1, e), here(g2, e1), here(g3, e2));
        assert(machine::value_of(w, e1, array) == machine::value_of(w, e, array));
        assert(machine::value_of(w, e1, x) == machine::value_of(w, e, x));
        assert(machine::value_of(w, e1, index) == Val::Int(64, k));
        assert(reaches(w, blocks, here(g1, e), here(g3, e2)));
    }
    Element { done: g1, value: x, next: g3 }
}

/// A name in a pattern for a tuple stands for a variable that holds the member at its
/// position.
pub proof fn lemma_bind_tuple(
    w: World,
    g: G,
    items: Seq<MatchPattern>,
    k: int,
    value: Value,
    tuple: Seq<char>,
    h: G,
    blocks: Blocks,
    e: Env,
) -> (r: (Env, Seq<char>, G))
    requires
        shape::sound(g),
        shape::in_use(value, g.f.registers as nat),
        0 <= k < items.len(),
        translation::bind_tuple(g, items, k, value, tuple) == Some(h),
        items[k] is Binding,
        part(h, blocks),
        readable(machine::value_of(w, e, value)),
    ensures
        part(g, blocks),
        part(r.2, blocks),
        translation::bind_tuple(r.2, items, k + 1, value, tuple) == Some(h),
        translation::lookup(r.2, items[k]->Binding_0@) == Some(r.1),
        translation::member_type(g.cg.module, tuple, k) matches Some(t) && {
            &&& reaches(w, blocks, here(g, e), here(r.2, r.0))
            &&& agree(
                machine::stored(
                    e,
                    (w.place)(r.1),
                    machine::fitted(
                        member_of(
                            w,
                            e,
                            machine::value_of(w, e, value),
                            k as usize as u32,
                            tuple,
                        ),
                        (w.kind)(t),
                    ),
                ),
                r.0,
                g.f.registers as nat,
            )
        },
{
    reveal(translation::bind_tuple);
    let name = items[k]->Binding_0;
    running::lemma_ready(g);
    parts::lemma_bind_member(g, g, value, k, tuple, name@, any());
    let g1 = translation::bind_member(g, value, k, tuple, name@)->0;
    running::lemma_ready(g1);
    parts::lemma_bind_tuple(g1, g1, items, k + 1, value, tuple, any());
    running::lemma_part(g1, h, blocks);
    let (e1, unique) = lemma_bind_member(w, g, value, k, tuple, name@, g1, blocks, e);
    (e1, unique, g1)
}

// ---------------------------------------------------------------------------
// Memory

/// Memory for `size` bytes is asked for.
proof fn lemma_malloc(w: World, g: G, size: Value, h: G, object: Value, blocks: Blocks, e: Env) -> (r: (Env, int))
    requires
        shape::sound(g),
        translation::call(g, "malloc"@, seq![size]) == Some((h, object)),
        shape::code_kept(h.f.blocks, blocks),
        assoc::distinct(blocks),
        (w.result)("malloc"@) == Some(LlvmType::Pointer),
    ensures
        part(g, blocks),
        reaches(w, blocks, here(g, e), here(h, r.0)),
        machine::value_of(w, r.0, object) == Val::Pointer(r.1),
        forall|i: usize| i < g.f.registers ==> #[trigger] r.0.registers[i] == e.registers[i],
        ({
            let asked = machine::seen(
                w,
                e,
                Event::Call(
                    "malloc"@,
                    machine::all_passed(
                        w,
                        seq![machine::value_of(w, e, size)],
                        (w.params)("malloc"@),
                    ),
                ),
            );
            &&& r.0.events == asked.events
            &&& r.0.memory == asked.memory
            &&& Val::Pointer(r.1) == machine::read_as(
                w,
                LlvmType::Pointer,
                (w.answer)(asked.events),
            )
        }),
{
    let ask = Inst::FunctionCall("malloc"@, seq![size], g.f.registers);
    let e2 = machine::performed(w, e, ask);
    running::lemma_defined(w, g, ask, h, object, blocks, e);
    let x = machine::value_of(w, e, size);
    assert(machine::values_of(w, e, seq![size]) =~= seq![x]);
    assert(e2 == machine::called(
        w,
        e,
        "malloc"@,
        machine::all_passed(w, seq![x], (w.params)("malloc"@)),
        g.f.registers,
    )) by {
        reveal_strlit("malloc");
        reveal_strlit("ptr_add");
        reveal_strlit("ptr_read_int");
        reveal_strlit("ptr_read_str");
        reveal_strlit("ptr_write_int");
        reveal_strlit("ptr_write_str");
        assert("malloc"@.len() == 6);
        assert("ptr_add"@.len() == 7);
        assert("ptr_read_int"@.len() == 12);
        assert("ptr_read_str"@.len() == 12);
        assert("ptr_write_int"@.len() == 13);
        assert("ptr_write_str"@.len() == 13);
    }
    let found = machine::value_of(w, e2, object);
    assert(machine::type_of(found) is Pointer);
    (e2, machine::address(found))
}

/// The places in the code of a struct on the heap.
pub struct Heap {
    /// Behind each of the values of the members
    pub places: Seq<G>,
    pub values: Seq<Value>,
}

/// A struct on the heap is allocated in as many bytes as its members take, and then its
/// members are stored in it, in the order in which they are written.
pub proof fn lemma_heap(w: World, g: G, node: ExpressionNode, h: G, v: Value, blocks: Blocks, e: Env) -> (r: (Heap, Env, int))
    requires
        shape::sound(g),
        node.expression matches Expression::Alloc(object)
            && object.expression is StructInitialisation,
        translation::expr(g, node, true) == Some((h, v)),
        part(h, blocks),
        (w.result)("malloc"@) == Some(LlvmType::Pointer),
    ensures
        node.expression matches Expression::Alloc(object)
            && object.expression matches Expression::StructInitialisation(struc, fields)
            && translation::ident(*struc) matches Some(name) && {
            let last = r.0.places.last();
            &&& in_turn(g, fields@, r.0.places, r.0.values)
            &&& part(g, blocks)
            &&& part(last, blocks)
            &&& translation::alloc_size(last.cg.module, name, fields@.len()) matches Some(size) && {
                let asked = machine::seen(
                    w,
                    e,
                    Event::Call(
                        "malloc"@,
                        machine::all_passed(
                            w,
                            seq![Val::Int(64, (size as usize as i64) as int)],
                            (w.params)("malloc"@),
                        ),
                    ),
                );
                &&& reaches(w, blocks, here(last, e), here(h, r.1))
                &&& machine::value_of(w, r.1, v) == Val::Pointer(r.2)
                &&& Val::Pointer(r.2) == machine::read_as(
                    w,
                    LlvmType::Pointer,
                    (w.answer)(asked.events),
                )
                &&& r.1.events == asked.events
                &&& r.1.memory == filled(
                    w,
                    asked.memory,
                    (w.number)(name),
                    r.2,
                    0,
                    machine::values_of(w, e, r.0.values),
                    0,
                )
            }
        },
{
    reveal(translation::expr);
    reveal(translation::inner);
    reveal(translation::fields);
    reveal(translation::heap_value);
    match node.expression {
        Expression::Alloc(object) => {
            match parts::node(object).expression {
                Expression::StructInitialisation(struc, fields) => {
                    let name = translation::ident(parts::node(struc))->0;
                    let (g1, vs) = translation::fields(g, fields@, 0, Seq::empty())->0;
                    let places = lemma_fields(g, fields@, 0, Seq::empty(), seq![g], g1, vs);
                    running::lemma_ready(g);
                    expressions::lemma_fields(g, g, fields@, 0, Seq::empty(), any());
                    running::lemma_ready(g1);
                    let size = translation::alloc_size(g1.cg.module, name, fields@.len())->0;
                    let n = size as usize as i64;
                    parts::lemma_int(g1, g1, n, any());
                    let constant = Inst::ConstInt(n, g1.f.registers);
                    let (g2, bytes) = translation::int_const(g1, n)->0;
                    parts::lemma_call(g1, g2, "malloc"@, seq![bytes], any());
                    let (g3, o) = translation::call(g2, "malloc"@, seq![bytes])->0;
                    lemma_more_in_use(vs, g1.f.registers as nat, g3.f.registers as nat);
                    running::lemma_ready(g3);
                    parts::lemma_store_members(g3, g3, o, vs, 0, name, 0, any());
                    running::lemma_part(g3, h, blocks);
                    let e1 = machine::performed(w, e, constant);
                    let (e2, p) = lemma_malloc(w, g2, bytes, g3, o, blocks, e1);
                    running::lemma_defined(w, g1, constant, g2, bytes, blocks, e);
                    running::lemma_part(g, g1, blocks);
                    assert(machine::value_of(w, e1, bytes) == Val::Int(64, n as int));
                    let xs = machine::values_of(w, e, vs);
                    assert(machine::values_of(w, e2, vs) =~= xs) by {
                        assert forall|j: int| 0 <= j < vs.len() implies machine::value_of(
                            w,
                            e2,
                            #[trigger] vs[j],
                        ) == machine::value_of(w, e, vs[j]) by {
                            assert(shape::in_use(vs[j], g1.f.registers as nat));
                            if let Value::Local(i) = vs[j] {
                                assert(e2.registers[i] == e1.registers[i]);
                            }
                        }
                    }
                    lemma_store_members(w, g3, o, vs, 0, name, 0, blocks, e2, p, xs);
                    let e3 = Env {
                        memory: filled(w, e2.memory, (w.number)(name), p, 0, xs, 0),
                        ..e2
                    };
                    running::lemma_on(w, blocks, here(g1, e), here(g2, e1), here(g3, e2));
                    running::lemma_on(w, blocks, here(g1, e), here(g3, e2), here(h, e3));
                    (Heap { places, values: vs }, e3, p)
                },
                _ => arbitrary(),
            }
        },
        _ => arbitrary(),
    }
}

/// Values that can be read can be read later.
proof fn lemma_more_in_use(vs: Seq<Value>, m: nat, n: nat)
    requires
        shape::all_in_use(vs, m),
        m <= n,
    ensures
        shape::all_in_use(vs, n),
{
    assert forall|j: int| 0 <= j < vs.len() implies shape::in_use(#[trigger] vs[j], n) by {
        assert(shape::in_use(vs[j], m));
    }
}

/// An array literal asks for memory for as many elements as it has items, and stores the
/// items in it.
pub proof fn lemma_array(w: World, g: G, node: ExpressionNode, h: G, v: Value, blocks: Blocks, e: Env) -> (r: (G, Value))
    requires
        shape::sound(g),
        node.expression is Array,
        translation::expr(g, node, true) == Some((h, v)),
        part(h, blocks),
    ensures
        node.expression matches Expression::Array(items) && items@.len() > 0 && {
            let t = types::ty_of(items@[0].typed);
            let asked = machine::seen(
                w,
                e,
                Event::Allocation(
                    (w.kind)(t),
                    Val::Int(32, machine::wrapped(32, items@.len() as usize as u64 as int)),
                ),
            );
            &&& translation::elements(r.0, items@, 0, r.1, t) == Some((h, v))
            &&& part(g, blocks)
            &&& part(r.0, blocks)
            &&& shape::in_use(r.1, r.0.f.registers as nat)
            &&& reaches(
                w,
                blocks,
                here(g, e),
                here(
                    r.0,
                    machine::set(
                        asked,
                        g.f.registers,
                        machine::read_as(w, LlvmType::Pointer, (w.answer)(asked.events)),
                    ),
                ),
            )
            &&& r.1 == Value::Local(g.f.registers)
        },
{
    reveal(translation::expr);
    reveal(translation::inner);
    reveal(translation::array);
    reveal(translation::elements);
    running::lemma_ready(g);
    match node.expression {
        Expression::Array(items) => {
            let t = types::ty_of(items@[0].typed);
            let i = Inst::CreateArray(t, items@.len() as usize, g.f.registers);
            shape::lemma_def(g, g, i, any());
            let (g1, array) = translation::def(g, i)->0;
            running::lemma_ready(g1);
            expressions::lemma_elements(g1, g1, items@, 0, array, t, any());
            running::lemma_part(g1, h, blocks);
            running::lemma_defined(w, g, i, g1, array, blocks, e);
            (g1, array)
        },
        _ => arbitrary(),
    }
}

/// The places in the code of a new cell.
pub struct Cell {
    /// Before the value
    pub start: G,
    pub size: Value,
    /// Behind the value
    pub done: G,
    pub value: Value,
}

/// A new cell is allocated in as many bytes as its value takes, but at least in eight, and
/// the value is stored in it.
pub proof fn lemma_new_cell(w: World, g: G, node: ExpressionNode, h: G, v: Value, blocks: Blocks) -> (r: Cell)
    requires
        shape::sound(g),
        node.expression is NewCell,
        translation::expr(g, node, true) == Some((h, v)),
        part(h, blocks),
        (w.result)("malloc"@) == Some(LlvmType::Pointer),
    ensures
        node.expression matches Expression::NewCell(value) && translation::byte_size(
            g.cg.module.structs,
            types::ty_of(value.typed),
            g.cg.module.structs.len(),
        ) matches Some(size) && {
            let n = (if size > 8 {
                size
            } else {
                8
            }) as usize as i64;
            let t = (w.kind)(types::ty_of(value.typed));
            &&& translation::expr(r.start, *value, true) == Some((r.done, r.value))
            &&& part(g, blocks)
            &&& part(r.start, blocks)
            &&& part(r.done, blocks)
            &&& forall|e: Env|
                #![trigger here(g, e)]
                values::gives(w, blocks, g, e, r.start, r.size, Val::Int(64, n as int))
            &&& forall|e: Env|
                #![trigger here(r.done, e)]
                exists|e2: Env|
                    #![trigger here(h, e2)]
                    {
                        let p = machine::address(machine::value_of(w, e2, v));
                        let asked = machine::seen(
                            w,
                            e,
                            Event::Call(
                                "malloc"@,
                                machine::all_passed(
                                    w,
                                    seq![machine::value_of(w, e, r.size)],
                                    (w.params)("malloc"@),
                                ),
                            ),
                        );
                        &&& reaches(w, blocks, here(r.done, e), here(h, e2))
                        &&& machine::value_of(w, e2, v) == Val::Pointer(p)
                        &&& Val::Pointer(p) == machine::read_as(
                            w,
                            LlvmType::Pointer,
                            (w.answer)(asked.events),
                        )
                        &&& e2.memory == asked.memory.insert(
                            (w.element)(t, p, 0),
                            machine::fitted(machine::value_of(w, e, r.value), t),
                        )
                    }
        },
{
    reveal(translation::expr);
    reveal(translation::inner);
    reveal(translation::new_cell);
    running::lemma_ready(g);
    match node.expression {
        Expression::NewCell(value) => {
            let ty = types::ty_of(parts::node(value).typed);
            let size = translation::byte_size(
                g.cg.module.structs,
                ty,
                g.cg.module.structs.len(),
            )->0;
            let n = (if size > 8 {
                size
            } else {
                8
            }) as usize as i64;
            parts::lemma_int(g, g, n, any());
            let constant = Inst::ConstInt(n, g.f.registers);
            let (g1, bytes) = translation::int_const(g, n)->0;
            let (g2, x) = translation::expr(g1, parts::node(value), true)->0;
            values::lemma_value(g1, parts::node(value), true, g2, x);
            running::lemma_ready(g2);
            parts::lemma_call(g2, g2, "malloc"@, seq![bytes], any());
            let (g3, cell) = translation::call(g2, "malloc"@, seq![bytes])->0;
            parts::lemma_int(g2, g3, 0, any());
            let zeroed = Inst::ConstInt(0, g3.f.registers);
            let (g4, zero) = translation::int_const(g3, 0)->0;
            let store = Inst::StoreElement(cell, zero, x, ty);
            let some = arbitrary::<Env>();
            running::lemma_emitted(w, g4, store, blocks, some);
            running::lemma_defined(w, g3, zeroed, g4, zero, blocks, some);
            let asked_for = lemma_malloc(w, g2, bytes, g3, cell, blocks, some);
            running::lemma_part(g1, g2, blocks);
            running::lemma_defined(w, g, constant, g1, bytes, blocks, some);
            assert forall|e: Env| #![trigger here(g, e)]
                values::gives(w, blocks, g, e, g1, bytes, Val::Int(64, n as int)) by {
                values::lemma_one(
                    w,
                    g,
                    constant,
                    g1,
                    bytes,
                    blocks,
                    e,
                    Val::Int(64, n as int),
                );
            }
            assert forall|e: Env| #![trigger here(g2, e)]
                exists|e2: Env|
                    #![trigger here(h, e2)]
                    {
                        let p = machine::address(machine::value_of(w, e2, v));
                        let asked = machine::seen(
                            w,
                            e,
                            Event::Call(
                                "malloc"@,
                                machine::all_passed(
                                    w,
                                    seq![machine::value_of(w, e, bytes)],
                                    (w.params)("malloc"@),
                                ),
                            ),
                        );
                        &&& reaches(w, blocks, here(g2, e), here(h, e2))
                        &&& machine::value_of(w, e2, v) == Val::Pointer(p)
                        &&& Val::Pointer(p) == machine::read_as(
                            w,
                            LlvmType::Pointer,
                            (w.answer)(asked.events),
                        )
                        &&& e2.memory == asked.memory.insert(
                            (w.element)((w.kind)(ty), p, 0),
                            machine::fitted(machine::value_of(w, e, x), (w.kind)(ty)),
                        )
                    } by {
                let (e1, p) = lemma_malloc(w, g2, bytes, g3, cell, blocks, e);
                let e2 = machine::performed(w, e1, zeroed);
                let e3 = machine::performed(w, e2, store);
                running::lemma_defined(w, g3, zeroed, g4, zero, blocks, e1);
                running::lemma_emitted(w, g4, store, blocks, e2);
                running::lemma_on(w, blocks, here(g2, e), here(g3, e1), here(g4, e2));
                running::lemma_on(w, blocks, here(g2, e), here(g4, e2), here(h, e3));
                assert(machine::value_of(w, e2, cell) == Val::Pointer(p));
                assert(machine::value_of(w, e2, zero) == Val::Int(64, 0));
                assert(machine::value_of(w, e2, x) == machine::value_of(w, e, x)) by {
                    if let Value::Local(i) = x {
                        assert(e1.registers[i] == e.registers[i]);
                    }
                }
                assert(reaches(w, blocks, here(g2, e), here(h, e3)));
                assert(machine::value_of(w, e3, v) == Val::Pointer(p));
            }
            Cell { start: g1, size: bytes, done: g2, value: x }
        },
        _ => arbitrary(),
    }
}

} // verus!
