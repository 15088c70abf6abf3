//! What the steps of a lowered function do, and that they do what the instructions say
//! that they come from.

use vstd::arithmetic::power2::pow2;
use vstd::prelude::*;
use crate::assoc;
use crate::ir::{Inst, Value};
use crate::lowering;
use crate::lowering::{FloatOp, IntOp, Label, Ll, LlvmType, Low, Op, Operand, Predicate, Sig, Step};
use crate::machine;
use crate::machine::{Env, Event, Val, World};
use crate::shape;
use crate::storage;
use crate::types::Ty;

verus! {

// ---------------------------------------------------------------------------
// Steps

/// Where to go on.
pub enum Flow {
    /// At the next step
    On,
    /// In the block that the step of that number adds
    To(usize),
    /// Nowhere: the function is done
    Returned(Option<Val>),
    /// Nowhere
    Stopped,
}

/// The values that steps have built, the memory, and what has been seen so far.
pub struct State {
    pub values: Map<usize, Val>,
    pub memory: Map<int, Val>,
    pub events: Seq<Event>,
    pub flow: Flow,
}

/// What the numbers of steps stand for.
pub struct Names {
    /// The name of the function that a step declares
    pub function: spec_fn(usize) -> Seq<char>,
    /// The address of what a step allocates
    pub slot: spec_fn(usize) -> int,
}

/// The value that an operand is.
pub open spec fn at(st: State, v: Operand) -> Val {
    st.values[v.id]
}

/// A step builds a value.
pub open spec fn gives(st: State, id: usize, v: Val) -> State {
    State { values: st.values.insert(id, v), ..st }
}

/// A step asks for something.
pub open spec fn asks(w: World, st: State, event: Event) -> State {
    let events = st.events.push(event);
    State { events, memory: (w.effect)(events, st.memory), ..st }
}

/// The values that operands are.
pub open spec fn all_at(st: State, vs: Seq<Operand>) -> Seq<Val> {
    Seq::new(vs.len(), |i: int| at(st, vs[i]))
}

/// What a step does.
pub open spec fn executed(w: World, names: Names, st: State, id: usize, op: Step) -> State {
    match op {
        Op::GlobalString(_) => gives(st, id, Val::Pointer((names.slot)(id))),
        Op::GlobalInt(_, n) => gives(
            State { memory: st.memory.insert((names.slot)(id), Val::Int(64, n as int)), ..st },
            id,
            Val::Pointer((names.slot)(id)),
        ),
        Op::GlobalFloat(_, n) => gives(
            State { memory: st.memory.insert((names.slot)(id), Val::Float(64, n as int)), ..st },
            id,
            Val::Pointer((names.slot)(id)),
        ),
        Op::GlobalBool(_, b) => gives(
            State { memory: st.memory.insert((names.slot)(id), machine::truth(b)), ..st },
            id,
            Val::Pointer((names.slot)(id)),
        ),
        Op::Param(_, n) => gives(st, id, (w.argument)(n)),
        Op::ConstInt(bits, n) => gives(st, id, Val::Int(bits, machine::wrapped(bits, n as int))),
        Op::ConstFloat(n) => gives(st, id, Val::Float(64, n as int)),
        Op::ConstNull => gives(st, id, Val::Pointer(0)),
        Op::ConstStruct(n) => gives(st, id, Val::Struct(n, (w.unset)(n))),
        Op::SizeOf(ty) => gives(st, id, Val::Int(64, (w.size)(ty))),
        Op::Alloca(_) => gives(st, id, Val::Pointer((names.slot)(id))),
        Op::Load(ty, p, _) => gives(
            st,
            id,
            machine::read_as(w, ty, st.memory[machine::address(at(st, p))]),
        ),
        Op::Store(p, v) => State {
            memory: st.memory.insert(machine::address(at(st, p)), at(st, v)),
            ..st
        },
        Op::Gep(ty, p, i, _) => gives(
            st,
            id,
            Val::Pointer(
                (w.element)(ty, machine::address(at(st, p)), machine::number(at(st, i))),
            ),
        ),
        Op::StructGep(n, p, i) => gives(
            st,
            id,
            Val::Pointer((w.member)(n, machine::address(at(st, p)), i)),
        ),
        Op::InsertValue(object, v, i, _) => gives(
            st,
            id,
            match at(st, object) {
                Val::Struct(n, members) => Val::Struct(n, members.update(i as int, at(st, v))),
                other => other,
            },
        ),
        Op::ExtractValue(object, i) => gives(
            st,
            id,
            match at(st, object) {
                Val::Struct(n, members) => machine::read_as(
                    w,
                    (w.layout)(n)[i as int],
                    members[i as int],
                ),
                other => other,
            },
        ),
        Op::Int(op, x, y) => gives(
            st,
            id,
            match at(st, x) {
                Val::Int(bits, a) => Val::Int(
                    bits,
                    machine::calculated(op, bits, a, machine::number(at(st, y))),
                ),
                other => other,
            },
        ),
        Op::Float(op, x, y) => gives(
            st,
            id,
            match (at(st, x), at(st, y)) {
                (Val::Float(bits, a), Val::Float(_, b)) => Val::Float(bits, (w.float)(op, a, b)),
                (other, _) => other,
            },
        ),
        Op::IntCompare(p, x, y) => gives(
            st,
            id,
            machine::truth(
                machine::compares(p, machine::number(at(st, x)), machine::number(at(st, y))),
            ),
        ),
        Op::FloatCompare(p, x, y) => gives(
            st,
            id,
            match (at(st, x), at(st, y)) {
                (Val::Float(_, a), Val::Float(_, b)) => machine::truth((w.ordered)(p, a, b)),
                (other, _) => other,
            },
        ),
        Op::Not(v) => gives(st, id, machine::complement(at(st, v))),
        Op::ZeroExtend(v, bits, _) => gives(
            st,
            id,
            match at(st, v) {
                Val::Int(from, x) => Val::Int(bits, machine::unsigned(from, x)),
                other => other,
            },
        ),
        Op::SignExtend(v, bits, _) => gives(st, id, Val::Int(bits, machine::number(at(st, v)))),
        Op::Truncate(v, bits) => gives(
            st,
            id,
            Val::Int(bits, machine::wrapped(bits, machine::number(at(st, v)))),
        ),
        Op::FloatExtend(v) => gives(
            st,
            id,
            match at(st, v) {
                Val::Float(bits, x) => Val::Float(64, (w.widened)(bits, x)),
                other => other,
            },
        ),
        Op::IntToFloat(v, bits) => gives(
            st,
            id,
            Val::Float(bits, (w.to_float)(bits, machine::number(at(st, v)))),
        ),
        Op::FloatToInt(v, bits) => gives(
            st,
            id,
            match at(st, v) {
                Val::Float(_, x) => Val::Int(bits, (w.to_int)(bits, x)),
                other => other,
            },
        ),
        Op::IntToPointer(v) => gives(
            st,
            id,
            match at(st, v) {
                Val::Int(bits, x) => Val::Pointer(machine::unsigned(bits, x)),
                other => other,
            },
        ),
        Op::PointerToInt(v, bits) => gives(
            st,
            id,
            Val::Int(bits, machine::wrapped(bits, machine::address(at(st, v)))),
        ),
        Op::ArrayMalloc(ty, n) => {
            let after = asks(w, st, Event::Allocation(ty, at(st, n)));
            gives(after, id, machine::read_as(w, LlvmType::Pointer, (w.answer)(after.events)))
        },
        Op::Call(f, vs, _) => {
            let name = (names.function)(f);
            let after = asks(w, st, Event::Call(name, all_at(st, vs)));
            match (w.result)(name) {
                Some(ty) => gives(after, id, machine::read_as(w, ty, (w.answer)(after.events))),
                None => after,
            }
        },
        Op::Branch(b) => State { flow: Flow::To(b), ..st },
        Op::CondBranch(c, yes, no) => State {
            flow: Flow::To(
                if machine::is_true(at(st, c)) {
                    yes
                } else {
                    no
                },
            ),
            ..st
        },
        Op::Return(v) => State {
            flow: Flow::Returned(
                match v {
                    Some(v) => Some(at(st, v)),
                    None => None,
                },
            ),
            ..st
        },
        Op::Unreachable => State { flow: Flow::Stopped, ..st },
        _ => st,
    }
}

/// What the steps from position `k` on do, one after the other.
pub open spec fn run(w: World, names: Names, st: State, ops: Seq<Step>, k: int) -> State
    decreases ops.len() - k,
{
    if k < 0 || k >= ops.len() {
        st
    } else {
        run(w, names, executed(w, names, st, k as usize, ops[k]), ops, k + 1)
    }
}

/// One more step is done after the others.
broadcast proof fn lemma_run_pushed(
    w: World,
    names: Names,
    st: State,
    ops: Seq<Step>,
    op: Step,
    k: int,
)
    requires
        0 <= k <= ops.len(),
    ensures
        #[trigger] run(w, names, st, ops.push(op), k) == executed(
            w,
            names,
            run(w, names, st, ops, k),
            ops.len() as usize,
            op,
        ),
    decreases ops.len() - k,
{
    let all = ops.push(op);
    if k < ops.len() {
        lemma_run_pushed(w, names, executed(w, names, st, k as usize, ops[k]), ops, op, k + 1);
    } else {
        assert(run(w, names, executed(w, names, st, k as usize, op), all, k + 1) == executed(
            w,
            names,
            st,
            k as usize,
            op,
        ));
    }
}

// ---------------------------------------------------------------------------
// What a lowered function has of a state

/// Whether an operand has been built and is the value `x`.
pub open spec fn is_value(l: Ll, st: State, v: Operand, x: Val) -> bool {
    &&& v.id < l.ops.len()
    &&& st.values.dom().contains(v.id)
    &&& st.values[v.id] == x
    &&& machine::type_of(x) == v.ty
}

/// Whether what a module names is what it stands for.
#[verifier::opaque]
pub open spec fn knows(w: World, names: Names, l: Ll, st: State) -> bool {
    &&& forall|k: int|
        0 <= k < l.strings.len() ==> is_value(
            l,
            st,
            #[trigger] l.strings[k],
            Val::Pointer((w.text)(k as usize)),
        )
    &&& forall|name: Seq<char>|
        (#[trigger] assoc::get(l.globals, name)) matches Some(p) ==> is_value(
            l,
            st,
            p,
            Val::Pointer((w.global)(name)),
        )
    &&& forall|name: Seq<char>|
        (#[trigger] assoc::get(l.functions, name)) matches Some(sig) ==> (names.function)(sig.id)
            == name && (w.params)(name) == sig.params && (w.result)(name) == sig.result
    &&& forall|name: Seq<char>|
        (#[trigger] assoc::get(l.structs, name)) matches Some(n) ==> (w.number)(name) == n
    &&& forall|n: usize|
        n < l.layouts.len() ==> #[trigger] (w.layout)(n) == l.layouts[n as int]
    &&& forall|t: Ty|
        (#[trigger] lowering::basic_type(l, t)) matches Some(ty) ==> (w.kind)(t) == ty
}

/// Whether the registers and variables of a function are what the steps have built.
#[verifier::opaque]
pub open spec fn agrees(w: World, s: Low, e: Env, st: State) -> bool {
    &&& forall|r: usize| #[trigger]
        s.loc.registers.dom().contains(r) ==> e.registers.dom().contains(r) && is_value(
            s.l,
            st,
            s.loc.registers[r],
            e.registers[r],
        )
    &&& forall|name: Seq<char>|
        (#[trigger] assoc::get(s.loc.variables, name)) matches Some(p) ==> is_value(
            s.l,
            st,
            p,
            Val::Pointer((w.place)(name)),
        )
}

/// Whether the steps of a function have led to what its instructions have led to.
pub open spec fn matched(w: World, names: Names, s: Low, e: Env, st: State) -> bool {
    &&& s.l.ops.len() <= usize::MAX
    &&& knows(w, names, s.l, st)
    &&& agrees(w, s, e, st)
    &&& st.memory == e.memory
    &&& st.events == e.events
    &&& st.flow is On
}

// ---------------------------------------------------------------------------
// One step

/// A step that builds a value keeps what has been built before.
proof fn lemma_gives(w: World, names: Names, s: Low, e: Env, st: State, op: Step, ty: LlvmType)
    requires
        matched(w, names, s, e, st),
        s.l.ops.len() < usize::MAX,
        ({
            let after = executed(w, names, st, s.l.ops.len() as usize, op);
            &&& after.values =~= st.values.insert(
                s.l.ops.len() as usize,
                after.values[s.l.ops.len() as usize],
            )
            &&& machine::type_of(after.values[s.l.ops.len() as usize]) == ty
            &&& after.flow is On
        }),
    ensures
        ({
            let after = executed(w, names, st, s.l.ops.len() as usize, op);
            let (l, v) = lowering::built(s.l, op, ty);
            &&& matched(
                w,
                names,
                Low { l, ..s },
                Env { memory: after.memory, events: after.events, ..e },
                after,
            )
            &&& is_value(l, after, v, after.values[s.l.ops.len() as usize])
            &&& v.ty == ty
            &&& v.id == s.l.ops.len()
        }),
{
    reveal(knows);
    reveal(agrees);
    let after = executed(w, names, st, s.l.ops.len() as usize, op);
    let l = lowering::step(s.l, op);
    assert forall|t: Ty| #[trigger] lowering::basic_type(l, t) == lowering::basic_type(s.l, t) by {
        reveal(lowering::basic_type);
    }
}

/// A step that builds nothing keeps what has been built before.
proof fn lemma_does(w: World, names: Names, s: Low, e: Env, st: State, op: Step)
    requires
        matched(w, names, s, e, st),
        s.l.ops.len() < usize::MAX,
        executed(w, names, st, s.l.ops.len() as usize, op).values == st.values,
    ensures
        ({
            let after = executed(w, names, st, s.l.ops.len() as usize, op);
            matched(
                w,
                names,
                Low { l: lowering::step(s.l, op), ..s },
                Env { memory: after.memory, events: after.events, ..e },
                State { flow: Flow::On, ..after },
            )
        }),
{
    reveal(knows);
    reveal(agrees);
    let l = lowering::step(s.l, op);
    assert forall|t: Ty| #[trigger] lowering::basic_type(l, t) == lowering::basic_type(s.l, t) by {
        reveal(lowering::basic_type);
    }
}

/// A value that has been built can be put into a register.
proof fn lemma_assigned(
    w: World,
    names: Names,
    s: Low,
    e: Env,
    st: State,
    dest: usize,
    v: Operand,
    x: Val,
)
    requires
        matched(w, names, s, e, st),
        is_value(s.l, st, v, x),
    ensures
        matched(w, names, lowering::assigned(s, dest, v), machine::set(e, dest, x), st),
{
    reveal(agrees);
}

/// A step builds a value, which goes into a register.
proof fn lemma_build(
    w: World,
    names: Names,
    s: Low,
    e: Env,
    st: State,
    op: Step,
    ty: LlvmType,
    dest: usize,
)
    requires
        matched(w, names, s, e, st),
        s.l.ops.len() < usize::MAX,
        ({
            let after = executed(w, names, st, s.l.ops.len() as usize, op);
            &&& after.values =~= st.values.insert(
                s.l.ops.len() as usize,
                after.values[s.l.ops.len() as usize],
            )
            &&& machine::type_of(after.values[s.l.ops.len() as usize]) == ty
            &&& after.flow is On
        }),
    ensures
        ({
            let after = executed(w, names, st, s.l.ops.len() as usize, op);
            matched(
                w,
                names,
                lowering::build(s, op, ty, dest),
                machine::set(
                    Env { memory: after.memory, events: after.events, ..e },
                    dest,
                    after.values[s.l.ops.len() as usize],
                ),
                after,
            )
        }),
{
    lemma_gives(w, names, s, e, st, op, ty);
    let after = executed(w, names, st, s.l.ops.len() as usize, op);
    let (l, v) = lowering::built(s.l, op, ty);
    lemma_assigned(
        w,
        names,
        Low { l, ..s },
        Env { memory: after.memory, events: after.events, ..e },
        after,
        dest,
        v,
        after.values[s.l.ops.len() as usize],
    );
}

// ---------------------------------------------------------------------------
// Running up to a point

/// A run of steps: the state that it starts in, at the step of number `start`.
pub struct From {
    pub w: World,
    pub names: Names,
    pub st: State,
    pub start: int,
}

/// The state after all steps of a module so far.
pub open spec fn now(c: From, l: Ll) -> State {
    run(c.w, c.names, c.st, l.ops, c.start)
}

/// Whether the steps so far have led to what the instructions have led to.
pub open spec fn ok(c: From, s: Low, e: Env) -> bool {
    0 <= c.start <= s.l.ops.len() && matched(c.w, c.names, s, e, now(c, s.l))
}

/// Whether an operand is the value `x` after the steps so far.
pub open spec fn val(c: From, l: Ll, v: Operand, x: Val) -> bool {
    is_value(l, now(c, l), v, x)
}

/// Whether all operands have kept their values.
pub open spec fn kept(c: From, a: Ll, b: Ll) -> bool {
    forall|v: Operand, x: Val| #[trigger] val(c, a, v, x) ==> val(c, b, v, x)
}

/// A step builds the value `x`.
proof fn lemma_built(c: From, s: Low, e: Env, op: Step, ty: LlvmType, x: Val)
    requires
        ok(c, s, e),
        s.l.ops.len() < usize::MAX,
        executed(c.w, c.names, now(c, s.l), s.l.ops.len() as usize, op) == gives(
            now(c, s.l),
            s.l.ops.len() as usize,
            x,
        ),
        machine::type_of(x) == ty,
    ensures
        ({
            let (l, v) = lowering::built(s.l, op, ty);
            &&& ok(c, Low { l, ..s }, e)
            &&& val(c, l, v, x)
            &&& v.ty == ty
            &&& kept(c, s.l, l)
            &&& l.ops.len() == s.l.ops.len() + 1
        }),
{
    broadcast use lemma_run_pushed;

    lemma_gives(c.w, c.names, s, e, now(c, s.l), op, ty);
    let after = now(c, lowering::step(s.l, op));
    assert(Env { memory: after.memory, events: after.events, ..e } == e);
}

/// A step builds the value `x`, which goes into a register.
proof fn lemma_set(c: From, s: Low, e: Env, op: Step, ty: LlvmType, x: Val, dest: usize)
    requires
        ok(c, s, e),
        s.l.ops.len() < usize::MAX,
        executed(c.w, c.names, now(c, s.l), s.l.ops.len() as usize, op) == gives(
            now(c, s.l),
            s.l.ops.len() as usize,
            x,
        ),
        machine::type_of(x) == ty,
    ensures
        ok(c, lowering::build(s, op, ty, dest), machine::set(e, dest, x)),
{
    broadcast use lemma_run_pushed;

    lemma_built(c, s, e, op, ty, x);
    let (l, v) = lowering::built(s.l, op, ty);
    lemma_assigned(c.w, c.names, Low { l, ..s }, e, now(c, l), dest, v, x);
}

/// A value goes into a register.
proof fn lemma_put(c: From, s: Low, e: Env, dest: usize, v: Operand, x: Val)
    requires
        ok(c, s, e),
        val(c, s.l, v, x),
    ensures
        ok(c, lowering::assigned(s, dest, v), machine::set(e, dest, x)),
{
    lemma_assigned(c.w, c.names, s, e, now(c, s.l), dest, v, x);
}

/// A step writes the value `x` to memory.
proof fn lemma_stores(c: From, s: Low, e: Env, p: Operand, v: Operand, at: int, x: Val)
    requires
        ok(c, s, e),
        s.l.ops.len() < usize::MAX,
        val(c, s.l, p, Val::Pointer(at)),
        val(c, s.l, v, x),
    ensures
        ok(
            c,
            Low { l: lowering::step(s.l, Op::Store(p, v)), ..s },
            machine::stored(e, at, x),
        ),
{
    broadcast use lemma_run_pushed;

    lemma_does(c.w, c.names, s, e, now(c, s.l), Op::Store(p, v));
    let after = now(c, lowering::step(s.l, Op::Store(p, v)));
    assert(State { flow: Flow::On, ..after } == after);
    assert(machine::stored(e, at, x) == Env { memory: after.memory, events: after.events, ..e });
}

// ---------------------------------------------------------------------------
// Operands

/// A register holds the value that it is said to hold.
proof fn lemma_local(c: From, s: Low, e: Env, v: Value)
    requires
        ok(c, s, e),
    ensures
        lowering::local(s.loc, v) matches Some(x) ==> val(
            c,
            s.l,
            x,
            machine::value_of(c.w, e, v),
        ),
        lowering::local_pointer(s.loc, v) matches Some(x) ==> val(
            c,
            s.l,
            x,
            machine::value_of(c.w, e, v),
        ) && x.ty is Pointer,
        lowering::local_int(s.loc, v) matches Some(x) ==> val(
            c,
            s.l,
            x,
            machine::value_of(c.w, e, v),
        ) && x.ty is Int,
{
    reveal(agrees);
    reveal(lowering::local);
    reveal(lowering::local_pointer);
    reveal(lowering::local_int);
}

/// The lowest 64 bits of a 64-bit number stand for the number.
proof fn lemma_wrapped_64(n: i64)
    ensures
        machine::wrapped(64, (n as u64) as int) == n,
        machine::wrapped(1, 1) == -1,
        machine::wrapped(1, 0) == 0,
        machine::wrapped(32, 0) == 0,
{
    vstd::arithmetic::power2::lemma2_to64();
    assert(n >= 0 ==> n as u64 == n) by (bit_vector);
    assert(n < 0 ==> n as u64 == n + 0x1_0000_0000_0000_0000) by (bit_vector);
}

/// An operand is the value that it is said to be.
proof fn lemma_operand(c: From, s: Low, e: Env, v: Value)
    requires
        ok(c, s, e),
        lowering::operand(s, v) matches Some((s2, _)) ==> s2.l.ops.len() <= usize::MAX,
    ensures
        lowering::operand(s, v) matches Some((s2, x)) ==> {
            &&& ok(c, s2, e)
            &&& val(c, s2.l, x, machine::value_of(c.w, e, v))
            &&& kept(c, s.l, s2.l)
            &&& s2.l.ops.len() >= s.l.ops.len()
            &&& s2.loc == s.loc
        },
{
    reveal(lowering::operand);
    reveal(lowering::string);
    match v {
        Value::Local(_) => lemma_local(c, s, e, v),
        Value::LiteralInteger(n) => {
            lemma_wrapped_64(n);
            lemma_built(
                c,
                s,
                e,
                Op::ConstInt(64, n as u64),
                LlvmType::Int(64),
                Val::Int(64, n as int),
            );
        },
        Value::LiteralBoolean(b) => {
            lemma_wrapped_64(0);
            lemma_built(
                c,
                s,
                e,
                Op::ConstInt(
                    1,
                    if b {
                        1
                    } else {
                        0
                    },
                ),
                LlvmType::Int(1),
                machine::truth(b),
            );
        },
        Value::Global(n) => {
            reveal(knows);
        },
    }
}

/// Operands are only added to the steps.
proof fn lemma_operands_grow(s: Low, vs: Seq<Value>, k: int, values: Seq<Operand>)
    ensures
        lowering::operands(s, vs, k, values) matches Some((s2, _)) ==> s2.l.ops.len()
            >= s.l.ops.len(),
    decreases vs.len() - k,
{
    reveal_with_fuel(lowering::operands, 2);
    reveal(lowering::operand);
    if 0 <= k < vs.len() {
        match lowering::operand(s, vs[k]) {
            Some((s2, v)) => lemma_operands_grow(s2, vs, k + 1, values.push(v)),
            None => {},
        }
    }
}

/// Operands are the values that they are said to be.
proof fn lemma_operands(c: From, s: Low, e: Env, vs: Seq<Value>, k: int, values: Seq<Operand>)
    requires
        ok(c, s, e),
        0 <= k <= vs.len(),
        values.len() == k,
        forall|i: int|
            0 <= i < k ==> val(
                c,
                s.l,
                #[trigger] values[i],
                machine::value_of(c.w, e, vs[i]),
            ),
        lowering::operands(s, vs, k, values) matches Some((s2, _)) ==> s2.l.ops.len()
            <= usize::MAX,
    ensures
        lowering::operands(s, vs, k, values) matches Some((s2, out)) ==> {
            &&& ok(c, s2, e)
            &&& out.len() == vs.len()
            &&& forall|i: int|
                0 <= i < vs.len() ==> val(
                    c,
                    s2.l,
                    #[trigger] out[i],
                    machine::value_of(c.w, e, vs[i]),
                )
            &&& kept(c, s.l, s2.l)
            &&& s2.loc == s.loc
        },
    decreases vs.len() - k,
{
    reveal_with_fuel(lowering::operands, 2);
    if k < vs.len() && lowering::operands(s, vs, k, values) is Some {
        match lowering::operand(s, vs[k]) {
            Some((s2, v)) => {
                lemma_operands_grow(s2, vs, k + 1, values.push(v));
                lemma_operand(c, s, e, vs[k]);
                let more = values.push(v);
                assert forall|i: int| 0 <= i < k + 1 implies val(
                    c,
                    s2.l,
                    #[trigger] more[i],
                    machine::value_of(c.w, e, vs[i]),
                ) by {
                    if i < k {
                        assert(val(c, s.l, values[i], machine::value_of(c.w, e, vs[i])));
                    }
                }
                lemma_operands(c, s2, e, vs, k + 1, more);
            },
            None => {},
        }
    }
}

/// A value is brought to a type.
proof fn lemma_coerced(c: From, s: Low, e: Env, v: Operand, x: Val, target: LlvmType)
    requires
        ok(c, s, e),
        val(c, s.l, v, x),
        lowering::coerced(s.l, v, target).0.ops.len() <= usize::MAX,
    ensures
        ({
            let (l, u) = lowering::coerced(s.l, v, target);
            &&& ok(c, Low { l, ..s }, e)
            &&& val(c, l, u, machine::fitted(x, target))
            &&& kept(c, s.l, l)
            &&& l.ops.len() >= s.l.ops.len()
        }),
{
    reveal(lowering::coerced);
    match (v.ty, target) {
        (LlvmType::Int(src), LlvmType::Int(dst)) => {
            if dst > src && src == 1 {
                lemma_built(
                    c,
                    s,
                    e,
                    Op::ZeroExtend(v, dst, Label::Extend),
                    target,
                    machine::fitted(x, target),
                );
            } else if dst > src {
                lemma_built(
                    c,
                    s,
                    e,
                    Op::SignExtend(v, dst, Label::Extend),
                    target,
                    machine::fitted(x, target),
                );
            } else if dst < src {
                lemma_built(
                    c,
                    s,
                    e,
                    Op::Truncate(v, dst),
                    target,
                    machine::fitted(x, target),
                );
            }
        },
        _ => {},
    }
    assert(Low { l: s.l, ..s } == s);
}

/// Two integers are brought to the larger one of their widths, and keep what they are.
proof fn lemma_harmonized(c: From, s: Low, e: Env, a: Operand, b: Operand, x: Val, y: Val)
    requires
        ok(c, s, e),
        val(c, s.l, a, x),
        val(c, s.l, b, y),
        lowering::harmonized(s.l, a, b).0.ops.len() <= usize::MAX,
    ensures
        ({
            let (l, a2, b2) = lowering::harmonized(s.l, a, b);
            &&& ok(c, Low { l, ..s }, e)
            &&& val(c, l, a2, machine::same_width(x, y)[0])
            &&& val(c, l, b2, machine::same_width(x, y)[1])
            &&& kept(c, s.l, l)
            &&& l.ops.len() >= s.l.ops.len()
            &&& l.functions == s.l.functions
        }),
{
    reveal(lowering::harmonized);
    match (a.ty, b.ty) {
        (LlvmType::Int(m), LlvmType::Int(n)) => {
            if m < n {
                lemma_built(
                    c,
                    s,
                    e,
                    Op::SignExtend(a, n, Label::Extend),
                    b.ty,
                    Val::Int(n, machine::number(x)),
                );
            } else if n < m {
                lemma_built(
                    c,
                    s,
                    e,
                    Op::SignExtend(b, m, Label::Extend),
                    a.ty,
                    Val::Int(m, machine::number(y)),
                );
            }
        },
        _ => {},
    }
    assert(Low { l: s.l, ..s } == s);
}

// ---------------------------------------------------------------------------
// Instructions

/// Arithmetic.
proof fn lemma_arithmetic(c: From, s: Low, e: Env, i: IntOp, f: FloatOp, a: Value, b: Value, dest: usize)
    requires
        ok(c, s, e),
        lowering::arithmetic(s, i, f, a, b, dest) matches Some(s2) ==> s2.l.ops.len() <= usize::MAX,
    ensures
        lowering::arithmetic(s, i, f, a, b, dest) matches Some(s2) ==> ok(
            c,
            s2,
            machine::set(
                e,
                dest,
                machine::arithmetic(
                    c.w,
                    i,
                    f,
                    machine::value_of(c.w, e, a),
                    machine::value_of(c.w, e, b),
                ),
            ),
        ),
{
    reveal(lowering::arithmetic);
    lemma_local(c, s, e, a);
    lemma_local(c, s, e, b);
    if lowering::arithmetic(s, i, f, a, b, dest) is Some {
        let p = lowering::local(s.loc, a)->0;
        let q = lowering::local(s.loc, b)->0;
        let x = machine::value_of(c.w, e, a);
        let y = machine::value_of(c.w, e, b);
        lemma_harmonized(c, s, e, p, q, x, y);
        let (l, p2, q2) = lowering::harmonized(s.l, p, q);
        let result = machine::arithmetic(c.w, i, f, x, y);
        match p2.ty {
            LlvmType::Float(_) => lemma_set(
                c,
                Low { l, ..s },
                e,
                Op::Float(f, p2, q2),
                p2.ty,
                result,
                dest,
            ),
            LlvmType::Int(_) => lemma_set(
                c,
                Low { l, ..s },
                e,
                Op::Int(i, p2, q2),
                p2.ty,
                result,
                dest,
            ),
            _ => {},
        }
    }
}

/// Comparisons.
proof fn lemma_comparison(c: From, s: Low, e: Env, p: Predicate, a: Value, b: Value, dest: usize)
    requires
        ok(c, s, e),
        lowering::comparison(s, p, a, b, dest) matches Some(s2) ==> s2.l.ops.len() <= usize::MAX,
    ensures
        lowering::comparison(s, p, a, b, dest) matches Some(s2) ==> ok(
            c,
            s2,
            machine::set(
                e,
                dest,
                machine::comparison(
                    c.w,
                    p,
                    machine::value_of(c.w, e, a),
                    machine::value_of(c.w, e, b),
                ),
            ),
        ),
{
    reveal(lowering::comparison);
    lemma_local(c, s, e, a);
    lemma_local(c, s, e, b);
    if lowering::comparison(s, p, a, b, dest) is Some {
        let u = lowering::local(s.loc, a)->0;
        let v = lowering::local(s.loc, b)->0;
        let x = machine::value_of(c.w, e, a);
        let y = machine::value_of(c.w, e, b);
        lemma_harmonized(c, s, e, u, v, x, y);
        let (l, u, v) = lowering::harmonized(s.l, u, v);
        let result = machine::comparison(c.w, p, x, y);
        match u.ty {
            LlvmType::Float(_) => lemma_set(
                c,
                Low { l, ..s },
                e,
                Op::FloatCompare(p, u, v),
                LlvmType::Int(1),
                result,
                dest,
            ),
            LlvmType::Int(_) => lemma_set(
                c,
                Low { l, ..s },
                e,
                Op::IntCompare(p, u, v),
                LlvmType::Int(1),
                result,
                dest,
            ),
            LlvmType::Pointer => {
                let m = Val::Int(64, machine::wrapped(64, machine::address(x)));
                let n = Val::Int(64, machine::wrapped(64, machine::address(y)));
                lemma_built(c, Low { l, ..s }, e, Op::PointerToInt(u, 64), LlvmType::Int(64), m);
                let (l2, u2) = lowering::built(l, Op::PointerToInt(u, 64), LlvmType::Int(64));
                assert(val(c, l2, v, y));
                lemma_built(
                    c,
                    Low { l: l2, ..s },
                    e,
                    Op::PointerToInt(v, 64),
                    LlvmType::Int(64),
                    n,
                );
                let (l3, v2) = lowering::built(l2, Op::PointerToInt(v, 64), LlvmType::Int(64));
                assert(val(c, l3, u2, m));
                lemma_set(
                    c,
                    Low { l: l3, ..s },
                    e,
                    Op::IntCompare(p, u2, v2),
                    LlvmType::Int(1),
                    result,
                    dest,
                );
            },
            _ => {},
        }
    }
}

/// Operations on bits.
proof fn lemma_bitwise(c: From, s: Low, e: Env, op: IntOp, harmonize: bool, a: Value, b: Value, dest: usize)
    requires
        ok(c, s, e),
        lowering::bitwise(s, op, harmonize, a, b, dest) matches Some(s2) ==> s2.l.ops.len()
            <= usize::MAX,
    ensures
        lowering::bitwise(s, op, harmonize, a, b, dest) matches Some(s2) ==> ok(
            c,
            s2,
            machine::set(
                e,
                dest,
                if harmonize {
                    machine::bits_of(
                        op,
                        machine::value_of(c.w, e, a),
                        machine::value_of(c.w, e, b),
                    )
                } else {
                    machine::logic_of(
                        op,
                        machine::value_of(c.w, e, a),
                        machine::value_of(c.w, e, b),
                    )
                },
            ),
        ),
{
    reveal(lowering::bitwise);
    lemma_local(c, s, e, a);
    lemma_local(c, s, e, b);
    if lowering::bitwise(s, op, harmonize, a, b, dest) is Some {
        let p = lowering::local(s.loc, a)->0;
        let q = lowering::local(s.loc, b)->0;
        let x = machine::value_of(c.w, e, a);
        let y = machine::value_of(c.w, e, b);
        if harmonize {
            lemma_harmonized(c, s, e, p, q, x, y);
            let (l, p2, q2) = lowering::harmonized(s.l, p, q);
            lemma_set(
                c,
                Low { l, ..s },
                e,
                Op::Int(op, p2, q2),
                p2.ty,
                machine::bits_of(op, x, y),
                dest,
            );
        } else {
            lemma_set(c, s, e, Op::Int(op, p, q), p.ty, machine::logic_of(op, x, y), dest);
        }
        assert(Low { l: s.l, ..s } == s);
    }
}

/// Complements.
proof fn lemma_not(c: From, s: Low, e: Env, sig: Sig, v: Value, dest: usize)
    requires
        ok(c, s, e),
        lowering::instruction(s, sig, Inst::Not(v, dest)) matches Some(s2) ==> s2.l.ops.len()
            <= usize::MAX,
    ensures
        lowering::instruction(s, sig, Inst::Not(v, dest)) matches Some(s2) ==> ok(
            c,
            s2,
            machine::performed(c.w, e, Inst::Not(v, dest)),
        ),
{
    reveal(lowering::instruction);
    lemma_local(c, s, e, v);
    match lowering::local_int(s.loc, v) {
        Some(p) => lemma_set(
            c,
            s,
            e,
            Op::Not(p),
            p.ty,
            machine::complement(machine::value_of(c.w, e, v)),
            dest,
        ),
        None => {},
    }
}

/// Reads of variables, globals and arguments.
proof fn lemma_loads(c: From, s: Low, e: Env, name: Seq<char>, dest: usize, t: Ty)
    requires
        ok(c, s, e),
        s.l.ops.len() < usize::MAX,
    ensures
        lowering::load(s, name, dest, t) matches Some(s2) ==> ok(
            c,
            s2,
            machine::performed(c.w, e, Inst::Load(name, dest, t)),
        ),
        lowering::load_global(s, name, dest, t) matches Some(s2) ==> ok(
            c,
            s2,
            machine::performed(c.w, e, Inst::LoadGlobal(name, dest, t)),
        ),
{
    reveal(lowering::load);
    reveal(lowering::load_global);
    reveal(knows);
    reveal(agrees);
    if lowering::load(s, name, dest, t) is Some {
        let p = assoc::get(s.loc.variables, name)->0;
        let ty = lowering::basic_type(s.l, t)->0;
        lemma_set(
            c,
            s,
            e,
            Op::Load(ty, p, Label::Load),
            ty,
            machine::read_as(c.w, ty, e.memory[(c.w.place)(name)]),
            dest,
        );
    }
    if lowering::load_global(s, name, dest, t) is Some {
        let p = assoc::get(s.l.globals, name)->0;
        let ty = lowering::basic_type(s.l, t)->0;
        lemma_set(
            c,
            s,
            e,
            Op::Load(ty, p, Label::Load),
            ty,
            machine::read_as(c.w, ty, e.memory[(c.w.global)(name)]),
            dest,
        );
    }
}

/// Writes of variables that have been allocated.
proof fn lemma_store(c: From, s: Low, e: Env, name: Seq<char>, v: Value, t: Ty)
    requires
        ok(c, s, e),
        assoc::get(s.loc.variables, name) is Some,
        v is Global ==> (c.w.kind)(t) is Pointer,
        lowering::store(s, name, v, t) matches Some(s2) ==> s2.l.ops.len() <= usize::MAX,
    ensures
        lowering::store(s, name, v, t) matches Some(s2) ==> ok(
            c,
            s2,
            machine::performed(c.w, e, Inst::Store(name, v, t)),
        ),
{
    reveal(lowering::store);
    reveal(lowering::store_string);
    reveal(lowering::variable);
    reveal(lowering::string);
    let at = (c.w.place)(name);
    let p = assoc::get(s.loc.variables, name)->0;
    assert(val(c, s.l, p, Val::Pointer(at))) by {
        reveal(agrees);
    }
    if lowering::store(s, name, v, t) is Some {
        match v {
            Value::Global(n) => {
                reveal(knows);
                let u = s.l.strings[n as int];
                assert(val(c, s.l, u, Val::Pointer((c.w.text)(n))));
                lemma_stores(c, s, e, p, u, at, Val::Pointer((c.w.text)(n)));
            },
            _ => {
                let (s1, u) = lowering::operand(s, v)->0;
                let ty = lowering::basic_type(s1.l, t)->0;
                let (l, u2) = lowering::coerced(s1.l, u, ty);
                assert(s1.l.ops.len() <= l.ops.len()) by {
                    reveal(lowering::coerced);
                }
                lemma_operand(c, s, e, v);
                assert((c.w.kind)(t) == ty) by {
                    reveal(knows);
                }
                lemma_coerced(c, s1, e, u, machine::value_of(c.w, e, v), ty);
                assert(val(c, s1.l, p, Val::Pointer(at)));
                assert(val(c, l, p, Val::Pointer(at)));
                lemma_stores(
                    c,
                    Low { l, ..s1 },
                    e,
                    p,
                    u2,
                    at,
                    machine::fitted(machine::value_of(c.w, e, v), ty),
                );
            },
        }
    }
}

/// What a call gives and does.
proof fn lemma_called(c: From, s: Low, e: Env, name: Seq<char>, sig: Sig, vs: Seq<Operand>, xs: Seq<Val>, label: Label, dest: usize)
    requires
        ok(c, s, e),
        s.l.ops.len() < usize::MAX,
        assoc::get(s.l.functions, name) == Some(sig),
        vs.len() == xs.len(),
        forall|i: int| 0 <= i < vs.len() ==> val(c, s.l, #[trigger] vs[i], xs[i]),
    ensures
        ok(
            c,
            match sig.result {
                Some(t) => lowering::build(s, Op::Call(sig.id, vs, label), t, dest),
                None => Low { l: lowering::step(s.l, Op::Call(sig.id, vs, label)), ..s },
            },
            machine::called(c.w, e, name, xs, dest),
        ),
{
    broadcast use lemma_run_pushed;

    reveal(knows);
    let st = now(c, s.l);
    let op: Step = Op::Call(sig.id, vs, label);
    assert(all_at(st, vs) =~= xs);
    let after = executed(c.w, c.names, st, s.l.ops.len() as usize, op);
    match sig.result {
        Some(t) => lemma_build(c.w, c.names, s, e, st, op, t, dest),
        None => {
            lemma_does(c.w, c.names, s, e, st, op);
            assert(State { flow: Flow::On, ..after } == after);
        },
    }
}

/// Powers.
proof fn lemma_power(c: From, s: Low, e: Env, a: Value, b: Value, dest: usize)
    requires
        ok(c, s, e),
        lowering::power(s, a, b, dest) matches Some(s2) ==> s2.l.ops.len() <= usize::MAX,
    ensures
        lowering::power(s, a, b, dest) matches Some(s2) ==> ok(
            c,
            s2,
            machine::performed(c.w, e, Inst::Pow(a, b, dest)),
        ),
{
    reveal(lowering::power);
    lemma_local(c, s, e, a);
    lemma_local(c, s, e, b);
    if lowering::power(s, a, b, dest) is Some {
        let p = lowering::local(s.loc, a)->0;
        let q = lowering::local(s.loc, b)->0;
        let x = machine::value_of(c.w, e, a);
        let y = machine::value_of(c.w, e, b);
        lemma_harmonized(c, s, e, p, q, x, y);
        let (l, p2, q2) = lowering::harmonized(s.l, p, q);
        let sig = assoc::get(l.functions, "pow"@)->0;
        lemma_called(
            c,
            Low { l, ..s },
            e,
            "pow"@,
            sig,
            seq![p2, q2],
            machine::same_width(x, y),
            Label::Power,
            dest,
        );
    }
}

/// An argument is brought to what a callee expects.
proof fn lemma_argument(c: From, s: Low, e: Env, v: Operand, x: Val, param: Option<LlvmType>)
    requires
        ok(c, s, e),
        val(c, s.l, v, x),
        lowering::argument(s.l, v, param).0.ops.len() <= usize::MAX,
    ensures
        ({
            let (l, u) = lowering::argument(s.l, v, param);
            &&& ok(c, Low { l, ..s }, e)
            &&& val(c, l, u, machine::passed(c.w, x, param))
            &&& kept(c, s.l, l)
            &&& l.ops.len() >= s.l.ops.len()
        }),
{
    reveal(lowering::argument);
    let y = machine::passed(c.w, x, param);
    assert(Low { l: s.l, ..s } == s);
    match param {
        Some(t) => lemma_coerced(c, s, e, v, x, t),
        None => match v.ty {
            LlvmType::Int(n) => if n == 1 {
                lemma_built(
                    c,
                    s,
                    e,
                    Op::ZeroExtend(v, 32, Label::Promote),
                    LlvmType::Int(32),
                    y,
                );
            } else if n < 32 {
                lemma_built(
                    c,
                    s,
                    e,
                    Op::SignExtend(v, 32, Label::Promote),
                    LlvmType::Int(32),
                    y,
                );
            },
            LlvmType::Float(n) => if n != 64 {
                lemma_built(c, s, e, Op::FloatExtend(v), LlvmType::Float(64), y);
            },
            _ => {},
        },
    }
}

/// Arguments are only added to the steps.
proof fn lemma_arguments_grow(l: Ll, vs: Seq<Operand>, params: Seq<LlvmType>, k: int, done: Seq<Operand>)
    ensures
        lowering::arguments(l, vs, params, k, done).0.ops.len() >= l.ops.len(),
        lowering::arguments(l, vs, params, k, done).0.functions == l.functions,
    decreases vs.len() - k,
{
    reveal_with_fuel(lowering::arguments, 2);
    reveal(lowering::argument);
    reveal(lowering::coerced);
    if 0 <= k < vs.len() {
        let (l2, v) = lowering::argument(
            l,
            vs[k],
            if k < params.len() {
                Some(params[k])
            } else {
                None
            },
        );
        lemma_arguments_grow(l2, vs, params, k + 1, done.push(v));
    }
}

/// Arguments are brought to what a callee expects.
proof fn lemma_arguments(
    c: From,
    s: Low,
    e: Env,
    vs: Seq<Operand>,
    xs: Seq<Val>,
    params: Seq<LlvmType>,
    k: int,
    done: Seq<Operand>,
)
    requires
        ok(c, s, e),
        0 <= k <= vs.len(),
        vs.len() == xs.len(),
        done.len() == k,
        forall|i: int| 0 <= i < vs.len() ==> val(c, s.l, #[trigger] vs[i], xs[i]),
        forall|i: int|
            0 <= i < k ==> val(
                c,
                s.l,
                #[trigger] done[i],
                machine::all_passed(c.w, xs, params)[i],
            ),
        lowering::arguments(s.l, vs, params, k, done).0.ops.len() <= usize::MAX,
    ensures
        ({
            let (l, out) = lowering::arguments(s.l, vs, params, k, done);
            &&& ok(c, Low { l, ..s }, e)
            &&& out.len() == vs.len()
            &&& forall|i: int|
                0 <= i < vs.len() ==> val(
                    c,
                    l,
                    #[trigger] out[i],
                    machine::all_passed(c.w, xs, params)[i],
                )
        }),
    decreases vs.len() - k,
{
    reveal_with_fuel(lowering::arguments, 2);
    assert(Low { l: s.l, ..s } == s);
    if k < vs.len() {
        let param = if k < params.len() {
            Some(params[k])
        } else {
            None
        };
        let (l2, v) = lowering::argument(s.l, vs[k], param);
        lemma_arguments_grow(l2, vs, params, k + 1, done.push(v));
        lemma_argument(c, s, e, vs[k], xs[k], param);
        let more = done.push(v);
        assert forall|i: int| 0 <= i < k + 1 implies val(
            c,
            l2,
            #[trigger] more[i],
            machine::all_passed(c.w, xs, params)[i],
        ) by {
            if i < k {
                assert(val(c, s.l, done[i], machine::all_passed(c.w, xs, params)[i]));
            }
        }
        assert forall|i: int| 0 <= i < vs.len() implies val(c, l2, #[trigger] vs[i], xs[i]) by {
            assert(val(c, s.l, vs[i], xs[i]));
        }
        lemma_arguments(c, Low { l: l2, ..s }, e, vs, xs, params, k + 1, more);
    }
}

/// Calls of declared functions.
proof fn lemma_function_call(c: From, s: Low, e: Env, name: Seq<char>, args: Seq<Value>, dest: usize)
    requires
        ok(c, s, e),
        lowering::function_call(s, name, args, dest) matches Some(s2) ==> s2.l.ops.len()
            <= usize::MAX,
    ensures
        lowering::function_call(s, name, args, dest) matches Some(s2) ==> ok(
            c,
            s2,
            machine::called(
                c.w,
                e,
                name,
                machine::all_passed(
                    c.w,
                    machine::values_of(c.w, e, args),
                    (c.w.params)(name),
                ),
                dest,
            ),
        ),
{
    reveal(lowering::function_call);
    if lowering::function_call(s, name, args, dest) is Some {
        let (s1, vs) = lowering::operands(s, args, 0, Seq::empty())->0;
        let sig = assoc::get(s1.l.functions, name)->0;
        let xs = machine::values_of(c.w, e, args);
        lemma_arguments_grow(s1.l, vs, sig.params, 0, Seq::empty());
        let (l, out) = lowering::arguments(s1.l, vs, sig.params, 0, Seq::empty());
        lemma_operands(c, s, e, args, 0, Seq::empty());
        assert forall|i: int| 0 <= i < vs.len() implies val(c, s1.l, #[trigger] vs[i], xs[i]) by {}
        lemma_arguments(c, s1, e, vs, xs, sig.params, 0, Seq::empty());
        assert((c.w.params)(name) == sig.params) by {
            reveal(knows);
        }
        lemma_called(
            c,
            Low { l, ..s1 },
            e,
            name,
            sig,
            out,
            machine::all_passed(c.w, xs, sig.params),
            Label::Call,
            dest,
        );
    }
}

/// Calls that stand for reading, writing and moving pointers.
proof fn lemma_pointers(c: From, s: Low, e: Env, args: Seq<Value>, ty: LlvmType, label: Label, of_int: bool, dest: usize)
    requires
        ok(c, s, e),
        s.l.ops.len() < usize::MAX,
    ensures
        ({
            let vs = machine::values_of(c.w, e, args);
            &&& lowering::pointer_add(s, args, dest) matches Some(s2) ==> ok(
                c,
                s2,
                machine::set(
                    e,
                    dest,
                    Val::Pointer(
                        (c.w.element)(
                            LlvmType::Int(8),
                            machine::address(vs[0]),
                            machine::number(vs[1]),
                        ),
                    ),
                ),
            )
            &&& lowering::pointer_read(s, args, ty, label, dest) matches Some(s2) ==> ok(
                c,
                s2,
                machine::set(
                    e,
                    dest,
                    machine::read_as(c.w, ty, e.memory[machine::address(vs[0])]),
                ),
            )
            &&& lowering::pointer_write(s, args, of_int) matches Some(s2) ==> ok(
                c,
                s2,
                machine::stored(e, machine::address(vs[0]), vs[1]),
            )
        }),
{
    reveal(lowering::pointer_argument);
    reveal(lowering::pointer_add);
    reveal(lowering::pointer_read);
    reveal(lowering::pointer_write);
    let vs = machine::values_of(c.w, e, args);
    if args.len() > 0 {
        lemma_local(c, s, e, args[0]);
        if args.len() > 1 {
            lemma_local(c, s, e, args[1]);
        }
        match lowering::local_pointer(s.loc, args[0]) {
            Some(p) => {
                lemma_set(
                    c,
                    s,
                    e,
                    Op::Load(ty, p, label),
                    ty,
                    machine::read_as(c.w, ty, e.memory[machine::address(vs[0])]),
                    dest,
                );
                if args.len() > 1 {
                    match lowering::local_int(s.loc, args[1]) {
                        Some(i) => {
                            lemma_set(
                                c,
                                s,
                                e,
                                Op::Gep(LlvmType::Int(8), p, i, Label::PtrAdd),
                                LlvmType::Pointer,
                                Val::Pointer(
                                    (c.w.element)(
                                        LlvmType::Int(8),
                                        machine::address(vs[0]),
                                        machine::number(vs[1]),
                                    ),
                                ),
                                dest,
                            );
                            lemma_stores(c, s, e, p, i, machine::address(vs[0]), vs[1]);
                        },
                        None => {},
                    }
                    match lowering::local_pointer(s.loc, args[1]) {
                        Some(q) => {
                            lemma_stores(c, s, e, p, q, machine::address(vs[0]), vs[1]);
                        },
                        None => {},
                    }
                }
            },
            None => {},
        }
    }
}

/// Calls.
proof fn lemma_call(c: From, s: Low, e: Env, name: Seq<char>, args: Seq<Value>, dest: usize)
    requires
        ok(c, s, e),
        s.l.ops.len() < usize::MAX,
        lowering::call(s, name, args, dest) matches Some(s2) ==> s2.l.ops.len() <= usize::MAX,
    ensures
        lowering::call(s, name, args, dest) matches Some(s2) ==> ok(
            c,
            s2,
            machine::performed(c.w, e, Inst::FunctionCall(name, args, dest)),
        ),
{
    reveal(lowering::call);
    reveal_strlit("ptr_add");
    reveal_strlit("ptr_read_int");
    reveal_strlit("ptr_read_str");
    reveal_strlit("ptr_write_int");
    reveal_strlit("ptr_write_str");
    assert("ptr_read_str"@.len() == 12 && "ptr_write_int"@.len() == 13);
    let after = machine::performed(c.w, e, Inst::FunctionCall(name, args, dest));
    let vs = machine::values_of(c.w, e, args);
    if name == "ptr_add"@ {
        lemma_pointers(c, s, e, args, LlvmType::Pointer, Label::PtrAdd, true, dest);
    } else if name == "ptr_read_int"@ {
        lemma_pointers(c, s, e, args, LlvmType::Int(64), Label::PtrReadInt, true, dest);
    } else if name == "ptr_read_str"@ {
        lemma_pointers(c, s, e, args, LlvmType::Pointer, Label::PtrReadStr, true, dest);
    } else if name == "ptr_write_int"@ {
        lemma_pointers(c, s, e, args, LlvmType::Pointer, Label::PtrAdd, true, dest);
    } else if name == "ptr_write_str"@ {
        lemma_pointers(c, s, e, args, LlvmType::Pointer, Label::PtrAdd, false, dest);
        assert(after == machine::stored(e, machine::address(vs[0]), vs[1]));
        assert(lowering::call(s, name, args, dest) == lowering::pointer_write(s, args, false));
    } else {
        lemma_function_call(c, s, e, name, args, dest);
        assert(after == machine::called(c.w, e, name, machine::all_passed(c.w, vs, (c.w.params)(name)), dest));
        assert(lowering::call(s, name, args, dest) == lowering::function_call(s, name, args, dest));
    }
}

/// Addresses of elements.
proof fn lemma_element(c: From, s: Low, e: Env, array: Value, index: Value, t: Ty, label: Label)
    requires
        ok(c, s, e),
        s.l.ops.len() < usize::MAX,
    ensures
        lowering::element(s, array, index, t, label) matches Some((l, p, ty)) ==> {
            &&& ok(c, Low { l, ..s }, e)
            &&& val(
                c,
                l,
                p,
                Val::Pointer(
                    (c.w.element)(
                        (c.w.kind)(t),
                        machine::address(machine::value_of(c.w, e, array)),
                        machine::number(machine::value_of(c.w, e, index)),
                    ),
                ),
            )
            &&& ty == (c.w.kind)(t)
            &&& l.ops.len() == s.l.ops.len() + 1
        },
{
    reveal(lowering::element);
    lemma_local(c, s, e, array);
    lemma_local(c, s, e, index);
    if lowering::element(s, array, index, t, label) is Some {
        let p = lowering::local_pointer(s.loc, array)->0;
        let i = lowering::local_int(s.loc, index)->0;
        let ty = lowering::basic_type(s.l, t)->0;
        assert((c.w.kind)(t) == ty) by {
            reveal(knows);
        }
        lemma_built(
            c,
            s,
            e,
            Op::Gep(ty, p, i, label),
            LlvmType::Pointer,
            Val::Pointer(
                (c.w.element)(
                    (c.w.kind)(t),
                    machine::address(machine::value_of(c.w, e, array)),
                    machine::number(machine::value_of(c.w, e, index)),
                ),
            ),
        );
    }
}

/// Reads of elements, and their addresses.
proof fn lemma_elements(c: From, s: Low, e: Env, sig: Sig, array: Value, index: Value, dest: usize, t: Ty)
    requires
        ok(c, s, e),
        s.l.ops.len() + 1 < usize::MAX,
    ensures
        lowering::instruction(s, sig, Inst::ElementPtr(array, index, dest, t)) matches Some(s2)
            ==> ok(c, s2, machine::performed(c.w, e, Inst::ElementPtr(array, index, dest, t))),
        lowering::instruction(s, sig, Inst::AccessElement(array, index, dest, t)) matches Some(s2)
            ==> ok(c, s2, machine::performed(c.w, e, Inst::AccessElement(array, index, dest, t))),
{
    reveal(lowering::instruction);
    lemma_element(c, s, e, array, index, t, Label::ElementPtr);
    lemma_element(c, s, e, array, index, t, Label::Gep);
    let at = (c.w.element)(
        (c.w.kind)(t),
        machine::address(machine::value_of(c.w, e, array)),
        machine::number(machine::value_of(c.w, e, index)),
    );
    match lowering::element(s, array, index, t, Label::ElementPtr) {
        Some((l, p, _)) => lemma_put(c, Low { l, ..s }, e, dest, p, Val::Pointer(at)),
        None => {},
    }
    match lowering::element(s, array, index, t, Label::Gep) {
        Some((l, p, ty)) => lemma_set(
            c,
            Low { l, ..s },
            e,
            Op::Load(ty, p, Label::Load),
            ty,
            machine::read_as(c.w, ty, e.memory[at]),
            dest,
        ),
        None => {},
    }
}

/// Writes of elements.
proof fn lemma_store_element(c: From, s: Low, e: Env, array: Value, index: Value, v: Value, t: Ty)
    requires
        ok(c, s, e),
        lowering::store_element(s, array, index, v, t) matches Some(s2) ==> s2.l.ops.len()
            <= usize::MAX,
    ensures
        lowering::store_element(s, array, index, v, t) matches Some(s2) ==> ok(
            c,
            s2,
            machine::performed(c.w, e, Inst::StoreElement(array, index, v, t)),
        ),
{
    reveal(lowering::store_element);
    lemma_local(c, s, e, array);
    lemma_local(c, s, e, index);
    if lowering::store_element(s, array, index, v, t) is Some {
        let p = lowering::local_pointer(s.loc, array)->0;
        let i = lowering::local_int(s.loc, index)->0;
        let (s1, u) = lowering::operand(s, v)->0;
        let ty = lowering::basic_type(s1.l, t)->0;
        let (l, u2) = lowering::coerced(s1.l, u, ty);
        assert(s1.l.ops.len() <= l.ops.len()) by {
            reveal(lowering::coerced);
        }
        lemma_operand(c, s, e, v);
        assert((c.w.kind)(t) == ty) by {
            reveal(knows);
        }
        let x = machine::value_of(c.w, e, v);
        lemma_coerced(c, s1, e, u, x, ty);
        let a = machine::value_of(c.w, e, array);
        let b = machine::value_of(c.w, e, index);
        assert(val(c, s1.l, p, a) && val(c, s1.l, i, b));
        assert(val(c, l, p, a) && val(c, l, i, b));
        let at = (c.w.element)(ty, machine::address(a), machine::number(b));
        lemma_built(
            c,
            Low { l, ..s1 },
            e,
            Op::Gep(ty, p, i, Label::Gep),
            LlvmType::Pointer,
            Val::Pointer(at),
        );
        let (l2, q) = lowering::built(l, Op::Gep(ty, p, i, Label::Gep), LlvmType::Pointer);
        assert(val(c, l2, u2, machine::fitted(x, ty)));
        lemma_stores(c, Low { l: l2, ..s1 }, e, q, u2, at, machine::fitted(x, ty));
    }
}

/// Writes of members.
proof fn lemma_store_member(c: From, s: Low, e: Env, struc: Value, index: usize, v: Value, name: Seq<char>)
    requires
        ok(c, s, e),
        lowering::store_member(s, struc, index, v, name) matches Some(s2) ==> s2.l.ops.len()
            <= usize::MAX,
    ensures
        lowering::store_member(s, struc, index, v, name) matches Some(s2) ==> ok(
            c,
            s2,
            machine::performed(c.w, e, Inst::StoreStructMember(struc, index, v, name)),
        ),
{
    reveal(lowering::store_member);
    reveal(lowering::member_type);
    if lowering::store_member(s, struc, index, v, name) is Some {
        let (s1, u) = lowering::operand(s, v)->0;
        let object = lowering::local(s1.loc, struc)->0;
        let x = machine::value_of(c.w, e, v);
        let o = machine::value_of(c.w, e, struc);
        let i = index as u32;
        if s1.l.ops.len() <= usize::MAX {
            lemma_operand(c, s, e, v);
            lemma_local(c, s1, e, struc);
        }
        match object.ty {
            LlvmType::Struct(n) => match (struc, o) {
                (Value::Local(r), Val::Struct(_, members)) => lemma_set(
                    c,
                    s1,
                    e,
                    Op::InsertValue(object, u, i, Label::Member),
                    object.ty,
                    Val::Struct(n, members.update(i as int, x)),
                    r,
                ),
                _ => {},
            },
            LlvmType::Pointer => {
                let n = assoc::get(s1.l.structs, name)->0;
                let ty = lowering::member_type(s1.l, n, i)->0;
                let (l, u2) = lowering::coerced(s1.l, u, ty);
                assert(s1.l.ops.len() <= l.ops.len()) by {
                    reveal(lowering::coerced);
                }
                lemma_operand(c, s, e, v);
                lemma_local(c, s1, e, struc);
                assert((c.w.number)(name) == n && (c.w.layout)(n)[i as int] == ty) by {
                    reveal(knows);
                }
                lemma_coerced(c, s1, e, u, x, ty);
                assert(val(c, l, object, o));
                let at = (c.w.member)(n, machine::address(o), i);
                lemma_built(
                    c,
                    Low { l, ..s1 },
                    e,
                    Op::StructGep(n, object, i),
                    LlvmType::Pointer,
                    Val::Pointer(at),
                );
                let (l2, q) = lowering::built(l, Op::StructGep(n, object, i), LlvmType::Pointer);
                assert(val(c, l2, u2, machine::fitted(x, ty)));
                lemma_stores(c, Low { l: l2, ..s1 }, e, q, u2, at, machine::fitted(x, ty));
            },
            _ => {},
        }
    }
}

/// Reads of members.
proof fn lemma_access_member(c: From, s: Low, e: Env, struc: Value, index: usize, dest: usize, resolve: bool, name: Seq<char>)
    requires
        ok(c, s, e),
        s.l.ops.len() + 1 < usize::MAX,
    ensures
        lowering::access_member(s, struc, index, dest, resolve, name) matches Some(s2) ==> ok(
            c,
            s2,
            machine::performed(
                c.w,
                e,
                Inst::AccessStructMember(struc, index, dest, resolve, name),
            ),
        ),
{
    reveal(lowering::access_member);
    reveal(lowering::member_type);
    lemma_local(c, s, e, struc);
    if lowering::access_member(s, struc, index, dest, resolve, name) is Some {
        let object = lowering::local(s.loc, struc)->0;
        let o = machine::value_of(c.w, e, struc);
        let i = index as u32;
        match object.ty {
            LlvmType::Struct(n) => {
                let ty = lowering::member_type(s.l, n, i)->0;
                assert((c.w.layout)(n)[i as int] == ty) by {
                    reveal(knows);
                }
                match o {
                    Val::Struct(_, members) => lemma_set(
                        c,
                        s,
                        e,
                        Op::ExtractValue(object, i),
                        ty,
                        machine::read_as(c.w, ty, members[i as int]),
                        dest,
                    ),
                    _ => {},
                }
            },
            LlvmType::Pointer => {
                let n = assoc::get(s.l.structs, name)->0;
                let ty = lowering::member_type(s.l, n, i)->0;
                assert((c.w.number)(name) == n && (c.w.layout)(n)[i as int] == ty) by {
                    reveal(knows);
                }
                let at = (c.w.member)(n, machine::address(o), i);
                lemma_built(
                    c,
                    s,
                    e,
                    Op::StructGep(n, object, i),
                    LlvmType::Pointer,
                    Val::Pointer(at),
                );
                let (l, q) = lowering::built(s.l, Op::StructGep(n, object, i), LlvmType::Pointer);
                if resolve {
                    lemma_set(
                        c,
                        Low { l, ..s },
                        e,
                        Op::Load(ty, q, Label::Load),
                        ty,
                        machine::read_as(c.w, ty, e.memory[at]),
                        dest,
                    );
                } else {
                    lemma_put(c, Low { l, ..s }, e, dest, q, Val::Pointer(at));
                }
            },
            _ => {},
        }
    }
}

/// Members are only added to the steps.
proof fn lemma_inserted_grow(l: Ll, n: usize, object: Operand, vs: Seq<Operand>, k: int)
    ensures
        lowering::inserted(l, n, object, vs, k) matches Some((l2, _)) ==> l2.ops.len()
            >= l.ops.len(),
    decreases vs.len() - k,
{
    reveal_with_fuel(lowering::inserted, 2);
    reveal(lowering::coerced);
    if 0 <= k < vs.len() && lowering::member_type(l, n, k as usize as u32) is Some {
        let ty = lowering::member_type(l, n, k as usize as u32)->0;
        let (l2, v) = lowering::coerced(l, vs[k], ty);
        let (l3, o) = lowering::built(
            l2,
            Op::InsertValue(object, v, k as usize as u32, Label::Insert),
            LlvmType::Struct(n),
        );
        lemma_inserted_grow(l3, n, o, vs, k + 1);
    }
}

/// Members of a new struct.
proof fn lemma_inserted(c: From, s: Low, e: Env, n: usize, object: Operand, vs: Seq<Operand>, xs: Seq<Val>, k: int)
    requires
        ok(c, s, e),
        0 <= k <= vs.len() <= u32::MAX,
        vs.len() == xs.len(),
        forall|i: int| 0 <= i < vs.len() ==> val(c, s.l, #[trigger] vs[i], xs[i]),
        val(
            c,
            s.l,
            object,
            Val::Struct(n, machine::with_members((c.w.unset)(n), (c.w.layout)(n), xs, k)),
        ),
        lowering::inserted(s.l, n, object, vs, k) matches Some((l, _)) ==> l.ops.len()
            <= usize::MAX,
    ensures
        lowering::inserted(s.l, n, object, vs, k) matches Some((l, o)) ==> {
            &&& ok(c, Low { l, ..s }, e)
            &&& val(
                c,
                l,
                o,
                Val::Struct(
                    n,
                    machine::with_members((c.w.unset)(n), (c.w.layout)(n), xs, vs.len() as int),
                ),
            )
        },
    decreases vs.len() - k,
{
    reveal_with_fuel(lowering::inserted, 2);
    assert(Low { l: s.l, ..s } == s);
    if k < vs.len() && lowering::inserted(s.l, n, object, vs, k) is Some {
        let i = k as usize as u32;
        assert(i == k);
        let ty = lowering::member_type(s.l, n, i)->0;
        assert((c.w.layout)(n)[k] == ty) by {
            reveal(knows);
            reveal(lowering::member_type);
        }
        let (l2, v) = lowering::coerced(s.l, vs[k], ty);
        let op: Step = Op::InsertValue(object, v, i, Label::Insert);
        let (l3, o) = lowering::built(l2, op, LlvmType::Struct(n));
        lemma_inserted_grow(l3, n, o, vs, k + 1);
        assert(s.l.ops.len() <= l2.ops.len()) by {
            reveal(lowering::coerced);
        }
        lemma_coerced(c, s, e, vs[k], xs[k], ty);
        let before = machine::with_members((c.w.unset)(n), (c.w.layout)(n), xs, k);
        assert(val(c, l2, object, Val::Struct(n, before)));
        lemma_built(
            c,
            Low { l: l2, ..s },
            e,
            op,
            LlvmType::Struct(n),
            Val::Struct(n, before.update(k, machine::fitted(xs[k], ty))),
        );
        assert forall|j: int| 0 <= j < vs.len() implies val(c, l3, #[trigger] vs[j], xs[j]) by {
            assert(val(c, s.l, vs[j], xs[j]));
            assert(val(c, l2, vs[j], xs[j]));
        }
        lemma_inserted(c, Low { l: l3, ..s }, e, n, o, vs, xs, k + 1);
    }
}

/// New structs.
proof fn lemma_create_struct(c: From, s: Low, e: Env, name: Seq<char>, vs: Seq<Value>, dest: usize)
    requires
        ok(c, s, e),
        vs.len() <= u32::MAX,
        lowering::create_struct(s, name, vs, dest) matches Some(s2) ==> s2.l.ops.len()
            <= usize::MAX,
    ensures
        lowering::create_struct(s, name, vs, dest) matches Some(s2) ==> ok(
            c,
            s2,
            machine::performed(c.w, e, Inst::CreateStruct(name, vs, dest)),
        ),
{
    reveal(lowering::create_struct);
    if lowering::create_struct(s, name, vs, dest) is Some {
        let n = assoc::get(s.l.structs, name)->0;
        let (s1, us) = lowering::operands(s, vs, 0, Seq::empty())->0;
        let xs = machine::values_of(c.w, e, vs);
        let (l, object) = lowering::built(s1.l, Op::ConstStruct(n), LlvmType::Struct(n));
        let (l2, o) = lowering::inserted(l, n, object, us, 0)->0;
        lemma_inserted_grow(l, n, object, us, 0);
        lemma_operands(c, s, e, vs, 0, Seq::empty());
        assert((c.w.number)(name) == n) by {
            reveal(knows);
        }
        lemma_built(
            c,
            s1,
            e,
            Op::ConstStruct(n),
            LlvmType::Struct(n),
            Val::Struct(n, (c.w.unset)(n)),
        );
        assert forall|j: int| 0 <= j < us.len() implies val(c, l, #[trigger] us[j], xs[j]) by {
            assert(val(c, s1.l, us[j], machine::value_of(c.w, e, vs[j])));
        }
        lemma_inserted(c, Low { l, ..s1 }, e, n, object, us, xs, 0);
        lemma_put(
            c,
            Low { l: l2, ..s1 },
            e,
            dest,
            o,
            Val::Struct(
                n,
                machine::with_members((c.w.unset)(n), (c.w.layout)(n), xs, vs.len() as int),
            ),
        );
    }
}

/// Conversions.
proof fn lemma_cast(c: From, s: Low, e: Env, v: Value, t: Ty, dest: usize)
    requires
        ok(c, s, e),
        s.l.ops.len() < usize::MAX,
    ensures
        lowering::cast(s, v, t, dest) matches Some(s2) ==> ok(
            c,
            s2,
            machine::performed(c.w, e, Inst::Cast(v, t, dest)),
        ),
{
    reveal(lowering::cast);
    lemma_local(c, s, e, v);
    if lowering::cast(s, v, t, dest) is Some {
        let p = lowering::local(s.loc, v)->0;
        let ty = lowering::basic_type(s.l, t)->0;
        let x = machine::value_of(c.w, e, v);
        let y = machine::converted(c.w, x, ty);
        assert((c.w.kind)(t) == ty) by {
            reveal(knows);
        }
        match (p.ty, ty) {
            (LlvmType::Int(_), LlvmType::Int(_)) => {
                assert(lowering::coerced(s.l, p, ty).0.ops.len() <= s.l.ops.len() + 1) by {
                    reveal(lowering::coerced);
                }
                lemma_coerced(c, s, e, p, x, ty);
                let (l, q) = lowering::coerced(s.l, p, ty);
                lemma_put(c, Low { l, ..s }, e, dest, q, y);
            },
            (LlvmType::Int(_), LlvmType::Float(n)) => lemma_set(
                c,
                s,
                e,
                Op::IntToFloat(p, n),
                ty,
                y,
                dest,
            ),
            (LlvmType::Int(_), LlvmType::Pointer) => lemma_set(
                c,
                s,
                e,
                Op::IntToPointer(p),
                ty,
                y,
                dest,
            ),
            (LlvmType::Float(_), LlvmType::Int(n)) => lemma_set(
                c,
                s,
                e,
                Op::FloatToInt(p, n),
                ty,
                y,
                dest,
            ),
            (LlvmType::Pointer, LlvmType::Int(n)) => lemma_set(
                c,
                s,
                e,
                Op::PointerToInt(p, n),
                ty,
                y,
                dest,
            ),
            _ => lemma_put(c, s, e, dest, p, x),
        }
    }
}

/// New arrays.
proof fn lemma_create_array(c: From, s: Low, e: Env, t: Ty, size: usize, dest: usize)
    requires
        ok(c, s, e),
        s.l.ops.len() + 1 < usize::MAX,
    ensures
        lowering::create_array(s, t, size, dest) matches Some(s2) ==> ok(
            c,
            s2,
            machine::performed(c.w, e, Inst::CreateArray(t, size, dest)),
        ),
{
    broadcast use lemma_run_pushed;

    reveal(lowering::create_array);
    if lowering::create_array(s, t, size, dest) is Some {
        let ty = lowering::basic_type(s.l, t)->0;
        assert((c.w.kind)(t) == ty) by {
            reveal(knows);
        }
        let op: Step = Op::ConstInt(32, size as u64);
        lemma_built(
            c,
            s,
            e,
            op,
            LlvmType::Int(32),
            Val::Int(32, machine::wrapped(32, size as u64 as int)),
        );
        let (l, n) = lowering::built(s.l, op, LlvmType::Int(32));
        lemma_build(
            c.w,
            c.names,
            Low { l, ..s },
            e,
            now(c, l),
            Op::ArrayMalloc(ty, n),
            LlvmType::Pointer,
            dest,
        );
    }
}

/// Constants, sizes and addresses of variables.
proof fn lemma_constants(c: From, s: Low, e: Env, sig: Sig, i: Inst)
    requires
        ok(c, s, e),
        s.l.ops.len() < usize::MAX,
        i is ConstInt || i is ConstFloat || i is ConstTrue || i is ConstFalse || i is ConstNull
            || i is SizeOf || i is Pointer,
    ensures
        lowering::instruction(s, sig, i) matches Some(s2) ==> ok(
            c,
            s2,
            machine::performed(c.w, e, i),
        ),
{
    reveal(lowering::instruction);
    lemma_wrapped_64(0);
    match i {
        Inst::ConstInt(n, dest) => {
            lemma_wrapped_64(n);
            lemma_set(
                c,
                s,
                e,
                Op::ConstInt(64, n as u64),
                LlvmType::Int(64),
                Val::Int(64, n as int),
                dest,
            );
        },
        Inst::ConstFloat(n, dest) => lemma_set(
            c,
            s,
            e,
            Op::ConstFloat(n),
            LlvmType::Float(64),
            Val::Float(64, n as int),
            dest,
        ),
        Inst::ConstTrue(dest) => lemma_set(
            c,
            s,
            e,
            Op::ConstInt(1, 1),
            LlvmType::Int(1),
            machine::truth(true),
            dest,
        ),
        Inst::ConstFalse(dest) => lemma_set(
            c,
            s,
            e,
            Op::ConstInt(1, 0),
            LlvmType::Int(1),
            machine::truth(false),
            dest,
        ),
        Inst::ConstNull(dest) => lemma_set(
            c,
            s,
            e,
            Op::ConstNull,
            LlvmType::Pointer,
            Val::Pointer(0),
            dest,
        ),
        Inst::SizeOf(t, dest) => match lowering::basic_type(s.l, t) {
            Some(ty) => {
                assert((c.w.kind)(t) == ty) by {
                    reveal(knows);
                }
                lemma_set(
                    c,
                    s,
                    e,
                    Op::SizeOf(ty),
                    LlvmType::Int(64),
                    Val::Int(64, (c.w.size)(ty)),
                    dest,
                );
            },
            None => {},
        },
        Inst::Pointer(name, dest) => match assoc::get(s.loc.variables, name) {
            Some(p) => {
                assert(val(c, s.l, p, Val::Pointer((c.w.place)(name)))) by {
                    reveal(agrees);
                }
                lemma_put(c, s, e, dest, p, Val::Pointer((c.w.place)(name)));
            },
            None => {},
        },
        _ => {},
    }
}

/// Arguments.
proof fn lemma_load_arg(c: From, s: Low, e: Env, sig: Sig, arg: usize, dest: usize, t: Ty)
    requires
        ok(c, s, e),
        s.l.ops.len() < usize::MAX,
        arg < sig.params.len() ==> machine::type_of((c.w.argument)(arg)) == sig.params[arg as int],
    ensures
        lowering::instruction(s, sig, Inst::LoadArg(arg, dest, t)) matches Some(s2) ==> ok(
            c,
            s2,
            machine::performed(c.w, e, Inst::LoadArg(arg, dest, t)),
        ),
{
    reveal(lowering::instruction);
    reveal(lowering::load_arg);
    if arg < sig.params.len() {
        lemma_set(
            c,
            s,
            e,
            Op::Param(sig.id, arg),
            sig.params[arg as int],
            (c.w.argument)(arg),
            dest,
        );
    }
}

/// Whether an instruction says where to go on.
pub open spec fn is_jump(i: Inst) -> bool {
    i is Return || i is Jump || i is Jcond || i is Unreachable
}

/// Whether what an instruction refers to is there: the variable that it writes has been
/// allocated, a string is written as one, the argument that it reads is as declared, and
/// members can be counted.
pub open spec fn is_set_up(w: World, s: Low, sig: Sig, i: Inst) -> bool {
    match i {
        Inst::Store(name, v, t) => {
            &&& assoc::get(s.loc.variables, name) is Some
            &&& v is Global ==> (w.kind)(t) is Pointer
        },
        Inst::LoadArg(arg, _, _) => arg < sig.params.len() ==> machine::type_of((w.argument)(arg))
            == sig.params[arg as int],
        Inst::CreateStruct(_, vs, _) => vs.len() <= u32::MAX,
        _ => true,
    }
}

/// The steps of an instruction do what the instruction says. If the registers, variables
/// and memory are as the steps so far have left them, then they are so again after the
/// instruction and its steps.
pub proof fn lemma_instruction(c: From, s: Low, e: Env, sig: Sig, i: Inst)
    requires
        ok(c, s, e),
        s.l.ops.len() + 1 < usize::MAX,
        !is_jump(i),
        is_set_up(c.w, s, sig, i),
        lowering::instruction(s, sig, i) matches Some(s2) ==> s2.l.ops.len() <= usize::MAX,
    ensures
        lowering::instruction(s, sig, i) matches Some(s2) ==> ok(
            c,
            s2,
            machine::performed(c.w, e, i),
        ),
{
    reveal(lowering::instruction);
    match i {
        Inst::Load(name, dest, t) => lemma_loads(c, s, e, name, dest, t),
        Inst::LoadGlobal(name, dest, t) => lemma_loads(c, s, e, name, dest, t),
        Inst::LoadArg(arg, dest, t) => lemma_load_arg(c, s, e, sig, arg, dest, t),
        Inst::Store(name, v, t) => lemma_store(c, s, e, name, v, t),
        Inst::ConstInt(..) => lemma_constants(c, s, e, sig, i),
        Inst::ConstFloat(..) => lemma_constants(c, s, e, sig, i),
        Inst::ConstTrue(..) => lemma_constants(c, s, e, sig, i),
        Inst::ConstFalse(..) => lemma_constants(c, s, e, sig, i),
        Inst::ConstNull(..) => lemma_constants(c, s, e, sig, i),
        Inst::SizeOf(..) => lemma_constants(c, s, e, sig, i),
        Inst::Pointer(..) => lemma_constants(c, s, e, sig, i),
        Inst::Add(a, b, d) => lemma_arithmetic(c, s, e, IntOp::Add, FloatOp::Add, a, b, d),
        Inst::Sub(a, b, d) => lemma_arithmetic(c, s, e, IntOp::Sub, FloatOp::Sub, a, b, d),
        Inst::Mul(a, b, d) => lemma_arithmetic(c, s, e, IntOp::Mul, FloatOp::Mul, a, b, d),
        Inst::Div(a, b, d) => lemma_arithmetic(c, s, e, IntOp::Div, FloatOp::Div, a, b, d),
        Inst::Mod(a, b, d) => lemma_arithmetic(c, s, e, IntOp::Rem, FloatOp::Rem, a, b, d),
        Inst::Pow(a, b, d) => lemma_power(c, s, e, a, b, d),
        Inst::Or(a, b, d) => lemma_bitwise(c, s, e, IntOp::Or, false, a, b, d),
        Inst::And(a, b, d) => lemma_bitwise(c, s, e, IntOp::And, false, a, b, d),
        Inst::Eq(a, b, d) => lemma_comparison(c, s, e, Predicate::Eq, a, b, d),
        Inst::Neq(a, b, d) => lemma_comparison(c, s, e, Predicate::Neq, a, b, d),
        Inst::Lt(a, b, d) => lemma_comparison(c, s, e, Predicate::Lt, a, b, d),
        Inst::Lte(a, b, d) => lemma_comparison(c, s, e, Predicate::Lte, a, b, d),
        Inst::Gt(a, b, d) => lemma_comparison(c, s, e, Predicate::Gt, a, b, d),
        Inst::Gte(a, b, d) => lemma_comparison(c, s, e, Predicate::Gte, a, b, d),
        Inst::BitAnd(a, b, d) => lemma_bitwise(c, s, e, IntOp::And, true, a, b, d),
        Inst::BitOr(a, b, d) => lemma_bitwise(c, s, e, IntOp::Or, true, a, b, d),
        Inst::BitXor(a, b, d) => lemma_bitwise(c, s, e, IntOp::Xor, true, a, b, d),
        Inst::Shl(a, b, d) => lemma_bitwise(c, s, e, IntOp::Shl, true, a, b, d),
        Inst::Shr(a, b, d) => lemma_bitwise(c, s, e, IntOp::Shr, true, a, b, d),
        Inst::Not(v, d) => lemma_not(c, s, e, sig, v, d),
        Inst::FunctionCall(name, args, d) => lemma_call(c, s, e, name, args, d),
        Inst::ElementPtr(a, b, d, t) => lemma_elements(c, s, e, sig, a, b, d, t),
        Inst::AccessElement(a, b, d, t) => lemma_elements(c, s, e, sig, a, b, d, t),
        Inst::CreateArray(t, size, d) => lemma_create_array(c, s, e, t, size, d),
        Inst::StoreElement(a, b, v, t) => lemma_store_element(c, s, e, a, b, v, t),
        Inst::StoreStructMember(o, n, v, name) => lemma_store_member(c, s, e, o, n, v, name),
        Inst::CreateStruct(name, vs, d) => lemma_create_struct(c, s, e, name, vs, d),
        Inst::AccessStructMember(o, n, d, resolve, name) => lemma_access_member(
            c,
            s,
            e,
            o,
            n,
            d,
            resolve,
            name,
        ),
        Inst::Cast(v, t, d) => lemma_cast(c, s, e, v, t, d),
        _ => {},
    }
}

// ---------------------------------------------------------------------------
// Results

/// What the steps of an arithmetic instruction on two integers of one width leave in the
/// register: the sum, the difference, the product, the quotient or the remainder, in that
/// width.
pub proof fn lemma_integers(c: From, s: Low, e: Env, sig: Sig, a: usize, b: usize, d: usize, bits: u32, x: int, y: int)
    requires
        ok(c, s, e),
        s.l.ops.len() + 1 < usize::MAX,
        e.registers[a] == Val::Int(bits, x),
        e.registers[b] == Val::Int(bits, y),
        s.loc.registers.dom().contains(a),
        s.loc.registers.dom().contains(b),
    ensures
        ({
            let l = Value::Local(a);
            let r = Value::Local(b);
            &&& lowering::instruction(s, sig, Inst::Add(l, r, d)) matches Some(s2) && at(
                now(c, s2.l),
                s2.loc.registers[d],
            ) == Val::Int(bits, machine::wrapped(bits, x + y))
            &&& lowering::instruction(s, sig, Inst::Sub(l, r, d)) matches Some(s2) && at(
                now(c, s2.l),
                s2.loc.registers[d],
            ) == Val::Int(bits, machine::wrapped(bits, x - y))
            &&& lowering::instruction(s, sig, Inst::Mul(l, r, d)) matches Some(s2) && at(
                now(c, s2.l),
                s2.loc.registers[d],
            ) == Val::Int(bits, machine::wrapped(bits, x * y))
            &&& lowering::instruction(s, sig, Inst::Div(l, r, d)) matches Some(s2) && at(
                now(c, s2.l),
                s2.loc.registers[d],
            ) == Val::Int(bits, machine::wrapped(bits, machine::quotient(x, y)))
            &&& lowering::instruction(s, sig, Inst::Mod(l, r, d)) matches Some(s2) && at(
                now(c, s2.l),
                s2.loc.registers[d],
            ) == Val::Int(bits, machine::wrapped(bits, machine::remainder(x, y)))
        }),
{
    reveal(lowering::instruction);
    let l = Value::Local(a);
    let r = Value::Local(b);
    lemma_integer(c, s, e, IntOp::Add, FloatOp::Add, a, b, d, bits, x, y);
    lemma_integer(c, s, e, IntOp::Sub, FloatOp::Sub, a, b, d, bits, x, y);
    lemma_integer(c, s, e, IntOp::Mul, FloatOp::Mul, a, b, d, bits, x, y);
    lemma_integer(c, s, e, IntOp::Div, FloatOp::Div, a, b, d, bits, x, y);
    lemma_integer(c, s, e, IntOp::Rem, FloatOp::Rem, a, b, d, bits, x, y);
}

/// Arithmetic on two integers of one width.
proof fn lemma_integer(c: From, s: Low, e: Env, i: IntOp, f: FloatOp, a: usize, b: usize, d: usize, bits: u32, x: int, y: int)
    requires
        ok(c, s, e),
        s.l.ops.len() + 1 < usize::MAX,
        e.registers[a] == Val::Int(bits, x),
        e.registers[b] == Val::Int(bits, y),
        s.loc.registers.dom().contains(a),
        s.loc.registers.dom().contains(b),
    ensures
        lowering::arithmetic(s, i, f, Value::Local(a), Value::Local(b), d) matches Some(s2) && at(
            now(c, s2.l),
            s2.loc.registers[d],
        ) == Val::Int(bits, machine::calculated(i, bits, x, y)),
{
    assert(lowering::arithmetic(s, i, f, Value::Local(a), Value::Local(b), d) matches Some(s2)
        && s2.l.ops.len() == s.l.ops.len() + 1 && s2.loc.registers.dom().contains(d)) by {
        reveal(lowering::arithmetic);
        reveal(lowering::harmonized);
        reveal(lowering::local);
        reveal(agrees);
    }
    lemma_arithmetic(c, s, e, i, f, Value::Local(a), Value::Local(b), d);
    reveal(agrees);
}

/// Arithmetic on two floating-point numbers of one width.
proof fn lemma_float(c: From, s: Low, e: Env, i: IntOp, f: FloatOp, a: usize, b: usize, d: usize, bits: u32, x: int, y: int)
    requires
        ok(c, s, e),
        s.l.ops.len() + 1 < usize::MAX,
        e.registers[a] == Val::Float(bits, x),
        e.registers[b] == Val::Float(bits, y),
        s.loc.registers.dom().contains(a),
        s.loc.registers.dom().contains(b),
    ensures
        lowering::arithmetic(s, i, f, Value::Local(a), Value::Local(b), d) matches Some(s2) && at(
            now(c, s2.l),
            s2.loc.registers[d],
        ) == Val::Float(bits, (c.w.float)(f, x, y)),
{
    assert(lowering::arithmetic(s, i, f, Value::Local(a), Value::Local(b), d) matches Some(s2)
        && s2.l.ops.len() == s.l.ops.len() + 1 && s2.loc.registers.dom().contains(d)) by {
        reveal(lowering::arithmetic);
        reveal(lowering::harmonized);
        reveal(lowering::local);
        reveal(agrees);
    }
    lemma_arithmetic(c, s, e, i, f, Value::Local(a), Value::Local(b), d);
    reveal(agrees);
}

/// What the steps of an arithmetic instruction on two floating-point numbers of one width
/// leave in the register: what the operation of the same name gives on them, in the same
/// order.
pub proof fn lemma_floats(c: From, s: Low, e: Env, sig: Sig, a: usize, b: usize, d: usize, bits: u32, x: int, y: int)
    requires
        ok(c, s, e),
        s.l.ops.len() + 1 < usize::MAX,
        e.registers[a] == Val::Float(bits, x),
        e.registers[b] == Val::Float(bits, y),
        s.loc.registers.dom().contains(a),
        s.loc.registers.dom().contains(b),
    ensures
        ({
            let l = Value::Local(a);
            let r = Value::Local(b);
            &&& lowering::instruction(s, sig, Inst::Add(l, r, d)) matches Some(s2) && at(
                now(c, s2.l),
                s2.loc.registers[d],
            ) == Val::Float(bits, (c.w.float)(FloatOp::Add, x, y))
            &&& lowering::instruction(s, sig, Inst::Sub(l, r, d)) matches Some(s2) && at(
                now(c, s2.l),
                s2.loc.registers[d],
            ) == Val::Float(bits, (c.w.float)(FloatOp::Sub, x, y))
            &&& lowering::instruction(s, sig, Inst::Mul(l, r, d)) matches Some(s2) && at(
                now(c, s2.l),
                s2.loc.registers[d],
            ) == Val::Float(bits, (c.w.float)(FloatOp::Mul, x, y))
            &&& lowering::instruction(s, sig, Inst::Div(l, r, d)) matches Some(s2) && at(
                now(c, s2.l),
                s2.loc.registers[d],
            ) == Val::Float(bits, (c.w.float)(FloatOp::Div, x, y))
            &&& lowering::instruction(s, sig, Inst::Mod(l, r, d)) matches Some(s2) && at(
                now(c, s2.l),
                s2.loc.registers[d],
            ) == Val::Float(bits, (c.w.float)(FloatOp::Rem, x, y))
        }),
{
    reveal(lowering::instruction);
    lemma_float(c, s, e, IntOp::Add, FloatOp::Add, a, b, d, bits, x, y);
    lemma_float(c, s, e, IntOp::Sub, FloatOp::Sub, a, b, d, bits, x, y);
    lemma_float(c, s, e, IntOp::Mul, FloatOp::Mul, a, b, d, bits, x, y);
    lemma_float(c, s, e, IntOp::Div, FloatOp::Div, a, b, d, bits, x, y);
    lemma_float(c, s, e, IntOp::Rem, FloatOp::Rem, a, b, d, bits, x, y);
}

/// What the steps of a comparison of two integers of one width leave in the register: true
/// exactly if the relation holds between the numbers.
pub proof fn lemma_relations(c: From, s: Low, e: Env, sig: Sig, a: usize, b: usize, d: usize, bits: u32, x: int, y: int)
    requires
        ok(c, s, e),
        s.l.ops.len() + 1 < usize::MAX,
        e.registers[a] == Val::Int(bits, x),
        e.registers[b] == Val::Int(bits, y),
        s.loc.registers.dom().contains(a),
        s.loc.registers.dom().contains(b),
    ensures
        ({
            let l = Value::Local(a);
            let r = Value::Local(b);
            &&& lowering::instruction(s, sig, Inst::Eq(l, r, d)) matches Some(s2)
                && machine::is_true(at(now(c, s2.l), s2.loc.registers[d])) == (x == y)
            &&& lowering::instruction(s, sig, Inst::Neq(l, r, d)) matches Some(s2)
                && machine::is_true(at(now(c, s2.l), s2.loc.registers[d])) == (x != y)
            &&& lowering::instruction(s, sig, Inst::Lt(l, r, d)) matches Some(s2)
                && machine::is_true(at(now(c, s2.l), s2.loc.registers[d])) == (x < y)
            &&& lowering::instruction(s, sig, Inst::Lte(l, r, d)) matches Some(s2)
                && machine::is_true(at(now(c, s2.l), s2.loc.registers[d])) == (x <= y)
            &&& lowering::instruction(s, sig, Inst::Gt(l, r, d)) matches Some(s2)
                && machine::is_true(at(now(c, s2.l), s2.loc.registers[d])) == (x > y)
            &&& lowering::instruction(s, sig, Inst::Gte(l, r, d)) matches Some(s2)
                && machine::is_true(at(now(c, s2.l), s2.loc.registers[d])) == (x >= y)
        }),
{
    reveal(lowering::instruction);
    lemma_relation(c, s, e, Predicate::Eq, a, b, d, bits, x, y);
    lemma_relation(c, s, e, Predicate::Neq, a, b, d, bits, x, y);
    lemma_relation(c, s, e, Predicate::Lt, a, b, d, bits, x, y);
    lemma_relation(c, s, e, Predicate::Lte, a, b, d, bits, x, y);
    lemma_relation(c, s, e, Predicate::Gt, a, b, d, bits, x, y);
    lemma_relation(c, s, e, Predicate::Gte, a, b, d, bits, x, y);
}

/// A comparison of two integers of one width.
proof fn lemma_relation(c: From, s: Low, e: Env, p: Predicate, a: usize, b: usize, d: usize, bits: u32, x: int, y: int)
    requires
        ok(c, s, e),
        s.l.ops.len() + 1 < usize::MAX,
        e.registers[a] == Val::Int(bits, x),
        e.registers[b] == Val::Int(bits, y),
        s.loc.registers.dom().contains(a),
        s.loc.registers.dom().contains(b),
    ensures
        lowering::comparison(s, p, Value::Local(a), Value::Local(b), d) matches Some(s2) && at(
            now(c, s2.l),
            s2.loc.registers[d],
        ) == machine::truth(machine::compares(p, x, y)),
{
    assert(lowering::comparison(s, p, Value::Local(a), Value::Local(b), d) matches Some(s2)
        && s2.l.ops.len() == s.l.ops.len() + 1 && s2.loc.registers.dom().contains(d)) by {
        reveal(lowering::comparison);
        reveal(lowering::harmonized);
        reveal(lowering::local);
        reveal(agrees);
    }
    lemma_comparison(c, s, e, p, Value::Local(a), Value::Local(b), d);
    reveal(agrees);
}

// ---------------------------------------------------------------------------
// Where to go on

/// Whether a step adds the block `name` to a function.
pub open spec fn adds(l: Ll, b: usize, function: usize, name: Seq<char>) -> bool {
    b < l.ops.len() && (l.ops[b as int] matches Op::AppendBlock(f, n) && f == function && n == name)
}

/// Whether each block of a function that is known is one that a step has added for it.
pub open spec fn labelled(s: Low, function: usize) -> bool {
    forall|name: Seq<char>|
        (#[trigger] assoc::get(s.loc.blocks, name)) matches Some(b) ==> adds(
            s.l,
            b,
            function,
            name,
        )
}

/// Whether the steps lead to the block `name` of a function.
pub open spec fn leads_to(c: From, l: Ll, function: usize, name: Seq<char>) -> bool {
    now(c, l).flow matches Flow::To(b) && adds(l, b, function, name)
}

/// A block is found, or added.
proof fn lemma_block(c: From, s: Low, e: Env, function: usize, name: Seq<char>)
    requires
        ok(c, s, e),
        labelled(s, function),
        s.l.ops.len() < usize::MAX,
    ensures
        ({
            let (s2, b) = lowering::block(s, function, name);
            &&& ok(c, s2, e)
            &&& labelled(s2, function)
            &&& adds(s2.l, b, function, name)
            &&& kept(c, s.l, s2.l)
            &&& s.l.ops.len() <= s2.l.ops.len() <= s.l.ops.len() + 1
            &&& forall|k: int| 0 <= k < s.l.ops.len() ==> s2.l.ops[k] == #[trigger] s.l.ops[k]
            &&& s2.loc.registers == s.loc.registers
        }),
{
    broadcast use lemma_run_pushed;

    reveal(lowering::block);
    if assoc::get(s.loc.blocks, name) is None {
        let op: Step = Op::AppendBlock(function, name);
        let b = s.l.ops.len() as usize;
        lemma_does(c.w, c.names, s, e, now(c, s.l), op);
        let s2 = lowering::block(s, function, name).0;
        let after = now(c, s2.l);
        assert(State { flow: Flow::On, ..after } == after);
        assert(ok(c, s2, e)) by {
            reveal(agrees);
        }
        assert forall|other: Seq<char>| #[trigger]
            assoc::get(s2.loc.blocks, other) is Some implies adds(
            s2.l,
            assoc::get(s2.loc.blocks, other)->0,
            function,
            other,
        ) by {
            assoc::lemma_put_get(s.loc.blocks, name, b, other);
        }
    }
}

/// A jump leads to the block that it names.
pub proof fn lemma_jump(c: From, s: Low, e: Env, sig: Sig, target: Seq<char>)
    requires
        ok(c, s, e),
        labelled(s, sig.id),
        s.l.ops.len() + 1 < usize::MAX,
    ensures
        lowering::instruction(s, sig, Inst::Jump(target)) matches Some(s2) && leads_to(
            c,
            s2.l,
            sig.id,
            target,
        ) && now(c, s2.l).memory == e.memory && now(c, s2.l).events == e.events,
{
    broadcast use lemma_run_pushed;

    reveal(lowering::instruction);
    reveal(lowering::branch);
    lemma_block(c, s, e, sig.id, target);
}

/// A conditional jump leads to the first block that it names if the condition holds, and
/// to the second one if it does not.
pub proof fn lemma_conditional_jump(c: From, s: Low, e: Env, sig: Sig, cond: Value, yes: Seq<char>, no: Seq<char>)
    requires
        ok(c, s, e),
        labelled(s, sig.id),
        s.l.ops.len() + 2 < usize::MAX,
    ensures
        lowering::instruction(s, sig, Inst::Jcond(cond, yes, no)) matches Some(s2) ==> leads_to(
            c,
            s2.l,
            sig.id,
            if machine::is_true(machine::value_of(c.w, e, cond)) {
                yes
            } else {
                no
            },
        ) && now(c, s2.l).memory == e.memory && now(c, s2.l).events == e.events,
{
    broadcast use lemma_run_pushed;

    reveal(lowering::instruction);
    reveal(lowering::cond_branch);
    lemma_local(c, s, e, cond);
    if lowering::local_int(s.loc, cond) is Some {
        let v = lowering::local_int(s.loc, cond)->0;
        let x = machine::value_of(c.w, e, cond);
        lemma_block(c, s, e, sig.id, yes);
        let (s1, y) = lowering::block(s, sig.id, yes);
        lemma_block(c, s1, e, sig.id, no);
        let (s2, n) = lowering::block(s1, sig.id, no);
        assert(val(c, s1.l, v, x));
        assert(val(c, s2.l, v, x));
    }
}

/// What a function gives back when it returns: the value that it is told to, in the width
/// of its result, and zero where it is told none but has to give an integer.
pub open spec fn returned(w: World, e: Env, sig: Sig, v: Option<Value>) -> Option<Val> {
    match v {
        None => match sig.result {
            Some(LlvmType::Int(bits)) => Some(Val::Int(bits, 0)),
            _ => None,
        },
        Some(v) => match sig.result {
            Some(ty) => Some(machine::fitted(machine::value_of(w, e, v), ty)),
            None => Some(machine::value_of(w, e, v)),
        },
    }
}

/// A return ends the function with the value that it names.
pub proof fn lemma_return(c: From, s: Low, e: Env, sig: Sig, v: Option<Value>)
    requires
        ok(c, s, e),
        s.l.ops.len() + 1 < usize::MAX,
    ensures
        lowering::instruction(s, sig, Inst::Return(v)) matches Some(s2) ==> now(c, s2.l).flow
            == Flow::Returned(returned(c.w, e, sig, v)) && now(c, s2.l).memory == e.memory && now(
            c,
            s2.l,
        ).events == e.events,
{
    broadcast use lemma_run_pushed;

    reveal(lowering::instruction);
    reveal(lowering::ret);
    match v {
        None => match sig.result {
            Some(LlvmType::Int(n)) => {
                assert(machine::wrapped(n, 0) == 0) by {
                    vstd::arithmetic::power2::lemma_pow2_pos(n as nat);
                    vstd::arithmetic::div_mod::lemma_small_mod(0, pow2(n as nat));
                }
                lemma_built(c, s, e, Op::ConstInt(n, 0), LlvmType::Int(n), Val::Int(n, 0));
            },
            _ => {},
        },
        Some(Value::Local(n)) => {
            lemma_local(c, s, e, Value::Local(n));
            match (lowering::local(s.loc, Value::Local(n)), sig.result) {
                (Some(p), Some(t)) => {
                    assert(lowering::coerced(s.l, p, t).0.ops.len() <= s.l.ops.len() + 1) by {
                        reveal(lowering::coerced);
                    }
                    lemma_coerced(c, s, e, p, machine::value_of(c.w, e, Value::Local(n)), t);
                },
                _ => {},
            }
        },
        Some(Value::Global(n)) => {
            reveal(lowering::string);
            reveal(knows);
        },
        _ => {},
    }
}

// ---------------------------------------------------------------------------
// Blocks

/// What the instructions from position `k` up to position `n` do, one after the other.
pub open spec fn all_performed(w: World, e: Env, is: Seq<Inst>, k: int, n: int) -> Env
    decreases n - k,
{
    if k < 0 || k >= n || n > is.len() {
        e
    } else {
        all_performed(w, machine::performed(w, e, is[k]), is, k + 1, n)
    }
}

/// Whether what instructions refer to is there.
pub open spec fn all_set_up(w: World, s: Low, sig: Sig, is: Seq<Inst>) -> bool {
    forall|j: int|
        0 <= j < is.len() ==> is_set_up(w, s, sig, #[trigger] is[j]) && (shape::variable(
            is[j],
        ) matches Some(x) ==> assoc::defined(s.loc.variables, x))
}

/// The steps of instructions do what the instructions say, one after the other.
pub proof fn lemma_instructions(c: From, s: Low, e: Env, sig: Sig, is: Seq<Inst>, k: int)
    requires
        0 <= k <= is.len(),
        ok(c, s, e),
        all_set_up(c.w, s, sig, is),
        forall|j: int| k <= j < is.len() ==> !is_jump(#[trigger] is[j]),
        lowering::instructions(s, sig, is, k) matches Some(s2) && s2.l.ops.len() + 1 < usize::MAX,
    ensures
        lowering::instructions(s, sig, is, k) matches Some(s2) && ok(
            c,
            s2,
            all_performed(c.w, e, is, k, is.len() as int),
        ),
    decreases is.len() - k,
{
    reveal(lowering::instructions);
    storage::lemma_instructions(s, sig, is, k);
    if k < is.len() {
        let s1 = lowering::instruction(s, sig, is[k])->0;
        storage::lemma_instruction(s, sig, is[k]);
        assert(s1.loc.variables == s.loc.variables);
        storage::lemma_instructions(s1, sig, is, k + 1);
        lemma_instruction(c, s, e, sig, is[k]);
        assert forall|j: int| 0 <= j < is.len() implies is_set_up(
            c.w,
            s1,
            sig,
            #[trigger] is[j],
        ) && (shape::variable(is[j]) matches Some(x) ==> assoc::defined(s1.loc.variables, x)) by {
            assert(is_set_up(c.w, s, sig, is[j]));
        }
        lemma_instructions(c, s1, machine::performed(c.w, e, is[k]), sig, is, k + 1);
    }
}

} // verus!
