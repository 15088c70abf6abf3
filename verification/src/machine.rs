//! What instructions mean: values, memory, and what each instruction of the intermediate
//! representation does to them.

use vstd::arithmetic::power2::pow2;
use vstd::prelude::*;
use crate::ir::{Inst, Value};
use crate::lowering::{FloatOp, IntOp, LlvmType, Predicate};
use crate::types::Ty;

verus! {

// ---------------------------------------------------------------------------
// Values

/// A value.
pub enum Val {
    /// Number of bits, the signed number that the bits stand for
    Int(u32, int),
    /// Number of bits, the bits of the number
    Float(u32, int),
    /// An address
    Pointer(int),
    /// Number of the struct, its members
    Struct(usize, Seq<Val>),
}

/// The type of a value.
pub open spec fn type_of(v: Val) -> LlvmType {
    match v {
        Val::Int(bits, _) => LlvmType::Int(bits),
        Val::Float(bits, _) => LlvmType::Float(bits),
        Val::Pointer(_) => LlvmType::Pointer,
        Val::Struct(n, _) => LlvmType::Struct(n),
    }
}

/// The number from 0 on that the lowest `bits` bits of a number stand for.
pub open spec fn unsigned(bits: u32, x: int) -> int {
    x % (pow2(bits as nat) as int)
}

/// The signed number that the lowest `bits` bits of a number stand for.
pub open spec fn wrapped(bits: u32, x: int) -> int {
    let u = unsigned(bits, x);
    if 2 * u >= pow2(bits as nat) {
        u - pow2(bits as nat)
    } else {
        u
    }
}

/// A truth value: one bit, which is a sign.
pub open spec fn truth(b: bool) -> Val {
    Val::Int(
        1,
        if b {
            -1
        } else {
            0
        },
    )
}

/// Whether a truth value holds.
pub open spec fn is_true(v: Val) -> bool {
    v matches Val::Int(_, x) && x != 0
}

/// The quotient, rounded to zero.
pub open spec fn quotient(x: int, y: int) -> int {
    if (x < 0) == (y < 0) {
        magnitude(x) / magnitude(y)
    } else {
        -(magnitude(x) / magnitude(y))
    }
}

/// The remainder, which has the sign of the dividend.
pub open spec fn remainder(x: int, y: int) -> int {
    if x < 0 {
        -(magnitude(x) % magnitude(y))
    } else {
        magnitude(x) % magnitude(y)
    }
}

/// The number without its sign.
pub open spec fn magnitude(x: int) -> int {
    if x < 0 {
        -x
    } else {
        x
    }
}

/// What an operation on two integers of `bits` bits gives.
pub open spec fn calculated(op: IntOp, bits: u32, x: int, y: int) -> int {
    match op {
        IntOp::Add => wrapped(bits, x + y),
        IntOp::Sub => wrapped(bits, x - y),
        IntOp::Mul => wrapped(bits, x * y),
        IntOp::Div => wrapped(bits, quotient(x, y)),
        IntOp::Rem => wrapped(bits, remainder(x, y)),
        IntOp::And => ((x as i64) & (y as i64)) as int,
        IntOp::Or => ((x as i64) | (y as i64)) as int,
        IntOp::Xor => ((x as i64) ^ (y as i64)) as int,
        IntOp::Shl => wrapped(bits, x * pow2(y as nat)),
        IntOp::Shr => x / (pow2(y as nat) as int),
    }
}

/// Whether a comparison of two integers holds.
pub open spec fn compares(p: Predicate, x: int, y: int) -> bool {
    match p {
        Predicate::Eq => x == y,
        Predicate::Neq => x != y,
        Predicate::Gt => x > y,
        Predicate::Gte => x >= y,
        Predicate::Lt => x < y,
        Predicate::Lte => x <= y,
    }
}

/// The value as one of another type: an integer in as many bits as the type has. A truth
/// value that holds becomes one.
pub open spec fn fitted(v: Val, ty: LlvmType) -> Val {
    match v {
        Val::Int(src, x) => match ty {
            LlvmType::Int(dst) => if dst > src && src == 1 {
                Val::Int(dst, unsigned(1, x))
            } else if dst < src {
                Val::Int(dst, wrapped(dst, x))
            } else {
                Val::Int(dst, x)
            },
            _ => v,
        },
        _ => v,
    }
}

/// A value of a type.
pub open spec fn blank(ty: LlvmType) -> Val {
    match ty {
        LlvmType::Int(bits) => Val::Int(bits, 0),
        LlvmType::Float(bits) => Val::Float(bits, 0),
        LlvmType::Pointer => Val::Pointer(0),
        LlvmType::Struct(n) => Val::Struct(n, Seq::empty()),
    }
}

// ---------------------------------------------------------------------------
// What is around a program

/// What a program can be seen to do.
pub enum Event {
    /// A call: the name of the function, the arguments
    Call(Seq<char>, Seq<Val>),
    /// A request for memory: the type and the number of the elements
    Allocation(LlvmType, Val),
}

/// What instructions depend on besides the values in registers and memory.
pub struct World {
    /// How values of a type are represented
    pub kind: spec_fn(Ty) -> LlvmType,
    /// The number of a struct
    pub number: spec_fn(Seq<char>) -> usize,
    /// The members of a struct
    pub layout: spec_fn(usize) -> Seq<LlvmType>,
    /// The parameters of a function
    pub params: spec_fn(Seq<char>) -> Seq<LlvmType>,
    /// The result of a function
    pub result: spec_fn(Seq<char>) -> Option<LlvmType>,
    /// The address of a variable
    pub place: spec_fn(Seq<char>) -> int,
    /// The address of a global
    pub global: spec_fn(Seq<char>) -> int,
    /// The address of a string constant
    pub text: spec_fn(usize) -> int,
    /// The arguments that the function was called with
    pub argument: spec_fn(usize) -> Val,
    /// The address of an element
    pub element: spec_fn(LlvmType, int, int) -> int,
    /// The address of a member
    pub member: spec_fn(usize, int, u32) -> int,
    /// The size of values of a type
    pub size: spec_fn(LlvmType) -> int,
    /// What floating-point operations give
    pub float: spec_fn(FloatOp, int, int) -> int,
    /// Whether comparisons of floating-point numbers hold
    pub ordered: spec_fn(Predicate, int, int) -> bool,
    /// An integer as a floating-point number
    pub to_float: spec_fn(u32, int) -> int,
    /// A floating-point number as an integer
    pub to_int: spec_fn(u32, int) -> int,
    /// A floating-point number in 64 bits
    pub widened: spec_fn(u32, int) -> int,
    /// What a struct holds before its members are set
    pub unset: spec_fn(usize) -> Seq<Val>,
    /// The bits of a value, read as a value of another type
    pub reread: spec_fn(LlvmType, Val) -> Val,
    /// The answer to the last one of some events
    pub answer: spec_fn(Seq<Event>) -> Val,
    /// The memory after the last one of some events
    pub effect: spec_fn(Seq<Event>, Map<int, Val>) -> Map<int, Val>,
}

/// The registers and the memory, and what has been seen so far.
pub struct Env {
    pub registers: Map<usize, Val>,
    pub memory: Map<int, Val>,
    pub events: Seq<Event>,
}

/// The value as one of type `ty`.
pub open spec fn read_as(w: World, ty: LlvmType, v: Val) -> Val {
    if type_of(v) == ty {
        v
    } else if type_of((w.reread)(ty, v)) == ty {
        (w.reread)(ty, v)
    } else {
        blank(ty)
    }
}

// ---------------------------------------------------------------------------
// Instructions

/// The value of an operand.
pub open spec fn value_of(w: World, e: Env, v: Value) -> Val {
    match v {
        Value::Local(n) => e.registers[n],
        Value::LiteralInteger(n) => Val::Int(64, n as int),
        Value::LiteralBoolean(b) => truth(b),
        Value::Global(n) => Val::Pointer((w.text)(n)),
    }
}

/// Put a value into a register.
pub open spec fn set(e: Env, dest: usize, v: Val) -> Env {
    Env { registers: e.registers.insert(dest, v), ..e }
}

/// Put a value into memory.
pub open spec fn stored(e: Env, at: int, v: Val) -> Env {
    Env { memory: e.memory.insert(at, v), ..e }
}

/// The address that a pointer holds.
pub open spec fn address(v: Val) -> int {
    match v {
        Val::Pointer(p) => p,
        _ => 0,
    }
}

/// The number that an integer holds.
pub open spec fn number(v: Val) -> int {
    match v {
        Val::Int(_, x) => x,
        _ => 0,
    }
}

/// The larger one of two widths.
pub open spec fn wider(a: u32, b: u32) -> u32 {
    if a < b {
        b
    } else {
        a
    }
}

/// Arithmetic on two numbers. Integers of different widths are taken in the larger one.
pub open spec fn arithmetic(w: World, i: IntOp, f: FloatOp, a: Val, b: Val) -> Val {
    match (a, b) {
        (Val::Int(m, x), Val::Int(n, y)) => Val::Int(
            wider(m, n),
            calculated(i, wider(m, n), x, y),
        ),
        (Val::Float(m, x), Val::Float(_, y)) => Val::Float(m, (w.float)(f, x, y)),
        _ => a,
    }
}

/// A comparison. Pointers are compared by the lowest 64 bits of their addresses.
pub open spec fn comparison(w: World, p: Predicate, a: Val, b: Val) -> Val {
    match (a, b) {
        (Val::Int(_, x), Val::Int(_, y)) => truth(compares(p, x, y)),
        (Val::Float(_, x), Val::Float(_, y)) => truth((w.ordered)(p, x, y)),
        (Val::Pointer(x), Val::Pointer(y)) => truth(
            compares(p, wrapped(64, x), wrapped(64, y)),
        ),
        _ => a,
    }
}

/// An operation on the bits of two integers.
pub open spec fn bits_of(op: IntOp, a: Val, b: Val) -> Val {
    match (a, b) {
        (Val::Int(m, x), Val::Int(n, y)) => Val::Int(
            wider(m, n),
            calculated(op, wider(m, n), x, y),
        ),
        _ => a,
    }
}

/// An operation on two truth values.
pub open spec fn logic_of(op: IntOp, a: Val, b: Val) -> Val {
    match (a, b) {
        (Val::Int(m, x), Val::Int(_, y)) => Val::Int(m, calculated(op, m, x, y)),
        _ => a,
    }
}

/// The complement of an integer: each bit becomes the other one.
pub open spec fn complement(v: Val) -> Val {
    match v {
        Val::Int(bits, x) => Val::Int(bits, -x - 1),
        _ => v,
    }
}

/// An argument as a callee expects it: as its parameter, or for a further argument in at
/// least the width of C's `int` or `double`.
pub open spec fn passed(w: World, v: Val, param: Option<LlvmType>) -> Val {
    match param {
        Some(ty) => fitted(v, ty),
        None => match v {
            Val::Int(bits, _) => if bits < 32 {
                fitted(v, LlvmType::Int(32))
            } else {
                v
            },
            Val::Float(bits, x) => if bits != 64 {
                Val::Float(64, (w.widened)(bits, x))
            } else {
                v
            },
            _ => v,
        },
    }
}

/// The arguments as a callee expects them.
pub open spec fn all_passed(w: World, vs: Seq<Val>, params: Seq<LlvmType>) -> Seq<Val> {
    Seq::new(
        vs.len(),
        |i: int|
            passed(
                w,
                vs[i],
                if i < params.len() {
                    Some(params[i])
                } else {
                    None
                },
            ),
    )
}

/// Something is seen, and memory may change.
pub open spec fn seen(w: World, e: Env, event: Event) -> Env {
    let events = e.events.push(event);
    Env { events, memory: (w.effect)(events, e.memory), ..e }
}

/// A call of a function: what it is given, and where its result goes.
pub open spec fn called(w: World, e: Env, name: Seq<char>, args: Seq<Val>, dest: usize) -> Env {
    let after = seen(w, e, Event::Call(name, args));
    match (w.result)(name) {
        Some(ty) => set(after, dest, read_as(w, ty, (w.answer)(after.events))),
        None => after,
    }
}

/// The values of operands.
pub open spec fn values_of(w: World, e: Env, vs: Seq<Value>) -> Seq<Val> {
    Seq::new(vs.len(), |i: int| value_of(w, e, vs[i]))
}

/// A call. A few names stand for reading, writing and moving pointers.
pub open spec fn call(w: World, e: Env, name: Seq<char>, args: Seq<Value>, dest: usize) -> Env {
    let vs = values_of(w, e, args);
    if name == "ptr_add"@ {
        set(
            e,
            dest,
            Val::Pointer((w.element)(LlvmType::Int(8), address(vs[0]), number(vs[1]))),
        )
    } else if name == "ptr_read_int"@ {
        set(e, dest, read_as(w, LlvmType::Int(64), e.memory[address(vs[0])]))
    } else if name == "ptr_read_str"@ {
        set(e, dest, read_as(w, LlvmType::Pointer, e.memory[address(vs[0])]))
    } else if name == "ptr_write_int"@ || name == "ptr_write_str"@ {
        stored(e, address(vs[0]), vs[1])
    } else {
        called(w, e, name, all_passed(w, vs, (w.params)(name)), dest)
    }
}

/// The members of a struct with the first `k` of some values set.
pub open spec fn with_members(members: Seq<Val>, types: Seq<LlvmType>, vs: Seq<Val>, k: int) -> Seq<
    Val,
>
    decreases k,
{
    if k <= 0 {
        members
    } else {
        with_members(members, types, vs, k - 1).update(k - 1, fitted(vs[k - 1], types[k - 1]))
    }
}

/// A conversion.
pub open spec fn converted(w: World, v: Val, ty: LlvmType) -> Val {
    match (v, ty) {
        (Val::Int(_, _), LlvmType::Int(_)) => fitted(v, ty),
        (Val::Int(_, x), LlvmType::Float(n)) => Val::Float(n, (w.to_float)(n, x)),
        (Val::Int(bits, x), LlvmType::Pointer) => Val::Pointer(unsigned(bits, x)),
        (Val::Float(_, x), LlvmType::Int(n)) => Val::Int(n, (w.to_int)(n, x)),
        (Val::Pointer(p), LlvmType::Int(n)) => Val::Int(n, wrapped(n, p)),
        _ => v,
    }
}

/// A write to a member: of a struct in a register, or through a pointer to one.
pub open spec fn member_stored(
    w: World,
    e: Env,
    struc: Value,
    index: usize,
    v: Val,
    name: Seq<char>,
) -> Env {
    match value_of(w, e, struc) {
        Val::Struct(n, members) => match struc {
            Value::Local(r) => set(e, r, Val::Struct(n, members.update(index as u32 as int, v))),
            _ => e,
        },
        Val::Pointer(p) => {
            let n = (w.number)(name);
            stored(
                e,
                (w.member)(n, p, index as u32),
                fitted(v, (w.layout)(n)[index as u32 as int]),
            )
        },
        _ => e,
    }
}

/// A read of a member: of a struct in a register, or through a pointer to one. The address
/// of the latter can be had too.
pub open spec fn member_read(
    w: World,
    e: Env,
    struc: Value,
    index: usize,
    dest: usize,
    resolve: bool,
    name: Seq<char>,
) -> Env {
    match value_of(w, e, struc) {
        Val::Struct(n, members) => set(
            e,
            dest,
            read_as(w, (w.layout)(n)[index as u32 as int], members[index as u32 as int]),
        ),
        Val::Pointer(p) => {
            let n = (w.number)(name);
            let at = (w.member)(n, p, index as u32);
            set(
                e,
                dest,
                if resolve {
                    read_as(w, (w.layout)(n)[index as u32 as int], e.memory[at])
                } else {
                    Val::Pointer(at)
                },
            )
        },
        _ => e,
    }
}

/// What an instruction does to registers and memory. Instructions that only say where to
/// go on change neither.
pub open spec fn performed(w: World, e: Env, i: Inst) -> Env {
    match i {
        Inst::Load(name, dest, t) => set(
            e,
            dest,
            read_as(w, (w.kind)(t), e.memory[(w.place)(name)]),
        ),
        Inst::LoadGlobal(name, dest, t) => set(
            e,
            dest,
            read_as(w, (w.kind)(t), e.memory[(w.global)(name)]),
        ),
        Inst::LoadArg(arg, dest, _) => set(e, dest, (w.argument)(arg)),
        Inst::Store(name, v, t) => stored(
            e,
            (w.place)(name),
            fitted(value_of(w, e, v), (w.kind)(t)),
        ),
        Inst::ConstInt(n, dest) => set(e, dest, Val::Int(64, n as int)),
        Inst::ConstFloat(n, dest) => set(e, dest, Val::Float(64, n as int)),
        Inst::ConstTrue(dest) => set(e, dest, truth(true)),
        Inst::ConstFalse(dest) => set(e, dest, truth(false)),
        Inst::ConstNull(dest) => set(e, dest, Val::Pointer(0)),
        Inst::Add(a, b, dest) => set(
            e,
            dest,
            arithmetic(w, IntOp::Add, FloatOp::Add, value_of(w, e, a), value_of(w, e, b)),
        ),
        Inst::Sub(a, b, dest) => set(
            e,
            dest,
            arithmetic(w, IntOp::Sub, FloatOp::Sub, value_of(w, e, a), value_of(w, e, b)),
        ),
        Inst::Mul(a, b, dest) => set(
            e,
            dest,
            arithmetic(w, IntOp::Mul, FloatOp::Mul, value_of(w, e, a), value_of(w, e, b)),
        ),
        Inst::Div(a, b, dest) => set(
            e,
            dest,
            arithmetic(w, IntOp::Div, FloatOp::Div, value_of(w, e, a), value_of(w, e, b)),
        ),
        Inst::Mod(a, b, dest) => set(
            e,
            dest,
            arithmetic(w, IntOp::Rem, FloatOp::Rem, value_of(w, e, a), value_of(w, e, b)),
        ),
        Inst::Pow(a, b, dest) => called(
            w,
            e,
            "pow"@,
            same_width(value_of(w, e, a), value_of(w, e, b)),
            dest,
        ),
        Inst::Or(a, b, dest) => set(
            e,
            dest,
            logic_of(IntOp::Or, value_of(w, e, a), value_of(w, e, b)),
        ),
        Inst::And(a, b, dest) => set(
            e,
            dest,
            logic_of(IntOp::And, value_of(w, e, a), value_of(w, e, b)),
        ),
        Inst::Eq(a, b, dest) => set(
            e,
            dest,
            comparison(w, Predicate::Eq, value_of(w, e, a), value_of(w, e, b)),
        ),
        Inst::Neq(a, b, dest) => set(
            e,
            dest,
            comparison(w, Predicate::Neq, value_of(w, e, a), value_of(w, e, b)),
        ),
        Inst::Lt(a, b, dest) => set(
            e,
            dest,
            comparison(w, Predicate::Lt, value_of(w, e, a), value_of(w, e, b)),
        ),
        Inst::Lte(a, b, dest) => set(
            e,
            dest,
            comparison(w, Predicate::Lte, value_of(w, e, a), value_of(w, e, b)),
        ),
        Inst::Gt(a, b, dest) => set(
            e,
            dest,
            comparison(w, Predicate::Gt, value_of(w, e, a), value_of(w, e, b)),
        ),
        Inst::Gte(a, b, dest) => set(
            e,
            dest,
            comparison(w, Predicate::Gte, value_of(w, e, a), value_of(w, e, b)),
        ),
        Inst::BitAnd(a, b, dest) => set(
            e,
            dest,
            bits_of(IntOp::And, value_of(w, e, a), value_of(w, e, b)),
        ),
        Inst::BitOr(a, b, dest) => set(
            e,
            dest,
            bits_of(IntOp::Or, value_of(w, e, a), value_of(w, e, b)),
        ),
        Inst::BitXor(a, b, dest) => set(
            e,
            dest,
            bits_of(IntOp::Xor, value_of(w, e, a), value_of(w, e, b)),
        ),
        Inst::Shl(a, b, dest) => set(
            e,
            dest,
            bits_of(IntOp::Shl, value_of(w, e, a), value_of(w, e, b)),
        ),
        Inst::Shr(a, b, dest) => set(
            e,
            dest,
            bits_of(IntOp::Shr, value_of(w, e, a), value_of(w, e, b)),
        ),
        Inst::Not(v, dest) => set(e, dest, complement(value_of(w, e, v))),
        Inst::FunctionCall(name, args, dest) => call(w, e, name, args, dest),
        Inst::SizeOf(t, dest) => set(e, dest, Val::Int(64, (w.size)((w.kind)(t)))),
        Inst::ElementPtr(array, index, dest, t) => set(
            e,
            dest,
            Val::Pointer(
                (w.element)(
                    (w.kind)(t),
                    address(value_of(w, e, array)),
                    number(value_of(w, e, index)),
                ),
            ),
        ),
        Inst::Pointer(name, dest) => set(e, dest, Val::Pointer((w.place)(name))),
        Inst::CreateArray(t, size, dest) => {
            let after = seen(
                w,
                e,
                Event::Allocation((w.kind)(t), Val::Int(32, wrapped(32, size as u64 as int))),
            );
            set(after, dest, read_as(w, LlvmType::Pointer, (w.answer)(after.events)))
        },
        Inst::StoreElement(array, index, v, t) => stored(
            e,
            (w.element)(
                (w.kind)(t),
                address(value_of(w, e, array)),
                number(value_of(w, e, index)),
            ),
            fitted(value_of(w, e, v), (w.kind)(t)),
        ),
        Inst::AccessElement(array, index, dest, t) => set(
            e,
            dest,
            read_as(
                w,
                (w.kind)(t),
                e.memory[(w.element)(
                    (w.kind)(t),
                    address(value_of(w, e, array)),
                    number(value_of(w, e, index)),
                )],
            ),
        ),
        Inst::StoreStructMember(struc, index, v, name) => member_stored(
            w,
            e,
            struc,
            index,
            value_of(w, e, v),
            name,
        ),
        Inst::CreateStruct(name, vs, dest) => {
            let n = (w.number)(name);
            set(
                e,
                dest,
                Val::Struct(
                    n,
                    with_members(
                        (w.unset)(n),
                        (w.layout)(n),
                        values_of(w, e, vs),
                        vs.len() as int,
                    ),
                ),
            )
        },
        Inst::AccessStructMember(struc, index, dest, resolve, name) => member_read(
            w,
            e,
            struc,
            index,
            dest,
            resolve,
            name,
        ),
        Inst::Cast(v, t, dest) => set(
            e,
            dest,
            converted(w, value_of(w, e, v), (w.kind)(t)),
        ),
        _ => e,
    }
}

/// Two values as they are, integers in the larger one of their widths.
pub open spec fn same_width(a: Val, b: Val) -> Seq<Val> {
    match (a, b) {
        (Val::Int(m, x), Val::Int(n, y)) => seq![
            Val::Int(wider(m, n), x),
            Val::Int(wider(m, n), y),
        ],
        _ => seq![a, b],
    }
}

} // verus!
