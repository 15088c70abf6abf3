//! What lowering to LLVM computes. A program of the intermediate representation
//! becomes a list of steps for an LLVM module builder: types and functions to
//! declare, constants and instructions to build, blocks to go to. A step that
//! builds a value is known by its position in the list, and later steps refer to
//! the value by that position.
//!
//! A lowering gives `None` for a program that has none: one that uses a name
//! which was never declared, a register that was never written, or a value of the
//! wrong kind.

use vstd::prelude::*;
use crate::assoc;
use crate::ir::{Extern, Fun, GlobalValue, Inst, Mod, StructDef, Value};
use crate::types::Ty;

verus! {

/// A type of an LLVM value.
#[derive(Debug, PartialEq, Eq, Clone, Copy, Structural)]
pub enum LlvmType {
    /// Integers of that many bits
    Int(u32),
    /// IEEE 754 numbers of that many bits
    Float(u32),
    Pointer,
    /// The struct that was declared at that position among the structs
    Struct(usize),
}

/// A value: the position of the step that builds it, and its type.
#[derive(Debug, PartialEq, Eq, Clone, Copy, Structural)]
pub struct Operand {
    pub id: usize,
    pub ty: LlvmType,
}

/// Integer instructions on two operands.
#[derive(Debug, PartialEq, Eq, Clone, Copy, Structural)]
pub enum IntOp {
    Add,
    Sub,
    Mul,
    /// Signed
    Div,
    /// Signed
    Rem,
    And,
    Or,
    Xor,
    Shl,
    /// Keeps the sign
    Shr,
}

/// Floating-point instructions on two operands.
#[derive(Debug, PartialEq, Eq, Clone, Copy, Structural)]
pub enum FloatOp {
    Add,
    Sub,
    Mul,
    Div,
    Rem,
}

/// Comparisons: signed for integers, ordered for floating-point numbers.
#[derive(Debug, PartialEq, Eq, Clone, Copy, Structural)]
pub enum Predicate {
    Eq,
    Neq,
    Gt,
    Gte,
    Lt,
    Lte,
}

/// What an instruction is for. It shows in the names of LLVM's registers only.
#[derive(Debug, PartialEq, Eq, Clone, Copy, Structural)]
pub enum Label {
    Load,
    PtrReadInt,
    PtrReadStr,
    Gep,
    PtrAdd,
    ElementPtr,
    Insert,
    Member,
    Extend,
    Promote,
    Call,
    Power,
}

/// Who can see a function.
#[derive(Debug, PartialEq, Eq, Clone, Copy, Structural)]
pub enum Linkage {
    /// Defined elsewhere
    External,
    /// Seen in this module only
    Private,
    /// Seen by everyone
    Default,
}

/// A step. Names are of type `N`, lists of types of type `T`, and lists of values
/// of type `V`.
#[derive(Debug, PartialEq)]
pub enum Op<N, T, V> {
    /// Declare a struct
    OpaqueStruct(N),
    /// Give the struct of that number its members
    SetBody(usize, T),
    /// Declare a function: its name, parameters and result, and whether it takes
    /// further arguments
    DeclareFunction(N, T, Option<LlvmType>, bool, Linkage),
    /// Add a block to a function
    AppendBlock(usize, N),
    /// Go on at the end of a block
    Position(usize),
    GlobalString(N),
    GlobalInt(N, i64),
    GlobalFloat(N, u64),
    GlobalBool(N, bool),
    /// A parameter of a function
    Param(usize, usize),
    /// Number of bits, value
    ConstInt(u32, u64),
    /// The bits of a 64-bit number
    ConstFloat(u64),
    ConstNull,
    /// A struct whose members are not set
    ConstStruct(usize),
    SizeOf(LlvmType),
    Alloca(LlvmType),
    /// What is loaded, from where
    Load(LlvmType, Operand, Label),
    /// Where to, what
    Store(Operand, Operand),
    /// Element type, pointer, index
    Gep(LlvmType, Operand, Operand, Label),
    /// Struct, pointer, member
    StructGep(usize, Operand, u32),
    /// Struct, value, member
    InsertValue(Operand, Operand, u32, Label),
    ExtractValue(Operand, u32),
    Int(IntOp, Operand, Operand),
    Float(FloatOp, Operand, Operand),
    IntCompare(Predicate, Operand, Operand),
    FloatCompare(Predicate, Operand, Operand),
    Not(Operand),
    ZeroExtend(Operand, u32, Label),
    SignExtend(Operand, u32, Label),
    Truncate(Operand, u32),
    /// To 64 bits
    FloatExtend(Operand),
    IntToFloat(Operand, u32),
    FloatToInt(Operand, u32),
    IntToPointer(Operand),
    PointerToInt(Operand, u32),
    /// Element type, number of elements
    ArrayMalloc(LlvmType, Operand),
    Call(usize, V, Label),
    Branch(usize),
    CondBranch(Operand, usize, usize),
    Return(Option<Operand>),
    Unreachable,
}

/// The model of a step.
pub type Step = Op<Seq<char>, Seq<LlvmType>, Seq<Operand>>;

/// A function as its callers see it.
pub struct Sig {
    /// The position of the step that declares it
    pub id: usize,
    pub params: Seq<LlvmType>,
    pub result: Option<LlvmType>,
}

/// The state of lowering a module.
pub struct Ll {
    pub ops: Seq<Step>,
    /// The string constants
    pub strings: Seq<Operand>,
    pub globals: Seq<(Seq<char>, Operand)>,
    /// The numbers of the structs
    pub structs: Seq<(Seq<char>, usize)>,
    /// The members of each struct
    pub layouts: Seq<Seq<LlvmType>>,
    pub enums: Seq<(Seq<char>, ())>,
    pub boxed_enums: Seq<(Seq<char>, ())>,
    pub functions: Seq<(Seq<char>, Sig)>,
}

/// The values of the function that is being lowered.
pub struct Loc {
    pub registers: Map<usize, Operand>,
    pub variables: Seq<(Seq<char>, Operand)>,
    pub blocks: Seq<(Seq<char>, usize)>,
}

/// The state of lowering a function.
pub struct Low {
    pub l: Ll,
    pub loc: Loc,
}

// ---------------------------------------------------------------------------
// Steps

/// Add a step.
pub open spec fn step(l: Ll, op: Step) -> Ll {
    Ll { ops: l.ops.push(op), ..l }
}

/// Add a step that builds a value of type `ty`.
pub open spec fn built(l: Ll, op: Step, ty: LlvmType) -> (Ll, Operand) {
    (step(l, op), Operand { id: l.ops.len() as usize, ty })
}

/// Put a value into a register.
pub open spec fn assigned(s: Low, dest: usize, v: Operand) -> Low {
    Low { loc: Loc { registers: s.loc.registers.insert(dest, v), ..s.loc }, ..s }
}

/// Build a value and put it into a register.
pub open spec fn build(s: Low, op: Step, ty: LlvmType, dest: usize) -> Low {
    let (l, v) = built(s.l, op, ty);
    assigned(Low { l, ..s }, dest, v)
}

// ---------------------------------------------------------------------------
// Types

/// The LLVM type of a type.
#[verifier::opaque]
pub open spec fn basic_type(l: Ll, t: Ty) -> Option<LlvmType> {
    match t {
        Ty::Int => Some(LlvmType::Int(64)),
        Ty::SizedSignedInt(n) => int_type(n),
        Ty::SizedUnsignedInt(n) => int_type(n),
        Ty::Str => Some(LlvmType::Pointer),
        Ty::Float => Some(LlvmType::Float(64)),
        Ty::SizedFloat(n) => if n == 16 || n == 32 || n == 64 {
            Some(LlvmType::Float(n as u32))
        } else {
            None
        },
        Ty::Bool => Some(LlvmType::Int(1)),
        Ty::Pointer(_) => Some(LlvmType::Pointer),
        Ty::Named(name) => if assoc::defined(l.boxed_enums, name) {
            Some(LlvmType::Pointer)
        } else if assoc::defined(l.enums, name) {
            Some(LlvmType::Int(64))
        } else {
            match assoc::get(l.structs, name) {
                Some(n) => Some(LlvmType::Struct(n)),
                None => None,
            }
        },
        Ty::Array(..) => Some(LlvmType::Pointer),
        _ => None,
    }
}

/// The LLVM type of integers of `n` bits.
pub open spec fn int_type(n: usize) -> Option<LlvmType> {
    if n == 8 || n == 16 || n == 32 || n == 64 {
        Some(LlvmType::Int(n as u32))
    } else {
        None
    }
}

/// The LLVM types of the types from position `k` on, after `types`.
#[verifier::opaque]
pub open spec fn basic_types(l: Ll, ts: Seq<Ty>, k: int, types: Seq<LlvmType>) -> Option<
    Seq<LlvmType>,
>
    decreases ts.len() - k,
{
    if k < 0 || k >= ts.len() {
        Some(types)
    } else {
        match basic_type(l, ts[k]) {
            None => None,
            Some(t) => basic_types(l, ts, k + 1, types.push(t)),
        }
    }
}

/// What a function that returns the type returns: nothing, for the type without
/// values.
#[verifier::opaque]
pub open spec fn result_type(l: Ll, t: Ty) -> Option<Option<LlvmType>> {
    if t is Void {
        Some(None)
    } else {
        match basic_type(l, t) {
            Some(t) => Some(Some(t)),
            None => None,
        }
    }
}

/// The type of a member of a struct.
#[verifier::opaque]
pub open spec fn member_type(l: Ll, n: usize, index: u32) -> Option<LlvmType> {
    if n < l.layouts.len() && index < l.layouts[n as int].len() {
        Some(l.layouts[n as int][index as int])
    } else {
        None
    }
}

// ---------------------------------------------------------------------------
// Values

/// Bring an integer to the width of the type `target`: a truth value is filled up
/// with zeros, another integer keeps its sign. Other values stay as they are.
#[verifier::opaque]
pub open spec fn coerced(l: Ll, v: Operand, target: LlvmType) -> (Ll, Operand) {
    match v.ty {
        LlvmType::Int(src) => match target {
            LlvmType::Int(dst) => if dst > src && src == 1 {
                built(l, Op::ZeroExtend(v, dst, Label::Extend), target)
            } else if dst > src {
                built(l, Op::SignExtend(v, dst, Label::Extend), target)
            } else if dst < src {
                built(l, Op::Truncate(v, dst), target)
            } else {
                (l, v)
            },
            _ => (l, v),
        },
        _ => (l, v),
    }
}

/// Bring the narrower of two integers to the width of the wider one. It keeps its
/// sign, a truth value too.
#[verifier::opaque]
pub open spec fn harmonized(l: Ll, a: Operand, b: Operand) -> (Ll, Operand, Operand) {
    match a.ty {
        LlvmType::Int(x) => match b.ty {
            LlvmType::Int(y) => if x < y {
                let (l, a) = built(l, Op::SignExtend(a, y, Label::Extend), b.ty);
                (l, a, b)
            } else if y < x {
                let (l, b) = built(l, Op::SignExtend(b, x, Label::Extend), a.ty);
                (l, a, b)
            } else {
                (l, a, b)
            },
            _ => (l, a, b),
        },
        _ => (l, a, b),
    }
}

/// The value in the register that `v` is.
#[verifier::opaque]
pub open spec fn local(loc: Loc, v: Value) -> Option<Operand> {
    match v {
        Value::Local(n) => if loc.registers.dom().contains(n) {
            Some(loc.registers[n])
        } else {
            None
        },
        _ => None,
    }
}

/// The pointer in the register that `v` is.
#[verifier::opaque]
pub open spec fn local_pointer(loc: Loc, v: Value) -> Option<Operand> {
    match local(loc, v) {
        Some(p) => if p.ty is Pointer {
            Some(p)
        } else {
            None
        },
        None => None,
    }
}

/// The integer in the register that `v` is.
#[verifier::opaque]
pub open spec fn local_int(loc: Loc, v: Value) -> Option<Operand> {
    match local(loc, v) {
        Some(p) => if p.ty is Int {
            Some(p)
        } else {
            None
        },
        None => None,
    }
}

/// The string constant of number `n`.
#[verifier::opaque]
pub open spec fn string(l: Ll, n: usize) -> Option<Operand> {
    if n < l.strings.len() {
        Some(l.strings[n as int])
    } else {
        None
    }
}

/// The value of an operand: a register, a constant or a string constant.
#[verifier::opaque]
pub open spec fn operand(s: Low, v: Value) -> Option<(Low, Operand)> {
    match v {
        Value::Local(_) => match local(s.loc, v) {
            Some(v) => Some((s, v)),
            None => None,
        },
        Value::LiteralInteger(n) => {
            let (l, v) = built(s.l, Op::ConstInt(64, n as u64), LlvmType::Int(64));
            Some((Low { l, ..s }, v))
        },
        Value::LiteralBoolean(b) => {
            let (l, v) = built(
                s.l,
                Op::ConstInt(
                    1,
                    if b {
                        1
                    } else {
                        0
                    },
                ),
                LlvmType::Int(1),
            );
            Some((Low { l, ..s }, v))
        },
        Value::Global(n) => match string(s.l, n) {
            Some(v) => Some((s, v)),
            None => None,
        },
    }
}

/// The values of the operands from position `k` on, after `values`.
#[verifier::opaque]
pub open spec fn operands(s: Low, vs: Seq<Value>, k: int, values: Seq<Operand>) -> Option<
    (Low, Seq<Operand>),
>
    decreases vs.len() - k,
{
    if k < 0 || k >= vs.len() {
        Some((s, values))
    } else {
        match operand(s, vs[k]) {
            None => None,
            Some((s, v)) => operands(s, vs, k + 1, values.push(v)),
        }
    }
}

/// The storage of a variable. One that was not declared is allocated.
#[verifier::opaque]
pub open spec fn variable(s: Low, name: Seq<char>, ty: LlvmType) -> (Low, Operand) {
    match assoc::get(s.loc.variables, name) {
        Some(p) => (s, p),
        None => {
            let (l, p) = built(s.l, Op::Alloca(ty), LlvmType::Pointer);
            (
                Low {
                    l,
                    loc: Loc { variables: assoc::put(s.loc.variables, name, p), ..s.loc },
                },
                p,
            )
        },
    }
}

/// The block `name` of a function. One that is not known is added.
#[verifier::opaque]
pub open spec fn block(s: Low, function: usize, name: Seq<char>) -> (Low, usize) {
    match assoc::get(s.loc.blocks, name) {
        Some(b) => (s, b),
        None => {
            let b = s.l.ops.len() as usize;
            (
                Low {
                    l: step(s.l, Op::AppendBlock(function, name)),
                    loc: Loc { blocks: assoc::put(s.loc.blocks, name, b), ..s.loc },
                },
                b,
            )
        },
    }
}

// ---------------------------------------------------------------------------
// Instructions

/// Arithmetic on two integers or two floating-point numbers.
#[verifier::opaque]
pub open spec fn arithmetic(s: Low, i: IntOp, f: FloatOp, a: Value, b: Value, dest: usize) -> Option<
    Low,
> {
    match local(s.loc, a) {
        None => None,
        Some(x) => match local(s.loc, b) {
            None => None,
            Some(y) => {
                let (l, x, y) = harmonized(s.l, x, y);
                let s = Low { l, ..s };
                match x.ty {
                    LlvmType::Float(_) => if y.ty is Float {
                        Some(build(s, Op::Float(f, x, y), x.ty, dest))
                    } else {
                        None
                    },
                    LlvmType::Int(_) => if y.ty is Int {
                        Some(build(s, Op::Int(i, x, y), x.ty, dest))
                    } else {
                        None
                    },
                    _ => None,
                }
            },
        },
    }
}

/// A comparison. Pointers can be compared for equality only.
#[verifier::opaque]
pub open spec fn comparison(s: Low, p: Predicate, a: Value, b: Value, dest: usize) -> Option<Low> {
    match local(s.loc, a) {
        None => None,
        Some(x) => match local(s.loc, b) {
            None => None,
            Some(y) => {
                let (l, x, y) = harmonized(s.l, x, y);
                match x.ty {
                    LlvmType::Float(_) => if y.ty is Float {
                        Some(
                            build(
                                Low { l, ..s },
                                Op::FloatCompare(p, x, y),
                                LlvmType::Int(1),
                                dest,
                            ),
                        )
                    } else {
                        None
                    },
                    LlvmType::Int(_) => if y.ty is Int {
                        Some(
                            build(
                                Low { l, ..s },
                                Op::IntCompare(p, x, y),
                                LlvmType::Int(1),
                                dest,
                            ),
                        )
                    } else {
                        None
                    },
                    LlvmType::Pointer => if y.ty is Pointer && (p is Eq || p is Neq) {
                        let (l, x) = built(l, Op::PointerToInt(x, 64), LlvmType::Int(64));
                        let (l, y) = built(l, Op::PointerToInt(y, 64), LlvmType::Int(64));
                        Some(
                            build(
                                Low { l, ..s },
                                Op::IntCompare(p, x, y),
                                LlvmType::Int(1),
                                dest,
                            ),
                        )
                    } else {
                        None
                    },
                    _ => None,
                }
            },
        },
    }
}

/// An operation on the bits of two integers, brought to one width or not.
#[verifier::opaque]
pub open spec fn bitwise(s: Low, op: IntOp, harmonize: bool, a: Value, b: Value, dest: usize) -> Option<
    Low,
> {
    match local(s.loc, a) {
        None => None,
        Some(x) => match local(s.loc, b) {
            None => None,
            Some(y) => {
                let (l, x, y) = if harmonize {
                    harmonized(s.l, x, y)
                } else {
                    (s.l, x, y)
                };
                if x.ty is Int && y.ty is Int {
                    Some(build(Low { l, ..s }, Op::Int(op, x, y), x.ty, dest))
                } else {
                    None
                }
            },
        },
    }
}

/// A power, which the function `pow` computes.
#[verifier::opaque]
pub open spec fn power(s: Low, a: Value, b: Value, dest: usize) -> Option<Low> {
    match local(s.loc, a) {
        None => None,
        Some(x) => match local(s.loc, b) {
            None => None,
            Some(y) => {
                let (l, x, y) = harmonized(s.l, x, y);
                match assoc::get(l.functions, "pow"@) {
                    None => None,
                    Some(sig) => match sig.result {
                        None => None,
                        Some(t) => Some(
                            build(
                                Low { l, ..s },
                                Op::Call(sig.id, seq![x, y], Label::Power),
                                t,
                                dest,
                            ),
                        ),
                    },
                }
            },
        },
    }
}

/// Read a variable.
#[verifier::opaque]
pub open spec fn load(s: Low, name: Seq<char>, dest: usize, t: Ty) -> Option<Low> {
    match assoc::get(s.loc.variables, name) {
        None => None,
        Some(p) => match basic_type(s.l, t) {
            None => None,
            Some(ty) => Some(build(s, Op::Load(ty, p, Label::Load), ty, dest)),
        },
    }
}

/// Read a global.
#[verifier::opaque]
pub open spec fn load_global(s: Low, name: Seq<char>, dest: usize, t: Ty) -> Option<Low> {
    match assoc::get(s.l.globals, name) {
        None => None,
        Some(p) => match basic_type(s.l, t) {
            None => None,
            Some(ty) => Some(build(s, Op::Load(ty, p, Label::Load), ty, dest)),
        },
    }
}

/// Read an argument.
#[verifier::opaque]
pub open spec fn load_arg(s: Low, sig: Sig, arg: usize, dest: usize) -> Option<Low> {
    if arg < sig.params.len() {
        Some(build(s, Op::Param(sig.id, arg), sig.params[arg as int], dest))
    } else {
        None
    }
}

/// Write a variable.
#[verifier::opaque]
pub open spec fn store(s: Low, name: Seq<char>, v: Value, t: Ty) -> Option<Low> {
    match v {
        Value::Global(n) => store_string(s, name, n, t),
        _ => match operand(s, v) {
            None => None,
            Some((s, value)) => match basic_type(s.l, t) {
                None => None,
                Some(ty) => {
                    let (l, value) = coerced(s.l, value, ty);
                    let (s, p) = variable(Low { l, ..s }, name, ty);
                    Some(Low { l: step(s.l, Op::Store(p, value)), ..s })
                },
            },
        },
    }
}

/// Write a string constant to a variable. Its type matters only if it has to be
/// allocated.
#[verifier::opaque]
pub open spec fn store_string(s: Low, name: Seq<char>, n: usize, t: Ty) -> Option<Low> {
    match string(s.l, n) {
        None => None,
        Some(value) => match assoc::get(s.loc.variables, name) {
            Some(p) => Some(Low { l: step(s.l, Op::Store(p, value)), ..s }),
            None => match basic_type(s.l, t) {
                None => None,
                Some(ty) => {
                    let (s, p) = variable(s, name, ty);
                    Some(Low { l: step(s.l, Op::Store(p, value)), ..s })
                },
            },
        },
    }
}

/// The end of a function. One that has to return an integer and is given none
/// returns zero.
#[verifier::opaque]
pub open spec fn ret(s: Low, sig: Sig, v: Option<Value>) -> Option<Low> {
    match v {
        None => match sig.result {
            Some(LlvmType::Int(n)) => {
                let (l, zero) = built(s.l, Op::ConstInt(n, 0), LlvmType::Int(n));
                Some(Low { l: step(l, Op::Return(Some(zero))), ..s })
            },
            _ => Some(Low { l: step(s.l, Op::Return(None)), ..s }),
        },
        Some(Value::Local(n)) => match local(s.loc, Value::Local(n)) {
            None => None,
            Some(value) => match sig.result {
                Some(t) => {
                    let (l, value) = coerced(s.l, value, t);
                    Some(Low { l: step(l, Op::Return(Some(value))), ..s })
                },
                None => Some(Low { l: step(s.l, Op::Return(Some(value))), ..s }),
            },
        },
        Some(Value::Global(n)) => match string(s.l, n) {
            None => None,
            Some(value) => Some(Low { l: step(s.l, Op::Return(Some(value))), ..s }),
        },
        _ => None,
    }
}

/// Bring an argument to what a callee expects: the type of its parameter, or for
/// a further argument at least the width of C's `int` or `double`.
#[verifier::opaque]
pub open spec fn argument(l: Ll, v: Operand, param: Option<LlvmType>) -> (Ll, Operand) {
    match param {
        Some(t) => coerced(l, v, t),
        None => match v.ty {
            LlvmType::Int(n) => if n == 1 {
                built(l, Op::ZeroExtend(v, 32, Label::Promote), LlvmType::Int(32))
            } else if n < 32 {
                built(l, Op::SignExtend(v, 32, Label::Promote), LlvmType::Int(32))
            } else {
                (l, v)
            },
            LlvmType::Float(n) => if n != 64 {
                built(l, Op::FloatExtend(v), LlvmType::Float(64))
            } else {
                (l, v)
            },
            _ => (l, v),
        },
    }
}

/// Bring the arguments from position `k` on to what a callee expects, after
/// `done`.
#[verifier::opaque]
pub open spec fn arguments(
    l: Ll,
    vs: Seq<Operand>,
    params: Seq<LlvmType>,
    k: int,
    done: Seq<Operand>,
) -> (Ll, Seq<Operand>)
    decreases vs.len() - k,
{
    if k < 0 || k >= vs.len() {
        (l, done)
    } else {
        let (l, v) = argument(
            l,
            vs[k],
            if k < params.len() {
                Some(params[k])
            } else {
                None
            },
        );
        arguments(l, vs, params, k + 1, done.push(v))
    }
}

/// A call of a declared function.
#[verifier::opaque]
pub open spec fn function_call(s: Low, name: Seq<char>, args: Seq<Value>, dest: usize) -> Option<Low> {
    match operands(s, args, 0, Seq::empty()) {
        None => None,
        Some((s, values)) => match assoc::get(s.l.functions, name) {
            None => None,
            Some(sig) => {
                let (l, values) = arguments(s.l, values, sig.params, 0, Seq::empty());
                let op = Op::Call(sig.id, values, Label::Call);
                match sig.result {
                    Some(t) => Some(build(Low { l, ..s }, op, t, dest)),
                    None => Some(Low { l: step(l, op), ..s }),
                }
            },
        },
    }
}

/// The pointer `args[0]`.
#[verifier::opaque]
pub open spec fn pointer_argument(loc: Loc, args: Seq<Value>) -> Option<Operand> {
    if args.len() > 0 {
        local_pointer(loc, args[0])
    } else {
        None
    }
}

/// A pointer moved by a number of bytes.
#[verifier::opaque]
pub open spec fn pointer_add(s: Low, args: Seq<Value>, dest: usize) -> Option<Low> {
    match pointer_argument(s.loc, args) {
        None => None,
        Some(p) => if args.len() > 1 {
            match local_int(s.loc, args[1]) {
                None => None,
                Some(offset) => Some(
                    build(
                        s,
                        Op::Gep(LlvmType::Int(8), p, offset, Label::PtrAdd),
                        LlvmType::Pointer,
                        dest,
                    ),
                ),
            }
        } else {
            None
        },
    }
}

/// A read through a pointer.
#[verifier::opaque]
pub open spec fn pointer_read(s: Low, args: Seq<Value>, ty: LlvmType, label: Label, dest: usize) -> Option<
    Low,
> {
    match pointer_argument(s.loc, args) {
        None => None,
        Some(p) => Some(build(s, Op::Load(ty, p, label), ty, dest)),
    }
}

/// A write through a pointer, of an integer or of a pointer.
#[verifier::opaque]
pub open spec fn pointer_write(s: Low, args: Seq<Value>, of_int: bool) -> Option<Low> {
    match pointer_argument(s.loc, args) {
        None => None,
        Some(p) => if args.len() > 1 {
            match if of_int {
                local_int(s.loc, args[1])
            } else {
                local_pointer(s.loc, args[1])
            } {
                None => None,
                Some(v) => Some(Low { l: step(s.l, Op::Store(p, v)), ..s }),
            }
        } else {
            None
        },
    }
}

/// A call. A few names stand for instructions.
#[verifier::opaque]
pub open spec fn call(s: Low, name: Seq<char>, args: Seq<Value>, dest: usize) -> Option<Low> {
    if name == "ptr_add"@ {
        pointer_add(s, args, dest)
    } else if name == "ptr_read_int"@ {
        pointer_read(s, args, LlvmType::Int(64), Label::PtrReadInt, dest)
    } else if name == "ptr_write_int"@ {
        pointer_write(s, args, true)
    } else if name == "ptr_read_str"@ {
        pointer_read(s, args, LlvmType::Pointer, Label::PtrReadStr, dest)
    } else if name == "ptr_write_str"@ {
        pointer_write(s, args, false)
    } else {
        function_call(s, name, args, dest)
    }
}

/// A branch to one of two blocks.
#[verifier::opaque]
pub open spec fn cond_branch(
    s: Low,
    function: usize,
    cond: Value,
    yes: Seq<char>,
    no: Seq<char>,
) -> Option<Low> {
    match local_int(s.loc, cond) {
        None => None,
        Some(c) => {
            let (s, yes) = block(s, function, yes);
            let (s, no) = block(s, function, no);
            Some(Low { l: step(s.l, Op::CondBranch(c, yes, no)), ..s })
        },
    }
}

/// A branch. What follows a branch to a block that was not known goes there.
#[verifier::opaque]
pub open spec fn branch(s: Low, function: usize, target: Seq<char>) -> Low {
    let known = assoc::defined(s.loc.blocks, target);
    let (s, b) = block(s, function, target);
    let l = step(s.l, Op::Branch(b));
    Low {
        l: if known {
            l
        } else {
            step(l, Op::Position(b))
        },
        ..s
    }
}

/// The address of an element, and the element's type.
#[verifier::opaque]
pub open spec fn element(s: Low, array: Value, index: Value, t: Ty, label: Label) -> Option<
    (Ll, Operand, LlvmType),
> {
    match local_pointer(s.loc, array) {
        None => None,
        Some(p) => match local_int(s.loc, index) {
            None => None,
            Some(i) => match basic_type(s.l, t) {
                None => None,
                Some(ty) => {
                    let (l, e) = built(s.l, Op::Gep(ty, p, i, label), LlvmType::Pointer);
                    Some((l, e, ty))
                },
            },
        },
    }
}

/// Write an element.
#[verifier::opaque]
pub open spec fn store_element(s: Low, array: Value, index: Value, v: Value, t: Ty) -> Option<Low> {
    match local_pointer(s.loc, array) {
        None => None,
        Some(p) => match local_int(s.loc, index) {
            None => None,
            Some(i) => match operand(s, v) {
                None => None,
                Some((s, v)) => match basic_type(s.l, t) {
                    None => None,
                    Some(ty) => {
                        let (l, v) = coerced(s.l, v, ty);
                        let (l, e) = built(
                            l,
                            Op::Gep(ty, p, i, Label::Gep),
                            LlvmType::Pointer,
                        );
                        Some(Low { l: step(l, Op::Store(e, v)), ..s })
                    },
                },
            },
        },
    }
}

/// Write a member: of a struct in a register, or through a pointer to one.
#[verifier::opaque]
pub open spec fn store_member(s: Low, struc: Value, index: usize, v: Value, name: Seq<char>) -> Option<
    Low,
> {
    match operand(s, v) {
        None => None,
        Some((s, v)) => match local(s.loc, struc) {
            None => None,
            Some(object) => match object.ty {
                LlvmType::Struct(n) => if member_type(s.l, n, index as u32) is Some {
                    match struc {
                        Value::Local(r) => Some(
                            build(
                                s,
                                Op::InsertValue(object, v, index as u32, Label::Member),
                                object.ty,
                                r,
                            ),
                        ),
                        _ => None,
                    }
                } else {
                    None
                },
                LlvmType::Pointer => match assoc::get(s.l.structs, name) {
                    None => None,
                    Some(n) => match member_type(s.l, n, index as u32) {
                        None => None,
                        Some(ty) => {
                            let (l, v) = coerced(s.l, v, ty);
                            let (l, p) = built(
                                l,
                                Op::StructGep(n, object, index as u32),
                                LlvmType::Pointer,
                            );
                            Some(Low { l: step(l, Op::Store(p, v)), ..s })
                        },
                    },
                },
                _ => Some(s),
            },
        },
    }
}

/// Set the members of a struct from position `k` on.
#[verifier::opaque]
pub open spec fn inserted(l: Ll, n: usize, object: Operand, vs: Seq<Operand>, k: int) -> Option<
    (Ll, Operand),
>
    decreases vs.len() - k,
{
    if k < 0 || k >= vs.len() {
        Some((l, object))
    } else {
        match member_type(l, n, k as usize as u32) {
            None => None,
            Some(ty) => {
                let (l, v) = coerced(l, vs[k], ty);
                let (l, object) = built(
                    l,
                    Op::InsertValue(object, v, k as usize as u32, Label::Insert),
                    LlvmType::Struct(n),
                );
                inserted(l, n, object, vs, k + 1)
            },
        }
    }
}

/// Make a struct.
#[verifier::opaque]
pub open spec fn create_struct(s: Low, name: Seq<char>, vs: Seq<Value>, dest: usize) -> Option<Low> {
    match assoc::get(s.l.structs, name) {
        None => None,
        Some(n) => match operands(s, vs, 0, Seq::empty()) {
            None => None,
            Some((s, values)) => {
                let (l, object) = built(s.l, Op::ConstStruct(n), LlvmType::Struct(n));
                match inserted(l, n, object, values, 0) {
                    None => None,
                    Some((l, object)) => Some(assigned(Low { l, ..s }, dest, object)),
                }
            },
        },
    }
}

/// Read a member: of a struct in a register, or through a pointer to one. The
/// address of the latter can be had too.
#[verifier::opaque]
pub open spec fn access_member(
    s: Low,
    struc: Value,
    index: usize,
    dest: usize,
    resolve: bool,
    name: Seq<char>,
) -> Option<Low> {
    match local(s.loc, struc) {
        None => None,
        Some(object) => match object.ty {
            LlvmType::Struct(n) => match member_type(s.l, n, index as u32) {
                None => None,
                Some(ty) => Some(
                    build(s, Op::ExtractValue(object, index as u32), ty, dest),
                ),
            },
            LlvmType::Pointer => match assoc::get(s.l.structs, name) {
                None => None,
                Some(n) => match member_type(s.l, n, index as u32) {
                    None => None,
                    Some(ty) => {
                        let (l, p) = built(
                            s.l,
                            Op::StructGep(n, object, index as u32),
                            LlvmType::Pointer,
                        );
                        let s = Low { l, ..s };
                        Some(
                            if resolve {
                                build(s, Op::Load(ty, p, Label::Load), ty, dest)
                            } else {
                                assigned(s, dest, p)
                            },
                        )
                    },
                },
            },
            _ => Some(s),
        },
    }
}

/// A conversion. Values that cannot be converted stay as they are.
#[verifier::opaque]
pub open spec fn cast(s: Low, v: Value, t: Ty, dest: usize) -> Option<Low> {
    match local(s.loc, v) {
        None => None,
        Some(v) => match basic_type(s.l, t) {
            None => None,
            Some(ty) => Some(
                match v.ty {
                    LlvmType::Int(_) => match ty {
                        LlvmType::Int(_) => {
                            let (l, v) = coerced(s.l, v, ty);
                            assigned(Low { l, ..s }, dest, v)
                        },
                        LlvmType::Float(n) => build(s, Op::IntToFloat(v, n), ty, dest),
                        LlvmType::Pointer => build(s, Op::IntToPointer(v), ty, dest),
                        _ => assigned(s, dest, v),
                    },
                    LlvmType::Float(_) => match ty {
                        LlvmType::Int(n) => build(s, Op::FloatToInt(v, n), ty, dest),
                        _ => assigned(s, dest, v),
                    },
                    LlvmType::Pointer => match ty {
                        LlvmType::Int(n) => build(s, Op::PointerToInt(v, n), ty, dest),
                        _ => assigned(s, dest, v),
                    },
                    _ => assigned(s, dest, v),
                },
            ),
        },
    }
}

/// The array of `size` elements, on the heap.
#[verifier::opaque]
pub open spec fn create_array(s: Low, t: Ty, size: usize, dest: usize) -> Option<Low> {
    match basic_type(s.l, t) {
        None => None,
        Some(ty) => {
            let (l, n) = built(s.l, Op::ConstInt(32, size as u64), LlvmType::Int(32));
            Some(build(Low { l, ..s }, Op::ArrayMalloc(ty, n), LlvmType::Pointer, dest))
        },
    }
}

/// An instruction of the function that `sig` declares.
#[verifier::opaque]
pub open spec fn instruction(s: Low, sig: Sig, i: Inst) -> Option<Low> {
    match i {
        Inst::Load(name, dest, t) => load(s, name, dest, t),
        Inst::LoadGlobal(name, dest, t) => load_global(s, name, dest, t),
        Inst::LoadArg(arg, dest, _) => load_arg(s, sig, arg, dest),
        Inst::Store(name, v, t) => store(s, name, v, t),
        Inst::ConstInt(v, dest) => Some(
            build(s, Op::ConstInt(64, v as u64), LlvmType::Int(64), dest),
        ),
        Inst::ConstFloat(v, dest) => Some(
            build(s, Op::ConstFloat(v), LlvmType::Float(64), dest),
        ),
        Inst::ConstTrue(dest) => Some(build(s, Op::ConstInt(1, 1), LlvmType::Int(1), dest)),
        Inst::ConstFalse(dest) => Some(build(s, Op::ConstInt(1, 0), LlvmType::Int(1), dest)),
        Inst::ConstNull(dest) => Some(build(s, Op::ConstNull, LlvmType::Pointer, dest)),
        Inst::Add(a, b, dest) => arithmetic(s, IntOp::Add, FloatOp::Add, a, b, dest),
        Inst::Sub(a, b, dest) => arithmetic(s, IntOp::Sub, FloatOp::Sub, a, b, dest),
        Inst::Mul(a, b, dest) => arithmetic(s, IntOp::Mul, FloatOp::Mul, a, b, dest),
        Inst::Div(a, b, dest) => arithmetic(s, IntOp::Div, FloatOp::Div, a, b, dest),
        Inst::Mod(a, b, dest) => arithmetic(s, IntOp::Rem, FloatOp::Rem, a, b, dest),
        Inst::Pow(a, b, dest) => power(s, a, b, dest),
        Inst::Or(a, b, dest) => bitwise(s, IntOp::Or, false, a, b, dest),
        Inst::And(a, b, dest) => bitwise(s, IntOp::And, false, a, b, dest),
        Inst::Eq(a, b, dest) => comparison(s, Predicate::Eq, a, b, dest),
        Inst::Neq(a, b, dest) => comparison(s, Predicate::Neq, a, b, dest),
        Inst::Lt(a, b, dest) => comparison(s, Predicate::Lt, a, b, dest),
        Inst::Lte(a, b, dest) => comparison(s, Predicate::Lte, a, b, dest),
        Inst::Gt(a, b, dest) => comparison(s, Predicate::Gt, a, b, dest),
        Inst::Gte(a, b, dest) => comparison(s, Predicate::Gte, a, b, dest),
        Inst::BitAnd(a, b, dest) => bitwise(s, IntOp::And, true, a, b, dest),
        Inst::BitOr(a, b, dest) => bitwise(s, IntOp::Or, true, a, b, dest),
        Inst::BitXor(a, b, dest) => bitwise(s, IntOp::Xor, true, a, b, dest),
        Inst::Shl(a, b, dest) => bitwise(s, IntOp::Shl, true, a, b, dest),
        Inst::Shr(a, b, dest) => bitwise(s, IntOp::Shr, true, a, b, dest),
        Inst::Not(v, dest) => match local_int(s.loc, v) {
            None => None,
            Some(v) => Some(build(s, Op::Not(v), v.ty, dest)),
        },
        Inst::Return(v) => ret(s, sig, v),
        Inst::Unreachable => Some(Low { l: step(s.l, Op::Unreachable), ..s }),
        Inst::FunctionCall(name, args, dest) => call(s, name, args, dest),
        Inst::Jump(target) => Some(branch(s, sig.id, target)),
        Inst::Jcond(cond, yes, no) => cond_branch(s, sig.id, cond, yes, no),
        Inst::SizeOf(t, dest) => match basic_type(s.l, t) {
            None => None,
            Some(ty) => Some(build(s, Op::SizeOf(ty), LlvmType::Int(64), dest)),
        },
        Inst::ElementPtr(array, index, dest, t) => match element(
            s,
            array,
            index,
            t,
            Label::ElementPtr,
        ) {
            None => None,
            Some((l, e, _)) => Some(assigned(Low { l, ..s }, dest, e)),
        },
        Inst::Pointer(name, dest) => match assoc::get(s.loc.variables, name) {
            None => None,
            Some(p) => Some(assigned(s, dest, p)),
        },
        Inst::CreateArray(t, size, dest) => create_array(s, t, size, dest),
        Inst::StoreElement(array, index, v, t) => store_element(s, array, index, v, t),
        Inst::AccessElement(array, index, dest, t) => match element(
            s,
            array,
            index,
            t,
            Label::Gep,
        ) {
            None => None,
            Some((l, e, ty)) => Some(
                build(Low { l, ..s }, Op::Load(ty, e, Label::Load), ty, dest),
            ),
        },
        Inst::StoreStructMember(struc, index, v, name) => store_member(s, struc, index, v, name),
        Inst::CreateStruct(name, vs, dest) => create_struct(s, name, vs, dest),
        Inst::AccessStructMember(struc, index, dest, resolve, name) => access_member(
            s,
            struc,
            index,
            dest,
            resolve,
            name,
        ),
        Inst::Cast(v, t, dest) => cast(s, v, t, dest),
        _ => None,
    }
}

/// The instructions of a block from position `k` on.
#[verifier::opaque]
pub open spec fn instructions(s: Low, sig: Sig, is: Seq<Inst>, k: int) -> Option<Low>
    decreases is.len() - k,
{
    if k < 0 || k >= is.len() {
        Some(s)
    } else {
        match instruction(s, sig, is[k]) {
            None => None,
            Some(s) => instructions(s, sig, is, k + 1),
        }
    }
}

// ---------------------------------------------------------------------------
// Modules

/// Declare the structs from position `k` on.
#[verifier::opaque]
pub open spec fn structs_declared(l: Ll, structs: Seq<(Seq<char>, StructDef)>, k: int) -> Ll
    decreases structs.len() - k,
{
    if k < 0 || k >= structs.len() {
        l
    } else {
        structs_declared(
            step(
                Ll {
                    structs: assoc::put(l.structs, structs[k].0, k as usize),
                    layouts: l.layouts.push(Seq::empty()),
                    ..l
                },
                Op::OpaqueStruct(structs[k].0),
            ),
            structs,
            k + 1,
        )
    }
}

/// The types of the members of a struct.
pub open spec fn attribute_types(s: StructDef) -> Seq<Ty> {
    Seq::new(s.attributes.len(), |i: int| s.attributes[i].0)
}

/// Give the structs from position `k` on their members.
#[verifier::opaque]
pub open spec fn structs_filled(l: Ll, structs: Seq<(Seq<char>, StructDef)>, k: int) -> Option<Ll>
    decreases structs.len() - k,
{
    if k < 0 || k >= structs.len() {
        Some(l)
    } else {
        match basic_types(l, attribute_types(structs[k].1), 0, Seq::empty()) {
            None => None,
            Some(types) => structs_filled(
                step(
                    Ll { layouts: l.layouts.update(k, types), ..l },
                    Op::SetBody(k as usize, types),
                ),
                structs,
                k + 1,
            ),
        }
    }
}

/// Declare a function. The first one of a name is the one that the name stands
/// for.
#[verifier::opaque]
pub open spec fn declared(
    l: Ll,
    name: Seq<char>,
    params: Seq<LlvmType>,
    result: Option<LlvmType>,
    varargs: bool,
    linkage: Linkage,
) -> Ll {
    let l2 = step(l, Op::DeclareFunction(name, params, result, varargs, linkage));
    if assoc::defined(l.functions, name) {
        l2
    } else {
        let sig = Sig { id: l.ops.len() as usize, params, result };
        Ll { functions: assoc::put(l.functions, name, sig), ..l2 }
    }
}

/// Declare the functions that are defined elsewhere, from position `k` on.
#[verifier::opaque]
pub open spec fn externs_declared(l: Ll, externs: Seq<(Seq<char>, Extern)>, k: int) -> Option<Ll>
    decreases externs.len() - k,
{
    if k < 0 || k >= externs.len() {
        Some(l)
    } else {
        let f = externs[k].1;
        match basic_types(l, f.arguments, 0, Seq::empty()) {
            None => None,
            Some(params) => match result_type(l, f.result) {
                None => None,
                Some(result) => externs_declared(
                    declared(l, externs[k].0, params, result, f.varargs, Linkage::External),
                    externs,
                    k + 1,
                ),
            },
        }
    }
}

/// The types of the arguments of a function.
pub open spec fn argument_types(f: Fun) -> Seq<Ty> {
    Seq::new(f.arguments.len(), |i: int| f.arguments[i].1)
}

/// What the function `name` returns. The exit code of the program is a 32-bit
/// integer, so `main` cannot return nothing.
pub open spec fn returned(name: Seq<char>, result: Ty) -> Ty {
    if name == "main"@ && result is Void {
        Ty::SizedSignedInt(32)
    } else {
        result
    }
}

/// Declare the functions from position `k` on.
#[verifier::opaque]
pub open spec fn functions_declared(l: Ll, functions: Seq<(Seq<char>, Fun)>, k: int) -> Option<Ll>
    decreases functions.len() - k,
{
    if k < 0 || k >= functions.len() {
        Some(l)
    } else {
        let name = functions[k].0;
        let f = functions[k].1;
        let linkage = if name == "main"@ {
            Linkage::Default
        } else {
            Linkage::Private
        };
        match basic_types(l, argument_types(f), 0, Seq::empty()) {
            None => None,
            Some(params) => match result_type(l, returned(name, f.result)) {
                None => None,
                Some(result) => functions_declared(
                    declared(l, name, params, result, false, linkage),
                    functions,
                    k + 1,
                ),
            },
        }
    }
}

/// Build the string constants from position `k` on.
#[verifier::opaque]
pub open spec fn strings_built(l: Ll, strings: Seq<Seq<char>>, k: int) -> Ll
    decreases strings.len() - k,
{
    if k < 0 || k >= strings.len() {
        l
    } else {
        let (l, v) = built(l, Op::GlobalString(strings[k]), LlvmType::Pointer);
        strings_built(Ll { strings: l.strings.push(v), ..l }, strings, k + 1)
    }
}

/// The storage of a global. That of a string is the string constant itself.
#[verifier::opaque]
pub open spec fn global(l: Ll, name: Seq<char>, v: GlobalValue) -> Option<(Ll, Operand)> {
    match v {
        GlobalValue::Int(i) => Some(built(l, Op::GlobalInt(name, i), LlvmType::Pointer)),
        GlobalValue::Float(f) => Some(built(l, Op::GlobalFloat(name, f), LlvmType::Pointer)),
        GlobalValue::Bool(b) => Some(built(l, Op::GlobalBool(name, b), LlvmType::Pointer)),
        GlobalValue::String(n) => match string(l, n) {
            Some(v) => Some((l, v)),
            None => None,
        },
    }
}

/// Build the globals from position `k` on.
#[verifier::opaque]
pub open spec fn globals_built(l: Ll, globals: Seq<(Seq<char>, GlobalValue)>, k: int) -> Option<Ll>
    decreases globals.len() - k,
{
    if k < 0 || k >= globals.len() {
        Some(l)
    } else {
        match global(l, globals[k].0, globals[k].1) {
            None => None,
            Some((l, v)) => globals_built(
                Ll { globals: assoc::put(l.globals, globals[k].0, v), ..l },
                globals,
                k + 1,
            ),
        }
    }
}

/// Allocate the variables from position `k` on.
#[verifier::opaque]
pub open spec fn variables_built(s: Low, variables: Seq<(Seq<char>, Ty)>, k: int) -> Option<Low>
    decreases variables.len() - k,
{
    if k < 0 || k >= variables.len() {
        Some(s)
    } else {
        match basic_type(s.l, variables[k].1) {
            None => None,
            Some(ty) => {
                let (l, p) = built(s.l, Op::Alloca(ty), LlvmType::Pointer);
                variables_built(
                    Low {
                        l,
                        loc: Loc {
                            variables: assoc::put(s.loc.variables, variables[k].0, p),
                            ..s.loc
                        },
                    },
                    variables,
                    k + 1,
                )
            },
        }
    }
}

/// Go to the block `name`. One that no branch has led to yet is added.
#[verifier::opaque]
pub open spec fn entered(s: Low, function: usize, name: Seq<char>) -> Low {
    match assoc::get(s.loc.blocks, name) {
        Some(b) => Low { l: step(s.l, Op::Position(b)), ..s },
        None => {
            let b = s.l.ops.len() as usize;
            Low { l: step(step(s.l, Op::AppendBlock(function, name)), Op::Position(b)), ..s }
        },
    }
}

/// The blocks of a function from position `k` on. The first block of the program
/// (as long as `first` holds) starts with the constants.
#[verifier::opaque]
pub open spec fn blocks_built(
    s: Low,
    m: Mod,
    sig: Sig,
    blocks: Seq<(Seq<char>, Seq<Inst>)>,
    k: int,
    first: bool,
) -> Option<(Low, bool)>
    decreases blocks.len() - k,
{
    if k < 0 || k >= blocks.len() {
        Some((s, first))
    } else {
        let s = entered(s, sig.id, blocks[k].0);
        match if first {
            globals_built(strings_built(s.l, m.strings, 0), m.global_values, 0)
        } else {
            Some(s.l)
        } {
            None => None,
            Some(l) => match instructions(Low { l, ..s }, sig, blocks[k].1, 0) {
                None => None,
                Some(s) => blocks_built(s, m, sig, blocks, k + 1, false),
            },
        }
    }
}

/// Nothing is known of the function yet.
pub open spec fn no_locals() -> Loc {
    Loc { registers: Map::empty(), variables: Seq::empty(), blocks: Seq::empty() }
}

/// The body of a function. All its variables are allocated in the entry block.
#[verifier::opaque]
pub open spec fn function(l: Ll, m: Mod, name: Seq<char>, f: Fun, first: bool) -> Option<(Ll, bool)> {
    match assoc::get(l.functions, name) {
        None => None,
        Some(sig) => {
            let (s, entry) = block(Low { l, loc: no_locals() }, sig.id, "entry"@);
            let s = Low { l: step(s.l, Op::Position(entry)), ..s };
            match variables_built(s, f.variables, 0) {
                None => None,
                Some(s) => match blocks_built(s, m, sig, f.blocks, 0, first) {
                    None => None,
                    Some((s, first)) => Some((s.l, first)),
                },
            }
        },
    }
}

/// The bodies of the functions from position `k` on.
#[verifier::opaque]
pub open spec fn functions_built(l: Ll, m: Mod, k: int, first: bool) -> Option<Ll>
    decreases m.functions.len() - k,
{
    if k < 0 || k >= m.functions.len() {
        Some(l)
    } else {
        match function(l, m, m.functions[k].0, m.functions[k].1, first) {
            None => None,
            Some((l, first)) => functions_built(l, m, k + 1, first),
        }
    }
}

/// The state before anything is lowered.
pub open spec fn start(m: Mod) -> Ll {
    Ll {
        ops: Seq::empty(),
        strings: Seq::empty(),
        globals: Seq::empty(),
        structs: Seq::empty(),
        layouts: Seq::empty(),
        enums: assoc::mapped(m.enums, |v: Seq<Seq<char>>| ()),
        boxed_enums: m.boxed_enums,
        functions: Seq::empty(),
    }
}

/// Lower a program: types first, then the declarations of all functions, then
/// their bodies.
#[verifier::opaque]
pub open spec fn lowered(m: Mod) -> Option<Ll> {
    match structs_filled(structs_declared(start(m), m.structs, 0), m.structs, 0) {
        None => None,
        Some(l) => match externs_declared(l, m.extern_functions, 0) {
            None => None,
            Some(l) => match functions_declared(
                declared(
                    l,
                    "pow"@,
                    seq![LlvmType::Float(64), LlvmType::Float(64)],
                    Some(LlvmType::Float(64)),
                    false,
                    Linkage::External,
                ),
                m.functions,
                0,
            ) {
                None => None,
                Some(l) => functions_built(l, m, 0, true),
            },
        },
    }
}

} // verus!
