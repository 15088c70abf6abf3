//! Lowering to LLVM: from the intermediate representation to the steps of a
//! module builder.

use std::collections::HashMap;
use vstd::prelude::*;
use crate::assoc;
use crate::assoc::NameMap;
use crate::ir;
use crate::ir::{Block, Function, GlobalValue, Instruction, Module, Struct, Value};
use crate::lowering;
use crate::lowering::{
    FloatOp, IntOp, Label, Linkage, Ll, LlvmType, Loc, Low, Op, Operand, Predicate, Sig, Step,
};
use crate::text::same;
use crate::types;
use crate::types::AzulaType;

verus! {

/// A step of a module builder.
pub type Operation = Op<String, Vec<LlvmType>, Vec<Operand>>;

/// The step that `o` holds.
#[verifier::opaque]
pub open spec fn op_of(o: Operation) -> Step {
    match o {
        Op::OpaqueStruct(n) => Op::OpaqueStruct(n@),
        Op::SetBody(s, ts) => Op::SetBody(s, ts@),
        Op::DeclareFunction(n, ts, r, v, l) => Op::DeclareFunction(n@, ts@, r, v, l),
        Op::AppendBlock(f, n) => Op::AppendBlock(f, n@),
        Op::Position(b) => Op::Position(b),
        Op::GlobalString(s) => Op::GlobalString(s@),
        Op::GlobalInt(n, v) => Op::GlobalInt(n@, v),
        Op::GlobalFloat(n, v) => Op::GlobalFloat(n@, v),
        Op::GlobalBool(n, v) => Op::GlobalBool(n@, v),
        Op::Param(f, i) => Op::Param(f, i),
        Op::ConstInt(w, v) => Op::ConstInt(w, v),
        Op::ConstFloat(v) => Op::ConstFloat(v),
        Op::ConstNull => Op::ConstNull,
        Op::ConstStruct(s) => Op::ConstStruct(s),
        Op::SizeOf(t) => Op::SizeOf(t),
        Op::Alloca(t) => Op::Alloca(t),
        Op::Load(t, p, l) => Op::Load(t, p, l),
        Op::Store(p, v) => Op::Store(p, v),
        Op::Gep(t, p, i, l) => Op::Gep(t, p, i, l),
        Op::StructGep(s, p, i) => Op::StructGep(s, p, i),
        Op::InsertValue(a, v, i, l) => Op::InsertValue(a, v, i, l),
        Op::ExtractValue(a, i) => Op::ExtractValue(a, i),
        Op::Int(o, a, b) => Op::Int(o, a, b),
        Op::Float(o, a, b) => Op::Float(o, a, b),
        Op::IntCompare(p, a, b) => Op::IntCompare(p, a, b),
        Op::FloatCompare(p, a, b) => Op::FloatCompare(p, a, b),
        Op::Not(v) => Op::Not(v),
        Op::ZeroExtend(v, w, l) => Op::ZeroExtend(v, w, l),
        Op::SignExtend(v, w, l) => Op::SignExtend(v, w, l),
        Op::Truncate(v, w) => Op::Truncate(v, w),
        Op::FloatExtend(v) => Op::FloatExtend(v),
        Op::IntToFloat(v, w) => Op::IntToFloat(v, w),
        Op::FloatToInt(v, w) => Op::FloatToInt(v, w),
        Op::IntToPointer(v) => Op::IntToPointer(v),
        Op::PointerToInt(v, w) => Op::PointerToInt(v, w),
        Op::ArrayMalloc(t, n) => Op::ArrayMalloc(t, n),
        Op::Call(f, vs, l) => Op::Call(f, vs@, l),
        Op::Branch(b) => Op::Branch(b),
        Op::CondBranch(c, a, b) => Op::CondBranch(c, a, b),
        Op::Return(v) => Op::Return(v),
        Op::Unreachable => Op::Unreachable,
    }
}

/// The steps in a list.
pub open spec fn ops_of(s: Seq<Operation>) -> Seq<Step> {
    Seq::new(s.len(), |i: int| op_of(s[i]))
}

/// A function as its callers see it.
#[derive(Debug, PartialEq)]
pub struct Signature {
    pub id: usize,
    pub params: Vec<LlvmType>,
    pub result: Option<LlvmType>,
}

/// The function that `s` describes.
pub open spec fn sig_of(s: Signature) -> Sig {
    Sig { id: s.id, params: s.params@, result: s.result }
}

/// The layouts in a list.
pub open spec fn layouts_of(s: Seq<Vec<LlvmType>>) -> Seq<Seq<LlvmType>> {
    Seq::new(s.len(), |i: int| s[i]@)
}

/// A module being lowered.
pub struct LLVMCodegen {
    operations: Vec<Operation>,
    strings: Vec<Operand>,
    globals: NameMap<Operand>,
    structs: NameMap<usize>,
    layouts: Vec<Vec<LlvmType>>,
    enum_names: NameMap<()>,
    boxed_enum_names: NameMap<()>,
    functions: NameMap<Signature>,
}

impl View for LLVMCodegen {
    type V = Ll;

    closed spec fn view(&self) -> Ll {
        Ll {
            ops: ops_of(self.operations@),
            strings: self.strings@,
            globals: self.globals@,
            structs: self.structs@,
            layouts: layouts_of(self.layouts@),
            enums: self.enum_names@,
            boxed_enums: self.boxed_enum_names@,
            functions: assoc::mapped(self.functions@, |s: Signature| sig_of(s)),
        }
    }
}

/// The values of the function that is being lowered.
pub struct FunctionLocals {
    registers: HashMap<usize, Operand>,
    variables: NameMap<Operand>,
    blocks: NameMap<usize>,
}

impl View for FunctionLocals {
    type V = Loc;

    closed spec fn view(&self) -> Loc {
        Loc {
            registers: self.registers@,
            variables: self.variables@,
            blocks: self.blocks@,
        }
    }
}

impl FunctionLocals {
    /// Nothing is known of the function yet.
    pub fn new() -> (r: Self)
        ensures
            r@ == lowering::no_locals(),
    {
        broadcast use vstd::std_specs::hash::group_hash_axioms;

        FunctionLocals {
            registers: HashMap::new(),
            variables: NameMap::new(),
            blocks: NameMap::new(),
        }
    }

    /// Put a value into a register.
    pub fn store(&mut self, dest: usize, value: Operand)
        ensures
            final(self)@ == (Loc {
                registers: old(self)@.registers.insert(dest, value),
                ..old(self)@
            }),
    {
        broadcast use vstd::std_specs::hash::group_hash_axioms;

        self.registers.insert(dest, value);
    }

    /// The value in a register.
    pub fn load(&self, dest: usize) -> (r: Option<Operand>)
        ensures
            match r {
                Some(v) => self@.registers.dom().contains(dest) && v == self@.registers[dest],
                None => !self@.registers.dom().contains(dest),
            },
    {
        broadcast use vstd::std_specs::hash::group_hash_axioms;

        match self.registers.get(&dest) {
            Some(v) => Some(*v),
            None => None,
        }
    }

    /// The storage of a variable.
    fn variable(&self, name: &str) -> (r: Option<Operand>)
        ensures
            r == assoc::get(self@.variables, name@),
    {
        match self.variables.get(name) {
            Some(v) => Some(*v),
            None => None,
        }
    }

    /// Note the storage of a variable.
    fn add_variable(&mut self, name: &str, p: Operand)
        ensures
            final(self)@ == (Loc {
                variables: assoc::put(old(self)@.variables, name@, p),
                ..old(self)@
            }),
    {
        self.variables.insert(name.to_owned(), p);
    }

    /// A known block.
    fn block(&self, name: &str) -> (r: Option<usize>)
        ensures
            r == assoc::get(self@.blocks, name@),
    {
        match self.blocks.get(name) {
            Some(b) => Some(*b),
            None => None,
        }
    }

    /// Note a block.
    fn add_block(&mut self, name: &str, b: usize)
        ensures
            final(self)@ == (Loc {
                blocks: assoc::put(old(self)@.blocks, name@, b),
                ..old(self)@
            }),
    {
        self.blocks.insert(name.to_owned(), b);
    }

    /// The value in the register that `v` is.
    fn local(&self, v: Value) -> (r: Option<Operand>)
        ensures
            r == lowering::local(self@, v),
    {
        reveal(lowering::local);
        match v {
            Value::Local(n) => self.load(n),
            _ => None,
        }
    }

    /// The pointer in the register that `v` is.
    fn local_pointer(&self, v: Value) -> (r: Option<Operand>)
        ensures
            r == lowering::local_pointer(self@, v),
    {
        reveal(lowering::local_pointer);
        let p = self.local(v)?;
        match p.ty {
            LlvmType::Pointer => Some(p),
            _ => None,
        }
    }

    /// The integer in the register that `v` is.
    fn local_int(&self, v: Value) -> (r: Option<Operand>)
        ensures
            r == lowering::local_int(self@, v),
    {
        reveal(lowering::local_int);
        let p = self.local(v)?;
        match p.ty {
            LlvmType::Int(_) => Some(p),
            _ => None,
        }
    }

    /// The pointer `args[0]`.
    fn pointer_argument(&self, args: &Vec<Value>) -> (r: Option<Operand>)
        ensures
            r == lowering::pointer_argument(self@, args@),
    {
        reveal(lowering::pointer_argument);
        if args.len() > 0 {
            self.local_pointer(args[0])
        } else {
            None
        }
    }
}

/// Whether a type is that of integers.
fn is_int(t: LlvmType) -> (r: bool)
    ensures
        r == (t is Int),
{
    match t {
        LlvmType::Int(_) => true,
        _ => false,
    }
}

/// Whether a type is that of floating-point numbers.
fn is_float(t: LlvmType) -> (r: bool)
    ensures
        r == (t is Float),
{
    match t {
        LlvmType::Float(_) => true,
        _ => false,
    }
}

/// Whether a type is that of pointers.
fn is_pointer(t: LlvmType) -> (r: bool)
    ensures
        r == (t is Pointer),
{
    match t {
        LlvmType::Pointer => true,
        _ => false,
    }
}

/// The LLVM type of integers of `n` bits.
fn int_type(n: usize) -> (r: Option<LlvmType>)
    ensures
        r == lowering::int_type(n),
{
    if n == 8 || n == 16 || n == 32 || n == 64 {
        Some(LlvmType::Int(n as u32))
    } else {
        None
    }
}

/// What lowering something in a function has to do with `t`.
pub open spec fn reaches(t: Option<Low>, r: Option<()>, l: Ll, loc: Loc) -> bool {
    match t {
        Some(s) => r is Some && s.l == l && s.loc == loc,
        None => r is None,
    }
}

/// The same for something with a value.
pub open spec fn yields(t: Option<(Low, Operand)>, r: Option<Operand>, l: Ll, loc: Loc) -> bool {
    match t {
        Some((s, v)) => r == Some(v) && s.l == l && s.loc == loc,
        None => r is None,
    }
}

/// The same for something in a module.
pub open spec fn becomes(t: Option<Ll>, r: Option<()>, l: Ll) -> bool {
    match t {
        Some(after) => r is Some && after == l,
        None => r is None,
    }
}

/// The same for something that cannot fail.
pub open spec fn is_now(s: Low, l: Ll, loc: Loc) -> bool {
    s.l == l && s.loc == loc
}

impl LLVMCodegen {
    /// Add a step. Its position is returned.
    fn step(&mut self, op: Operation) -> (r: usize)
        ensures
            r == old(self)@.ops.len() as usize,
            final(self)@ == lowering::step(old(self)@, op_of(op)),
    {
        let ghost before = self@;
        let id: usize = self.operations.len();
        self.operations.push(op);
        assert(self@.ops =~= before.ops.push(op_of(op)));
        id
    }

    /// Add a step that builds a value.
    fn built(&mut self, op: Operation, ty: LlvmType) -> (r: Operand)
        ensures
            lowering::built(old(self)@, op_of(op), ty) == (final(self)@, r),
    {
        let id = self.step(op);
        Operand { id, ty }
    }

    /// Build a value and put it into a register.
    fn build(&mut self, op: Operation, ty: LlvmType, dest: usize, locals: &mut FunctionLocals)
        ensures
            is_now(
                lowering::build(
                    Low { l: old(self)@, loc: old(locals)@ },
                    op_of(op),
                    ty,
                    dest,
                ),
                final(self)@,
                final(locals)@,
            ),
    {
        let v = self.built(op, ty);
        locals.store(dest, v);
    }

    /// The LLVM type of a type.
    pub fn azula_type_to_llvm_basic_type(&self, t: &AzulaType) -> (r: Option<LlvmType>)
        ensures
            r == lowering::basic_type(self@, types::ty_of(*t)),
    {
        reveal(lowering::basic_type);
        reveal(types::ty_of);
        match t {
            AzulaType::Int => Some(LlvmType::Int(64)),
            AzulaType::SizedSignedInt(n) => int_type(*n),
            AzulaType::SizedUnsignedInt(n) => int_type(*n),
            AzulaType::Str => Some(LlvmType::Pointer),
            AzulaType::Float => Some(LlvmType::Float(64)),
            AzulaType::SizedFloat(n) => if *n == 16 || *n == 32 || *n == 64 {
                Some(LlvmType::Float(*n as u32))
            } else {
                None
            },
            AzulaType::Bool => Some(LlvmType::Int(1)),
            AzulaType::Pointer(_) => Some(LlvmType::Pointer),
            AzulaType::Named(name) => if self.boxed_enum_names.contains_key(name.as_str()) {
                Some(LlvmType::Pointer)
            } else if self.enum_names.contains_key(name.as_str()) {
                Some(LlvmType::Int(64))
            } else {
                match self.structs.get(name.as_str()) {
                    Some(n) => Some(LlvmType::Struct(*n)),
                    None => None,
                }
            },
            AzulaType::Array(..) => Some(LlvmType::Pointer),
            _ => None,
        }
    }

    /// What a function that returns the type returns.
    fn result_type(&self, t: &AzulaType) -> (r: Option<Option<LlvmType>>)
        ensures
            r == lowering::result_type(self@, types::ty_of(*t)),
    {
        reveal(lowering::result_type);
        reveal(types::ty_of);
        match t {
            AzulaType::Void => Some(None),
            _ => {
                let t = self.azula_type_to_llvm_basic_type(t)?;
                Some(Some(t))
            },
        }
    }

    /// The type of a member of a struct.
    fn member_type(&self, n: usize, index: u32) -> (r: Option<LlvmType>)
        ensures
            r == lowering::member_type(self@, n, index),
    {
        reveal(lowering::member_type);
        if n < self.layouts.len() && (index as usize) < self.layouts[n].len() {
            Some(self.layouts[n][index as usize])
        } else {
            None
        }
    }

    /// The number of a struct.
    fn struct_number(&self, name: &str) -> (r: Option<usize>)
        ensures
            r == assoc::get(self@.structs, name@),
    {
        match self.structs.get(name) {
            Some(n) => Some(*n),
            None => None,
        }
    }

    /// The storage of a global.
    fn global_storage(&self, name: &str) -> (r: Option<Operand>)
        ensures
            r == assoc::get(self@.globals, name@),
    {
        match self.globals.get(name) {
            Some(v) => Some(*v),
            None => None,
        }
    }

    /// The function that a name stands for.
    fn function(&self, name: &str) -> (r: Option<Signature>)
        ensures
            match r {
                Some(s) => assoc::get(self@.functions, name@) == Some(sig_of(s)),
                None => assoc::get(self@.functions, name@) is None,
            },
    {
        proof {
            assoc::lemma_mapped_get(self.functions@, |s: Signature| sig_of(s), name@);
        }
        match self.functions.get(name) {
            Some(s) => Some(
                Signature { id: s.id, params: copied(&s.params), result: s.result },
            ),
            None => None,
        }
    }

    /// Bring an integer to the width of the type `target`.
    pub fn coerce_int_width(&mut self, v: Operand, target: LlvmType) -> (r: Operand)
        ensures
            lowering::coerced(old(self)@, v, target) == (final(self)@, r),
    {
        reveal(lowering::coerced);
        reveal(op_of);
        match v.ty {
            LlvmType::Int(src) => match target {
                LlvmType::Int(dst) => if dst > src && src == 1 {
                    self.built(Op::ZeroExtend(v, dst, Label::Extend), target)
                } else if dst > src {
                    self.built(Op::SignExtend(v, dst, Label::Extend), target)
                } else if dst < src {
                    self.built(Op::Truncate(v, dst), target)
                } else {
                    v
                },
                _ => v,
            },
            _ => v,
        }
    }

    /// Sign-extend the narrower of two integers, so that both have the same width.
    pub fn harmonize(&mut self, a: Operand, b: Operand) -> (r: (Operand, Operand))
        ensures
            lowering::harmonized(old(self)@, a, b) == (final(self)@, r.0, r.1),
    {
        reveal(lowering::harmonized);
        reveal(op_of);
        match a.ty {
            LlvmType::Int(x) => match b.ty {
                LlvmType::Int(y) => if x < y {
                    let a = self.built(Op::SignExtend(a, y, Label::Extend), b.ty);
                    (a, b)
                } else if y < x {
                    let b = self.built(Op::SignExtend(b, x, Label::Extend), a.ty);
                    (a, b)
                } else {
                    (a, b)
                },
                _ => (a, b),
            },
            _ => (a, b),
        }
    }

    /// The string constant of number `n`.
    fn string(&self, n: usize) -> (r: Option<Operand>)
        ensures
            r == lowering::string(self@, n),
    {
        reveal(lowering::string);
        if n < self.strings.len() {
            Some(self.strings[n])
        } else {
            None
        }
    }

    /// The value of an operand.
    fn operand(&mut self, v: Value, locals: &FunctionLocals) -> (r: Option<Operand>)
        ensures
            yields(
                lowering::operand(Low { l: old(self)@, loc: locals@ }, v),
                r,
                final(self)@,
                locals@,
            ),
    {
        reveal(lowering::operand);
        reveal(op_of);
        match v {
            Value::Local(_) => locals.local(v),
            Value::LiteralInteger(n) => Some(
                self.built(Op::ConstInt(64, n as u64), LlvmType::Int(64)),
            ),
            Value::LiteralBoolean(b) => {
                let bit: u64 = if b {
                    1
                } else {
                    0
                };
                Some(self.built(Op::ConstInt(1, bit), LlvmType::Int(1)))
            },
            Value::Global(n) => self.string(n),
        }
    }

    /// The values of operands.
    fn operands(&mut self, vs: &Vec<Value>, locals: &FunctionLocals) -> (r: Option<Vec<Operand>>)
        ensures
            match lowering::operands(
                Low { l: old(self)@, loc: locals@ },
                vs@,
                0,
                Seq::empty(),
            ) {
                Some((s, values)) => r is Some && r->0@ == values && s.l == final(self)@ && s.loc
                    == locals@,
                None => r is None,
            },
    {
        reveal(lowering::operands);
        let mut values: Vec<Operand> = Vec::new();
        assert(values@ =~= Seq::<Operand>::empty());
        let mut k: usize = 0;
        while k < vs.len()
            invariant
                k <= vs@.len(),
                lowering::operands(Low { l: old(self)@, loc: locals@ }, vs@, 0, Seq::empty())
                    == lowering::operands(
                    Low { l: self@, loc: locals@ },
                    vs@,
                    k as int,
                    values@,
                ),
            decreases vs@.len() - k,
        {
            reveal(lowering::operands);
            let v = self.operand(vs[k], locals)?;
            values.push(v);
            k += 1;
        }
        Some(values)
    }

    /// The storage of a variable. One that was not declared is allocated.
    fn variable(&mut self, name: &str, ty: LlvmType, locals: &mut FunctionLocals) -> (r: Operand)
        ensures
            lowering::variable(Low { l: old(self)@, loc: old(locals)@ }, name@, ty) == (
                Low { l: final(self)@, loc: final(locals)@ },
                r,
            ),
    {
        reveal(lowering::variable);
        reveal(op_of);
        if let Some(p) = locals.variable(name) {
            return p;
        }
        let p = self.built(Op::Alloca(ty), LlvmType::Pointer);
        locals.add_variable(name, p);
        p
    }

    /// The block `name` of a function. One that is not known is added.
    fn block(&mut self, function: usize, name: &str, locals: &mut FunctionLocals) -> (r: usize)
        ensures
            lowering::block(Low { l: old(self)@, loc: old(locals)@ }, function, name@) == (
                Low { l: final(self)@, loc: final(locals)@ },
                r,
            ),
    {
        reveal(lowering::block);
        reveal(op_of);
        if let Some(b) = locals.block(name) {
            return b;
        }
        let b = self.step(Op::AppendBlock(function, name.to_owned()));
        locals.add_block(name, b);
        b
    }

    /// Arithmetic on two integers or two floating-point numbers.
    fn arithmetic(
        &mut self,
        i: IntOp,
        f: FloatOp,
        a: Value,
        b: Value,
        dest: usize,
        locals: &mut FunctionLocals,
    ) -> (r: Option<()>)
        ensures
            reaches(
                lowering::arithmetic(
                    Low { l: old(self)@, loc: old(locals)@ },
                    i,
                    f,
                    a,
                    b,
                    dest,
                ),
                r,
                final(self)@,
                final(locals)@,
            ),
    {
        reveal(lowering::arithmetic);
        reveal(op_of);
        let x = locals.local(a)?;
        let y = locals.local(b)?;
        let (x, y) = self.harmonize(x, y);
        match x.ty {
            LlvmType::Float(_) => if is_float(y.ty) {
                self.build(Op::Float(f, x, y), x.ty, dest, locals);
                Some(())
            } else {
                None
            },
            LlvmType::Int(_) => if is_int(y.ty) {
                self.build(Op::Int(i, x, y), x.ty, dest, locals);
                Some(())
            } else {
                None
            },
            _ => None,
        }
    }

    /// A comparison.
    fn comparison(&mut self, p: Predicate, a: Value, b: Value, dest: usize, locals: &mut FunctionLocals) -> (r:
        Option<()>)
        ensures
            reaches(
                lowering::comparison(Low { l: old(self)@, loc: old(locals)@ }, p, a, b, dest),
                r,
                final(self)@,
                final(locals)@,
            ),
    {
        reveal(lowering::comparison);
        reveal(op_of);
        let x = locals.local(a)?;
        let y = locals.local(b)?;
        let (x, y) = self.harmonize(x, y);
        match x.ty {
            LlvmType::Float(_) => if is_float(y.ty) {
                self.build(Op::FloatCompare(p, x, y), LlvmType::Int(1), dest, locals);
                Some(())
            } else {
                None
            },
            LlvmType::Int(_) => if is_int(y.ty) {
                self.build(Op::IntCompare(p, x, y), LlvmType::Int(1), dest, locals);
                Some(())
            } else {
                None
            },
            LlvmType::Pointer => if is_pointer(y.ty) && (p == Predicate::Eq || p
                == Predicate::Neq) {
                let x = self.built(Op::PointerToInt(x, 64), LlvmType::Int(64));
                let y = self.built(Op::PointerToInt(y, 64), LlvmType::Int(64));
                self.build(Op::IntCompare(p, x, y), LlvmType::Int(1), dest, locals);
                Some(())
            } else {
                None
            },
            _ => None,
        }
    }

    /// An operation on the bits of two integers.
    fn bitwise(
        &mut self,
        op: IntOp,
        harmonize: bool,
        a: Value,
        b: Value,
        dest: usize,
        locals: &mut FunctionLocals,
    ) -> (r: Option<()>)
        ensures
            reaches(
                lowering::bitwise(
                    Low { l: old(self)@, loc: old(locals)@ },
                    op,
                    harmonize,
                    a,
                    b,
                    dest,
                ),
                r,
                final(self)@,
                final(locals)@,
            ),
    {
        reveal(lowering::bitwise);
        reveal(op_of);
        let x = locals.local(a)?;
        let y = locals.local(b)?;
        let (x, y) = if harmonize {
            self.harmonize(x, y)
        } else {
            (x, y)
        };
        if is_int(x.ty) && is_int(y.ty) {
            self.build(Op::Int(op, x, y), x.ty, dest, locals);
            Some(())
        } else {
            None
        }
    }

    /// A power.
    fn power(&mut self, a: Value, b: Value, dest: usize, locals: &mut FunctionLocals) -> (r: Option<()>)
        ensures
            reaches(
                lowering::power(Low { l: old(self)@, loc: old(locals)@ }, a, b, dest),
                r,
                final(self)@,
                final(locals)@,
            ),
    {
        reveal(lowering::power);
        reveal(op_of);
        let x = locals.local(a)?;
        let y = locals.local(b)?;
        let (x, y) = self.harmonize(x, y);
        let sig = self.function("pow")?;
        let t = sig.result?;
        let mut args: Vec<Operand> = Vec::new();
        args.push(x);
        args.push(y);
        assert(args@ =~= seq![x, y]);
        self.build(Op::Call(sig.id, args, Label::Power), t, dest, locals);
        Some(())
    }

    /// Read a variable.
    fn load(&mut self, name: &str, dest: usize, t: &AzulaType, locals: &mut FunctionLocals) -> (r: Option<
        (),
    >)
        ensures
            reaches(
                lowering::load(
                    Low { l: old(self)@, loc: old(locals)@ },
                    name@,
                    dest,
                    types::ty_of(*t),
                ),
                r,
                final(self)@,
                final(locals)@,
            ),
    {
        reveal(lowering::load);
        reveal(op_of);
        let p = locals.variable(name)?;
        let ty = self.azula_type_to_llvm_basic_type(t)?;
        self.build(Op::Load(ty, p, Label::Load), ty, dest, locals);
        Some(())
    }

    /// Read a global.
    fn load_global(&mut self, name: &str, dest: usize, t: &AzulaType, locals: &mut FunctionLocals) -> (r:
        Option<()>)
        ensures
            reaches(
                lowering::load_global(
                    Low { l: old(self)@, loc: old(locals)@ },
                    name@,
                    dest,
                    types::ty_of(*t),
                ),
                r,
                final(self)@,
                final(locals)@,
            ),
    {
        reveal(lowering::load_global);
        reveal(op_of);
        let p = self.global_storage(name)?;
        let ty = self.azula_type_to_llvm_basic_type(t)?;
        self.build(Op::Load(ty, p, Label::Load), ty, dest, locals);
        Some(())
    }

    /// Read an argument.
    fn load_arg(&mut self, sig: &Signature, arg: usize, dest: usize, locals: &mut FunctionLocals) -> (r:
        Option<()>)
        ensures
            reaches(
                lowering::load_arg(
                    Low { l: old(self)@, loc: old(locals)@ },
                    sig_of(*sig),
                    arg,
                    dest,
                ),
                r,
                final(self)@,
                final(locals)@,
            ),
    {
        reveal(lowering::load_arg);
        reveal(op_of);
        if arg < sig.params.len() {
            self.build(Op::Param(sig.id, arg), sig.params[arg], dest, locals);
            Some(())
        } else {
            None
        }
    }

    /// Write a variable.
    fn store(&mut self, name: &str, v: Value, t: &AzulaType, locals: &mut FunctionLocals) -> (r: Option<
        (),
    >)
        ensures
            reaches(
                lowering::store(
                    Low { l: old(self)@, loc: old(locals)@ },
                    name@,
                    v,
                    types::ty_of(*t),
                ),
                r,
                final(self)@,
                final(locals)@,
            ),
    {
        reveal(lowering::store);
        reveal(op_of);
        if let Value::Global(n) = v {
            return self.store_string(name, n, t, locals);
        }
        let value = self.operand(v, locals)?;
        let ty = self.azula_type_to_llvm_basic_type(t)?;
        let value = self.coerce_int_width(value, ty);
        let p = self.variable(name, ty, locals);
        self.step(Op::Store(p, value));
        Some(())
    }

    /// Write a string constant to a variable.
    fn store_string(&mut self, name: &str, n: usize, t: &AzulaType, locals: &mut FunctionLocals) -> (r:
        Option<()>)
        ensures
            reaches(
                lowering::store_string(
                    Low { l: old(self)@, loc: old(locals)@ },
                    name@,
                    n,
                    types::ty_of(*t),
                ),
                r,
                final(self)@,
                final(locals)@,
            ),
    {
        reveal(lowering::store_string);
        reveal(op_of);
        let value = self.string(n)?;
        if let Some(p) = locals.variable(name) {
            self.step(Op::Store(p, value));
            return Some(());
        }
        let ty = self.azula_type_to_llvm_basic_type(t)?;
        let p = self.variable(name, ty, locals);
        self.step(Op::Store(p, value));
        Some(())
    }

    /// The end of a function.
    fn ret(&mut self, sig: &Signature, v: Option<Value>, locals: &FunctionLocals) -> (r: Option<()>)
        ensures
            reaches(
                lowering::ret(Low { l: old(self)@, loc: locals@ }, sig_of(*sig), v),
                r,
                final(self)@,
                locals@,
            ),
    {
        reveal(lowering::ret);
        reveal(op_of);
        match v {
            None => {
                match sig.result {
                    Some(LlvmType::Int(n)) => {
                        let zero = self.built(Op::ConstInt(n, 0), LlvmType::Int(n));
                        self.step(Op::Return(Some(zero)));
                    },
                    _ => {
                        self.step(Op::Return(None));
                    },
                }
                Some(())
            },
            Some(Value::Local(n)) => {
                let value = locals.local(Value::Local(n))?;
                let value = match sig.result {
                    Some(t) => self.coerce_int_width(value, t),
                    None => value,
                };
                self.step(Op::Return(Some(value)));
                Some(())
            },
            Some(Value::Global(n)) => {
                let value = self.string(n)?;
                self.step(Op::Return(Some(value)));
                Some(())
            },
            _ => None,
        }
    }

    /// Bring an argument to what a callee expects.
    fn argument(&mut self, v: Operand, param: Option<LlvmType>) -> (r: Operand)
        ensures
            lowering::argument(old(self)@, v, param) == (final(self)@, r),
    {
        reveal(lowering::argument);
        reveal(op_of);
        match param {
            Some(t) => self.coerce_int_width(v, t),
            None => match v.ty {
                LlvmType::Int(n) => if n == 1 {
                    self.built(Op::ZeroExtend(v, 32, Label::Promote), LlvmType::Int(32))
                } else if n < 32 {
                    self.built(Op::SignExtend(v, 32, Label::Promote), LlvmType::Int(32))
                } else {
                    v
                },
                LlvmType::Float(n) => if n != 64 {
                    self.built(Op::FloatExtend(v), LlvmType::Float(64))
                } else {
                    v
                },
                _ => v,
            },
        }
    }

    /// Bring arguments to what a callee expects.
    fn arguments(&mut self, vs: &Vec<Operand>, params: &Vec<LlvmType>) -> (r: Vec<Operand>)
        ensures
            lowering::arguments(old(self)@, vs@, params@, 0, Seq::empty()) == (final(self)@, r@),
    {
        reveal(lowering::arguments);
        let mut done: Vec<Operand> = Vec::new();
        assert(done@ =~= Seq::<Operand>::empty());
        let mut k: usize = 0;
        while k < vs.len()
            invariant
                k <= vs@.len(),
                lowering::arguments(old(self)@, vs@, params@, 0, Seq::empty())
                    == lowering::arguments(self@, vs@, params@, k as int, done@),
            decreases vs@.len() - k,
        {
            reveal(lowering::arguments);
            let param = if k < params.len() {
                Some(params[k])
            } else {
                None
            };
            let v = self.argument(vs[k], param);
            done.push(v);
            k += 1;
        }
        done
    }

    /// A call of a declared function.
    fn function_call(&mut self, name: &str, args: &Vec<Value>, dest: usize, locals: &mut FunctionLocals) -> (r:
        Option<()>)
        ensures
            reaches(
                lowering::function_call(
                    Low { l: old(self)@, loc: old(locals)@ },
                    name@,
                    args@,
                    dest,
                ),
                r,
                final(self)@,
                final(locals)@,
            ),
    {
        reveal(lowering::function_call);
        reveal(op_of);
        let values = self.operands(args, locals)?;
        let sig = self.function(name)?;
        let values = self.arguments(&values, &sig.params);
        let op = Op::Call(sig.id, values, Label::Call);
        match sig.result {
            Some(t) => {
                self.build(op, t, dest, locals);
            },
            None => {
                self.step(op);
            },
        }
        Some(())
    }

    /// A pointer moved by a number of bytes.
    fn pointer_add(&mut self, args: &Vec<Value>, dest: usize, locals: &mut FunctionLocals) -> (r: Option<()>)
        ensures
            reaches(
                lowering::pointer_add(Low { l: old(self)@, loc: old(locals)@ }, args@, dest),
                r,
                final(self)@,
                final(locals)@,
            ),
    {
        reveal(lowering::pointer_add);
        reveal(op_of);
        let p = locals.pointer_argument(args)?;
        if args.len() < 2 {
            return None;
        }
        let offset = locals.local_int(args[1])?;
        self.build(
            Op::Gep(LlvmType::Int(8), p, offset, Label::PtrAdd),
            LlvmType::Pointer,
            dest,
            locals,
        );
        Some(())
    }

    /// A read through a pointer.
    fn pointer_read(
        &mut self,
        args: &Vec<Value>,
        ty: LlvmType,
        label: Label,
        dest: usize,
        locals: &mut FunctionLocals,
    ) -> (r: Option<()>)
        ensures
            reaches(
                lowering::pointer_read(
                    Low { l: old(self)@, loc: old(locals)@ },
                    args@,
                    ty,
                    label,
                    dest,
                ),
                r,
                final(self)@,
                final(locals)@,
            ),
    {
        reveal(lowering::pointer_read);
        reveal(op_of);
        let p = locals.pointer_argument(args)?;
        self.build(Op::Load(ty, p, label), ty, dest, locals);
        Some(())
    }

    /// A write through a pointer.
    fn pointer_write(&mut self, args: &Vec<Value>, of_int: bool, locals: &FunctionLocals) -> (r: Option<
        (),
    >)
        ensures
            reaches(
                lowering::pointer_write(Low { l: old(self)@, loc: locals@ }, args@, of_int),
                r,
                final(self)@,
                locals@,
            ),
    {
        reveal(lowering::pointer_write);
        reveal(op_of);
        let p = locals.pointer_argument(args)?;
        if args.len() < 2 {
            return None;
        }
        let v = if of_int {
            locals.local_int(args[1])?
        } else {
            locals.local_pointer(args[1])?
        };
        self.step(Op::Store(p, v));
        Some(())
    }

    /// A call. A few names stand for instructions.
    fn call(&mut self, name: &str, args: &Vec<Value>, dest: usize, locals: &mut FunctionLocals) -> (r: Option<
        (),
    >)
        ensures
            reaches(
                lowering::call(Low { l: old(self)@, loc: old(locals)@ }, name@, args@, dest),
                r,
                final(self)@,
                final(locals)@,
            ),
    {
        reveal(lowering::call);
        if same(name, "ptr_add") {
            self.pointer_add(args, dest, locals)
        } else if same(name, "ptr_read_int") {
            self.pointer_read(args, LlvmType::Int(64), Label::PtrReadInt, dest, locals)
        } else if same(name, "ptr_write_int") {
            self.pointer_write(args, true, locals)
        } else if same(name, "ptr_read_str") {
            self.pointer_read(args, LlvmType::Pointer, Label::PtrReadStr, dest, locals)
        } else if same(name, "ptr_write_str") {
            self.pointer_write(args, false, locals)
        } else {
            self.function_call(name, args, dest, locals)
        }
    }

    /// A branch to one of two blocks.
    fn cond_branch(&mut self, function: usize, cond: Value, yes: &str, no: &str, locals: &mut FunctionLocals) -> (r:
        Option<()>)
        ensures
            reaches(
                lowering::cond_branch(
                    Low { l: old(self)@, loc: old(locals)@ },
                    function,
                    cond,
                    yes@,
                    no@,
                ),
                r,
                final(self)@,
                final(locals)@,
            ),
    {
        reveal(lowering::cond_branch);
        reveal(op_of);
        let c = locals.local_int(cond)?;
        let yes = self.block(function, yes, locals);
        let no = self.block(function, no, locals);
        self.step(Op::CondBranch(c, yes, no));
        Some(())
    }

    /// A branch.
    fn branch(&mut self, function: usize, target: &str, locals: &mut FunctionLocals)
        ensures
            is_now(
                lowering::branch(Low { l: old(self)@, loc: old(locals)@ }, function, target@),
                final(self)@,
                final(locals)@,
            ),
    {
        reveal(lowering::branch);
        reveal(op_of);
        let known = locals.blocks.contains_key(target);
        let b = self.block(function, target, locals);
        self.step(Op::Branch(b));
        if !known {
            self.step(Op::Position(b));
        }
    }

    /// The address of an element, and the element's type.
    fn element(
        &mut self,
        array: Value,
        index: Value,
        t: &AzulaType,
        label: Label,
        locals: &FunctionLocals,
    ) -> (r: Option<(Operand, LlvmType)>)
        ensures
            match lowering::element(
                Low { l: old(self)@, loc: locals@ },
                array,
                index,
                types::ty_of(*t),
                label,
            ) {
                Some((l, e, ty)) => r == Some((e, ty)) && l == final(self)@,
                None => r is None,
            },
    {
        reveal(lowering::element);
        reveal(op_of);
        let p = locals.local_pointer(array)?;
        let i = locals.local_int(index)?;
        let ty = self.azula_type_to_llvm_basic_type(t)?;
        let e = self.built(Op::Gep(ty, p, i, label), LlvmType::Pointer);
        Some((e, ty))
    }

    /// Write an element.
    fn store_element(
        &mut self,
        array: Value,
        index: Value,
        v: Value,
        t: &AzulaType,
        locals: &FunctionLocals,
    ) -> (r: Option<()>)
        ensures
            reaches(
                lowering::store_element(
                    Low { l: old(self)@, loc: locals@ },
                    array,
                    index,
                    v,
                    types::ty_of(*t),
                ),
                r,
                final(self)@,
                locals@,
            ),
    {
        reveal(lowering::store_element);
        reveal(op_of);
        let p = locals.local_pointer(array)?;
        let i = locals.local_int(index)?;
        let v = self.operand(v, locals)?;
        let ty = self.azula_type_to_llvm_basic_type(t)?;
        let v = self.coerce_int_width(v, ty);
        let e = self.built(Op::Gep(ty, p, i, Label::Gep), LlvmType::Pointer);
        self.step(Op::Store(e, v));
        Some(())
    }

    /// Write a member.
    fn store_member(
        &mut self,
        struc: Value,
        index: usize,
        v: Value,
        name: &str,
        locals: &mut FunctionLocals,
    ) -> (r: Option<()>)
        ensures
            reaches(
                lowering::store_member(
                    Low { l: old(self)@, loc: old(locals)@ },
                    struc,
                    index,
                    v,
                    name@,
                ),
                r,
                final(self)@,
                final(locals)@,
            ),
    {
        reveal(lowering::store_member);
        reveal(op_of);
        let v = self.operand(v, locals)?;
        let object = locals.local(struc)?;
        match object.ty {
            LlvmType::Struct(n) => {
                if self.member_type(n, index as u32).is_none() {
                    return None;
                }
                match struc {
                    Value::Local(r) => {
                        self.build(
                            Op::InsertValue(object, v, index as u32, Label::Member),
                            object.ty,
                            r,
                            locals,
                        );
                        Some(())
                    },
                    _ => None,
                }
            },
            LlvmType::Pointer => {
                let n = self.struct_number(name)?;
                let ty = self.member_type(n, index as u32)?;
                let v = self.coerce_int_width(v, ty);
                let p = self.built(Op::StructGep(n, object, index as u32), LlvmType::Pointer);
                self.step(Op::Store(p, v));
                Some(())
            },
            _ => Some(()),
        }
    }

    /// Set the members of a struct.
    fn inserted(&mut self, n: usize, object: Operand, vs: &Vec<Operand>) -> (r: Option<Operand>)
        ensures
            match lowering::inserted(old(self)@, n, object, vs@, 0) {
                Some((l, v)) => r == Some(v) && l == final(self)@,
                None => r is None,
            },
    {
        reveal(lowering::inserted);
        reveal(op_of);
        let mut now = object;
        let mut k: usize = 0;
        while k < vs.len()
            invariant
                k <= vs@.len(),
                lowering::inserted(old(self)@, n, object, vs@, 0) == lowering::inserted(
                    self@,
                    n,
                    now,
                    vs@,
                    k as int,
                ),
            decreases vs@.len() - k,
        {
            reveal(lowering::inserted);
            reveal(op_of);
            let ty = self.member_type(n, k as u32)?;
            let v = self.coerce_int_width(vs[k], ty);
            now = self.built(
                Op::InsertValue(now, v, k as u32, Label::Insert),
                LlvmType::Struct(n),
            );
            k += 1;
        }
        Some(now)
    }

    /// Make a struct.
    fn create_struct(&mut self, name: &str, vs: &Vec<Value>, dest: usize, locals: &mut FunctionLocals) -> (r:
        Option<()>)
        ensures
            reaches(
                lowering::create_struct(
                    Low { l: old(self)@, loc: old(locals)@ },
                    name@,
                    vs@,
                    dest,
                ),
                r,
                final(self)@,
                final(locals)@,
            ),
    {
        reveal(lowering::create_struct);
        reveal(op_of);
        let n = self.struct_number(name)?;
        let values = self.operands(vs, locals)?;
        let object = self.built(Op::ConstStruct(n), LlvmType::Struct(n));
        let object = self.inserted(n, object, &values)?;
        locals.store(dest, object);
        Some(())
    }

    /// Read a member.
    fn access_member(
        &mut self,
        struc: Value,
        index: usize,
        dest: usize,
        resolve: bool,
        name: &str,
        locals: &mut FunctionLocals,
    ) -> (r: Option<()>)
        ensures
            reaches(
                lowering::access_member(
                    Low { l: old(self)@, loc: old(locals)@ },
                    struc,
                    index,
                    dest,
                    resolve,
                    name@,
                ),
                r,
                final(self)@,
                final(locals)@,
            ),
    {
        reveal(lowering::access_member);
        reveal(op_of);
        let object = locals.local(struc)?;
        match object.ty {
            LlvmType::Struct(n) => {
                let ty = self.member_type(n, index as u32)?;
                self.build(Op::ExtractValue(object, index as u32), ty, dest, locals);
                Some(())
            },
            LlvmType::Pointer => {
                let n = self.struct_number(name)?;
                let ty = self.member_type(n, index as u32)?;
                let p = self.built(Op::StructGep(n, object, index as u32), LlvmType::Pointer);
                if resolve {
                    self.build(Op::Load(ty, p, Label::Load), ty, dest, locals);
                } else {
                    locals.store(dest, p);
                }
                Some(())
            },
            _ => Some(()),
        }
    }

    /// A conversion.
    fn cast(&mut self, v: Value, t: &AzulaType, dest: usize, locals: &mut FunctionLocals) -> (r: Option<()>)
        ensures
            reaches(
                lowering::cast(
                    Low { l: old(self)@, loc: old(locals)@ },
                    v,
                    types::ty_of(*t),
                    dest,
                ),
                r,
                final(self)@,
                final(locals)@,
            ),
    {
        reveal(lowering::cast);
        reveal(op_of);
        let v = locals.local(v)?;
        let ty = self.azula_type_to_llvm_basic_type(t)?;
        let result = match v.ty {
            LlvmType::Int(_) => match ty {
                LlvmType::Int(_) => self.coerce_int_width(v, ty),
                LlvmType::Float(n) => self.built(Op::IntToFloat(v, n), ty),
                LlvmType::Pointer => self.built(Op::IntToPointer(v), ty),
                _ => v,
            },
            LlvmType::Float(_) => match ty {
                LlvmType::Int(n) => self.built(Op::FloatToInt(v, n), ty),
                _ => v,
            },
            LlvmType::Pointer => match ty {
                LlvmType::Int(n) => self.built(Op::PointerToInt(v, n), ty),
                _ => v,
            },
            _ => v,
        };
        locals.store(dest, result);
        Some(())
    }

    /// The array of `size` elements, on the heap.
    fn create_array(&mut self, t: &AzulaType, size: usize, dest: usize, locals: &mut FunctionLocals) -> (r:
        Option<()>)
        ensures
            reaches(
                lowering::create_array(
                    Low { l: old(self)@, loc: old(locals)@ },
                    types::ty_of(*t),
                    size,
                    dest,
                ),
                r,
                final(self)@,
                final(locals)@,
            ),
    {
        reveal(lowering::create_array);
        reveal(op_of);
        let ty = self.azula_type_to_llvm_basic_type(t)?;
        let n = self.built(Op::ConstInt(32, size as u64), LlvmType::Int(32));
        self.build(Op::ArrayMalloc(ty, n), LlvmType::Pointer, dest, locals);
        Some(())
    }
}

/// A copy of a list of types.
fn copied(ts: &Vec<LlvmType>) -> (r: Vec<LlvmType>)
    ensures
        r@ == ts@,
{
    let mut r: Vec<LlvmType> = Vec::new();
    let mut i: usize = 0;
    while i < ts.len()
        invariant
            i <= ts@.len(),
            r@ == ts@.take(i as int),
        decreases ts@.len() - i,
    {
        r.push(ts[i]);
        i += 1;
        assert(r@ =~= ts@.take(i as int));
    }
    assert(r@ =~= ts@);
    r
}

impl LLVMCodegen {
    /// Lower an instruction of the function that `func` declares.
    pub fn codegen_instruction(
        &mut self,
        instruction: &Instruction,
        func: &Signature,
        locals: &mut FunctionLocals,
    ) -> (r: Option<()>)
        ensures
            reaches(
                lowering::instruction(
                    Low { l: old(self)@, loc: old(locals)@ },
                    sig_of(*func),
                    ir::inst_of(*instruction),
                ),
                r,
                final(self)@,
                final(locals)@,
            ),
    {
        reveal(lowering::instruction);
        reveal(op_of);
        match instruction {
            Instruction::Load(name, dest, t) => self.load(name.as_str(), *dest, t, locals),
            Instruction::LoadGlobal(name, dest, t) => self.load_global(
                name.as_str(),
                *dest,
                t,
                locals,
            ),
            Instruction::LoadArg(arg, dest, _) => self.load_arg(func, *arg, *dest, locals),
            Instruction::Store(name, v, t) => self.store(name.as_str(), *v, t, locals),
            Instruction::ConstInt(v, dest) => {
                self.build(Op::ConstInt(64, *v as u64), LlvmType::Int(64), *dest, locals);
                Some(())
            },
            Instruction::ConstFloat(v, dest) => {
                self.build(Op::ConstFloat(*v), LlvmType::Float(64), *dest, locals);
                Some(())
            },
            Instruction::ConstTrue(dest) => {
                self.build(Op::ConstInt(1, 1), LlvmType::Int(1), *dest, locals);
                Some(())
            },
            Instruction::ConstFalse(dest) => {
                self.build(Op::ConstInt(1, 0), LlvmType::Int(1), *dest, locals);
                Some(())
            },
            Instruction::ConstNull(dest) => {
                self.build(Op::ConstNull, LlvmType::Pointer, *dest, locals);
                Some(())
            },
            Instruction::Add(a, b, dest) => self.arithmetic(
                IntOp::Add,
                FloatOp::Add,
                *a,
                *b,
                *dest,
                locals,
            ),
            Instruction::Sub(a, b, dest) => self.arithmetic(
                IntOp::Sub,
                FloatOp::Sub,
                *a,
                *b,
                *dest,
                locals,
            ),
            Instruction::Mul(a, b, dest) => self.arithmetic(
                IntOp::Mul,
                FloatOp::Mul,
                *a,
                *b,
                *dest,
                locals,
            ),
            Instruction::Div(a, b, dest) => self.arithmetic(
                IntOp::Div,
                FloatOp::Div,
                *a,
                *b,
                *dest,
                locals,
            ),
            Instruction::Mod(a, b, dest) => self.arithmetic(
                IntOp::Rem,
                FloatOp::Rem,
                *a,
                *b,
                *dest,
                locals,
            ),
            Instruction::Pow(a, b, dest) => self.power(*a, *b, *dest, locals),
            Instruction::Or(a, b, dest) => self.bitwise(IntOp::Or, false, *a, *b, *dest, locals),
            Instruction::And(a, b, dest) => self.bitwise(
                IntOp::And,
                false,
                *a,
                *b,
                *dest,
                locals,
            ),
            Instruction::Eq(a, b, dest) => self.comparison(
                Predicate::Eq,
                *a,
                *b,
                *dest,
                locals,
            ),
            Instruction::Neq(a, b, dest) => self.comparison(
                Predicate::Neq,
                *a,
                *b,
                *dest,
                locals,
            ),
            Instruction::Lt(a, b, dest) => self.comparison(
                Predicate::Lt,
                *a,
                *b,
                *dest,
                locals,
            ),
            Instruction::Lte(a, b, dest) => self.comparison(
                Predicate::Lte,
                *a,
                *b,
                *dest,
                locals,
            ),
            Instruction::Gt(a, b, dest) => self.comparison(
                Predicate::Gt,
                *a,
                *b,
                *dest,
                locals,
            ),
            Instruction::Gte(a, b, dest) => self.comparison(
                Predicate::Gte,
                *a,
                *b,
                *dest,
                locals,
            ),
            Instruction::BitAnd(a, b, dest) => self.bitwise(
                IntOp::And,
                true,
                *a,
                *b,
                *dest,
                locals,
            ),
            Instruction::BitOr(a, b, dest) => self.bitwise(
                IntOp::Or,
                true,
                *a,
                *b,
                *dest,
                locals,
            ),
            Instruction::BitXor(a, b, dest) => self.bitwise(
                IntOp::Xor,
                true,
                *a,
                *b,
                *dest,
                locals,
            ),
            Instruction::Shl(a, b, dest) => self.bitwise(
                IntOp::Shl,
                true,
                *a,
                *b,
                *dest,
                locals,
            ),
            Instruction::Shr(a, b, dest) => self.bitwise(
                IntOp::Shr,
                true,
                *a,
                *b,
                *dest,
                locals,
            ),
            Instruction::Not(v, dest) => {
                let v = locals.local_int(*v)?;
                self.build(Op::Not(v), v.ty, *dest, locals);
                Some(())
            },
            Instruction::Return(v) => self.ret(func, *v, locals),
            Instruction::Unreachable => {
                self.step(Op::Unreachable);
                Some(())
            },
            Instruction::FunctionCall(name, args, dest) => self.call(
                name.as_str(),
                args,
                *dest,
                locals,
            ),
            Instruction::Jump(target) => {
                self.branch(func.id, target.as_str(), locals);
                Some(())
            },
            Instruction::Jcond(cond, yes, no) => self.cond_branch(
                func.id,
                *cond,
                yes.as_str(),
                no.as_str(),
                locals,
            ),
            Instruction::SizeOf(t, dest) => {
                let ty = self.azula_type_to_llvm_basic_type(t)?;
                self.build(Op::SizeOf(ty), LlvmType::Int(64), *dest, locals);
                Some(())
            },
            Instruction::ElementPtr(array, index, dest, t) => {
                let (e, _) = self.element(*array, *index, t, Label::ElementPtr, locals)?;
                locals.store(*dest, e);
                Some(())
            },
            Instruction::Pointer(name, dest) => {
                let p = locals.variable(name.as_str())?;
                locals.store(*dest, p);
                Some(())
            },
            Instruction::CreateArray(t, size, dest) => self.create_array(t, *size, *dest, locals),
            Instruction::StoreElement(array, index, v, t) => self.store_element(
                *array,
                *index,
                *v,
                t,
                locals,
            ),
            Instruction::AccessElement(array, index, dest, t) => {
                let (e, ty) = self.element(*array, *index, t, Label::Gep, locals)?;
                self.build(Op::Load(ty, e, Label::Load), ty, *dest, locals);
                Some(())
            },
            Instruction::StoreStructMember(struc, index, v, name) => self.store_member(
                *struc,
                *index,
                *v,
                name.as_str(),
                locals,
            ),
            Instruction::CreateStruct(name, vs, dest) => self.create_struct(
                name.as_str(),
                vs,
                *dest,
                locals,
            ),
            Instruction::AccessStructMember(struc, index, dest, resolve, name) => {
                self.access_member(*struc, *index, *dest, *resolve, name.as_str(), locals)
            },
            Instruction::Cast(v, t, dest) => self.cast(*v, t, *dest, locals),
            _ => None,
        }
    }

    /// Lower the instructions of a block.
    fn instructions(&mut self, block: &Block, func: &Signature, locals: &mut FunctionLocals) -> (r: Option<
        (),
    >)
        ensures
            reaches(
                lowering::instructions(
                    Low { l: old(self)@, loc: old(locals)@ },
                    sig_of(*func),
                    ir::insts_of(block.instructions@),
                    0,
                ),
                r,
                final(self)@,
                final(locals)@,
            ),
    {
        reveal(lowering::instructions);
        let ghost all = ir::insts_of(block.instructions@);
        let mut k: usize = 0;
        while k < block.instructions.len()
            invariant
                k <= all.len(),
                all == ir::insts_of(block.instructions@),
                lowering::instructions(
                    Low { l: old(self)@, loc: old(locals)@ },
                    sig_of(*func),
                    all,
                    0,
                ) == lowering::instructions(
                    Low { l: self@, loc: locals@ },
                    sig_of(*func),
                    all,
                    k as int,
                ),
            decreases all.len() - k,
        {
            reveal(lowering::instructions);
            self.codegen_instruction(&block.instructions[k], func, locals)?;
            k += 1;
        }
        Some(())
    }

    /// Declare the structs and give them their members.
    fn generate_structs(&mut self, module: &Module) -> (r: Option<()>)
        requires
            old(self)@.layouts.len() == 0,
        ensures
            becomes(
                lowering::structs_filled(
                    lowering::structs_declared(old(self)@, module@.structs, 0),
                    module@.structs,
                    0,
                ),
                r,
                final(self)@,
            ),
    {
        reveal(lowering::structs_declared);
        reveal(lowering::structs_filled);
        reveal(ir::mod_of);
        let ghost all = module@.structs;
        let mut k: usize = 0;
        while k < module.structs.len()
            invariant
                k <= all.len(),
                all == module@.structs,
                all.len() == module.structs@.len(),
                self@.layouts.len() == k,
                lowering::structs_declared(old(self)@, all, 0) == lowering::structs_declared(
                    self@,
                    all,
                    k as int,
                ),
            decreases all.len() - k,
        {
            reveal(lowering::structs_declared);
            reveal(ir::mod_of);
            reveal(op_of);
            let ghost before = self@;
            let name = module.structs.name_at(k);
            self.structs.insert(name.to_owned(), k);
            self.layouts.push(Vec::new());
            assert(self@.layouts =~= before.layouts.push(Seq::empty()));
            self.step(Op::OpaqueStruct(name.to_owned()));
            k += 1;
        }
        let mut k: usize = 0;
        while k < module.structs.len()
            invariant
                k <= all.len(),
                all == module@.structs,
                all.len() == module.structs@.len(),
                self@.layouts.len() == all.len(),
                lowering::structs_filled(
                    lowering::structs_declared(old(self)@, all, 0),
                    all,
                    0,
                ) == lowering::structs_filled(self@, all, k as int),
            decreases all.len() - k,
        {
            reveal(lowering::structs_filled);
            reveal(ir::mod_of);
            reveal(op_of);
            let ghost before = self@;
            let types = self.attribute_types(module.structs.value_at(k))?;
            self.layouts.set(k, copied(&types));
            assert(self@.layouts =~= before.layouts.update(k as int, types@));
            self.step(Op::SetBody(k, types));
            k += 1;
        }
        Some(())
    }

    /// The LLVM types of the members of a struct.
    fn attribute_types(&self, s: &Struct) -> (r: Option<Vec<LlvmType>>)
        ensures
            match lowering::basic_types(
                self@,
                lowering::attribute_types(ir::struct_of(*s)),
                0,
                Seq::empty(),
            ) {
                Some(types) => r is Some && r->0@ == types,
                None => r is None,
            },
    {
        reveal(lowering::basic_types);
        let ghost all = lowering::attribute_types(ir::struct_of(*s));
        let mut types: Vec<LlvmType> = Vec::new();
        assert(types@ =~= Seq::<LlvmType>::empty());
        let mut k: usize = 0;
        while k < s.attributes.len()
            invariant
                k <= all.len(),
                all == lowering::attribute_types(ir::struct_of(*s)),
                lowering::basic_types(self@, all, 0, Seq::empty()) == lowering::basic_types(
                    self@,
                    all,
                    k as int,
                    types@,
                ),
            decreases all.len() - k,
        {
            reveal(lowering::basic_types);
            let t = self.azula_type_to_llvm_basic_type(&s.attributes[k].0)?;
            types.push(t);
            k += 1;
        }
        Some(types)
    }

    /// The LLVM types of types.
    fn basic_types(&self, ts: &Vec<AzulaType>) -> (r: Option<Vec<LlvmType>>)
        ensures
            match lowering::basic_types(self@, types::types_of(ts@), 0, Seq::empty()) {
                Some(types) => r is Some && r->0@ == types,
                None => r is None,
            },
    {
        reveal(lowering::basic_types);
        reveal(types::types_of);
        reveal(types::ty_of);
        let ghost all = types::types_of(ts@);
        let mut types: Vec<LlvmType> = Vec::new();
        assert(types@ =~= Seq::<LlvmType>::empty());
        let mut k: usize = 0;
        while k < ts.len()
            invariant
                k <= all.len(),
                all == types::types_of(ts@),
                all.len() == ts@.len(),
                lowering::basic_types(self@, all, 0, Seq::empty()) == lowering::basic_types(
                    self@,
                    all,
                    k as int,
                    types@,
                ),
            decreases all.len() - k,
        {
            reveal(lowering::basic_types);
            reveal(types::types_of);
            reveal(types::ty_of);
            let t = self.azula_type_to_llvm_basic_type(&ts[k])?;
            types.push(t);
            k += 1;
        }
        Some(types)
    }

    /// The LLVM types of the arguments of a function.
    fn argument_types(&self, f: &Function) -> (r: Option<Vec<LlvmType>>)
        ensures
            match lowering::basic_types(
                self@,
                lowering::argument_types(f@),
                0,
                Seq::empty(),
            ) {
                Some(types) => r is Some && r->0@ == types,
                None => r is None,
            },
    {
        reveal(lowering::basic_types);
        reveal(ir::fun_of);
        let ghost all = lowering::argument_types(f@);
        let mut types: Vec<LlvmType> = Vec::new();
        assert(types@ =~= Seq::<LlvmType>::empty());
        let mut k: usize = 0;
        while k < f.arguments.len()
            invariant
                k <= all.len(),
                all == lowering::argument_types(f@),
                all.len() == f.arguments@.len(),
                lowering::basic_types(self@, all, 0, Seq::empty()) == lowering::basic_types(
                    self@,
                    all,
                    k as int,
                    types@,
                ),
            decreases all.len() - k,
        {
            reveal(lowering::basic_types);
            reveal(ir::fun_of);
            let t = self.azula_type_to_llvm_basic_type(&f.arguments[k].1)?;
            types.push(t);
            k += 1;
        }
        Some(types)
    }

    /// Declare a function.
    fn declare(
        &mut self,
        name: &str,
        params: Vec<LlvmType>,
        result: Option<LlvmType>,
        varargs: bool,
        linkage: Linkage,
    )
        ensures
            final(self)@ == lowering::declared(
                old(self)@,
                name@,
                params@,
                result,
                varargs,
                linkage,
            ),
    {
        reveal(lowering::declared);
        reveal(op_of);
        proof {
            assoc::lemma_mapped_get(self.functions@, |s: Signature| sig_of(s), name@);
        }
        let known = self.functions.contains_key(name);
        let id = self.step(
            Op::DeclareFunction(name.to_owned(), copied(&params), result, varargs, linkage),
        );
        if !known {
            let sig = Signature { id, params, result };
            proof {
                assoc::lemma_mapped_put(
                    self.functions@,
                    |s: Signature| sig_of(s),
                    name@,
                    sig,
                );
            }
            self.functions.insert(name.to_owned(), sig);
        }
    }

    /// Declare the functions that are defined elsewhere.
    fn declare_externs(&mut self, module: &Module) -> (r: Option<()>)
        ensures
            becomes(
                lowering::externs_declared(old(self)@, module@.extern_functions, 0),
                r,
                final(self)@,
            ),
    {
        reveal(lowering::externs_declared);
        reveal(ir::mod_of);
        let ghost all = module@.extern_functions;
        let mut k: usize = 0;
        while k < module.extern_functions.len()
            invariant
                k <= all.len(),
                all == module@.extern_functions,
                all.len() == module.extern_functions@.len(),
                lowering::externs_declared(old(self)@, all, 0) == lowering::externs_declared(
                    self@,
                    all,
                    k as int,
                ),
            decreases all.len() - k,
        {
            reveal(lowering::externs_declared);
            reveal(ir::mod_of);
            let f = module.extern_functions.value_at(k);
            let params = self.basic_types(&f.arguments)?;
            let result = self.result_type(&f.returns)?;
            self.declare(
                module.extern_functions.name_at(k),
                params,
                result,
                f.varargs,
                Linkage::External,
            );
            k += 1;
        }
        Some(())
    }

    /// What the function `name` returns.
    fn returned(&self, name: &str, result: &AzulaType) -> (r: Option<Option<LlvmType>>)
        ensures
            r == lowering::result_type(
                self@,
                lowering::returned(name@, types::ty_of(*result)),
            ),
    {
        reveal(types::ty_of);
        let void = match result {
            AzulaType::Void => true,
            _ => false,
        };
        if void && same(name, "main") {
            self.result_type(&AzulaType::SizedSignedInt(32))
        } else {
            self.result_type(result)
        }
    }

    /// Declare the functions of a program.
    fn declare_functions(&mut self, module: &Module) -> (r: Option<()>)
        ensures
            becomes(
                lowering::functions_declared(old(self)@, module@.functions, 0),
                r,
                final(self)@,
            ),
    {
        reveal(lowering::functions_declared);
        reveal(ir::mod_of);
        let ghost all = module@.functions;
        let mut k: usize = 0;
        while k < module.functions.len()
            invariant
                k <= all.len(),
                all == module@.functions,
                all.len() == module.functions@.len(),
                lowering::functions_declared(old(self)@, all, 0) == lowering::functions_declared(
                    self@,
                    all,
                    k as int,
                ),
            decreases all.len() - k,
        {
            reveal(lowering::functions_declared);
            reveal(ir::mod_of);
            reveal(ir::fun_of);
            let name = module.functions.name_at(k);
            let f = module.functions.value_at(k);
            let params = self.argument_types(f)?;
            let result = self.returned(name, &f.returns)?;
            let linkage = if same(name, "main") {
                Linkage::Default
            } else {
                Linkage::Private
            };
            self.declare(name, params, result, false, linkage);
            k += 1;
        }
        Some(())
    }

    /// Build the constants of a program.
    pub fn store_globals(&mut self, module: &Module) -> (r: Option<()>)
        ensures
            becomes(
                lowering::globals_built(
                    lowering::strings_built(old(self)@, module@.strings, 0),
                    module@.global_values,
                    0,
                ),
                r,
                final(self)@,
            ),
    {
        reveal(lowering::strings_built);
        reveal(lowering::globals_built);
        reveal(ir::mod_of);
        let ghost strings = module@.strings;
        let mut k: usize = 0;
        while k < module.strings.len()
            invariant
                k <= strings.len(),
                strings == module@.strings,
                strings.len() == module.strings@.len(),
                lowering::strings_built(old(self)@, strings, 0) == lowering::strings_built(
                    self@,
                    strings,
                    k as int,
                ),
            decreases strings.len() - k,
        {
            reveal(lowering::strings_built);
            reveal(ir::mod_of);
            reveal(op_of);
            let v = self.built(Op::GlobalString(module.strings[k].clone()), LlvmType::Pointer);
            self.strings.push(v);
            k += 1;
        }
        let ghost globals = module@.global_values;
        let mut k: usize = 0;
        while k < module.global_values.len()
            invariant
                k <= globals.len(),
                strings == module@.strings,
                globals == module@.global_values,
                globals == module.global_values@,
                lowering::globals_built(
                    lowering::strings_built(old(self)@, strings, 0),
                    globals,
                    0,
                ) == lowering::globals_built(self@, globals, k as int),
            decreases globals.len() - k,
        {
            reveal(lowering::globals_built);
            let name = module.global_values.name_at(k);
            let v = self.global(name, *module.global_values.value_at(k))?;
            self.globals.insert(name.to_owned(), v);
            k += 1;
        }
        Some(())
    }

    /// The storage of a global.
    fn global(&mut self, name: &str, v: GlobalValue) -> (r: Option<Operand>)
        ensures
            match lowering::global(old(self)@, name@, v) {
                Some((l, p)) => r == Some(p) && l == final(self)@,
                None => r is None,
            },
    {
        reveal(lowering::global);
        reveal(op_of);
        match v {
            GlobalValue::Int(i) => Some(
                self.built(Op::GlobalInt(name.to_owned(), i), LlvmType::Pointer),
            ),
            GlobalValue::Float(f) => Some(
                self.built(Op::GlobalFloat(name.to_owned(), f), LlvmType::Pointer),
            ),
            GlobalValue::Bool(b) => Some(
                self.built(Op::GlobalBool(name.to_owned(), b), LlvmType::Pointer),
            ),
            GlobalValue::String(n) => self.string(n),
        }
    }

    /// Allocate the variables of a function.
    fn variables(&mut self, f: &Function, locals: &mut FunctionLocals) -> (r: Option<()>)
        ensures
            reaches(
                lowering::variables_built(
                    Low { l: old(self)@, loc: old(locals)@ },
                    f@.variables,
                    0,
                ),
                r,
                final(self)@,
                final(locals)@,
            ),
    {
        reveal(lowering::variables_built);
        reveal(ir::fun_of);
        let ghost all = f@.variables;
        let mut k: usize = 0;
        while k < f.variables.len()
            invariant
                k <= all.len(),
                all == f@.variables,
                all.len() == f.variables@.len(),
                lowering::variables_built(
                    Low { l: old(self)@, loc: old(locals)@ },
                    all,
                    0,
                ) == lowering::variables_built(
                    Low { l: self@, loc: locals@ },
                    all,
                    k as int,
                ),
            decreases all.len() - k,
        {
            reveal(lowering::variables_built);
            reveal(ir::fun_of);
            reveal(op_of);
            let ty = self.azula_type_to_llvm_basic_type(f.variables.value_at(k))?;
            let p = self.built(Op::Alloca(ty), LlvmType::Pointer);
            locals.add_variable(f.variables.name_at(k), p);
            k += 1;
        }
        Some(())
    }

    /// Go to a block.
    fn enter(&mut self, function: usize, name: &str, locals: &FunctionLocals)
        ensures
            is_now(
                lowering::entered(Low { l: old(self)@, loc: locals@ }, function, name@),
                final(self)@,
                locals@,
            ),
    {
        reveal(lowering::entered);
        reveal(op_of);
        match locals.block(name) {
            Some(b) => {
                self.step(Op::Position(b));
            },
            None => {
                let b = self.step(Op::AppendBlock(function, name.to_owned()));
                self.step(Op::Position(b));
            },
        }
    }

    /// The blocks of a function. Whether the constants of the program are still to
    /// be built is returned.
    fn blocks(
        &mut self,
        module: &Module,
        f: &Function,
        func: &Signature,
        first: bool,
        locals: &mut FunctionLocals,
    ) -> (r: Option<bool>)
        ensures
            match lowering::blocks_built(
                Low { l: old(self)@, loc: old(locals)@ },
                module@,
                sig_of(*func),
                f@.blocks,
                0,
                first,
            ) {
                Some((s, b)) => r == Some(b) && s.l == final(self)@ && s.loc == final(locals)@,
                None => r is None,
            },
    {
        reveal(lowering::blocks_built);
        reveal(ir::fun_of);
        let ghost all = f@.blocks;
        let mut constants = first;
        let mut k: usize = 0;
        while k < f.blocks.len()
            invariant
                k <= all.len(),
                all == f@.blocks,
                all.len() == f.blocks@.len(),
                lowering::blocks_built(
                    Low { l: old(self)@, loc: old(locals)@ },
                    module@,
                    sig_of(*func),
                    all,
                    0,
                    first,
                ) == lowering::blocks_built(
                    Low { l: self@, loc: locals@ },
                    module@,
                    sig_of(*func),
                    all,
                    k as int,
                    constants,
                ),
            decreases all.len() - k,
        {
            reveal(lowering::blocks_built);
            reveal(ir::fun_of);
            self.enter(func.id, f.blocks[k].0.as_str(), locals);
            if constants {
                self.store_globals(module)?;
                constants = false;
            }
            self.instructions(&f.blocks[k].1, func, locals)?;
            k += 1;
        }
        Some(constants)
    }

    /// The body of a function.
    fn body(&mut self, module: &Module, name: &str, f: &Function, first: bool) -> (r: Option<bool>)
        ensures
            match lowering::function(old(self)@, module@, name@, f@, first) {
                Some((l, b)) => r == Some(b) && l == final(self)@,
                None => r is None,
            },
    {
        reveal(lowering::function);
        reveal(op_of);
        let sig = self.function(name)?;
        let mut locals = FunctionLocals::new();
        let entry = self.block(sig.id, "entry", &mut locals);
        self.step(Op::Position(entry));
        self.variables(f, &mut locals)?;
        self.blocks(module, f, &sig, first, &mut locals)
    }

    /// A module before anything is lowered.
    fn start(module: &Module) -> (r: Self)
        ensures
            r@ == lowering::start(module@),
    {
        reveal(ir::mod_of);
        let mut enum_names: NameMap<()> = NameMap::new();
        let ghost all = module@.enums;
        let ghost want = assoc::mapped(all, |v: Seq<Seq<char>>| ());
        let mut k: usize = 0;
        while k < module.enums.len()
            invariant
                k <= all.len(),
                all == module@.enums,
                all.len() == module.enums@.len(),
                want == assoc::mapped(all, |v: Seq<Seq<char>>| ()),
                enum_names@ == want.take(k as int),
            decreases all.len() - k,
        {
            reveal(ir::mod_of);
            enum_names.append(module.enums.name_at(k).to_owned(), ());
            assert(want.take(k + 1) =~= want.take(k as int).push(want[k as int]));
            k += 1;
        }
        assert(want.take(k as int) =~= want);
        let mut boxed_enum_names: NameMap<()> = NameMap::new();
        let ghost boxed = module@.boxed_enums;
        let mut k: usize = 0;
        while k < module.boxed_enums.len()
            invariant
                k <= boxed.len(),
                boxed == module@.boxed_enums,
                boxed == module.boxed_enums@,
                boxed_enum_names@ == boxed.take(k as int),
            decreases boxed.len() - k,
        {
            boxed_enum_names.append(module.boxed_enums.name_at(k).to_owned(), ());
            assert(boxed[k as int].1 == ());
            assert(boxed[k as int] == (boxed[k as int].0, ()));
            assert(boxed.take(k + 1) =~= boxed.take(k as int).push(boxed[k as int]));
            k += 1;
        }
        assert(boxed.take(k as int) =~= boxed);
        let r = LLVMCodegen {
            operations: Vec::new(),
            strings: Vec::new(),
            globals: NameMap::new(),
            structs: NameMap::new(),
            layouts: Vec::new(),
            enum_names,
            boxed_enum_names,
            functions: NameMap::new(),
        };
        assert(r@.ops =~= Seq::empty());
        assert(r@.strings =~= Seq::empty());
        assert(r@.layouts =~= Seq::empty());
        assert(r@.functions =~= Seq::empty());
        r
    }

    /// Lower a program. There is no result for a program that has no lowering.
    pub fn codegen(module: &Module) -> (r: Option<Self>)
        ensures
            match lowering::lowered(module@) {
                Some(l) => r is Some && r->0@ == l,
                None => r is None,
            },
    {
        reveal(lowering::lowered);
        let mut l = Self::start(module);
        l.generate_structs(module)?;
        l.declare_externs(module)?;
        let mut params: Vec<LlvmType> = Vec::new();
        params.push(LlvmType::Float(64));
        params.push(LlvmType::Float(64));
        assert(params@ =~= seq![LlvmType::Float(64), LlvmType::Float(64)]);
        l.declare("pow", params, Some(LlvmType::Float(64)), false, Linkage::External);
        l.declare_functions(module)?;
        let ghost start = l@;
        let mut first = true;
        let mut k: usize = 0;
        proof {
            reveal(ir::mod_of);
        }
        while k < module.functions.len()
            invariant
                k <= module@.functions.len(),
                module@.functions.len() == module.functions@.len(),
                lowering::lowered(module@) == lowering::functions_built(start, module@, 0, true),
                lowering::functions_built(start, module@, 0, true) == lowering::functions_built(
                    l@,
                    module@,
                    k as int,
                    first,
                ),
            decreases module@.functions.len() - k,
        {
            reveal(lowering::functions_built);
            reveal(ir::mod_of);
            first = l.body(
                module,
                module.functions.name_at(k),
                module.functions.value_at(k),
                first,
            )?;
            k += 1;
        }
        proof {
            reveal(lowering::functions_built);
        }
        Some(l)
    }

    /// The steps, in order.
    pub fn operations(&self) -> (r: &Vec<Operation>)
        ensures
            ops_of(r@) == self@.ops,
    {
        &self.operations
    }
}

} // verus!
