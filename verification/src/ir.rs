//! The intermediate representation: modules of functions made of named blocks
//! of instructions. Every instruction that produces a value writes a fresh
//! numbered register.

use vstd::prelude::*;
use crate::assoc::NameMap;
use crate::text::same;
use crate::types::{AzulaType, Ty};

verus! {

/// An operand of an instruction.
#[derive(Debug, PartialEq, Clone, Copy)]
pub enum Value {
    LiteralInteger(i64),
    LiteralBoolean(bool),
    /// The register of that number
    Local(usize),
    /// The string constant of that number
    Global(usize),
}

/// An instruction. The register that it writes is called its destination.
#[derive(Debug, PartialEq)]
pub enum Instruction<'a> {
    /// Variable, destination, type
    Load(String, usize, AzulaType<'a>),
    LoadGlobal(String, usize, AzulaType<'a>),
    /// Argument number, destination, type
    LoadArg(usize, usize, AzulaType<'a>),
    Store(String, Value, AzulaType<'a>),
    ConstInt(i64, usize),
    /// The bits of a 64-bit IEEE 754 number, destination
    ConstFloat(u64, usize),
    ConstTrue(usize),
    ConstFalse(usize),
    ConstNull(usize),
    Add(Value, Value, usize),
    Sub(Value, Value, usize),
    Mul(Value, Value, usize),
    Div(Value, Value, usize),
    Mod(Value, Value, usize),
    Pow(Value, Value, usize),
    Or(Value, Value, usize),
    And(Value, Value, usize),
    Eq(Value, Value, usize),
    Neq(Value, Value, usize),
    Lt(Value, Value, usize),
    Lte(Value, Value, usize),
    Gt(Value, Value, usize),
    Gte(Value, Value, usize),
    BitAnd(Value, Value, usize),
    BitOr(Value, Value, usize),
    BitXor(Value, Value, usize),
    Shl(Value, Value, usize),
    Shr(Value, Value, usize),
    Not(Value, usize),
    Return(Option<Value>),
    Unreachable,
    FunctionCall(String, Vec<Value>, usize),
    /// The address of a function's code
    FunctionAddress(String, usize),
    /// Code, arguments, parameter types, return type, destination
    IndirectCall(Value, Vec<Value>, Vec<AzulaType<'a>>, AzulaType<'a>, usize),
    Jump(String),
    /// Condition, block if it holds, block if not
    Jcond(Value, String, String),
    SizeOf(AzulaType<'a>, usize),
    /// Array, index, destination, element type
    ElementPtr(Value, Value, usize, AzulaType<'a>),
    /// The address of a variable
    Pointer(String, usize),
    CreateArray(AzulaType<'a>, usize, usize),
    /// Array, index, value, element type
    StoreElement(Value, Value, Value, AzulaType<'a>),
    AccessElement(Value, Value, usize, AzulaType<'a>),
    /// Struct, member number, value, struct name
    StoreStructMember(Value, usize, Value, String),
    CreateStruct(String, Vec<Value>, usize),
    /// Struct, member number, destination, whether to load the member, struct name
    AccessStructMember(Value, usize, usize, bool, String),
    Cast(Value, AzulaType<'a>, usize),
}

/// The model of an instruction.
pub enum Inst {
    Load(Seq<char>, usize, Ty),
    LoadGlobal(Seq<char>, usize, Ty),
    LoadArg(usize, usize, Ty),
    Store(Seq<char>, Value, Ty),
    ConstInt(i64, usize),
    ConstFloat(u64, usize),
    ConstTrue(usize),
    ConstFalse(usize),
    ConstNull(usize),
    Add(Value, Value, usize),
    Sub(Value, Value, usize),
    Mul(Value, Value, usize),
    Div(Value, Value, usize),
    Mod(Value, Value, usize),
    Pow(Value, Value, usize),
    Or(Value, Value, usize),
    And(Value, Value, usize),
    Eq(Value, Value, usize),
    Neq(Value, Value, usize),
    Lt(Value, Value, usize),
    Lte(Value, Value, usize),
    Gt(Value, Value, usize),
    Gte(Value, Value, usize),
    BitAnd(Value, Value, usize),
    BitOr(Value, Value, usize),
    BitXor(Value, Value, usize),
    Shl(Value, Value, usize),
    Shr(Value, Value, usize),
    Not(Value, usize),
    Return(Option<Value>),
    Unreachable,
    FunctionCall(Seq<char>, Seq<Value>, usize),
    FunctionAddress(Seq<char>, usize),
    IndirectCall(Value, Seq<Value>, Seq<Ty>, Ty, usize),
    Jump(Seq<char>),
    Jcond(Value, Seq<char>, Seq<char>),
    SizeOf(Ty, usize),
    ElementPtr(Value, Value, usize, Ty),
    Pointer(Seq<char>, usize),
    CreateArray(Ty, usize, usize),
    StoreElement(Value, Value, Value, Ty),
    AccessElement(Value, Value, usize, Ty),
    StoreStructMember(Value, usize, Value, Seq<char>),
    CreateStruct(Seq<char>, Seq<Value>, usize),
    AccessStructMember(Value, usize, usize, bool, Seq<char>),
    Cast(Value, Ty, usize),
}

/// The instruction that `i` holds.
pub open spec fn inst_of(i: Instruction) -> Inst {
    match i {
        Instruction::Load(n, d, t) => Inst::Load(n@, d, crate::types::ty_of(t)),
        Instruction::LoadGlobal(n, d, t) => Inst::LoadGlobal(n@, d, crate::types::ty_of(t)),
        Instruction::LoadArg(a, d, t) => Inst::LoadArg(a, d, crate::types::ty_of(t)),
        Instruction::Store(n, v, t) => Inst::Store(n@, v, crate::types::ty_of(t)),
        Instruction::ConstInt(v, d) => Inst::ConstInt(v, d),
        Instruction::ConstFloat(v, d) => Inst::ConstFloat(v, d),
        Instruction::ConstTrue(d) => Inst::ConstTrue(d),
        Instruction::ConstFalse(d) => Inst::ConstFalse(d),
        Instruction::ConstNull(d) => Inst::ConstNull(d),
        Instruction::Add(a, b, d) => Inst::Add(a, b, d),
        Instruction::Sub(a, b, d) => Inst::Sub(a, b, d),
        Instruction::Mul(a, b, d) => Inst::Mul(a, b, d),
        Instruction::Div(a, b, d) => Inst::Div(a, b, d),
        Instruction::Mod(a, b, d) => Inst::Mod(a, b, d),
        Instruction::Pow(a, b, d) => Inst::Pow(a, b, d),
        Instruction::Or(a, b, d) => Inst::Or(a, b, d),
        Instruction::And(a, b, d) => Inst::And(a, b, d),
        Instruction::Eq(a, b, d) => Inst::Eq(a, b, d),
        Instruction::Neq(a, b, d) => Inst::Neq(a, b, d),
        Instruction::Lt(a, b, d) => Inst::Lt(a, b, d),
        Instruction::Lte(a, b, d) => Inst::Lte(a, b, d),
        Instruction::Gt(a, b, d) => Inst::Gt(a, b, d),
        Instruction::Gte(a, b, d) => Inst::Gte(a, b, d),
        Instruction::BitAnd(a, b, d) => Inst::BitAnd(a, b, d),
        Instruction::BitOr(a, b, d) => Inst::BitOr(a, b, d),
        Instruction::BitXor(a, b, d) => Inst::BitXor(a, b, d),
        Instruction::Shl(a, b, d) => Inst::Shl(a, b, d),
        Instruction::Shr(a, b, d) => Inst::Shr(a, b, d),
        Instruction::Not(a, d) => Inst::Not(a, d),
        Instruction::Return(v) => Inst::Return(v),
        Instruction::Unreachable => Inst::Unreachable,
        Instruction::FunctionCall(n, args, d) => Inst::FunctionCall(n@, args@, d),
        Instruction::FunctionAddress(n, d) => Inst::FunctionAddress(n@, d),
        Instruction::IndirectCall(c, args, ps, t, d) => Inst::IndirectCall(
            c,
            args@,
            crate::types::types_of(ps@),
            crate::types::ty_of(t),
            d,
        ),
        Instruction::Jump(n) => Inst::Jump(n@),
        Instruction::Jcond(c, t, f) => Inst::Jcond(c, t@, f@),
        Instruction::SizeOf(t, d) => Inst::SizeOf(crate::types::ty_of(t), d),
        Instruction::ElementPtr(a, i, d, t) => Inst::ElementPtr(a, i, d, crate::types::ty_of(t)),
        Instruction::Pointer(n, d) => Inst::Pointer(n@, d),
        Instruction::CreateArray(t, n, d) => Inst::CreateArray(crate::types::ty_of(t), n, d),
        Instruction::StoreElement(a, i, v, t) => Inst::StoreElement(
            a,
            i,
            v,
            crate::types::ty_of(t),
        ),
        Instruction::AccessElement(a, i, d, t) => Inst::AccessElement(
            a,
            i,
            d,
            crate::types::ty_of(t),
        ),
        Instruction::StoreStructMember(s, i, v, n) => Inst::StoreStructMember(s, i, v, n@),
        Instruction::CreateStruct(n, vs, d) => Inst::CreateStruct(n@, vs@, d),
        Instruction::AccessStructMember(s, i, d, r, n) => Inst::AccessStructMember(s, i, d, r, n@),
        Instruction::Cast(v, t, d) => Inst::Cast(v, crate::types::ty_of(t), d),
    }
}

/// The instructions in a list.
pub open spec fn insts_of(s: Seq<Instruction>) -> Seq<Inst> {
    Seq::new(s.len(), |i: int| inst_of(s[i]))
}

/// A list of instructions that runs from its start to its end.
#[derive(Debug, PartialEq)]
pub struct Block<'a> {
    pub instructions: Vec<Instruction<'a>>,
}

impl<'a> Block<'a> {
    /// The block without instructions.
    pub fn new() -> (r: Self)
        ensures
            insts_of(r.instructions@) == Seq::<Inst>::empty(),
    {
        let r = Block { instructions: Vec::new() };
        assert(insts_of(r.instructions@) =~= Seq::<Inst>::empty());
        r
    }
}

/// A function being built, or built.
#[derive(Debug, PartialEq)]
pub struct Function<'a> {
    pub arguments: Vec<(String, AzulaType<'a>)>,
    pub returns: AzulaType<'a>,
    /// The variables that the function keeps in memory
    pub variables: NameMap<AzulaType<'a>>,
    pub blocks: Vec<(String, Block<'a>)>,
    /// The block that instructions are added to
    pub current_block: String,
    /// The number of the next conditional or loop
    pub if_block_index: usize,
    /// The number of the next match
    pub match_block_index: usize,
    /// The number of the next register
    pub registers: usize,
}

/// The model of a function.
pub struct Fun {
    pub arguments: Seq<(Seq<char>, Ty)>,
    pub result: Ty,
    pub variables: Seq<(Seq<char>, Ty)>,
    pub blocks: Seq<(Seq<char>, Seq<Inst>)>,
    pub current: Seq<char>,
    pub if_index: usize,
    pub match_index: usize,
    pub registers: usize,
}

/// The named types in a list.
pub open spec fn named_of(s: Seq<(String, AzulaType)>) -> Seq<(Seq<char>, Ty)> {
    Seq::new(s.len(), |i: int| (s[i].0@, crate::types::ty_of(s[i].1)))
}

/// The blocks in a list.
pub open spec fn blocks_of(s: Seq<(String, Block)>) -> Seq<(Seq<char>, Seq<Inst>)> {
    Seq::new(s.len(), |i: int| (s[i].0@, insts_of(s[i].1.instructions@)))
}

/// The types under the names of a map.
pub open spec fn variables_of(s: Seq<(Seq<char>, AzulaType)>) -> Seq<(Seq<char>, Ty)> {
    crate::assoc::mapped(s, |t: AzulaType| crate::types::ty_of(t))
}

/// The function that `f` holds.
#[verifier::opaque]
pub open spec fn fun_of(f: Function) -> Fun {
    Fun {
        arguments: named_of(f.arguments@),
        result: crate::types::ty_of(f.returns),
        variables: variables_of(f.variables@),
        blocks: blocks_of(f.blocks@),
        current: f.current_block@,
        if_index: f.if_block_index,
        match_index: f.match_block_index,
        registers: f.registers,
    }
}

impl<'a> View for Function<'a> {
    type V = Fun;

    open spec fn view(&self) -> Fun {
        fun_of(*self)
    }
}

/// The function with `i` added at the end of its current block.
#[verifier::opaque]
pub open spec fn appended(f: Fun, i: Inst) -> Fun {
    if crate::assoc::defined(f.blocks, f.current) {
        let p = crate::assoc::position(f.blocks, f.current);
        Fun { blocks: f.blocks.update(p, (f.blocks[p].0, f.blocks[p].1.push(i))), ..f }
    } else {
        f
    }
}

/// The function with `i`, whose destination is the next register, added at the
/// end of its current block, and that register. There is none when the registers
/// have run out.
#[verifier::opaque]
pub open spec fn defining(f: Fun, i: Inst) -> Option<(Fun, Value)> {
    if f.registers < usize::MAX {
        Some((appended(Fun { registers: (f.registers + 1) as usize, ..f }, i), Value::Local(f.registers)))
    } else {
        None
    }
}

/// The function with an empty block `name` added, which becomes the current one.
#[verifier::opaque]
pub open spec fn opened(f: Fun, name: Seq<char>) -> Fun {
    Fun { blocks: f.blocks.push((name, Seq::empty())), current: name, ..f }
}

/// An instruction that ends a block.
pub open spec fn ends_block(i: Inst) -> bool {
    match i {
        Inst::Return(_) => true,
        Inst::Jump(_) => true,
        Inst::Jcond(..) => true,
        Inst::Unreachable => true,
        _ => false,
    }
}

/// A block whose last instruction ends it.
pub open spec fn terminated(block: Seq<Inst>) -> bool {
    block.len() > 0 && ends_block(block.last())
}

/// Whether the last instruction of the current block ends it.
#[verifier::opaque]
pub open spec fn current_terminated(f: Fun) -> bool {
    match crate::assoc::get(f.blocks, f.current) {
        Some(block) => terminated(block),
        None => false,
    }
}

/// The instruction that ends a block which runs to its end: a function that
/// returns nothing returns, and another one cannot get there.
pub open spec fn terminator(result: Ty) -> Inst {
    if result is Void {
        Inst::Return(None)
    } else {
        Inst::Unreachable
    }
}

/// The function with every block ended.
pub open spec fn ended(f: Fun) -> Fun {
    Fun {
        blocks: Seq::new(
            f.blocks.len(),
            |i: int|
                (
                    f.blocks[i].0,
                    if terminated(f.blocks[i].1) {
                        f.blocks[i].1
                    } else {
                        f.blocks[i].1.push(terminator(f.result))
                    },
                ),
        ),
        ..f
    }
}

/// Whether `instruction` ends a block.
pub fn is_terminator(instruction: Option<&Instruction>) -> (r: bool)
    ensures
        r == match instruction {
            Some(i) => ends_block(inst_of(*i)),
            None => false,
        },
{
    match instruction {
        Some(Instruction::Return(_)) => true,
        Some(Instruction::Jump(_)) => true,
        Some(Instruction::Jcond(..)) => true,
        Some(Instruction::Unreachable) => true,
        _ => false,
    }
}

impl<'a> Block<'a> {
    /// The last instruction.
    pub fn last(&self) -> (r: Option<&Instruction<'a>>)
        ensures
            match r {
                Some(i) => self.instructions@.len() > 0 && *i == self.instructions@.last(),
                None => self.instructions@.len() == 0,
            },
    {
        if self.instructions.len() == 0 {
            None
        } else {
            Some(&self.instructions[self.instructions.len() - 1])
        }
    }

    /// Whether the last instruction ends the block.
    pub fn is_terminated(&self) -> (r: bool)
        ensures
            r == terminated(insts_of(self.instructions@)),
    {
        is_terminator(self.last())
    }
}

impl<'a> Function<'a> {
    /// A function without arguments that returns nothing, with an empty block
    /// `entry`.
    pub fn new() -> (r: Self)
        ensures
            r@ == (Fun {
                arguments: Seq::empty(),
                result: Ty::Void,
                variables: Seq::empty(),
                blocks: seq![("entry"@, Seq::<Inst>::empty())],
                current: "entry"@,
                if_index: 0,
                match_index: 0,
                registers: 0,
            }),
    {
        reveal(crate::types::ty_of);
        reveal(fun_of);
        let mut blocks: Vec<(String, Block<'a>)> = Vec::new();
        blocks.push(("entry".to_owned(), Block::new()));
        let r = Function {
            arguments: Vec::new(),
            returns: AzulaType::Void,
            variables: NameMap::new(),
            blocks,
            current_block: "entry".to_owned(),
            if_block_index: 0,
            match_block_index: 0,
            registers: 0,
        };
        assert(r@.arguments =~= Seq::empty());
        assert(r@.variables =~= Seq::empty());
        assert(r@.blocks =~= seq![("entry"@, Seq::<Inst>::empty())]);
        r
    }

    /// The position of the current block.
    fn current_position(&self) -> (r: Option<usize>)
        ensures
            match r {
                Some(p) => crate::assoc::defined(self@.blocks, self@.current) && p
                    == crate::assoc::position(self@.blocks, self@.current) && p
                    < self.blocks@.len(),
                None => !crate::assoc::defined(self@.blocks, self@.current),
            },
    {
        reveal(fun_of);
        let mut i: usize = 0;
        while i < self.blocks.len()
            invariant
                i <= self.blocks@.len(),
                forall|j: int| 0 <= j < i ==> (#[trigger] self@.blocks[j]).0 != self@.current,
            decreases self.blocks@.len() - i,
        {
            reveal(fun_of);
            if same(self.blocks[i].0.as_str(), self.current_block.as_str()) {
                proof {
                    assert(self@.blocks[i as int].0 == self@.current);
                    assert(crate::assoc::first_at(self@.blocks, self@.current, i as int));
                    crate::assoc::lemma_first_at(self@.blocks, self@.current, i as int);
                }
                return Some(i);
            }
            i += 1;
        }
        proof {
            crate::assoc::lemma_absent(self@.blocks, self@.current);
        }
        None
    }

    /// Whether the last instruction of the current block ends it.
    pub fn current_block_terminated(&self) -> (r: bool)
        ensures
            r == current_terminated(self@),
    {
        reveal(fun_of);
        reveal(current_terminated);
        reveal(crate::assoc::get);
        match self.current_position() {
            Some(p) => self.blocks[p].1.is_terminated(),
            None => false,
        }
    }

    /// Add `i` at the end of the current block.
    pub fn push_instruction(&mut self, i: Instruction<'a>)
        ensures
            final(self)@ == appended(old(self)@, inst_of(i)),
    {
        reveal(fun_of);
        reveal(appended);
        let ghost before = self@;
        if let Some(p) = self.current_position() {
            self.blocks[p].1.instructions.push(i);
            proof {
                let block = self.blocks@[p as int].1.instructions@;
                assert(insts_of(block) =~= before.blocks[p as int].1.push(inst_of(i)));
                assert(self@.blocks =~= appended(before, inst_of(i)).blocks);
            }
        }
    }

    /// Add an empty block `name` and make it the current one.
    pub fn open_block(&mut self, name: String)
        ensures
            final(self)@ == opened(old(self)@, name@),
    {
        reveal(fun_of);
        reveal(opened);
        let ghost before = self@;
        self.blocks.push((name.clone(), Block::new()));
        self.current_block = name;
        assert(self@.blocks =~= opened(before, name@).blocks);
    }

    /// Declare a variable that is kept in memory.
    pub fn declare(&mut self, name: String, typ: AzulaType<'a>)
        ensures
            final(self)@ == (Fun {
                variables: crate::assoc::put(
                    old(self)@.variables,
                    name@,
                    crate::types::ty_of(typ),
                ),
                ..old(self)@
            }),
    {
        reveal(fun_of);
        proof {
            crate::assoc::lemma_mapped_put(
                self.variables@,
                |t: AzulaType<'a>| crate::types::ty_of(t),
                name@,
                typ,
            );
        }
        self.variables.insert(name, typ);
    }

    /// Whether `name` is a variable of the function.
    pub fn declares(&self, name: &str) -> (r: bool)
        ensures
            r == crate::assoc::defined(self@.variables, name@),
    {
        reveal(fun_of);
        proof {
            crate::assoc::lemma_mapped_get(
                self.variables@,
                |t: AzulaType<'a>| crate::types::ty_of(t),
                name@,
            );
        }
        self.variables.contains_key(name)
    }

    /// Add `i`, whose destination is the next register. There is no result when
    /// the registers have run out.
    pub fn define(&mut self, i: Instruction<'a>) -> (r: Option<Value>)
        ensures
            match defining(old(self)@, inst_of(i)) {
                Some((f, v)) => r == Some(v) && final(self)@ == f,
                None => r is None && final(self)@ == old(self)@,
            },
    {
        reveal(fun_of);
        reveal(defining);
        if self.registers == usize::MAX {
            return None;
        }
        let dest: usize = self.registers;
        self.registers = dest + 1;
        self.push_instruction(i);
        Some(Value::Local(dest))
    }

    /// Load an integer.
    pub fn const_int(&mut self, v: i64) -> (r: Value)
        requires
            old(self)@.registers < usize::MAX,
        ensures
            defining(old(self)@, Inst::ConstInt(v, old(self)@.registers)) == Some(
                (final(self)@, r),
            ),
    {
        reveal(fun_of);
        reveal(defining);
        let dest: usize = self.registers;
        self.registers = dest + 1;
        self.push_instruction(Instruction::ConstInt(v, dest));
        Value::Local(dest)
    }

    /// Read a variable.
    pub fn load(&mut self, name: String, typ: AzulaType<'a>) -> (r: Value)
        requires
            old(self)@.registers < usize::MAX,
        ensures
            defining(
                old(self)@,
                Inst::Load(name@, old(self)@.registers, crate::types::ty_of(typ)),
            ) == Some((final(self)@, r)),
    {
        reveal(fun_of);
        reveal(defining);
        let dest: usize = self.registers;
        self.registers = dest + 1;
        self.push_instruction(Instruction::Load(name, dest, typ));
        Value::Local(dest)
    }

    /// End every block that has not ended.
    pub fn end_blocks(&mut self)
        ensures
            final(self)@ == ended(old(self)@),
    {
        reveal(fun_of);
        reveal(crate::types::ty_of);
        let ghost before = self@;
        let void = match &self.returns {
            AzulaType::Void => true,
            _ => false,
        };
        let mut i: usize = 0;
        while i < self.blocks.len()
            invariant
                i <= self.blocks@.len(),
                void == (before.result is Void),
                self@ == (Fun { blocks: self@.blocks, ..before }),
                self.blocks@.len() == before.blocks.len(),
                forall|j: int|
                    i <= j < self.blocks@.len() ==> #[trigger] self@.blocks[j] == before.blocks[j],
                forall|j: int|
                    0 <= j < i ==> #[trigger] self@.blocks[j] == ended(before).blocks[j],
            decreases self.blocks@.len() - i,
        {
            reveal(fun_of);
            let ghost now = self@;
            assert(now.blocks[i as int] == before.blocks[i as int]);
            if !self.blocks[i].1.is_terminated() {
                if void {
                    self.blocks[i].1.instructions.push(Instruction::Return(None));
                } else {
                    self.blocks[i].1.instructions.push(Instruction::Unreachable);
                }
                assert(insts_of(self.blocks@[i as int].1.instructions@)
                    =~= before.blocks[i as int].1.push(terminator(before.result)));
            }
            assert forall|j: int| 0 <= j < self.blocks@.len() && j != i implies
                #[trigger] self@.blocks[j] == now.blocks[j] by {}
            i += 1;
        }
        assert(self@.blocks =~= ended(before).blocks);
    }

    /// The number of the next register.
    pub fn next_register(&self) -> (r: usize)
        ensures
            r == self@.registers,
    {
        reveal(fun_of);
        self.registers
    }

    /// Count one more conditional or loop.
    pub fn next_if(&mut self) -> (r: Option<usize>)
        ensures
            match r {
                Some(n) => n == old(self)@.if_index && n < usize::MAX && final(self)@ == (Fun {
                    if_index: (n + 1) as usize,
                    ..old(self)@
                }),
                None => old(self)@.if_index == usize::MAX && final(self)@ == old(self)@,
            },
    {
        reveal(fun_of);
        let n: usize = self.if_block_index;
        if n == usize::MAX {
            return None;
        }
        self.if_block_index = n + 1;
        Some(n)
    }

    /// Count one more match.
    pub fn next_match(&mut self) -> (r: Option<usize>)
        ensures
            match r {
                Some(n) => n == old(self)@.match_index && n < usize::MAX && final(self)@ == (Fun {
                    match_index: (n + 1) as usize,
                    ..old(self)@
                }),
                None => old(self)@.match_index == usize::MAX && final(self)@ == old(self)@,
            },
    {
        reveal(fun_of);
        let n: usize = self.match_block_index;
        if n == usize::MAX {
            return None;
        }
        self.match_block_index = n + 1;
        Some(n)
    }

    /// Write a variable.
    pub fn store(&mut self, name: String, value: Value, typ: AzulaType<'a>)
        ensures
            final(self)@ == appended(
                old(self)@,
                Inst::Store(name@, value, crate::types::ty_of(typ)),
            ),
    {
        self.push_instruction(Instruction::Store(name, value, typ));
    }

    /// Go to another block.
    pub fn jump(&mut self, target: String)
        ensures
            final(self)@ == appended(old(self)@, Inst::Jump(target@)),
    {
        self.push_instruction(Instruction::Jump(target));
    }

    /// Go to one of two blocks.
    pub fn jcond(&mut self, condition: Value, yes: String, no: String)
        ensures
            final(self)@ == appended(old(self)@, Inst::Jcond(condition, yes@, no@)),
    {
        self.push_instruction(Instruction::Jcond(condition, yes, no));
    }
}

/// The layout of a struct: its members in order.
#[derive(Debug, PartialEq)]
pub struct Struct<'a> {
    pub name: String,
    pub attributes: Vec<(AzulaType<'a>, String)>,
}

/// The model of a struct.
pub struct StructDef {
    pub name: Seq<char>,
    pub attributes: Seq<(Ty, Seq<char>)>,
}

/// A function that is defined elsewhere.
#[derive(Debug, PartialEq)]
pub struct ExternFunction<'a> {
    pub varargs: bool,
    pub arguments: Vec<AzulaType<'a>>,
    pub returns: AzulaType<'a>,
}

/// The model of a function that is defined elsewhere.
pub struct Extern {
    pub varargs: bool,
    pub arguments: Seq<Ty>,
    pub result: Ty,
}

/// The initial value of a global.
#[derive(Debug, PartialEq, Clone, Copy)]
pub enum GlobalValue {
    Int(i64),
    /// The bits of a 64-bit IEEE 754 number
    Float(u64),
    Bool(bool),
    /// The string constant of that number
    String(usize),
}

/// A whole program.
#[derive(Debug, PartialEq)]
pub struct Module<'a> {
    pub name: &'a str,
    pub functions: NameMap<Function<'a>>,
    pub extern_functions: NameMap<ExternFunction<'a>>,
    /// The string constants
    pub strings: Vec<String>,
    pub global_values: NameMap<GlobalValue>,
    pub structs: NameMap<Struct<'a>>,
    /// The variants of each enum
    pub enums: NameMap<Vec<String>>,
    /// The enums whose values live on the heap, because a variant has a payload
    pub boxed_enums: NameMap<()>,
}

/// The model of a program.
pub struct Mod {
    pub name: Seq<char>,
    pub functions: Seq<(Seq<char>, Fun)>,
    pub extern_functions: Seq<(Seq<char>, Extern)>,
    pub strings: Seq<Seq<char>>,
    pub global_values: Seq<(Seq<char>, GlobalValue)>,
    pub structs: Seq<(Seq<char>, StructDef)>,
    pub enums: Seq<(Seq<char>, Seq<Seq<char>>)>,
    pub boxed_enums: Seq<(Seq<char>, ())>,
}

/// The members in a list.
pub open spec fn members_of(s: Seq<(AzulaType, String)>) -> Seq<(Ty, Seq<char>)> {
    Seq::new(s.len(), |i: int| (crate::types::ty_of(s[i].0), s[i].1@))
}

/// The struct that `s` holds.
pub open spec fn struct_of(s: Struct) -> StructDef {
    StructDef { name: s.name@, attributes: members_of(s.attributes@) }
}

/// The external function that `f` holds.
pub open spec fn extern_of(f: ExternFunction) -> Extern {
    Extern {
        varargs: f.varargs,
        arguments: crate::types::types_of(f.arguments@),
        result: crate::types::ty_of(f.returns),
    }
}

/// The program that `m` holds.
#[verifier::opaque]
pub open spec fn mod_of<'a>(m: Module<'a>) -> Mod {
    Mod {
        name: m.name@,
        functions: crate::assoc::mapped(m.functions@, |f: Function<'a>| f@),
        extern_functions: crate::assoc::mapped(
            m.extern_functions@,
            |f: ExternFunction<'a>| extern_of(f),
        ),
        strings: crate::ast::names_of(m.strings@),
        global_values: m.global_values@,
        structs: crate::assoc::mapped(m.structs@, |s: Struct<'a>| struct_of(s)),
        enums: crate::assoc::mapped(m.enums@, |v: Vec<String>| crate::ast::names_of(v@)),
        boxed_enums: m.boxed_enums@,
    }
}

impl<'a> View for Module<'a> {
    type V = Mod;

    open spec fn view(&self) -> Mod {
        mod_of(*self)
    }
}

impl<'a> Module<'a> {
    /// The program without anything in it.
    pub fn new(name: &'a str) -> (r: Self)
        ensures
            r@ == (Mod {
                name: name@,
                functions: Seq::empty(),
                extern_functions: Seq::empty(),
                strings: Seq::empty(),
                global_values: Seq::empty(),
                structs: Seq::empty(),
                enums: Seq::empty(),
                boxed_enums: Seq::empty(),
            }),
    {
        reveal(mod_of);
        let r = Module {
            name,
            functions: NameMap::new(),
            extern_functions: NameMap::new(),
            strings: Vec::new(),
            global_values: NameMap::new(),
            structs: NameMap::new(),
            enums: NameMap::new(),
            boxed_enums: NameMap::new(),
        };
        assert(r@.functions =~= Seq::empty());
        assert(r@.extern_functions =~= Seq::empty());
        assert(r@.strings =~= Seq::empty());
        assert(r@.structs =~= Seq::empty());
        assert(r@.enums =~= Seq::empty());
        r
    }

    /// Add a function that is defined elsewhere.
    pub fn add_extern_function(&mut self, name: &str, f: ExternFunction<'a>)
        ensures
            final(self)@ == (Mod {
                extern_functions: crate::assoc::put(
                    old(self)@.extern_functions,
                    name@,
                    extern_of(f),
                ),
                ..old(self)@
            }),
    {
        reveal(mod_of);
        proof {
            crate::assoc::lemma_mapped_put(
                self.extern_functions@,
                |f: ExternFunction<'a>| extern_of(f),
                name@,
                f,
            );
        }
        self.extern_functions.insert(name.to_owned(), f);
    }

    /// Add a string constant.
    pub fn add_string(&mut self, s: String) -> (r: Value)
        ensures
            r == Value::Global(old(self)@.strings.len() as usize),
            final(self)@ == (Mod { strings: old(self)@.strings.push(s@), ..old(self)@ }),
    {
        reveal(mod_of);
        let ghost before = self@;
        let n: usize = self.strings.len();
        self.strings.push(s);
        assert(self@.strings =~= before.strings.push(s@));
        Value::Global(n)
    }

    /// Add a function.
    pub fn add_function(&mut self, name: String, f: Function<'a>)
        ensures
            final(self)@ == (Mod {
                functions: crate::assoc::put(old(self)@.functions, name@, f@),
                ..old(self)@
            }),
    {
        reveal(mod_of);
        proof {
            crate::assoc::lemma_mapped_put(
                self.functions@,
                |f: Function<'a>| f@,
                name@,
                f,
            );
        }
        self.functions.insert(name, f);
    }

    /// Add a global.
    pub fn add_global(&mut self, name: String, value: GlobalValue)
        ensures
            final(self)@ == (Mod {
                global_values: crate::assoc::put(old(self)@.global_values, name@, value),
                ..old(self)@
            }),
    {
        reveal(mod_of);
        self.global_values.insert(name, value);
    }

    /// Note that the values of an enum live on the heap.
    pub fn add_boxed(&mut self, name: String)
        ensures
            final(self)@ == (Mod {
                boxed_enums: crate::assoc::put(old(self)@.boxed_enums, name@, ()),
                ..old(self)@
            }),
    {
        reveal(mod_of);
        self.boxed_enums.insert(name, ());
    }

    /// End every block of every function that has not ended.
    pub fn end_blocks(&mut self)
        ensures
            final(self)@ == (Mod {
                functions: crate::assoc::mapped(old(self)@.functions, |f: Fun| ended(f)),
                ..old(self)@
            }),
    {
        reveal(mod_of);
        let ghost before = self@;
        let mut i: usize = 0;
        while i < self.functions.len()
            invariant
                i <= self.functions@.len(),
                self@ == (Mod { functions: self@.functions, ..before }),
                self.functions@.len() == before.functions.len(),
                forall|j: int|
                    i <= j < self.functions@.len() ==> #[trigger] self@.functions[j]
                        == before.functions[j],
                forall|j: int|
                    0 <= j < i ==> #[trigger] self@.functions[j] == (
                        before.functions[j].0,
                        ended(before.functions[j].1),
                    ),
            decreases self.functions@.len() - i,
        {
            reveal(mod_of);
            let ghost now = self@;
            assert(now.functions[i as int] == before.functions[i as int]);
            self.functions.value_at_mut(i).end_blocks();
            assert forall|j: int| 0 <= j < self.functions@.len() && j != i implies
                #[trigger] self@.functions[j] == now.functions[j] by {}
            i += 1;
        }
        assert(self@.functions =~= crate::assoc::mapped(before.functions, |f: Fun| ended(f)));
    }

    /// Add a struct.
    pub fn add_struct(&mut self, name: String, s: Struct<'a>)
        ensures
            final(self)@ == (Mod {
                structs: crate::assoc::put(old(self)@.structs, name@, struct_of(s)),
                ..old(self)@
            }),
    {
        reveal(mod_of);
        proof {
            crate::assoc::lemma_mapped_put(
                self.structs@,
                |s: Struct<'a>| struct_of(s),
                name@,
                s,
            );
        }
        self.structs.insert(name, s);
    }

    /// Add an enum.
    pub fn add_enum(&mut self, name: String, variants: Vec<String>)
        ensures
            final(self)@ == (Mod {
                enums: crate::assoc::put(
                    old(self)@.enums,
                    name@,
                    crate::ast::names_of(variants@),
                ),
                ..old(self)@
            }),
    {
        reveal(mod_of);
        proof {
            crate::assoc::lemma_mapped_put(
                self.enums@,
                |v: Vec<String>| crate::ast::names_of(v@),
                name@,
                variants,
            );
        }
        self.enums.insert(name, variants);
    }

    /// The number of structs.
    pub fn struct_count(&self) -> (r: usize)
        ensures
            r == self@.structs.len(),
    {
        reveal(mod_of);
        self.structs.len()
    }

    /// The initial value of the global `name`.
    pub fn find_global(&self, name: &str) -> (r: Option<GlobalValue>)
        ensures
            r == crate::assoc::get(self@.global_values, name@),
    {
        reveal(mod_of);
        match self.global_values.get(name) {
            Some(v) => Some(*v),
            None => None,
        }
    }

    /// Whether the values of the enum `name` live on the heap.
    pub fn is_boxed(&self, name: &str) -> (r: bool)
        ensures
            r == crate::assoc::defined(self@.boxed_enums, name@),
    {
        reveal(mod_of);
        self.boxed_enums.contains_key(name)
    }

    /// The struct `name`.
    pub fn find_struct(&self, name: &str) -> (r: Option<&Struct<'a>>)
        ensures
            match r {
                Some(s) => crate::assoc::get(self@.structs, name@) == Some(struct_of(*s)),
                None => crate::assoc::get(self@.structs, name@) is None,
            },
    {
        reveal(mod_of);
        proof {
            crate::assoc::lemma_mapped_get(self.structs@, |s: Struct<'a>| struct_of(s), name@);
        }
        self.structs.get(name)
    }

    /// The variants of the enum `name`.
    pub fn find_enum(&self, name: &str) -> (r: Option<&Vec<String>>)
        ensures
            match r {
                Some(v) => crate::assoc::get(self@.enums, name@) == Some(
                    crate::ast::names_of(v@),
                ),
                None => crate::assoc::get(self@.enums, name@) is None,
            },
    {
        reveal(mod_of);
        proof {
            crate::assoc::lemma_mapped_get(
                self.enums@,
                |v: Vec<String>| crate::ast::names_of(v@),
                name@,
            );
        }
        self.enums.get(name)
    }
}

} // verus!
