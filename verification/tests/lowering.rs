//! Lowering to LLVM: the steps that build a module.

use std::rc::Rc;

use azula::ast::{Expression, ExpressionNode, Operator, Span, Statement};
use azula::codegen::Codegen;
use azula::ir::{ExternFunction, Function, GlobalValue, Instruction, Module, Struct, Value};
use azula::llvm::{FunctionLocals, LLVMCodegen, Operation, Signature};
use azula::lowering::{IntOp, Label, Linkage, LlvmType, Op, Operand, Predicate};
use azula::types::AzulaType;

fn operand(id: usize, ty: LlvmType) -> Operand {
    Operand { id, ty }
}

/// The steps of a module whose only function, `f`, holds the instructions.
fn steps<'a>(returns: AzulaType<'a>, code: Vec<Instruction<'a>>) -> Vec<Operation> {
    let mut module = Module::new("test");
    module.add_function("f".to_string(), function(returns, code));
    all(&module)
}

fn function<'a>(returns: AzulaType<'a>, code: Vec<Instruction<'a>>) -> Function<'a> {
    let mut f = Function::new();
    f.returns = returns;
    for i in code {
        f.push_instruction(i);
    }
    f
}

fn all(module: &Module) -> Vec<Operation> {
    let mut lowered = LLVMCodegen::codegen(module).unwrap();
    take(&mut lowered)
}

fn take(lowered: &mut LLVMCodegen) -> Vec<Operation> {
    let mut r = vec![];
    for o in lowered.operations() {
        r.push(copy(o));
    }
    r
}

fn copy(o: &Operation) -> Operation {
    match o {
        Op::OpaqueStruct(n) => Op::OpaqueStruct(n.clone()),
        Op::SetBody(n, t) => Op::SetBody(*n, t.clone()),
        Op::DeclareFunction(n, t, r, v, l) => {
            Op::DeclareFunction(n.clone(), t.clone(), *r, *v, *l)
        }
        Op::AppendBlock(f, n) => Op::AppendBlock(*f, n.clone()),
        Op::Position(b) => Op::Position(*b),
        Op::GlobalString(s) => Op::GlobalString(s.clone()),
        Op::GlobalInt(n, v) => Op::GlobalInt(n.clone(), *v),
        Op::GlobalFloat(n, v) => Op::GlobalFloat(n.clone(), *v),
        Op::GlobalBool(n, v) => Op::GlobalBool(n.clone(), *v),
        Op::Param(f, n) => Op::Param(*f, *n),
        Op::ConstInt(w, v) => Op::ConstInt(*w, *v),
        Op::ConstFloat(v) => Op::ConstFloat(*v),
        Op::ConstNull => Op::ConstNull,
        Op::ConstStruct(n) => Op::ConstStruct(*n),
        Op::SizeOf(t) => Op::SizeOf(*t),
        Op::Alloca(t) => Op::Alloca(*t),
        Op::Load(t, p, l) => Op::Load(*t, *p, *l),
        Op::Store(p, v) => Op::Store(*p, *v),
        Op::Gep(t, p, i, l) => Op::Gep(*t, *p, *i, *l),
        Op::StructGep(n, p, i) => Op::StructGep(*n, *p, *i),
        Op::InsertValue(s, v, i, l) => Op::InsertValue(*s, *v, *i, *l),
        Op::ExtractValue(s, i) => Op::ExtractValue(*s, *i),
        Op::Int(o, a, b) => Op::Int(*o, *a, *b),
        Op::Float(o, a, b) => Op::Float(*o, *a, *b),
        Op::IntCompare(p, a, b) => Op::IntCompare(*p, *a, *b),
        Op::FloatCompare(p, a, b) => Op::FloatCompare(*p, *a, *b),
        Op::Not(v) => Op::Not(*v),
        Op::ZeroExtend(v, w, l) => Op::ZeroExtend(*v, *w, *l),
        Op::SignExtend(v, w, l) => Op::SignExtend(*v, *w, *l),
        Op::Truncate(v, w) => Op::Truncate(*v, *w),
        Op::FloatExtend(v) => Op::FloatExtend(*v),
        Op::IntToFloat(v, w) => Op::IntToFloat(*v, *w),
        Op::FloatToInt(v, w) => Op::FloatToInt(*v, *w),
        Op::IntToPointer(v) => Op::IntToPointer(*v),
        Op::PointerToInt(v, w) => Op::PointerToInt(*v, *w),
        Op::ArrayMalloc(t, n) => Op::ArrayMalloc(*t, *n),
        Op::Call(f, vs, l) => Op::Call(*f, vs.clone(), *l),
        Op::Branch(b) => Op::Branch(*b),
        Op::CondBranch(c, a, b) => Op::CondBranch(*c, *a, *b),
        Op::Return(v) => Op::Return(*v),
        Op::Unreachable => Op::Unreachable,
    }
}

const INT: LlvmType = LlvmType::Int(64);

#[test]
fn functions_are_declared_before_they_are_built() {
    let ops = steps(AzulaType::Void, vec![Instruction::Return(None)]);
    assert_eq!(
        ops,
        vec![
            Op::DeclareFunction(
                "pow".to_string(),
                vec![LlvmType::Float(64), LlvmType::Float(64)],
                Some(LlvmType::Float(64)),
                false,
                Linkage::External
            ),
            Op::DeclareFunction("f".to_string(), vec![], None, false, Linkage::Private),
            Op::AppendBlock(1, "entry".to_string()),
            Op::Position(2),
            Op::Position(2),
            Op::Return(None),
        ]
    );
}

#[test]
fn main_returns_an_exit_code() {
    let mut module = Module::new("test");
    module.add_function(
        "main".to_string(),
        function(AzulaType::Void, vec![Instruction::Return(None)]),
    );
    let ops = all(&module);
    assert_eq!(
        ops[1],
        Op::DeclareFunction(
            "main".to_string(),
            vec![],
            Some(LlvmType::Int(32)),
            false,
            Linkage::Default
        )
    );
    assert_eq!(ops[5], Op::ConstInt(32, 0));
    assert_eq!(ops[6], Op::Return(Some(operand(5, LlvmType::Int(32)))));
}

#[test]
fn integers_are_brought_to_one_width() {
    let ops = steps(
        AzulaType::Int,
        vec![
            Instruction::ConstInt(-2, 0),
            Instruction::ConstTrue(1),
            Instruction::Add(Value::Local(0), Value::Local(1), 2),
            Instruction::Lt(Value::Local(2), Value::Local(0), 3),
            Instruction::Return(Some(Value::Local(3))),
        ],
    );
    let a = operand(5, INT);
    let b = operand(6, LlvmType::Int(1));
    assert_eq!(
        ops[5..],
        [
            Op::ConstInt(64, u64::MAX - 1),
            Op::ConstInt(1, 1),
            Op::SignExtend(b, 64, Label::Extend),
            Op::Int(IntOp::Add, a, operand(7, INT)),
            Op::IntCompare(Predicate::Lt, operand(8, INT), a),
            Op::ZeroExtend(operand(9, LlvmType::Int(1)), 64, Label::Extend),
            Op::Return(Some(operand(10, INT))),
        ]
    );
}

#[test]
fn coercion_gives_the_width_of_the_target() {
    let module = Module::new("test");
    let mut l = LLVMCodegen::codegen(&module).unwrap();
    let v = l.coerce_int_width(operand(0, LlvmType::Int(8)), INT);
    assert_eq!(v, operand(1, INT));
    let w = l.coerce_int_width(v, LlvmType::Int(16));
    assert_eq!(w, operand(2, LlvmType::Int(16)));
    assert_eq!(l.coerce_int_width(w, LlvmType::Int(16)), w);
    assert_eq!(l.coerce_int_width(w, LlvmType::Pointer), w);
    let (a, b) = l.harmonize(v, w);
    assert_eq!(a, v);
    assert_eq!(b, operand(3, INT));
    let ops = take(&mut l);
    assert_eq!(
        ops[1..],
        [
            Op::SignExtend(operand(0, LlvmType::Int(8)), 64, Label::Extend),
            Op::Truncate(v, 16),
            Op::SignExtend(w, 64, Label::Extend),
        ]
    );
}

#[test]
fn types_have_llvm_types() {
    let mut module = Module::new("test");
    module.add_struct(
        "Pair".to_string(),
        Struct {
            name: "Pair".to_string(),
            attributes: vec![
                (AzulaType::Int, "a".to_string()),
                (AzulaType::Str, "b".to_string()),
            ],
        },
    );
    module.add_enum("Plain".to_string(), vec!["A".to_string()]);
    module.add_enum("Boxed".to_string(), vec!["B".to_string()]);
    module.add_boxed("Boxed".to_string());
    let l = LLVMCodegen::codegen(&module).unwrap();
    let named = |n: &str| AzulaType::Named(n.to_string());
    let lower = |t: &AzulaType| l.azula_type_to_llvm_basic_type(t);
    assert_eq!(lower(&AzulaType::Int), Some(INT));
    assert_eq!(lower(&AzulaType::SizedSignedInt(16)), Some(LlvmType::Int(16)));
    assert_eq!(lower(&AzulaType::SizedUnsignedInt(7)), None);
    assert_eq!(lower(&AzulaType::Bool), Some(LlvmType::Int(1)));
    assert_eq!(lower(&AzulaType::SizedFloat(32)), Some(LlvmType::Float(32)));
    assert_eq!(lower(&AzulaType::Str), Some(LlvmType::Pointer));
    assert_eq!(lower(&AzulaType::Pointer(Rc::new(AzulaType::Int))), Some(LlvmType::Pointer));
    assert_eq!(lower(&named("Pair")), Some(LlvmType::Struct(0)));
    assert_eq!(lower(&named("Plain")), Some(INT));
    assert_eq!(lower(&named("Boxed")), Some(LlvmType::Pointer));
    assert_eq!(lower(&named("Other")), None);
    assert_eq!(lower(&AzulaType::Void), None);
    assert_eq!(l.operations()[0], Op::OpaqueStruct("Pair".to_string()));
    assert_eq!(l.operations()[1], Op::SetBody(0, vec![INT, LlvmType::Pointer]));
}

#[test]
fn constants_are_built_in_the_first_block() {
    let mut module = Module::new("test");
    module.add_string("hi".to_string());
    module.add_global("g".to_string(), GlobalValue::Int(9));
    module.add_global("s".to_string(), GlobalValue::String(0));
    module.add_function(
        "f".to_string(),
        function(
            AzulaType::Int,
            vec![
                Instruction::LoadGlobal("g".to_string(), 0, AzulaType::Int),
                Instruction::Return(Some(Value::Local(0))),
            ],
        ),
    );
    let ops = all(&module);
    assert_eq!(
        ops[4..],
        [
            Op::Position(2),
            Op::GlobalString("hi".to_string()),
            Op::GlobalInt("g".to_string(), 9),
            Op::Load(INT, operand(6, LlvmType::Pointer), Label::Load),
            Op::Return(Some(operand(7, INT))),
        ]
    );
}

#[test]
fn variables_are_allocated_in_the_entry_block() {
    let mut module = Module::new("test");
    let mut f = function(
        AzulaType::Void,
        vec![
            Instruction::Store("x".to_string(), Value::LiteralInteger(5), AzulaType::Int),
            Instruction::Pointer("x".to_string(), 0),
            Instruction::Return(None),
        ],
    );
    f.declare("x".to_string(), AzulaType::Int);
    module.add_function("f".to_string(), f);
    let ops = all(&module);
    assert_eq!(ops[4], Op::Alloca(INT));
    assert_eq!(ops[6], Op::ConstInt(64, 5));
    assert_eq!(ops[7], Op::Store(operand(4, LlvmType::Pointer), operand(6, INT)));
}

#[test]
fn further_arguments_are_promoted() {
    let mut module = Module::new("test");
    module.add_extern_function(
        "printf",
        ExternFunction {
            varargs: true,
            arguments: vec![AzulaType::Str],
            returns: AzulaType::SizedSignedInt(32),
        },
    );
    module.add_string("%d".to_string());
    module.add_function(
        "f".to_string(),
        function(
            AzulaType::Void,
            vec![
                Instruction::ConstTrue(0),
                Instruction::FunctionCall(
                    "printf".to_string(),
                    vec![Value::Global(0), Value::Local(0)],
                    1,
                ),
                Instruction::Return(None),
            ],
        ),
    );
    let ops = all(&module);
    assert_eq!(
        ops[0],
        Op::DeclareFunction(
            "printf".to_string(),
            vec![LlvmType::Pointer],
            Some(LlvmType::Int(32)),
            true,
            Linkage::External
        )
    );
    assert_eq!(
        ops[6..9],
        [
            Op::GlobalString("%d".to_string()),
            Op::ConstInt(1, 1),
            Op::ZeroExtend(operand(7, LlvmType::Int(1)), 32, Label::Promote),
        ]
    );
    assert_eq!(
        ops[9],
        Op::Call(
            0,
            vec![operand(6, LlvmType::Pointer), operand(8, LlvmType::Int(32))],
            Label::Call
        )
    );
}

#[test]
fn branches_lead_to_blocks_of_the_function() {
    let mut module = Module::new("test");
    let mut f = Function::new();
    f.push_instruction(Instruction::ConstTrue(0));
    f.jcond(Value::Local(0), "yes".to_string(), "no".to_string());
    f.open_block("yes".to_string());
    f.jump("no".to_string());
    f.open_block("no".to_string());
    f.push_instruction(Instruction::Return(None));
    module.add_function("f".to_string(), f);
    let ops = all(&module);
    assert_eq!(
        ops[5..],
        [
            Op::ConstInt(1, 1),
            Op::AppendBlock(1, "yes".to_string()),
            Op::AppendBlock(1, "no".to_string()),
            Op::CondBranch(operand(5, LlvmType::Int(1)), 6, 7),
            Op::Position(6),
            Op::Branch(7),
            Op::Position(7),
            Op::Return(None),
        ]
    );
}

#[test]
fn structs_are_made_and_read_by_member() {
    let mut module = Module::new("test");
    module.add_struct(
        "Pair".to_string(),
        Struct {
            name: "Pair".to_string(),
            attributes: vec![
                (AzulaType::Int, "a".to_string()),
                (AzulaType::Bool, "b".to_string()),
            ],
        },
    );
    module.add_function(
        "f".to_string(),
        function(
            AzulaType::Bool,
            vec![
                Instruction::ConstInt(1, 0),
                Instruction::ConstFalse(1),
                Instruction::CreateStruct(
                    "Pair".to_string(),
                    vec![Value::Local(0), Value::Local(1)],
                    2,
                ),
                Instruction::AccessStructMember(
                    Value::Local(2),
                    1,
                    3,
                    true,
                    "Pair".to_string(),
                ),
                Instruction::Return(Some(Value::Local(3))),
            ],
        ),
    );
    let ops = all(&module);
    let s = LlvmType::Struct(0);
    assert_eq!(
        ops[9..],
        [
            Op::ConstStruct(0),
            Op::InsertValue(operand(9, s), operand(7, INT), 0, Label::Insert),
            Op::InsertValue(operand(10, s), operand(8, LlvmType::Int(1)), 1, Label::Insert),
            Op::ExtractValue(operand(11, s), 1),
            Op::Return(Some(operand(12, LlvmType::Int(1)))),
        ]
    );
}

#[test]
fn what_has_no_lowering_gives_nothing() {
    let lower = |code| {
        let mut module = Module::new("test");
        module.add_function("f".to_string(), function(AzulaType::Void, code));
        LLVMCodegen::codegen(&module).is_some()
    };
    assert!(lower(vec![Instruction::Return(None)]));
    // A register that was never written
    assert!(!lower(vec![Instruction::Not(Value::Local(3), 0)]));
    // A variable that was never declared
    assert!(!lower(vec![Instruction::Load("x".to_string(), 0, AzulaType::Int)]));
    // A function that was never declared
    assert!(!lower(vec![Instruction::FunctionCall("g".to_string(), vec![], 0)]));
    // A pointer compared by size
    assert!(!lower(vec![
        Instruction::ConstNull(0),
        Instruction::Lt(Value::Local(0), Value::Local(0), 1),
    ]));
}

#[test]
fn values_of_registers_are_kept() {
    let mut locals = FunctionLocals::new();
    assert_eq!(locals.load(3), None);
    locals.store(3, operand(7, INT));
    assert_eq!(locals.load(3), Some(operand(7, INT)));
    locals.store(3, operand(8, LlvmType::Pointer));
    assert_eq!(locals.load(3), Some(operand(8, LlvmType::Pointer)));
}

#[test]
fn instructions_can_be_lowered_one_by_one() {
    let module = Module::new("test");
    let mut l = LLVMCodegen::codegen(&module).unwrap();
    let mut locals = FunctionLocals::new();
    let sig = Signature { id: 0, params: vec![INT], result: Some(INT) };
    let step = |l: &mut LLVMCodegen, locals: &mut FunctionLocals, i| {
        l.codegen_instruction(&i, &sig, locals)
    };
    assert_eq!(
        step(&mut l, &mut locals, Instruction::LoadArg(0, 0, AzulaType::Int)),
        Some(())
    );
    assert_eq!(
        step(&mut l, &mut locals, Instruction::LoadArg(1, 1, AzulaType::Int)),
        None
    );
    assert_eq!(locals.load(0), Some(operand(1, INT)));
    assert_eq!(l.operations()[1], Op::Param(0, 0));
}

fn node<'a>(expression: Expression<'a>, typed: AzulaType<'a>) -> ExpressionNode<'a> {
    ExpressionNode { expression, typed, span: Span { start: 0, end: 0 } }
}

#[test]
fn generated_programs_can_be_lowered() {
    let n = || Rc::new(node(Expression::Identifier("n".to_string()), AzulaType::Int));
    let one = || Rc::new(node(Expression::Integer(1), AzulaType::Int));
    let span = || Span { start: 0, end: 0 };
    let call = node(
        Expression::FunctionCall {
            function: Rc::new(node(
                Expression::Identifier("fact".to_string()),
                AzulaType::Infer,
            )),
            args: vec![node(Expression::Infix(n(), Operator::Sub, one()), AzulaType::Int)],
        },
        AzulaType::Int,
    );
    let root = Statement::Root(vec![Statement::Function {
        name: "fact",
        args: vec![(AzulaType::Int, "n")],
        returns: AzulaType::Int,
        body: Rc::new(Statement::Block(vec![
            Statement::If(
                node(Expression::Infix(n(), Operator::Lte, one()), AzulaType::Bool),
                vec![Statement::Return(
                    Some(node(Expression::Integer(1), AzulaType::Int)),
                    span(),
                )],
                None,
                span(),
            ),
            Statement::Return(
                Some(node(
                    Expression::Infix(n(), Operator::Mul, Rc::new(call)),
                    AzulaType::Int,
                )),
                span(),
            ),
        ])),
        span: span(),
    }]);
    let mut codegen = Codegen::new("test", root);
    codegen.codegen();
    codegen.insert_implicit_return();
    let ops = all(codegen.program());
    assert_eq!(ops[1], Op::DeclareFunction(
        "fact".to_string(),
        vec![INT],
        Some(INT),
        false,
        Linkage::Private
    ));
    let calls = ops
        .iter()
        .filter(|o| matches!(o, Op::Call(1, vs, Label::Call) if vs.len() == 1))
        .count();
    assert_eq!(calls, 1);
    // Steps fit to those before them
    for (at, o) in ops.iter().enumerate() {
        match o {
            Op::Int(_, a, b) | Op::IntCompare(_, a, b) => {
                assert!(a.id < at && b.id < at);
                assert_eq!(a.ty, INT);
                assert_eq!(b.ty, INT);
            }
            Op::Load(_, p, _) | Op::Store(p, _) => {
                assert_eq!(ops[p.id], Op::Alloca(INT));
                assert_eq!(p.ty, LlvmType::Pointer);
            }
            Op::Position(b) | Op::Branch(b) => assert!(matches!(ops[*b], Op::AppendBlock(1, _))),
            Op::CondBranch(c, x, y) => {
                assert!(matches!(ops[c.id], Op::IntCompare(..)));
                assert!(matches!(ops[*x], Op::AppendBlock(1, _)));
                assert!(matches!(ops[*y], Op::AppendBlock(1, _)));
            }
            _ => {}
        }
    }
}
