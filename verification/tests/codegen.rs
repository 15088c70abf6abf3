//! Generating code: the intermediate representation of expressions, statements,
//! functions and programs.

use std::rc::Rc;

use azula::ast::{Expression, ExpressionNode, MatchPattern, Operator, Span, Statement};
use azula::codegen::Codegen;
use azula::ir::{Function, GlobalValue, Instruction, Value};
use azula::types::AzulaType;

fn span() -> Span {
    Span { start: 0, end: 1 }
}

fn node<'a>(expression: Expression<'a>, typed: AzulaType<'a>) -> ExpressionNode<'a> {
    ExpressionNode { expression, typed, span: span() }
}

fn integer<'a>(v: i64) -> ExpressionNode<'a> {
    node(Expression::Integer(v), AzulaType::Int)
}

fn boolean<'a>(v: bool) -> ExpressionNode<'a> {
    node(Expression::Boolean(v), AzulaType::Bool)
}

fn name<'a>(n: &str, typed: AzulaType<'a>) -> ExpressionNode<'a> {
    node(Expression::Identifier(n.to_string()), typed)
}

fn block_names(func: &Function) -> Vec<String> {
    func.blocks.iter().map(|b| b.0.clone()).collect()
}

#[test]
fn test_codegen_function() {
    let mut codegen = Codegen::new("test", Statement::Root(vec![]));

    codegen.codegen_function(Statement::Function {
        name: "test",
        args: vec![(AzulaType::Bool, "x")],
        returns: AzulaType::Int,
        body: Rc::new(Statement::Block(vec![])),
        span: Span { start: 0, end: 1 },
    });

    assert_eq!(codegen.module.functions.len(), 1);
    let function = codegen.module.functions.get("test").unwrap();
    let mut args = vec![];
    args.push(("x".to_string(), AzulaType::Bool));
    assert_eq!(function.arguments, args);
    assert_eq!(function.returns, AzulaType::Int);
}

#[test]
fn test_codegen_consts() {
    let mut codegen = Codegen::new("test", Statement::Root(vec![]));

    // Integer
    let mut func = Function::new();
    codegen.codegen_expr(
        ExpressionNode {
            expression: Expression::Integer(5),
            typed: AzulaType::Int,
            span: Span { start: 0, end: 1 },
        },
        &mut func,
        true,
    );
    assert_eq!(func.blocks[0].1.instructions, vec![Instruction::ConstInt(5, 0)]);

    // True
    let mut func = Function::new();
    codegen.codegen_expr(
        ExpressionNode {
            expression: Expression::Boolean(true),
            typed: AzulaType::Int,
            span: Span { start: 0, end: 1 },
        },
        &mut func,
        true,
    );
    assert_eq!(func.blocks[0].1.instructions, vec![Instruction::ConstTrue(0)]);

    // False
    let mut func = Function::new();
    codegen.codegen_expr(
        ExpressionNode {
            expression: Expression::Boolean(false),
            typed: AzulaType::Int,
            span: Span { start: 0, end: 1 },
        },
        &mut func,
        true,
    );
    assert_eq!(func.blocks[0].1.instructions, vec![Instruction::ConstFalse(0)]);
}

#[test]
fn test_codegen_if() {
    let mut codegen = Codegen::new("test", Statement::Root(vec![]));
    let mut func = Function::new();

    codegen.codegen_if(
        Statement::If(
            ExpressionNode {
                expression: Expression::Boolean(true),
                typed: AzulaType::Bool,
                span: Span { start: 0, end: 0 },
            },
            vec![],
            None,
            Span { start: 0, end: 0 },
        ),
        &mut func,
    );

    assert_eq!(func.blocks.len(), 3);
}

fn infix_code<'a>(operator: Operator) -> Vec<Instruction<'a>> {
    let mut codegen = Codegen::new("test", Statement::Root(vec![]));
    let mut func = Function::new();
    codegen.codegen_expr(
        ExpressionNode {
            expression: Expression::Infix(
                Rc::new(ExpressionNode {
                    expression: Expression::Integer(10),
                    typed: AzulaType::Int,
                    span: Span { start: 0, end: 1 },
                }),
                operator,
                Rc::new(ExpressionNode {
                    expression: Expression::Integer(20),
                    typed: AzulaType::Int,
                    span: Span { start: 0, end: 1 },
                }),
            ),
            typed: AzulaType::Int,
            span: Span { start: 0, end: 1 },
        },
        &mut func,
        true,
    );
    func.blocks.remove(0).1.instructions
}

#[test]
fn test_codegen_infix() {
    // Addition
    assert_eq!(
        infix_code(Operator::Add),
        vec![
            Instruction::ConstInt(10, 0),
            Instruction::ConstInt(20, 1),
            Instruction::Add(Value::Local(0), Value::Local(1), 2)
        ]
    );

    // Subtraction
    assert_eq!(
        infix_code(Operator::Sub),
        vec![
            Instruction::ConstInt(10, 0),
            Instruction::ConstInt(20, 1),
            Instruction::Sub(Value::Local(0), Value::Local(1), 2)
        ]
    );

    // Multiplication
    assert_eq!(
        infix_code(Operator::Mul),
        vec![
            Instruction::ConstInt(10, 0),
            Instruction::ConstInt(20, 1),
            Instruction::Mul(Value::Local(0), Value::Local(1), 2)
        ]
    );

    // Divide
    assert_eq!(
        infix_code(Operator::Div),
        vec![
            Instruction::ConstInt(10, 0),
            Instruction::ConstInt(20, 1),
            Instruction::Div(Value::Local(0), Value::Local(1), 2)
        ]
    );

    // Modulus
    assert_eq!(
        infix_code(Operator::Mod),
        vec![
            Instruction::ConstInt(10, 0),
            Instruction::ConstInt(20, 1),
            Instruction::Mod(Value::Local(0), Value::Local(1), 2)
        ]
    );
}

#[test]
fn test_codegen_enum_registration() {
    let root = Statement::Root(vec![Statement::Enum {
        name: "Color",
        variants: vec!["Red", "Green", "Blue"],
        payloads: vec![vec![], vec![], vec![]],
        span: Span { start: 0, end: 1 },
    }]);
    let mut codegen = Codegen::new("test", root);
    codegen.codegen();

    assert!(codegen.module.enums.contains_key("Color"));
    assert_eq!(
        *codegen.module.enums.get("Color").unwrap(),
        vec!["Red".to_string(), "Green".to_string(), "Blue".to_string()]
    );
}

#[test]
fn test_codegen_enum_variant_is_const_int() {
    let mut codegen = Codegen::new("test", Statement::Root(vec![]));
    codegen.module.add_enum(
        "Color".to_string(),
        vec!["Red".to_string(), "Green".to_string(), "Blue".to_string()],
    );

    let mut func = Function::new();
    codegen.codegen_expr(
        ExpressionNode {
            expression: Expression::NamespaceAccess(
                Rc::new(ExpressionNode {
                    expression: Expression::Identifier("Color".to_string()),
                    typed: AzulaType::Infer,
                    span: Span { start: 0, end: 5 },
                }),
                Rc::new(ExpressionNode {
                    expression: Expression::Identifier("Green".to_string()),
                    typed: AzulaType::Infer,
                    span: Span { start: 7, end: 12 },
                }),
            ),
            typed: AzulaType::Named("Color".to_string()),
            span: Span { start: 0, end: 12 },
        },
        &mut func,
        true,
    );
    // Green is index 1
    assert_eq!(func.blocks[0].1.instructions, vec![Instruction::ConstInt(1, 0)]);
}

#[test]
fn test_codegen_match_block_count() {
    let mut codegen = Codegen::new("test", Statement::Root(vec![]));
    codegen
        .module
        .add_enum("Color".to_string(), vec!["Red".to_string(), "Green".to_string()]);

    let mut func = Function::new();
    // Manually add scrutinee as a stored variable
    let scrut = func.const_int(0);
    func.variables.insert("__scrut".to_string(), AzulaType::Named("Color".to_string()));
    func.store("__scrut".to_string(), scrut, AzulaType::Named("Color".to_string()));
    let _scrut_loaded =
        func.load("__scrut".to_string(), AzulaType::Named("Color".to_string()));

    let arms = vec![
        (
            MatchPattern::Variant("Color", "Red"),
            ExpressionNode {
                expression: Expression::Integer(10),
                typed: AzulaType::Int,
                span: Span { start: 0, end: 1 },
            },
        ),
        (
            MatchPattern::Variant("Color", "Green"),
            ExpressionNode {
                expression: Expression::Integer(20),
                typed: AzulaType::Int,
                span: Span { start: 0, end: 1 },
            },
        ),
    ];

    codegen.codegen_match(
        Rc::new(ExpressionNode {
            expression: Expression::Identifier("__scrut".to_string()),
            typed: AzulaType::Named("Color".to_string()),
            span: Span { start: 0, end: 1 },
        }),
        arms,
        AzulaType::Int,
        &mut func,
    );

    // entry + match-arm-0-0 + match-next-0-1 + match-arm-0-1 + match-end-0 = 5 blocks
    assert_eq!(func.blocks.len(), 5);
    assert_eq!(func.match_block_index, 1);
}

#[test]
fn conditionals_join_their_branches() {
    let mut codegen = Codegen::new("test", Statement::Root(vec![]));
    let mut func = Function::new();
    codegen.codegen_if(
        Statement::If(
            boolean(true),
            vec![Statement::Return(Some(integer(1)), span())],
            Some(Rc::new(Statement::Block(vec![]))),
            span(),
        ),
        &mut func,
    );
    assert_eq!(block_names(&func), vec!["entry", "true-0", "else-0", "end-0"]);
    assert_eq!(
        func.blocks[0].1.instructions,
        vec![
            Instruction::ConstTrue(0),
            Instruction::Jcond(Value::Local(0), "true-0".to_string(), "else-0".to_string()),
        ]
    );
    // The branch that returns does not go on to the end
    assert_eq!(
        func.blocks[1].1.instructions,
        vec![Instruction::ConstInt(1, 1), Instruction::Return(Some(Value::Local(1)))]
    );
    assert_eq!(func.blocks[2].1.instructions, vec![Instruction::Jump("end-0".to_string())]);
    assert_eq!(func.current_block, "end-0");
}

#[test]
fn loops_test_their_condition_and_can_be_left() {
    let mut codegen = Codegen::new("test", Statement::Root(vec![]));
    let mut func = Function::new();
    codegen.codegen_while(
        Statement::While(
            boolean(true),
            vec![Statement::If(
                boolean(false),
                vec![Statement::Break(span())],
                Some(Rc::new(Statement::Continue(span()))),
                span(),
            )],
            span(),
        ),
        &mut func,
    );
    assert_eq!(
        block_names(&func),
        vec!["entry", "eval-0", "loop-0", "true-1", "else-1", "end-1", "end-0"]
    );
    assert_eq!(func.blocks[3].1.instructions, vec![Instruction::Jump("end-0".to_string())]);
    assert_eq!(func.blocks[4].1.instructions, vec![Instruction::Jump("eval-0".to_string())]);
    assert_eq!(func.blocks[5].1.instructions, vec![Instruction::Jump("eval-0".to_string())]);
}

#[test]
fn endless_loops_have_no_test() {
    let mut codegen = Codegen::new("test", Statement::Root(vec![]));
    let mut func = Function::new();
    codegen.codegen_for(Statement::For(None, vec![], span()), &mut func);
    assert_eq!(block_names(&func), vec!["entry", "loop-0", "end-0"]);
    assert_eq!(func.blocks[1].1.instructions, vec![Instruction::Jump("loop-0".to_string())]);
}

#[test]
fn the_right_operand_may_not_be_evaluated() {
    let mut codegen = Codegen::new("test", Statement::Root(vec![]));
    let mut func = Function::new();
    let v = codegen.codegen_infix(
        node(
            Expression::Infix(
                Rc::new(boolean(true)),
                Operator::And,
                Rc::new(boolean(false)),
            ),
            AzulaType::Bool,
        ),
        &mut func,
        true,
    );
    assert_eq!(v, Value::Local(3));
    assert_eq!(block_names(&func), vec!["entry", "sc_rhs_0", "sc_end_0"]);
    assert_eq!(
        func.blocks[0].1.instructions,
        vec![
            Instruction::ConstFalse(0),
            Instruction::Store("__sc_0".to_string(), Value::Local(0), AzulaType::Bool),
            Instruction::ConstTrue(1),
            Instruction::Jcond(
                Value::Local(1),
                "sc_rhs_0".to_string(),
                "sc_end_0".to_string()
            ),
        ]
    );
    assert_eq!(
        func.blocks[2].1.instructions,
        vec![Instruction::Load("__sc_0".to_string(), 3, AzulaType::Bool)]
    );
}

#[test]
fn inner_variables_hide_outer_ones_until_their_scope_ends() {
    let mut codegen = Codegen::new("test", Statement::Root(vec![]));
    let mut func = Function::new();
    codegen.codegen_assign(
        Statement::Assign(true, "x".to_string(), None, integer(1), span()),
        &mut func,
    );
    codegen.codegen_statement(
        Statement::Block(vec![
            Statement::Assign(true, "x".to_string(), None, integer(2), span()),
            Statement::ExpressionStatement(name("x", AzulaType::Int), span()),
        ]),
        &mut func,
    );
    codegen.codegen_statement(
        Statement::ExpressionStatement(name("x", AzulaType::Int), span()),
        &mut func,
    );
    assert_eq!(
        func.blocks[0].1.instructions,
        vec![
            Instruction::ConstInt(1, 0),
            Instruction::Store("x".to_string(), Value::Local(0), AzulaType::Int),
            Instruction::ConstInt(2, 1),
            Instruction::Store("x.1".to_string(), Value::Local(1), AzulaType::Int),
            Instruction::Load("x.1".to_string(), 2, AzulaType::Int),
            Instruction::Load("x".to_string(), 3, AzulaType::Int),
        ]
    );
}

#[test]
fn variables_get_names_of_their_own() {
    let mut codegen = Codegen::new("test", Statement::Root(vec![]));
    let mut func = Function::new();
    let declare = |n: &str| Statement::Assign(true, n.to_string(), None, integer(1), span());
    codegen.codegen_statement(declare("x"), &mut func);
    codegen.codegen_statement(Statement::Block(vec![declare("x"), declare("y")]), &mut func);
    codegen.codegen_statement(
        Statement::Block(vec![declare("y"), Statement::Block(vec![declare("x")])]),
        &mut func,
    );
    let stored: Vec<&str> = func.blocks[0]
        .1
        .instructions
        .iter()
        .filter_map(|i| match i {
            Instruction::Store(n, _, _) => Some(n.as_str()),
            _ => None,
        })
        .collect();
    assert_eq!(stored, vec!["x", "x.1", "y", "y.2", "x.3"]);
}

#[test]
fn assignments_store_to_variables_pointers_and_elements() {
    let mut codegen = Codegen::new("test", Statement::Root(vec![]));
    let mut func = Function::new();
    func.declare("p".to_string(), AzulaType::Pointer(Rc::new(AzulaType::Int)));
    let p = || name("p", AzulaType::Pointer(Rc::new(AzulaType::Int)));
    codegen.codegen_reassign(
        Statement::Reassign(
            node(Expression::Deref(Rc::new(p())), AzulaType::Int),
            integer(7),
            span(),
        ),
        &mut func,
    );
    codegen.codegen_reassign(
        Statement::Reassign(
            node(
                Expression::ArrayAccess(Rc::new(p()), Rc::new(integer(3))),
                AzulaType::Int,
            ),
            integer(8),
            span(),
        ),
        &mut func,
    );
    let pointer = || AzulaType::Pointer(Rc::new(AzulaType::Int));
    assert_eq!(
        func.blocks[0].1.instructions,
        vec![
            Instruction::ConstInt(7, 0),
            Instruction::Load("p".to_string(), 1, pointer()),
            Instruction::ConstInt(0, 2),
            Instruction::StoreElement(
                Value::Local(1),
                Value::Local(2),
                Value::Local(0),
                AzulaType::Int
            ),
            Instruction::ConstInt(8, 3),
            Instruction::Load("p".to_string(), 4, pointer()),
            Instruction::ConstInt(3, 5),
            Instruction::StoreElement(
                Value::Local(4),
                Value::Local(5),
                Value::Local(3),
                AzulaType::Int
            ),
        ]
    );
}

#[test]
fn compound_assignments_compute_the_address_once() {
    let mut codegen = Codegen::new("test", Statement::Root(vec![]));
    let mut func = Function::new();
    func.declare("x".to_string(), AzulaType::Int);
    codegen.codegen_statement(
        Statement::CompoundAssign(
            name("x", AzulaType::Int),
            Operator::Add,
            integer(5),
            span(),
        ),
        &mut func,
    );
    assert_eq!(
        func.blocks[0].1.instructions,
        vec![
            Instruction::Pointer("x".to_string(), 0),
            Instruction::ConstInt(0, 1),
            Instruction::AccessElement(Value::Local(0), Value::Local(1), 2, AzulaType::Int),
            Instruction::ConstInt(5, 3),
            Instruction::Add(Value::Local(2), Value::Local(3), 4),
            Instruction::StoreElement(
                Value::Local(0),
                Value::Local(1),
                Value::Local(4),
                AzulaType::Int
            ),
        ]
    );
}

fn shapes<'a>() -> Statement<'a> {
    Statement::Enum {
        name: "Shape",
        variants: vec!["Dot", "Box"],
        payloads: vec![vec![], vec![AzulaType::Int, AzulaType::Bool]],
        span: span(),
    }
}

#[test]
fn enums_with_payloads_are_laid_out_as_structs() {
    let mut codegen = Codegen::new("test", Statement::Root(vec![shapes()]));
    codegen.codegen();
    let module = codegen.program();
    assert!(module.boxed_enums.contains_key("Shape"));
    assert_eq!(module.structs.len(), 3);
    let boxed = module.structs.get("Shape.Box").unwrap();
    assert_eq!(
        boxed.attributes,
        vec![
            (AzulaType::Int, "tag".to_string()),
            (AzulaType::Int, "_0".to_string()),
            (AzulaType::Bool, "_1".to_string()),
        ]
    );
    assert_eq!(
        module.structs.get("Shape.__tag").unwrap().attributes,
        vec![(AzulaType::Int, "tag".to_string())]
    );
    assert_eq!(module.structs.get("Shape.Dot").unwrap().attributes.len(), 1);
}

#[test]
fn variants_with_payloads_are_allocated() {
    let mut codegen = Codegen::new("test", Statement::Root(vec![shapes()]));
    codegen.codegen();
    let mut func = Function::new();
    let shape = || AzulaType::Named("Shape".to_string());
    let v = codegen.codegen_expr(
        node(
            Expression::FunctionCall {
                function: Rc::new(node(
                    Expression::NamespaceAccess(
                        Rc::new(name("Shape", AzulaType::Infer)),
                        Rc::new(name("Box", AzulaType::Infer)),
                    ),
                    AzulaType::Infer,
                )),
                args: vec![integer(4), boolean(true)],
            },
            shape(),
        ),
        &mut func,
        true,
    );
    assert_eq!(v, Value::Local(3));
    let owner = "Shape.Box".to_string();
    assert_eq!(
        func.blocks[0].1.instructions,
        vec![
            Instruction::ConstInt(4, 0),
            Instruction::ConstTrue(1),
            Instruction::SizeOf(AzulaType::Named(owner.clone()), 2),
            Instruction::FunctionCall("malloc".to_string(), vec![Value::Local(2)], 3),
            Instruction::ConstInt(1, 4),
            Instruction::StoreStructMember(
                Value::Local(3),
                0,
                Value::Local(4),
                owner.clone()
            ),
            Instruction::StoreStructMember(
                Value::Local(3),
                1,
                Value::Local(0),
                owner.clone()
            ),
            Instruction::StoreStructMember(Value::Local(3), 2, Value::Local(1), owner),
        ]
    );
}

#[test]
fn matches_bind_payloads_and_stop_at_a_wildcard() {
    let mut codegen = Codegen::new("test", Statement::Root(vec![shapes()]));
    codegen.codegen();
    let shape = || AzulaType::Named("Shape".to_string());
    let mut func = Function::new();
    func.declare("s".to_string(), shape());
    codegen.codegen_match(
        Rc::new(name("s", shape())),
        vec![
            (
                MatchPattern::Destructure("Shape", "Box", vec![Some("n"), None]),
                name("n", AzulaType::Int),
            ),
            (MatchPattern::Wildcard, integer(0)),
            (MatchPattern::Variant("Shape", "Dot"), integer(1)),
        ],
        AzulaType::Int,
        &mut func,
    );
    assert_eq!(
        block_names(&func),
        vec!["entry", "match-arm-0-0", "match-next-0-1", "match-arm-0-1", "match-end-0"]
    );
    assert!(func.declares("n"));
    assert_eq!(
        func.blocks[1].1.instructions[0],
        Instruction::AccessStructMember(
            Value::Local(0),
            1,
            4,
            true,
            "Shape.Box".to_string()
        )
    );
    assert_eq!(
        func.blocks[2].1.instructions,
        vec![Instruction::Jump("match-arm-0-1".to_string())]
    );
}

#[test]
fn tuple_patterns_test_one_item_after_the_other() {
    let root = Statement::Root(vec![Statement::Struct {
        name: "Pair",
        attributes: vec![(AzulaType::Int, "_0"), (AzulaType::Int, "_1")],
        span: span(),
    }]);
    let mut codegen = Codegen::new("test", root);
    codegen.codegen();
    let pair = || AzulaType::Named("Pair".to_string());
    let mut func = Function::new();
    func.declare("p".to_string(), pair());
    codegen.codegen_match(
        Rc::new(name("p", pair())),
        vec![
            (
                MatchPattern::Tuple(vec![
                    MatchPattern::Integer(1),
                    MatchPattern::Binding("second"),
                ]),
                name("second", AzulaType::Int),
            ),
            (MatchPattern::Wildcard, integer(0)),
        ],
        AzulaType::Int,
        &mut func,
    );
    assert_eq!(
        block_names(&func),
        vec![
            "entry",
            "match-test-0-0-0",
            "match-arm-0-0",
            "match-next-0-1",
            "match-arm-0-1",
            "match-end-0"
        ]
    );
}

#[test]
fn methods_get_the_address_of_their_receiver() {
    let method = Statement::Function {
        name: "get",
        args: vec![(
            AzulaType::Pointer(Rc::new(AzulaType::Named("Point".to_string()))),
            "self",
        )],
        returns: AzulaType::Int,
        body: Rc::new(Statement::Block(vec![Statement::Return(
            Some(node(
                Expression::StructAccess(
                    Rc::new(name(
                        "self",
                        AzulaType::Pointer(Rc::new(AzulaType::Named("Point".to_string()))),
                    )),
                    Rc::new(name("y", AzulaType::Infer)),
                ),
                AzulaType::Int,
            )),
            span(),
        )])),
        span: span(),
    };
    let root = Statement::Root(vec![
        Statement::Struct {
            name: "Point",
            attributes: vec![(AzulaType::Int, "x"), (AzulaType::Int, "y")],
            span: span(),
        },
        Statement::Impl {
            struct_impl: AzulaType::Named("Point".to_string()),
            trait_impl: None,
            funcs: vec![method],
            span: span(),
        },
    ]);
    let mut codegen = Codegen::new("test", root);
    codegen.codegen();
    let get = codegen.program().functions.get("Point.get").unwrap();
    assert_eq!(
        get.blocks[0].1.instructions[3],
        Instruction::AccessStructMember(Value::Local(1), 1, 2, true, "Point".to_string())
    );

    let mut func = Function::new();
    func.declare("p".to_string(), AzulaType::Named("Point".to_string()));
    codegen.codegen_expr(
        node(
            Expression::FunctionCall {
                function: Rc::new(node(
                    Expression::StructAccess(
                        Rc::new(name("p", AzulaType::Named("Point".to_string()))),
                        Rc::new(name("get", AzulaType::Infer)),
                    ),
                    AzulaType::Infer,
                )),
                args: vec![],
            },
            AzulaType::Int,
        ),
        &mut func,
        true,
    );
    assert_eq!(
        func.blocks[0].1.instructions,
        vec![
            Instruction::Pointer("p".to_string(), 0),
            Instruction::FunctionCall("Point.get".to_string(), vec![Value::Local(0)], 1),
        ]
    );
}

#[test]
fn arguments_are_kept_in_variables() {
    let mut codegen = Codegen::new("test", Statement::Root(vec![]));
    codegen.codegen_function(Statement::Function {
        name: "twice",
        args: vec![(AzulaType::Int, "n")],
        returns: AzulaType::Int,
        body: Rc::new(Statement::Block(vec![Statement::Return(
            Some(node(
                Expression::Infix(
                    Rc::new(name("n", AzulaType::Int)),
                    Operator::Add,
                    Rc::new(name("n", AzulaType::Int)),
                ),
                AzulaType::Int,
            )),
            span(),
        )])),
        span: span(),
    });
    let twice = codegen.module.functions.get("twice").unwrap();
    assert_eq!(
        twice.blocks[0].1.instructions,
        vec![
            Instruction::LoadArg(0, 0, AzulaType::Int),
            Instruction::Store("n".to_string(), Value::Local(0), AzulaType::Int),
            Instruction::Load("n".to_string(), 1, AzulaType::Int),
            Instruction::Load("n".to_string(), 2, AzulaType::Int),
            Instruction::Add(Value::Local(1), Value::Local(2), 3),
            Instruction::Return(Some(Value::Local(3))),
        ]
    );
    assert_eq!(twice.registers, 4);
}

#[test]
fn globals_have_constant_values() {
    let global = |n: &str, value| Statement::Assign(false, n.to_string(), None, value, span());
    let root = Statement::Root(vec![
        global("a", integer(3)),
        global("b", node(Expression::Negate(Rc::new(integer(4))), AzulaType::Int)),
        global("c", boolean(true)),
        global("d", node(Expression::String("hi".to_string()), AzulaType::Str)),
        global("e", node(Expression::Float(1.5f64.to_bits()), AzulaType::Float)),
        global(
            "f",
            node(
                Expression::Negate(Rc::new(node(
                    Expression::Float(2.0f64.to_bits()),
                    AzulaType::Float,
                ))),
                AzulaType::Float,
            ),
        ),
    ]);
    let mut codegen = Codegen::new("test", root);
    codegen.codegen();
    let module = codegen.program();
    assert_eq!(module.find_global("a"), Some(GlobalValue::Int(3)));
    assert_eq!(module.find_global("b"), Some(GlobalValue::Int(-4)));
    assert_eq!(module.find_global("c"), Some(GlobalValue::Bool(true)));
    assert_eq!(module.find_global("d"), Some(GlobalValue::String(0)));
    assert_eq!(module.find_global("e"), Some(GlobalValue::Float(1.5f64.to_bits())));
    assert_eq!(module.find_global("f"), Some(GlobalValue::Float((-2.0f64).to_bits())));
    assert_eq!(module.strings, vec!["hi".to_string()]);
}

#[test]
fn a_tree_without_a_translation_gives_nothing() {
    // A global that is no constant
    let root = Statement::Root(vec![Statement::Assign(
        false,
        "g".to_string(),
        None,
        name("other", AzulaType::Int),
        span(),
    )]);
    assert_eq!(Codegen::new("test", root).try_codegen(), None);
    // A jump out of a loop where there is none
    let root = Statement::Root(vec![Statement::Function {
        name: "main",
        args: vec![],
        returns: AzulaType::Void,
        body: Rc::new(Statement::Block(vec![Statement::Break(span())])),
        span: span(),
    }]);
    assert_eq!(Codegen::new("test", root).try_codegen(), None);
    // The least integer cannot be negated
    let root = Statement::Root(vec![Statement::Assign(
        false,
        "g".to_string(),
        None,
        node(Expression::Negate(Rc::new(integer(i64::MIN))), AzulaType::Int),
        span(),
    )]);
    assert_eq!(Codegen::new("test", root).try_codegen(), None);
}

#[test]
fn every_block_is_ended() {
    let function = |n: &'static str, returns| Statement::Function {
        name: n,
        args: vec![],
        returns,
        body: Rc::new(Statement::Block(vec![Statement::If(
            boolean(true),
            vec![],
            None,
            span(),
        )])),
        span: span(),
    };
    let root = Statement::Root(vec![
        function("nothing", AzulaType::Void),
        function("number", AzulaType::Int),
    ]);
    let mut codegen = Codegen::new("test", root);
    codegen.codegen();
    codegen.insert_implicit_return();
    let nothing = codegen.program().functions.get("nothing").unwrap();
    assert_eq!(nothing.blocks[2].1.instructions, vec![Instruction::Return(None)]);
    let number = codegen.program().functions.get("number").unwrap();
    assert_eq!(number.blocks[2].1.instructions, vec![Instruction::Unreachable]);
    for (_, block) in nothing.blocks.iter().chain(number.blocks.iter()) {
        assert!(block.is_terminated());
    }
    // Once more changes nothing
    let before = nothing.blocks.len();
    codegen.insert_implicit_return();
    let again = codegen.program().functions.get("nothing").unwrap();
    assert_eq!(again.blocks.len(), before);
    assert_eq!(again.blocks[2].1.instructions, vec![Instruction::Return(None)]);
}

#[test]
fn labels_are_numbered_so_that_no_two_blocks_share_a_name() {
    let inner = || {
        Statement::If(
            node(
                Expression::Infix(
                    Rc::new(boolean(true)),
                    Operator::Or,
                    Rc::new(boolean(false)),
                ),
                AzulaType::Bool,
            ),
            vec![],
            None,
            span(),
        )
    };
    let mut codegen = Codegen::new("test", Statement::Root(vec![]));
    let mut func = Function::new();
    codegen.codegen_statement(
        Statement::For(Some(boolean(true)), vec![inner(), inner()], span()),
        &mut func,
    );
    let mut names = block_names(&func);
    let count = names.len();
    names.sort();
    names.dedup();
    assert_eq!(names.len(), count);
    assert_eq!(count, 12);
}

#[test]
fn registers_are_written_in_order() {
    let mut codegen = Codegen::new("test", Statement::Root(vec![]));
    let mut func = Function::new();
    codegen.codegen_expr(
        node(
            Expression::Array(vec![integer(1), integer(2)]),
            AzulaType::Array(Rc::new(AzulaType::Int), Some(2)),
        ),
        &mut func,
        true,
    );
    assert_eq!(
        func.blocks[0].1.instructions,
        vec![
            Instruction::CreateArray(AzulaType::Int, 2, 0),
            Instruction::ConstInt(1, 1),
            Instruction::ConstInt(0, 2),
            Instruction::StoreElement(
                Value::Local(0),
                Value::Local(2),
                Value::Local(1),
                AzulaType::Int
            ),
            Instruction::ConstInt(2, 3),
            Instruction::ConstInt(1, 4),
            Instruction::StoreElement(
                Value::Local(0),
                Value::Local(4),
                Value::Local(3),
                AzulaType::Int
            ),
        ]
    );
}

#[test]
fn closures_hold_their_code_and_their_cells() {
    let mut codegen = Codegen::new("test", Statement::Root(vec![]));
    let mut func = Function::new();
    func.declare("c".to_string(), AzulaType::Str);
    let v = codegen.codegen_expr(
        node(
            Expression::MakeClosure(
                "lifted".to_string(),
                vec![name("c", AzulaType::Str)],
            ),
            AzulaType::Function(vec![], Rc::new(AzulaType::Void)),
        ),
        &mut func,
        true,
    );
    assert_eq!(v, Value::Local(1));
    let call = |n: &str, args, d| Instruction::FunctionCall(n.to_string(), args, d);
    assert_eq!(
        func.blocks[0].1.instructions,
        vec![
            Instruction::ConstInt(16, 0),
            call("malloc", vec![Value::Local(0)], 1),
            Instruction::FunctionAddress("lifted".to_string(), 2),
            call("ptr_write_str", vec![Value::Local(1), Value::Local(2)], 3),
            Instruction::Load("c".to_string(), 4, AzulaType::Str),
            Instruction::ConstInt(8, 5),
            call("ptr_add", vec![Value::Local(1), Value::Local(5)], 6),
            call("ptr_write_str", vec![Value::Local(6), Value::Local(4)], 7),
        ]
    );
}

#[test]
fn a_call_that_never_comes_back_ends_the_block() {
    let mut codegen = Codegen::new("test", Statement::Root(vec![]));
    let mut func = Function::new();
    codegen.codegen_expr(
        node(
            Expression::FunctionCall {
                function: Rc::new(name("exit", AzulaType::Infer)),
                args: vec![integer(1)],
            },
            AzulaType::Never,
        ),
        &mut func,
        true,
    );
    assert_eq!(func.blocks[0].1.instructions[2], Instruction::Unreachable);
    assert!(func.current_block_terminated());
}

#[test]
fn structs_on_the_heap_take_the_bytes_of_their_members() {
    let root = Statement::Root(vec![
        Statement::Struct {
            name: "Inner",
            attributes: vec![(AzulaType::Int, "a"), (AzulaType::Int, "b")],
            span: span(),
        },
        Statement::Struct {
            name: "Outer",
            attributes: vec![
                (AzulaType::Named("Inner".to_string()), "inner"),
                (AzulaType::Bool, "flag"),
            ],
            span: span(),
        },
    ]);
    let mut codegen = Codegen::new("test", root);
    codegen.codegen();
    let mut func = Function::new();
    codegen.codegen_expr(
        node(
            Expression::Alloc(Rc::new(node(
                Expression::StructInitialisation(
                    Rc::new(name("Outer", AzulaType::Infer)),
                    vec![],
                ),
                AzulaType::Named("Outer".to_string()),
            ))),
            AzulaType::Pointer(Rc::new(AzulaType::Named("Outer".to_string()))),
        ),
        &mut func,
        true,
    );
    assert_eq!(func.blocks[0].1.instructions[0], Instruction::ConstInt(24, 0));
}

#[test]
fn a_name_is_not_visible_behind_its_scope() {
    let main = |inner: &str| Statement::Function {
        name: "main",
        args: vec![(AzulaType::Int, "arg")],
        returns: AzulaType::Int,
        body: Rc::new(Statement::Block(vec![
            Statement::Block(vec![Statement::Assign(
                true,
                inner.to_string(),
                None,
                integer(1),
                span(),
            )]),
            Statement::Return(Some(name(inner, AzulaType::Int)), span()),
        ])),
        span: span(),
    };
    // Where there is a global of that name, it is read
    let global = Statement::Assign(false, "x".to_string(), None, integer(5), span());
    let mut codegen = Codegen::new("test", Statement::Root(vec![global, main("x")]));
    codegen.codegen();
    let code = &codegen.module.functions.get("main").unwrap().blocks[0].1.instructions;
    assert!(code.contains(&Instruction::LoadGlobal("x".to_string(), 2, AzulaType::Int)));
    assert!(!code.contains(&Instruction::Load("x".to_string(), 2, AzulaType::Int)));
    // Where there is none, nothing is
    let root = Statement::Root(vec![main("x")]);
    assert_eq!(Codegen::new("test", root).try_codegen(), None);
    // An argument is visible again
    let mut codegen = Codegen::new("test", Statement::Root(vec![main("arg")]));
    codegen.codegen();
    let code = &codegen.module.functions.get("main").unwrap().blocks[0].1.instructions;
    assert!(code.contains(&Instruction::Load("arg".to_string(), 2, AzulaType::Int)));
}

#[test]
fn the_program_can_be_changed_between_steps() {
    let mut codegen = Codegen::new("test", Statement::Root(vec![]));
    let mut func = Function::new();
    codegen.codegen_assign(
        Statement::Assign(true, "x".to_string(), None, integer(1), span()),
        &mut func,
    );
    codegen.program_mut().add_enum("E".to_string(), vec!["A".to_string()]);
    // What was declared before is still known
    codegen.codegen_expr(name("x", AzulaType::Int), &mut func, true);
    assert_eq!(
        func.blocks[0].1.instructions[2],
        Instruction::Load("x".to_string(), 1, AzulaType::Int)
    );
    assert_eq!(codegen.program().find_enum("E").map(|v| v.len()), Some(1));
}
