//! Which variables closures use from their surroundings.

use std::rc::Rc;

use azula::ast::{Expression, ExpressionNode, MatchPattern, Operator, Span, Statement};
use azula::closures::{captured_names, closure_free_names};
use azula::types::AzulaType;

fn span() -> Span {
    Span { start: 0, end: 0 }
}

fn node<'a>(expression: Expression<'a>) -> ExpressionNode<'a> {
    ExpressionNode { expression, typed: AzulaType::Infer, span: span() }
}

fn name<'a>(n: &str) -> ExpressionNode<'a> {
    node(Expression::Identifier(n.to_string()))
}

fn call<'a>(f: &str, args: Vec<ExpressionNode<'a>>) -> ExpressionNode<'a> {
    node(Expression::FunctionCall { function: Rc::new(name(f)), args })
}

fn run<'a>(e: ExpressionNode<'a>) -> Statement<'a> {
    Statement::ExpressionStatement(e, span())
}

fn var<'a>(n: &str, e: ExpressionNode<'a>) -> Statement<'a> {
    Statement::Assign(true, n.to_string(), None, e, span())
}

fn closure<'a>(params: &[&str], body: Vec<Statement<'a>>) -> ExpressionNode<'a> {
    node(Expression::Closure(
        params.iter().map(|p| (None, p.to_string())).collect(),
        None,
        body,
    ))
}

#[test]
fn free_names_are_used_and_not_declared() {
    let body = vec![
        var("local", name("outer")),
        run(call("print", vec![name("p"), name("local"), name("alpha")])),
    ];
    assert_eq!(
        closure_free_names(&["p".to_string()], &body),
        vec!["alpha".to_string(), "outer".to_string(), "print".to_string()]
    );
}

#[test]
fn free_names_are_ordered_and_listed_once() {
    let body = vec![run(name("b")), run(name("a")), run(name("b")), run(name("B"))];
    assert_eq!(
        closure_free_names(&[], &body),
        vec!["B".to_string(), "a".to_string(), "b".to_string()]
    );
    assert_eq!(closure_free_names(&["a".to_string()], &[]), Vec::<String>::new());
}

#[test]
fn members_and_struct_names_are_no_variables() {
    let body = vec![
        run(node(Expression::StructAccess(Rc::new(name("object")), Rc::new(name("field"))))),
        run(node(Expression::StructInitialisation(
            Rc::new(name("Point")),
            vec![("x", name("value"))],
        ))),
    ];
    assert_eq!(
        closure_free_names(&[], &body),
        vec!["object".to_string(), "value".to_string()]
    );
}

#[test]
fn loops_and_patterns_declare_names() {
    let body = vec![
        Statement::ForIn(
            "i".to_string(),
            name("start"),
            Some(name("end")),
            false,
            vec![run(name("i"))],
            span(),
        ),
        Statement::Destructure(
            true,
            vec!["a".to_string(), "_".to_string()],
            name("pair"),
            span(),
        ),
        run(node(Expression::Match(
            Rc::new(name("a")),
            vec![
                (
                    MatchPattern::Destructure("E", "V", vec![Some("x"), None]),
                    name("x"),
                ),
                (
                    MatchPattern::Tuple(vec![
                        MatchPattern::Binding("y"),
                        MatchPattern::Tuple(vec![MatchPattern::Binding("z")]),
                    ]),
                    node(Expression::Infix(
                        Rc::new(name("y")),
                        Operator::Add,
                        Rc::new(name("z")),
                    )),
                ),
                (MatchPattern::Wildcard, name("other")),
            ],
        ))),
    ];
    assert_eq!(
        closure_free_names(&[], &body),
        vec![
            "end".to_string(),
            "other".to_string(),
            "pair".to_string(),
            "start".to_string()
        ]
    );
}

#[test]
fn captured_names_are_those_that_closures_use() {
    let body = vec![
        var("counter", name("zero")),
        run(closure(&["n"], vec![run(name("counter")), run(name("n"))])),
        run(name("plain")),
    ];
    let captured = captured_names(&body);
    assert!(captured.contains("counter"));
    assert!(!captured.contains("n"));
    assert!(!captured.contains("plain"));
    assert!(!captured.contains("zero"));
    assert_eq!(captured.len(), 1);
}

#[test]
fn nested_closures_capture_through_the_outer_one() {
    let inner = closure(&[], vec![run(name("far")), run(name("near"))]);
    let body = vec![run(closure(&["near"], vec![run(inner)]))];
    let captured = captured_names(&body);
    // `near` is captured by the inner closure, `far` by both
    assert!(captured.contains("near"));
    assert!(captured.contains("far"));
    assert_eq!(closure_free_names(&[], &body), vec!["far".to_string()]);
}

#[test]
fn values_that_may_be_missing_and_conditionals_use_names() {
    let body = vec![
        run(node(Expression::Try(Rc::new(name("maybe"))))),
        run(node(Expression::If(
            Rc::new(name("test")),
            Rc::new(name("yes")),
            Some(Rc::new(name("no"))),
        ))),
        run(node(Expression::CallClosure(Rc::new(name("callee")), vec![name("arg")]))),
        run(node(Expression::NewCell(Rc::new(name("cell"))))),
        run(node(Expression::MakeClosure("lifted".to_string(), vec![name("held")]))),
    ];
    let expected: Vec<String> =
        ["arg", "callee", "cell", "held", "maybe", "no", "test", "yes"]
            .iter()
            .map(|n| n.to_string())
            .collect();
    assert_eq!(closure_free_names(&[], &body), expected);
}

#[test]
fn guards_use_names_and_their_patterns_declare_some() {
    let body = vec![run(node(Expression::Match(
        Rc::new(name("value")),
        vec![
            (
                MatchPattern::Guarded(
                    Rc::new(MatchPattern::Destructure("E", "V", vec![Some("x")])),
                    Rc::new(node(Expression::Infix(
                        Rc::new(name("x")),
                        Operator::Lt,
                        Rc::new(name("limit")),
                    ))),
                ),
                name("x"),
            ),
            (MatchPattern::Wildcard, name("other")),
        ],
    )))];
    assert_eq!(
        closure_free_names(&[], &body),
        vec!["limit".to_string(), "other".to_string(), "value".to_string()]
    );
}

#[test]
fn parameters_of_inner_functions_are_declared() {
    let body = vec![Statement::Function {
        name: "inner",
        args: vec![(AzulaType::Int, "p")],
        returns: AzulaType::Int,
        body: Rc::new(Statement::Block(vec![run(name("p")), run(name("outer"))])),
        span: span(),
    }];
    assert_eq!(closure_free_names(&[], &body), vec!["outer".to_string()]);
}

#[test]
fn captured_names_are_the_free_names_of_all_closures() {
    let body = vec![
        run(closure(&["a"], vec![
            run(name("x")),
            run(closure(&["b"], vec![run(name("a")), run(name("y"))])),
        ])),
        Statement::While(name("w"), vec![run(closure(&[], vec![run(name("z"))]))], span()),
    ];
    let captured = captured_names(&body);
    for n in ["x", "y", "a", "z"] {
        assert!(captured.contains(n), "{}", n);
    }
    assert!(!captured.contains("b"));
    assert!(!captured.contains("w"));
    assert_eq!(captured.len(), 4);
}
