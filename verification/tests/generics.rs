//! Generic types: putting types for parameters, and inferring them.

use std::rc::Rc;

use azula::ast::{Expression, ExpressionNode, MatchPattern, Span, Statement};
use azula::generics::{subst_expr, subst_stmt, subst_type, unify, Instances, Substitution};
use azula::types::AzulaType;

fn named<'a>(n: &str) -> AzulaType<'a> {
    AzulaType::Named(n.to_string())
}

fn to_int<'a>() -> Substitution<'a> {
    let mut map = Substitution::new();
    map.insert("T".to_string(), AzulaType::Int);
    map
}

fn span() -> Span {
    Span { start: 2, end: 3 }
}

#[test]
fn parameters_are_replaced_inside_types() {
    let map = to_int();
    assert_eq!(subst_type(&named("T"), &map), AzulaType::Int);
    assert_eq!(subst_type(&named("U"), &map), named("U"));
    assert_eq!(
        subst_type(&AzulaType::Pointer(Rc::new(named("T"))), &map),
        AzulaType::Pointer(Rc::new(AzulaType::Int))
    );
    assert_eq!(
        subst_type(&AzulaType::Array(Rc::new(named("T")), Some(3)), &map),
        AzulaType::Array(Rc::new(AzulaType::Int), Some(3))
    );
    assert_eq!(
        subst_type(
            &AzulaType::Generic("Pair".to_string(), vec![named("T"), named("U")]),
            &map
        ),
        AzulaType::Generic("Pair".to_string(), vec![AzulaType::Int, named("U")])
    );
}

#[test]
fn replacing_parameters_again_changes_nothing() {
    let map = to_int();
    let once = subst_type(
        &AzulaType::Generic("Pair".to_string(), vec![named("T"), named("U")]),
        &map,
    );
    assert_eq!(subst_type(&once, &map), once);
}

#[test]
fn parameters_are_replaced_inside_statements() {
    let map = to_int();
    let make = |t: AzulaType<'static>| {
        Statement::Assign(
            true,
            "x".to_string(),
            Some(t),
            ExpressionNode {
                expression: Expression::SizeOf(named("U")),
                typed: AzulaType::Int,
                span: span(),
            },
            span(),
        )
    };
    assert_eq!(subst_stmt(&make(named("T")), &map), make(AzulaType::Int));
    assert_eq!(subst_stmt(&make(named("U")), &map), make(named("U")));
}

#[test]
fn parameters_are_replaced_inside_expressions() {
    let map = to_int();
    let cast = |t: AzulaType<'static>| ExpressionNode {
        expression: Expression::Cast(
            Rc::new(ExpressionNode {
                expression: Expression::SizeOf(t),
                typed: AzulaType::Int,
                span: span(),
            }),
            AzulaType::Bool,
        ),
        typed: AzulaType::Bool,
        span: span(),
    };
    assert_eq!(subst_expr(&cast(named("T")), &map), cast(AzulaType::Int));
}

#[test]
fn an_empty_substitution_changes_nothing() {
    let map = Substitution::new();
    let t = AzulaType::Generic("Vec".to_string(), vec![named("T")]);
    assert_eq!(subst_type(&t, &map), t);
}

#[test]
fn parameters_are_inferred() {
    let params = vec!["T".to_string(), "U".to_string()];
    let mut instances = Instances::new();
    instances.insert(
        "Map<str,int>".to_string(),
        ("Map".to_string(), vec![AzulaType::Str, AzulaType::Int]),
    );
    let mut bindings = Substitution::new();
    unify(
        &AzulaType::Pointer(Rc::new(AzulaType::Generic(
            "Map".to_string(),
            vec![named("T"), named("U")],
        ))),
        &AzulaType::Pointer(Rc::new(named("Map<str,int>"))),
        &params,
        &instances,
        &mut bindings,
    );
    assert_eq!(bindings.get("T"), Some(&AzulaType::Str));
    assert_eq!(bindings.get("U"), Some(&AzulaType::Int));
}

#[test]
fn the_first_binding_stays() {
    let params = vec!["T".to_string()];
    let instances = Instances::new();
    let mut bindings = Substitution::new();
    unify(&named("T"), &AzulaType::Int, &params, &instances, &mut bindings);
    unify(&named("T"), &AzulaType::Bool, &params, &instances, &mut bindings);
    assert_eq!(bindings.get("T"), Some(&AzulaType::Int));
}

#[test]
fn what_does_not_match_binds_nothing() {
    let params = vec!["T".to_string()];
    let instances = Instances::new();
    let mut bindings = Substitution::new();
    unify(
        &AzulaType::Pointer(Rc::new(named("T"))),
        &AzulaType::Int,
        &params,
        &instances,
        &mut bindings,
    );
    unify(&named("Other"), &AzulaType::Int, &params, &instances, &mut bindings);
    unify(
        &AzulaType::Generic("Vec".to_string(), vec![named("T")]),
        &named("Vec<int>"),
        &params,
        &instances,
        &mut bindings,
    );
    assert!(bindings.is_empty());
}

#[test]
fn inferred_parameters_give_the_type_back() {
    let params = vec!["T".to_string()];
    let pattern = AzulaType::Array(Rc::new(named("T")), Some(2));
    let concrete = AzulaType::Array(Rc::new(AzulaType::Bool), Some(2));
    let mut bindings = Substitution::new();
    unify(&pattern, &concrete, &params, &Instances::new(), &mut bindings);
    assert_eq!(subst_type(&pattern, &bindings), concrete);
}

#[test]
fn types_are_written() {
    assert_eq!(AzulaType::Int.to_string(), "int");
    assert_eq!(AzulaType::SizedUnsignedInt(8).to_string(), "u8");
    assert_eq!(named("Point").to_string(), "Point");
}

fn node<'a>(expression: Expression<'a>, typed: AzulaType<'a>) -> ExpressionNode<'a> {
    ExpressionNode { expression, typed, span: span() }
}

fn size<'a>(t: AzulaType<'a>) -> ExpressionNode<'a> {
    node(Expression::SizeOf(t), AzulaType::Int)
}

#[test]
fn parameters_are_replaced_inside_function_types() {
    let function = |t: AzulaType<'static>| {
        AzulaType::Function(vec![t.clone(), named("U")], Rc::new(AzulaType::Pointer(Rc::new(t))))
    };
    assert_eq!(subst_type(&function(named("T")), &to_int()), function(AzulaType::Int));
}

#[test]
fn function_types_are_matched_in_parameters_and_results() {
    let params = vec!["T".to_string(), "U".to_string(), "V".to_string()];
    let mut bindings = Substitution::new();
    let pattern =
        AzulaType::Function(vec![named("T"), named("U")], Rc::new(named("V")));
    let concrete =
        AzulaType::Function(vec![AzulaType::Int, AzulaType::Str], Rc::new(AzulaType::Bool));
    unify(&pattern, &concrete, &params, &Instances::new(), &mut bindings);
    assert_eq!(bindings.get("T"), Some(&AzulaType::Int));
    assert_eq!(bindings.get("U"), Some(&AzulaType::Str));
    assert_eq!(bindings.get("V"), Some(&AzulaType::Bool));
    assert_eq!(subst_type(&pattern, &bindings), concrete);
}

#[test]
fn parameters_are_replaced_in_every_expression() {
    let make = |t: AzulaType<'static>| {
        let part = || Rc::new(size(t.clone()));
        let all = vec![
            Expression::Tuple(vec![size(t.clone())]),
            Expression::Try(part()),
            Expression::If(part(), part(), Some(part())),
            Expression::Closure(
                vec![(Some(t.clone()), "a".to_string()), (None, "b".to_string())],
                Some(t.clone()),
                vec![Statement::ExpressionStatement(size(t.clone()), span())],
            ),
            Expression::MakeClosure("f".to_string(), vec![size(t.clone())]),
            Expression::NewCell(part()),
            Expression::CallClosure(part(), vec![size(t.clone())]),
            Expression::Match(
                part(),
                vec![(
                    MatchPattern::Or(vec![MatchPattern::Tuple(vec![MatchPattern::Guarded(
                        Rc::new(MatchPattern::Wildcard),
                        part(),
                    )])]),
                    size(t.clone()),
                )],
            ),
        ];
        let items: Vec<ExpressionNode> =
            all.into_iter().map(|e| node(e, AzulaType::Int)).collect();
        node(Expression::Array(items), t.clone())
    };
    assert_eq!(subst_expr(&make(named("T")), &to_int()), make(AzulaType::Int));
    assert_eq!(subst_expr(&make(named("U")), &to_int()), make(named("U")));
}

#[test]
fn parameters_are_replaced_in_every_statement() {
    let make = |t: AzulaType<'static>| {
        let method = || Statement::Function {
            name: "m",
            args: vec![(t.clone(), "p")],
            returns: t.clone(),
            body: Rc::new(Statement::Block(vec![])),
            span: span(),
        };
        Statement::Group(vec![
            Statement::Destructure(true, vec!["a".to_string()], size(t.clone()), span()),
            Statement::ExternFunction {
                name: "e",
                varargs: true,
                args: vec![t.clone()],
                returns: t.clone(),
                span: span(),
            },
            Statement::Struct { name: "S", attributes: vec![(t.clone(), "x")], span: span() },
            Statement::Impl {
                struct_impl: t.clone(),
                trait_impl: Some(t.clone()),
                funcs: vec![method()],
                span: span(),
            },
            Statement::Enum {
                name: "E",
                variants: vec!["A", "B"],
                payloads: vec![vec![], vec![t.clone()]],
                span: span(),
            },
            Statement::TypeAlias { name: "A", typ: t.clone(), span: span() },
            Statement::Generic(vec!["P"], vec![("P", "Show")], Rc::new(method())),
            Statement::Interface { name: "I", methods: vec![(method(), true)], span: span() },
            Statement::Conforms(t.clone(), vec!["Show"], span()),
        ])
    };
    assert_eq!(subst_stmt(&make(named("T")), &to_int()), make(AzulaType::Int));
    assert_eq!(subst_stmt(&make(named("U")), &to_int()), make(named("U")));
}

#[test]
fn a_generic_definition_keeps_its_own_parameters() {
    let method = |t: AzulaType<'static>, u: AzulaType<'static>| Statement::Function {
        name: "m",
        args: vec![(t.clone(), "p"), (u, "q")],
        returns: t.clone(),
        body: Rc::new(Statement::Block(vec![Statement::Return(Some(size(t)), span())])),
        span: span(),
    };
    let mut map = to_int();
    map.insert("U".to_string(), AzulaType::Str);
    // `T` is bound by the definition, `U` is not
    let make = |u: AzulaType<'static>| {
        Statement::Generic(vec!["T"], vec![("T", "Show")], Rc::new(method(named("T"), u)))
    };
    assert_eq!(subst_stmt(&make(named("U")), &map), make(AzulaType::Str));
    // The same inside another definition, and nothing is bound behind it
    let nest = |u: AzulaType<'static>, behind: AzulaType<'static>| {
        Statement::Block(vec![
            Statement::Generic(
                vec!["V"],
                vec![],
                Rc::new(Statement::Group(vec![make(u.clone()), method(behind.clone(), u)])),
            ),
            Statement::TypeAlias { name: "A", typ: behind, span: span() },
        ])
    };
    assert_eq!(
        subst_stmt(&nest(named("U"), named("T")), &map),
        nest(AzulaType::Str, AzulaType::Int)
    );
    // A definition in which only its own parameters occur stays as it is
    let own = Statement::Generic(
        vec!["T", "U"],
        vec![],
        Rc::new(method(named("T"), named("U"))),
    );
    assert_eq!(subst_stmt(&own, &map), own);
}
