//! Generation keeps that numbers stand only behind the names of variables which
//! declarations have numbered, so that every variable that is declared gets a name of
//! its own.

use vstd::prelude::*;
use crate::assoc;
use crate::ast::{Expression, ExpressionNode, MatchPattern, Statement, TypedIdentifier};
use crate::ir;
use crate::ir::{Fun, Inst, Value};
use crate::labels;
use crate::shape::{parts, scopes};
use crate::text;
use crate::translation;
use crate::translation::{Cg, Matching, Receiver, G};
use crate::types;
use crate::types::{AzulaType, Ty};

verus! {

// ---------------------------------------------------------------------------
// Trees

/// Whether no variable that a statement declares ends with a dot and a number.
pub open spec fn stmt_plain(s: Statement) -> bool
    decreases s, 0int,
{
    match s {
        Statement::Assign(_, name, _, e, _) => !scopes::is_numbered(name@) && expr_plain(e),
        Statement::Return(Some(e), _) => expr_plain(e),
        Statement::Group(body) => stmts_plain(body@),
        Statement::ExpressionStatement(e, _) => expr_plain(e),
        Statement::If(cond, body, other, _) => {
            &&& expr_plain(cond)
            &&& stmts_plain(body@)
            &&& other matches Some(other) ==> stmt_plain(*other)
        },
        Statement::While(cond, body, _) => expr_plain(cond) && stmts_plain(body@),
        Statement::For(cond, body, _) => {
            &&& cond matches Some(cond) ==> expr_plain(cond)
            &&& stmts_plain(body@)
        },
        Statement::Reassign(target, e, _) => expr_plain(target) && expr_plain(e),
        Statement::CompoundAssign(target, _, e, _) => expr_plain(target) && expr_plain(e),
        Statement::Block(body) => stmts_plain(body@),
        _ => true,
    }
}

/// Whether no variable that the statements declare ends with a dot and a number.
pub open spec fn stmts_plain(ss: Seq<Statement>) -> bool
    decreases ss, 0int,
{
    forall|i: int| 0 <= i < ss.len() ==> stmt_plain(#[trigger] ss[i])
}

/// Whether no variable that an expression declares ends with a dot and a number.
pub open spec fn expr_plain(e: ExpressionNode) -> bool
    decreases e, 0int,
{
    match e.expression {
        Expression::Infix(a, _, b) => expr_plain(*a) && expr_plain(*b),
        Expression::FunctionCall { function, args } => expr_plain(*function) && exprs_plain(args@),
        Expression::Not(e) => expr_plain(*e),
        Expression::BitNot(e) => expr_plain(*e),
        Expression::Negate(e) => expr_plain(*e),
        Expression::Pointer(e) => expr_plain(*e),
        Expression::MakeClosure(_, captures) => exprs_plain(captures@),
        Expression::NewCell(e) => expr_plain(*e),
        Expression::CallClosure(callee, args) => expr_plain(*callee) && exprs_plain(args@),
        Expression::Deref(e) => expr_plain(*e),
        Expression::Array(items) => exprs_plain(items@),
        Expression::ArrayAccess(array, index) => expr_plain(*array) && expr_plain(*index),
        Expression::StructInitialisation(_, fields) => fields_plain(fields@),
        Expression::StructAccess(object, _) => expr_plain(*object),
        Expression::Match(e, arms) => expr_plain(*e) && arms_plain(arms@),
        Expression::Cast(e, _) => expr_plain(*e),
        Expression::Block(body, last) => {
            &&& stmts_plain(body@)
            &&& last matches Some(last) ==> expr_plain(*last)
        },
        Expression::Alloc(e) => expr_plain(*e),
        _ => true,
    }
}

/// Whether no variable that the expressions declare ends with a dot and a number.
pub open spec fn exprs_plain(es: Seq<ExpressionNode>) -> bool
    decreases es, 0int,
{
    forall|i: int| 0 <= i < es.len() ==> expr_plain(#[trigger] es[i])
}

/// Whether no variable that the named expressions declare ends with a dot and a
/// number.
pub open spec fn fields_plain(es: Seq<(&str, ExpressionNode)>) -> bool
    decreases es, 0int,
{
    forall|i: int| 0 <= i < es.len() ==> expr_plain((#[trigger] es[i]).1)
}

/// Whether no variable that the arms declare ends with a dot and a number.
pub open spec fn arms_plain(arms: Seq<(MatchPattern, ExpressionNode)>) -> bool
    decreases arms, 0int,
{
    forall|i: int|
        0 <= i < arms.len() ==> pattern_plain((#[trigger] arms[i]).0) && expr_plain(arms[i].1)
}

/// Whether no variable that a pattern binds ends with a dot and a number.
pub open spec fn pattern_plain(p: MatchPattern) -> bool
    decreases p, 0int,
{
    match p {
        MatchPattern::Binding(name) => !scopes::is_numbered(name@),
        MatchPattern::Destructure(_, _, bindings) => bindings_plain(bindings@),
        MatchPattern::Tuple(items) => patterns_plain(items@),
        _ => true,
    }
}

/// Whether no variable that the patterns bind ends with a dot and a number.
pub open spec fn patterns_plain(ps: Seq<MatchPattern>) -> bool
    decreases ps, 0int,
{
    forall|i: int| 0 <= i < ps.len() ==> pattern_plain(#[trigger] ps[i])
}

/// Whether no name that is there ends with a dot and a number.
pub open spec fn bindings_plain(bindings: Seq<Option<&str>>) -> bool {
    forall|i: int|
        0 <= i < bindings.len() ==> ((#[trigger] bindings[i]) matches Some(name)
            ==> !scopes::is_numbered(name@))
}

// ---------------------------------------------------------------------------
// Steps

/// Whether two states have the same variables, and have numbered as many.
pub open spec fn same(g: G, h: G) -> bool {
    g.f.variables == h.f.variables && g.cg.var_counter == h.cg.var_counter
}

/// Adding an instruction declares nothing.
broadcast proof fn lemma_appended(f: Fun, i: Inst)
    ensures
        (#[trigger] ir::appended(f, i)).variables == f.variables,
{
    reveal(ir::appended);
}

/// Adding an instruction with a destination declares nothing.
broadcast proof fn lemma_defining(f: Fun, i: Inst)
    ensures
        (#[trigger] ir::defining(f, i)) matches Some((h, _)) ==> h.variables == f.variables,
{
    reveal(ir::defining);
    reveal(ir::appended);
}

/// Opening a block declares nothing.
broadcast proof fn lemma_opened(f: Fun, name: Seq<char>)
    ensures
        (#[trigger] ir::opened(f, name)).variables == f.variables,
{
    reveal(ir::opened);
}

/// Going to a block declares nothing.
broadcast proof fn lemma_fall(g: G, target: Seq<char>)
    ensures
        same(g, #[trigger] translation::fall_to(g, target)),
{
    reveal(translation::fall_to);
    lemma_appended(g.f, Inst::Jump(target));
}

/// Entering a scope declares nothing.
broadcast proof fn lemma_enter(g: G)
    ensures
        same(g, #[trigger] translation::enter(g)),
{
    reveal(translation::enter);
}

/// Leaving a scope leaves the variables declared.
broadcast proof fn lemma_leave(g: G)
    ensures
        same(g, #[trigger] translation::leave(g)),
{
    reveal(translation::leave);
}

/// Entering a loop declares nothing.
broadcast proof fn lemma_enter_loop(g: G, end: Seq<char>, again: Seq<char>)
    ensures
        same(g, #[trigger] translation::enter_loop(g, end, again)),
{
    reveal(translation::enter_loop);
}

/// Leaving a loop declares nothing.
broadcast proof fn lemma_leave_loop(g: G)
    ensures
        same(g, #[trigger] translation::leave_loop(g)),
{
    reveal(translation::leave_loop);
}

broadcast group group_steps {
    lemma_appended,
    lemma_defining,
    lemma_opened,
    lemma_fall,
    lemma_enter,
    lemma_leave,
    lemma_enter_loop,
    lemma_leave_loop,
}

/// A variable whose name does not end with a dot and a number can be declared.
proof fn lemma_put(g: G, name: Seq<char>, t: Ty)
    requires
        scopes::counted(g),
        !scopes::is_numbered(name),
    ensures
        scopes::counted(translation::slot(g, name, t)),
{
    reveal(scopes::numbered_to);
    let h = translation::slot(g, name, t);
    assert forall|base: Seq<char>, n: usize|
        assoc::defined(
            h.f.variables,
            #[trigger] text::dotted(base, text::digits(n as nat)),
        ) implies n <= h.cg.var_counter by {
        let x = text::dotted(base, text::digits(n as nat));
        assoc::lemma_put_get(g.f.variables, name, t, x);
        reveal(assoc::get);
        if x == name {
            assert(scopes::is_numbered(name));
        }
    }
}

/// Temporaries can be declared.
proof fn lemma_temporary(g: G, prefix: Seq<char>, n: usize, t: Ty)
    requires
        scopes::counted(g),
        prefix.len() > 0,
        prefix.last() == '_',
    ensures
        scopes::counted(translation::slot(g, translation::label(prefix, n), t)),
{
    let name = translation::label(prefix, n);
    if scopes::is_numbered(name) {
        let (base, m) = choose|base: Seq<char>, m: usize|
            name == #[trigger] text::dotted(base, text::digits(m as nat));
        reveal_strlit(".");
        assert((base + "."@).last() == '.');
        assert(name == translation::label(base + "."@, m));
        labels::lemma_label(prefix, n, base + "."@, m);
        assert(false);
    }
    lemma_put(g, name, t);
}

// ---------------------------------------------------------------------------
// Parts of expressions and of patterns

/// Storing members declares nothing.
proof fn lemma_store_members(
    g: G,
    object: Value,
    values: Seq<Value>,
    first: int,
    name: Seq<char>,
    k: int,
)
    ensures
        same(g, translation::store_members(g, object, values, first, name, k)),
    decreases values.len() - k,
{
    broadcast use group_steps;

    reveal(translation::store_members);
    if 0 <= k < values.len() {
        lemma_store_members(
            translation::emit(
                g,
                Inst::StoreStructMember(object, (first + k) as usize, values[k], name),
            ),
            object,
            values,
            first,
            name,
            k + 1,
        );
    }
}

/// Making a variant with a payload declares nothing.
proof fn lemma_construct(g: G, owner: Seq<char>, variant: Seq<char>, values: Seq<Value>)
    ensures
        translation::construct(g, owner, variant, values) matches Some((h, _)) ==> same(g, h),
{
    broadcast use group_steps;

    reveal(translation::construct);
    let name = text::dotted(owner, variant);
    if let Some((g1, size)) = translation::def(g, Inst::SizeOf(Ty::Named(name), g.f.registers)) {
        if let Some((g2, object)) = translation::call(g1, "malloc"@, seq![size]) {
            if let Some(index) = translation::variant_index(g2.cg.module, owner, variant) {
                if let Some((g3, tag)) = translation::int_const(g2, index as i64) {
                    lemma_store_members(
                        translation::emit(g3, Inst::StoreStructMember(object, 0, tag, name)),
                        object,
                        values,
                        1,
                        name,
                        0,
                    );
                }
            }
        }
    }
}

/// What names an expression uses declares nothing.
proof fn lemma_names(g: G, name: Seq<char>, t: Ty, resolve: bool, n: usize)
    ensures
        translation::name_use(g, name, t, resolve) matches Some((h, _)) ==> same(g, h),
        translation::env_cell(g, n) matches Some((h, _)) ==> same(g, h),
{
    broadcast use group_steps;

    reveal(translation::name_use);
    reveal(translation::read_name);
    reveal(translation::env_cell);
}

/// A variant used as a value declares nothing.
proof fn lemma_variant_value(g: G, ns: ExpressionNode, variant: ExpressionNode)
    ensures
        translation::variant_value(g, ns, variant) matches Some((h, _)) ==> same(g, h),
{
    broadcast use group_steps;

    reveal(translation::variant_value);
    if let Some(owner) = translation::ident(ns) {
        if let Some(variant) = translation::ident(variant) {
            lemma_construct(g, owner, variant, Seq::empty());
        }
    }
}

/// Finding a tag declares nothing.
proof fn lemma_variant_tag(g: G, value: Value, owner: Seq<char>)
    ensures
        translation::variant_tag(g, value, owner) matches Some((h, _)) ==> same(g, h),
{
    broadcast use group_steps;

    reveal(translation::variant_tag);
}

/// Testing an item declares nothing.
proof fn lemma_item_test(
    g: G,
    item: Value,
    expected: i64,
    prefix: Seq<char>,
    tests: usize,
    fail: Seq<char>,
)
    ensures
        translation::item_test(g, item, expected, prefix, tests, fail) matches Some((h, _))
            ==> same(g, h),
{
    broadcast use group_steps;

    reveal(translation::item_test);
}

/// Testing a tuple declares nothing.
proof fn lemma_tuple_test(
    g: G,
    items: Seq<MatchPattern>,
    k: int,
    value: Value,
    tuple: Seq<char>,
    prefix: Seq<char>,
    tests: usize,
    fail: Seq<char>,
)
    ensures
        translation::tuple_test(g, items, k, value, tuple, prefix, tests, fail) matches Some((h, _))
            ==> same(g, h),
    decreases items, items.len() - k,
{
    broadcast use group_steps;

    reveal(translation::tuple_test);
    if 0 <= k < items.len() {
        match items[k] {
            MatchPattern::Wildcard => {
                lemma_tuple_test(g, items, k + 1, value, tuple, prefix, tests, fail);
            },
            MatchPattern::Binding(_) => {
                lemma_tuple_test(g, items, k + 1, value, tuple, prefix, tests, fail);
            },
            MatchPattern::Tuple(inner) => {
                if let Some((g1, item)) = translation::member(g, value, k, true, tuple) {
                    if let Some(t) = translation::member_type(g1.cg.module, tuple, k) {
                        let name = types::name_of(t);
                        lemma_tuple_test(g1, inner@, 0, item, name, prefix, tests, fail);
                        if let Some((g2, tests)) = translation::tuple_test(
                            g1,
                            inner@,
                            0,
                            item,
                            name,
                            prefix,
                            tests,
                            fail,
                        ) {
                            lemma_tuple_test(g2, items, k + 1, value, tuple, prefix, tests, fail);
                        }
                    }
                }
            },
            MatchPattern::Integer(expected) => {
                if let Some((g1, item)) = translation::member(g, value, k, true, tuple) {
                    lemma_item_test(g1, item, expected, prefix, tests, fail);
                    if let Some((g2, tests)) = translation::item_test(
                        g1,
                        item,
                        expected,
                        prefix,
                        tests,
                        fail,
                    ) {
                        lemma_tuple_test(g2, items, k + 1, value, tuple, prefix, tests, fail);
                    }
                }
            },
            MatchPattern::Variant(owner, variant) => {
                if let Some((g1, item)) = translation::member(g, value, k, true, tuple) {
                    lemma_variant_tag(g1, item, owner@);
                    if let Some((g2, tag)) = translation::variant_tag(g1, item, owner@) {
                        if let Some(index) = translation::variant_index(
                            g2.cg.module,
                            owner@,
                            variant@,
                        ) {
                            lemma_item_test(g2, tag, index as i64, prefix, tests, fail);
                            if let Some((g3, tests)) = translation::item_test(
                                g2,
                                tag,
                                index as i64,
                                prefix,
                                tests,
                                fail,
                            ) {
                                lemma_tuple_test(
                                    g3,
                                    items,
                                    k + 1,
                                    value,
                                    tuple,
                                    prefix,
                                    tests,
                                    fail,
                                );
                            }
                        }
                    }
                }
            },
            _ => {},
        }
    }
}

/// Testing whether an arm matches declares nothing.
proof fn lemma_arm_test(g: G, m: Matching, pattern: MatchPattern, i: int)
    ensures
        translation::arm_test(g, m, pattern, i) matches Some(h) ==> same(g, h),
{
    broadcast use group_steps;

    reveal(translation::arm_test);
    reveal(translation::tag_test);
    if let MatchPattern::Tuple(items) = pattern {
        lemma_tuple_test(
            g,
            items@,
            0,
            m.value,
            m.owner,
            translation::label2("match-test-"@, m.n, i as usize),
            0,
            translation::match_next(m, i),
        );
    }
}

/// Binding a member.
proof fn lemma_bind_member(g: G, value: Value, index: int, owner: Seq<char>, name: Seq<char>)
    requires
        scopes::counted(g),
        !scopes::is_numbered(name),
    ensures
        translation::bind_member(g, value, index, owner, name) matches Some(h)
            ==> scopes::counted(h),
{
    broadcast use group_steps;

    reveal(translation::bind_member);
    if let Some(t) = translation::member_type(g.cg.module, owner, index) {
        if let Some((g1, item)) = translation::member(g, value, index, true, owner) {
            if let Some((g2, unique)) = translation::declare(g1, name, t) {
                scopes::lemma_declared_is_new(g1, name, t);
            }
        }
    }
}

/// Binding the items of a tuple.
proof fn lemma_bind_tuple(
    g: G,
    items: Seq<MatchPattern>,
    k: int,
    value: Value,
    tuple: Seq<char>,
)
    requires
        scopes::counted(g),
        patterns_plain(items),
    ensures
        translation::bind_tuple(g, items, k, value, tuple) matches Some(h) ==> scopes::counted(h),
    decreases items, items.len() - k,
{
    broadcast use group_steps;

    reveal(translation::bind_tuple);
    if 0 <= k < items.len() {
        assert(pattern_plain(items[k]));
        match items[k] {
            MatchPattern::Binding(name) => {
                lemma_bind_member(g, value, k, tuple, name@);
                if let Some(g1) = translation::bind_member(g, value, k, tuple, name@) {
                    lemma_bind_tuple(g1, items, k + 1, value, tuple);
                }
            },
            MatchPattern::Tuple(inner) => {
                if let Some((g1, item)) = translation::member(g, value, k, true, tuple) {
                            if let Some(t) = translation::member_type(g1.cg.module, tuple, k) {
                        lemma_bind_tuple(g1, inner@, 0, item, types::name_of(t));
                        if let Some(g2) = translation::bind_tuple(
                            g1,
                            inner@,
                            0,
                            item,
                            types::name_of(t),
                        ) {
                            lemma_bind_tuple(g2, items, k + 1, value, tuple);
                        }
                    }
                }
            },
            _ => {
                lemma_bind_tuple(g, items, k + 1, value, tuple);
            },
        }
    }
}

/// Binding a payload.
proof fn lemma_bind_payload(
    g: G,
    bindings: Seq<Option<&str>>,
    k: int,
    value: Value,
    owner: Seq<char>,
)
    requires
        scopes::counted(g),
        bindings_plain(bindings),
    ensures
        translation::bind_payload(g, bindings, k, value, owner) matches Some(h)
            ==> scopes::counted(h),
    decreases bindings.len() - k,
{
    reveal(translation::bind_payload);
    if 0 <= k < bindings.len() {
        match bindings[k] {
            Some(name) => {
                lemma_bind_member(g, value, k + 1, owner, name@);
                if let Some(g1) = translation::bind_member(g, value, k + 1, owner, name@) {
                    lemma_bind_payload(g1, bindings, k + 1, value, owner);
                }
            },
            None => {
                lemma_bind_payload(g, bindings, k + 1, value, owner);
            },
        }
    }
}

/// Binding what a pattern binds.
proof fn lemma_arm_bind(g: G, m: Matching, pattern: MatchPattern)
    requires
        scopes::counted(g),
        pattern_plain(pattern),
    ensures
        translation::arm_bind(g, m, pattern) matches Some(h) ==> scopes::counted(h),
{
    reveal(translation::arm_bind);
    match pattern {
        MatchPattern::Tuple(items) => {
            lemma_bind_tuple(g, items@, 0, m.value, m.owner);
        },
        MatchPattern::Destructure(owner, variant, bindings) => {
            lemma_bind_payload(g, bindings@, 0, m.value, text::dotted(owner@, variant@));
        },
        _ => {},
    }
}

// ---------------------------------------------------------------------------
// Expressions

/// An expression.
pub proof fn lemma_expr(g: G, e: ExpressionNode, resolve: bool)
    requires
        scopes::counted(g),
        expr_plain(e),
    ensures
        translation::expr(g, e, resolve) matches Some((h, _)) ==> scopes::counted(h),
    decreases e, 3int,
{
    broadcast use group_steps;

    reveal(translation::expr);
    reveal(translation::inner);
    lemma_inner(g, e, resolve);
}

/// Expressions, one after the other.
proof fn lemma_exprs(g: G, es: Seq<ExpressionNode>, k: int, values: Seq<Value>)
    requires
        scopes::counted(g),
        exprs_plain(es),
    ensures
        translation::exprs(g, es, k, values) matches Some((h, _)) ==> scopes::counted(h),
    decreases es, es.len() - k,
{
    reveal(translation::exprs);
    reveal(translation::expr);
    if 0 <= k < es.len() {
        lemma_expr(g, es[k], true);
        if let Some((g1, v)) = translation::expr(g, es[k], true) {
            lemma_exprs(g1, es, k + 1, values.push(v));
        }
    }
}

/// Named expressions, one after the other.
proof fn lemma_fields(g: G, es: Seq<(&str, ExpressionNode)>, k: int, values: Seq<Value>)
    requires
        scopes::counted(g),
        fields_plain(es),
    ensures
        translation::fields(g, es, k, values) matches Some((h, _)) ==> scopes::counted(h),
    decreases es, es.len() - k,
{
    reveal(translation::fields);
    reveal(translation::expr);
    if 0 <= k < es.len() {
        lemma_expr(g, es[k].1, true);
        if let Some((g1, v)) = translation::expr(g, es[k].1, true) {
            lemma_fields(g1, es, k + 1, values.push(v));
        }
    }
}

/// An expression, by what it is.
proof fn lemma_inner(g: G, e: ExpressionNode, resolve: bool)
    requires
        scopes::counted(g),
        expr_plain(e),
    ensures
        translation::inner(g, e, resolve) matches Some((h, _)) ==> scopes::counted(h),
    decreases e, 2int,
{
    broadcast use group_steps;

    reveal(translation::inner);
    reveal(translation::unary);
    reveal(translation::new_cell);
    reveal(translation::array);
    reveal(translation::array_access);
    reveal(translation::struct_value);
    reveal(translation::struct_access);
    reveal(translation::block_value);
    reveal(translation::heap_value);
    reveal(translation::infix);
    reveal(translation::function_call);
    reveal(translation::call_closure);
    reveal(translation::make_closure);
    reveal(translation::address);
    reveal(translation::match_expr);
    match e.expression {
        Expression::Infix(..) => lemma_infix(g, e),
        Expression::Identifier(name) => lemma_names(g, name@, types::ty_of(e.typed), resolve, 0),
        Expression::FunctionCall { .. } => lemma_function_call(g, e),
        Expression::Not(..) => lemma_unary(g, e),
        Expression::BitNot(..) => lemma_unary(g, e),
        Expression::Negate(..) => lemma_unary(g, e),
        Expression::Pointer(operand) => lemma_address(g, parts::node(operand)),
        Expression::MakeClosure(..) => lemma_make_closure(g, e),
        Expression::NewCell(..) => lemma_new_cell(g, e),
        Expression::EnvCell(n) => lemma_names(g, Seq::empty(), Ty::Void, false, n),
        Expression::CallClosure(..) => lemma_call_closure(g, e),
        Expression::Deref(..) => lemma_unary(g, e),
        Expression::Array(..) => lemma_array(g, e),
        Expression::ArrayAccess(..) => lemma_array_access(g, e),
        Expression::StructInitialisation(..) => lemma_struct_value(g, e),
        Expression::StructAccess(..) => lemma_struct_access(g, e, resolve),
        Expression::NamespaceAccess(ns, variant) => lemma_variant_value(
            g,
            parts::node(ns),
            parts::node(variant),
        ),
        Expression::Match(..) => lemma_match(g, e),
        Expression::Cast(..) => lemma_unary(g, e),
        Expression::Block(..) => lemma_block_value(g, e, resolve),
        Expression::Alloc(..) => lemma_heap_value(g, e),
        _ => {},
    }
}

/// An operation on one operand.
proof fn lemma_unary(g: G, e: ExpressionNode)
    requires
        scopes::counted(g),
        expr_plain(e),
    ensures
        translation::unary(g, e) matches Some((h, _)) ==> scopes::counted(h),
    decreases e, 0int,
{
    broadcast use group_steps;

    reveal(translation::unary);
    reveal(translation::expr);
    match e.expression {
        Expression::Not(operand) => lemma_expr(g, parts::node(operand), true),
        Expression::BitNot(operand) => lemma_expr(g, parts::node(operand), true),
        Expression::Negate(operand) => {
            let start = if types::ty_of(parts::node(operand).typed) is Float {
                translation::def(g, Inst::ConstFloat(0, g.f.registers))
            } else {
                translation::int_const(g, 0)
            };
            if let Some((g1, _)) = start {
                lemma_expr(g1, parts::node(operand), true);
            }
        },
        Expression::Deref(pointer) => lemma_expr(g, parts::node(pointer), true),
        Expression::Cast(operand, _) => lemma_expr(g, parts::node(operand), true),
        _ => {},
    }
}

/// A new heap cell.
proof fn lemma_new_cell(g: G, e: ExpressionNode)
    requires
        scopes::counted(g),
        expr_plain(e),
    ensures
        translation::new_cell(g, e) matches Some((h, _)) ==> scopes::counted(h),
    decreases e, 0int,
{
    broadcast use group_steps;

    reveal(translation::new_cell);
    reveal(translation::expr);
    if let Expression::NewCell(value) = e.expression {
        if let Some(size) = translation::byte_size(
            g.cg.module.structs,
            types::ty_of(parts::node(value).typed),
            g.cg.module.structs.len(),
        ) {
            let n = (if size > 8 {
                size
            } else {
                8
            }) as usize as i64;
            if let Some((g1, _)) = translation::int_const(g, n) {
                lemma_expr(g1, parts::node(value), true);
            }
        }
    }
}

/// An array.
proof fn lemma_array(g: G, e: ExpressionNode)
    requires
        scopes::counted(g),
        expr_plain(e),
    ensures
        translation::array(g, e) matches Some((h, _)) ==> scopes::counted(h),
    decreases e, 0int,
{
    broadcast use group_steps;

    reveal(translation::array);
    reveal(translation::elements);
    if let Expression::Array(items) = e.expression {
        if items@.len() > 0 {
            let t = types::ty_of(items@[0].typed);
            let create = Inst::CreateArray(t, items@.len() as usize, g.f.registers);
            if let Some((g1, array)) = translation::def(g, create) {
                lemma_elements(g1, items@, 0, array, t);
            }
        }
    }
}

/// The elements of an array.
proof fn lemma_elements(g: G, items: Seq<ExpressionNode>, k: int, array: Value, t: Ty)
    requires
        scopes::counted(g),
        exprs_plain(items),
    ensures
        translation::elements(g, items, k, array, t) matches Some((h, _)) ==> scopes::counted(h),
    decreases items, items.len() - k,
{
    broadcast use group_steps;

    reveal(translation::elements);
    reveal(translation::expr);
    if 0 <= k < items.len() {
        lemma_expr(g, items[k], true);
        if let Some((g1, v)) = translation::expr(g, items[k], true) {
            if let Some((g2, index)) = translation::int_const(g1, k as usize as i64) {
                lemma_elements(
                    translation::emit(g2, Inst::StoreElement(array, index, v, t)),
                    items,
                    k + 1,
                    array,
                    t,
                );
            }
        }
    }
}

/// An element.
proof fn lemma_array_access(g: G, e: ExpressionNode)
    requires
        scopes::counted(g),
        expr_plain(e),
    ensures
        translation::array_access(g, e) matches Some((h, _)) ==> scopes::counted(h),
    decreases e, 0int,
{
    broadcast use group_steps;

    reveal(translation::array_access);
    reveal(translation::expr);
    if let Expression::ArrayAccess(array, index) = e.expression {
        lemma_expr(g, parts::node(array), true);
        if let Some((g1, _)) = translation::expr(g, parts::node(array), true) {
            lemma_expr(g1, parts::node(index), true);
        }
    }
}

/// A struct.
proof fn lemma_struct_value(g: G, e: ExpressionNode)
    requires
        scopes::counted(g),
        expr_plain(e),
    ensures
        translation::struct_value(g, e) matches Some((h, _)) ==> scopes::counted(h),
    decreases e, 0int,
{
    broadcast use group_steps;

    reveal(translation::struct_value);
    reveal(translation::fields);
    if let Expression::StructInitialisation(_, vals) = e.expression {
        lemma_fields(g, vals@, 0, Seq::empty());
    }
}

/// A member of a struct.
proof fn lemma_struct_access(g: G, e: ExpressionNode, resolve: bool)
    requires
        scopes::counted(g),
        expr_plain(e),
    ensures
        translation::struct_access(g, e, resolve) matches Some((h, _)) ==> scopes::counted(h),
    decreases e, 0int,
{
    broadcast use group_steps;

    reveal(translation::struct_access);
    reveal(translation::expr);
    if let Expression::StructAccess(struc, _) = e.expression {
        lemma_expr(g, parts::node(struc), true);
    }
}

/// A block used as a value.
proof fn lemma_block_value(g: G, e: ExpressionNode, resolve: bool)
    requires
        scopes::counted(g),
        expr_plain(e),
    ensures
        translation::block_value(g, e, resolve) matches Some((h, _)) ==> scopes::counted(h),
    decreases e, 0int,
{
    broadcast use group_steps;

    reveal(translation::block_value);
    reveal(translation::stmts);
    reveal(translation::expr);
    if let Expression::Block(body, last) = e.expression {
        let start = translation::enter(g);
        lemma_stmts(start, body@, 0);
        if let Some(g1) = translation::stmts(start, body@, 0) {
            if let Some(last) = last {
                lemma_expr(g1, parts::node(last), resolve);
            }
        }
    }
}

/// A struct on the heap.
proof fn lemma_heap_value(g: G, e: ExpressionNode)
    requires
        scopes::counted(g),
        expr_plain(e),
    ensures
        translation::heap_value(g, e) matches Some((h, _)) ==> scopes::counted(h),
    decreases e, 0int,
{
    broadcast use group_steps;

    reveal(translation::heap_value);
    reveal(translation::fields);
    if let Expression::Alloc(object) = e.expression {
        if let Expression::StructInitialisation(struc, vals) = parts::node(object).expression {
            assert(expr_plain(parts::node(object)));
            if let Some(name) = translation::ident(parts::node(struc)) {
                lemma_fields(g, vals@, 0, Seq::empty());
                if let Some((g1, values)) = translation::fields(g, vals@, 0, Seq::empty()) {
                    if let Some(size) = translation::alloc_size(g1.cg.module, name, vals@.len()) {
                        if let Some((g2, size)) = translation::int_const(
                            g1,
                            size as usize as i64,
                        ) {
                            if let Some((g3, x)) = translation::call(g2, "malloc"@, seq![size]) {
                                lemma_store_members(g3, x, values, 0, name, 0);
                            }
                        }
                    }
                }
            }
        }
    }
}

/// Two operands joined by an operator.
proof fn lemma_infix(g: G, e: ExpressionNode)
    requires
        scopes::counted(g),
        expr_plain(e),
    ensures
        translation::infix(g, e) matches Some((h, _)) ==> scopes::counted(h),
    decreases e, 0int,
{
    broadcast use group_steps;

    reveal(translation::infix);
    reveal(translation::expr);
    if let Expression::Infix(left, op, right) = e.expression {
        let (a, b) = (parts::node(left), parts::node(right));
        lemma_expr(g, a, true);
        if let Some((g1, _)) = translation::expr(g, a, true) {
            lemma_expr(g1, b, true);
        }
        let n = g.f.if_index;
        let result = translation::label("__sc_"@, n);
        let rest = translation::label("sc_rhs_"@, n);
        let end = translation::label("sc_end_"@, n);
        if let Some(g1) = translation::next_if(g) {
            reveal_strlit("__sc_");
            lemma_temporary(g1, "__sc_"@, n, Ty::Bool);
            let g2 = translation::slot(g1, result, Ty::Bool);
            let decided = if op is Or {
                translation::def(g2, Inst::ConstTrue(g2.f.registers))
            } else {
                translation::def(g2, Inst::ConstFalse(g2.f.registers))
            };
            if let Some((g3, v)) = decided {
                let g4 = translation::emit(g3, Inst::Store(result, v, Ty::Bool));
                lemma_expr(g4, a, true);
                if let Some((g5, x)) = translation::expr(g4, a, true) {
                    let jump = if op is Or {
                        Inst::Jcond(x, end, rest)
                    } else {
                        Inst::Jcond(x, rest, end)
                    };
                    let g6 = translation::block(translation::emit(g5, jump), rest);
                    lemma_expr(g6, b, true);
                }
            }
        }
    }
}

/// A call.
proof fn lemma_function_call(g: G, e: ExpressionNode)
    requires
        scopes::counted(g),
        expr_plain(e),
    ensures
        translation::function_call(g, e) matches Some((h, _)) ==> scopes::counted(h),
    decreases e, 0int,
{
    broadcast use group_steps;

    reveal(translation::function_call);
    reveal(translation::exprs);
    reveal(translation::expr);
    reveal(translation::address);
    if let Expression::FunctionCall { function, args } = e.expression {
        let f = parts::node(function);
        assert(expr_plain(f));
        lemma_exprs(g, args@, 0, Seq::empty());
        match translation::boxed_variant(g.cg.module, f) {
            Some((owner, variant)) => {
                if let Some((g1, values)) = translation::exprs(g, args@, 0, Seq::empty()) {
                    lemma_construct(g1, owner, variant, values);
                }
            },
            None => {
                if let Some(name) = translation::resolve(f) {
                    if let Expression::StructAccess(left, _) = f.expression {
                        let object = parts::node(left);
                        let t = types::ty_of(object.typed);
                        lemma_address(g, object);
                        lemma_expr(g, object, true);
                        let start = match translation::receiver(g.cg.signatures, t, name) {
                            Receiver::Address => translation::address(g, object),
                            Receiver::Value => translation::expr(g, object, true),
                            Receiver::Load => match translation::expr(g, object, true) {
                                None => None,
                                Some((g1, p)) => match translation::int_const(g1, 0) {
                                    None => None,
                                    Some((g2, zero)) => match t {
                                        Ty::Pointer(pointee) => translation::def(
                                            g2,
                                            Inst::AccessElement(p, zero, g2.f.registers, *pointee),
                                        ),
                                        _ => None,
                                    },
                                },
                            },
                        };
                        if let Some((g3, x)) = start {
                            lemma_exprs(g3, args@, 0, seq![x]);
                        }
                    }
                }
            },
        }
    }
}

/// A call of a function value.
proof fn lemma_call_closure(g: G, e: ExpressionNode)
    requires
        scopes::counted(g),
        expr_plain(e),
    ensures
        translation::call_closure(g, e) matches Some((h, _)) ==> scopes::counted(h),
    decreases e, 0int,
{
    broadcast use group_steps;

    reveal(translation::call_closure);
    reveal(translation::exprs);
    reveal(translation::expr);
    if let Expression::CallClosure(callee, args) = e.expression {
        lemma_expr(g, parts::node(callee), true);
        if let Some((g1, object)) = translation::expr(g, parts::node(callee), true) {
            if let Some((g2, _)) = translation::call(g1, "ptr_read_str"@, seq![object]) {
                lemma_exprs(g2, args@, 0, seq![object]);
            }
        }
    }
}

/// A closure object.
proof fn lemma_make_closure(g: G, e: ExpressionNode)
    requires
        scopes::counted(g),
        expr_plain(e),
    ensures
        translation::make_closure(g, e) matches Some((h, _)) ==> scopes::counted(h),
    decreases e, 0int,
{
    broadcast use group_steps;

    reveal(translation::make_closure);
    reveal(translation::captured);
    if let Expression::MakeClosure(name, captures) = e.expression {
        if let Some(size) = translation::cells(captures@.len() as usize as i64) {
            if let Some((g1, size)) = translation::int_const(g, size) {
                if let Some((g2, object)) = translation::call(g1, "malloc"@, seq![size]) {
                    let address = Inst::FunctionAddress(name@, g2.f.registers);
                    if let Some((g3, code)) = translation::def(g2, address) {
                        if let Some((g4, _)) = translation::call(
                            g3,
                            "ptr_write_str"@,
                            seq![object, code],
                        ) {
                            lemma_captured(g4, captures@, 0, object);
                        }
                    }
                }
            }
        }
    }
}

/// The cells of a closure object.
proof fn lemma_captured(g: G, captures: Seq<ExpressionNode>, k: int, object: Value)
    requires
        scopes::counted(g),
        exprs_plain(captures),
    ensures
        translation::captured(g, captures, k, object) matches Some(h) ==> scopes::counted(h),
    decreases captures, captures.len() - k,
{
    broadcast use group_steps;

    reveal(translation::captured);
    reveal(translation::expr);
    if 0 <= k < captures.len() {
        lemma_expr(g, captures[k], true);
        if let Some((g1, cell)) = translation::expr(g, captures[k], true) {
            if let Some(offset) = translation::cells(k as usize as i64) {
                if let Some((g2, offset)) = translation::int_const(g1, offset) {
                    if let Some((g3, place)) = translation::call(
                        g2,
                        "ptr_add"@,
                        seq![object, offset],
                    ) {
                        if let Some((g4, _)) = translation::call(
                            g3,
                            "ptr_write_str"@,
                            seq![place, cell],
                        ) {
                            lemma_captured(g4, captures, k + 1, object);
                        }
                    }
                }
            }
        }
    }
}

/// The address of an expression.
proof fn lemma_address(g: G, e: ExpressionNode)
    requires
        scopes::counted(g),
        expr_plain(e),
    ensures
        translation::address(g, e) matches Some((h, _)) ==> scopes::counted(h),
    decreases e, 4int,
{
    broadcast use group_steps;

    reveal(translation::address);
    reveal(translation::object);
    reveal(translation::expr);
    match e.expression {
        Expression::StructAccess(struc, _) => {
            lemma_object(g, parts::node(struc));
        },
        Expression::ArrayAccess(array, index) => {
            lemma_expr(g, parts::node(array), true);
            if let Some((g1, _)) = translation::expr(g, parts::node(array), true) {
                lemma_expr(g1, parts::node(index), true);
            }
        },
        Expression::Deref(pointer) => {
            lemma_expr(g, parts::node(pointer), true);
        },
        _ => {
            let n = g.f.if_index;
            let t = types::ty_of(e.typed);
            if let Some(g1) = translation::next_if(g) {
                lemma_expr(g1, e, true);
                if let Some((g2, _)) = translation::expr(g1, e, true) {
                    reveal_strlit("__tmp_");
                    lemma_temporary(g2, "__tmp_"@, n, t);
                }
            }
        },
    }
}

/// The address of a struct.
proof fn lemma_object(g: G, struc: ExpressionNode)
    requires
        scopes::counted(g),
        expr_plain(struc),
    ensures
        translation::object(g, struc) matches Some((h, _)) ==> scopes::counted(h),
    decreases struc, 5int,
{
    reveal(translation::object);
    reveal(translation::address);
    reveal(translation::expr);
    lemma_expr(g, struc, true);
    lemma_address(g, struc);
}

/// A match.
proof fn lemma_match(g: G, e: ExpressionNode)
    requires
        scopes::counted(g),
        expr_plain(e),
    ensures
        translation::match_expr(g, e) matches Some((h, _)) ==> scopes::counted(h),
    decreases e, 0int,
{
    broadcast use group_steps;

    reveal(translation::match_expr);
    reveal(translation::arms);
    reveal(translation::expr);
    if let Expression::Match(scrutinee, cases) = e.expression {
        let n = g.f.match_index;
        if let Some(g1) = translation::next_match(g) {
            lemma_expr(g1, parts::node(scrutinee), true);
            if let Some((g2, value)) = translation::expr(g1, parts::node(scrutinee), true) {
                let typed = types::ty_of(parts::node(scrutinee).typed);
                let result = types::ty_of(e.typed);
                lemma_match_start(g2, n, value, typed, result, cases@.len());
                if let Some((g3, m)) = translation::match_start(
                    g2,
                    n,
                    value,
                    typed,
                    result,
                    cases@.len(),
                ) {
                    lemma_arms(g3, m, cases@, 0);
                }
            }
        }
    }
}

/// The start of a match.
proof fn lemma_match_start(g: G, n: usize, value: Value, typed: Ty, result: Ty, count: nat)
    requires
        scopes::counted(g),
    ensures
        translation::match_start(g, n, value, typed, result, count) matches Some((h, _))
            ==> scopes::counted(h),
{
    let owner = match typed {
        Ty::Named(name) => name,
        _ => Seq::empty(),
    };
    lemma_variant_tag(g, value, owner);
    if let Some((g1, _)) = translation::variant_tag(g, value, owner) {
        reveal_strlit("__match_");
        lemma_temporary(g1, "__match_"@, n, result);
    }
}

/// The arms of a match.
proof fn lemma_arms(g: G, m: Matching, cases: Seq<(MatchPattern, ExpressionNode)>, i: int)
    requires
        scopes::counted(g),
        arms_plain(cases),
    ensures
        translation::arms(g, m, cases, i) matches Some(h) ==> scopes::counted(h),
    decreases cases, cases.len() - i,
{
    broadcast use group_steps;

    reveal(translation::arms);
    reveal(translation::expr);
    if 0 <= i < cases.len() {
        assert(pattern_plain(cases[i].0) && expr_plain(cases[i].1));
        lemma_arm_test(g, m, cases[i].0, i);
        if let Some(g1) = translation::arm_test(g, m, cases[i].0, i) {
            let g2 = translation::enter(translation::block(g1, translation::match_arm(m, i)));
            lemma_arm_bind(g2, m, cases[i].0);
            if let Some(g3) = translation::arm_bind(g2, m, cases[i].0) {
                lemma_expr(g3, cases[i].1, true);
                if let Some((g4, v)) = translation::expr(g3, cases[i].1, true) {
                    assert(same(g4, translation::arm_end(g4, m, v))) by {
                        reveal(translation::arm_end);
                    }
                    let g5 = translation::leave(translation::arm_end(g4, m, v));
                    if i + 1 < cases.len() {
                        lemma_arms(
                            translation::block(g5, translation::match_next(m, i)),
                            m,
                            cases,
                            i + 1,
                        );
                    }
                }
            }
        }
    }
}

// ---------------------------------------------------------------------------
// Statements

/// Statements keep that numbers are counted.
pub proof fn lemma_stmts(g: G, ss: Seq<Statement>, k: int)
    requires
        scopes::counted(g),
        stmts_plain(ss),
    ensures
        translation::stmts(g, ss, k) matches Some(h) ==> scopes::counted(h),
    decreases ss, ss.len() - k,
{
    reveal(translation::stmts);
    reveal(translation::stmt);
    if 0 <= k < ss.len() {
        lemma_stmt(g, ss[k]);
        if let Some(g1) = translation::stmt(g, ss[k]) {
            lemma_stmts(g1, ss, k + 1);
        }
    }
}

/// The statements of a body.
pub proof fn lemma_scope(g: G, ss: Seq<Statement>)
    requires
        scopes::counted(g),
        stmts_plain(ss),
    ensures
        translation::scope(g, ss) matches Some(h) ==> scopes::counted(h),
    decreases ss, ss.len() + 1,
{
    broadcast use group_steps;

    reveal(translation::scope);
    reveal(translation::stmts);
    lemma_stmts(translation::enter(g), ss, 0);
}

/// A statement.
pub proof fn lemma_stmt(g: G, s: Statement)
    requires
        scopes::counted(g),
        stmt_plain(s),
    ensures
        translation::stmt(g, s) matches Some(h) ==> scopes::counted(h),
    decreases s, 1int,
{
    broadcast use group_steps;

    reveal(translation::stmt);
    reveal(translation::expr);
    reveal(translation::address);
    reveal(translation::stmts);
    reveal(translation::scope);
    reveal(translation::assign);
    reveal(translation::reassign);
    reveal(translation::ret);
    reveal(translation::if_stmt);
    reveal(translation::while_stmt);
    reveal(translation::for_stmt);
    match s {
        Statement::Assign(..) => lemma_assign(g, s),
        Statement::Return(..) => lemma_ret(g, s),
        Statement::Group(body) => lemma_stmts(g, body@, 0),
        Statement::ExpressionStatement(e, _) => lemma_expr(g, e, true),
        Statement::If(..) => lemma_if(g, s),
        Statement::While(..) => lemma_while(g, s),
        Statement::For(..) => lemma_for(g, s),
        Statement::Reassign(..) => lemma_reassign(g, s),
        Statement::CompoundAssign(target, _, value, _) => {
            let t = types::ty_of(target.typed);
            lemma_address(g, target);
            if let Some((g1, p)) = translation::address(g, target) {
                if let Some((g2, zero)) = translation::int_const(g1, 0) {
                    let read = Inst::AccessElement(p, zero, g2.f.registers, t);
                    if let Some((g3, _)) = translation::def(g2, read) {
                        lemma_expr(g3, value, true);
                    }
                }
            }
        },
        Statement::Block(body) => lemma_scope(g, body@),
        _ => {},
    }
}

/// The declaration of a variable.
proof fn lemma_assign(g: G, s: Statement)
    requires
        scopes::counted(g),
        stmt_plain(s),
    ensures
        translation::assign(g, s) matches Some(h) ==> scopes::counted(h),
    decreases s, 0int,
{
    broadcast use group_steps;

    reveal(translation::assign);
    reveal(translation::expr);
    if let Statement::Assign(_, name, annotation, e, _) = s {
        lemma_expr(g, e, true);
        if let Some((g1, _)) = translation::expr(g, e, true) {
            let t = match annotation {
                Some(t) => types::ty_of(t),
                None => types::ty_of(e.typed),
            };
            if translation::declare(g1, name@, t) is Some {
                scopes::lemma_declared_is_new(g1, name@, t);
            }
        }
    }
}

/// An assignment.
proof fn lemma_reassign(g: G, s: Statement)
    requires
        scopes::counted(g),
        stmt_plain(s),
    ensures
        translation::reassign(g, s) matches Some(h) ==> scopes::counted(h),
    decreases s, 0int,
{
    reveal(translation::reassign);
    reveal(translation::expr);
    reveal(translation::store_to);
    if let Statement::Reassign(target, e, _) = s {
        lemma_expr(g, e, true);
        if let Some((g1, v)) = translation::expr(g, e, true) {
            lemma_store_to(g1, target, v);
        }
    }
}

/// Storing a value.
proof fn lemma_store_to(g: G, target: ExpressionNode, v: Value)
    requires
        scopes::counted(g),
        expr_plain(target),
    ensures
        translation::store_to(g, target, v) matches Some(h) ==> scopes::counted(h),
    decreases target, 0int,
{
    broadcast use group_steps;

    reveal(translation::store_to);
    reveal(translation::expr);
    reveal(translation::object);
    match target.expression {
        Expression::Deref(pointer) => lemma_expr(g, parts::node(pointer), true),
        Expression::ArrayAccess(array, index) => {
            lemma_expr(g, parts::node(array), true);
            if let Some((g1, _)) = translation::expr(g, parts::node(array), true) {
                lemma_expr(g1, parts::node(index), true);
            }
        },
        Expression::StructAccess(struc, _) => lemma_object(g, parts::node(struc)),
        _ => {},
    }
}

/// The end of a function.
proof fn lemma_ret(g: G, s: Statement)
    requires
        scopes::counted(g),
        stmt_plain(s),
    ensures
        translation::ret(g, s) matches Some(h) ==> scopes::counted(h),
    decreases s, 0int,
{
    broadcast use group_steps;

    reveal(translation::ret);
    reveal(translation::expr);
    if let Statement::Return(Some(e), _) = s {
        lemma_expr(g, e, true);
    }
}

/// A conditional.
proof fn lemma_if(g: G, s: Statement)
    requires
        scopes::counted(g),
        stmt_plain(s),
    ensures
        translation::if_stmt(g, s) matches Some(h) ==> scopes::counted(h),
    decreases s, 0int,
{
    broadcast use group_steps;

    reveal(translation::if_stmt);
    reveal(translation::expr);
    reveal(translation::scope);
    reveal(translation::stmt);
    if let Statement::If(cond, body, other, _) = s {
        lemma_expr(g, cond, true);
        if let Some((g0, c)) = translation::expr(g, cond, true) {
            let n = g0.f.if_index;
            let yes = translation::label("true-"@, n);
            let no = translation::label("else-"@, n);
            let end = translation::label("end-"@, n);
            if let Some(g1) = translation::next_if(g0) {
                let jump = Inst::Jcond(
                    c,
                    yes,
                    if other is Some {
                        no
                    } else {
                        end
                    },
                );
                let g2 = translation::block(translation::emit(g1, jump), yes);
                lemma_scope(g2, body@);
                if let Some(g3) = translation::scope(g2, body@) {
                    let g4 = translation::fall_to(g3, end);
                    if let Some(other) = other {
                        lemma_stmt(
                            translation::enter(translation::block(g4, no)),
                            parts::branch(other),
                        );
                    }
                }
            }
        }
    }
}

/// A loop that tests its condition first.
proof fn lemma_while(g: G, s: Statement)
    requires
        scopes::counted(g),
        stmt_plain(s),
    ensures
        translation::while_stmt(g, s) matches Some(h) ==> scopes::counted(h),
    decreases s, 0int,
{
    broadcast use group_steps;

    reveal(translation::while_stmt);
    reveal(translation::expr);
    reveal(translation::scope);
    if let Statement::While(cond, body, _) = s {
        let n = g.f.if_index;
        let eval = translation::label("eval-"@, n);
        let again = translation::label("loop-"@, n);
        let end = translation::label("end-"@, n);
        if let Some(g1) = translation::next_if(g) {
            let g2 = translation::enter_loop(g1, end, eval);
            let g3 = translation::block(translation::emit(g2, Inst::Jump(eval)), eval);
            lemma_expr(g3, cond, true);
            if let Some((g4, c)) = translation::expr(g3, cond, true) {
                let test = Inst::Jcond(c, again, end);
                lemma_scope(translation::block(translation::emit(g4, test), again), body@);
            }
        }
    }
}

/// A loop with a condition, or without end.
proof fn lemma_for(g: G, s: Statement)
    requires
        scopes::counted(g),
        stmt_plain(s),
    ensures
        translation::for_stmt(g, s) matches Some(h) ==> scopes::counted(h),
    decreases s, 0int,
{
    broadcast use group_steps;

    reveal(translation::for_stmt);
    reveal(translation::expr);
    reveal(translation::scope);
    if let Statement::For(cond, body, _) = s {
        let n = g.f.if_index;
        let again = translation::label("loop-"@, n);
        let end = translation::label("end-"@, n);
        let eval = translation::label("eval-"@, n);
        if let Some(g1) = translation::next_if(g) {
            match cond {
                Some(cond) => {
                    let g2 = translation::enter_loop(g1, end, eval);
                    let g3 = translation::block(translation::emit(g2, Inst::Jump(eval)), eval);
                    lemma_expr(g3, cond, true);
                    if let Some((g4, c)) = translation::expr(g3, cond, true) {
                        let test = Inst::Jcond(c, again, end);
                        lemma_scope(translation::block(translation::emit(g4, test), again), body@);
                    }
                },
                None => {
                    let g2 = translation::enter_loop(g1, end, again);
                    let g3 = translation::block(translation::emit(g2, Inst::Jump(again)), again);
                    lemma_scope(g3, body@);
                },
            }
        }
    }
}

// ---------------------------------------------------------------------------
// Functions

/// Whether no argument ends with a dot and a number.
pub open spec fn args_plain(args: Seq<TypedIdentifier>) -> bool {
    forall|i: int| 0 <= i < args.len() ==> !scopes::is_numbered((#[trigger] args[i]).1@)
}

/// Copying the arguments into variables keeps that numbers are counted.
proof fn lemma_spill(g: G, k: int)
    requires
        scopes::counted(g),
        forall|i: int|
            0 <= i < g.f.arguments.len() ==> !scopes::is_numbered((#[trigger] g.f.arguments[i]).0),
    ensures
        translation::spill(g.f, k) matches Some(f) ==> scopes::counted(G { f, ..g }),
    decreases g.f.arguments.len() - k,
{
    broadcast use group_steps;

    reveal(translation::spill);
    if 0 <= k < g.f.arguments.len() {
        let name = g.f.arguments[k].0;
        let t = g.f.arguments[k].1;
        if let Some((f, v)) = ir::defining(g.f, Inst::LoadArg(k as usize, g.f.registers, t)) {
            let h = G { f: ir::appended(f, Inst::Store(name, v, t)), ..g };
            assert(h.f.arguments == g.f.arguments) by {
                reveal(ir::defining);
                reveal(ir::appended);
            }
            lemma_put(h, name, t);
            lemma_spill(translation::slot(h, name, t), k + 1);
        }
    }
}

/// In a function of whose arguments and variables none ends with a dot and a number,
/// numbers are counted: where its body starts, behind each of its statements, and so
/// in the function that is generated. Each variable that it declares has then got a
/// name of its own.
pub proof fn lemma_define(
    cg: Cg,
    name: Seq<char>,
    args: Seq<TypedIdentifier>,
    result: AzulaType,
    body: Statement,
)
    requires
        args_plain(args),
        body matches Statement::Block(ss) ==> stmts_plain(ss@),
    ensures
        translation::spill(
            translation::blank(translation::arguments_of(args), types::ty_of(result)),
            0,
        ) matches Some(f) ==> scopes::counted(G { cg, f }),
        translation::define(cg, name, args, result, body) matches Some(after) ==> {
            &&& assoc::get(after.module.functions, name) matches Some(f)
            &&& scopes::numbered_to(f.variables, after.var_counter)
        },
{
    reveal(translation::define);
    let blank = translation::blank(translation::arguments_of(args), types::ty_of(result));
    let start = G { cg, f: blank };
    assert(scopes::counted(start)) by {
        reveal(scopes::numbered_to);
        reveal(assoc::defined);
    }
    lemma_spill(start, 0);
    if let Some(f) = translation::spill(blank, 0) {
        let inside = G {
            cg: Cg { scopes: seq![Seq::empty()], declared: Seq::empty(), ..cg },
            f,
        };
        let ss = match body {
            Statement::Block(ss) => ss@,
            _ => Seq::empty(),
        };
        lemma_stmts(inside, ss, 0);
        if let Some(g) = translation::stmts(inside, ss, 0) {
            assoc::lemma_put_get(g.cg.module.functions, name, g.f, name);
        }
    }
}

} // verus!
