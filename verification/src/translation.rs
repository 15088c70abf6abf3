//! What code generation computes: the translation of syntax trees to the
//! intermediate representation, as functions on models.
//!
//! A translation takes the state of the generator and of the function that is
//! being built, and gives the state afterwards. It gives `None` for a tree that
//! has no translation: one that names an unknown variable, struct or variant,
//! that breaks out of a loop where there is none, that holds a construct which
//! earlier passes remove, or that needs more registers or labels than a `usize`
//! counts.

use std::rc::Rc;
use vstd::prelude::*;
use crate::assoc;
use crate::ast::{
    Expression, ExpressionNode, MatchPattern, Operator, Statement, TypedIdentifier,
};
use crate::ir;
use crate::ir::{Extern, Fun, GlobalValue, Inst, Mod, StructDef, Value};
use crate::text;
use crate::types;
use crate::types::{AzulaType, Ty};

verus! {

/// The state of the generator.
pub struct Cg {
    pub module: Mod,
    pub function_calls: Seq<(Seq<char>, Seq<Ty>)>,
    /// Where `break` goes, for each enclosing loop
    pub loop_ends: Seq<Seq<char>>,
    /// Where `continue` goes, for each enclosing loop
    pub loop_continues: Seq<Seq<char>>,
    /// The variables that each enclosing scope declares, with their unique names
    pub scopes: Seq<Seq<(Seq<char>, Seq<char>)>>,
    /// The unique names of the variables that declarations have made
    pub declared: Seq<Seq<char>>,
    pub var_counter: usize,
    /// The argument types of every function and method
    pub signatures: Seq<(Seq<char>, Seq<Ty>)>,
}

/// The state of the generator and of the function that it builds.
pub struct G {
    pub cg: Cg,
    pub f: Fun,
}

/// The state of a generator that has not generated anything, for the module
/// `name`.
pub open spec fn fresh(name: Seq<char>) -> Cg {
    Cg {
        module: Mod {
            name,
            functions: Seq::empty(),
            extern_functions: Seq::empty(),
            strings: Seq::empty(),
            global_values: Seq::empty(),
            structs: Seq::empty(),
            enums: Seq::empty(),
            boxed_enums: Seq::empty(),
        },
        function_calls: Seq::empty(),
        loop_ends: Seq::empty(),
        loop_continues: Seq::empty(),
        scopes: seq![Seq::<(Seq<char>, Seq<char>)>::empty()],
        declared: Seq::empty(),
        var_counter: 0,
        signatures: Seq::empty(),
    }
}

// ---------------------------------------------------------------------------
// Steps

/// Add an instruction without a destination.
pub open spec fn emit(g: G, i: Inst) -> G {
    G { f: ir::appended(g.f, i), ..g }
}

/// Add an instruction whose destination is the next register.
pub open spec fn def(g: G, i: Inst) -> Option<(G, Value)> {
    match ir::defining(g.f, i) {
        Some((f, v)) => Some((G { f, ..g }, v)),
        None => None,
    }
}

/// Load the integer `v` into a register.
pub open spec fn int_const(g: G, v: i64) -> Option<(G, Value)> {
    def(g, Inst::ConstInt(v, g.f.registers))
}

/// Call the function `name`.
pub open spec fn call(g: G, name: Seq<char>, args: Seq<Value>) -> Option<(G, Value)> {
    def(g, Inst::FunctionCall(name, args, g.f.registers))
}

/// Load the member `index` of a struct, or its address.
pub open spec fn member(g: G, value: Value, index: int, resolve: bool, name: Seq<char>) -> Option<
    (G, Value),
> {
    def(g, Inst::AccessStructMember(value, index as usize, g.f.registers, resolve, name))
}

/// Start a new block.
pub open spec fn block(g: G, name: Seq<char>) -> G {
    G { f: ir::opened(g.f, name), ..g }
}

/// Go to `target`, unless the current block has ended.
#[verifier::opaque]
pub open spec fn fall_to(g: G, target: Seq<char>) -> G {
    if ir::current_terminated(g.f) {
        g
    } else {
        emit(g, Inst::Jump(target))
    }
}

/// Declare a variable of the function under its own name.
pub open spec fn slot(g: G, name: Seq<char>, t: Ty) -> G {
    G { f: Fun { variables: assoc::put(g.f.variables, name, t), ..g.f }, ..g }
}

/// Count one more conditional or loop.
pub open spec fn next_if(g: G) -> Option<G> {
    if g.f.if_index < usize::MAX {
        Some(G { f: Fun { if_index: (g.f.if_index + 1) as usize, ..g.f }, ..g })
    } else {
        None
    }
}

/// Count one more match.
pub open spec fn next_match(g: G) -> Option<G> {
    if g.f.match_index < usize::MAX {
        Some(G { f: Fun { match_index: (g.f.match_index + 1) as usize, ..g.f }, ..g })
    } else {
        None
    }
}

/// Enter a scope.
#[verifier::opaque]
pub open spec fn enter(g: G) -> G {
    G { cg: Cg { scopes: g.cg.scopes.push(Seq::empty()), ..g.cg }, ..g }
}

/// Leave the innermost scope.
#[verifier::opaque]
pub open spec fn leave(g: G) -> G {
    if g.cg.scopes.len() > 0 {
        G { cg: Cg { scopes: g.cg.scopes.drop_last(), ..g.cg }, ..g }
    } else {
        g
    }
}

/// Enter a loop.
#[verifier::opaque]
pub open spec fn enter_loop(g: G, end: Seq<char>, again: Seq<char>) -> G {
    G {
        cg: Cg {
            loop_ends: g.cg.loop_ends.push(end),
            loop_continues: g.cg.loop_continues.push(again),
            ..g.cg
        },
        ..g
    }
}

/// Leave the innermost loop.
#[verifier::opaque]
pub open spec fn leave_loop(g: G) -> G {
    G {
        cg: Cg {
            loop_ends: if g.cg.loop_ends.len() > 0 {
                g.cg.loop_ends.drop_last()
            } else {
                g.cg.loop_ends
            },
            loop_continues: if g.cg.loop_continues.len() > 0 {
                g.cg.loop_continues.drop_last()
            } else {
                g.cg.loop_continues
            },
            ..g.cg
        },
        ..g
    }
}

/// The label made of `prefix` and the number `n`.
pub open spec fn label(prefix: Seq<char>, n: usize) -> Seq<char> {
    prefix + text::digits(n as nat)
}

/// The label made of `prefix` and the numbers `n` and `i`.
pub open spec fn label2(prefix: Seq<char>, n: usize, i: usize) -> Seq<char> {
    label(label(prefix, n) + "-"@, i)
}

// ---------------------------------------------------------------------------
// Names

/// The name that an identifier is.
#[verifier::opaque]
pub open spec fn ident(e: ExpressionNode) -> Option<Seq<char>> {
    match e.expression {
        Expression::Identifier(n) => Some(n@),
        _ => None,
    }
}

/// The struct that a value of the type, or a pointer to one, belongs to.
#[verifier::opaque]
pub open spec fn struct_name(t: Ty) -> Option<Seq<char>> {
    match t {
        Ty::Named(n) => Some(n),
        Ty::Pointer(p) => match *p {
            Ty::Named(n) => Some(n),
            _ => None,
        },
        _ => None,
    }
}

/// What indexing a value of the type gives.
#[verifier::opaque]
pub open spec fn element(t: Ty) -> Option<Ty> {
    match t {
        Ty::Array(inner, _) => Some(*inner),
        Ty::Str => Some(Ty::SizedSignedInt(8)),
        Ty::Pointer(inner) => Some(*inner),
        _ => None,
    }
}

/// The first position from `k` on at which `name` stands.
#[verifier::opaque]
pub open spec fn spot(names: Seq<Seq<char>>, name: Seq<char>, k: int) -> Option<int>
    decreases names.len() - k,
{
    if k < 0 || k >= names.len() {
        None
    } else if names[k] == name {
        Some(k)
    } else {
        spot(names, name, k + 1)
    }
}

/// The number of a member of a struct.
#[verifier::opaque]
pub open spec fn member_index(m: Mod, owner: Seq<char>, name: Seq<char>) -> Option<int> {
    match assoc::get(m.structs, owner) {
        Some(s) => spot(Seq::new(s.attributes.len(), |i: int| s.attributes[i].1), name, 0),
        None => None,
    }
}

/// The type of member `index` of a struct.
#[verifier::opaque]
pub open spec fn member_type(m: Mod, owner: Seq<char>, index: int) -> Option<Ty> {
    match assoc::get(m.structs, owner) {
        Some(s) => if 0 <= index < s.attributes.len() {
            Some(s.attributes[index].0)
        } else {
            None
        },
        None => None,
    }
}

/// The number of a variant of an enum.
#[verifier::opaque]
pub open spec fn variant_index(m: Mod, owner: Seq<char>, variant: Seq<char>) -> Option<int> {
    match assoc::get(m.enums, owner) {
        Some(variants) => spot(variants, variant, 0),
        None => None,
    }
}

/// The unique name of a variable that is visible in the scopes `0..k`.
#[verifier::opaque]
pub open spec fn scoped(scopes: Seq<Seq<(Seq<char>, Seq<char>)>>, name: Seq<char>, k: int) -> Option<
    Seq<char>,
>
    decreases k,
{
    if k <= 0 || k > scopes.len() {
        None
    } else {
        match assoc::get(scopes[k - 1], name) {
            Some(unique) => Some(unique),
            None => scoped(scopes, name, k - 1),
        }
    }
}

/// The unique name of a visible variable. The innermost scope that declares it
/// decides; arguments and temporaries belong to no scope. A variable that was declared
/// in a scope that has ended is not visible.
#[verifier::opaque]
pub open spec fn lookup(g: G, name: Seq<char>) -> Option<Seq<char>> {
    match scoped(g.cg.scopes, name, g.cg.scopes.len() as int) {
        Some(unique) => Some(unique),
        None => if assoc::defined(g.f.variables, name) && !g.cg.declared.contains(name) {
            Some(name)
        } else {
            None
        },
    }
}

/// Declare a variable in the innermost scope: under its own name, or with a number
/// behind it if the function has a variable of that name already.
#[verifier::opaque]
pub open spec fn declare(g: G, name: Seq<char>, t: Ty) -> Option<(G, Seq<char>)> {
    if g.cg.scopes.len() == 0 {
        None
    } else if assoc::defined(g.f.variables, name) {
        if g.cg.var_counter < usize::MAX {
            let n = (g.cg.var_counter + 1) as usize;
            Some(
                declared(
                    G { cg: Cg { var_counter: n, ..g.cg }, ..g },
                    name,
                    text::dotted(name, text::digits(n as nat)),
                    t,
                ),
            )
        } else {
            None
        }
    } else {
        Some(declared(g, name, name, t))
    }
}

/// Declare a variable in the innermost scope, under the name `unique`.
pub open spec fn declared(g: G, name: Seq<char>, unique: Seq<char>, t: Ty) -> (G, Seq<char>) {
    let top = g.cg.scopes.len() - 1;
    (
        G {
            cg: Cg {
                scopes: g.cg.scopes.update(top, assoc::put(g.cg.scopes[top], name, unique)),
                declared: if assoc::defined(g.f.variables, unique) {
                    g.cg.declared
                } else {
                    g.cg.declared.push(unique)
                },
                ..g.cg
            },
            f: Fun { variables: assoc::put(g.f.variables, unique, t), ..g.f },
        },
        unique,
    )
}

/// The function that an expression in the place of a callee names.
#[verifier::opaque]
pub open spec fn resolve(function: ExpressionNode) -> Option<Seq<char>> {
    match function.expression {
        Expression::Identifier(n) => Some(n@),
        Expression::NamespaceAccess(ns, member) => match (ident(*ns), ident(*member)) {
            (Some(ns), Some(member)) => Some(text::dotted(ns, member)),
            _ => None,
        },
        Expression::StructAccess(left, right) => match ident(*right) {
            Some(method) => Some(
                text::dotted(types::name_of(types::ty_of(left.typed)), method),
            ),
            None => None,
        },
        _ => None,
    }
}

/// The enum and the variant, when `function` names a variant of an enum with
/// payloads.
#[verifier::opaque]
pub open spec fn boxed_variant(m: Mod, function: ExpressionNode) -> Option<(Seq<char>, Seq<char>)> {
    match function.expression {
        Expression::NamespaceAccess(ns, variant) => match (ident(*ns), ident(*variant)) {
            (Some(ns), Some(variant)) => if assoc::defined(m.boxed_enums, ns) && variant_index(
                m,
                ns,
                variant,
            ) is Some {
                Some((ns, variant))
            } else {
                None
            },
            _ => None,
        },
        _ => None,
    }
}

/// How a method gets its receiver.
pub enum Receiver {
    /// By its address
    Address,
    /// By the value that it points to
    Load,
    /// As it is
    Value,
}

/// How the method `name`, called on a receiver of type `t`, gets it: a method
/// that takes a pointer gets the address of a value, and one that takes a value
/// gets what a pointer points to.
#[verifier::opaque]
pub open spec fn receiver(signatures: Seq<(Seq<char>, Seq<Ty>)>, t: Ty, name: Seq<char>) -> Receiver {
    let takes_pointer = match assoc::get(signatures, name) {
        Some(args) => args.len() > 0 && args[0] is Pointer,
        None => false,
    };
    if takes_pointer && !(t is Pointer) {
        Receiver::Address
    } else if !takes_pointer && t is Pointer {
        Receiver::Load
    } else {
        Receiver::Value
    }
}

// ---------------------------------------------------------------------------
// Sizes

/// The number of bytes of a value of type `t`: eight, or for a struct the sum of
/// its members. There is no size when it takes structs nested more than `depth`
/// deep (so when a struct contains itself), or exceeds a `usize`.
#[verifier::opaque]
pub open spec fn byte_size(structs: Seq<(Seq<char>, StructDef)>, t: Ty, depth: nat) -> Option<nat>
    decreases depth, 0int,
{
    match t {
        Ty::Named(n) => match assoc::get(structs, n) {
            Some(s) => if depth > 0 {
                members_size(structs, s.attributes, 0, (depth - 1) as nat)
            } else {
                None
            },
            None => Some(8),
        },
        _ => Some(8),
    }
}

/// The number of bytes of the members from position `k` on.
#[verifier::opaque]
pub open spec fn members_size(
    structs: Seq<(Seq<char>, StructDef)>,
    members: Seq<(Ty, Seq<char>)>,
    k: int,
    depth: nat,
) -> Option<nat>
    decreases depth, 1 + members.len() - k,
{
    if k < 0 || k >= members.len() {
        Some(0)
    } else {
        match byte_size(structs, members[k].0, depth) {
            None => None,
            Some(size) => match members_size(structs, members, k + 1, depth) {
                None => None,
                Some(rest) => if size + rest <= usize::MAX {
                    Some(size + rest)
                } else {
                    None
                },
            },
        }
    }
}

/// The number of bytes that `new` allocates for a struct with `n` members given.
#[verifier::opaque]
pub open spec fn alloc_size(m: Mod, name: Seq<char>, n: nat) -> Option<nat> {
    match assoc::get(m.structs, name) {
        Some(s) => members_size(m.structs, s.attributes, 0, m.structs.len()),
        None => if n * 8 <= usize::MAX {
            Some(n * 8)
        } else {
            None
        },
    }
}

/// The bytes of `n` cells and one more.
#[verifier::opaque]
pub open spec fn cells(n: i64) -> Option<i64> {
    if n < i64::MAX && i64::MIN <= 8 * (n + 1) <= i64::MAX {
        Some((8 * (n + 1)) as i64)
    } else {
        None
    }
}

// ---------------------------------------------------------------------------
// Operators

/// The instruction that applies `op`. The two that short-circuit have none.
#[verifier::opaque]
pub open spec fn infix_inst(op: Operator, a: Value, b: Value, d: usize) -> Option<Inst> {
    match op {
        Operator::Add => Some(Inst::Add(a, b, d)),
        Operator::Sub => Some(Inst::Sub(a, b, d)),
        Operator::Mul => Some(Inst::Mul(a, b, d)),
        Operator::Div => Some(Inst::Div(a, b, d)),
        Operator::Mod => Some(Inst::Mod(a, b, d)),
        Operator::Power => Some(Inst::Pow(a, b, d)),
        Operator::Or => None,
        Operator::And => None,
        Operator::Eq => Some(Inst::Eq(a, b, d)),
        Operator::Neq => Some(Inst::Neq(a, b, d)),
        Operator::Lt => Some(Inst::Lt(a, b, d)),
        Operator::Lte => Some(Inst::Lte(a, b, d)),
        Operator::Gt => Some(Inst::Gt(a, b, d)),
        Operator::Gte => Some(Inst::Gte(a, b, d)),
        Operator::BitAnd => Some(Inst::BitAnd(a, b, d)),
        Operator::BitOr => Some(Inst::BitOr(a, b, d)),
        Operator::BitXor => Some(Inst::BitXor(a, b, d)),
        Operator::Shl => Some(Inst::Shl(a, b, d)),
        Operator::Shr => Some(Inst::Shr(a, b, d)),
    }
}

/// The operators that can stand before `=` in an assignment.
#[verifier::opaque]
pub open spec fn compounds(op: Operator) -> bool {
    match op {
        Operator::Add | Operator::Sub | Operator::Mul | Operator::Div | Operator::Mod => true,
        Operator::BitAnd | Operator::BitOr | Operator::BitXor => true,
        Operator::Shl | Operator::Shr => true,
        _ => false,
    }
}

// ---------------------------------------------------------------------------
// Values with several members

/// Store `values` from position `k` on into the members of a struct, from member
/// `first` on.
#[verifier::opaque]
pub open spec fn store_members(
    g: G,
    object: Value,
    values: Seq<Value>,
    first: int,
    name: Seq<char>,
    k: int,
) -> G
    decreases values.len() - k,
{
    if k < 0 || k >= values.len() {
        g
    } else {
        store_members(
            emit(g, Inst::StoreStructMember(object, (first + k) as usize, values[k], name)),
            object,
            values,
            first,
            name,
            k + 1,
        )
    }
}

/// Allocate a value of an enum with payloads, and store the tag of `variant` and
/// the payload in it.
#[verifier::opaque]
pub open spec fn construct(g: G, owner: Seq<char>, variant: Seq<char>, values: Seq<Value>) -> Option<
    (G, Value),
> {
    let name = text::dotted(owner, variant);
    match def(g, Inst::SizeOf(Ty::Named(name), g.f.registers)) {
        None => None,
        Some((g, size)) => match call(g, "malloc"@, seq![size]) {
            None => None,
            Some((g, object)) => match variant_index(g.cg.module, owner, variant) {
                None => None,
                Some(index) => match int_const(g, index as i64) {
                    None => None,
                    Some((g, tag)) => Some(
                        (
                            store_members(
                                emit(g, Inst::StoreStructMember(object, 0, tag, name)),
                                object,
                                values,
                                1,
                                name,
                                0,
                            ),
                            object,
                        ),
                    ),
                },
            },
        },
    }
}

/// A variable, a global or `nil` used as a value.
#[verifier::opaque]
pub open spec fn read_name(g: G, name: Seq<char>, t: Ty) -> Option<(G, Value)> {
    match lookup(g, name) {
        Some(unique) => def(g, Inst::Load(unique, g.f.registers, t)),
        None => match assoc::get(g.cg.module.global_values, name) {
            Some(GlobalValue::String(n)) => Some((g, Value::Global(n))),
            Some(_) => def(g, Inst::LoadGlobal(name, g.f.registers, t)),
            None => if name == "nil"@ {
                def(g, Inst::ConstNull(g.f.registers))
            } else {
                None
            },
        },
    }
}

// ---------------------------------------------------------------------------
// Patterns

/// Branch to `fail` unless the tuple `value` (of struct `tuple`) matches the
/// patterns from position `k` on. The blocks that are passed through are numbered
/// by `tests`.
#[verifier::opaque]
pub open spec fn tuple_test(
    g: G,
    items: Seq<MatchPattern>,
    k: int,
    value: Value,
    tuple: Seq<char>,
    prefix: Seq<char>,
    tests: usize,
    fail: Seq<char>,
) -> Option<(G, usize)>
    decreases items, items.len() - k,
{
    if k < 0 || k >= items.len() {
        Some((g, tests))
    } else {
        match items[k] {
            MatchPattern::Wildcard | MatchPattern::Binding(_) => tuple_test(
                g,
                items,
                k + 1,
                value,
                tuple,
                prefix,
                tests,
                fail,
            ),
            MatchPattern::Tuple(inner) => match member(g, value, k, true, tuple) {
                None => None,
                Some((g, item)) => match member_type(g.cg.module, tuple, k) {
                    None => None,
                    Some(t) => match tuple_test(
                        g,
                        inner@,
                        0,
                        item,
                        types::name_of(t),
                        prefix,
                        tests,
                        fail,
                    ) {
                        None => None,
                        Some((g, tests)) => tuple_test(
                            g,
                            items,
                            k + 1,
                            value,
                            tuple,
                            prefix,
                            tests,
                            fail,
                        ),
                    },
                },
            },
            MatchPattern::Integer(expected) => match member(g, value, k, true, tuple) {
                None => None,
                Some((g, item)) => match item_test(g, item, expected, prefix, tests, fail) {
                    None => None,
                    Some((g, tests)) => tuple_test(
                        g,
                        items,
                        k + 1,
                        value,
                        tuple,
                        prefix,
                        tests,
                        fail,
                    ),
                },
            },
            MatchPattern::Variant(owner, variant) => match member(g, value, k, true, tuple) {
                None => None,
                Some((g, item)) => match variant_tag(g, item, owner@) {
                    None => None,
                    Some((g, tag)) => match variant_index(g.cg.module, owner@, variant@) {
                        None => None,
                        Some(index) => match item_test(g, tag, index as i64, prefix, tests, fail) {
                            None => None,
                            Some((g, tests)) => tuple_test(
                                g,
                                items,
                                k + 1,
                                value,
                                tuple,
                                prefix,
                                tests,
                                fail,
                            ),
                        },
                    },
                },
            },
            _ => None,
        }
    }
}

/// The tag of a value of the enum `owner`: enums with payloads keep it in their
/// cell, others are their tag.
#[verifier::opaque]
pub open spec fn variant_tag(g: G, value: Value, owner: Seq<char>) -> Option<(G, Value)> {
    if assoc::defined(g.cg.module.boxed_enums, owner) {
        member(g, value, 0, true, owner + ".__tag"@)
    } else {
        Some((g, value))
    }
}

/// Go on in a new block if `item` equals `expected`, or else to `fail`.
#[verifier::opaque]
pub open spec fn item_test(
    g: G,
    item: Value,
    expected: i64,
    prefix: Seq<char>,
    tests: usize,
    fail: Seq<char>,
) -> Option<(G, usize)> {
    match int_const(g, expected) {
        None => None,
        Some((g, expected)) => match def(g, Inst::Eq(item, expected, g.f.registers)) {
            None => None,
            Some((g, cond)) => if tests < usize::MAX {
                let pass = label(prefix + "-"@, tests);
                Some((block(emit(g, Inst::Jcond(cond, pass, fail)), pass), (tests + 1) as usize))
            } else {
                None
            },
        },
    }
}

/// Declare a variable for member `index` of `value`, and store the member in it.
#[verifier::opaque]
pub open spec fn bind_member(
    g: G,
    value: Value,
    index: int,
    owner: Seq<char>,
    name: Seq<char>,
) -> Option<G> {
    match member_type(g.cg.module, owner, index) {
        None => None,
        Some(t) => match member(g, value, index, true, owner) {
            None => None,
            Some((g, item)) => match declare(g, name, t) {
                None => None,
                Some((g, unique)) => Some(emit(g, Inst::Store(unique, item, t))),
            },
        },
    }
}

/// Declare the variables that the patterns from position `k` on bind.
#[verifier::opaque]
pub open spec fn bind_tuple(
    g: G,
    items: Seq<MatchPattern>,
    k: int,
    value: Value,
    tuple: Seq<char>,
) -> Option<G>
    decreases items, items.len() - k,
{
    if k < 0 || k >= items.len() {
        Some(g)
    } else {
        match items[k] {
            MatchPattern::Binding(name) => match bind_member(g, value, k, tuple, name@) {
                None => None,
                Some(g) => bind_tuple(g, items, k + 1, value, tuple),
            },
            MatchPattern::Tuple(inner) => match member(g, value, k, true, tuple) {
                None => None,
                Some((g, item)) => match member_type(g.cg.module, tuple, k) {
                    None => None,
                    Some(t) => match bind_tuple(g, inner@, 0, item, types::name_of(t)) {
                        None => None,
                        Some(g) => bind_tuple(g, items, k + 1, value, tuple),
                    },
                },
            },
            _ => bind_tuple(g, items, k + 1, value, tuple),
        }
    }
}

/// Declare the variables that a variant's payload is bound to, from payload
/// field `k` on.
#[verifier::opaque]
pub open spec fn bind_payload(
    g: G,
    bindings: Seq<Option<&str>>,
    k: int,
    value: Value,
    owner: Seq<char>,
) -> Option<G>
    decreases bindings.len() - k,
{
    if k < 0 || k >= bindings.len() {
        Some(g)
    } else {
        match bindings[k] {
            Some(name) => match bind_member(g, value, k + 1, owner, name@) {
                None => None,
                Some(g) => bind_payload(g, bindings, k + 1, value, owner),
            },
            None => bind_payload(g, bindings, k + 1, value, owner),
        }
    }
}

/// What the arms of a match share.
pub struct Matching {
    /// The number of the match
    pub n: usize,
    /// The enum or tuple that the value belongs to
    pub owner: Seq<char>,
    pub value: Value,
    pub tag: Value,
    pub result: Ty,
    pub count: nat,
}

/// The label of the block that follows a match.
pub open spec fn match_end(m: Matching) -> Seq<char> {
    label("match-end-"@, m.n)
}

/// The expression that matches `scrutinee` against `arms`.
pub open spec fn match_node<'a>(
    scrutinee: Rc<ExpressionNode<'a>>,
    arms: Vec<(MatchPattern<'a>, ExpressionNode<'a>)>,
    result_type: AzulaType<'a>,
) -> ExpressionNode<'a> {
    ExpressionNode {
        expression: Expression::Match(scrutinee, arms),
        typed: result_type,
        span: scrutinee.span,
    }
}

/// The variable that holds the value of a match.
pub open spec fn match_result(m: Matching) -> Seq<char> {
    label("__match_"@, m.n)
}

/// The label of the block of arm `i`.
pub open spec fn match_arm(m: Matching, i: int) -> Seq<char> {
    label2("match-arm-"@, m.n, i as usize)
}

/// The label of the block that tests the arm after arm `i`.
pub open spec fn match_next(m: Matching, i: int) -> Seq<char> {
    if i + 1 < m.count {
        label2("match-next-"@, m.n, (i + 1) as usize)
    } else {
        match_end(m)
    }
}

/// Branch to the block of arm `i` if its pattern matches.
#[verifier::opaque]
pub open spec fn arm_test(g: G, m: Matching, pattern: MatchPattern, i: int) -> Option<G> {
    match pattern {
        MatchPattern::Wildcard => Some(emit(g, Inst::Jump(match_arm(m, i)))),
        MatchPattern::Tuple(items) => match tuple_test(
            g,
            items@,
            0,
            m.value,
            m.owner,
            label2("match-test-"@, m.n, i as usize),
            0,
            match_next(m, i),
        ) {
            None => None,
            Some((g, _)) => Some(emit(g, Inst::Jump(match_arm(m, i)))),
        },
        MatchPattern::Integer(expected) => tag_test(g, m, expected, i),
        MatchPattern::Variant(owner, variant) => match variant_index(
            g.cg.module,
            owner@,
            variant@,
        ) {
            None => None,
            Some(index) => tag_test(g, m, index as i64, i),
        },
        MatchPattern::Destructure(owner, variant, _) => match variant_index(
            g.cg.module,
            owner@,
            variant@,
        ) {
            None => None,
            Some(index) => tag_test(g, m, index as i64, i),
        },
        _ => None,
    }
}

/// Branch to the block of arm `i` if the tag equals `expected`.
#[verifier::opaque]
pub open spec fn tag_test(g: G, m: Matching, expected: i64, i: int) -> Option<G> {
    match int_const(g, expected) {
        None => None,
        Some((g, expected)) => match def(g, Inst::Eq(m.tag, expected, g.f.registers)) {
            None => None,
            Some((g, cond)) => Some(
                emit(g, Inst::Jcond(cond, match_arm(m, i), match_next(m, i))),
            ),
        },
    }
}

/// Declare the variables that the pattern of an arm binds.
#[verifier::opaque]
pub open spec fn arm_bind(g: G, m: Matching, pattern: MatchPattern) -> Option<G> {
    match pattern {
        MatchPattern::Tuple(items) => bind_tuple(g, items@, 0, m.value, m.owner),
        MatchPattern::Destructure(owner, variant, bindings) => bind_payload(
            g,
            bindings@,
            0,
            m.value,
            text::dotted(owner@, variant@),
        ),
        _ => Some(g),
    }
}

/// Keep the value of an arm and leave the match, unless the block has ended.
#[verifier::opaque]
pub open spec fn arm_end(g: G, m: Matching, value: Value) -> G {
    if ir::current_terminated(g.f) {
        g
    } else if m.result is Void {
        emit(g, Inst::Jump(match_end(m)))
    } else {
        emit(emit(g, Inst::Store(match_result(m), value, m.result)), Inst::Jump(match_end(m)))
    }
}

/// Start a match on `value`: find its tag, and make room for the result.
pub open spec fn match_start(
    g: G,
    n: usize,
    value: Value,
    typed: Ty,
    result: Ty,
    count: nat,
) -> Option<(G, Matching)> {
    let owner = match typed {
        Ty::Named(name) => name,
        _ => Seq::empty(),
    };
    match variant_tag(g, value, owner) {
        None => None,
        Some((g, tag)) => {
            let m = Matching { n, owner, value, tag, result, count };
            Some((if result is Void { g } else { slot(g, match_result(m), result) }, m))
        },
    }
}

/// Go on after a match, with its value.
pub open spec fn match_finish(g: G, m: Matching) -> Option<(G, Value)> {
    let g = block(g, match_end(m));
    if m.result is Void {
        Some((g, Value::LiteralInteger(0)))
    } else {
        def(g, Inst::Load(match_result(m), g.f.registers, m.result))
    }
}

// ---------------------------------------------------------------------------
// Expressions

/// The value of an expression. A call of a function that never comes back is
/// followed by the end of the block.
#[verifier::opaque]
pub open spec fn expr(g: G, e: ExpressionNode, resolve_pointer: bool) -> Option<(G, Value)>
    decreases e, 2int,
{
    match inner(g, e, resolve_pointer) {
        None => None,
        Some((g, v)) => if types::ty_of(e.typed) is Never && e.expression is FunctionCall {
            Some((emit(g, Inst::Unreachable), v))
        } else {
            Some((g, v))
        },
    }
}

/// The values of the expressions from position `k` on, after `values`.
#[verifier::opaque]
pub open spec fn exprs(g: G, es: Seq<ExpressionNode>, k: int, values: Seq<Value>) -> Option<
    (G, Seq<Value>),
>
    decreases es, es.len() - k,
{
    if k < 0 || k >= es.len() {
        Some((g, values))
    } else {
        match expr(g, es[k], true) {
            None => None,
            Some((g, v)) => exprs(g, es, k + 1, values.push(v)),
        }
    }
}

/// The values of the named expressions from position `k` on, after `values`.
#[verifier::opaque]
pub open spec fn fields(
    g: G,
    es: Seq<(&str, ExpressionNode)>,
    k: int,
    values: Seq<Value>,
) -> Option<(G, Seq<Value>)>
    decreases es, es.len() - k,
{
    if k < 0 || k >= es.len() {
        Some((g, values))
    } else {
        match expr(g, es[k].1, true) {
            None => None,
            Some((g, v)) => fields(g, es, k + 1, values.push(v)),
        }
    }
}

/// The value of an expression, by what it is.
#[verifier::opaque]
pub open spec fn inner(g: G, e: ExpressionNode, resolve_pointer: bool) -> Option<(G, Value)>
    decreases e, 1int,
{
    match e.expression {
        Expression::Infix(..) => infix(g, e),
        Expression::Integer(v) => int_const(g, v),
        Expression::Float(v) => def(g, Inst::ConstFloat(v, g.f.registers)),
        Expression::Identifier(name) => name_use(
            g,
            name@,
            types::ty_of(e.typed),
            resolve_pointer,
        ),
        Expression::String(s) => Some(
            (with_string(g, s@), Value::Global(g.cg.module.strings.len() as usize)),
        ),
        Expression::Boolean(b) => if b {
            def(g, Inst::ConstTrue(g.f.registers))
        } else {
            def(g, Inst::ConstFalse(g.f.registers))
        },
        Expression::FunctionCall { .. } => function_call(g, e),
        Expression::Not(..) => unary(g, e),
        Expression::BitNot(..) => unary(g, e),
        Expression::SizeOf(t) => def(g, Inst::SizeOf(types::ty_of(t), g.f.registers)),
        Expression::Negate(..) => unary(g, e),
        Expression::Pointer(operand) => address(g, *operand),
        Expression::MakeClosure(..) => make_closure(g, e),
        Expression::NewCell(..) => new_cell(g, e),
        Expression::EnvCell(n) => env_cell(g, n),
        Expression::CallClosure(..) => call_closure(g, e),
        Expression::Deref(..) => unary(g, e),
        Expression::Array(..) => array(g, e),
        Expression::ArrayAccess(..) => array_access(g, e),
        Expression::StructInitialisation(..) => struct_value(g, e),
        Expression::StructAccess(..) => struct_access(g, e, resolve_pointer),
        Expression::NamespaceAccess(ns, variant) => variant_value(g, *ns, *variant),
        Expression::Match(..) => match_expr(g, e),
        Expression::Cast(..) => unary(g, e),
        Expression::Null => def(g, Inst::ConstNull(g.f.registers)),
        Expression::Block(..) => block_value(g, e, resolve_pointer),
        Expression::Alloc(..) => heap_value(g, e),
        _ => None,
    }
}

/// The state with one more string constant.
pub open spec fn with_string(g: G, s: Seq<char>) -> G {
    G {
        cg: Cg {
            module: Mod { strings: g.cg.module.strings.push(s), ..g.cg.module },
            ..g.cg
        },
        ..g
    }
}

/// A name used as a value, or for its address.
#[verifier::opaque]
pub open spec fn name_use(g: G, name: Seq<char>, t: Ty, resolve_pointer: bool) -> Option<
    (G, Value),
> {
    if resolve_pointer {
        read_name(g, name, t)
    } else {
        match lookup(g, name) {
            Some(unique) => def(g, Inst::Pointer(unique, g.f.registers)),
            None => None,
        }
    }
}

/// An operation on one operand.
#[verifier::opaque]
pub open spec fn unary(g: G, e: ExpressionNode) -> Option<(G, Value)>
    decreases e, 0int,
{
    match e.expression {
        Expression::Not(operand) => match expr(g, *operand, true) {
            None => None,
            Some((g, v)) => def(g, Inst::Not(v, g.f.registers)),
        },
        Expression::BitNot(operand) => match expr(g, *operand, true) {
            None => None,
            Some((g, v)) => def(g, Inst::Not(v, g.f.registers)),
        },
        Expression::Negate(operand) => match if types::ty_of(operand.typed) is Float {
            def(g, Inst::ConstFloat(0, g.f.registers))
        } else {
            int_const(g, 0)
        } {
            None => None,
            Some((g, zero)) => match expr(g, *operand, true) {
                None => None,
                Some((g, v)) => def(g, Inst::Sub(zero, v, g.f.registers)),
            },
        },
        Expression::Deref(pointer) => match expr(g, *pointer, true) {
            None => None,
            Some((g, p)) => match int_const(g, 0) {
                None => None,
                Some((g, zero)) => def(
                    g,
                    Inst::AccessElement(p, zero, g.f.registers, types::ty_of(e.typed)),
                ),
            },
        },
        Expression::Cast(operand, t) => match expr(g, *operand, true) {
            None => None,
            Some((g, v)) => def(g, Inst::Cast(v, types::ty_of(t), g.f.registers)),
        },
        _ => None,
    }
}

/// A new heap cell that holds a value.
#[verifier::opaque]
pub open spec fn new_cell(g: G, e: ExpressionNode) -> Option<(G, Value)>
    decreases e, 0int,
{
    match e.expression {
        Expression::NewCell(value) => match byte_size(
            g.cg.module.structs,
            types::ty_of(value.typed),
            g.cg.module.structs.len(),
        ) {
            None => None,
            Some(size) => match int_const(g, (if size > 8 { size } else { 8 }) as usize as i64) {
                None => None,
                Some((g, size)) => match expr(g, *value, true) {
                    None => None,
                    Some((g, v)) => match call(g, "malloc"@, seq![size]) {
                        None => None,
                        Some((g, cell)) => match int_const(g, 0) {
                            None => None,
                            Some((g, zero)) => Some(
                                (
                                    emit(
                                        g,
                                        Inst::StoreElement(
                                            cell,
                                            zero,
                                            v,
                                            types::ty_of(value.typed),
                                        ),
                                    ),
                                    cell,
                                ),
                            ),
                        },
                    },
                },
            },
        },
        _ => None,
    }
}

/// Cell `n` of the environment of the closure that is being run.
#[verifier::opaque]
pub open spec fn env_cell(g: G, n: usize) -> Option<(G, Value)> {
    match lookup(g, "$env"@) {
        None => None,
        Some(unique) => match def(g, Inst::Load(unique, g.f.registers, Ty::Str)) {
            None => None,
            Some((g, env)) => match cells(n as i64) {
                None => None,
                Some(offset) => match int_const(g, offset) {
                    None => None,
                    Some((g, offset)) => match call(g, "ptr_add"@, seq![env, offset]) {
                        None => None,
                        Some((g, cell)) => call(g, "ptr_read_str"@, seq![cell]),
                    },
                },
            },
        },
    }
}

/// An array. Its elements have the type of the first one.
#[verifier::opaque]
pub open spec fn array(g: G, e: ExpressionNode) -> Option<(G, Value)>
    decreases e, 0int,
{
    match e.expression {
        Expression::Array(items) => if items@.len() == 0 {
            None
        } else {
            match def(
                g,
                Inst::CreateArray(
                    types::ty_of(items@[0].typed),
                    items@.len() as usize,
                    g.f.registers,
                ),
            ) {
                None => None,
                Some((g, array)) => elements(
                    g,
                    items@,
                    0,
                    array,
                    types::ty_of(items@[0].typed),
                ),
            }
        },
        _ => None,
    }
}

/// An element of an array, a string or behind a pointer.
#[verifier::opaque]
pub open spec fn array_access(g: G, e: ExpressionNode) -> Option<(G, Value)>
    decreases e, 0int,
{
    match e.expression {
        Expression::ArrayAccess(array, index) => match element(types::ty_of(array.typed)) {
            None => None,
            Some(t) => match expr(g, *array, true) {
                None => None,
                Some((g, array)) => match expr(g, *index, true) {
                    None => None,
                    Some((g, index)) => def(
                        g,
                        Inst::AccessElement(array, index, g.f.registers, t),
                    ),
                },
            },
        },
        _ => None,
    }
}

/// A struct, member by member.
#[verifier::opaque]
pub open spec fn struct_value(g: G, e: ExpressionNode) -> Option<(G, Value)>
    decreases e, 0int,
{
    match e.expression {
        Expression::StructInitialisation(struc, vals) => match fields(g, vals@, 0, Seq::empty()) {
            None => None,
            Some((g, values)) => match ident(*struc) {
                None => None,
                Some(name) => def(g, Inst::CreateStruct(name, values, g.f.registers)),
            },
        },
        _ => None,
    }
}

/// A member of a struct, or its address.
#[verifier::opaque]
pub open spec fn struct_access(g: G, e: ExpressionNode, resolve_pointer: bool) -> Option<(G, Value)>
    decreases e, 0int,
{
    match e.expression {
        Expression::StructAccess(struc, name) => match expr(g, *struc, true) {
            None => None,
            Some((g, value)) => match ident(*name) {
                None => None,
                Some(name) => match struct_name(types::ty_of(struc.typed)) {
                    None => None,
                    Some(owner) => match member_index(g.cg.module, owner, name) {
                        None => None,
                        Some(index) => member(g, value, index, resolve_pointer, owner),
                    },
                },
            },
        },
        _ => None,
    }
}

/// A variant of an enum used as a value: its number, or an allocated cell when
/// the enum has payloads.
#[verifier::opaque]
pub open spec fn variant_value(g: G, ns: ExpressionNode, variant: ExpressionNode) -> Option<
    (G, Value),
> {
    match ident(ns) {
        None => None,
        Some(owner) => match ident(variant) {
            None => None,
            Some(variant) => if assoc::defined(g.cg.module.boxed_enums, owner) {
                construct(g, owner, variant, Seq::empty())
            } else {
                match variant_index(g.cg.module, owner, variant) {
                    None => None,
                    Some(index) => int_const(g, index as i64),
                }
            },
        },
    }
}

/// A block used as a value: that of its last expression.
#[verifier::opaque]
pub open spec fn block_value(g: G, e: ExpressionNode, resolve_pointer: bool) -> Option<(G, Value)>
    decreases e, 0int,
{
    match e.expression {
        Expression::Block(body, last) => match stmts(enter(g), body@, 0) {
            None => None,
            Some(g) => match last {
                None => Some((leave(g), Value::LiteralInteger(0))),
                Some(last) => match expr(g, *last, resolve_pointer) {
                    None => None,
                    Some((g, v)) => Some((leave(g), v)),
                },
            },
        },
        _ => None,
    }
}

/// A struct on the heap. The values of its members are computed before it is
/// allocated.
#[verifier::opaque]
pub open spec fn heap_value(g: G, e: ExpressionNode) -> Option<(G, Value)>
    decreases e, 0int,
{
    match e.expression {
        Expression::Alloc(object) => match object.expression {
            Expression::StructInitialisation(struc, vals) => match ident(*struc) {
                None => None,
                Some(name) => match fields(g, vals@, 0, Seq::empty()) {
                    None => None,
                    Some((g, values)) => match alloc_size(g.cg.module, name, vals@.len()) {
                        None => None,
                        Some(size) => match int_const(g, size as usize as i64) {
                            None => None,
                            Some((g, size)) => match call(g, "malloc"@, seq![size]) {
                                None => None,
                                Some((g, object)) => Some(
                                    (store_members(g, object, values, 0, name, 0), object),
                                ),
                            },
                        },
                    },
                },
            },
            _ => None,
        },
        _ => None,
    }
}

/// Two operands joined by an operator. The right operand of `or` and `and` is
/// evaluated only if the left one does not decide.
#[verifier::opaque]
pub open spec fn infix(g: G, e: ExpressionNode) -> Option<(G, Value)>
    decreases e, 0int,
{
    match e.expression {
        Expression::Infix(left, op, right) => match op {
            Operator::Or | Operator::And => {
                let n = g.f.if_index;
                let or = op is Or;
                let result = label("__sc_"@, n);
                let rest = label("sc_rhs_"@, n);
                let end = label("sc_end_"@, n);
                match next_if(g) {
                    None => None,
                    Some(g) => {
                        let g = slot(g, result, Ty::Bool);
                        match if or {
                            def(g, Inst::ConstTrue(g.f.registers))
                        } else {
                            def(g, Inst::ConstFalse(g.f.registers))
                        } {
                            None => None,
                            Some((g, decided)) => match expr(
                                emit(g, Inst::Store(result, decided, Ty::Bool)),
                                *left,
                                true,
                            ) {
                                None => None,
                                Some((g, a)) => match expr(
                                    block(
                                        emit(
                                            g,
                                            if or {
                                                Inst::Jcond(a, end, rest)
                                            } else {
                                                Inst::Jcond(a, rest, end)
                                            },
                                        ),
                                        rest,
                                    ),
                                    *right,
                                    true,
                                ) {
                                    None => None,
                                    Some((g, b)) => {
                                        let g = emit(g, Inst::Store(result, b, Ty::Bool));
                                        let g = block(emit(g, Inst::Jump(end)), end);
                                        def(g, Inst::Load(result, g.f.registers, Ty::Bool))
                                    },
                                },
                            },
                        }
                    },
                }
            },
            _ => match expr(g, *left, true) {
                None => None,
                Some((g, a)) => match expr(g, *right, true) {
                    None => None,
                    Some((g, b)) => match infix_inst(op, a, b, g.f.registers) {
                        None => None,
                        Some(i) => def(g, i),
                    },
                },
            },
        },
        _ => None,
    }
}

/// A call: the construction of a variant with a payload, or a call of a function
/// or method, whose receiver comes before its arguments.
#[verifier::opaque]
pub open spec fn function_call(g: G, e: ExpressionNode) -> Option<(G, Value)>
    decreases e, 0int,
{
    match e.expression {
        Expression::FunctionCall { function, args } => match boxed_variant(
            g.cg.module,
            *function,
        ) {
            Some((owner, variant)) => match exprs(g, args@, 0, Seq::empty()) {
                None => None,
                Some((g, values)) => construct(g, owner, variant, values),
            },
            None => match resolve(*function) {
                None => None,
                Some(name) => match function.expression {
                    Expression::StructAccess(left, _) => {
                        let t = types::ty_of(left.typed);
                        match match receiver(g.cg.signatures, t, name) {
                            Receiver::Address => address(g, *left),
                            Receiver::Value => expr(g, *left, true),
                            Receiver::Load => match expr(g, *left, true) {
                                None => None,
                                Some((g, p)) => match int_const(g, 0) {
                                    None => None,
                                    Some((g, zero)) => match t {
                                        Ty::Pointer(pointee) => def(
                                            g,
                                            Inst::AccessElement(p, zero, g.f.registers, *pointee),
                                        ),
                                        _ => None,
                                    },
                                },
                            },
                        } {
                            None => None,
                            Some((g, object)) => match exprs(g, args@, 0, seq![object]) {
                                None => None,
                                Some((g, values)) => call(g, name, values),
                            },
                        }
                    },
                    _ => match exprs(g, args@, 0, Seq::empty()) {
                        None => None,
                        Some((g, values)) => call(g, name, values),
                    },
                },
            },
        },
        _ => None,
    }
}

/// A call of a function value: the code that its object starts with gets the
/// object as its first argument.
#[verifier::opaque]
pub open spec fn call_closure(g: G, e: ExpressionNode) -> Option<(G, Value)>
    decreases e, 0int,
{
    match e.expression {
        Expression::CallClosure(callee, args) => match types::ty_of(callee.typed) {
            Ty::Function(params, result) => match expr(g, *callee, true) {
                None => None,
                Some((g, object)) => match call(g, "ptr_read_str"@, seq![object]) {
                    None => None,
                    Some((g, code)) => match exprs(g, args@, 0, seq![object]) {
                        None => None,
                        Some((g, values)) => match def(
                            g,
                            Inst::IndirectCall(
                                code,
                                values,
                                seq![Ty::Str] + params,
                                *result,
                                g.f.registers,
                            ),
                        ) {
                            None => None,
                            Some((g, v)) => if *result is Never {
                                Some((emit(g, Inst::Unreachable), v))
                            } else {
                                Some((g, v))
                            },
                        },
                    },
                },
            },
            _ => None,
        },
        _ => None,
    }
}

/// A closure object: its code, then the cells that it captures.
#[verifier::opaque]
pub open spec fn make_closure(g: G, e: ExpressionNode) -> Option<(G, Value)>
    decreases e, 0int,
{
    match e.expression {
        Expression::MakeClosure(name, captures) => match cells(captures@.len() as usize as i64) {
            None => None,
            Some(size) => match int_const(g, size) {
                None => None,
                Some((g, size)) => match call(g, "malloc"@, seq![size]) {
                    None => None,
                    Some((g, object)) => match def(
                        g,
                        Inst::FunctionAddress(name@, g.f.registers),
                    ) {
                        None => None,
                        Some((g, code)) => match call(g, "ptr_write_str"@, seq![object, code]) {
                            None => None,
                            Some((g, _)) => match captured(g, captures@, 0, object) {
                                None => None,
                                Some(g) => Some((g, object)),
                            },
                        },
                    },
                },
            },
        },
        _ => None,
    }
}

/// Write the captured cells from position `k` on into a closure object.
#[verifier::opaque]
pub open spec fn captured(g: G, captures: Seq<ExpressionNode>, k: int, object: Value) -> Option<G>
    decreases captures, captures.len() - k,
{
    if k < 0 || k >= captures.len() {
        Some(g)
    } else {
        match expr(g, captures[k], true) {
            None => None,
            Some((g, cell)) => match cells(k as usize as i64) {
                None => None,
                Some(offset) => match int_const(g, offset) {
                    None => None,
                    Some((g, offset)) => match call(g, "ptr_add"@, seq![object, offset]) {
                        None => None,
                        Some((g, place)) => match call(g, "ptr_write_str"@, seq![place, cell]) {
                            None => None,
                            Some((g, _)) => captured(g, captures, k + 1, object),
                        },
                    },
                },
            },
        }
    }
}

/// Store the items from position `k` on into an array.
#[verifier::opaque]
pub open spec fn elements(g: G, items: Seq<ExpressionNode>, k: int, array: Value, t: Ty) -> Option<
    (G, Value),
>
    decreases items, items.len() - k,
{
    if k < 0 || k >= items.len() {
        Some((g, array))
    } else {
        match expr(g, items[k], true) {
            None => None,
            Some((g, v)) => match int_const(g, k as usize as i64) {
                None => None,
                Some((g, index)) => elements(
                    emit(g, Inst::StoreElement(array, index, v, t)),
                    items,
                    k + 1,
                    array,
                    t,
                ),
            },
        }
    }
}

/// The address of the storage behind an expression. What has no storage is
/// evaluated into a temporary.
#[verifier::opaque]
pub open spec fn address(g: G, e: ExpressionNode) -> Option<(G, Value)>
    decreases e, 3int,
{
    match e.expression {
        Expression::StructAccess(struc, name) => match struct_name(types::ty_of(struc.typed)) {
            None => None,
            Some(owner) => match object(g, *struc) {
                None => None,
                Some((g, base)) => match ident(*name) {
                    None => None,
                    Some(name) => match member_index(g.cg.module, owner, name) {
                        None => None,
                        Some(index) => member(g, base, index, false, owner),
                    },
                },
            },
        },
        Expression::ArrayAccess(array, index) => match element(types::ty_of(array.typed)) {
            None => None,
            Some(t) => match expr(g, *array, true) {
                None => None,
                Some((g, array)) => match expr(g, *index, true) {
                    None => None,
                    Some((g, index)) => def(
                        g,
                        Inst::ElementPtr(array, index, g.f.registers, t),
                    ),
                },
            },
        },
        Expression::Deref(pointer) => expr(g, *pointer, true),
        _ => match match e.expression {
            Expression::Identifier(name) => lookup(g, name@),
            _ => None,
        } {
            Some(unique) => def(g, Inst::Pointer(unique, g.f.registers)),
            None => {
                let temp = label("__tmp_"@, g.f.if_index);
                let t = types::ty_of(e.typed);
                match next_if(g) {
                    None => None,
                    Some(g) => match expr(g, e, true) {
                        None => None,
                        Some((g, v)) => {
                            let g = emit(slot(g, temp, t), Inst::Store(temp, v, t));
                            def(g, Inst::Pointer(temp, g.f.registers))
                        },
                    },
                }
            },
        },
    }
}

/// The address of the struct whose member is accessed: a pointer is one already.
#[verifier::opaque]
pub open spec fn object(g: G, struc: ExpressionNode) -> Option<(G, Value)>
    decreases struc, 4int,
{
    if types::ty_of(struc.typed) is Pointer {
        expr(g, struc, true)
    } else {
        address(g, struc)
    }
}

/// A match: the arms are tried in order.
#[verifier::opaque]
pub open spec fn match_expr(g: G, e: ExpressionNode) -> Option<(G, Value)>
    decreases e, 0int,
{
    match e.expression {
        Expression::Match(scrutinee, cases) => {
            let n = g.f.match_index;
            match next_match(g) {
                None => None,
                Some(g) => match expr(g, *scrutinee, true) {
                    None => None,
                    Some((g, value)) => match match_start(
                        g,
                        n,
                        value,
                        types::ty_of(scrutinee.typed),
                        types::ty_of(e.typed),
                        cases@.len(),
                    ) {
                        None => None,
                        Some((g, m)) => match arms(g, m, cases@, 0) {
                            None => None,
                            Some(g) => match_finish(g, m),
                        },
                    },
                },
            }
        },
        _ => None,
    }
}

/// The arms of a match from position `i` on. What follows an arm that matches
/// everything is left out.
#[verifier::opaque]
pub open spec fn arms(
    g: G,
    m: Matching,
    cases: Seq<(MatchPattern, ExpressionNode)>,
    i: int,
) -> Option<G>
    decreases cases, cases.len() - i,
{
    if i < 0 || i >= cases.len() {
        Some(g)
    } else {
        match arm_test(g, m, cases[i].0, i) {
            None => None,
            Some(g) => match arm_bind(enter(block(g, match_arm(m, i))), m, cases[i].0) {
                None => None,
                Some(g) => match expr(g, cases[i].1, true) {
                    None => None,
                    Some((g, v)) => {
                        let g = leave(arm_end(g, m, v));
                        if cases[i].0 is Wildcard {
                            Some(g)
                        } else if i + 1 < cases.len() {
                            arms(block(g, match_next(m, i)), m, cases, i + 1)
                        } else {
                            Some(g)
                        }
                    },
                },
            },
        }
    }
}

// ---------------------------------------------------------------------------
// Statements

/// The statements from position `k` on.
#[verifier::opaque]
pub open spec fn stmts(g: G, ss: Seq<Statement>, k: int) -> Option<G>
    decreases ss, ss.len() - k,
{
    if k < 0 || k >= ss.len() {
        Some(g)
    } else {
        match stmt(g, ss[k]) {
            None => None,
            Some(g) => stmts(g, ss, k + 1),
        }
    }
}

/// The statements of a body, in a scope of their own.
#[verifier::opaque]
pub open spec fn scope(g: G, ss: Seq<Statement>) -> Option<G>
    decreases ss, ss.len() + 1,
{
    match stmts(enter(g), ss, 0) {
        None => None,
        Some(g) => Some(leave(g)),
    }
}

/// A statement.
#[verifier::opaque]
pub open spec fn stmt(g: G, s: Statement) -> Option<G>
    decreases s, 1int,
{
    match s {
        Statement::Assign(..) => assign(g, s),
        Statement::Return(..) => ret(g, s),
        Statement::Group(body) => stmts(g, body@, 0),
        Statement::ExpressionStatement(e, _) => match expr(g, e, true) {
            None => None,
            Some((g, _)) => Some(g),
        },
        Statement::If(..) => if_stmt(g, s),
        Statement::While(..) => while_stmt(g, s),
        Statement::For(..) => for_stmt(g, s),
        Statement::Break(_) => if g.cg.loop_ends.len() > 0 {
            Some(emit(g, Inst::Jump(g.cg.loop_ends.last())))
        } else {
            None
        },
        Statement::Continue(_) => if g.cg.loop_continues.len() > 0 {
            Some(emit(g, Inst::Jump(g.cg.loop_continues.last())))
        } else {
            None
        },
        Statement::Reassign(..) => reassign(g, s),
        Statement::CompoundAssign(target, op, value, _) => {
            let t = types::ty_of(target.typed);
            match address(g, target) {
                None => None,
                Some((g, p)) => match int_const(g, 0) {
                    None => None,
                    Some((g, zero)) => match def(
                        g,
                        Inst::AccessElement(p, zero, g.f.registers, t),
                    ) {
                        None => None,
                        Some((g, old_value)) => match expr(g, value, true) {
                            None => None,
                            Some((g, v)) => if compounds(op) {
                                match infix_inst(op, old_value, v, g.f.registers) {
                                    None => None,
                                    Some(i) => match def(g, i) {
                                        None => None,
                                        Some((g, v)) => Some(
                                            emit(g, Inst::StoreElement(p, zero, v, t)),
                                        ),
                                    },
                                }
                            } else {
                                None
                            },
                        },
                    },
                },
            }
        },
        Statement::Block(body) => scope(g, body@),
        _ => None,
    }
}

/// The declaration of a variable.
#[verifier::opaque]
pub open spec fn assign(g: G, s: Statement) -> Option<G>
    decreases s, 0int,
{
    match s {
        Statement::Assign(_, name, annotation, e, _) => match expr(g, e, true) {
            None => None,
            Some((g, v)) => {
                let t = match annotation {
                    Some(t) => types::ty_of(t),
                    None => types::ty_of(e.typed),
                };
                match declare(g, name@, t) {
                    None => None,
                    Some((g, unique)) => Some(emit(g, Inst::Store(unique, v, t))),
                }
            },
        },
        _ => None,
    }
}

/// An assignment to a variable, through a pointer, to an element or to a member.
#[verifier::opaque]
pub open spec fn reassign(g: G, s: Statement) -> Option<G>
    decreases s, 0int,
{
    match s {
        Statement::Reassign(target, e, _) => match expr(g, e, true) {
            None => None,
            Some((g, v)) => store_to(g, target, v),
        },
        _ => None,
    }
}

/// Store a value where the target of an assignment says.
#[verifier::opaque]
pub open spec fn store_to(g: G, target: ExpressionNode, v: Value) -> Option<G>
    decreases target, 0int,
{
    match target.expression {
        Expression::Identifier(name) => match lookup(g, name@) {
            None => None,
            Some(unique) => Some(
                emit(g, Inst::Store(unique, v, types::ty_of(target.typed))),
            ),
        },
        Expression::Deref(pointer) => match expr(g, *pointer, true) {
            None => None,
            Some((g, p)) => match int_const(g, 0) {
                None => None,
                Some((g, zero)) => Some(
                    emit(
                        g,
                        Inst::StoreElement(p, zero, v, types::ty_of(target.typed)),
                    ),
                ),
            },
        },
        Expression::ArrayAccess(array, index) => match element(
            types::ty_of(array.typed),
        ) {
            None => None,
            Some(t) => match expr(g, *array, true) {
                None => None,
                Some((g, array)) => match expr(g, *index, true) {
                    None => None,
                    Some((g, index)) => Some(
                        emit(g, Inst::StoreElement(array, index, v, t)),
                    ),
                },
            },
        },
        Expression::StructAccess(struc, name) => match object(g, *struc) {
            None => None,
            Some((g, object)) => match ident(*name) {
                None => None,
                Some(name) => match struct_name(types::ty_of(struc.typed)) {
                    None => None,
                    Some(owner) => match member_index(g.cg.module, owner, name) {
                        None => None,
                        Some(index) => Some(
                            emit(g, Inst::StoreStructMember(object, index as usize, v, owner)),
                        ),
                    },
                },
            },
        },
        _ => None,
    }
}

/// The end of a function.
#[verifier::opaque]
pub open spec fn ret(g: G, s: Statement) -> Option<G>
    decreases s, 0int,
{
    match s {
        Statement::Return(None, _) => Some(emit(g, Inst::Return(None))),
        Statement::Return(Some(e), _) => match expr(g, e, true) {
            None => None,
            Some((g, v)) => Some(emit(g, Inst::Return(Some(v)))),
        },
        _ => None,
    }
}

/// A conditional.
#[verifier::opaque]
pub open spec fn if_stmt(g: G, s: Statement) -> Option<G>
    decreases s, 0int,
{
    match s {
        Statement::If(cond, body, other, _) => match expr(g, cond, true) {
            None => None,
            Some((g, c)) => {
                let n = g.f.if_index;
                let yes = label("true-"@, n);
                let no = label("else-"@, n);
                let end = label("end-"@, n);
                match next_if(g) {
                    None => None,
                    Some(g) => match scope(
                        block(
                            emit(
                                g,
                                Inst::Jcond(
                                    c,
                                    yes,
                                    if other is Some {
                                        no
                                    } else {
                                        end
                                    },
                                ),
                            ),
                            yes,
                        ),
                        body@,
                    ) {
                        None => None,
                        Some(g) => {
                            let g = fall_to(g, end);
                            match other {
                                None => Some(block(g, end)),
                                Some(other) => match stmt(enter(block(g, no)), *other) {
                                    None => None,
                                    Some(g) => Some(block(fall_to(leave(g), end), end)),
                                },
                            }
                        },
                    },
                }
            },
        },
        _ => None,
    }
}

/// A loop that tests its condition first.
#[verifier::opaque]
pub open spec fn while_stmt(g: G, s: Statement) -> Option<G>
    decreases s, 0int,
{
    match s {
        Statement::While(cond, body, _) => {
            let n = g.f.if_index;
            let eval = label("eval-"@, n);
            let again = label("loop-"@, n);
            let end = label("end-"@, n);
            match next_if(g) {
                None => None,
                Some(g) => {
                    let g = enter_loop(g, end, eval);
                    match expr(block(emit(g, Inst::Jump(eval)), eval), cond, true) {
                        None => None,
                        Some((g, c)) => match scope(
                            block(emit(g, Inst::Jcond(c, again, end)), again),
                            body@,
                        ) {
                            None => None,
                            Some(g) => Some(
                                block(leave_loop(emit(g, Inst::Jump(eval))), end),
                            ),
                        },
                    }
                },
            }
        },
        _ => None,
    }
}

/// A loop with a condition, or without end.
#[verifier::opaque]
pub open spec fn for_stmt(g: G, s: Statement) -> Option<G>
    decreases s, 0int,
{
    match s {
        Statement::For(cond, body, _) => {
            let n = g.f.if_index;
            let again = label("loop-"@, n);
            let end = label("end-"@, n);
            let eval = label("eval-"@, n);
            match next_if(g) {
                None => None,
                Some(g) => match cond {
                    Some(cond) => {
                        let g = enter_loop(g, end, eval);
                        match expr(block(emit(g, Inst::Jump(eval)), eval), cond, true) {
                            None => None,
                            Some((g, c)) => match scope(
                                block(emit(g, Inst::Jcond(c, again, end)), again),
                                body@,
                            ) {
                                None => None,
                                Some(g) => Some(block(leave_loop(fall_to(g, eval)), end)),
                            },
                        }
                    },
                    None => {
                        let g = enter_loop(g, end, again);
                        match scope(block(emit(g, Inst::Jump(again)), again), body@) {
                            None => None,
                            Some(g) => Some(block(leave_loop(fall_to(g, again)), end)),
                        }
                    },
                },
            }
        },
        _ => None,
    }
}

// ---------------------------------------------------------------------------
// Functions

/// A function that has nothing in it yet.
pub open spec fn blank(arguments: Seq<(Seq<char>, Ty)>, result: Ty) -> Fun {
    Fun {
        arguments,
        result,
        variables: Seq::empty(),
        blocks: seq![("entry"@, Seq::<Inst>::empty())],
        current: "entry"@,
        if_index: 0,
        match_index: 0,
        registers: 0,
    }
}

/// Copy the arguments from position `k` on into variables, so that they can be
/// addressed and assigned to.
#[verifier::opaque]
pub open spec fn spill(f: Fun, k: int) -> Option<Fun>
    decreases f.arguments.len() - k,
{
    if k < 0 || k >= f.arguments.len() {
        Some(f)
    } else {
        proof {
            reveal(ir::defining);
            reveal(ir::appended);
        }
        let name = f.arguments[k].0;
        let t = f.arguments[k].1;
        match ir::defining(f, Inst::LoadArg(k as usize, f.registers, t)) {
            None => None,
            Some((f, v)) => {
                let f = ir::appended(f, Inst::Store(name, v, t));
                spill(Fun { variables: assoc::put(f.variables, name, t), ..f }, k + 1)
            },
        }
    }
}

/// The arguments of a function: their names and types.
pub open spec fn arguments_of(args: Seq<TypedIdentifier>) -> Seq<(Seq<char>, Ty)> {
    Seq::new(args.len(), |i: int| (args[i].1@, types::ty_of(args[i].0)))
}

/// The types of the arguments of a function.
pub open spec fn signature_of(args: Seq<TypedIdentifier>) -> Seq<Ty> {
    Seq::new(args.len(), |i: int| types::ty_of(args[i].0))
}

/// Generate a function and add it to the program as `name`.
#[verifier::opaque]
pub open spec fn define(
    cg: Cg,
    name: Seq<char>,
    args: Seq<TypedIdentifier>,
    result: AzulaType,
    body: Statement,
) -> Option<Cg> {
    match spill(blank(arguments_of(args), types::ty_of(result)), 0) {
        None => None,
        Some(f) => match stmts(
            G { cg: Cg { scopes: seq![Seq::empty()], declared: Seq::empty(), ..cg }, f },
            match body {
                Statement::Block(ss) => ss@,
                _ => Seq::empty(),
            },
            0,
        ) {
            None => None,
            Some(g) => Some(
                Cg {
                    module: Mod {
                        functions: assoc::put(g.cg.module.functions, name, g.f),
                        ..g.cg.module
                    },
                    ..g.cg
                },
            ),
        },
    }
}

/// Generate a function.
#[verifier::opaque]
pub open spec fn function(cg: Cg, s: Statement) -> Option<Cg> {
    match s {
        Statement::Function { name, args, returns: result, body, .. } => define(
            cg,
            name@,
            args@,
            result,
            *body,
        ),
        _ => None,
    }
}

/// Generate the methods of `owner` from position `k` on.
#[verifier::opaque]
pub open spec fn methods(cg: Cg, owner: Seq<char>, funcs: Seq<Statement>, k: int) -> Option<Cg>
    decreases funcs.len() - k,
{
    if k < 0 || k >= funcs.len() {
        Some(cg)
    } else {
        match funcs[k] {
            Statement::Function { name, args, returns: result, body, .. } => match define(
                cg,
                text::dotted(owner, name@),
                args@,
                result,
                *body,
            ) {
                None => None,
                Some(cg) => methods(cg, owner, funcs, k + 1),
            },
            _ => None,
        }
    }
}

/// Generate the methods of a type.
#[verifier::opaque]
pub open spec fn implementation(cg: Cg, s: Statement) -> Option<Cg> {
    match s {
        Statement::Impl { struct_impl, funcs, .. } => methods(
            cg,
            types::name_of(types::ty_of(struct_impl)),
            funcs@,
            0,
        ),
        _ => None,
    }
}

// ---------------------------------------------------------------------------
// Programs

/// The bits of a 64-bit IEEE 754 number with its sign changed.
pub open spec fn negated(bits: u64) -> u64 {
    if bits >= 0x8000_0000_0000_0000 {
        (bits - 0x8000_0000_0000_0000) as u64
    } else {
        (bits + 0x8000_0000_0000_0000) as u64
    }
}

/// The initial value of a global. A string becomes a string constant.
#[verifier::opaque]
pub open spec fn global(m: Mod, e: ExpressionNode) -> Option<(Mod, GlobalValue)> {
    match e.expression {
        Expression::Integer(i) => Some((m, GlobalValue::Int(i))),
        Expression::Negate(operand) => match operand.expression {
            Expression::Integer(i) => if i > i64::MIN {
                Some((m, GlobalValue::Int((-i) as i64)))
            } else {
                None
            },
            Expression::Float(f) => Some((m, GlobalValue::Float(negated(f)))),
            _ => None,
        },
        Expression::Float(f) => Some((m, GlobalValue::Float(f))),
        Expression::Boolean(b) => Some((m, GlobalValue::Bool(b))),
        Expression::String(s) => Some(
            (
                Mod { strings: m.strings.push(s@), ..m },
                GlobalValue::String(m.strings.len() as usize),
            ),
        ),
        _ => None,
    }
}

/// The members of a variant with a payload: its tag, then the payload.
pub open spec fn variant_members(payload: Seq<Ty>) -> Seq<(Ty, Seq<char>)> {
    Seq::new(
        1 + payload.len(),
        |i: int|
            if i == 0 {
                (Ty::Int, "tag"@)
            } else {
                (payload[i - 1], "_"@ + text::digits((i - 1) as nat))
            },
    )
}

/// Lay the variants of an enum from position `k` on out as structs
/// `Enum.Variant`.
#[verifier::opaque]
pub open spec fn variants_laid(
    m: Mod,
    name: Seq<char>,
    variants: Seq<&str>,
    payloads: Seq<Vec<AzulaType>>,
    k: int,
) -> Mod
    decreases variants.len() - k,
{
    if k < 0 || k >= variants.len() || k >= payloads.len() {
        m
    } else {
        let struct_name = text::dotted(name, variants[k]@);
        let def = StructDef {
            name: struct_name,
            attributes: variant_members(types::types_of(payloads[k]@)),
        };
        variants_laid(
            Mod { structs: assoc::put(m.structs, struct_name, def), ..m },
            name,
            variants,
            payloads,
            k + 1,
        )
    }
}

/// Lay an enum with payloads out: a struct `Enum.__tag` for the tag that every
/// value starts with, and a struct for each variant.
#[verifier::opaque]
pub open spec fn boxed_enum(
    m: Mod,
    name: Seq<char>,
    variants: Seq<&str>,
    payloads: Seq<Vec<AzulaType>>,
) -> Mod {
    let tag = name + ".__tag"@;
    let def = StructDef { name: tag, attributes: seq![(Ty::Int, "tag"@)] };
    variants_laid(
        Mod {
            boxed_enums: assoc::put(m.boxed_enums, name, ()),
            structs: assoc::put(m.structs, tag, def),
            ..m
        },
        name,
        variants,
        payloads,
        0,
    )
}

/// Whether a variant from position `k` on has a payload.
#[verifier::opaque]
pub open spec fn has_payload(payloads: Seq<Vec<AzulaType>>, k: int) -> bool
    decreases payloads.len() - k,
{
    if k < 0 || k >= payloads.len() {
        false
    } else {
        payloads[k]@.len() > 0 || has_payload(payloads, k + 1)
    }
}

/// Note the argument types of the methods of `owner` from position `k` on.
#[verifier::opaque]
pub open spec fn method_signatures(
    signatures: Seq<(Seq<char>, Seq<Ty>)>,
    owner: Seq<char>,
    funcs: Seq<Statement>,
    k: int,
) -> Seq<(Seq<char>, Seq<Ty>)>
    decreases funcs.len() - k,
{
    if k < 0 || k >= funcs.len() {
        signatures
    } else {
        method_signatures(
            match funcs[k] {
                Statement::Function { name, args, .. } => assoc::put(
                    signatures,
                    text::dotted(owner, name@),
                    signature_of(args@),
                ),
                _ => signatures,
            },
            owner,
            funcs,
            k + 1,
        )
    }
}

/// Note what a statement at the top level declares.
#[verifier::opaque]
pub open spec fn registered(cg: Cg, s: Statement) -> Option<Cg> {
    match s {
        Statement::ExternFunction { name, varargs, args, returns: result, .. } => Some(
            Cg {
                module: Mod {
                    extern_functions: assoc::put(
                        cg.module.extern_functions,
                        name@,
                        Extern {
                            varargs,
                            arguments: types::types_of(args@),
                            result: types::ty_of(result),
                        },
                    ),
                    ..cg.module
                },
                ..cg
            },
        ),
        Statement::Impl { struct_impl, funcs, .. } => Some(
            Cg {
                signatures: method_signatures(
                    cg.signatures,
                    types::name_of(types::ty_of(struct_impl)),
                    funcs@,
                    0,
                ),
                ..cg
            },
        ),
        Statement::Function { name, args, .. } => Some(
            Cg { signatures: assoc::put(cg.signatures, name@, signature_of(args@)), ..cg },
        ),
        Statement::Assign(_, name, _, value, _) => match global(cg.module, value) {
            None => None,
            Some((m, v)) => Some(
                Cg {
                    module: Mod {
                        global_values: assoc::put(m.global_values, name@, v),
                        ..m
                    },
                    ..cg
                },
            ),
        },
        Statement::Struct { name, attributes, .. } => Some(
            Cg {
                module: Mod {
                    structs: assoc::put(
                        cg.module.structs,
                        name@,
                        StructDef {
                            name: name@,
                            attributes: crate::ast::typed_of(attributes@),
                        },
                    ),
                    ..cg.module
                },
                ..cg
            },
        ),
        Statement::Enum { name, variants, payloads, .. } => {
            let m = Mod {
                enums: assoc::put(cg.module.enums, name@, crate::ast::strs_of(variants@)),
                ..cg.module
            };
            Some(
                Cg {
                    module: if has_payload(payloads@, 0) {
                        boxed_enum(m, name@, variants@, payloads@)
                    } else {
                        m
                    },
                    ..cg
                },
            )
        },
        _ => Some(cg),
    }
}

/// Note what the statements from position `k` on declare.
#[verifier::opaque]
pub open spec fn all_registered(cg: Cg, ss: Seq<Statement>, k: int) -> Option<Cg>
    decreases ss.len() - k,
{
    if k < 0 || k >= ss.len() {
        Some(cg)
    } else {
        match registered(cg, ss[k]) {
            None => None,
            Some(cg) => all_registered(cg, ss, k + 1),
        }
    }
}

/// Generate the functions and methods among the statements from position `k` on.
#[verifier::opaque]
pub open spec fn all_generated(cg: Cg, ss: Seq<Statement>, k: int) -> Option<Cg>
    decreases ss.len() - k,
{
    if k < 0 || k >= ss.len() {
        Some(cg)
    } else {
        match match ss[k] {
            Statement::Function { .. } => function(cg, ss[k]),
            Statement::Impl { .. } => implementation(cg, ss[k]),
            _ => Some(cg),
        } {
            None => None,
            Some(cg) => all_generated(cg, ss, k + 1),
        }
    }
}

/// Generate a program: everything is declared before any function is generated.
#[verifier::opaque]
pub open spec fn program(cg: Cg, root: Statement) -> Option<Cg> {
    match root {
        Statement::Root(ss) => match all_registered(cg, ss@, 0) {
            None => None,
            Some(cg) => all_generated(cg, ss@, 0),
        },
        _ => Some(cg),
    }
}

} // verus!
