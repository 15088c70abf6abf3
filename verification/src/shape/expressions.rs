//! Expressions keep the shape of functions.

use vstd::prelude::*;
use crate::assoc;
use crate::ast::{Expression, ExpressionNode, MatchPattern};
use crate::ir::{Inst, Value};
use crate::labels;
use crate::labels::{Label, Part};
use crate::shape;
use crate::shape::{parts, statements};
use crate::translation;
use crate::translation::{Matching, G};
use crate::types;
use crate::types::Ty;

verus! {

// ---------------------------------------------------------------------------
// Expressions

/// An expression.
pub proof fn lemma_expr(g: G, e: ExpressionNode, resolve: bool, ahead: Set<Seq<char>>)
    requires
        shape::ready(g, ahead),
    ensures
        parts::gives(g, translation::expr(g, e, resolve), ahead),
    decreases e, 3int,
{
    reveal(translation::expr);
    reveal(translation::inner);
    lemma_inner(g, e, resolve, ahead);
    if let Some((g1, v)) = translation::inner(g, e, resolve) {
        shape::lemma_emit(g, g1, Inst::Unreachable, ahead);
    }
}

/// An expression behind what was generated before.
pub(crate) proof fn lemma_next_expr(a: G, b: G, e: ExpressionNode, ahead: Set<Seq<char>>)
    requires
        shape::leads(a, b, ahead),
    ensures
        translation::expr(b, e, true) matches Some((c, v)) ==> {
            &&& shape::leads(a, c, ahead)
            &&& shape::leads(b, c, ahead)
            &&& shape::in_use(v, c.f.registers as nat)
        },
    decreases e, 4int,
{
    lemma_expr(b, e, true, ahead);
    if let Some((c, v)) = translation::expr(b, e, true) {
        shape::lemma_then(a, b, c, ahead);
    }
}

/// Expressions, one after the other.
pub(crate) proof fn lemma_exprs(
    a: G,
    b: G,
    es: Seq<ExpressionNode>,
    k: int,
    values: Seq<Value>,
    ahead: Set<Seq<char>>,
)
    requires
        shape::leads(a, b, ahead),
        shape::all_in_use(values, b.f.registers as nat),
    ensures
        translation::exprs(b, es, k, values) matches Some((c, vs)) ==> {
            &&& shape::leads(a, c, ahead)
            &&& shape::all_in_use(vs, c.f.registers as nat)
            &&& b.f.registers <= c.f.registers
        },
    decreases es, es.len() - k,
{
    reveal(translation::exprs);
    reveal(translation::expr);
    if 0 <= k < es.len() {
        lemma_next_expr(a, b, es[k], ahead);
        if let Some((g1, v)) = translation::expr(b, es[k], true) {
            lemma_exprs(a, g1, es, k + 1, values.push(v), ahead);
        }
    }
}

/// Named expressions, one after the other.
pub(crate) proof fn lemma_fields(
    a: G,
    b: G,
    es: Seq<(&str, ExpressionNode)>,
    k: int,
    values: Seq<Value>,
    ahead: Set<Seq<char>>,
)
    requires
        shape::leads(a, b, ahead),
        shape::all_in_use(values, b.f.registers as nat),
    ensures
        translation::fields(b, es, k, values) matches Some((c, vs)) ==> {
            &&& shape::leads(a, c, ahead)
            &&& shape::all_in_use(vs, c.f.registers as nat)
            &&& b.f.registers <= c.f.registers
        },
    decreases es, es.len() - k,
{
    reveal(translation::fields);
    reveal(translation::expr);
    if 0 <= k < es.len() {
        lemma_next_expr(a, b, es[k].1, ahead);
        if let Some((g1, v)) = translation::expr(b, es[k].1, true) {
            lemma_fields(a, g1, es, k + 1, values.push(v), ahead);
        }
    }
}

/// An expression, by what it is.
pub(crate) proof fn lemma_inner(g: G, e: ExpressionNode, resolve: bool, ahead: Set<Seq<char>>)
    requires
        shape::ready(g, ahead),
    ensures
        parts::gives(g, translation::inner(g, e, resolve), ahead),
    decreases e, 2int,
{
    reveal(translation::inner);
    reveal(translation::unary);
    reveal(translation::new_cell);
    reveal(translation::array);
    reveal(translation::array_access);
    reveal(translation::struct_value);
    reveal(translation::struct_access);
    reveal(translation::block_value);
    reveal(translation::heap_value);
    reveal(translation::infix);
    reveal(translation::function_call);
    reveal(translation::call_closure);
    reveal(translation::make_closure);
    reveal(translation::address);
    reveal(translation::match_expr);
    shape::lemma_start(g, ahead);
    match e.expression {
        Expression::Infix(..) => {
            lemma_infix(g, e, ahead);
        },
        Expression::Integer(v) => {
            parts::lemma_int(g, g, v, ahead);
        },
        Expression::Float(v) => {
            shape::lemma_def(g, g, Inst::ConstFloat(v, g.f.registers), ahead);
        },
        Expression::Identifier(name) => {
            parts::lemma_name_use(g, name@, types::ty_of(e.typed), resolve, ahead);
        },
        Expression::String(s) => {
            shape::lemma_string(g, g, s@, ahead);
        },
        Expression::Boolean(b) => {
            shape::lemma_def(g, g, Inst::ConstTrue(g.f.registers), ahead);
            shape::lemma_def(g, g, Inst::ConstFalse(g.f.registers), ahead);
        },
        Expression::FunctionCall { .. } => {
            lemma_function_call(g, e, ahead);
        },
        Expression::Not(..) => {
            lemma_unary(g, e, ahead);
        },
        Expression::BitNot(..) => {
            lemma_unary(g, e, ahead);
        },
        Expression::SizeOf(t) => {
            shape::lemma_def(g, g, Inst::SizeOf(types::ty_of(t), g.f.registers), ahead);
        },
        Expression::Negate(..) => {
            lemma_unary(g, e, ahead);
        },
        Expression::Pointer(operand) => {
            lemma_address(g, parts::node(operand), ahead);
        },
        Expression::MakeClosure(..) => {
            lemma_make_closure(g, e, ahead);
        },
        Expression::NewCell(..) => {
            lemma_new_cell(g, e, ahead);
        },
        Expression::EnvCell(n) => {
            parts::lemma_env_cell(g, n, ahead);
        },
        Expression::CallClosure(..) => {
            lemma_call_closure(g, e, ahead);
        },
        Expression::Deref(..) => {
            lemma_unary(g, e, ahead);
        },
        Expression::Array(..) => {
            lemma_array(g, e, ahead);
        },
        Expression::ArrayAccess(..) => {
            lemma_array_access(g, e, ahead);
        },
        Expression::StructInitialisation(..) => {
            lemma_struct_value(g, e, ahead);
        },
        Expression::StructAccess(..) => {
            lemma_struct_access(g, e, resolve, ahead);
        },
        Expression::NamespaceAccess(ns, variant) => {
            parts::lemma_variant_value(g, parts::node(ns), parts::node(variant), ahead);
        },
        Expression::Match(..) => {
            lemma_match(g, e, ahead);
        },
        Expression::Cast(..) => {
            lemma_unary(g, e, ahead);
        },
        Expression::Null => {
            shape::lemma_def(g, g, Inst::ConstNull(g.f.registers), ahead);
        },
        Expression::Block(..) => {
            lemma_block_value(g, e, resolve, ahead);
        },
        Expression::Alloc(..) => {
            lemma_heap_value(g, e, ahead);
        },
        _ => {},
    }
}

/// An operation on one operand.
pub(crate) proof fn lemma_unary(g: G, e: ExpressionNode, ahead: Set<Seq<char>>)
    requires
        shape::ready(g, ahead),
    ensures
        parts::gives(g, translation::unary(g, e), ahead),
    decreases e, 0int,
{
    reveal(translation::unary);
    reveal(translation::expr);
    shape::lemma_start(g, ahead);
    match e.expression {
        Expression::Not(operand) => {
            lemma_expr(g, parts::node(operand), true, ahead);
            if let Some((g1, v)) = translation::expr(g, parts::node(operand), true) {
                shape::lemma_def(g, g1, Inst::Not(v, g1.f.registers), ahead);
            }
        },
        Expression::BitNot(operand) => {
            lemma_expr(g, parts::node(operand), true, ahead);
            if let Some((g1, v)) = translation::expr(g, parts::node(operand), true) {
                shape::lemma_def(g, g1, Inst::Not(v, g1.f.registers), ahead);
            }
        },
        Expression::Negate(operand) => {
            let start = if types::ty_of(parts::node(operand).typed) is Float {
                translation::def(g, Inst::ConstFloat(0, g.f.registers))
            } else {
                translation::int_const(g, 0)
            };
            shape::lemma_def(g, g, Inst::ConstFloat(0, g.f.registers), ahead);
            parts::lemma_int(g, g, 0, ahead);
            if let Some((g1, zero)) = start {
                lemma_next_expr(g, g1, parts::node(operand), ahead);
                if let Some((g2, v)) = translation::expr(g1, parts::node(operand), true) {
                    shape::lemma_def(g, g2, Inst::Sub(zero, v, g2.f.registers), ahead);
                }
            }
        },
        Expression::Deref(pointer) => {
            lemma_expr(g, parts::node(pointer), true, ahead);
            if let Some((g1, p)) = translation::expr(g, parts::node(pointer), true) {
                parts::lemma_int(g, g1, 0, ahead);
                if let Some((g2, zero)) = translation::int_const(g1, 0) {
                    shape::lemma_def(
                        g,
                        g2,
                        Inst::AccessElement(p, zero, g2.f.registers, types::ty_of(e.typed)),
                        ahead,
                    );
                }
            }
        },
        Expression::Cast(operand, t) => {
            lemma_expr(g, parts::node(operand), true, ahead);
            if let Some((g1, v)) = translation::expr(g, parts::node(operand), true) {
                shape::lemma_def(
                    g,
                    g1,
                    Inst::Cast(v, types::ty_of(t), g1.f.registers),
                    ahead,
                );
            }
        },
        _ => {},
    }
}

/// A new heap cell.
pub(crate) proof fn lemma_new_cell(g: G, e: ExpressionNode, ahead: Set<Seq<char>>)
    requires
        shape::ready(g, ahead),
    ensures
        parts::gives(g, translation::new_cell(g, e), ahead),
    decreases e, 0int,
{
    reveal(translation::new_cell);
    reveal(translation::expr);
    shape::lemma_start(g, ahead);
    if let Expression::NewCell(value) = e.expression {
        let t = types::ty_of(parts::node(value).typed);
        if let Some(size) = translation::byte_size(
            g.cg.module.structs,
            t,
            g.cg.module.structs.len(),
        ) {
            let n = (if size > 8 {
                size
            } else {
                8
            }) as usize as i64;
            parts::lemma_int(g, g, n, ahead);
            if let Some((g1, size)) = translation::int_const(g, n) {
                lemma_next_expr(g, g1, parts::node(value), ahead);
                if let Some((g2, v)) = translation::expr(g1, parts::node(value), true) {
                    parts::lemma_call(g, g2, "malloc"@, seq![size], ahead);
                    if let Some((g3, cell)) = translation::call(g2, "malloc"@, seq![size]) {
                        parts::lemma_int(g, g3, 0, ahead);
                        if let Some((g4, zero)) = translation::int_const(g3, 0) {
                            shape::lemma_emit(
                                g,
                                g4,
                                Inst::StoreElement(cell, zero, v, t),
                                ahead,
                            );
                        }
                    }
                }
            }
        }
    }
}

/// An array.
pub(crate) proof fn lemma_array(g: G, e: ExpressionNode, ahead: Set<Seq<char>>)
    requires
        shape::ready(g, ahead),
    ensures
        parts::gives(g, translation::array(g, e), ahead),
    decreases e, 0int,
{
    reveal(translation::array);
    reveal(translation::elements);
    shape::lemma_start(g, ahead);
    if let Expression::Array(items) = e.expression {
        if items@.len() > 0 {
            let t = types::ty_of(items@[0].typed);
            let create = Inst::CreateArray(t, items@.len() as usize, g.f.registers);
            shape::lemma_def(g, g, create, ahead);
            if let Some((g1, array)) = translation::def(g, create) {
                lemma_elements(g, g1, items@, 0, array, t, ahead);
            }
        }
    }
}

/// The elements of an array.
pub(crate) proof fn lemma_elements(
    a: G,
    b: G,
    items: Seq<ExpressionNode>,
    k: int,
    array: Value,
    t: Ty,
    ahead: Set<Seq<char>>,
)
    requires
        shape::leads(a, b, ahead),
        shape::in_use(array, b.f.registers as nat),
    ensures
        parts::gives(a, translation::elements(b, items, k, array, t), ahead),
    decreases items, items.len() - k,
{
    reveal(translation::elements);
    reveal(translation::expr);
    if 0 <= k < items.len() {
        lemma_next_expr(a, b, items[k], ahead);
        if let Some((g1, v)) = translation::expr(b, items[k], true) {
            parts::lemma_int(a, g1, k as usize as i64, ahead);
            if let Some((g2, index)) = translation::int_const(g1, k as usize as i64) {
                let store = Inst::StoreElement(array, index, v, t);
                shape::lemma_emit(a, g2, store, ahead);
                lemma_elements(
                    a,
                    translation::emit(g2, store),
                    items,
                    k + 1,
                    array,
                    t,
                    ahead,
                );
            }
        }
    }
}

/// An element.
pub(crate) proof fn lemma_array_access(g: G, e: ExpressionNode, ahead: Set<Seq<char>>)
    requires
        shape::ready(g, ahead),
    ensures
        parts::gives(g, translation::array_access(g, e), ahead),
    decreases e, 0int,
{
    reveal(translation::array_access);
    reveal(translation::expr);
    if let Expression::ArrayAccess(array, index) = e.expression {
        if let Some(t) = translation::element(types::ty_of(parts::node(array).typed)) {
            lemma_expr(g, parts::node(array), true, ahead);
            if let Some((g1, a)) = translation::expr(g, parts::node(array), true) {
                lemma_next_expr(g, g1, parts::node(index), ahead);
                if let Some((g2, i)) = translation::expr(g1, parts::node(index), true) {
                    shape::lemma_def(
                        g,
                        g2,
                        Inst::AccessElement(a, i, g2.f.registers, t),
                        ahead,
                    );
                }
            }
        }
    }
}

/// A struct.
pub(crate) proof fn lemma_struct_value(g: G, e: ExpressionNode, ahead: Set<Seq<char>>)
    requires
        shape::ready(g, ahead),
    ensures
        parts::gives(g, translation::struct_value(g, e), ahead),
    decreases e, 0int,
{
    reveal(translation::struct_value);
    reveal(translation::fields);
    shape::lemma_start(g, ahead);
    if let Expression::StructInitialisation(struc, vals) = e.expression {
        lemma_fields(g, g, vals@, 0, Seq::empty(), ahead);
        if let Some((g1, values)) = translation::fields(g, vals@, 0, Seq::empty()) {
            if let Some(name) = translation::ident(parts::node(struc)) {
                shape::lemma_def(
                    g,
                    g1,
                    Inst::CreateStruct(name, values, g1.f.registers),
                    ahead,
                );
            }
        }
    }
}

/// A member of a struct.
pub(crate) proof fn lemma_struct_access(g: G, e: ExpressionNode, resolve: bool, ahead: Set<Seq<char>>)
    requires
        shape::ready(g, ahead),
    ensures
        parts::gives(g, translation::struct_access(g, e, resolve), ahead),
    decreases e, 0int,
{
    reveal(translation::struct_access);
    reveal(translation::expr);
    if let Expression::StructAccess(struc, name) = e.expression {
        lemma_expr(g, parts::node(struc), true, ahead);
        if let Some((g1, value)) = translation::expr(g, parts::node(struc), true) {
            if let Some(name) = translation::ident(parts::node(name)) {
                if let Some(owner) = translation::struct_name(types::ty_of(parts::node(struc).typed)) {
                    if let Some(index) = translation::member_index(g1.cg.module, owner, name) {
                        parts::lemma_member(g, g1, value, index, resolve, owner, ahead);
                    }
                }
            }
        }
    }
}

/// A block used as a value.
pub(crate) proof fn lemma_block_value(g: G, e: ExpressionNode, resolve: bool, ahead: Set<Seq<char>>)
    requires
        shape::ready(g, ahead),
    ensures
        parts::gives(g, translation::block_value(g, e, resolve), ahead),
    decreases e, 0int,
{
    reveal(translation::block_value);
    reveal(translation::expr);
    reveal(translation::stmts);
    shape::lemma_start(g, ahead);
    if let Expression::Block(body, last) = e.expression {
        let start = translation::enter(g);
        shape::lemma_enter(g, ahead);
        statements::lemma_stmts(start, body@, 0, ahead);
        if let Some(g1) = translation::stmts(start, body@, 0) {
            match last {
                None => {
                    shape::lemma_leave(g, g, g1, ahead);
                },
                Some(last) => {
                    lemma_expr(g1, parts::node(last), resolve, ahead);
                    if let Some((g2, v)) = translation::expr(g1, parts::node(last), resolve) {
                        shape::lemma_then(start, g1, g2, ahead);
                        shape::lemma_leave(g, g, g2, ahead);
                    }
                },
            }
        }
    }
}

/// A struct on the heap.
pub(crate) proof fn lemma_heap_value(g: G, e: ExpressionNode, ahead: Set<Seq<char>>)
    requires
        shape::ready(g, ahead),
    ensures
        parts::gives(g, translation::heap_value(g, e), ahead),
    decreases e, 0int,
{
    reveal(translation::heap_value);
    reveal(translation::fields);
    shape::lemma_start(g, ahead);
    if let Expression::Alloc(object) = e.expression {
        if let Expression::StructInitialisation(struc, vals) = parts::node(object).expression {
            if let Some(name) = translation::ident(parts::node(struc)) {
                lemma_fields(g, g, vals@, 0, Seq::empty(), ahead);
                if let Some((g1, values)) = translation::fields(g, vals@, 0, Seq::empty()) {
                    if let Some(size) = translation::alloc_size(
                        g1.cg.module,
                        name,
                        vals@.len(),
                    ) {
                        parts::lemma_int(g, g1, size as usize as i64, ahead);
                        if let Some((g2, n)) = translation::int_const(
                            g1,
                            size as usize as i64,
                        ) {
                            parts::lemma_call(g, g2, "malloc"@, seq![n], ahead);
                            if let Some((g3, o)) = translation::call(
                                g2,
                                "malloc"@,
                                seq![n],
                            ) {
                                parts::lemma_store_members(g, g3, o, values, 0, name, 0, ahead);
                            }
                        }
                    }
                }
            }
        }
    }
}

/// A closure object.
pub(crate) proof fn lemma_make_closure(g: G, e: ExpressionNode, ahead: Set<Seq<char>>)
    requires
        shape::ready(g, ahead),
    ensures
        parts::gives(g, translation::make_closure(g, e), ahead),
    decreases e, 0int,
{
    reveal(translation::make_closure);
    reveal(translation::captured);
    shape::lemma_start(g, ahead);
    if let Expression::MakeClosure(name, captures) = e.expression {
        if let Some(size) = translation::cells(captures@.len() as usize as i64) {
            parts::lemma_int(g, g, size, ahead);
            if let Some((g1, n)) = translation::int_const(g, size) {
                parts::lemma_call(g, g1, "malloc"@, seq![n], ahead);
                if let Some((g2, object)) = translation::call(g1, "malloc"@, seq![n]) {
                    let address = Inst::FunctionAddress(name@, g2.f.registers);
                    shape::lemma_def(g, g2, address, ahead);
                    if let Some((g3, code)) = translation::def(g2, address) {
                        parts::lemma_call(g, g3, "ptr_write_str"@, seq![object, code], ahead);
                        if let Some((g4, _)) = translation::call(
                            g3,
                            "ptr_write_str"@,
                            seq![object, code],
                        ) {
                            lemma_captured(g, g4, captures@, 0, object, ahead);
                        }
                    }
                }
            }
        }
    }
}

/// The cells of a closure object.
pub(crate) proof fn lemma_captured(
    a: G,
    b: G,
    captures: Seq<ExpressionNode>,
    k: int,
    object: Value,
    ahead: Set<Seq<char>>,
)
    requires
        shape::leads(a, b, ahead),
        shape::in_use(object, b.f.registers as nat),
    ensures
        translation::captured(b, captures, k, object) matches Some(c) ==> shape::leads(
            a,
            c,
            ahead,
        ) && b.f.registers <= c.f.registers,
    decreases captures, captures.len() - k,
{
    reveal(translation::captured);
    reveal(translation::expr);
    if 0 <= k < captures.len() {
        lemma_next_expr(a, b, captures[k], ahead);
        if let Some((g1, cell)) = translation::expr(b, captures[k], true) {
            if let Some(offset) = translation::cells(k as usize as i64) {
                parts::lemma_int(a, g1, offset, ahead);
                if let Some((g2, at)) = translation::int_const(g1, offset) {
                    parts::lemma_call(a, g2, "ptr_add"@, seq![object, at], ahead);
                    if let Some((g3, place)) = translation::call(
                        g2,
                        "ptr_add"@,
                        seq![object, at],
                    ) {
                        parts::lemma_call(a, g3, "ptr_write_str"@, seq![place, cell], ahead);
                        if let Some((g4, _)) = translation::call(
                            g3,
                            "ptr_write_str"@,
                            seq![place, cell],
                        ) {
                            lemma_captured(a, g4, captures, k + 1, object, ahead);
                        }
                    }
                }
            }
        }
    }
}

/// A call of a function value.
pub(crate) proof fn lemma_call_closure(g: G, e: ExpressionNode, ahead: Set<Seq<char>>)
    requires
        shape::ready(g, ahead),
    ensures
        parts::gives(g, translation::call_closure(g, e), ahead),
    decreases e, 0int,
{
    reveal(translation::call_closure);
    reveal(translation::expr);
    reveal(translation::exprs);
    if let Expression::CallClosure(callee, args) = e.expression {
        if let Ty::Function(params, result) = types::ty_of(parts::node(callee).typed) {
            lemma_expr(g, parts::node(callee), true, ahead);
            if let Some((g1, object)) = translation::expr(g, parts::node(callee), true) {
                parts::lemma_call(g, g1, "ptr_read_str"@, seq![object], ahead);
                if let Some((g2, code)) = translation::call(
                    g1,
                    "ptr_read_str"@,
                    seq![object],
                ) {
                    lemma_exprs(g, g2, args@, 0, seq![object], ahead);
                    if let Some((g3, values)) = translation::exprs(
                        g2,
                        args@,
                        0,
                        seq![object],
                    ) {
                        let i = Inst::IndirectCall(
                            code,
                            values,
                            seq![Ty::Str] + params,
                            *result,
                            g3.f.registers,
                        );
                        assert(shape::all_in_use(
                            shape::operands(i),
                            g3.f.registers as nat,
                        ));
                        shape::lemma_def(g, g3, i, ahead);
                        if let Some((g4, v)) = translation::def(g3, i) {
                            shape::lemma_emit(g, g4, Inst::Unreachable, ahead);
                        }
                    }
                }
            }
        }
    }
}

/// A call.
pub(crate) proof fn lemma_function_call(g: G, e: ExpressionNode, ahead: Set<Seq<char>>)
    requires
        shape::ready(g, ahead),
    ensures
        parts::gives(g, translation::function_call(g, e), ahead),
    decreases e, 0int,
{
    reveal(translation::function_call);
    reveal(translation::expr);
    reveal(translation::exprs);
    reveal(translation::address);
    shape::lemma_start(g, ahead);
    if let Expression::FunctionCall { function, args } = e.expression {
        if let Some((owner, variant)) = translation::boxed_variant(g.cg.module, parts::node(function)) {
            lemma_exprs(g, g, args@, 0, Seq::empty(), ahead);
            if let Some((g1, values)) = translation::exprs(g, args@, 0, Seq::empty()) {
                parts::lemma_construct(g, g1, owner, variant, values, ahead);
            }
        } else if let Some(name) = translation::resolve(parts::node(function)) {
            if let Expression::StructAccess(left, _) = parts::node(function).expression {
                let t = types::ty_of(parts::node(left).typed);
                lemma_address(g, parts::node(left), ahead);
                lemma_expr(g, parts::node(left), true, ahead);
                if let Some((g1, p)) = translation::expr(g, parts::node(left), true) {
                    parts::lemma_int(g, g1, 0, ahead);
                    if let Some((g2, zero)) = translation::int_const(g1, 0) {
                        if let Ty::Pointer(pointee) = t {
                            shape::lemma_def(
                                g,
                                g2,
                                Inst::AccessElement(p, zero, g2.f.registers, *pointee),
                                ahead,
                            );
                        }
                    }
                }
                let start = match translation::receiver(g.cg.signatures, t, name) {
                    translation::Receiver::Address => translation::address(g, parts::node(left)),
                    translation::Receiver::Value => translation::expr(g, parts::node(left), true),
                    translation::Receiver::Load => match translation::expr(g, parts::node(left), true) {
                        None => None,
                        Some((g1, p)) => match translation::int_const(g1, 0) {
                            None => None,
                            Some((g2, zero)) => match t {
                                Ty::Pointer(pointee) => translation::def(
                                    g2,
                                    Inst::AccessElement(p, zero, g2.f.registers, *pointee),
                                ),
                                _ => None,
                            },
                        },
                    },
                };
                assert(parts::gives(g, start, ahead));
                if let Some((g3, object)) = start {
                    lemma_exprs(g, g3, args@, 0, seq![object], ahead);
                    if let Some((g4, values)) = translation::exprs(
                        g3,
                        args@,
                        0,
                        seq![object],
                    ) {
                        parts::lemma_call(g, g4, name, values, ahead);
                    }
                }
            } else {
                lemma_exprs(g, g, args@, 0, Seq::empty(), ahead);
                if let Some((g1, values)) = translation::exprs(g, args@, 0, Seq::empty()) {
                    parts::lemma_call(g, g1, name, values, ahead);
                }
            }
        }
    }
}

/// An address.
pub(crate) proof fn lemma_address(g: G, e: ExpressionNode, ahead: Set<Seq<char>>)
    requires
        shape::ready(g, ahead),
    ensures
        parts::gives(g, translation::address(g, e), ahead),
    decreases e, 5int,
{
    reveal(translation::address);
    reveal(translation::expr);
    reveal(translation::object);
    shape::lemma_start(g, ahead);
    match e.expression {
        Expression::StructAccess(struc, name) => {
            if let Some(owner) = translation::struct_name(types::ty_of(parts::node(struc).typed)) {
                lemma_object(g, parts::node(struc), ahead);
                if let Some((g1, base)) = translation::object(g, parts::node(struc)) {
                    if let Some(name) = translation::ident(parts::node(name)) {
                        if let Some(index) = translation::member_index(
                            g1.cg.module,
                            owner,
                            name,
                        ) {
                            parts::lemma_member(g, g1, base, index, false, owner, ahead);
                        }
                    }
                }
            }
        },
        Expression::ArrayAccess(array, index) => {
            if let Some(t) = translation::element(types::ty_of(parts::node(array).typed)) {
                lemma_expr(g, parts::node(array), true, ahead);
                if let Some((g1, a)) = translation::expr(g, parts::node(array), true) {
                    lemma_next_expr(g, g1, parts::node(index), ahead);
                    if let Some((g2, i)) = translation::expr(g1, parts::node(index), true) {
                        shape::lemma_def(
                            g,
                            g2,
                            Inst::ElementPtr(a, i, g2.f.registers, t),
                            ahead,
                        );
                    }
                }
            }
        },
        Expression::Deref(pointer) => {
            lemma_expr(g, parts::node(pointer), true, ahead);
        },
        _ => {
            let found = match e.expression {
                Expression::Identifier(name) => translation::lookup(g, name@),
                _ => None,
            };
            if let Some(unique) = found {
                if let Expression::Identifier(name) = e.expression {
                    shape::lemma_lookup(g, name@);
                }
                shape::lemma_def(g, g, Inst::Pointer(unique, g.f.registers), ahead);
            } else {
                lemma_temporary(g, e, ahead);
            }
        },
    }
}

/// The address of a temporary that holds the value of an expression.
pub(crate) proof fn lemma_temporary(g: G, e: ExpressionNode, ahead: Set<Seq<char>>)
    requires
        shape::ready(g, ahead),
    ensures
        ({
            let temp = translation::label("__tmp_"@, g.f.if_index);
            let t = types::ty_of(e.typed);
            translation::next_if(g) matches Some(g1) ==> (translation::expr(
                g1,
                e,
                true,
            ) matches Some((g2, v)) ==> {
                let g3 = translation::emit(
                    translation::slot(g2, temp, t),
                    Inst::Store(temp, v, t),
                );
                parts::gives(g, translation::def(g3, Inst::Pointer(temp, g3.f.registers)), ahead)
            })
        }),
    decreases e, 4int,
{
    let temp = translation::label("__tmp_"@, g.f.if_index);
    let t = types::ty_of(e.typed);
    shape::lemma_start(g, ahead);
    shape::lemma_next_if(g, g, ahead);
    if let Some(g1) = translation::next_if(g) {
        lemma_expr(g1, e, true, ahead);
        if let Some((g2, v)) = translation::expr(g1, e, true) {
            shape::lemma_then(g, g1, g2, ahead);
            shape::lemma_slot(g, g2, temp, t, ahead);
            let g3 = translation::slot(g2, temp, t);
            let store = Inst::Store(temp, v, t);
            shape::lemma_emit(g, g3, store, ahead);
            let g4 = translation::emit(g3, store);
            shape::lemma_def(g, g4, Inst::Pointer(temp, g4.f.registers), ahead);
        }
    }
}

/// The address of a struct.
pub(crate) proof fn lemma_object(g: G, struc: ExpressionNode, ahead: Set<Seq<char>>)
    requires
        shape::ready(g, ahead),
    ensures
        parts::gives(g, translation::object(g, struc), ahead),
    decreases struc, 6int,
{
    reveal(translation::object);
    reveal(translation::expr);
    reveal(translation::address);
    lemma_expr(g, struc, true, ahead);
    lemma_address(g, struc, ahead);
}

/// Two operands joined by an operator.
pub(crate) proof fn lemma_infix(g: G, e: ExpressionNode, ahead: Set<Seq<char>>)
    requires
        shape::ready(g, ahead),
    ensures
        parts::gives(g, translation::infix(g, e), ahead),
    decreases e, 1int,
{
    reveal(translation::infix);
    reveal(translation::expr);
    if let Expression::Infix(left, op, right) = e.expression {
        if op is Or || op is And {
            lemma_short_circuit(g, e, ahead);
        } else {
            lemma_expr(g, parts::node(left), true, ahead);
            if let Some((g1, a)) = translation::expr(g, parts::node(left), true) {
                lemma_next_expr(g, g1, parts::node(right), ahead);
                if let Some((g2, b)) = translation::expr(g1, parts::node(right), true) {
                    parts::lemma_infix_inst(op, a, b, g2.f.registers);
                    if let Some(i) = translation::infix_inst(op, a, b, g2.f.registers) {
                        shape::lemma_def(g, g2, i, ahead);
                    }
                }
            }
        }
    }
}

/// An operator that does not always evaluate its right operand.
pub(crate) proof fn lemma_short_circuit(g: G, e: ExpressionNode, ahead: Set<Seq<char>>)
    requires
        shape::ready(g, ahead),
        e.expression matches Expression::Infix(_, op, _) && (op is Or || op is And),
    ensures
        parts::gives(g, translation::infix(g, e), ahead),
    decreases e, 0int,
{
    reveal(translation::infix);
    reveal(translation::expr);
    if let Expression::Infix(left, op, right) = e.expression {
        let n = g.f.if_index;
        let or = op is Or;
        let result = translation::label("__sc_"@, n);
        let rest = translation::label("sc_rhs_"@, n);
        let end = translation::label("sc_end_"@, n);
        let rest_label = Label::Part(Part::Rest, n);
        let end_label = Label::Part(Part::Decided, n);
        assert(labels::named(rest_label) == rest);
        assert(labels::named(end_label) == end);
        let more = ahead.insert(end);
        shape::lemma_more(g, ahead, end);
        shape::lemma_start(g, more);
        shape::lemma_next_if(g, g, more);
        if let Some(g1) = translation::next_if(g) {
            let g2 = translation::slot(g1, result, Ty::Bool);
            shape::lemma_slot(g, g1, result, Ty::Bool, more);
            let constant = if or {
                Inst::ConstTrue(g2.f.registers)
            } else {
                Inst::ConstFalse(g2.f.registers)
            };
            shape::lemma_def(g, g2, constant, more);
            if let Some((g3, decided)) = translation::def(g2, constant) {
                let store = Inst::Store(result, decided, Ty::Bool);
                shape::lemma_emit(g, g3, store, more);
                let g4 = translation::emit(g3, store);
                lemma_next_expr(g, g4, parts::node(left), more);
                if let Some((g5, a)) = translation::expr(g4, parts::node(left), true) {
                    let jump = if or {
                        Inst::Jcond(a, end, rest)
                    } else {
                        Inst::Jcond(a, rest, end)
                    };
                    shape::lemma_new(g, rest_label);
                    shape::lemma_new(g, end_label);
                    shape::lemma_fresh(g4, g5, rest_label, more);
                    shape::lemma_fresh(g4, g5, end_label, more);
                    shape::lemma_kept(g4, g5, more, result);
                    parts::lemma_jump_and_open(g, g5, jump, rest_label, more);
                    let g6 = translation::block(translation::emit(g5, jump), rest);
                    assert(!assoc::defined(g6.f.blocks, end)) by {
                        if end == rest {
                            labels::lemma_named(end_label, rest_label);
                        }
                    }
                    lemma_next_expr(g, g6, parts::node(right), more);
                    if let Some((g7, b)) = translation::expr(g6, parts::node(right), true) {
                        shape::lemma_fresh(g6, g7, end_label, more);
                        shape::lemma_kept(g6, g7, more, result);
                        let keep = Inst::Store(result, b, Ty::Bool);
                        shape::lemma_emit(g, g7, keep, more);
                        let g8 = translation::emit(g7, keep);
                        let go = Inst::Jump(end);
                        shape::lemma_emit(g, g8, go, more);
                        let g9 = translation::emit(g8, go);
                        shape::lemma_block(g, g9, end_label, more);
                        let g10 = translation::block(g9, end);
                        lemma_opened(g, g10, end, ahead);
                        let load = Inst::Load(result, g10.f.registers, Ty::Bool);
                        shape::lemma_def(g, g10, load, ahead);
                    }
                }
            }
        }
    }
}

/// A block that was to be opened later is open.
pub(crate) proof fn lemma_opened(a: G, b: G, x: Seq<char>, ahead: Set<Seq<char>>)
    requires
        shape::leads(a, b, ahead.insert(x)),
        shape::ready(a, ahead),
        assoc::defined(b.f.blocks, x),
    ensures
        shape::leads(a, b, ahead),
{
    shape::lemma_loops(a, b, ahead.insert(x), ahead);
    shape::lemma_drop(a, b, ahead.insert(x), ahead);
}

/// A match.
pub(crate) proof fn lemma_match(g: G, e: ExpressionNode, ahead: Set<Seq<char>>)
    requires
        shape::ready(g, ahead),
    ensures
        parts::gives(g, translation::match_expr(g, e), ahead),
    decreases e, 0int,
{
    reveal(translation::match_expr);
    reveal(translation::expr);
    reveal(translation::arms);
    if let Expression::Match(scrutinee, cases) = e.expression {
        let n = g.f.match_index;
        let end_label = Label::MatchEnd(n);
        let end = labels::named(end_label);
        let more = ahead.insert(end);
        shape::lemma_more(g, ahead, end);
        shape::lemma_start(g, more);
        shape::lemma_next_match(g, g, more);
        if let Some(g1) = translation::next_match(g) {
            lemma_next_expr(g, g1, parts::node(scrutinee), more);
            if let Some((g2, value)) = translation::expr(g1, parts::node(scrutinee), true) {
                let typed = types::ty_of(parts::node(scrutinee).typed);
                let result = types::ty_of(e.typed);
                let owner = match typed {
                    Ty::Named(name) => name,
                    _ => Seq::empty(),
                };
                parts::lemma_variant_tag(g, g2, value, owner, more);
                if let Some((g3, m)) = translation::match_start(
                    g2,
                    n,
                    value,
                    typed,
                    result,
                    cases@.len(),
                ) {
                    if let Some((t, tag)) = translation::variant_tag(g2, value, owner) {
                        shape::lemma_slot(g, t, translation::match_result(m), result, more);
                    }
                    assert(parts::unopened(g3, n, 0)) by {
                        assert forall|l: Label| parts::pending(l, n, 0) implies !assoc::defined(
                            g3.f.blocks,
                            #[trigger] labels::named(l),
                        ) by {
                            shape::lemma_new(g, l);
                            shape::lemma_fresh(g1, g2, l, more);
                        }
                    }
                    assert(cases@.len() == cases.len());
                    lemma_arms(g, g3, m, cases@, 0, more);
                    if let Some(g4) = translation::arms(g3, m, cases@, 0) {
                        assert(translation::match_end(m) == end);
                        shape::lemma_block(g, g4, end_label, more);
                        let g5 = translation::block(g4, end);
                        lemma_opened(g, g5, end, ahead);
                        if !(result is Void) {
                            let load = Inst::Load(
                                translation::match_result(m),
                                g5.f.registers,
                                result,
                            );
                            shape::lemma_def(g, g5, load, ahead);
                        }
                    }
                }
            }
        }
    }
}

/// The labels of the arms that follow are not used.
pub(crate) proof fn lemma_unopened(b: G, c: G, n: usize, i: int, l: Label)
    requires
        parts::unopened(b, n, i),
        parts::only_tests(b, c, n, i as usize),
        0 <= i <= usize::MAX,
        parts::pending(l, n, i),
        !parts::is_test(l, n, i as usize),
    ensures
        !assoc::defined(c.f.blocks, labels::named(l)),
{
}

/// The arms of a match.
#[verifier::rlimit(40)]
pub(crate) proof fn lemma_arms(
    a: G,
    b: G,
    m: Matching,
    cases: Seq<(MatchPattern, ExpressionNode)>,
    i: int,
    ahead: Set<Seq<char>>,
)
    requires
        shape::leads(a, b, ahead),
        shape::in_use(m.value, b.f.registers as nat),
        shape::in_use(m.tag, b.f.registers as nat),
        a.f.match_index <= m.n < b.f.match_index,
        0 <= i <= cases.len() <= usize::MAX,
        m.count == cases.len(),
        parts::unopened(b, m.n, i),
        ahead.contains(translation::match_end(m)),
        m.result is Void || assoc::defined(b.f.variables, translation::match_result(m)),
    ensures
        translation::arms(b, m, cases, i) matches Some(c) ==> {
            &&& shape::leads(a, c, ahead)
            &&& m.n < c.f.match_index
            &&& !assoc::defined(c.f.blocks, labels::named(Label::MatchEnd(m.n)))
            &&& m.result is Void || assoc::defined(
                c.f.variables,
                translation::match_result(m),
            )
        },
    decreases cases, cases.len() - i,
{
    reveal(translation::arms);
    reveal(translation::expr);
    let end_label = Label::MatchEnd(m.n);
    assert(parts::pending(end_label, m.n, i));
    assert(!assoc::defined(b.f.blocks, labels::named(end_label)));
    if i < cases.len() {
        let at = i as usize;
        let arm_label = Label::MatchArm(m.n, at);
        let arm = translation::match_arm(m, i);
        assert(labels::named(arm_label) == arm);
        let last = i + 1 >= cases.len();
        let next_label = Label::MatchNext(m.n, (i + 1) as usize);
        let next = labels::named(next_label);
        let stop = cases[i].0 is Wildcard || last;
        assert(!last ==> translation::match_next(m, i) == next);
        assert(last ==> translation::match_next(m, i) == translation::match_end(m));
        let wide = if stop {
            ahead
        } else {
            ahead.insert(next)
        };
        let more = wide.insert(arm);
        shape::lemma_more(b, ahead, next);
        shape::lemma_more(b, wide, arm);
        shape::lemma_drop(a, b, ahead, more);
        parts::lemma_arm_test(a, b, m, cases[i].0, i, more);
        if let Some(g1) = translation::arm_test(b, m, cases[i].0, i) {
            lemma_unopened(b, g1, m.n, i, arm_label);
            shape::lemma_block(a, g1, arm_label, more);
            let g2 = translation::block(g1, arm);
            let g3 = translation::enter(g2);
            shape::lemma_enter(g2, more);
            shape::lemma_start(g3, more);
            parts::lemma_arm_bind(g3, g3, m, cases[i].0, more);
            if let Some(g4) = translation::arm_bind(g3, m, cases[i].0) {
                lemma_next_expr(g3, g4, cases[i].1, more);
                if let Some((g5, v)) = translation::expr(g4, cases[i].1, true) {
                    shape::lemma_kept(g3, g5, more, translation::match_result(m));
                    parts::lemma_arm_end(g3, g5, m, v, more);
                    let g6 = translation::arm_end(g5, m, v);
                    shape::lemma_leave(a, g2, g6, more);
                    let g7 = translation::leave(g6);
                    assert forall|l: Label|
                        parts::pending(l, m.n, i) && !parts::is_test(l, m.n, at) && l
                            != arm_label implies !assoc::defined(
                        g7.f.blocks,
                        #[trigger] labels::named(l),
                    ) by {
                        lemma_unopened(b, g1, m.n, i, l);
                        if labels::named(l) == arm {
                            labels::lemma_named(l, arm_label);
                        }
                        shape::lemma_fresh(g3, g6, l, more);
                    }
                    shape::lemma_kept(g3, g6, more, arm);
                    assert(assoc::defined(g7.f.blocks, arm));
                    assert(!assoc::defined(g7.f.blocks, labels::named(end_label)));
                    if stop {
                        lemma_still(b, g7, ahead, more, a);
                        shape::lemma_drop(a, g7, more, ahead);
                    } else {
                        assert(parts::pending(next_label, m.n, i));
                        shape::lemma_block(a, g7, next_label, more);
                        let g8 = translation::block(g7, next);
                        lemma_still(b, g8, ahead, more, a);
                        shape::lemma_drop(a, g8, more, ahead);
                        assert(parts::unopened(g8, m.n, i + 1)) by {
                            assert forall|l: Label|
                                parts::pending(l, m.n, i + 1) implies !assoc::defined(
                                g8.f.blocks,
                                #[trigger] labels::named(l),
                            ) by {
                                assert(parts::pending(l, m.n, i));
                                if labels::named(l) == next {
                                    labels::lemma_named(l, next_label);
                                }
                                assert(!assoc::defined(g7.f.blocks, labels::named(l)));
                            }
                        }
                        lemma_arms(a, g8, m, cases, i + 1, ahead);
                    }
                }
            }
        }
    }
}

/// Two states that were reached from one are in the same loops.
pub(crate) proof fn lemma_still(b: G, c: G, ahead: Set<Seq<char>>, more: Set<Seq<char>>, a: G)
    requires
        shape::leads(a, b, ahead),
        shape::leads(a, c, more),
    ensures
        shape::loops_in(c.cg, ahead),
{
    shape::lemma_loops_back(a, b, ahead);
    shape::lemma_loops(a, c, more, ahead);
}

} // verus!
