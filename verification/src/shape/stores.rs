//! Assignments keep the shape of functions.

use vstd::prelude::*;
use crate::ast::{Expression, ExpressionNode};
use crate::ir::{Inst, Value};
use crate::shape;
use crate::shape::{expressions, parts};
use crate::translation;
use crate::translation::G;
use crate::types;

verus! {

/// Storing a value.
pub(crate) proof fn lemma_store_to(
    g: G,
    target: ExpressionNode,
    v: Value,
    ahead: Set<Seq<char>>,
)
    requires
        shape::ready(g, ahead),
        shape::in_use(v, g.f.registers as nat),
    ensures
        parts::goes(g, translation::store_to(g, target, v), ahead),
    decreases target, 0int,
{
    reveal(translation::store_to);
    reveal(translation::expr);
    reveal(translation::object);
    shape::lemma_start(g, ahead);
    let t = types::ty_of(target.typed);
    match target.expression {
        Expression::Identifier(name) => {
            shape::lemma_lookup(g, name@);
            if let Some(unique) = translation::lookup(g, name@) {
                shape::lemma_emit(g, g, Inst::Store(unique, v, t), ahead);
            }
        },
        Expression::Deref(pointer) => {
            expressions::lemma_expr(g, parts::node(pointer), true, ahead);
            if let Some((g1, p)) = translation::expr(g, parts::node(pointer), true) {
                parts::lemma_int(g, g1, 0, ahead);
                if let Some((g2, zero)) = translation::int_const(g1, 0) {
                    shape::lemma_emit(g, g2, Inst::StoreElement(p, zero, v, t), ahead);
                }
            }
        },
        Expression::ArrayAccess(array, index) => {
            if let Some(t) = translation::element(types::ty_of(parts::node(array).typed)) {
                expressions::lemma_expr(g, parts::node(array), true, ahead);
                if let Some((g1, x)) = translation::expr(g, parts::node(array), true) {
                    expressions::lemma_next_expr(g, g1, parts::node(index), ahead);
                    if let Some((g2, i)) = translation::expr(g1, parts::node(index), true) {
                        shape::lemma_emit(g, g2, Inst::StoreElement(x, i, v, t), ahead);
                    }
                }
            }
        },
        Expression::StructAccess(struc, name) => {
            expressions::lemma_object(g, parts::node(struc), ahead);
            if let Some((g1, object)) = translation::object(g, parts::node(struc)) {
                if let Some(name) = translation::ident(parts::node(name)) {
                    if let Some(owner) = translation::struct_name(
                        types::ty_of(parts::node(struc).typed),
                    ) {
                        if let Some(index) = translation::member_index(
                            g1.cg.module,
                            owner,
                            name,
                        ) {
                            shape::lemma_emit(
                                g,
                                g1,
                                Inst::StoreStructMember(object, index as usize, v, owner),
                                ahead,
                            );
                        }
                    }
                }
            }
        },
        _ => {},
    }
}

} // verus!
