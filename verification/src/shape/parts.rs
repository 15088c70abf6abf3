//! Parts of expressions and patterns keep the shape of functions.

use std::rc::Rc;
use vstd::prelude::*;
use crate::assoc;
use crate::ast::{ExpressionNode, MatchPattern, Operator, Statement};
use crate::ir::{Inst, Value};
use crate::labels;
use crate::labels::{Label, Part};
use crate::shape;
use crate::translation;
use crate::translation::{Matching, G};
use crate::types;
use crate::types::Ty;

verus! {

/// Whether a translation that gives a value leads on, to a state in which the value
/// can be read.
pub open spec fn gives(g: G, r: Option<(G, Value)>, ahead: Set<Seq<char>>) -> bool {
    r matches Some((c, v)) ==> shape::leads(g, c, ahead) && shape::in_use(
        v,
        c.f.registers as nat,
    )
}

/// Whether a translation leads on.
pub open spec fn goes(g: G, r: Option<G>, ahead: Set<Seq<char>>) -> bool {
    r matches Some(c) ==> shape::leads(g, c, ahead)
}

/// The expression behind a shared pointer.
#[verifier::inline]
pub(crate) open spec fn node<'a>(e: Rc<ExpressionNode<'a>>) -> ExpressionNode<'a> {
    *e
}

/// The statement behind a shared pointer.
#[verifier::inline]
pub(crate) open spec fn branch<'a>(s: Rc<Statement<'a>>) -> Statement<'a> {
    *s
}

// ---------------------------------------------------------------------------
// Parts of expressions

/// Loading an integer.
pub(crate) proof fn lemma_int(a: G, b: G, v: i64, ahead: Set<Seq<char>>)
    requires
        shape::leads(a, b, ahead),
    ensures
        translation::int_const(b, v) matches Some((c, x)) ==> {
            &&& shape::leads(a, c, ahead)
            &&& shape::code_kept(b.f.blocks, c.f.blocks)
            &&& shape::in_use(x, c.f.registers as nat)
            &&& c.f.registers == b.f.registers + 1
            &&& c.f.if_index == b.f.if_index
            &&& c.f.match_index == b.f.match_index
            &&& c.f.variables == b.f.variables
            &&& c.cg == b.cg
            &&& forall|x: Seq<char>|
                #[trigger] assoc::defined(c.f.blocks, x) == assoc::defined(b.f.blocks, x)
        },
{
    shape::lemma_def(a, b, Inst::ConstInt(v, b.f.registers), ahead);
}

/// Calling a function.
pub(crate) proof fn lemma_call(a: G, b: G, name: Seq<char>, args: Seq<Value>, ahead: Set<Seq<char>>)
    requires
        shape::leads(a, b, ahead),
        shape::all_in_use(args, b.f.registers as nat),
    ensures
        translation::call(b, name, args) matches Some((c, x)) ==> {
            &&& shape::leads(a, c, ahead)
            &&& shape::in_use(x, c.f.registers as nat)
            &&& c.f.registers == b.f.registers + 1
            &&& c.cg == b.cg
        },
{
    shape::lemma_def(a, b, Inst::FunctionCall(name, args, b.f.registers), ahead);
}

/// Accessing a member.
pub(crate) proof fn lemma_member(
    a: G,
    b: G,
    value: Value,
    index: int,
    resolve: bool,
    name: Seq<char>,
    ahead: Set<Seq<char>>,
)
    requires
        shape::leads(a, b, ahead),
        shape::in_use(value, b.f.registers as nat),
    ensures
        translation::member(b, value, index, resolve, name) matches Some((c, x)) ==> {
            &&& shape::leads(a, c, ahead)
            &&& shape::code_kept(b.f.blocks, c.f.blocks)
            &&& shape::in_use(x, c.f.registers as nat)
            &&& c.f.registers == b.f.registers + 1
            &&& c.f.if_index == b.f.if_index
            &&& c.f.match_index == b.f.match_index
            &&& c.f.variables == b.f.variables
            &&& c.cg == b.cg
            &&& forall|x: Seq<char>|
                #[trigger] assoc::defined(c.f.blocks, x) == assoc::defined(b.f.blocks, x)
        },
{
    shape::lemma_def(
        a,
        b,
        Inst::AccessStructMember(value, index as usize, b.f.registers, resolve, name),
        ahead,
    );
}

/// Storing members.
pub(crate) proof fn lemma_store_members(
    a: G,
    b: G,
    object: Value,
    values: Seq<Value>,
    first: int,
    name: Seq<char>,
    k: int,
    ahead: Set<Seq<char>>,
)
    requires
        shape::leads(a, b, ahead),
        shape::in_use(object, b.f.registers as nat),
        shape::all_in_use(values, b.f.registers as nat),
    ensures
        shape::leads(a, translation::store_members(b, object, values, first, name, k), ahead),
        translation::store_members(b, object, values, first, name, k).f.registers
            == b.f.registers,
    decreases values.len() - k,
{
    reveal(translation::store_members);
    if 0 <= k < values.len() {
        let i = Inst::StoreStructMember(object, (first + k) as usize, values[k], name);
        assert(shape::in_use(values[k], b.f.registers as nat));
        shape::lemma_emit(a, b, i, ahead);
        lemma_store_members(
            a,
            translation::emit(b, i),
            object,
            values,
            first,
            name,
            k + 1,
            ahead,
        );
    }
}

/// Allocating a value of an enum with payloads.
pub(crate) proof fn lemma_construct(
    a: G,
    b: G,
    owner: Seq<char>,
    variant: Seq<char>,
    values: Seq<Value>,
    ahead: Set<Seq<char>>,
)
    requires
        shape::leads(a, b, ahead),
        shape::all_in_use(values, b.f.registers as nat),
    ensures
        gives(a, translation::construct(b, owner, variant, values), ahead),
{
    reveal(translation::construct);
    let name = crate::text::dotted(owner, variant);
    let i = Inst::SizeOf(Ty::Named(name), b.f.registers);
    shape::lemma_def(a, b, i, ahead);
    if let Some((g1, size)) = translation::def(b, i) {
        lemma_call(a, g1, "malloc"@, seq![size], ahead);
        if let Some((g2, object)) = translation::call(g1, "malloc"@, seq![size]) {
            if let Some(index) = translation::variant_index(g2.cg.module, owner, variant) {
                lemma_int(a, g2, index as i64, ahead);
                if let Some((g3, tag)) = translation::int_const(g2, index as i64) {
                    let store = Inst::StoreStructMember(object, 0, tag, name);
                    shape::lemma_emit(a, g3, store, ahead);
                    lemma_store_members(
                        a,
                        translation::emit(g3, store),
                        object,
                        values,
                        1,
                        name,
                        0,
                        ahead,
                    );
                }
            }
        }
    }
}

/// Reading a variable or a global.
pub(crate) proof fn lemma_read_name(g: G, name: Seq<char>, t: Ty, ahead: Set<Seq<char>>)
    requires
        shape::ready(g, ahead),
    ensures
        gives(g, translation::read_name(g, name, t), ahead),
{
    reveal(translation::read_name);
    shape::lemma_start(g, ahead);
    shape::lemma_lookup(g, name);
    if let Some(unique) = translation::lookup(g, name) {
        shape::lemma_def(g, g, Inst::Load(unique, g.f.registers, t), ahead);
    } else {
        shape::lemma_def(g, g, Inst::LoadGlobal(name, g.f.registers, t), ahead);
        shape::lemma_def(g, g, Inst::ConstNull(g.f.registers), ahead);
    }
}

/// Reading a name, or taking its address.
pub(crate) proof fn lemma_name_use(g: G, name: Seq<char>, t: Ty, resolve: bool, ahead: Set<Seq<char>>)
    requires
        shape::ready(g, ahead),
    ensures
        gives(g, translation::name_use(g, name, t, resolve), ahead),
{
    reveal(translation::name_use);
    if resolve {
        lemma_read_name(g, name, t, ahead);
    } else {
        shape::lemma_start(g, ahead);
        shape::lemma_lookup(g, name);
        if let Some(unique) = translation::lookup(g, name) {
            shape::lemma_def(g, g, Inst::Pointer(unique, g.f.registers), ahead);
        }
    }
}

/// The cell of an environment.
pub(crate) proof fn lemma_env_cell(g: G, n: usize, ahead: Set<Seq<char>>)
    requires
        shape::ready(g, ahead),
    ensures
        gives(g, translation::env_cell(g, n), ahead),
{
    reveal(translation::env_cell);
    shape::lemma_start(g, ahead);
    shape::lemma_lookup(g, "$env"@);
    if let Some(unique) = translation::lookup(g, "$env"@) {
        let load = Inst::Load(unique, g.f.registers, Ty::Str);
        shape::lemma_def(g, g, load, ahead);
        if let Some((g1, env)) = translation::def(g, load) {
            if let Some(offset) = translation::cells(n as i64) {
                lemma_int(g, g1, offset, ahead);
                if let Some((g2, at)) = translation::int_const(g1, offset) {
                    lemma_call(g, g2, "ptr_add"@, seq![env, at], ahead);
                    if let Some((g3, cell)) = translation::call(g2, "ptr_add"@, seq![env, at]) {
                        lemma_call(g, g3, "ptr_read_str"@, seq![cell], ahead);
                    }
                }
            }
        }
    }
}

/// A variant used as a value.
pub(crate) proof fn lemma_variant_value(
    g: G,
    ns: ExpressionNode,
    variant: ExpressionNode,
    ahead: Set<Seq<char>>,
)
    requires
        shape::ready(g, ahead),
    ensures
        gives(g, translation::variant_value(g, ns, variant), ahead),
{
    reveal(translation::variant_value);
    shape::lemma_start(g, ahead);
    if let Some(owner) = translation::ident(ns) {
        if let Some(variant) = translation::ident(variant) {
            lemma_construct(g, g, owner, variant, Seq::empty(), ahead);
            if let Some(index) = translation::variant_index(g.cg.module, owner, variant) {
                lemma_int(g, g, index as i64, ahead);
            }
        }
    }
}

/// The instruction of an operator.
pub(crate) proof fn lemma_infix_inst(op: Operator, a: Value, b: Value, d: usize)
    ensures
        translation::infix_inst(op, a, b, d) matches Some(i) ==> {
            &&& shape::dest(i) == Some(d)
            &&& shape::operands(i) == seq![a, b]
            &&& shape::variable(i) is None
            &&& shape::targets(i).len() == 0
        },
{
    reveal(translation::infix_inst);
}

// ---------------------------------------------------------------------------
// Patterns

/// The tag of a value.
pub(crate) proof fn lemma_variant_tag(a: G, b: G, value: Value, owner: Seq<char>, ahead: Set<Seq<char>>)
    requires
        shape::leads(a, b, ahead),
        shape::in_use(value, b.f.registers as nat),
    ensures
        translation::variant_tag(b, value, owner) matches Some((c, tag)) ==> {
            &&& shape::leads(a, c, ahead)
            &&& shape::code_kept(b.f.blocks, c.f.blocks)
            &&& shape::in_use(tag, c.f.registers as nat)
            &&& b.f.registers <= c.f.registers
            &&& c.f.if_index == b.f.if_index
            &&& c.f.match_index == b.f.match_index
            &&& c.f.variables == b.f.variables
            &&& c.cg == b.cg
            &&& forall|x: Seq<char>|
                #[trigger] assoc::defined(c.f.blocks, x) == assoc::defined(b.f.blocks, x)
        },
{
    reveal(translation::variant_tag);
    shape::lemma_code_same(b.f.blocks);
    lemma_member(a, b, value, 0, true, owner + ".__tag"@, ahead);
}

/// The labels of match `n` that are opened with arm `i` or later.
pub open spec fn pending(l: Label, n: usize, i: int) -> bool {
    match l {
        Label::Part(..) => false,
        Label::MatchEnd(m) => m == n,
        Label::MatchArm(m, j) => m == n && j >= i,
        Label::MatchNext(m, j) => m == n && j > i,
        Label::MatchTest(m, j, _) => m == n && j >= i,
    }
}

/// Whether none of these labels is used.
pub open spec fn unopened(g: G, n: usize, i: int) -> bool {
    forall|l: Label|
        pending(l, n, i) ==> !assoc::defined(g.f.blocks, #[trigger] labels::named(l))
}

/// Whether a label is that of a test of arm `i` of match `n`.
pub open spec fn is_test(l: Label, n: usize, i: usize) -> bool {
    l matches Label::MatchTest(m, j, _) && m == n && j == i
}

/// Whether none of the labels of tests from `t` on is used.
pub open spec fn tests_unopened(g: G, n: usize, i: usize, t: usize) -> bool {
    forall|u: usize|
        t <= u ==> !assoc::defined(
            g.f.blocks,
            #[trigger] labels::named(Label::MatchTest(n, i, u)),
        )
}

/// Whether only labels of tests of arm `i` of match `n` came to be used.
pub(crate) open spec fn only_tests(b: G, c: G, n: usize, i: usize) -> bool {
    forall|l: Label|
        !is_test(l, n, i) && !assoc::defined(b.f.blocks, labels::named(l)) ==> !assoc::defined(
            c.f.blocks,
            #[trigger] labels::named(l),
        )
}

/// Testing one item of a tuple.
pub(crate) proof fn lemma_item_test(
    a: G,
    b: G,
    item: Value,
    expected: i64,
    n: usize,
    i: usize,
    tests: usize,
    fail: Seq<char>,
    ahead: Set<Seq<char>>,
)
    requires
        shape::leads(a, b, ahead),
        shape::in_use(item, b.f.registers as nat),
        a.f.match_index <= n < b.f.match_index,
        tests_unopened(b, n, i, tests),
        ahead.contains(fail),
    ensures
        translation::item_test(
            b,
            item,
            expected,
            translation::label2("match-test-"@, n, i),
            tests,
            fail,
        ) matches Some((c, after)) ==> {
            &&& shape::leads(a, c, ahead)
            &&& shape::code_kept(b.f.blocks, c.f.blocks)
            &&& b.f.registers <= c.f.registers
            &&& c.f.match_index == b.f.match_index
            &&& c.f.variables == b.f.variables
            &&& tests_unopened(c, n, i, after)
            &&& only_tests(b, c, n, i)
        },
{
    reveal(translation::item_test);
    let prefix = translation::label2("match-test-"@, n, i);
    lemma_int(a, b, expected, ahead);
    if let Some((g1, x)) = translation::int_const(b, expected) {
        let eq = Inst::Eq(item, x, g1.f.registers);
        shape::lemma_def(a, g1, eq, ahead);
        if let Some((g2, cond)) = translation::def(g1, eq) {
            if tests < usize::MAX {
                let l = Label::MatchTest(n, i, tests);
                let pass = translation::label(prefix + "-"@, tests);
                assert(labels::named(l) == pass);
                let jump = Inst::Jcond(cond, pass, fail);
                assert(shape::targets(jump) =~= seq![pass, fail]);
                lemma_jump_and_open(a, g2, jump, l, ahead);
                let c = translation::block(translation::emit(g2, jump), pass);
                shape::lemma_code_then(b.f.blocks, g1.f.blocks, g2.f.blocks);
                shape::lemma_code_then(b.f.blocks, g2.f.blocks, c.f.blocks);
                assert forall|u: usize| tests + 1 <= u implies !assoc::defined(
                    c.f.blocks,
                    #[trigger] labels::named(Label::MatchTest(n, i, u)),
                ) by {
                    if labels::named(Label::MatchTest(n, i, u)) == labels::named(l) {
                        labels::lemma_named(Label::MatchTest(n, i, u), l);
                    }
                    assert(!assoc::defined(
                        b.f.blocks,
                        labels::named(Label::MatchTest(n, i, u)),
                    ));
                }
                assert forall|k: Label|
                    !is_test(k, n, i) && !assoc::defined(
                        b.f.blocks,
                        labels::named(k),
                    ) implies !assoc::defined(c.f.blocks, #[trigger] labels::named(k)) by {
                    if labels::named(k) == labels::named(l) {
                        labels::lemma_named(k, l);
                    }
                }
            }
        }
    }
}

/// A jump to a block that is opened next, and to blocks that are opened later.
pub(crate) proof fn lemma_jump_and_open(a: G, b: G, i: Inst, l: Label, ahead: Set<Seq<char>>)
    requires
        shape::leads(a, b, ahead),
        shape::dest(i) is None,
        shape::usable(b.f, i),
        shape::aims(i, b.f.blocks, ahead.insert(labels::named(l))),
        !assoc::defined(b.f.blocks, labels::named(l)),
        shape::within(
            l,
            a.f.if_index as int,
            b.f.if_index as int,
            a.f.match_index as int,
            b.f.match_index as int,
        ),
    ensures
        ({
            let c = translation::block(translation::emit(b, i), labels::named(l));
            &&& shape::leads(a, c, ahead)
            &&& shape::code_kept(b.f.blocks, c.f.blocks)
            &&& c.f.registers == b.f.registers
            &&& c.f.if_index == b.f.if_index
            &&& c.f.match_index == b.f.match_index
            &&& c.f.variables == b.f.variables
            &&& c.cg == b.cg
            &&& forall|x: Seq<char>|
                #[trigger] assoc::defined(c.f.blocks, x) == (assoc::defined(b.f.blocks, x) || x
                    == labels::named(l))
        }),
{
    let name = labels::named(l);
    let more = ahead.insert(name);
    shape::lemma_more(b, ahead, name);
    shape::lemma_drop(a, b, ahead, more);
    shape::lemma_emit(a, b, i, more);
    let c = translation::emit(b, i);
    shape::lemma_block(a, c, l, more);
    shape::lemma_code_then(b.f.blocks, c.f.blocks, translation::block(c, name).f.blocks);
    shape::lemma_drop(a, translation::block(c, name), more, ahead);
}

/// Labels of tests come to be used in two steps.
pub(crate) proof fn lemma_only_tests(a: G, b: G, c: G, n: usize, i: usize)
    requires
        only_tests(a, b, n, i),
        only_tests(b, c, n, i),
    ensures
        only_tests(a, c, n, i),
{
    assert forall|l: Label|
        !is_test(l, n, i) && !assoc::defined(a.f.blocks, labels::named(l)) implies !assoc::defined(
        c.f.blocks,
        #[trigger] labels::named(l),
    ) by {
        assert(!assoc::defined(b.f.blocks, labels::named(l)));
    }
}

/// Testing the items of a tuple.
pub(crate) proof fn lemma_tuple_test(
    a: G,
    b: G,
    items: Seq<MatchPattern>,
    k: int,
    value: Value,
    tuple: Seq<char>,
    n: usize,
    i: usize,
    tests: usize,
    fail: Seq<char>,
    ahead: Set<Seq<char>>,
)
    requires
        shape::leads(a, b, ahead),
        shape::in_use(value, b.f.registers as nat),
        a.f.match_index <= n < b.f.match_index,
        tests_unopened(b, n, i, tests),
        ahead.contains(fail),
    ensures
        translation::tuple_test(
            b,
            items,
            k,
            value,
            tuple,
            translation::label2("match-test-"@, n, i),
            tests,
            fail,
        ) matches Some((c, after)) ==> {
            &&& shape::leads(a, c, ahead)
            &&& shape::code_kept(b.f.blocks, c.f.blocks)
            &&& b.f.registers <= c.f.registers
            &&& c.f.match_index == b.f.match_index
            &&& c.f.variables == b.f.variables
            &&& tests_unopened(c, n, i, after)
            &&& only_tests(b, c, n, i)
        },
    decreases items, 2 * (items.len() - k),
{
    reveal(translation::tuple_test);
    shape::lemma_code_same(b.f.blocks);
    let prefix = translation::label2("match-test-"@, n, i);
    if 0 <= k < items.len() {
        match items[k] {
            MatchPattern::Wildcard => {
                lemma_tuple_test(a, b, items, k + 1, value, tuple, n, i, tests, fail, ahead);
            },
            MatchPattern::Binding(_) => {
                lemma_tuple_test(a, b, items, k + 1, value, tuple, n, i, tests, fail, ahead);
            },
            MatchPattern::Tuple(inner) => {
                lemma_member(a, b, value, k, true, tuple, ahead);
                if let Some((g1, item)) = translation::member(b, value, k, true, tuple) {
                    if let Some(t) = translation::member_type(g1.cg.module, tuple, k) {
                        let name = types::name_of(t);
                        lemma_tuple_test(
                            a,
                            g1,
                            inner@,
                            0,
                            item,
                            name,
                            n,
                            i,
                            tests,
                            fail,
                            ahead,
                        );
                        if let Some((g2, more)) = translation::tuple_test(
                            g1,
                            inner@,
                            0,
                            item,
                            name,
                            prefix,
                            tests,
                            fail,
                        ) {
                            assert(only_tests(b, g2, n, i)) by {
                                lemma_only_tests(b, g1, g2, n, i);
                            }
                            lemma_tuple_test(
                                a,
                                g2,
                                items,
                                k + 1,
                                value,
                                tuple,
                                n,
                                i,
                                more,
                                fail,
                                ahead,
                            );
                            if let Some((g3, _)) = translation::tuple_test(
                                g2,
                                items,
                                k + 1,
                                value,
                                tuple,
                                prefix,
                                more,
                                fail,
                            ) {
                                lemma_only_tests(b, g2, g3, n, i);
                                shape::lemma_code_then(
                                    b.f.blocks,
                                    g1.f.blocks,
                                    g2.f.blocks,
                                );
                                shape::lemma_code_then(
                                    b.f.blocks,
                                    g2.f.blocks,
                                    g3.f.blocks,
                                );
                            }
                        }
                    }
                }
            },
            MatchPattern::Integer(expected) => {
                lemma_member(a, b, value, k, true, tuple, ahead);
                if let Some((g1, item)) = translation::member(b, value, k, true, tuple) {
                    lemma_tested(
                        a,
                        b,
                        g1,
                        item,
                        expected,
                        items,
                        k,
                        value,
                        tuple,
                        n,
                        i,
                        tests,
                        fail,
                        ahead,
                    );
                }
            },
            MatchPattern::Variant(owner, variant) => {
                lemma_member(a, b, value, k, true, tuple, ahead);
                if let Some((g1, item)) = translation::member(b, value, k, true, tuple) {
                    lemma_variant_tag(a, g1, item, owner@, ahead);
                    if let Some((g2, tag)) = translation::variant_tag(g1, item, owner@) {
                        if let Some(index) = translation::variant_index(
                            g2.cg.module,
                            owner@,
                            variant@,
                        ) {
                            shape::lemma_code_then(b.f.blocks, g1.f.blocks, g2.f.blocks);
                            lemma_tested(
                                a,
                                b,
                                g2,
                                tag,
                                index as i64,
                                items,
                                k,
                                value,
                                tuple,
                                n,
                                i,
                                tests,
                                fail,
                                ahead,
                            );
                        }
                    }
                }
            },
            _ => {},
        }
    }
}

/// Testing one item of a tuple and then those behind it.
pub(crate) proof fn lemma_tested(
    a: G,
    b: G,
    g: G,
    item: Value,
    expected: i64,
    items: Seq<MatchPattern>,
    k: int,
    value: Value,
    tuple: Seq<char>,
    n: usize,
    i: usize,
    tests: usize,
    fail: Seq<char>,
    ahead: Set<Seq<char>>,
)
    requires
        shape::leads(a, g, ahead),
        b.f.registers <= g.f.registers,
        g.f.match_index == b.f.match_index,
        g.f.variables == b.f.variables,
        forall|x: Seq<char>|
            #[trigger] assoc::defined(g.f.blocks, x) == assoc::defined(b.f.blocks, x),
        shape::in_use(item, g.f.registers as nat),
        shape::in_use(value, b.f.registers as nat),
        a.f.match_index <= n < b.f.match_index,
        tests_unopened(b, n, i, tests),
        ahead.contains(fail),
        0 <= k < items.len(),
    ensures
        translation::item_test(
            g,
            item,
            expected,
            translation::label2("match-test-"@, n, i),
            tests,
            fail,
        ) matches Some((h, more)) ==> (translation::tuple_test(
            h,
            items,
            k + 1,
            value,
            tuple,
            translation::label2("match-test-"@, n, i),
            more,
            fail,
        ) matches Some((c, after)) ==> {
            &&& shape::leads(a, c, ahead)
            &&& shape::code_kept(b.f.blocks, g.f.blocks) ==> shape::code_kept(
                b.f.blocks,
                c.f.blocks,
            )
            &&& b.f.registers <= c.f.registers
            &&& c.f.match_index == b.f.match_index
            &&& c.f.variables == b.f.variables
            &&& tests_unopened(c, n, i, after)
            &&& only_tests(b, c, n, i)
        }),
    decreases items, 2 * (items.len() - k) - 1,
{
    let prefix = translation::label2("match-test-"@, n, i);
    lemma_item_test(a, g, item, expected, n, i, tests, fail, ahead);
    if let Some((h, more)) = translation::item_test(g, item, expected, prefix, tests, fail) {
        lemma_only_tests(b, g, h, n, i);
        lemma_tuple_test(a, h, items, k + 1, value, tuple, n, i, more, fail, ahead);
        if let Some((c, after)) = translation::tuple_test(
            h,
            items,
            k + 1,
            value,
            tuple,
            prefix,
            more,
            fail,
        ) {
            lemma_only_tests(b, h, c, n, i);
            shape::lemma_code_then(g.f.blocks, h.f.blocks, c.f.blocks);
            if shape::code_kept(b.f.blocks, g.f.blocks) {
                shape::lemma_code_then(b.f.blocks, g.f.blocks, c.f.blocks);
            }
        }
    }
}

/// Binding a member to a variable.
pub(crate) proof fn lemma_bind_member(
    a: G,
    b: G,
    value: Value,
    index: int,
    owner: Seq<char>,
    name: Seq<char>,
    ahead: Set<Seq<char>>,
)
    requires
        shape::leads(a, b, ahead),
        shape::in_use(value, b.f.registers as nat),
    ensures
        translation::bind_member(b, value, index, owner, name) matches Some(c) ==> shape::leads(
            a,
            c,
            ahead,
        ) && b.f.registers <= c.f.registers,
{
    reveal(translation::bind_member);
    if let Some(t) = translation::member_type(b.cg.module, owner, index) {
        lemma_member(a, b, value, index, true, owner, ahead);
        if let Some((g1, item)) = translation::member(b, value, index, true, owner) {
            shape::lemma_declare(a, g1, name, t, ahead);
            if let Some((g2, unique)) = translation::declare(g1, name, t) {
                shape::lemma_emit(a, g2, Inst::Store(unique, item, t), ahead);
            }
        }
    }
}

/// Binding the items of a tuple.
pub(crate) proof fn lemma_bind_tuple(
    a: G,
    b: G,
    items: Seq<MatchPattern>,
    k: int,
    value: Value,
    tuple: Seq<char>,
    ahead: Set<Seq<char>>,
)
    requires
        shape::leads(a, b, ahead),
        shape::in_use(value, b.f.registers as nat),
    ensures
        translation::bind_tuple(b, items, k, value, tuple) matches Some(c) ==> shape::leads(
            a,
            c,
            ahead,
        ) && b.f.registers <= c.f.registers,
    decreases items, items.len() - k,
{
    reveal(translation::bind_tuple);
    if 0 <= k < items.len() {
        match items[k] {
            MatchPattern::Binding(name) => {
                lemma_bind_member(a, b, value, k, tuple, name@, ahead);
                if let Some(g1) = translation::bind_member(b, value, k, tuple, name@) {
                    lemma_bind_tuple(a, g1, items, k + 1, value, tuple, ahead);
                }
            },
            MatchPattern::Tuple(inner) => {
                lemma_member(a, b, value, k, true, tuple, ahead);
                if let Some((g1, item)) = translation::member(b, value, k, true, tuple) {
                    if let Some(t) = translation::member_type(g1.cg.module, tuple, k) {
                        let name = types::name_of(t);
                        lemma_bind_tuple(a, g1, inner@, 0, item, name, ahead);
                        if let Some(g2) = translation::bind_tuple(g1, inner@, 0, item, name) {
                            lemma_bind_tuple(a, g2, items, k + 1, value, tuple, ahead);
                        }
                    }
                }
            },
            _ => {
                lemma_bind_tuple(a, b, items, k + 1, value, tuple, ahead);
            },
        }
    }
}

/// Binding the payload of a variant.
pub(crate) proof fn lemma_bind_payload(
    a: G,
    b: G,
    bindings: Seq<Option<&str>>,
    k: int,
    value: Value,
    owner: Seq<char>,
    ahead: Set<Seq<char>>,
)
    requires
        shape::leads(a, b, ahead),
        shape::in_use(value, b.f.registers as nat),
    ensures
        translation::bind_payload(b, bindings, k, value, owner) matches Some(c) ==> shape::leads(
            a,
            c,
            ahead,
        ) && b.f.registers <= c.f.registers,
    decreases bindings.len() - k,
{
    reveal(translation::bind_payload);
    if 0 <= k < bindings.len() {
        if let Some(name) = bindings[k] {
            lemma_bind_member(a, b, value, k + 1, owner, name@, ahead);
            if let Some(g1) = translation::bind_member(b, value, k + 1, owner, name@) {
                lemma_bind_payload(a, g1, bindings, k + 1, value, owner, ahead);
            }
        } else {
            lemma_bind_payload(a, b, bindings, k + 1, value, owner, ahead);
        }
    }
}

/// Declaring the variables of an arm.
pub(crate) proof fn lemma_arm_bind(a: G, b: G, m: Matching, pattern: MatchPattern, ahead: Set<Seq<char>>)
    requires
        shape::leads(a, b, ahead),
        shape::in_use(m.value, b.f.registers as nat),
    ensures
        translation::arm_bind(b, m, pattern) matches Some(c) ==> shape::leads(a, c, ahead)
            && b.f.registers <= c.f.registers,
{
    reveal(translation::arm_bind);
    match pattern {
        MatchPattern::Tuple(items) => {
            lemma_bind_tuple(a, b, items@, 0, m.value, m.owner, ahead);
        },
        MatchPattern::Destructure(owner, variant, bindings) => {
            lemma_bind_payload(
                a,
                b,
                bindings@,
                0,
                m.value,
                crate::text::dotted(owner@, variant@),
                ahead,
            );
        },
        _ => {},
    }
}

/// Ending an arm.
pub(crate) proof fn lemma_arm_end(a: G, b: G, m: Matching, value: Value, ahead: Set<Seq<char>>)
    requires
        shape::leads(a, b, ahead),
        shape::in_use(value, b.f.registers as nat),
        ahead.contains(translation::match_end(m)),
        m.result is Void || assoc::defined(b.f.variables, translation::match_result(m)),
    ensures
        shape::leads(a, translation::arm_end(b, m, value), ahead),
        translation::arm_end(b, m, value).f.registers == b.f.registers,
        translation::arm_end(b, m, value).f.variables == b.f.variables,
{
    reveal(translation::arm_end);
    let jump = Inst::Jump(translation::match_end(m));
    assert(shape::targets(jump) =~= seq![translation::match_end(m)]);
    if m.result is Void {
        shape::lemma_emit(a, b, jump, ahead);
    } else {
        let store = Inst::Store(translation::match_result(m), value, m.result);
        shape::lemma_emit(a, b, store, ahead);
        shape::lemma_emit(a, translation::emit(b, store), jump, ahead);
    }
}

/// Testing the tag of a value.
pub(crate) proof fn lemma_tag_test(a: G, b: G, m: Matching, expected: i64, i: int, ahead: Set<Seq<char>>)
    requires
        shape::leads(a, b, ahead),
        shape::in_use(m.tag, b.f.registers as nat),
        ahead.contains(translation::match_arm(m, i)),
        ahead.contains(translation::match_next(m, i)),
    ensures
        translation::tag_test(b, m, expected, i) matches Some(c) ==> {
            &&& shape::leads(a, c, ahead)
            &&& shape::code_kept(b.f.blocks, c.f.blocks)
            &&& b.f.registers <= c.f.registers
            &&& c.f.match_index == b.f.match_index
            &&& c.f.variables == b.f.variables
            &&& only_tests(b, c, m.n, i as usize)
        },
{
    reveal(translation::tag_test);
    lemma_int(a, b, expected, ahead);
    if let Some((g1, x)) = translation::int_const(b, expected) {
        let eq = Inst::Eq(m.tag, x, g1.f.registers);
        shape::lemma_def(a, g1, eq, ahead);
        if let Some((g2, cond)) = translation::def(g1, eq) {
            let yes = translation::match_arm(m, i);
            let no = translation::match_next(m, i);
            let jump = Inst::Jcond(cond, yes, no);
            assert(shape::targets(jump) =~= seq![yes, no]);
            shape::lemma_emit(a, g2, jump, ahead);
            let c = translation::emit(g2, jump);
            shape::lemma_code_then(b.f.blocks, g1.f.blocks, g2.f.blocks);
            shape::lemma_code_then(b.f.blocks, g2.f.blocks, c.f.blocks);
        }
    }
}

/// Testing whether an arm matches.
pub(crate) proof fn lemma_arm_test(
    a: G,
    b: G,
    m: Matching,
    pattern: MatchPattern,
    i: int,
    ahead: Set<Seq<char>>,
)
    requires
        shape::leads(a, b, ahead),
        shape::in_use(m.value, b.f.registers as nat),
        shape::in_use(m.tag, b.f.registers as nat),
        a.f.match_index <= m.n < b.f.match_index,
        0 <= i <= usize::MAX,
        unopened(b, m.n, i),
        ahead.contains(translation::match_arm(m, i)),
        pattern is Wildcard || ahead.contains(translation::match_next(m, i)),
    ensures
        translation::arm_test(b, m, pattern, i) matches Some(c) ==> {
            &&& shape::leads(a, c, ahead)
            &&& shape::code_kept(b.f.blocks, c.f.blocks)
            &&& b.f.registers <= c.f.registers
            &&& c.f.match_index == b.f.match_index
            &&& c.f.variables == b.f.variables
            &&& only_tests(b, c, m.n, i as usize)
        },
{
    reveal(translation::arm_test);
    let jump = Inst::Jump(translation::match_arm(m, i));
    assert(shape::targets(jump) =~= seq![translation::match_arm(m, i)]);
    match pattern {
        MatchPattern::Wildcard => {
            shape::lemma_emit(a, b, jump, ahead);
        },
        MatchPattern::Tuple(items) => {
            let at = i as usize;
            assert(tests_unopened(b, m.n, at, 0)) by {
                assert forall|u: usize| 0 <= u implies !assoc::defined(
                    b.f.blocks,
                    #[trigger] labels::named(Label::MatchTest(m.n, at, u)),
                ) by {
                    assert(pending(Label::MatchTest(m.n, at, u), m.n, i));
                }
            }
            let fail = translation::match_next(m, i);
            lemma_tuple_test(a, b, items@, 0, m.value, m.owner, m.n, at, 0, fail, ahead);
            if let Some((g1, _)) = translation::tuple_test(
                b,
                items@,
                0,
                m.value,
                m.owner,
                translation::label2("match-test-"@, m.n, at),
                0,
                fail,
            ) {
                shape::lemma_emit(a, g1, jump, ahead);
                let c = translation::emit(g1, jump);
                shape::lemma_code_then(b.f.blocks, g1.f.blocks, c.f.blocks);
                assert forall|l: Label|
                    !is_test(l, m.n, at) && !assoc::defined(
                        b.f.blocks,
                        labels::named(l),
                    ) implies !assoc::defined(c.f.blocks, #[trigger] labels::named(l)) by {
                    assert(!assoc::defined(g1.f.blocks, labels::named(l)));
                }
            }
        },
        MatchPattern::Integer(expected) => {
            lemma_tag_test(a, b, m, expected, i, ahead);
        },
        MatchPattern::Variant(owner, variant) => {
            if let Some(index) = translation::variant_index(b.cg.module, owner@, variant@) {
                lemma_tag_test(a, b, m, index as i64, i, ahead);
            }
        },
        MatchPattern::Destructure(owner, variant, _) => {
            if let Some(index) = translation::variant_index(b.cg.module, owner@, variant@) {
                lemma_tag_test(a, b, m, index as i64, i, ahead);
            }
        },
        _ => {},
    }
}

} // verus!
