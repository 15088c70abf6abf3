//! Which tuples a generated pattern lets through, and what patterns bind.

use vstd::prelude::*;
use crate::assoc;
use crate::ast::MatchPattern;
use crate::ir::{Inst, Mod, Value};
use crate::machine;
use crate::machine::{Env, Val, World};
use crate::running;
use crate::running::matches::{agree, fits, member_of, tag_of};
use crate::running::{any, here, part, reaches, Blocks, Conf};
use crate::shape;
use crate::shape::parts;
use crate::translation;
use crate::translation::G;
use crate::types;

verus! {

/// Whether a value has members that can be read.
pub open spec fn readable(v: Val) -> bool {
    v is Pointer || v is Struct
}

/// Whether the patterns from position `k` on fit the members of a tuple, one by one. There
/// is no answer if a member that has to be compared is not what it is compared with.
pub open spec fn tuple_fits(
    w: World,
    e: Env,
    m: Mod,
    items: Seq<MatchPattern>,
    k: int,
    value: Val,
    tuple: Seq<char>,
) -> Option<bool>
    decreases items, items.len() - k,
{
    if k < 0 || k >= items.len() {
        Some(true)
    } else {
        let item = member_of(w, e, value, k as usize as u32, tuple);
        let here = match items[k] {
            MatchPattern::Wildcard => Some(true),
            MatchPattern::Binding(_) => Some(true),
            MatchPattern::Integer(n) => match item {
                Val::Int(_, x) if readable(value) => Some(x == n),
                _ => None,
            },
            MatchPattern::Variant(owner, variant) => match tag_of(w, e, m, item, owner@) {
                Val::Int(_, x) if readable(value) && (readable(item) || !assoc::defined(
                    m.boxed_enums,
                    owner@,
                )) => Some(fits(m, MatchPattern::Variant(owner, variant), x)),
                _ => None,
            },
            MatchPattern::Tuple(inner) => match translation::member_type(m, tuple, k) {
                Some(t) if readable(value) => tuple_fits(
                    w,
                    e,
                    m,
                    inner@,
                    0,
                    item,
                    types::name_of(t),
                ),
                _ => None,
            },
            _ => None,
        };
        match here {
            Some(true) => tuple_fits(w, e, m, items, k + 1, value, tuple),
            _ => here,
        }
    }
}

/// What fits depends on what the state has in memory, and on the enums and structs.
pub proof fn lemma_same_state(
    w: World,
    a: Env,
    b: Env,
    m: Mod,
    items: Seq<MatchPattern>,
    k: int,
    value: Val,
    tuple: Seq<char>,
)
    requires
        a.memory == b.memory,
    ensures
        tuple_fits(w, a, m, items, k, value, tuple) == tuple_fits(w, b, m, items, k, value, tuple),
    decreases items, items.len() - k,
{
    if 0 <= k < items.len() {
        lemma_same_state(w, a, b, m, items, k + 1, value, tuple);
        let item = member_of(w, a, value, k as usize as u32, tuple);
        assert(item == member_of(w, b, value, k as usize as u32, tuple));
        if let MatchPattern::Tuple(inner) = items[k] {
            if let Some(t) = translation::member_type(m, tuple, k) {
                lemma_same_state(w, a, b, m, inner@, 0, item, types::name_of(t));
            }
        }
    }
}

/// What fits depends on the enums and structs of a program only.
pub proof fn lemma_same_types(
    w: World,
    e: Env,
    a: Mod,
    b: Mod,
    items: Seq<MatchPattern>,
    k: int,
    value: Val,
    tuple: Seq<char>,
)
    requires
        running::matches::same_types(a, b),
    ensures
        tuple_fits(w, e, a, items, k, value, tuple) == tuple_fits(w, e, b, items, k, value, tuple),
    decreases items, items.len() - k,
{
    if 0 <= k < items.len() {
        lemma_same_types(w, e, a, b, items, k + 1, value, tuple);
        let item = member_of(w, e, value, k as usize as u32, tuple);
        assert(translation::member_type(a, tuple, k) == translation::member_type(b, tuple, k)) by {
            reveal(translation::member_type);
        }
        match items[k] {
            MatchPattern::Tuple(inner) => {
                if let Some(t) = translation::member_type(a, tuple, k) {
                    lemma_same_types(w, e, a, b, inner@, 0, item, types::name_of(t));
                }
            },
            MatchPattern::Variant(owner, variant) => {
                if let Val::Int(_, x) = tag_of(w, e, a, item, owner@) {
                    running::matches::lemma_same_fits(
                        a,
                        b,
                        MatchPattern::Variant(owner, variant),
                        x,
                    );
                }
            },
            _ => {},
        }
    }
}

/// An item is tested: control goes on in the next block if it is the number that is
/// expected, and else to `fail`.
proof fn lemma_item_test(
    w: World,
    a: G,
    g: G,
    item: Value,
    expected: i64,
    n: usize,
    i: usize,
    tests: usize,
    fail: Seq<char>,
    h: G,
    more: usize,
    blocks: Blocks,
    e: Env,
    bits: u32,
    x: int,
) -> (after: Env)
    requires
        shape::leads(a, g, any()),
        shape::in_use(item, g.f.registers as nat),
        a.f.match_index <= n < g.f.match_index,
        parts::tests_unopened(g, n, i, tests),
        translation::item_test(
            g,
            item,
            expected,
            translation::label2("match-test-"@, n, i),
            tests,
            fail,
        ) == Some((h, more)),
        part(h, blocks),
        machine::value_of(w, e, item) == Val::Int(bits, x),
    ensures
        part(g, blocks),
        agree(e, after, g.f.registers as nat),
        reaches(
            w,
            blocks,
            here(g, e),
            if x == expected {
                here(h, after)
            } else {
                Conf::At(fail, 0, after)
            },
        ),
{
    reveal(translation::item_test);
    let prefix = translation::label2("match-test-"@, n, i);
    running::lemma_ready(g);
    parts::lemma_int(a, g, expected, any());
    let (g1, c) = translation::int_const(g, expected)->0;
    let eq = Inst::Eq(item, c, g1.f.registers);
    shape::lemma_def(a, g1, eq, any());
    let (g2, cond) = translation::def(g1, eq)->0;
    let pass = translation::label(prefix + "-"@, tests);
    let jump = Inst::Jcond(cond, pass, fail);
    shape::lemma_emit(a, g2, jump, any());
    let g3 = translation::emit(g2, jump);
    let constant = Inst::ConstInt(expected, g.f.registers);
    let e1 = machine::performed(w, e, constant);
    let e2 = machine::performed(w, e1, eq);
    running::lemma_opened(g3, pass, blocks, e2);
    running::lemma_emitted(w, g2, jump, blocks, e2);
    running::lemma_defined(w, g1, eq, g2, cond, blocks, e1);
    running::lemma_defined(w, g, constant, g1, c, blocks, e);
    assert(machine::value_of(w, e1, item) == machine::value_of(w, e, item));
    assert(machine::value_of(w, e1, c) == Val::Int(64, expected as int));
    assert(machine::value_of(w, e2, cond) == machine::truth(x == expected));
    running::lemma_on(w, blocks, here(g, e), here(g1, e1), here(g2, e2));
    running::lemma_on(
        w,
        blocks,
        here(g, e),
        here(g2, e2),
        running::after(w, g2.f.current, g2.f.blocks.last().1.len() as int, jump, e2),
    );
    e2
}

/// A member is read.
proof fn lemma_read_member(
    w: World,
    a: G,
    g: G,
    value: Value,
    k: int,
    tuple: Seq<char>,
    h: G,
    item: Value,
    blocks: Blocks,
    e: Env,
) -> (after: Env)
    requires
        shape::leads(a, g, any()),
        shape::in_use(value, g.f.registers as nat),
        translation::member(g, value, k, true, tuple) == Some((h, item)),
        shape::code_kept(h.f.blocks, blocks),
        assoc::distinct(blocks),
        readable(machine::value_of(w, e, value)),
    ensures
        part(g, blocks),
        agree(e, after, g.f.registers as nat),
        reaches(w, blocks, here(g, e), here(h, after)),
        machine::value_of(w, after, item) == member_of(
            w,
            e,
            machine::value_of(w, e, value),
            k as usize as u32,
            tuple,
        ),
{
    let i = Inst::AccessStructMember(value, k as usize, g.f.registers, true, tuple);
    running::lemma_defined(w, g, i, h, item, blocks, e);
    machine::performed(w, e, i)
}

/// A tuple is tested member by member: control comes behind the test exactly if the
/// patterns fit, and else goes to `fail`.
#[verifier::rlimit(40)]
pub proof fn lemma_tuple_test(
    w: World,
    a: G,
    g: G,
    items: Seq<MatchPattern>,
    k: int,
    value: Value,
    tuple: Seq<char>,
    n: usize,
    i: usize,
    tests: usize,
    fail: Seq<char>,
    h: G,
    more: usize,
    blocks: Blocks,
    e: Env,
) -> (after: Env)
    requires
        shape::sound(a),
        shape::leads(a, g, any()),
        shape::in_use(value, g.f.registers as nat),
        a.f.match_index <= n < g.f.match_index,
        parts::tests_unopened(g, n, i, tests),
        translation::tuple_test(
            g,
            items,
            k,
            value,
            tuple,
            translation::label2("match-test-"@, n, i),
            tests,
            fail,
        ) == Some((h, more)),
        part(h, blocks),
        tuple_fits(
            w,
            e,
            g.cg.module,
            items,
            k,
            machine::value_of(w, e, value),
            tuple,
        ) is Some,
    ensures
        part(g, blocks),
        agree(e, after, g.f.registers as nat),
        reaches(
            w,
            blocks,
            here(g, e),
            if tuple_fits(
                w,
                e,
                g.cg.module,
                items,
                k,
                machine::value_of(w, e, value),
                tuple,
            )->0 {
                here(h, after)
            } else {
                Conf::At(fail, 0, after)
            },
        ),
    decreases items, items.len() - k,
{
    reveal(translation::tuple_test);
    let prefix = translation::label2("match-test-"@, n, i);
    let md = g.cg.module;
    let x = machine::value_of(w, e, value);
    if k < 0 || k >= items.len() {
        running::lemma_here(w, blocks, here(g, e));
        e
    } else if items[k] is Wildcard || items[k] is Binding {
        lemma_tuple_test(w, a, g, items, k + 1, value, tuple, n, i, tests, fail, h, more, blocks, e)
    } else {
        parts::lemma_member(a, g, value, k, true, tuple, any());
        let (g1, item) = translation::member(g, value, k, true, tuple)->0;
        let y = member_of(w, e, x, k as usize as u32, tuple);
        // where the test of this item ends
        let (g2, between) = match items[k] {
            MatchPattern::Tuple(inner) => {
                let t = translation::member_type(g1.cg.module, tuple, k)->0;
                parts::lemma_tuple_test(
                    a,
                    g1,
                    inner@,
                    0,
                    item,
                    types::name_of(t),
                    n,
                    i,
                    tests,
                    fail,
                    any(),
                );
                translation::tuple_test(
                    g1,
                    inner@,
                    0,
                    item,
                    types::name_of(t),
                    prefix,
                    tests,
                    fail,
                )->0
            },
            MatchPattern::Integer(expected) => {
                parts::lemma_item_test(a, g1, item, expected, n, i, tests, fail, any());
                translation::item_test(g1, item, expected, prefix, tests, fail)->0
            },
            MatchPattern::Variant(owner, variant) => {
                parts::lemma_variant_tag(a, g1, item, owner@, any());
                let (t, tag) = translation::variant_tag(g1, item, owner@)->0;
                let index = translation::variant_index(t.cg.module, owner@, variant@)->0;
                parts::lemma_item_test(a, t, tag, index as i64, n, i, tests, fail, any());
                translation::item_test(t, tag, index as i64, prefix, tests, fail)->0
            },
            _ => arbitrary(),
        };
        assert(g2.cg.module == md) by {
            running::matches::lemma_test_module(g1, items[k], item, tuple, k, prefix, tests, fail);
        }
        parts::lemma_tuple_test(a, g2, items, k + 1, value, tuple, n, i, between, fail, any());
        shape::lemma_code_then(g2.f.blocks, h.f.blocks, blocks);
        assert(part(g2, blocks));
        let (e2, yes) = match items[k] {
            MatchPattern::Tuple(inner) => {
                let t = translation::member_type(g1.cg.module, tuple, k)->0;
                shape::lemma_code_then(g1.f.blocks, g2.f.blocks, blocks);
                let e1 = lemma_read_member(w, a, g, value, k, tuple, g1, item, blocks, e);
                lemma_same_state(w, e, e1, md, inner@, 0, y, types::name_of(t));
                let e2 = lemma_tuple_test(
                    w,
                    a,
                    g1,
                    inner@,
                    0,
                    item,
                    types::name_of(t),
                    n,
                    i,
                    tests,
                    fail,
                    g2,
                    between,
                    blocks,
                    e1,
                );
                let yes = tuple_fits(w, e, md, inner@, 0, y, types::name_of(t))->0;
                running::lemma_on(
                    w,
                    blocks,
                    here(g, e),
                    here(g1, e1),
                    if yes {
                        here(g2, e2)
                    } else {
                        Conf::At(fail, 0, e2)
                    },
                );
                (e2, yes)
            },
            MatchPattern::Integer(expected) => {
                let bits = y->Int_0;
                let z = y->Int_1;
                shape::lemma_code_then(g1.f.blocks, g2.f.blocks, blocks);
                let e1 = lemma_read_member(w, a, g, value, k, tuple, g1, item, blocks, e);
                let e2 = lemma_item_test(
                    w,
                    a,
                    g1,
                    item,
                    expected,
                    n,
                    i,
                    tests,
                    fail,
                    g2,
                    between,
                    blocks,
                    e1,
                    bits,
                    z,
                );
                running::lemma_on(
                    w,
                    blocks,
                    here(g, e),
                    here(g1, e1),
                    if z == expected {
                        here(g2, e2)
                    } else {
                        Conf::At(fail, 0, e2)
                    },
                );
                (e2, z == expected)
            },
            MatchPattern::Variant(owner, variant) => {
                let (t, tag) = translation::variant_tag(g1, item, owner@)->0;
                let index = translation::variant_index(t.cg.module, owner@, variant@)->0;
                let v = tag_of(w, e, md, y, owner@);
                let bits = v->Int_0;
                let z = v->Int_1;
                shape::lemma_code_then(t.f.blocks, g2.f.blocks, blocks);
                shape::lemma_code_then(g1.f.blocks, t.f.blocks, blocks);
                running::matches::lemma_position(md, owner@, variant@, z);
                let e1 = lemma_read_member(w, a, g, value, k, tuple, g1, item, blocks, e);
                let e3 = running::matches::lemma_tag(w, g1, item, owner@, t, tag, blocks, e1);
                let e2 = lemma_item_test(
                    w,
                    a,
                    t,
                    tag,
                    index as i64,
                    n,
                    i,
                    tests,
                    fail,
                    g2,
                    between,
                    blocks,
                    e3,
                    bits,
                    z,
                );
                running::lemma_on(w, blocks, here(g, e), here(g1, e1), here(t, e3));
                running::lemma_on(
                    w,
                    blocks,
                    here(g, e),
                    here(t, e3),
                    if z == index as i64 {
                        here(g2, e2)
                    } else {
                        Conf::At(fail, 0, e2)
                    },
                );
                (e2, z == index as i64)
            },
            _ => (e, false),
        };
        assert(agree(e, e2, g.f.registers as nat));
        if yes {
            lemma_same_state(w, e, e2, md, items, k + 1, x, tuple);
            assert(machine::value_of(w, e2, value) == x);
            let e4 = lemma_tuple_test(
                w,
                a,
                g2,
                items,
                k + 1,
                value,
                tuple,
                n,
                i,
                between,
                fail,
                h,
                more,
                blocks,
                e2,
            );
            running::lemma_on(
                w,
                blocks,
                here(g, e),
                here(g2, e2),
                if tuple_fits(w, e, md, items, k + 1, x, tuple)->0 {
                    here(h, e4)
                } else {
                    Conf::At(fail, 0, e4)
                },
            );
            e4
        } else {
            e2
        }
    }
}

} // verus!
