//! Which arm of a generated match is run, and what the match gives.

use vstd::prelude::*;
use crate::assoc;
use crate::ast::{Expression, ExpressionNode, MatchPattern};
use crate::ir;
use crate::ir::{Inst, Mod, Value};
use crate::labels;
use crate::labels::Label;
use crate::machine;
use crate::machine::{Env, Val, World};
use crate::running;
use crate::running::tuples;
use crate::running::{any, here, part, reaches, Blocks, Conf};
use crate::shape;
use crate::shape::{expressions, parts};
use crate::translation;
use crate::translation::{Matching, G};
use crate::types;
use crate::types::Ty;

verus! {

// ---------------------------------------------------------------------------
// What fits

/// Whether two states have the same memory, and the same values in the first `n` registers.
pub open spec fn agree(a: Env, b: Env, n: nat) -> bool {
    &&& a.memory == b.memory
    &&& a.events == b.events
    &&& forall|r: usize| r < n ==> #[trigger] a.registers[r] == b.registers[r]
}

/// Whether `p` is the position of a variant among those of its enum.
pub open spec fn is_position(m: Mod, owner: Seq<char>, variant: Seq<char>, p: int) -> bool {
    assoc::get(m.enums, owner) matches Some(variants) && {
        &&& 0 <= p < variants.len()
        &&& variants[p] == variant
        &&& forall|q: int| 0 <= q < p ==> #[trigger] variants[q] != variant
    }
}

/// Whether a pattern fits a value with the number `tag`: every value, the one that is the
/// integer of the pattern, or the one whose number is the position of the variant.
pub open spec fn fits(m: Mod, pattern: MatchPattern, tag: int) -> bool {
    match pattern {
        MatchPattern::Wildcard => true,
        MatchPattern::Integer(n) => tag == n,
        MatchPattern::Variant(owner, variant) => exists|p: int|
            #[trigger] is_position(m, owner@, variant@, p) && tag == p as i64,
        MatchPattern::Destructure(owner, variant, _) => exists|p: int|
            #[trigger] is_position(m, owner@, variant@, p) && tag == p as i64,
        _ => false,
    }
}

/// Whether a pattern fits a value with the tag `tag`: a pattern for a tuple goes by the
/// members of the value, another one by the tag. There is no answer if the value is not of
/// the kind that the pattern is for.
pub open spec fn decides(
    w: World,
    e: Env,
    m: Mod,
    owner: Seq<char>,
    pattern: MatchPattern,
    value: Val,
    tag: Val,
) -> Option<bool> {
    match pattern {
        MatchPattern::Wildcard => Some(true),
        MatchPattern::Tuple(items) => tuples::tuple_fits(w, e, m, items@, 0, value, owner),
        MatchPattern::Integer(_) => match tag {
            Val::Int(_, x) => Some(fits(m, pattern, x)),
            _ => None,
        },
        MatchPattern::Variant(..) => match tag {
            Val::Int(_, x) => Some(fits(m, pattern, x)),
            _ => None,
        },
        MatchPattern::Destructure(..) => match tag {
            Val::Int(_, x) => Some(fits(m, pattern, x)),
            _ => None,
        },
        _ => None,
    }
}

/// What fits depends on what the state has in memory.
proof fn lemma_decides_same(
    w: World,
    a: Env,
    b: Env,
    m: Mod,
    owner: Seq<char>,
    pattern: MatchPattern,
    value: Val,
    tag: Val,
)
    requires
        a.memory == b.memory,
    ensures
        decides(w, a, m, owner, pattern, value, tag) == decides(
            w,
            b,
            m,
            owner,
            pattern,
            value,
            tag,
        ),
{
    if let MatchPattern::Tuple(items) = pattern {
        tuples::lemma_same_state(w, a, b, m, items@, 0, value, owner);
    }
}

/// The first position of a name.
pub proof fn lemma_spot(names: Seq<Seq<char>>, name: Seq<char>, k: int)
    requires
        0 <= k <= names.len(),
        forall|q: int| 0 <= q < k ==> #[trigger] names[q] != name,
    ensures
        translation::spot(names, name, k) matches Some(p) ==> 0 <= p < names.len() && names[p]
            == name && forall|q: int| 0 <= q < p ==> #[trigger] names[q] != name,
    decreases names.len() - k,
{
    reveal(translation::spot);
    if k < names.len() && names[k] != name {
        lemma_spot(names, name, k + 1);
    }
}

/// The position of a variant.
pub proof fn lemma_position(m: Mod, owner: Seq<char>, variant: Seq<char>, tag: int)
    ensures
        translation::variant_index(m, owner, variant) matches Some(p) ==> is_position(
            m,
            owner,
            variant,
            p,
        ) && (tag == p as i64 <==> exists|q: int|
            #[trigger] is_position(m, owner, variant, q) && tag == q as i64),
{
    reveal(translation::variant_index);
    if let Some(variants) = assoc::get(m.enums, owner) {
        lemma_spot(variants, variant, 0);
        if let Some(p) = translation::variant_index(m, owner, variant) {
            assert(is_position(m, owner, variant, p));
            assert forall|q: int| #[trigger] is_position(m, owner, variant, q) implies q == p by {
                if q < p {
                    assert(variants[q] != variant);
                } else if p < q {
                    assert(variants[p] != variant);
                }
            }
        }
    }
}

// ---------------------------------------------------------------------------
// One arm

/// A tag is tested: control goes to the arm exactly if the value has the expected number,
/// and else to the next test.
pub proof fn lemma_tag_test(
    w: World,
    g: G,
    m: Matching,
    expected: i64,
    i: int,
    h: G,
    blocks: Blocks,
    e: Env,
    bits: u32,
    tag: int,
) -> (after: Env)
    requires
        shape::sound(g),
        shape::in_use(m.tag, g.f.registers as nat),
        translation::tag_test(g, m, expected, i) == Some(h),
        part(h, blocks),
        machine::value_of(w, e, m.tag) == Val::Int(bits, tag),
    ensures
        part(g, blocks),
        agree(e, after, g.f.registers as nat),
        reaches(
            w,
            blocks,
            here(g, e),
            Conf::At(
                if tag == expected {
                    translation::match_arm(m, i)
                } else {
                    translation::match_next(m, i)
                },
                0,
                after,
            ),
        ),
{
    reveal(translation::tag_test);
    running::lemma_ready(g);
    parts::lemma_int(g, g, expected, any());
    let (g1, x) = translation::int_const(g, expected)->0;
    let eq = Inst::Eq(m.tag, x, g1.f.registers);
    shape::lemma_def(g, g1, eq, any());
    let (g2, cond) = translation::def(g1, eq)->0;
    let jump = Inst::Jcond(cond, translation::match_arm(m, i), translation::match_next(m, i));
    let constant = Inst::ConstInt(expected, g.f.registers);
    let e1 = machine::performed(w, e, constant);
    let e2 = machine::performed(w, e1, eq);
    running::lemma_emitted(w, g2, jump, blocks, e2);
    running::lemma_defined(w, g1, eq, g2, cond, blocks, e1);
    running::lemma_defined(w, g, constant, g1, x, blocks, e);
    assert(g1.f.registers == g.f.registers + 1);
    assert(machine::value_of(w, e1, m.tag) == machine::value_of(w, e, m.tag));
    assert(machine::value_of(w, e1, x) == Val::Int(64, expected as int));
    assert(machine::value_of(w, e2, cond) == machine::truth(tag == expected));
    running::lemma_on(w, blocks, here(g, e), here(g1, e1), here(g2, e2));
    running::lemma_on(
        w,
        blocks,
        here(g, e),
        here(g2, e2),
        running::after(w, g2.f.current, g2.f.blocks.last().1.len() as int, jump, e2),
    );
    e2
}

/// An arm is tested: control goes to the arm exactly if its pattern fits, and else to the
/// next test.
pub proof fn lemma_arm_test(
    w: World,
    a: G,
    g: G,
    m: Matching,
    pattern: MatchPattern,
    count: nat,
    i: int,
    h: G,
    blocks: Blocks,
    e: Env,
) -> (after: Env)
    requires
        between(a, g, m, count, i),
        i < count,
        translation::arm_test(g, m, pattern, i) == Some(h),
        part(h, blocks),
        decides(
            w,
            e,
            g.cg.module,
            m.owner,
            pattern,
            machine::value_of(w, e, m.value),
            machine::value_of(w, e, m.tag),
        ) is Some,
    ensures
        part(g, blocks),
        agree(e, after, g.f.registers as nat),
        reaches(
            w,
            blocks,
            here(g, e),
            Conf::At(
                if decides(
                    w,
                    e,
                    g.cg.module,
                    m.owner,
                    pattern,
                    machine::value_of(w, e, m.value),
                    machine::value_of(w, e, m.tag),
                )->0 {
                    translation::match_arm(m, i)
                } else {
                    translation::match_next(m, i)
                },
                0,
                after,
            ),
        ),
{
    reveal(translation::arm_test);
    let jump = Inst::Jump(translation::match_arm(m, i));
    running::lemma_ready(g);
    match pattern {
        MatchPattern::Wildcard => {
            running::lemma_emitted(w, g, jump, blocks, e);
            e
        },
        MatchPattern::Tuple(items) => {
            let at = i as usize;
            let fail = translation::match_next(m, i);
            assert(parts::tests_unopened(g, m.n, at, 0)) by {
                assert forall|u: usize| 0 <= u implies !assoc::defined(
                    g.f.blocks,
                    #[trigger] labels::named(Label::MatchTest(m.n, at, u)),
                ) by {
                    assert(parts::pending(Label::MatchTest(m.n, at, u), m.n, i));
                }
            }
            let (g1, more) = translation::tuple_test(
                g,
                items@,
                0,
                m.value,
                m.owner,
                translation::label2("match-test-"@, m.n, at),
                0,
                fail,
            )->0;
            parts::lemma_tuple_test(a, g, items@, 0, m.value, m.owner, m.n, at, 0, fail, any());
            running::lemma_emitted(w, g1, jump, blocks, e);
            let e1 = tuples::lemma_tuple_test(
                w,
                a,
                g,
                items@,
                0,
                m.value,
                m.owner,
                m.n,
                at,
                0,
                fail,
                g1,
                more,
                blocks,
                e,
            );
            if tuples::tuple_fits(
                w,
                e,
                g.cg.module,
                items@,
                0,
                machine::value_of(w, e, m.value),
                m.owner,
            )->0 {
                running::lemma_emitted(w, g1, jump, blocks, e1);
                running::lemma_on(
                    w,
                    blocks,
                    here(g, e),
                    here(g1, e1),
                    Conf::At(translation::match_arm(m, i), 0, e1),
                );
            }
            e1
        },
        MatchPattern::Integer(n) => {
            let tag = machine::value_of(w, e, m.tag);
            lemma_tag_test(w, g, m, n, i, h, blocks, e, tag->Int_0, tag->Int_1)
        },
        MatchPattern::Variant(owner, variant) => {
            let tag = machine::value_of(w, e, m.tag);
            lemma_position(g.cg.module, owner@, variant@, tag->Int_1);
            let p = translation::variant_index(g.cg.module, owner@, variant@)->0;
            lemma_tag_test(w, g, m, p as i64, i, h, blocks, e, tag->Int_0, tag->Int_1)
        },
        MatchPattern::Destructure(owner, variant, _) => {
            let tag = machine::value_of(w, e, m.tag);
            lemma_position(g.cg.module, owner@, variant@, tag->Int_1);
            let p = translation::variant_index(g.cg.module, owner@, variant@)->0;
            lemma_tag_test(w, g, m, p as i64, i, h, blocks, e, tag->Int_0, tag->Int_1)
        },
        _ => e,
    }
}

/// The places in the code of an arm.
pub struct Arm {
    /// Before the arm, in the scopes of the match
    pub start: G,
    /// Behind the variables that the pattern binds
    pub bound: G,
    /// Behind the value of the arm
    pub done: G,
    /// The value of the arm
    pub value: Value,
}

/// Whether places are those of an arm, and its code is part of a function.
pub open spec fn is_arm(
    a: Arm,
    m: Matching,
    pattern: MatchPattern,
    value: ExpressionNode,
    blocks: Blocks,
) -> bool {
    &&& translation::arm_bind(translation::enter(a.start), m, pattern) == Some(a.bound)
    &&& translation::expr(a.bound, value, true) == Some((a.done, a.value))
    &&& part(a.start, blocks)
    &&& part(a.bound, blocks)
    &&& part(a.done, blocks)
    &&& shape::in_use(a.value, a.done.f.registers as nat)
}

/// Where control goes behind an arm: behind the match, with the value of the arm in the
/// variable that holds the value of the match.
pub open spec fn arm_ends(w: World, blocks: Blocks, a: Arm, m: Matching) -> bool {
    forall|e: Env|
        #![trigger here(a.done, e)]
        !ir::current_terminated(a.done.f) ==> reaches(
            w,
            blocks,
            here(a.done, e),
            Conf::At(
                translation::match_end(m),
                0,
                if m.result is Void {
                    e
                } else {
                    machine::stored(
                        e,
                        (w.place)(translation::match_result(m)),
                        machine::fitted(machine::value_of(w, e, a.value), (w.kind)(m.result)),
                    )
                },
            ),
        )
}

/// What is known of a match between its arms.
pub open spec fn between(a: G, b: G, m: Matching, count: nat, i: int) -> bool {
    &&& shape::sound(a)
    &&& shape::leads(a, b, any())
    &&& shape::in_use(m.value, b.f.registers as nat)
    &&& shape::in_use(m.tag, b.f.registers as nat)
    &&& a.f.match_index <= m.n < b.f.match_index
    &&& 0 <= i <= count <= usize::MAX
    &&& m.count == count
    &&& parts::unopened(b, m.n, i)
    &&& m.result is Void || assoc::defined(b.f.variables, translation::match_result(m))
}

/// The code of an arm is part of the function, and control goes behind the match from its
/// end. Behind it comes the test of the next arm.
proof fn lemma_arm(
    w: World,
    a: G,
    g: G,
    m: Matching,
    cases: Seq<(MatchPattern, ExpressionNode)>,
    i: int,
    h: G,
    blocks: Blocks,
) -> (r: (Arm, G))
    requires
        between(a, g, m, cases.len(), i),
        i < cases.len(),
        translation::arms(g, m, cases, i) == Some(h),
        part(h, blocks),
    ensures
        part(g, blocks),
        is_arm(r.0, m, cases[i].0, cases[i].1, blocks),
        arm_ends(w, blocks, r.0, m),
        ({
            let tested = translation::arm_test(g, m, cases[i].0, i);
            &&& tested is Some
            &&& part(tested->0, blocks)
            &&& r.0.start == translation::block(tested->0, translation::match_arm(m, i))
            &&& r.0.start.cg.scopes == g.cg.scopes
            &&& r.0.start.f.variables == g.f.variables
            &&& g.f.registers <= r.0.start.f.registers
        }),
        !(cases[i].0 is Wildcard) && i + 1 < cases.len() ==> {
            &&& between(a, r.1, m, cases.len(), i + 1)
            &&& translation::arms(r.1, m, cases, i + 1) == Some(h)
            &&& part(r.1, blocks)
            &&& g.f.registers <= r.1.f.registers
            &&& r.1.f.current == translation::match_next(m, i)
            &&& r.1.f.blocks.last().1.len() == 0
            &&& r.1.cg.scopes == g.cg.scopes
        },
    decreases cases.len() - i,
{
    reveal(translation::arms);
    reveal(translation::expr);
    let at = i as usize;
    let arm_label = Label::MatchArm(m.n, at);
    let arm = translation::match_arm(m, i);
    assert(labels::named(arm_label) == arm);
    running::lemma_ready(g);
    parts::lemma_arm_test(a, g, m, cases[i].0, i, any());
    let g1 = translation::arm_test(g, m, cases[i].0, i)->0;
    expressions::lemma_unopened(g, g1, m.n, i, arm_label);
    shape::lemma_block(a, g1, arm_label, any());
    let g2 = translation::block(g1, arm);
    let g3 = translation::enter(g2);
    shape::lemma_enter(g2, any());
    shape::lemma_start(g3, any());
    parts::lemma_arm_bind(g3, g3, m, cases[i].0, any());
    let g4 = translation::arm_bind(g3, m, cases[i].0)->0;
    running::lemma_ready(g4);
    expressions::lemma_expr(g4, cases[i].1, true, any());
    let (g5, v) = translation::expr(g4, cases[i].1, true)->0;
    shape::lemma_then(g3, g4, g5, any());
    shape::lemma_kept(g3, g5, any(), translation::match_result(m));
    parts::lemma_arm_end(g3, g5, m, v, any());
    let g6 = translation::arm_end(g5, m, v);
    shape::lemma_leave(a, g2, g6, any());
    let g7 = translation::leave(g6);
    assert(g7.f == g6.f && g3.f == g2.f) by {
        reveal(translation::leave);
        reveal(translation::enter);
    }
    let next_label = Label::MatchNext(m.n, (i + 1) as usize);
    let next = labels::named(next_label);
    let g8 = translation::block(g7, next);
    let stop = cases[i].0 is Wildcard || i + 1 >= cases.len();
    if !stop {
        assert(translation::match_next(m, i) == next);
        lemma_behind_arm(a, g, m, i, g1, g3, g6, g7);
        shape::lemma_block(a, g7, next_label, any());
        assert(parts::unopened(g8, m.n, i + 1)) by {
            assert forall|l: Label| parts::pending(l, m.n, i + 1) implies !assoc::defined(
                g8.f.blocks,
                #[trigger] labels::named(l),
            ) by {
                assert(parts::pending(l, m.n, i));
                if labels::named(l) == next {
                    labels::lemma_named(l, next_label);
                }
                assert(!assoc::defined(g7.f.blocks, labels::named(l)));
            }
        }
        assert(g8.cg.scopes == g.cg.scopes && g8.f.current == next) by {
            lemma_test_scopes(g, m, cases[i].0, i, g1);
            lemma_scopes_back(g2, g3, g6, g7);
            reveal(ir::opened);
        }
        assert(between(a, g8, m, cases.len(), i + 1));
        let later = lemma_arm(w, a, g8, m, cases, i + 1, h, blocks);
        running::lemma_opened(g7, next, blocks, arbitrary());
        assert(g8.f.blocks.last().1.len() == 0) by {
            reveal(ir::opened);
        }
    }
    assert(part(g7, blocks));
    assert(part(g6, blocks)) by {
        running::lemma_same_code(g6, g7, blocks);
    }
    lemma_arm_end(w, g5, m, v, blocks, arbitrary());
    running::lemma_part(g4, g5, blocks);
    running::lemma_part(g3, g4, blocks);
    running::lemma_same_code(g2, g3, blocks);
    running::lemma_opened(g1, arm, blocks, arbitrary());
    shape::lemma_code_then(g.f.blocks, g1.f.blocks, blocks);
    assert forall|e: Env|
        #![trigger here(g5, e)]
        !ir::current_terminated(g5.f) implies reaches(
        w,
        blocks,
        here(g5, e),
        Conf::At(
            translation::match_end(m),
            0,
            if m.result is Void {
                e
            } else {
                machine::stored(
                    e,
                    (w.place)(translation::match_result(m)),
                    machine::fitted(machine::value_of(w, e, v), (w.kind)(m.result)),
                )
            },
        ),
    ) by {
        lemma_arm_end(w, g5, m, v, blocks, e);
    }
    lemma_test_scopes(g, m, cases[i].0, i, g1);
    assert(g2.cg == g1.cg && g2.f.variables == g1.f.variables && g2.f.registers == g1.f.registers)
        by {
        reveal(ir::opened);
    }
    (Arm { start: g2, bound: g4, done: g5, value: v }, g8)
}

/// The labels of the arms that follow are not used behind an arm.
proof fn lemma_behind_arm(a: G, g: G, m: Matching, i: int, g1: G, g3: G, g6: G, g7: G)
    requires
        parts::unopened(g, m.n, i),
        parts::only_tests(g, g1, m.n, i as usize),
        0 <= i < usize::MAX,
        g3.f == translation::block(g1, translation::match_arm(m, i)).f,
        m.n < g3.f.match_index,
        shape::leads(g3, g6, any()),
        g7.f == g6.f,
    ensures
        forall|l: Label|
            parts::pending(l, m.n, i) && !parts::is_test(l, m.n, i as usize) && l
                != Label::MatchArm(m.n, i as usize) ==> !assoc::defined(
                g7.f.blocks,
                #[trigger] labels::named(l),
            ),
{
    let arm_label = Label::MatchArm(m.n, i as usize);
    let arm = translation::match_arm(m, i);
    assert(labels::named(arm_label) == arm);
    assert forall|l: Label|
        parts::pending(l, m.n, i) && !parts::is_test(l, m.n, i as usize) && l
            != arm_label implies !assoc::defined(g7.f.blocks, #[trigger] labels::named(l)) by {
        expressions::lemma_unopened(g, g1, m.n, i, l);
        if labels::named(l) == arm {
            labels::lemma_named(l, arm_label);
        }
        assert(!assoc::defined(g3.f.blocks, labels::named(l))) by {
            reveal(ir::opened);
            if assoc::defined(g3.f.blocks, labels::named(l)) {
                let k = shape::lemma_defined_at(g3.f.blocks, labels::named(l));
                assert(k < g1.f.blocks.len());
                assoc::lemma_present(g1.f.blocks, labels::named(l), k);
            }
        }
        shape::lemma_fresh(g3, g6, l, any());
    }
}

/// A test declares nothing.
proof fn lemma_test_scopes(g: G, m: Matching, pattern: MatchPattern, i: int, h: G)
    requires
        translation::arm_test(g, m, pattern, i) == Some(h),
    ensures
        h.cg.scopes == g.cg.scopes,
{
    reveal(translation::arm_test);
    reveal(translation::tag_test);
    if let MatchPattern::Tuple(items) = pattern {
        lemma_tuple_scopes(
            g,
            items@,
            0,
            m.value,
            m.owner,
            translation::label2("match-test-"@, m.n, i as usize),
            0,
            translation::match_next(m, i),
        );
    }
}

/// A test of a tuple declares nothing.
proof fn lemma_tuple_scopes(
    g: G,
    items: Seq<MatchPattern>,
    k: int,
    value: Value,
    tuple: Seq<char>,
    prefix: Seq<char>,
    tests: usize,
    fail: Seq<char>,
)
    ensures
        translation::tuple_test(g, items, k, value, tuple, prefix, tests, fail) matches Some((h, _))
            ==> h.cg == g.cg,
    decreases items, items.len() - k,
{
    reveal(translation::tuple_test);
    reveal(translation::item_test);
    reveal(translation::variant_tag);
    if 0 <= k < items.len() {
        let member = translation::member(g, value, k, true, tuple);
        match items[k] {
            MatchPattern::Wildcard | MatchPattern::Binding(_) => {
                lemma_tuple_scopes(g, items, k + 1, value, tuple, prefix, tests, fail);
            },
            MatchPattern::Tuple(inner) => {
                if let Some((g1, item)) = member {
                    if let Some(t) = translation::member_type(g1.cg.module, tuple, k) {
                        let name = types::name_of(t);
                        lemma_tuple_scopes(g1, inner@, 0, item, name, prefix, tests, fail);
                        if let Some((g2, tests)) = translation::tuple_test(
                            g1,
                            inner@,
                            0,
                            item,
                            name,
                            prefix,
                            tests,
                            fail,
                        ) {
                            lemma_tuple_scopes(g2, items, k + 1, value, tuple, prefix, tests, fail);
                        }
                    }
                }
            },
            MatchPattern::Integer(expected) => {
                if let Some((g1, item)) = member {
                    if let Some((g2, tests)) = translation::item_test(
                        g1,
                        item,
                        expected,
                        prefix,
                        tests,
                        fail,
                    ) {
                        lemma_tuple_scopes(g2, items, k + 1, value, tuple, prefix, tests, fail);
                    }
                }
            },
            MatchPattern::Variant(owner, variant) => {
                if let Some((g1, item)) = member {
                    if let Some((g2, tag)) = translation::variant_tag(g1, item, owner@) {
                        if let Some(index) = translation::variant_index(
                            g2.cg.module,
                            owner@,
                            variant@,
                        ) {
                            if let Some((g3, tests)) = translation::item_test(
                                g2,
                                tag,
                                index as i64,
                                prefix,
                                tests,
                                fail,
                            ) {
                                lemma_tuple_scopes(
                                    g3,
                                    items,
                                    k + 1,
                                    value,
                                    tuple,
                                    prefix,
                                    tests,
                                    fail,
                                );
                            }
                        }
                    }
                }
            },
            _ => {},
        }
    }
}

/// A test of an item changes nothing of the program.
pub proof fn lemma_test_module(
    g: G,
    pattern: MatchPattern,
    item: Value,
    tuple: Seq<char>,
    k: int,
    prefix: Seq<char>,
    tests: usize,
    fail: Seq<char>,
)
    ensures
        match pattern {
            MatchPattern::Tuple(inner) => translation::member_type(g.cg.module, tuple, k) matches Some(
                t,
            ) ==> (translation::tuple_test(
                g,
                inner@,
                0,
                item,
                types::name_of(t),
                prefix,
                tests,
                fail,
            ) matches Some((h, _)) ==> h.cg == g.cg),
            MatchPattern::Integer(n) => translation::item_test(
                g,
                item,
                n,
                prefix,
                tests,
                fail,
            ) matches Some((h, _)) ==> h.cg == g.cg,
            MatchPattern::Variant(owner, variant) => translation::variant_tag(
                g,
                item,
                owner@,
            ) matches Some((t, tag)) ==> t.cg == g.cg && forall|x: i64|
                (#[trigger] translation::item_test(t, tag, x, prefix, tests, fail)) matches Some((
                    h,
                    _,
                )) ==> h.cg == g.cg,
            _ => true,
        },
{
    reveal(translation::item_test);
    reveal(translation::variant_tag);
    if let MatchPattern::Tuple(inner) = pattern {
        if let Some(t) = translation::member_type(g.cg.module, tuple, k) {
            lemma_tuple_scopes(g, inner@, 0, item, types::name_of(t), prefix, tests, fail);
        }
    }
}

/// A scope that is left leaves the scopes around it as they were.
proof fn lemma_scopes_back(g2: G, g3: G, g6: G, g7: G)
    requires
        g3 == translation::enter(g2),
        shape::leads(g3, g6, any()),
        g7 == translation::leave(g6),
    ensures
        g7.cg.scopes == g2.cg.scopes,
{
    reveal(translation::enter);
    reveal(translation::leave);
    reveal(shape::level);
    assert(g7.cg.scopes =~= g2.cg.scopes);
}

/// The first arm whose pattern fits is run: from the test of arm `i` control goes to the
/// arm `k`, if its pattern fits and those of the arms before it do not.
pub proof fn lemma_first_fit(
    w: World,
    a: G,
    g: G,
    m: Matching,
    cases: Seq<(MatchPattern, ExpressionNode)>,
    i: int,
    k: int,
    h: G,
    blocks: Blocks,
    e: Env,
    md: Mod,
    value: Val,
    tag: Val,
) -> (r: (Arm, Env))
    requires
        between(a, g, m, cases.len(), i),
        0 <= i <= k < cases.len(),
        translation::arms(g, m, cases, i) == Some(h),
        part(h, blocks),
        machine::value_of(w, e, m.value) == value,
        machine::value_of(w, e, m.tag) == tag,
        forall|j: int, x: Env|
            i <= j < k && x.memory == e.memory ==> #[trigger] decides(
                w,
                x,
                md,
                m.owner,
                cases[j].0,
                value,
                tag,
            ) == Some(false),
        decides(w, e, md, m.owner, cases[k].0, value, tag) == Some(true),
        same_types(g.cg.module, md),
    ensures
        part(g, blocks),
        is_arm(r.0, m, cases[k].0, cases[k].1, blocks),
        arm_ends(w, blocks, r.0, m),
        r.0.start.cg.scopes == g.cg.scopes,
        g.f.registers <= r.0.start.f.registers,
        r.0.start.f.current == translation::match_arm(m, k),
        reaches(w, blocks, here(g, e), here(r.0.start, r.1)),
        agree(e, r.1, g.f.registers as nat),
    decreases k - i,
{
    let (arm, g8) = lemma_arm(w, a, g, m, cases, i, h, blocks);
    let g1 = translation::arm_test(g, m, cases[i].0, i)->0;
    lemma_decides_types(w, e, g.cg.module, md, m.owner, cases[i].0, value, tag);
    let e1 = lemma_arm_test(w, a, g, m, cases[i].0, cases.len(), i, g1, blocks, e);
    running::lemma_opened(g1, translation::match_arm(m, i), blocks, e1);
    assert(arm.start.f.current == translation::match_arm(m, i)) by {
        reveal(ir::opened);
    }
    if k == i {
        (arm, e1)
    } else {
        assert(decides(w, e, md, m.owner, cases[i].0, value, tag) == Some(false));
        assert(here(g8, e1) == Conf::At(translation::match_next(m, i), 0, e1));
        lemma_kept_value(w, e, e1, m.tag, g.f.registers as nat);
        lemma_kept_value(w, e, e1, m.value, g.f.registers as nat);
        lemma_decides_same(w, e, e1, md, m.owner, cases[k].0, value, tag);
        assert(same_types(g8.cg.module, md)) by {
            lemma_same_module(a, g);
            lemma_same_module(a, g8);
        }
        let (found, e2) = lemma_first_fit(
            w,
            a,
            g8,
            m,
            cases,
            i + 1,
            k,
            h,
            blocks,
            e1,
            md,
            value,
            tag,
        );
        running::lemma_on(w, blocks, here(g, e), here(g8, e1), here(found.start, e2));
        assert(agree(e, e2, g.f.registers as nat)) by {
            assert forall|r: usize| r < g.f.registers implies #[trigger] e.registers[r]
                == e2.registers[r] by {
                assert(e.registers[r] == e1.registers[r]);
            }
        }
        (found, e2)
    }
}

/// A value that could be read before is the same in states that agree.
proof fn lemma_kept_value(w: World, a: Env, b: Env, v: Value, n: nat)
    requires
        agree(a, b, n),
        shape::in_use(v, n),
    ensures
        machine::value_of(w, a, v) == machine::value_of(w, b, v),
{
    if let Value::Local(r) = v {
        assert(a.registers[r] == b.registers[r]);
    }
}

/// Whether two programs have the same enums and structs.
pub open spec fn same_types(a: Mod, b: Mod) -> bool {
    a.enums == b.enums && a.boxed_enums == b.boxed_enums && a.structs == b.structs
}

/// What fits depends on the enums and structs of a program only.
proof fn lemma_decides_types(
    w: World,
    e: Env,
    a: Mod,
    b: Mod,
    owner: Seq<char>,
    pattern: MatchPattern,
    value: Val,
    tag: Val,
)
    requires
        same_types(a, b),
    ensures
        decides(w, e, a, owner, pattern, value, tag) == decides(w, e, b, owner, pattern, value, tag),
{
    match pattern {
        MatchPattern::Tuple(items) => {
            tuples::lemma_same_types(w, e, a, b, items@, 0, value, owner);
        },
        _ => {
            if let Val::Int(_, x) = tag {
                lemma_same_fits(a, b, pattern, x);
            }
        },
    }
}

/// What fits depends on the variants of enums only.
pub proof fn lemma_same_fits(a: Mod, b: Mod, pattern: MatchPattern, tag: int)
    requires
        a.enums == b.enums,
    ensures
        fits(a, pattern, tag) == fits(b, pattern, tag),
{
    assert forall|owner: Seq<char>, variant: Seq<char>, p: int|
        #[trigger] is_position(a, owner, variant, p) == is_position(b, owner, variant, p) by {}
    match pattern {
        MatchPattern::Variant(owner, variant) => {
            assert forall|p: int|
                #[trigger] is_position(b, owner@, variant@, p) implies is_position(
                a,
                owner@,
                variant@,
                p,
            ) by {}
        },
        MatchPattern::Destructure(owner, variant, _) => {
            assert forall|p: int|
                #[trigger] is_position(b, owner@, variant@, p) implies is_position(
                a,
                owner@,
                variant@,
                p,
            ) by {}
        },
        _ => {},
    }
}

/// A match belongs to the same program throughout.
proof fn lemma_same_module(a: G, b: G)
    requires
        shape::leads(a, b, any()),
    ensures
        same_types(a.cg.module, b.cg.module),
{
    reveal(shape::extended);
}

/// Where control goes behind an arm.
proof fn lemma_arm_end(w: World, g: G, m: Matching, v: Value, blocks: Blocks, e: Env)
    requires
        shape::sound(g),
        shape::in_use(v, g.f.registers as nat),
        m.result is Void || assoc::defined(g.f.variables, translation::match_result(m)),
        part(translation::arm_end(g, m, v), blocks),
    ensures
        part(g, blocks),
        !ir::current_terminated(g.f) ==> reaches(
            w,
            blocks,
            here(g, e),
            Conf::At(
                translation::match_end(m),
                0,
                if m.result is Void {
                    e
                } else {
                    machine::stored(
                        e,
                        (w.place)(translation::match_result(m)),
                        machine::fitted(machine::value_of(w, e, v), (w.kind)(m.result)),
                    )
                },
            ),
        ),
{
    reveal(translation::arm_end);
    running::lemma_ready(g);
    if !ir::current_terminated(g.f) {
        let jump = Inst::Jump(translation::match_end(m));
        if m.result is Void {
            running::lemma_emitted(w, g, jump, blocks, e);
        } else {
            let store = Inst::Store(translation::match_result(m), v, m.result);
            shape::lemma_emit(g, g, store, any());
            let g1 = translation::emit(g, store);
            let e1 = machine::performed(w, e, store);
            running::lemma_emitted(w, g1, jump, blocks, e1);
            running::lemma_emitted(w, g, store, blocks, e);
            running::lemma_on(
                w,
                blocks,
                here(g, e),
                here(g1, e1),
                Conf::At(translation::match_end(m), 0, e1),
            );
        }
    }
}

// ---------------------------------------------------------------------------
// Matches

/// The places in the code of a match.
pub struct Match {
    /// Before the value that is matched on
    pub start: G,
    /// Behind it
    pub valued: G,
    /// The value that is matched on
    pub value: Value,
    /// Before the first test
    pub tests: G,
    pub m: Matching,
}

/// A member of a struct in a register, or of one that a pointer leads to.
pub open spec fn member_of(w: World, e: Env, v: Val, index: u32, name: Seq<char>) -> Val {
    match v {
        Val::Struct(n, members) => machine::read_as(
            w,
            (w.layout)(n)[index as int],
            members[index as int],
        ),
        Val::Pointer(p) => machine::read_as(
            w,
            (w.layout)((w.number)(name))[index as int],
            e.memory[(w.member)((w.number)(name), p, index)],
        ),
        _ => v,
    }
}

/// The tag of a value: the first member of one of an enum with payloads, and another one
/// itself.
pub open spec fn tag_of(w: World, e: Env, m: Mod, v: Val, owner: Seq<char>) -> Val {
    if assoc::defined(m.boxed_enums, owner) {
        member_of(w, e, v, 0, owner + ".__tag"@)
    } else {
        v
    }
}

/// The enum or struct that a type names.
pub open spec fn owner_of(t: Ty) -> Seq<char> {
    match t {
        Ty::Named(name) => name,
        _ => Seq::empty(),
    }
}

/// Finding the tag of a value.
pub proof fn lemma_tag(
    w: World,
    g: G,
    value: Value,
    owner: Seq<char>,
    h: G,
    tag: Value,
    blocks: Blocks,
    e: Env,
) -> (after: Env)
    requires
        shape::sound(g),
        shape::in_use(value, g.f.registers as nat),
        translation::variant_tag(g, value, owner) == Some((h, tag)),
        shape::code_kept(h.f.blocks, blocks),
        assoc::distinct(blocks),
        assoc::defined(g.cg.module.boxed_enums, owner) ==> machine::value_of(w, e, value) is Pointer
            || machine::value_of(w, e, value) is Struct,
    ensures
        part(g, blocks),
        reaches(w, blocks, here(g, e), here(h, after)),
        machine::value_of(w, after, tag) == tag_of(
            w,
            e,
            g.cg.module,
            machine::value_of(w, e, value),
            owner,
        ),
        agree(e, after, g.f.registers as nat),
{
    reveal(translation::variant_tag);
    if assoc::defined(g.cg.module.boxed_enums, owner) {
        let name = owner + ".__tag"@;
        let i = Inst::AccessStructMember(value, 0, g.f.registers, true, name);
        assert(0int as usize == 0usize);
        running::lemma_defined(w, g, i, h, tag, blocks, e);
        machine::performed(w, e, i)
    } else {
        running::lemma_here(w, blocks, here(g, e));
        e
    }
}

/// A match runs the first arm whose pattern fits the value, and gives the value of that
/// arm. From behind the value that is matched on, control goes to the first arm `k` whose
/// pattern fits its tag; from the end of that arm it goes behind the match, where the value
/// of the arm is loaded.
pub proof fn lemma_match(
    w: World,
    g: G,
    node: ExpressionNode,
    h: G,
    v: Value,
    blocks: Blocks,
    e: Env,
    value: Val,
    tag: Val,
    k: int,
) -> (r: (Match, Arm, Env))
    requires
        shape::sound(g),
        node.expression is Match,
        translation::match_expr(g, node) == Some((h, v)),
        part(h, blocks),
        ({
            let scrutinee = *node.expression->Match_0;
            let cases = node.expression->Match_1@;
            &&& 0 <= k < cases.len()
            &&& forall|j: int, x: Env|
                0 <= j < k && x.memory == e.memory ==> #[trigger] decides(
                    w,
                    x,
                    g.cg.module,
                    owner_of(types::ty_of(scrutinee.typed)),
                    cases[j].0,
                    value,
                    tag,
                ) == Some(false)
            &&& decides(
                w,
                e,
                g.cg.module,
                owner_of(types::ty_of(scrutinee.typed)),
                cases[k].0,
                value,
                tag,
            ) == Some(true)
            &&& tag == tag_of(
                w,
                e,
                g.cg.module,
                value,
                owner_of(types::ty_of(scrutinee.typed)),
            )
            &&& assoc::defined(
                g.cg.module.boxed_enums,
                owner_of(types::ty_of(scrutinee.typed)),
            ) ==> value is Pointer || value is Struct
            &&& translation::next_match(g) matches Some(g1) ==> (translation::expr(
                g1,
                scrutinee,
                true,
            ) matches Some((_, v)) ==> machine::value_of(w, e, v) == value)
        }),
    ensures
        ({
            let cases = node.expression->Match_1@;
            &&& part(g, blocks)
            &&& part(r.0.start, blocks)
            &&& here(g, e) == here(r.0.start, e)
            &&& r.0.start.cg == g.cg
            &&& translation::expr(r.0.start, *node.expression->Match_0, true) == Some(
                (r.0.valued, r.0.value),
            )
            &&& part(r.0.valued, blocks)
            &&& is_arm(r.1, r.0.m, cases[k].0, cases[k].1, blocks)
            &&& r.1.start.cg.scopes == r.0.valued.cg.scopes
            &&& reaches(w, blocks, here(r.0.valued, e), here(r.1.start, r.2))
            &&& agree(e, r.2, r.0.valued.f.registers as nat)
            &&& forall|e2: Env|
                #![trigger here(r.1.done, e2)]
                !ir::current_terminated(r.1.done.f) ==> exists|e3: Env|
                    {
                        &&& #[trigger] reaches(w, blocks, here(r.1.done, e2), here(h, e3))
                        &&& !(types::ty_of(node.typed) is Void) ==> {
                            let t = (w.kind)(types::ty_of(node.typed));
                            machine::value_of(w, e3, v) == machine::read_as(
                                w,
                                t,
                                machine::fitted(machine::value_of(w, e2, r.1.value), t),
                            )
                        }
                        &&& e3.events == e2.events
                    }
        }),
{
    reveal(translation::match_expr);
    reveal(translation::expr);
    reveal(translation::arms);
    match node.expression {
        Expression::Match(scrutinee, cases) => {
            let n = g.f.match_index;
            let end_label = Label::MatchEnd(n);
            let end = labels::named(end_label);
            running::lemma_ready(g);
            shape::lemma_next_match(g, g, any());
            let g1 = translation::next_match(g)->0;
            running::lemma_ready(g1);
            expressions::lemma_expr(g1, parts::node(scrutinee), true, any());
            expressions::lemma_next_expr(g, g1, parts::node(scrutinee), any());
            let (g2, matched) = translation::expr(g1, parts::node(scrutinee), true)->0;
            let typed = types::ty_of(parts::node(scrutinee).typed);
            let result = types::ty_of(node.typed);
            let owner = owner_of(typed);
            running::lemma_ready(g2);
            parts::lemma_variant_tag(g, g2, matched, owner, any());
            parts::lemma_variant_tag(g2, g2, matched, owner, any());
            let (g3, m) = translation::match_start(
                g2,
                n,
                matched,
                typed,
                result,
                cases@.len(),
            )->0;
            let (t, tag_value) = translation::variant_tag(g2, matched, owner)->0;
            shape::lemma_slot(g, t, translation::match_result(m), result, any());
            assert(parts::unopened(g3, n, 0)) by {
                assert forall|l: Label| parts::pending(l, n, 0) implies !assoc::defined(
                    g3.f.blocks,
                    #[trigger] labels::named(l),
                ) by {
                    shape::lemma_new(g, l);
                    shape::lemma_fresh(g1, g2, l, any());
                }
            }
            assert(cases@.len() == cases.len());
            expressions::lemma_arms(g, g3, m, cases@, 0, any());
            let g4 = translation::arms(g3, m, cases@, 0)->0;
            assert(translation::match_end(m) == end);
            shape::lemma_block(g, g4, end_label, any());
            let g5 = translation::block(g4, end);
            let load = Inst::Load(translation::match_result(m), g5.f.registers, result);
            assert(g3.f.blocks == t.f.blocks && g3.f.current == t.f.current);
            // the code behind the match
            if !(result is Void) {
                running::lemma_defined(w, g5, load, h, v, blocks, e);
            }
            assert(part(g5, blocks));
            running::lemma_opened(g4, end, blocks, e);
            assert(between(g, g3, m, cases@.len(), 0));
            lemma_same_module(g, g2);
            lemma_same_module(g, g3);
            assert(g2.cg.module.boxed_enums == g.cg.module.boxed_enums) by {
                reveal(shape::extended);
            }
            let e1 = lemma_tag_before(w, g, g3, m, cases@, g2, matched, owner, t, tag_value, g4, blocks, e);
            lemma_kept_value(w, e, e1, matched, g2.f.registers as nat);
            lemma_decides_same(w, e, e1, g.cg.module, owner, cases@[k].0, value, tag);
            let (arm, e2) = lemma_first_fit(
                w,
                g,
                g3,
                m,
                cases@,
                0,
                k,
                g4,
                blocks,
                e1,
                g.cg.module,
                value,
                tag,
            );
            running::lemma_on(w, blocks, here(g2, e), here(g3, e1), here(arm.start, e2));
            running::lemma_part(g1, g2, blocks);
            running::lemma_same_code(g, g1, blocks);
            assert forall|e5: Env|
                #![trigger here(arm.done, e5)]
                !ir::current_terminated(arm.done.f) implies exists|e6: Env|
                {
                    &&& #[trigger] reaches(w, blocks, here(arm.done, e5), here(h, e6))
                    &&& !(result is Void) ==> machine::value_of(w, e6, v) == machine::read_as(
                        w,
                        (w.kind)(result),
                        machine::fitted(
                            machine::value_of(w, e5, arm.value),
                            (w.kind)(result),
                        ),
                    )
                    &&& e6.events == e5.events
                } by {
                running::lemma_opened(g4, end, blocks, e5);
                if result is Void {
                    assert(reaches(w, blocks, here(arm.done, e5), here(h, e5)));
                } else {
                    let stored = machine::stored(
                        e5,
                        (w.place)(translation::match_result(m)),
                        machine::fitted(
                            machine::value_of(w, e5, arm.value),
                            (w.kind)(result),
                        ),
                    );
                    let e6 = machine::performed(w, stored, load);
                    running::lemma_opened(g4, end, blocks, stored);
                    running::lemma_defined(w, g5, load, h, v, blocks, stored);
                    running::lemma_on(w, blocks, here(arm.done, e5), here(g5, stored), here(h, e6));
                }
            }
            (Match { start: g1, valued: g2, value: matched, tests: g3, m }, arm, e2)
        },
        _ => arbitrary(),
    }
}

/// The tag is found before the first test.
proof fn lemma_tag_before(
    w: World,
    a: G,
    g3: G,
    m: Matching,
    cases: Seq<(MatchPattern, ExpressionNode)>,
    g2: G,
    value: Value,
    owner: Seq<char>,
    t: G,
    tag: Value,
    h: G,
    blocks: Blocks,
    e: Env,
) -> (after: Env)
    requires
        between(a, g3, m, cases.len(), 0),
        cases.len() > 0,
        translation::arms(g3, m, cases, 0) == Some(h),
        part(h, blocks),
        shape::sound(g2),
        shape::in_use(value, g2.f.registers as nat),
        translation::variant_tag(g2, value, owner) == Some((t, tag)),
        g3.f.blocks == t.f.blocks,
        g3.f.current == t.f.current,
        g2.f.registers <= g3.f.registers,
        assoc::defined(g2.cg.module.boxed_enums, owner) ==> machine::value_of(w, e, value) is Pointer
            || machine::value_of(w, e, value) is Struct,
    ensures
        part(g3, blocks),
        part(g2, blocks),
        reaches(w, blocks, here(g2, e), here(g3, after)),
        machine::value_of(w, after, tag) == tag_of(
            w,
            e,
            g2.cg.module,
            machine::value_of(w, e, value),
            owner,
        ),
        agree(e, after, g2.f.registers as nat),
{
    let arm = lemma_arm(w, a, g3, m, cases, 0, h, blocks);
    lemma_tag(w, g2, value, owner, t, tag, blocks, e)
}

} // verus!
