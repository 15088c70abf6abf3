//! Matches: the tests and the bindings of their arms.

use vstd::prelude::*;
use crate::ast::{Expression, ExpressionNode, MatchPattern};
use crate::codegen::state;
use crate::codegen::state::{int_const, is_void, load, member, numbered_twice, Codegen};
use crate::ir::{Function, Instruction, Value};
use crate::text::{dot, join, numbered};
use crate::translation;
use crate::translation::{Cg, G};
use crate::types;
use crate::types::AzulaType;

verus! {

impl<'a> Codegen<'a> {
    /// The tag of a value of the enum `owner`.
    pub(crate) fn variant_tag(&self, value: Value, owner: &str, func: &mut Function<'a>) -> (r: Option<Value>)
        ensures
            state::yields(
                translation::variant_tag(G { cg: self@, f: old(func)@ }, value, owner@),
                r,
                self@,
                final(func)@,
            ),
    {
        reveal(translation::variant_tag);
        if self.program().is_boxed(owner) {
            member(func, value, 0, true, join(owner, ".__tag").as_str())
        } else {
            Some(value)
        }
    }

    /// Go on in a new block if `item` equals `expected`, or else to `fail`.
    pub(crate) fn item_test(
        item: Value,
        expected: i64,
        prefix: &str,
        tests: usize,
        fail: &str,
        func: &mut Function<'a>,
    ) -> (r: Option<usize>)
        ensures
            forall|cg: Cg|
                match #[trigger] translation::item_test(
                    G { cg, f: old(func)@ },
                    item,
                    expected,
                    prefix@,
                    tests,
                    fail@,
                ) {
                    Some((g, n)) => r == Some(n) && g == (G { cg, f: final(func)@ }),
                    None => r is None,
                },
    {
        reveal(translation::item_test);
        let expected = int_const(func, expected)?;
        let dest: usize = func.next_register();
        let cond = func.define(Instruction::Eq(item, expected, dest))?;
        if tests == usize::MAX {
            return None;
        }
        let pass = numbered(join(prefix, "-").as_str(), tests);
        func.jcond(cond, pass.clone(), fail.to_owned());
        func.open_block(pass);
        Some(tests + 1)
    }

    /// Branch to `fail` unless a tuple matches patterns.
    pub(crate) fn gen_tuple_test(
        &self,
        items: &Vec<MatchPattern<'a>>,
        value: Value,
        tuple: &str,
        prefix: &str,
        tests: usize,
        fail: &str,
        func: &mut Function<'a>,
    ) -> (r: Option<usize>)
        ensures
            match translation::tuple_test(
                G { cg: self@, f: old(func)@ },
                items@,
                0,
                value,
                tuple@,
                prefix@,
                tests,
                fail@,
            ) {
                Some((g, n)) => r == Some(n) && g == (G { cg: self@, f: final(func)@ }),
                None => r is None,
            },
        decreases items,
    {
        reveal(translation::tuple_test);
        let mut n: usize = tests;
        let mut k: usize = 0;
        while k < items.len()
            invariant
                k <= items@.len(),
                translation::tuple_test(
            G { cg: self@, f: old(func)@ },
            items@,
            0,
            value,
            tuple@,
            prefix@,
            tests,
            fail@,
        ) == translation::tuple_test(
                    G { cg: self@, f: func@ },
                    items@,
                    k as int,
                    value,
                    tuple@,
                    prefix@,
                    n,
                    fail@,
                ),
            decreases items@.len() - k,
        {
            reveal(translation::tuple_test);
            match &items[k] {
                MatchPattern::Wildcard => {},
                MatchPattern::Binding(_) => {},
                MatchPattern::Tuple(inner) => {
                    let item = member(func, value, k, true, tuple)?;
                    let t = self.member_type(tuple, k)?;
                    n = self.gen_tuple_test(
                        inner,
                        item,
                        t.to_string().as_str(),
                        prefix,
                        n,
                        fail,
                        func,
                    )?;
                },
                MatchPattern::Integer(expected) => {
                    let item = member(func, value, k, true, tuple)?;
                    n = Self::item_test(item, *expected, prefix, n, fail, func)?;
                },
                MatchPattern::Variant(owner, variant) => {
                    let item = member(func, value, k, true, tuple)?;
                    let tag = self.variant_tag(item, owner, func)?;
                    let index = self.variant_index(owner, variant)?;
                    n = Self::item_test(tag, index as i64, prefix, n, fail, func)?;
                },
                _ => {
                    return None;
                },
            }
            k += 1;
        }
        Some(n)
    }

    /// Declare a variable for a member, and store the member in it.
    pub(crate) fn bind_member(
        &mut self,
        value: Value,
        index: usize,
        owner: &str,
        name: &str,
        func: &mut Function<'a>,
    ) -> (r: Option<()>)
        ensures
            state::reaches(
                translation::bind_member(
                    G { cg: old(self)@, f: old(func)@ },
                    value,
                    index as int,
                    owner@,
                    name@,
                ),
                r,
                final(self)@,
                final(func)@,
            ),
            final(self).tree() == old(self).tree(),
    {
        reveal(translation::bind_member);
        let t = self.member_type(owner, index)?;
        let item = member(func, value, index, true, owner)?;
        let unique = self.declare_variable(name, t.clone(), func)?;
        func.store(unique, item, t);
        Some(())
    }

    /// Declare the variables that patterns bind.
    pub(crate) fn gen_bind_tuple(
        &mut self,
        items: &Vec<MatchPattern<'a>>,
        value: Value,
        tuple: &str,
        func: &mut Function<'a>,
    ) -> (r: Option<()>)
        ensures
            state::reaches(
                translation::bind_tuple(
                    G { cg: old(self)@, f: old(func)@ },
                    items@,
                    0,
                    value,
                    tuple@,
                ),
                r,
                final(self)@,
                final(func)@,
            ),
            final(self).tree() == old(self).tree(),
        decreases items,
    {
        reveal(translation::bind_tuple);
        let mut k: usize = 0;
        while k < items.len()
            invariant
                self.tree() == old(self).tree(),
                k <= items@.len(),
                translation::bind_tuple(
            G { cg: old(self)@, f: old(func)@ },
            items@,
            0,
            value,
            tuple@,
        ) == translation::bind_tuple(
                    G { cg: self@, f: func@ },
                    items@,
                    k as int,
                    value,
                    tuple@,
                ),
            decreases items@.len() - k,
        {
            reveal(translation::bind_tuple);
            match &items[k] {
                MatchPattern::Binding(name) => {
                    self.bind_member(value, k, tuple, name, func)?;
                },
                MatchPattern::Tuple(inner) => {
                    let item = member(func, value, k, true, tuple)?;
                    let t = self.member_type(tuple, k)?;
                    self.gen_bind_tuple(inner, item, t.to_string().as_str(), func)?;
                },
                _ => {},
            }
            k += 1;
        }
        Some(())
    }

    /// Declare the variables that a variant's payload is bound to.
    pub(crate) fn gen_bind_payload(
        &mut self,
        bindings: &Vec<Option<&'a str>>,
        value: Value,
        owner: &str,
        func: &mut Function<'a>,
    ) -> (r: Option<()>)
        ensures
            state::reaches(
                translation::bind_payload(
                    G { cg: old(self)@, f: old(func)@ },
                    bindings@,
                    0,
                    value,
                    owner@,
                ),
                r,
                final(self)@,
                final(func)@,
            ),
            final(self).tree() == old(self).tree(),
    {
        reveal(translation::bind_payload);
        let mut k: usize = 0;
        while k < bindings.len()
            invariant
                self.tree() == old(self).tree(),
                k <= bindings@.len(),
                translation::bind_payload(
            G { cg: old(self)@, f: old(func)@ },
            bindings@,
            0,
            value,
            owner@,
        ) == translation::bind_payload(
                    G { cg: self@, f: func@ },
                    bindings@,
                    k as int,
                    value,
                    owner@,
                ),
            decreases bindings@.len() - k,
        {
            reveal(translation::bind_payload);
            if let Some(name) = bindings[k] {
                self.bind_member(value, k + 1, owner, name, func)?;
            }
            k += 1;
        }
        Some(())
    }

    /// The label of the block that tests the arm after arm `i`, of `count` arms.
    pub(crate) fn match_next(n: usize, i: usize, count: usize) -> (r: String)
        requires
            i < count,
        ensures
            forall|m: translation::Matching|
                m.n == n && m.count == count ==> r@ == #[trigger] translation::match_next(
                    m,
                    i as int,
                ),
    {
        if i + 1 < count {
            numbered_twice("match-next-", n, i + 1)
        } else {
            numbered("match-end-", n)
        }
    }

    /// Branch to the block of arm `i` if the tag equals `expected`.
    pub(crate) fn tag_test(
        n: usize,
        tag: Value,
        expected: i64,
        i: usize,
        count: usize,
        func: &mut Function<'a>,
    ) -> (r: Option<()>)
        requires
            i < count,
        ensures
            forall|cg: Cg, m: translation::Matching|
                m.n == n && m.count == count && m.tag == tag ==> state::reaches(
                    #[trigger] translation::tag_test(
                        G { cg, f: old(func)@ },
                        m,
                        expected,
                        i as int,
                    ),
                    r,
                    cg,
                    final(func)@,
                ),
    {
        reveal(translation::tag_test);
        let expected = int_const(func, expected)?;
        let dest: usize = func.next_register();
        let cond = func.define(Instruction::Eq(tag, expected, dest))?;
        func.jcond(cond, numbered_twice("match-arm-", n, i), Self::match_next(n, i, count));
        Some(())
    }

    /// Branch to the block of arm `i` if its pattern matches.
    pub(crate) fn gen_arm_test(
        &self,
        Ghost(m): Ghost<translation::Matching>,
        owner: &str,
        value: Value,
        tag: Value,
        n: usize,
        count: usize,
        pattern: &MatchPattern<'a>,
        i: usize,
        func: &mut Function<'a>,
    ) -> (r: Option<()>)
        requires
            i < count,
            m.n == n,
            m.owner == owner@,
            m.value == value,
            m.tag == tag,
            m.count == count,
        ensures
            state::reaches(
                translation::arm_test(G { cg: self@, f: old(func)@ }, m, *pattern, i as int),
                r,
                self@,
                final(func)@,
            ),
    {
        reveal(translation::arm_test);
        match pattern {
            MatchPattern::Wildcard => {
                func.jump(numbered_twice("match-arm-", n, i));
                Some(())
            },
            MatchPattern::Tuple(items) => {
                let prefix = numbered_twice("match-test-", n, i);
                let fail = Self::match_next(n, i, count);
                self.gen_tuple_test(items, value, owner, prefix.as_str(), 0, fail.as_str(), func)?;
                func.jump(numbered_twice("match-arm-", n, i));
                Some(())
            },
            MatchPattern::Integer(expected) => Self::tag_test(n, tag, *expected, i, count, func),
            MatchPattern::Variant(owner, variant) => {
                let index = self.variant_index(owner, variant)?;
                Self::tag_test(n, tag, index as i64, i, count, func)
            },
            MatchPattern::Destructure(owner, variant, _) => {
                let index = self.variant_index(owner, variant)?;
                Self::tag_test(n, tag, index as i64, i, count, func)
            },
            _ => None,
        }
    }

    /// Declare the variables that the pattern of an arm binds.
    pub(crate) fn gen_arm_bind(
        &mut self,
        Ghost(m): Ghost<translation::Matching>,
        owner: &str,
        value: Value,
        pattern: &MatchPattern<'a>,
        func: &mut Function<'a>,
    ) -> (r: Option<()>)
        requires
            m.owner == owner@,
            m.value == value,
        ensures
            state::reaches(
                translation::arm_bind(G { cg: old(self)@, f: old(func)@ }, m, *pattern),
                r,
                final(self)@,
                final(func)@,
            ),
            final(self).tree() == old(self).tree(),
    {
        reveal(translation::arm_bind);
        match pattern {
            MatchPattern::Tuple(items) => self.gen_bind_tuple(items, value, owner, func),
            MatchPattern::Destructure(owner, variant, bindings) => self.gen_bind_payload(
                bindings,
                value,
                dot(owner, variant).as_str(),
                func,
            ),
            _ => Some(()),
        }
    }

    /// Keep the value of an arm and leave the match, unless the block has ended.
    pub(crate) fn gen_arm_end(
        Ghost(m): Ghost<translation::Matching>,
        n: usize,
        result: &AzulaType<'a>,
        value: Value,
        func: &mut Function<'a>,
    )
        requires
            m.n == n,
            m.result == types::ty_of(*result),
        ensures
            forall|cg: Cg|
                (G { cg, f: final(func)@ }) == #[trigger] translation::arm_end(
                    G { cg, f: old(func)@ },
                    m,
                    value,
                ),
    {
        reveal(translation::arm_end);
        if !func.current_block_terminated() {
            if !is_void(result) {
                func.store(numbered("__match_", n), value, result.clone());
            }
            func.jump(numbered("match-end-", n));
        }
    }

    /// A match.
    pub(crate) fn gen_match(&mut self, e: &ExpressionNode<'a>, func: &mut Function<'a>) -> (r: Option<Value>)
        ensures
            state::yields(
                translation::match_expr(G { cg: old(self)@, f: old(func)@ }, *e),
                r,
                final(self)@,
                final(func)@,
            ),
            final(self).tree() == old(self).tree(),
        decreases e, 0int,
    {
        reveal(translation::match_expr);
        reveal(translation::expr);
        reveal(translation::arms);
        reveal(types::ty_of);
        let (scrutinee, cases) = match &e.expression {
            Expression::Match(scrutinee, cases) => (scrutinee, cases),
            _ => {
                return None;
            },
        };
        let n = func.next_match()?;
        let value = self.gen_expr(scrutinee, func, true)?;
        let owner = match &scrutinee.typed {
            AzulaType::Named(name) => name.clone(),
            _ => {
                let none = String::new();
                assert(none@ =~= Seq::<char>::empty());
                none
            },
        };
        let tag = self.variant_tag(value, owner.as_str(), func)?;
        if !is_void(&e.typed) {
            func.declare(numbered("__match_", n), e.typed.clone());
        }
        let ghost m = translation::Matching {
            n,
            owner: owner@,
            value,
            tag,
            result: types::ty_of(e.typed),
            count: cases@.len(),
        };
        self.gen_arms(Ghost(m), owner.as_str(), value, tag, n, &e.typed, cases, func)?;
        func.open_block(numbered("match-end-", n));
        if is_void(&e.typed) {
            Some(Value::LiteralInteger(0))
        } else {
            load(func, numbered("__match_", n), e.typed.clone())
        }
    }

    /// The arms of a match.
    pub(crate) fn gen_arms(
        &mut self,
        Ghost(m): Ghost<translation::Matching>,
        owner: &str,
        value: Value,
        tag: Value,
        n: usize,
        result: &AzulaType<'a>,
        cases: &Vec<(MatchPattern<'a>, ExpressionNode<'a>)>,
        func: &mut Function<'a>,
    ) -> (r: Option<()>)
        requires
            m.n == n,
            m.owner == owner@,
            m.value == value,
            m.tag == tag,
            m.result == types::ty_of(*result),
            m.count == cases@.len(),
        ensures
            state::reaches(
                translation::arms(G { cg: old(self)@, f: old(func)@ }, m, cases@, 0),
                r,
                final(self)@,
                final(func)@,
            ),
            final(self).tree() == old(self).tree(),
        decreases cases, 0int,
    {
        reveal(translation::arms);
        reveal(translation::expr);
        let count: usize = cases.len();
        let mut i: usize = 0;
        while i < count
            invariant
                self.tree() == old(self).tree(),
                count == cases@.len(),
                i <= count,
                m.n == n,
                m.owner == owner@,
                m.value == value,
                m.tag == tag,
                m.result == types::ty_of(*result),
                m.count == count,
                translation::arms(G { cg: old(self)@, f: old(func)@ }, m, cases@, 0) == translation::arms(G { cg: self@, f: func@ }, m, cases@, i as int),
            decreases count - i,
        {
            reveal(translation::arms);
            reveal(translation::expr);
            let pattern = &cases[i].0;
            self.gen_arm_test(Ghost(m), owner, value, tag, n, count, pattern, i, func)?;
            func.open_block(numbered_twice("match-arm-", n, i));
            self.enter();
            self.gen_arm_bind(Ghost(m), owner, value, pattern, func)?;
            let v = self.gen_expr(&cases[i].1, func, true)?;
            Self::gen_arm_end(Ghost(m), n, result, v, func);
            self.leave();
            let last = match pattern {
                MatchPattern::Wildcard => true,
                _ => i + 1 == count,
            };
            if last {
                return Some(());
            }
            func.open_block(Self::match_next(n, i, count));
            i += 1;
        }
        Some(())
    }
}

} // verus!
