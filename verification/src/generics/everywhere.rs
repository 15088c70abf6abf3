//! What a substitution does at each place of a tree: the tree stays as it is but for its
//! types, and each type is replaced, however deep it stands.

use vstd::prelude::*;
use crate::ast::{Expr, ExprKind, Pat, Stmt};
use crate::generics;
use crate::trees;
use crate::trees::Node;
use crate::types::Ty;

verus! {

// ---------------------------------------------------------------------------
// Types

/// The types that a type is made of, in the order in which they are written.
pub open spec fn type_parts(t: Ty) -> Seq<Ty> {
    match t {
        Ty::Pointer(p) => seq![*p],
        Ty::Array(p, _) => seq![*p],
        Ty::Generic(_, args) => args,
        Ty::Function(args, result) => args.push(*result),
        _ => Seq::empty(),
    }
}

/// The type without the types that it is made of.
pub open spec fn type_shell(t: Ty) -> Ty {
    match t {
        Ty::Pointer(_) => Ty::Pointer(Box::new(Ty::Infer)),
        Ty::Array(_, n) => Ty::Array(Box::new(Ty::Infer), n),
        Ty::Generic(n, _) => Ty::Generic(n, Seq::empty()),
        Ty::Function(_, _) => Ty::Function(Seq::empty(), Box::new(Ty::Infer)),
        _ => t,
    }
}

/// The type that `path` leads to.
pub open spec fn type_at(t: Ty, path: Seq<int>) -> Option<Ty>
    decreases path.len(),
{
    if path.len() == 0 {
        Some(t)
    } else if 0 <= path[0] < type_parts(t).len() {
        type_at(type_parts(t)[path[0]], path.skip(1))
    } else {
        None
    }
}

/// Whether a type is a name that stands for another type.
pub open spec fn is_replaced(t: Ty, m: Map<Seq<char>, Ty>) -> bool {
    t matches Ty::Named(n) && m.contains_key(n)
}

/// Where a type has a replaced name, the type with its types replaced has the type that
/// the name stands for; at every other place it is made as it was.
pub proof fn lemma_type_replaced_at(t: Ty, m: Map<Seq<char>, Ty>, path: Seq<int>)
    requires
        type_at(t, path) is Some,
    ensures
        type_at(generics::substituted(t, m), path) is Some,
        ({
            let before = type_at(t, path)->0;
            let after = type_at(generics::substituted(t, m), path)->0;
            match before {
                Ty::Named(n) => after == if m.contains_key(n) {
                    m[n]
                } else {
                    before
                },
                _ => type_shell(after) == type_shell(before) && type_parts(after).len()
                    == type_parts(before).len(),
            }
        }),
    decreases path.len(),
{
    reveal_with_fuel(generics::substituted, 2);
    let u = generics::substituted(t, m);
    if path.len() > 0 {
        let i = path[0];
        assert(type_parts(u).len() == type_parts(t).len());
        assert(type_parts(u)[i] == generics::substituted(type_parts(t)[i], m));
        lemma_type_replaced_at(type_parts(t)[i], m, path.skip(1));
    }
}

/// A name that no type of `m` mentions is not mentioned once it is replaced.
pub proof fn lemma_name_gone_from_type(t: Ty, m: Map<Seq<char>, Ty>, name: Seq<char>)
    requires
        m.contains_key(name),
        forall|k: Seq<char>| #[trigger] m.contains_key(k) ==> !generics::occurs(m[k], name),
    ensures
        !generics::occurs(generics::substituted(t, m), name),
    decreases t, 0int,
{
    match t {
        Ty::Pointer(p) => lemma_name_gone_from_type(*p, m, name),
        Ty::Array(p, _) => lemma_name_gone_from_type(*p, m, name),
        Ty::Generic(_, args) => lemma_name_gone_from_types(args, m, name),
        Ty::Function(args, result) => {
            lemma_name_gone_from_types(args, m, name);
            lemma_name_gone_from_type(*result, m, name);
        },
        _ => {},
    }
}

/// The same of several types.
proof fn lemma_name_gone_from_types(ts: Seq<Ty>, m: Map<Seq<char>, Ty>, name: Seq<char>)
    requires
        m.contains_key(name),
        forall|k: Seq<char>| #[trigger] m.contains_key(k) ==> !generics::occurs(m[k], name),
    ensures
        !generics::any_occurs(generics::all_substituted(ts, m), name),
    decreases ts, 0int,
{
    assert forall|i: int| 0 <= i < ts.len() implies !generics::occurs(
        #[trigger] generics::all_substituted(ts, m)[i],
        name,
    ) by {
        lemma_name_gone_from_type(ts[i], m, name);
    }
}

// ---------------------------------------------------------------------------
// One node

/// The node with the types of `m` in the place of its parameters.
pub open spec fn replaced(n: Node, m: Map<Seq<char>, Ty>) -> Node {
    match n {
        Node::Stmt(s) => Node::Stmt(generics::stmt_substituted(s, m)),
        Node::Expr(e) => Node::Expr(generics::expr_substituted(e, m)),
        Node::Pat(p) => Node::Pat(generics::pat_substituted(p, m)),
    }
}

/// The types with the types of `m` in the place of their parameters.
spec fn each(ts: Seq<Ty>, m: Map<Seq<char>, Ty>) -> Seq<Ty> {
    Seq::new(ts.len(), |i: int| generics::substituted(ts[i], m))
}

/// The types of a closure's parameters are replaced one by one.
proof fn lemma_params(s: Seq<(Option<Ty>, Seq<char>)>, m: Map<Seq<char>, Ty>, k: int)
    requires
        0 <= k <= s.len(),
    ensures
        trees::param_types(generics::params_substituted(s, m), k) =~= each(
            trees::param_types(s, k),
            m,
        ),
    decreases k,
{
    if k > 0 {
        lemma_params(s, m, k - 1);
    }
}

/// The types of payloads are replaced one by one.
proof fn lemma_payloads(s: Seq<Seq<Ty>>, m: Map<Seq<char>, Ty>, k: int)
    requires
        0 <= k <= s.len(),
    ensures
        trees::payload_types(generics::payloads_substituted(s, m), k) =~= each(
            trees::payload_types(s, k),
            m,
        ),
    decreases k,
{
    if k > 0 {
        lemma_payloads(s, m, k - 1);
        assert(generics::payloads_substituted(s, m)[k - 1] == generics::all_substituted(
            s[k - 1],
            m,
        ));
    }
}

/// What is left of a node without its types and parts stays.
proof fn lemma_shell(n: Node, m: Map<Seq<char>, Ty>)
    ensures
        trees::shell(replaced(n, m)) == trees::shell(n),
{
    reveal_with_fuel(generics::substituted, 2);
    reveal_with_fuel(generics::stmt_substituted, 2);
    reveal_with_fuel(generics::expr_substituted, 3);
    reveal_with_fuel(generics::pat_substituted, 2);
    match n {
        Node::Stmt(s) => match s {
            Stmt::Function(_, a, _, _, _) => {
                assert(trees::blank_typed(generics::typed_substituted(a, m))
                    =~= trees::blank_typed(a));
            },
            Stmt::Struct(_, a, _) => {
                assert(trees::blank_typed(generics::typed_substituted(a, m))
                    =~= trees::blank_typed(a));
            },
            Stmt::Enum(_, _, ps, _) => {
                assert(trees::blank_payloads(generics::payloads_substituted(ps, m))
                    =~= trees::blank_payloads(ps));
            },
            Stmt::Interface(_, ms, _) => {
                assert(trees::blank_methods(generics::methods_substituted(ms, m))
                    =~= trees::blank_methods(ms));
            },
            _ => {},
        },
        Node::Expr(e) => match e.kind {
            ExprKind::Closure(ps, _, _) => {
                assert(trees::blank_params(generics::params_substituted(ps, m))
                    =~= trees::blank_params(ps));
            },
            ExprKind::StructInitialisation(_, fs) => {
                assert(trees::blank_fields(generics::fields_substituted(fs, m))
                    =~= trees::blank_fields(fs));
            },
            _ => {},
        },
        Node::Pat(p) => {},
    }
}

/// The types of a node are replaced one by one.
proof fn lemma_types(n: Node, m: Map<Seq<char>, Ty>)
    ensures
        trees::types(replaced(n, m)) =~= each(trees::types(n), m),
{
    match n {
        Node::Stmt(s) => match s {
            Stmt::Enum(_, _, ps, _) => lemma_payloads(ps, m, ps.len() as int),
            _ => {},
        },
        Node::Expr(e) => match e.kind {
            ExprKind::Closure(ps, _, _) => lemma_params(ps, m, ps.len() as int),
            _ => {},
        },
        Node::Pat(p) => {},
    }
}

/// The parts of a node are replaced one by one; those of a generic definition without its
/// own parameters.
proof fn lemma_parts(n: Node, m: Map<Seq<char>, Ty>, i: int)
    ensures
        trees::children(replaced(n, m)).len() == trees::children(n).len(),
        0 <= i < trees::children(n).len() ==> trees::children(replaced(n, m))[i] == replaced(
            trees::children(n)[i],
            generics::without(m, trees::binds(n)),
        ),
        trees::binds(replaced(n, m)) == trees::binds(n),
{
    reveal_with_fuel(generics::stmt_substituted, 2);
    reveal_with_fuel(generics::expr_substituted, 3);
    reveal_with_fuel(generics::pat_substituted, 2);
    assert(generics::without(m, Seq::empty()) =~= m);
}

/// Leaving names out in two steps is leaving all of them out.
proof fn lemma_without_twice(m: Map<Seq<char>, Ty>, a: Seq<Seq<char>>, b: Seq<Seq<char>>)
    ensures
        generics::without(generics::without(m, a), b) == generics::without(m, a + b),
{
    assert forall|n: Seq<char>| (a + b).contains(n) == (a.contains(n) || b.contains(n)) by {
        if a.contains(n) {
            let i = choose|i: int| 0 <= i < a.len() && a[i] == n;
            assert((a + b)[i] == n);
        }
        if b.contains(n) {
            let i = choose|i: int| 0 <= i < b.len() && b[i] == n;
            assert((a + b)[a.len() + i] == n);
        }
    }
    assert(generics::without(generics::without(m, a), b) =~= generics::without(m, a + b));
}

// ---------------------------------------------------------------------------
// Every place of a tree

/// A substitution keeps the tree and replaces its types, at every place: the same paths
/// lead to nodes, each node is the same but for its types and parts, and each of its types
/// is the type that stood there with the types of `m` in the place of the names that no
/// generic definition around it binds.
pub proof fn lemma_replaced_at(n: Node, m: Map<Seq<char>, Ty>, path: Seq<int>)
    ensures
        trees::at(replaced(n, m), path) is Some <==> trees::at(n, path) is Some,
        trees::bound_along(replaced(n, m), path) == trees::bound_along(n, path),
        trees::at(n, path) is Some ==> {
            let before = trees::at(n, path)->0;
            let after = trees::at(replaced(n, m), path)->0;
            &&& trees::shell(after) == trees::shell(before)
            &&& trees::children(after).len() == trees::children(before).len()
            &&& trees::types(after).len() == trees::types(before).len()
            &&& forall|i: int|
                0 <= i < trees::types(before).len() ==> #[trigger] trees::types(after)[i]
                    == generics::substituted(
                    trees::types(before)[i],
                    generics::without(m, trees::bound_along(n, path)),
                )
        },
    decreases path.len(),
{
    if path.len() == 0 {
        lemma_shell(n, m);
        lemma_types(n, m);
        lemma_parts(n, m, 0);
        assert(generics::without(m, Seq::empty()) =~= m);
    } else {
        let i = path[0];
        lemma_parts(n, m, i);
        if 0 <= i < trees::children(n).len() {
            let child = trees::children(n)[i];
            let inner = generics::without(m, trees::binds(n));
            lemma_replaced_at(child, inner, path.skip(1));
            lemma_without_twice(
                m,
                trees::binds(n),
                trees::bound_along(child, path.skip(1)),
            );
        }
    }
}

/// Whether a name is mentioned as a type at the end of a path, and no generic definition
/// along the path binds it.
pub open spec fn mentions_at(n: Node, name: Seq<char>, path: Seq<int>) -> bool {
    &&& trees::at(n, path) is Some
    &&& !trees::bound_along(n, path).contains(name)
    &&& exists|i: int|
        0 <= i < trees::types(trees::at(n, path)->0).len() && #[trigger] generics::occurs(
            trees::types(trees::at(n, path)->0)[i],
            name,
        )
}

/// After a substitution no replaced name is mentioned anywhere in a tree, unless a type
/// that was put in mentions it.
pub proof fn lemma_name_gone(n: Node, m: Map<Seq<char>, Ty>, name: Seq<char>, path: Seq<int>)
    requires
        m.contains_key(name),
        forall|k: Seq<char>| #[trigger] m.contains_key(k) ==> !generics::occurs(m[k], name),
    ensures
        !mentions_at(replaced(n, m), name, path),
{
    lemma_replaced_at(n, m, path);
    if mentions_at(replaced(n, m), name, path) {
        let inner = generics::without(m, trees::bound_along(n, path));
        let before = trees::at(n, path)->0;
        let after = trees::at(replaced(n, m), path)->0;
        let i = choose|i: int|
            0 <= i < trees::types(after).len() && #[trigger] generics::occurs(
                trees::types(after)[i],
                name,
            );
        assert(inner.contains_key(name));
        lemma_name_gone_from_type(trees::types(before)[i], inner, name);
        assert(false);
    }
}

// ---------------------------------------------------------------------------
// Mentions

/// Whether a name occurs as a type in a node.
pub open spec fn mentions(n: Node, name: Seq<char>) -> bool {
    match n {
        Node::Stmt(s) => generics::stmt_mentions(s, name),
        Node::Expr(e) => generics::expr_mentions(e, name),
        Node::Pat(p) => generics::pat_mentions(p, name),
    }
}

/// Whether a name occurs as a type in one of some nodes.
spec fn any_mentions(ns: Seq<Node>, name: Seq<char>) -> bool {
    exists|i: int| 0 <= i < ns.len() && mentions(#[trigger] ns[i], name)
}

/// The mentions in some nodes and in some more.
broadcast proof fn lemma_mentions_more(a: Seq<Node>, b: Seq<Node>, name: Seq<char>)
    ensures
        #[trigger] any_mentions(a + b, name) <==> any_mentions(a, name) || any_mentions(b, name),
{
    let c = a + b;
    assert forall|i: int| 0 <= i < a.len() implies #[trigger] a[i] == c[i] by {}
    assert forall|i: int| 0 <= i < b.len() implies #[trigger] b[i] == c[a.len() + i] by {}
    if any_mentions(c, name) {
        let i = choose|i: int| 0 <= i < c.len() && mentions(#[trigger] c[i], name);
        if i < a.len() {
            assert(c[i] == a[i]);
        } else {
            assert(c[i] == b[i - a.len()]);
        }
    }
}

/// The mentions in one node.
broadcast proof fn lemma_mentions_one(n: Node, name: Seq<char>)
    ensures
        #[trigger] any_mentions(seq![n], name) <==> mentions(n, name),
{
    assert(seq![n][0] == n);
}

/// The mentions in statements.
broadcast proof fn lemma_mentions_stmts(ss: Seq<Stmt>, name: Seq<char>)
    ensures
        #[trigger] any_mentions(trees::stmt_nodes(ss), name) <==> generics::stmts_mention(ss, name),
{
    let ns = trees::stmt_nodes(ss);
    assert forall|i: int| 0 <= i < ss.len() implies mentions(ns[i], name)
        == generics::stmt_mentions(#[trigger] ss[i], name) by {}
}

/// The mentions in expressions.
broadcast proof fn lemma_mentions_exprs(ss: Seq<Expr>, name: Seq<char>)
    ensures
        #[trigger] any_mentions(trees::expr_nodes(ss), name) <==> generics::exprs_mention(ss, name),
{
    let ns = trees::expr_nodes(ss);
    assert forall|i: int| 0 <= i < ss.len() implies mentions(ns[i], name)
        == generics::expr_mentions(#[trigger] ss[i], name) by {}
}

/// The mentions in patterns.
broadcast proof fn lemma_mentions_pats(ss: Seq<Pat>, name: Seq<char>)
    ensures
        #[trigger] any_mentions(trees::pat_nodes(ss), name) <==> generics::pats_mention(ss, name),
{
    let ns = trees::pat_nodes(ss);
    assert forall|i: int| 0 <= i < ss.len() implies mentions(ns[i], name)
        == generics::pat_mentions(#[trigger] ss[i], name) by {}
}

/// The mentions in named expressions.
broadcast proof fn lemma_mentions_fields(ss: Seq<(Seq<char>, Expr)>, name: Seq<char>)
    ensures
        #[trigger] any_mentions(trees::field_nodes(ss), name) <==> generics::fields_mention(
            ss,
            name,
        ),
{
    let ns = trees::field_nodes(ss);
    assert forall|i: int| 0 <= i < ss.len() implies mentions(ns[i], name)
        == generics::expr_mentions((#[trigger] ss[i]).1, name) by {}
}

/// The mentions in methods.
broadcast proof fn lemma_mentions_methods(ss: Seq<(Stmt, bool)>, name: Seq<char>)
    ensures
        #[trigger] any_mentions(trees::method_nodes(ss), name) <==> generics::methods_mention(
            ss,
            name,
        ),
{
    let ns = trees::method_nodes(ss);
    assert forall|i: int| 0 <= i < ss.len() implies mentions(ns[i], name)
        == generics::stmt_mentions((#[trigger] ss[i]).0, name) by {}
}

/// The mentions in arms.
broadcast proof fn lemma_mentions_arms(ss: Seq<(Pat, Expr)>, name: Seq<char>)
    ensures
        #[trigger] any_mentions(trees::arm_nodes(ss), name) <==> generics::arms_mention(ss, name),
{
    let ns = trees::arm_nodes(ss);
    assert forall|i: int| 0 <= i < ss.len() implies mentions(ns[2 * i], name)
        == generics::pat_mentions((#[trigger] ss[i]).0, name) && mentions(ns[2 * i + 1], name)
        == generics::expr_mentions(ss[i].1, name) by {}
    if any_mentions(ns, name) {
        let i = choose|i: int| 0 <= i < ns.len() && mentions(#[trigger] ns[i], name);
        assert(ns[i] == if i % 2 == 0 {
            Node::Pat(ss[i / 2].0)
        } else {
            Node::Expr(ss[i / 2].1)
        });
    }
}

broadcast group group_mentions {
    lemma_mentions_more,
    lemma_mentions_one,
    lemma_mentions_stmts,
    lemma_mentions_exprs,
    lemma_mentions_pats,
    lemma_mentions_fields,
    lemma_mentions_methods,
    lemma_mentions_arms,
}

/// The names in some types and in some more.
broadcast proof fn lemma_occurs_more(a: Seq<Ty>, b: Seq<Ty>, name: Seq<char>)
    ensures
        #[trigger] generics::any_occurs(a + b, name) <==> generics::any_occurs(a, name)
            || generics::any_occurs(b, name),
{
    let c = a + b;
    assert forall|i: int| 0 <= i < a.len() implies #[trigger] a[i] == c[i] by {}
    assert forall|i: int| 0 <= i < b.len() implies #[trigger] b[i] == c[a.len() + i] by {}
    if generics::any_occurs(c, name) {
        let i = choose|i: int| 0 <= i < c.len() && generics::occurs(#[trigger] c[i], name);
        if i < a.len() {
            assert(c[i] == a[i]);
        } else {
            assert(c[i] == b[i - a.len()]);
        }
    }
}

/// The names in one type.
broadcast proof fn lemma_occurs_one(t: Ty, name: Seq<char>)
    ensures
        #[trigger] generics::any_occurs(seq![t], name) <==> generics::occurs(t, name),
{
    assert(seq![t][0] == t);
}

/// The names in the types of parameters.
proof fn lemma_occurs_params(s: Seq<(Option<Ty>, Seq<char>)>, k: int, name: Seq<char>)
    requires
        0 <= k <= s.len(),
    ensures
        generics::any_occurs(trees::param_types(s, k), name) <==> exists|i: int|
            0 <= i < k && generics::opt_occurs((#[trigger] s[i]).0, name),
    decreases k,
{
    broadcast use {lemma_occurs_more, lemma_occurs_one};

    if k > 0 {
        lemma_occurs_params(s, k - 1, name);
        assert(generics::any_occurs(trees::opt_types(s[k - 1].0), name) == generics::opt_occurs(
            s[k - 1].0,
            name,
        ));
    }
}

/// The names in payloads.
proof fn lemma_occurs_payloads(s: Seq<Seq<Ty>>, k: int, name: Seq<char>)
    requires
        0 <= k <= s.len(),
    ensures
        generics::any_occurs(trees::payload_types(s, k), name) <==> exists|i: int|
            0 <= i < k && generics::any_occurs(#[trigger] s[i], name),
    decreases k,
{
    broadcast use {lemma_occurs_more, lemma_occurs_one};

    if k > 0 {
        lemma_occurs_payloads(s, k - 1, name);
    }
}

/// The names in the types of typed names.
broadcast proof fn lemma_occurs_typed(s: Seq<(Ty, Seq<char>)>, name: Seq<char>)
    ensures
        #[trigger] generics::any_occurs(trees::typed_types(s), name) <==> generics::typed_mention(
            s,
            name,
        ),
{
    let ts = trees::typed_types(s);
    assert forall|i: int| 0 <= i < s.len() implies (#[trigger] s[i]).0 == ts[i] by {}
}

/// A name is mentioned in a node in its own types, or in its parts unless the node binds
/// it.
proof fn lemma_mentions_inside(n: Node, name: Seq<char>)
    ensures
        mentions(n, name) <==> generics::any_occurs(trees::types(n), name) || (
        !trees::binds(n).contains(name) && any_mentions(trees::children(n), name)),
{
    broadcast use group_mentions;
    broadcast use {lemma_occurs_more, lemma_occurs_one, lemma_occurs_typed};

    reveal_with_fuel(generics::stmt_mentions, 2);
    reveal_with_fuel(generics::expr_mentions, 3);
    reveal_with_fuel(generics::pat_mentions, 2);
    match n {
        Node::Stmt(s) => match s {
            Stmt::Enum(_, _, ps, _) => lemma_occurs_payloads(ps, ps.len() as int, name),
            _ => {},
        },
        Node::Expr(e) => match e.kind {
            ExprKind::Closure(ps, _, _) => lemma_occurs_params(ps, ps.len() as int, name),
            _ => {},
        },
        Node::Pat(p) => {},
    }
}

/// A name is mentioned in a tree exactly if it occurs in a type at some place, around
/// which no generic definition binds it.
pub proof fn lemma_mentions(n: Node, name: Seq<char>)
    ensures
        mentions(n, name) <==> exists|path: Seq<int>| mentions_at(n, name, path),
    decreases trees::depth(n),
{
    lemma_mentions_inside(n, name);
    let ts = trees::types(n);
    if mentions(n, name) {
        if generics::any_occurs(ts, name) {
            let i = choose|i: int| 0 <= i < ts.len() && generics::occurs(#[trigger] ts[i], name);
            assert(generics::occurs(trees::types(trees::at(n, Seq::empty())->0)[i], name));
            assert(mentions_at(n, name, Seq::empty()));
        } else {
            let i = choose|i: int|
                0 <= i < trees::children(n).len() && mentions(
                    #[trigger] trees::children(n)[i],
                    name,
                );
            trees::lemma_parts_are_less_deep(n, i);
            lemma_mentions(trees::children(n)[i], name);
            let p = choose|p: Seq<int>| mentions_at(trees::children(n)[i], name, p);
            let path = seq![i] + p;
            lemma_step(n, name, path, i, p);
        }
    }
    if exists|path: Seq<int>| mentions_at(n, name, path) {
        let path = choose|path: Seq<int>| mentions_at(n, name, path);
        if path.len() > 0 {
            let i = path[0];
            trees::lemma_parts_are_less_deep(n, i);
            lemma_mentions(trees::children(n)[i], name);
            lemma_step(n, name, path, i, path.skip(1));
        }
    }
}

/// A mention at the end of a path is one at the end of the rest of the path.
proof fn lemma_step(n: Node, name: Seq<char>, path: Seq<int>, i: int, p: Seq<int>)
    requires
        0 <= i < trees::children(n).len(),
        path =~= seq![i] + p,
    ensures
        mentions_at(n, name, path) <==> !trees::binds(n).contains(name) && mentions_at(
            trees::children(n)[i],
            name,
            p,
        ),
{
    assert(path.skip(1) =~= p);
    let a = trees::binds(n);
    let b = trees::bound_along(trees::children(n)[i], p);
    assert((a + b).contains(name) == (a.contains(name) || b.contains(name))) by {
        if a.contains(name) {
            let k = choose|k: int| 0 <= k < a.len() && a[k] == name;
            assert((a + b)[k] == name);
        }
        if b.contains(name) {
            let k = choose|k: int| 0 <= k < b.len() && b[k] == name;
            assert((a + b)[a.len() + k] == name);
        }
    }
}

/// After a substitution no replaced name is mentioned in a statement, as long as it occurs
/// in no type that was put in.
pub proof fn lemma_name_gone_from_statement(s: Stmt, m: Map<Seq<char>, Ty>, name: Seq<char>)
    requires
        m.contains_key(name),
        forall|k: Seq<char>| #[trigger] m.contains_key(k) ==> !generics::occurs(m[k], name),
    ensures
        !generics::stmt_mentions(generics::stmt_substituted(s, m), name),
{
    let n = replaced(Node::Stmt(s), m);
    lemma_mentions(n, name);
    assert forall|path: Seq<int>| !mentions_at(n, name, path) by {
        lemma_name_gone(Node::Stmt(s), m, name, path);
    }
}

/// The same of an expression.
pub proof fn lemma_name_gone_from_expression(e: Expr, m: Map<Seq<char>, Ty>, name: Seq<char>)
    requires
        m.contains_key(name),
        forall|k: Seq<char>| #[trigger] m.contains_key(k) ==> !generics::occurs(m[k], name),
    ensures
        !generics::expr_mentions(generics::expr_substituted(e, m), name),
{
    let n = replaced(Node::Expr(e), m);
    lemma_mentions(n, name);
    assert forall|path: Seq<int>| !mentions_at(n, name, path) by {
        lemma_name_gone(Node::Expr(e), m, name, path);
    }
}

} // verus!
