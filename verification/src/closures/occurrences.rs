//! Where names stand in a tree: a name is used by a part of a tree where it stands as a
//! variable somewhere in it, and no closure around that place declares it.

use vstd::prelude::*;
use crate::ast::{Expr, ExprKind, Pat, Stmt};
use crate::closures;
use crate::closures::Uses;
use crate::trees;
use crate::trees::Node;

verus! {

// ---------------------------------------------------------------------------
// Places

/// The parts of a node in which a name can be a variable. The name of a member, of a
/// struct or of a namespace is none, and definitions inside a definition are none of its
/// variables either.
pub open spec fn places(n: Node) -> Seq<Node> {
    match n {
        Node::Stmt(Stmt::Impl(..)) => Seq::empty(),
        Node::Stmt(Stmt::Generic(..)) => Seq::empty(),
        Node::Stmt(Stmt::Interface(..)) => Seq::empty(),
        Node::Expr(e) => match e.kind {
            ExprKind::StructAccess(object, _) => seq![Node::Expr(*object)],
            ExprKind::StructInitialisation(_, fs) => trees::field_nodes(fs),
            ExprKind::NamespaceAccess(..) => Seq::empty(),
            _ => trees::children(n),
        },
        Node::Pat(Pat::Or(_)) => Seq::empty(),
        _ => trees::children(n),
    }
}

/// Whether a node is a closure.
pub open spec fn is_closure(n: Node) -> bool {
    n matches Node::Expr(e) && e.kind is Closure
}

/// Whether a node by itself declares a name.
pub open spec fn declares(n: Node, name: Seq<char>) -> bool {
    match n {
        Node::Stmt(s) => match s {
            Stmt::Function(_, args, _, _, _) => exists|i: int|
                0 <= i < args.len() && (#[trigger] args[i]).1 == name,
            Stmt::Assign(_, declared, _, _, _) => declared == name,
            Stmt::ForIn(declared, _, _, _, _, _) => declared == name,
            Stmt::Destructure(_, declared, _, _) => declared.contains(name),
            _ => false,
        },
        Node::Expr(e) => match e.kind {
            ExprKind::Closure(params, _, _) => exists|i: int|
                0 <= i < params.len() && (#[trigger] params[i]).1 == name,
            _ => false,
        },
        Node::Pat(p) => match p {
            Pat::Destructure(_, _, bindings) => exists|i: int|
                0 <= i < bindings.len() && #[trigger] bindings[i] == Some(name),
            Pat::Binding(declared) => declared == name,
            _ => false,
        },
    }
}

/// Whether a name is declared at the end of a path that goes through no closure.
pub open spec fn declared_at(n: Node, name: Seq<char>, path: Seq<int>) -> bool
    decreases path.len(),
{
    if path.len() == 0 {
        !is_closure(n) && declares(n, name)
    } else {
        &&& !is_closure(n)
        &&& 0 <= path[0] < places(n).len()
        &&& declared_at(places(n)[path[0]], name, path.skip(1))
    }
}

/// Whether a closure has a name for itself: it is a parameter, or declared in the body.
pub open spec fn keeps(closure: Node, name: Seq<char>) -> bool {
    ||| declares(closure, name)
    ||| exists|i: int, path: Seq<int>|
        0 <= i < places(closure).len() && #[trigger] declared_at(places(closure)[i], name, path)
}

/// Whether a name stands as a variable at the end of a path, and no closure on the way has
/// the name for itself.
pub open spec fn occurs_at(n: Node, name: Seq<char>, path: Seq<int>) -> bool
    decreases path.len(),
{
    if path.len() == 0 {
        n matches Node::Expr(e) && e.kind == ExprKind::Identifier(name)
    } else {
        &&& 0 <= path[0] < places(n).len()
        &&& !(is_closure(n) && keeps(n, name))
        &&& occurs_at(places(n)[path[0]], name, path.skip(1))
    }
}

/// Whether a path leads to a closure in which a name stands that it does not have for
/// itself.
pub open spec fn captured_at(n: Node, name: Seq<char>, path: Seq<int>) -> bool
    decreases path.len(),
{
    if path.len() == 0 {
        is_closure(n) && exists|p: Seq<int>| occurs_at(n, name, p)
    } else {
        &&& 0 <= path[0] < places(n).len()
        &&& captured_at(places(n)[path[0]], name, path.skip(1))
    }
}

// ---------------------------------------------------------------------------
// One node

/// What a name can be to a part of a tree.
enum Role {
    Used,
    Declared,
    Free,
}

/// The names of a node.
pub open spec fn uses(n: Node) -> Uses {
    match n {
        Node::Stmt(s) => closures::stmt_uses(s),
        Node::Expr(e) => closures::expr_uses(e),
        Node::Pat(p) => closures::pat_uses(p),
    }
}

/// The names inside a node, which are the node's names unless it is a closure.
spec fn inside(n: Node) -> Uses {
    match n {
        Node::Expr(e) => match e.kind {
            ExprKind::Closure(params, _, body) => closures::join(
                closures::declaring(closures::param_names(params).to_set()),
                closures::stmts_uses(body, 0),
            ),
            _ => uses(n),
        },
        _ => uses(n),
    }
}

/// Whether a name has a role.
spec fn among(u: Uses, role: Role, name: Seq<char>) -> bool {
    match role {
        Role::Used => u.used.contains(name),
        Role::Declared => u.declared.contains(name),
        Role::Free => u.free.contains(name),
    }
}

/// Whether a name has a role in one of some nodes.
spec fn in_any(ns: Seq<Node>, role: Role, name: Seq<char>) -> bool {
    exists|i: int| 0 <= i < ns.len() && among(uses(#[trigger] ns[i]), role, name)
}

/// Whether a name has a role in a node by itself.
spec fn by_itself(n: Node, role: Role, name: Seq<char>) -> bool {
    match role {
        Role::Used => n matches Node::Expr(e) && e.kind == ExprKind::Identifier(name),
        Role::Declared => declares(n, name),
        Role::Free => false,
    }
}

/// The names of some nodes and of some more.
broadcast proof fn lemma_any_more(a: Seq<Node>, b: Seq<Node>, role: Role, name: Seq<char>)
    ensures
        #[trigger] in_any(a + b, role, name) <==> in_any(a, role, name) || in_any(b, role, name),
{
    let c = a + b;
    if in_any(a, role, name) {
        let i = choose|i: int| 0 <= i < a.len() && among(uses(#[trigger] a[i]), role, name);
        assert(c[i] == a[i]);
    }
    if in_any(b, role, name) {
        let i = choose|i: int| 0 <= i < b.len() && among(uses(#[trigger] b[i]), role, name);
        assert(c[a.len() + i] == b[i]);
    }
    if in_any(c, role, name) {
        let i = choose|i: int| 0 <= i < c.len() && among(uses(#[trigger] c[i]), role, name);
        if i < a.len() {
            assert(c[i] == a[i]);
        } else {
            assert(c[i] == b[i - a.len()]);
        }
    }
}

/// The names of one node.
broadcast proof fn lemma_any_one(n: Node, role: Role, name: Seq<char>)
    ensures
        #[trigger] in_any(seq![n], role, name) <==> among(uses(n), role, name),
{
    assert(seq![n][0] == n);
}

/// No names of no nodes.
broadcast proof fn lemma_any_none(role: Role, name: Seq<char>)
    ensures
        !#[trigger] in_any(Seq::empty(), role, name),
{
}

/// The names of statements from position `k` on.
proof fn lemma_stmts(ss: Seq<Stmt>, k: int, role: Role, name: Seq<char>)
    requires
        0 <= k <= ss.len(),
    ensures
        among(closures::stmts_uses(ss, k), role, name) <==> exists|i: int|
            k <= i < ss.len() && among(closures::stmt_uses(#[trigger] ss[i]), role, name),
    decreases ss.len() - k,
{
    if k < ss.len() {
        lemma_stmts(ss, k + 1, role, name);
    }
}

/// The names of expressions from position `k` on.
proof fn lemma_exprs(ss: Seq<Expr>, k: int, role: Role, name: Seq<char>)
    requires
        0 <= k <= ss.len(),
    ensures
        among(closures::exprs_uses(ss, k), role, name) <==> exists|i: int|
            k <= i < ss.len() && among(closures::expr_uses(#[trigger] ss[i]), role, name),
    decreases ss.len() - k,
{
    if k < ss.len() {
        lemma_exprs(ss, k + 1, role, name);
    }
}

/// The names of named expressions from position `k` on.
proof fn lemma_fields(ss: Seq<(Seq<char>, Expr)>, k: int, role: Role, name: Seq<char>)
    requires
        0 <= k <= ss.len(),
    ensures
        among(closures::fields_uses(ss, k), role, name) <==> exists|i: int|
            k <= i < ss.len() && among(closures::expr_uses((#[trigger] ss[i]).1), role, name),
    decreases ss.len() - k,
{
    if k < ss.len() {
        lemma_fields(ss, k + 1, role, name);
    }
}

/// The names of arms from position `k` on.
proof fn lemma_arms(ss: Seq<(Pat, Expr)>, k: int, role: Role, name: Seq<char>)
    requires
        0 <= k <= ss.len(),
    ensures
        among(closures::arms_uses(ss, k), role, name) <==> exists|i: int|
            k <= i < ss.len() && (among(closures::pat_uses((#[trigger] ss[i]).0), role, name)
                || among(closures::expr_uses(ss[i].1), role, name)),
    decreases ss.len() - k,
{
    if k < ss.len() {
        lemma_arms(ss, k + 1, role, name);
    }
}

/// The names of patterns from position `k` on.
proof fn lemma_pats(ss: Seq<Pat>, k: int, role: Role, name: Seq<char>)
    requires
        0 <= k <= ss.len(),
    ensures
        among(closures::pats_uses(ss, k), role, name) <==> exists|i: int|
            k <= i < ss.len() && among(closures::pat_uses(#[trigger] ss[i]), role, name),
    decreases ss.len() - k,
{
    if k < ss.len() {
        lemma_pats(ss, k + 1, role, name);
    }
}

/// The names in a list with gaps, from position `k` on.
proof fn lemma_bound(bindings: Seq<Option<Seq<char>>>, k: int, name: Seq<char>)
    requires
        0 <= k <= bindings.len(),
    ensures
        closures::bound_names(bindings, k).contains(name) <==> exists|i: int|
            k <= i < bindings.len() && #[trigger] bindings[i] == Some(name),
    decreases bindings.len() - k,
{
    if k < bindings.len() {
        lemma_bound(bindings, k + 1, name);
    }
}

/// The names of statements as nodes.
broadcast proof fn lemma_any_stmts(ss: Seq<Stmt>, role: Role, name: Seq<char>)
    ensures
        #[trigger] in_any(trees::stmt_nodes(ss), role, name) <==> among(
            closures::stmts_uses(ss, 0),
            role,
            name,
        ),
{
    lemma_stmts(ss, 0, role, name);
    let ns = trees::stmt_nodes(ss);
    assert forall|i: int| 0 <= i < ss.len() && among(
        closures::stmt_uses(#[trigger] ss[i]),
        role,
        name,
    ) implies in_any(ns, role, name) by {
        assert(ns[i] == Node::Stmt(ss[i]));
    }
    if in_any(ns, role, name) {
        let i = choose|i: int| 0 <= i < ns.len() && among(uses(#[trigger] ns[i]), role, name);
        assert(ns[i] == Node::Stmt(ss[i]));
    }
}

/// The names of expressions as nodes.
broadcast proof fn lemma_any_exprs(ss: Seq<Expr>, role: Role, name: Seq<char>)
    ensures
        #[trigger] in_any(trees::expr_nodes(ss), role, name) <==> among(
            closures::exprs_uses(ss, 0),
            role,
            name,
        ),
{
    lemma_exprs(ss, 0, role, name);
    let ns = trees::expr_nodes(ss);
    assert forall|i: int| 0 <= i < ss.len() && among(
        closures::expr_uses(#[trigger] ss[i]),
        role,
        name,
    ) implies in_any(ns, role, name) by {
        assert(ns[i] == Node::Expr(ss[i]));
    }
    if in_any(ns, role, name) {
        let i = choose|i: int| 0 <= i < ns.len() && among(uses(#[trigger] ns[i]), role, name);
        assert(ns[i] == Node::Expr(ss[i]));
    }
}

/// The names of named expressions as nodes.
broadcast proof fn lemma_any_fields(ss: Seq<(Seq<char>, Expr)>, role: Role, name: Seq<char>)
    ensures
        #[trigger] in_any(trees::field_nodes(ss), role, name) <==> among(
            closures::fields_uses(ss, 0),
            role,
            name,
        ),
{
    lemma_fields(ss, 0, role, name);
    let ns = trees::field_nodes(ss);
    assert forall|i: int| 0 <= i < ss.len() && among(
        closures::expr_uses((#[trigger] ss[i]).1),
        role,
        name,
    ) implies in_any(ns, role, name) by {
        assert(ns[i] == Node::Expr(ss[i].1));
    }
    if in_any(ns, role, name) {
        let i = choose|i: int| 0 <= i < ns.len() && among(uses(#[trigger] ns[i]), role, name);
        assert(ns[i] == Node::Expr(ss[i].1));
    }
}

/// The names of patterns as nodes.
broadcast proof fn lemma_any_pats(ss: Seq<Pat>, role: Role, name: Seq<char>)
    ensures
        #[trigger] in_any(trees::pat_nodes(ss), role, name) <==> among(
            closures::pats_uses(ss, 0),
            role,
            name,
        ),
{
    lemma_pats(ss, 0, role, name);
    let ns = trees::pat_nodes(ss);
    assert forall|i: int| 0 <= i < ss.len() && among(
        closures::pat_uses(#[trigger] ss[i]),
        role,
        name,
    ) implies in_any(ns, role, name) by {
        assert(ns[i] == Node::Pat(ss[i]));
    }
    if in_any(ns, role, name) {
        let i = choose|i: int| 0 <= i < ns.len() && among(uses(#[trigger] ns[i]), role, name);
        assert(ns[i] == Node::Pat(ss[i]));
    }
}

/// The names of arms as nodes.
broadcast proof fn lemma_any_arms(ss: Seq<(Pat, Expr)>, role: Role, name: Seq<char>)
    ensures
        #[trigger] in_any(trees::arm_nodes(ss), role, name) <==> among(
            closures::arms_uses(ss, 0),
            role,
            name,
        ),
{
    lemma_arms(ss, 0, role, name);
    let ns = trees::arm_nodes(ss);
    assert forall|i: int| 0 <= i < ss.len() && (among(
        closures::pat_uses((#[trigger] ss[i]).0),
        role,
        name,
    ) || among(closures::expr_uses(ss[i].1), role, name)) implies in_any(ns, role, name) by {
        assert(ns[2 * i] == Node::Pat(ss[i].0));
        assert(ns[2 * i + 1] == Node::Expr(ss[i].1));
    }
    if in_any(ns, role, name) {
        let i = choose|i: int| 0 <= i < ns.len() && among(uses(#[trigger] ns[i]), role, name);
        assert(ns[i] == if i % 2 == 0 {
            Node::Pat(ss[i / 2].0)
        } else {
            Node::Expr(ss[i / 2].1)
        });
    }
}

broadcast group group_any {
    lemma_any_more,
    lemma_any_one,
    lemma_any_none,
    lemma_any_stmts,
    lemma_any_exprs,
    lemma_any_fields,
    lemma_any_pats,
    lemma_any_arms,
}

/// The names inside a node are those that it has by itself and those of its places.
proof fn lemma_inside(n: Node, role: Role, name: Seq<char>)
    ensures
        among(inside(n), role, name) <==> by_itself(n, role, name) || in_any(
            places(n),
            role,
            name,
        ),
{
    broadcast use group_any;

    reveal_with_fuel(closures::stmt_uses, 2);
    reveal_with_fuel(closures::expr_uses, 2);
    reveal_with_fuel(closures::pat_uses, 2);
    match n {
        Node::Stmt(s) => match s {
            Stmt::Function(_, args, _, _, _) => {
                let names = closures::arg_names(args);
                assert(names.to_set().contains(name) <==> names.contains(name));
                assert forall|i: int| 0 <= i < args.len() implies (#[trigger] args[i]).1
                    == names[i] by {}
                assert(names.contains(name) <==> declares(n, name));
            },
            _ => {},
        },
        Node::Expr(e) => match e.kind {
            ExprKind::Closure(params, _, _) => {
                let names = closures::param_names(params);
                assert(names.to_set().contains(name) <==> names.contains(name));
                assert forall|i: int| 0 <= i < params.len() implies (#[trigger] params[i]).1
                    == names[i] by {}
                assert(names.contains(name) <==> declares(n, name));
            },
            _ => {},
        },
        Node::Pat(p) => match p {
            Pat::Destructure(_, _, bindings) => lemma_bound(bindings, 0, name),
            _ => {},
        },
    }
}

/// A place does not go as deep as the node that it stands in.
proof fn lemma_places_are_less_deep(n: Node, i: int)
    requires
        0 <= i < places(n).len(),
    ensures
        trees::depth(places(n)[i]) < trees::depth(n),
{
    match n {
        Node::Expr(e) => match e.kind {
            ExprKind::StructAccess(_, _) => trees::lemma_parts_are_less_deep(n, 0),
            ExprKind::StructInitialisation(_, _) => {
                assert(places(n)[i] == trees::children(n)[i + 1]);
                trees::lemma_parts_are_less_deep(n, i + 1);
            },
            _ => {
                trees::lemma_parts_are_less_deep(n, i);
            },
        },
        _ => {
            trees::lemma_parts_are_less_deep(n, i);
        },
    }
}

// ---------------------------------------------------------------------------
// Every place of a tree

/// The names that a part of a tree declares are those for which there is a declaration in
/// it outside closures.
pub proof fn lemma_declared(n: Node, name: Seq<char>)
    ensures
        uses(n).declared.contains(name) <==> exists|path: Seq<int>| declared_at(n, name, path),
    decreases trees::depth(n),
{
    if !is_closure(n) {
        lemma_inside(n, Role::Declared, name);
        if uses(n).declared.contains(name) {
            if declares(n, name) {
                assert(declared_at(n, name, Seq::empty()));
            } else {
                let i = choose|i: int|
                    0 <= i < places(n).len() && among(
                        uses(#[trigger] places(n)[i]),
                        Role::Declared,
                        name,
                    );
                lemma_places_are_less_deep(n, i);
                lemma_declared(places(n)[i], name);
                let p = choose|p: Seq<int>| declared_at(places(n)[i], name, p);
                let path = seq![i] + p;
                assert(path.skip(1) =~= p);
                assert(declared_at(n, name, path));
            }
        }
        if exists|path: Seq<int>| declared_at(n, name, path) {
            let path = choose|path: Seq<int>| declared_at(n, name, path);
            if path.len() > 0 {
                let i = path[0];
                lemma_places_are_less_deep(n, i);
                lemma_declared(places(n)[i], name);
                assert(declared_at(places(n)[i], name, path.skip(1)));
                assert(among(uses(places(n)[i]), Role::Declared, name));
            }
        }
    }
}

/// A closure has for itself the names that are declared inside it.
proof fn lemma_keeps(n: Node, name: Seq<char>)
    requires
        is_closure(n),
    ensures
        keeps(n, name) <==> inside(n).declared.contains(name),
{
    lemma_inside(n, Role::Declared, name);
    if in_any(places(n), Role::Declared, name) {
        let i = choose|i: int|
            0 <= i < places(n).len() && among(uses(#[trigger] places(n)[i]), Role::Declared, name);
        lemma_declared(places(n)[i], name);
        let p = choose|p: Seq<int>| declared_at(places(n)[i], name, p);
        assert(declared_at(places(n)[i], name, p));
    }
    if exists|i: int, path: Seq<int>|
        0 <= i < places(n).len() && #[trigger] declared_at(places(n)[i], name, path) {
        let (i, path) = choose|i: int, path: Seq<int>|
            0 <= i < places(n).len() && #[trigger] declared_at(places(n)[i], name, path);
        lemma_declared(places(n)[i], name);
        assert(among(uses(places(n)[i]), Role::Declared, name));
    }
}

/// The names that a part of a tree uses are those that stand somewhere in it as variables
/// and that no closure around that place declares.
pub proof fn lemma_used(n: Node, name: Seq<char>)
    ensures
        uses(n).used.contains(name) <==> exists|path: Seq<int>| occurs_at(n, name, path),
    decreases trees::depth(n),
{
    lemma_inside(n, Role::Used, name);
    if is_closure(n) {
        lemma_keeps(n, name);
    }
    if uses(n).used.contains(name) {
        if by_itself(n, Role::Used, name) {
            assert(occurs_at(n, name, Seq::empty()));
        } else {
            let i = choose|i: int|
                0 <= i < places(n).len() && among(uses(#[trigger] places(n)[i]), Role::Used, name);
            lemma_places_are_less_deep(n, i);
            lemma_used(places(n)[i], name);
            let p = choose|p: Seq<int>| occurs_at(places(n)[i], name, p);
            let path = seq![i] + p;
            assert(path.skip(1) =~= p);
            assert(occurs_at(n, name, path));
        }
    }
    if exists|path: Seq<int>| occurs_at(n, name, path) {
        let path = choose|path: Seq<int>| occurs_at(n, name, path);
        if path.len() > 0 {
            let i = path[0];
            lemma_places_are_less_deep(n, i);
            lemma_used(places(n)[i], name);
            assert(occurs_at(places(n)[i], name, path.skip(1)));
            assert(among(uses(places(n)[i]), Role::Used, name));
        }
    }
}

/// The names that closures in a part of a tree use from their surroundings are those for
/// which there is a closure in which the name stands and that does not declare it.
pub proof fn lemma_free(n: Node, name: Seq<char>)
    ensures
        uses(n).free.contains(name) <==> exists|path: Seq<int>| captured_at(n, name, path),
    decreases trees::depth(n),
{
    lemma_inside(n, Role::Free, name);
    if is_closure(n) {
        lemma_used(n, name);
    }
    if uses(n).free.contains(name) {
        if is_closure(n) && uses(n).used.contains(name) {
            assert(captured_at(n, name, Seq::empty()));
        } else {
            let i = choose|i: int|
                0 <= i < places(n).len() && among(uses(#[trigger] places(n)[i]), Role::Free, name);
            lemma_places_are_less_deep(n, i);
            lemma_free(places(n)[i], name);
            let p = choose|p: Seq<int>| captured_at(places(n)[i], name, p);
            let path = seq![i] + p;
            assert(path.skip(1) =~= p);
            assert(captured_at(n, name, path));
        }
    }
    if exists|path: Seq<int>| captured_at(n, name, path) {
        let path = choose|path: Seq<int>| captured_at(n, name, path);
        if path.len() > 0 {
            let i = path[0];
            lemma_places_are_less_deep(n, i);
            lemma_free(places(n)[i], name);
            assert(captured_at(places(n)[i], name, path.skip(1)));
            assert(among(uses(places(n)[i]), Role::Free, name));
        }
    }
}

/// What a closure uses from its surroundings: the names that stand in its body and are
/// neither parameters nor declared in the body.
pub proof fn lemma_closure_uses(params: Seq<Seq<char>>, body: Seq<Stmt>, name: Seq<char>)
    ensures
        closures::closure_uses(closures::body_uses(params, body)).used.contains(name) <==> {
            &&& exists|path: Seq<int>| occurs_at(Node::Stmt(Stmt::Group(body)), name, path)
            &&& !params.contains(name)
            &&& !exists|path: Seq<int>| declared_at(Node::Stmt(Stmt::Group(body)), name, path)
        },
{
    lemma_used(Node::Stmt(Stmt::Group(body)), name);
    lemma_declared(Node::Stmt(Stmt::Group(body)), name);
    assert(uses(Node::Stmt(Stmt::Group(body))) == closures::stmts_uses(body, 0));
}

/// What closures in a body use from their surroundings: the names for which a closure
/// stands somewhere in the body, in which the name stands and that does not declare it.
pub proof fn lemma_body_captures(body: Seq<Stmt>, name: Seq<char>)
    ensures
        closures::stmts_uses(body, 0).free.contains(name) <==> exists|path: Seq<int>|
            captured_at(Node::Stmt(Stmt::Group(body)), name, path),
{
    lemma_free(Node::Stmt(Stmt::Group(body)), name);
    assert(uses(Node::Stmt(Stmt::Group(body))) == closures::stmts_uses(body, 0));
}

} // verus!
