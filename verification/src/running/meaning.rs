//! What programs mean, and that generated code does what they mean. The programs here
//! compute with integers and truth values in variables, and decide and repeat.

use vstd::prelude::*;
use crate::assoc;
use crate::ast::{Expression, ExpressionNode};
use crate::ir::Value;
use crate::machine;
use crate::machine::{Env, Val, World};
use crate::running;
use crate::running::matches::agree;
use crate::running::values;
use crate::running::{here, part, reaches, Blocks};
use crate::shape;
use crate::shape::parts;
use crate::translation;
use crate::translation::G;
use crate::types;
use crate::types::Ty;

verus! {

// ---------------------------------------------------------------------------
// Expressions

/// The values of variables, scope by scope.
pub type Store = Seq<Map<Seq<char>, Val>>;

/// The innermost one of the scopes `0..k` that has a variable of that name.
pub open spec fn found(s: Store, name: Seq<char>, k: int) -> Option<int>
    decreases k,
{
    if k <= 0 || k > s.len() {
        None
    } else if s[k - 1].contains_key(name) {
        Some(k - 1)
    } else {
        found(s, name, k - 1)
    }
}

/// The value of an expression: of literals, variables and operators, where the operators
/// apply to the values of their operands and the variables have the types that they are
/// used with.
pub open spec fn evaluated(w: World, s: Store, node: ExpressionNode) -> Option<Val>
    decreases node,
{
    match node.expression {
        Expression::Integer(n) => Some(Val::Int(64, n as int)),
        Expression::Boolean(b) => Some(machine::truth(b)),
        Expression::Identifier(name) => match found(s, name@, s.len() as int) {
            Some(k) => if machine::type_of(s[k][name@]) == (w.kind)(types::ty_of(node.typed)) {
                Some(s[k][name@])
            } else {
                None
            },
            None => None,
        },
        Expression::Infix(left, op, right) => if op is Or || op is And || op is Power {
            None
        } else {
            match (evaluated(w, s, *left), evaluated(w, s, *right)) {
                (Some(a), Some(b)) => if values::applies(op, a, b) {
                    Some(values::operated(w, op, a, b))
                } else {
                    None
                },
                _ => None,
            }
        },
        Expression::Not(operand) => match evaluated(w, s, *operand) {
            Some(a) => Some(machine::complement(a)),
            None => None,
        },
        Expression::BitNot(operand) => match evaluated(w, s, *operand) {
            Some(a) => Some(machine::complement(a)),
            None => None,
        },
        Expression::Cast(operand, t) => match evaluated(w, s, *operand) {
            Some(a) => Some(machine::converted(w, a, (w.kind)(types::ty_of(t)))),
            None => None,
        },
        Expression::Negate(operand) => match evaluated(w, s, *operand) {
            Some(Val::Int(bits, x)) => if bits <= 64 && !(types::ty_of(operand.typed) is Float) {
                Some(Val::Int(64, machine::wrapped(64, -x)))
            } else {
                None
            },
            _ => None,
        },
        _ => None,
    }
}

// ---------------------------------------------------------------------------
// Variables in memory

/// The variables that scopes declare, with their unique names.
pub type Scopes = Seq<Seq<(Seq<char>, Seq<char>)>>;

/// Whether variables with different names have different places.
pub open spec fn apart(w: World) -> bool {
    forall|a: Seq<char>, b: Seq<char>|
        #![trigger (w.place)(a), (w.place)(b)]
        (w.place)(a) == (w.place)(b) ==> a == b
}

/// Whether the variables of scopes are stored in memory with their values, each in a place
/// of its own.
#[verifier::opaque]
pub open spec fn sees(
    w: World,
    scopes: Scopes,
    variables: Seq<(Seq<char>, Ty)>,
    memory: Map<int, Val>,
    s: Store,
) -> bool {
    &&& scopes.len() == s.len()
    &&& forall|k: int, name: Seq<char>|
        0 <= k < s.len() ==> (#[trigger] assoc::get(scopes[k], name) is Some
            <==> s[k].contains_key(name))
    &&& forall|k: int, name: Seq<char>|
        0 <= k < s.len() ==> (#[trigger] assoc::get(scopes[k], name) matches Some(unique) ==> {
            &&& memory[(w.place)(unique)] == s[k][name]
            &&& assoc::defined(variables, unique)
        })
    &&& forall|j: int, a: Seq<char>, k: int, b: Seq<char>|
        #![trigger assoc::get(scopes[j], a), assoc::get(scopes[k], b)]
        0 <= j < s.len() && 0 <= k < s.len() && assoc::get(scopes[j], a) is Some && assoc::get(
            scopes[j],
            a,
        ) == assoc::get(scopes[k], b) ==> j == k && a == b
}

/// A name stands for the variable of the innermost scope that declares it.
pub proof fn lemma_found(w: World, scopes: Scopes, variables: Seq<(Seq<char>, Ty)>, memory: Map<int, Val>, s: Store, name: Seq<char>, k: int)
    requires
        sees(w, scopes, variables, memory, s),
        0 <= k <= s.len(),
    ensures
        found(s, name, k) matches Some(j) ==> 0 <= j < k && s[j].contains_key(name),
        translation::scoped(scopes, name, k) == match found(s, name, k) {
            Some(j) => assoc::get(scopes[j], name),
            None => None,
        },
    decreases k,
{
    reveal(sees);
    reveal(translation::scoped);
    if k > 0 {
        lemma_found(w, scopes, variables, memory, s, name, k - 1);
        assert(assoc::get(scopes[k - 1], name) is Some <==> s[k - 1].contains_key(name));
    }
}

/// A visible variable is found in memory.
pub proof fn lemma_read(w: World, g: G, memory: Map<int, Val>, s: Store, name: Seq<char>)
    requires
        sees(w, g.cg.scopes, g.f.variables, memory, s),
        found(s, name, s.len() as int) is Some,
    ensures
        ({
            let k = found(s, name, s.len() as int)->0;
            &&& 0 <= k < s.len()
            &&& translation::lookup(g, name) == assoc::get(g.cg.scopes[k], name)
            &&& translation::lookup(g, name) matches Some(unique) && memory[(w.place)(unique)]
                == s[k][name]
        }),
{
    lemma_found(w, g.cg.scopes, g.f.variables, memory, s, name, s.len() as int);
    reveal(sees);
    reveal(translation::lookup);
    let k = found(s, name, s.len() as int)->0;
    assert(assoc::get(g.cg.scopes[k], name) is Some);
}

/// Writing a variable changes its value, and no other.
pub proof fn lemma_written(
    w: World,
    scopes: Scopes,
    variables: Seq<(Seq<char>, Ty)>,
    memory: Map<int, Val>,
    s: Store,
    k: int,
    name: Seq<char>,
    x: Val,
)
    requires
        apart(w),
        sees(w, scopes, variables, memory, s),
        0 <= k < s.len(),
        assoc::get(scopes[k], name) is Some,
    ensures
        sees(
            w,
            scopes,
            variables,
            memory.insert((w.place)(assoc::get(scopes[k], name)->0), x),
            s.update(k, s[k].insert(name, x)),
        ),
{
    reveal(sees);
    let unique = assoc::get(scopes[k], name)->0;
    let after = memory.insert((w.place)(unique), x);
    let t = s.update(k, s[k].insert(name, x));
    assert forall|j: int, other: Seq<char>| 0 <= j < t.len() implies (#[trigger] assoc::get(
        scopes[j],
        other,
    ) is Some <==> t[j].contains_key(other)) by {
        assert(assoc::get(scopes[j], other) is Some <==> s[j].contains_key(other));
    }
    assert forall|j: int, other: Seq<char>| 0 <= j < t.len() implies (#[trigger] assoc::get(
        scopes[j],
        other,
    ) matches Some(u) ==> after[(w.place)(u)] == t[j][other] && assoc::defined(variables, u)) by {
        if let Some(u) = assoc::get(scopes[j], other) {
            assert(memory[(w.place)(u)] == s[j][other]);
            if u == unique {
                assert(j == k && other == name);
            } else {
                assert((w.place)(u) != (w.place)(unique));
            }
        }
    }
}

/// A declaration adds a variable with its value, and changes no other.
pub proof fn lemma_declared(
    w: World,
    scopes: Scopes,
    variables: Seq<(Seq<char>, Ty)>,
    memory: Map<int, Val>,
    s: Store,
    name: Seq<char>,
    unique: Seq<char>,
    t: Ty,
    x: Val,
)
    requires
        apart(w),
        sees(w, scopes, variables, memory, s),
        s.len() > 0,
        !assoc::defined(variables, unique),
    ensures
        ({
            let top = s.len() - 1;
            sees(
                w,
                scopes.update(top, assoc::put(scopes[top], name, unique)),
                assoc::put(variables, unique, t),
                memory.insert((w.place)(unique), x),
                s.update(top, s[top].insert(name, x)),
            )
        }),
{
    reveal(sees);
    let top = s.len() - 1;
    let more = scopes.update(top, assoc::put(scopes[top], name, unique));
    let vars = assoc::put(variables, unique, t);
    let after = memory.insert((w.place)(unique), x);
    let u = s.update(top, s[top].insert(name, x));
    assert forall|j: int, other: Seq<char>| 0 <= j < s.len() implies #[trigger] assoc::get(
        more[j],
        other,
    ) == if j == top && other == name {
        Some(unique)
    } else {
        assoc::get(scopes[j], other)
    } by {
        assoc::lemma_put_get(scopes[top], name, unique, other);
    }
    assert forall|j: int, other: Seq<char>| 0 <= j < u.len() implies (#[trigger] assoc::get(
        more[j],
        other,
    ) is Some <==> u[j].contains_key(other)) by {
        assert(assoc::get(scopes[j], other) is Some <==> s[j].contains_key(other));
    }
    assert forall|j: int, other: Seq<char>| 0 <= j < u.len() implies (#[trigger] assoc::get(
        more[j],
        other,
    ) matches Some(v) ==> after[(w.place)(v)] == u[j][other] && assoc::defined(vars, v)) by {
        if let Some(v) = assoc::get(more[j], other) {
            assoc::lemma_put_get(variables, unique, t, v);
            reveal(assoc::get);
            if !(j == top && other == name) {
                assert(assoc::get(scopes[j], other) == Some(v));
                assert(memory[(w.place)(v)] == s[j][other]);
                assert(v != unique);
                assert((w.place)(v) != (w.place)(unique));
            }
        }
    }
    assert forall|j: int, a: Seq<char>, k: int, b: Seq<char>|
        #![trigger assoc::get(more[j], a), assoc::get(more[k], b)]
        0 <= j < u.len() && 0 <= k < u.len() && assoc::get(more[j], a) is Some && assoc::get(
            more[j],
            a,
        ) == assoc::get(more[k], b) implies j == k && a == b by {
        let v = assoc::get(more[j], a)->0;
        if j == top && a == name {
            if !(k == top && b == name) {
                assert(assoc::get(scopes[k], b) == Some(unique));
            }
        } else if k == top && b == name {
            assert(assoc::get(scopes[j], a) == Some(unique));
        } else {
            assert(assoc::get(scopes[j], a) == assoc::get(scopes[k], b));
        }
    }
}

/// A new scope has no variables.
pub proof fn lemma_entered(w: World, scopes: Scopes, variables: Seq<(Seq<char>, Ty)>, memory: Map<int, Val>, s: Store)
    requires
        sees(w, scopes, variables, memory, s),
    ensures
        sees(
            w,
            scopes.push(Seq::empty()),
            variables,
            memory,
            s.push(Map::empty()),
        ),
{
    reveal(sees);
    let none = Seq::<(Seq<char>, Seq<char>)>::empty();
    let more = scopes.push(none);
    let t = s.push(Map::<Seq<char>, Val>::empty());
    assert forall|name: Seq<char>| (#[trigger] assoc::get(none, name)) is None by {
        assoc::lemma_absent(none, name);
    }
    assert forall|j: int, name: Seq<char>| 0 <= j < t.len() implies (#[trigger] assoc::get(
        more[j],
        name,
    ) is Some <==> t[j].contains_key(name)) by {
        if j < s.len() {
            assert(assoc::get(scopes[j], name) is Some <==> s[j].contains_key(name));
        } else {
            assert(assoc::get(none, name) is None);
        }
    }
    assert forall|j: int, name: Seq<char>| 0 <= j < t.len() implies (#[trigger] assoc::get(
        more[j],
        name,
    ) matches Some(v) ==> memory[(w.place)(v)] == t[j][name] && assoc::defined(variables, v)) by {
        if j < s.len() {
            assert(more[j] == scopes[j]);
        } else {
            assert(assoc::get(none, name) is None);
        }
    }
    assert forall|j: int, a: Seq<char>, k: int, b: Seq<char>|
        #![trigger assoc::get(more[j], a), assoc::get(more[k], b)]
        0 <= j < t.len() && 0 <= k < t.len() && assoc::get(more[j], a) is Some && assoc::get(
            more[j],
            a,
        ) == assoc::get(more[k], b) implies j == k && a == b by {
        if j < s.len() && k < s.len() {
            assert(assoc::get(scopes[j], a) == assoc::get(scopes[k], b));
        } else if j >= s.len() {
            assert(assoc::get(none, a) is None);
        } else {
            assert(assoc::get(none, b) is None);
        }
    }
}

/// The outer scopes stay as they are, whatever the inner ones hold.
pub proof fn lemma_outer(
    w: World,
    scopes: Scopes,
    variables: Seq<(Seq<char>, Ty)>,
    memory: Map<int, Val>,
    s: Store,
    outer: Scopes,
    more: Seq<(Seq<char>, Ty)>,
    n: int,
)
    requires
        sees(w, scopes, variables, memory, s),
        0 <= n <= s.len(),
        outer.len() == n,
        forall|k: int| 0 <= k < n ==> #[trigger] outer[k] == scopes[k],
        forall|x: Seq<char>| assoc::defined(variables, x) ==> #[trigger] assoc::defined(more, x),
    ensures
        sees(w, outer, more, memory, s.take(n)),
{
    reveal(sees);
    let t = s.take(n);
    assert forall|j: int, name: Seq<char>| 0 <= j < t.len() implies (#[trigger] assoc::get(
        outer[j],
        name,
    ) is Some <==> t[j].contains_key(name)) by {
        assert(assoc::get(scopes[j], name) is Some <==> s[j].contains_key(name));
    }
    assert forall|j: int, name: Seq<char>| 0 <= j < t.len() implies (#[trigger] assoc::get(
        outer[j],
        name,
    ) matches Some(v) ==> memory[(w.place)(v)] == t[j][name] && assoc::defined(more, v)) by {
        assert(outer[j] == scopes[j]);
        assert(assoc::get(scopes[j], name) is Some <==> s[j].contains_key(name));
    }
    assert forall|j: int, a: Seq<char>, k: int, b: Seq<char>|
        #![trigger assoc::get(outer[j], a), assoc::get(outer[k], b)]
        0 <= j < t.len() && 0 <= k < t.len() && assoc::get(outer[j], a) is Some && assoc::get(
            outer[j],
            a,
        ) == assoc::get(outer[k], b) implies j == k && a == b by {
        assert(assoc::get(scopes[j], a) == assoc::get(scopes[k], b));
    }
}

// ---------------------------------------------------------------------------
// The code of expressions

/// The code of an expression gives the value that the expression has, and changes nothing
/// that could be read before.
pub proof fn lemma_evaluated(w: World, g: G, node: ExpressionNode, h: G, v: Value, blocks: Blocks, e: Env, s: Store)
    requires
        shape::sound(g),
        translation::expr(g, node, true) == Some((h, v)),
        part(h, blocks),
        sees(w, g.cg.scopes, g.f.variables, e.memory, s),
        evaluated(w, s, node) is Some,
    ensures
        part(g, blocks),
        values::gives(w, blocks, g, e, h, v, evaluated(w, s, node)->0),
        h.cg == g.cg,
        h.f.variables == g.f.variables,
    decreases node, 1int,
{
    let x = evaluated(w, s, node)->0;
    values::lemma_value(g, node, true, h, v);
    running::lemma_part(g, h, blocks);
    match node.expression {
        Expression::Integer(_) => {
            values::lemma_literal(w, g, node, h, v, blocks, e);
            lemma_same_names(g, node, h, v);
        },
        Expression::Boolean(_) => {
            values::lemma_literal(w, g, node, h, v, blocks, e);
            lemma_same_names(g, node, h, v);
        },
        Expression::Identifier(name) => {
            lemma_read(w, g, e.memory, s, name@);
            values::lemma_name(w, g, node, true, h, v, blocks, e);
            lemma_same_names(g, node, h, v);
        },
        Expression::Infix(left, op, right) => {
            let r = values::lemma_infix(w, g, node, h, v, blocks);
            lemma_evaluated(w, g, parts::node(left), r.left, r.a, blocks, e, s);
            let e1 = lemma_gives(w, blocks, g, e, r.left, r.a, evaluated(w, s, parts::node(left))->0);
            values::lemma_value(g, parts::node(left), true, r.left, r.a);
            lemma_evaluated(w, r.left, parts::node(right), r.right, r.b, blocks, e1, s);
            let e2 = lemma_gives(w, blocks, r.left, e1, r.right, r.b, evaluated(w, s, parts::node(right))->0);
            lemma_kept_value(w, e1, e2, r.a, r.left.f.registers as nat);
            assert(here(r.right, e2) == here(r.right, e2));
            assert(values::gives(w, blocks, r.right, e2, h, v, x));
            let e3 = lemma_gives(w, blocks, r.right, e2, h, v, x);
            values::lemma_value(r.left, parts::node(right), true, r.right, r.b);
            running::lemma_on(w, blocks, here(g, e), here(r.left, e1), here(r.right, e2));
            running::lemma_on(w, blocks, here(g, e), here(r.right, e2), here(h, e3));
            lemma_agree_on(e, e1, e2, g.f.registers as nat, r.left.f.registers as nat);
            lemma_agree_on(e, e2, e3, g.f.registers as nat, r.right.f.registers as nat);
            assert(reaches(w, blocks, here(g, e), here(h, e3)) && agree(
                e,
                e3,
                g.f.registers as nat,
            ) && machine::value_of(w, e3, v) == x);
            assert(h.cg == r.right.cg && h.f.variables == r.right.f.variables) by {
                lemma_infix_names(g, node, r, h, v);
            }
        },
        Expression::Not(operand) => {
            lemma_evaluated_unary(w, g, node, h, v, blocks, e, s);
        },
        Expression::BitNot(operand) => {
            lemma_evaluated_unary(w, g, node, h, v, blocks, e, s);
        },
        Expression::Cast(..) => {
            lemma_evaluated_unary(w, g, node, h, v, blocks, e, s);
        },
        Expression::Negate(operand) => {
            let r = values::lemma_negate(w, g, node, h, v, blocks);
            assert(here(g, e) == here(g, e));
            let e1 = lemma_gives(w, blocks, g, e, r.start, r.zero, Val::Int(64, 0));
            lemma_negate_names(g, node, r, h, v);
            lemma_evaluated(w, r.start, parts::node(operand), r.done, r.a, blocks, e1, s);
            let y = evaluated(w, s, parts::node(operand))->0;
            let e2 = lemma_gives(w, blocks, r.start, e1, r.done, r.a, y);
            lemma_kept_value(w, e1, e2, r.zero, r.start.f.registers as nat);
            assert(here(r.done, e2) == here(r.done, e2));
            assert(values::gives(w, blocks, r.done, e2, h, v, x));
            let e3 = lemma_gives(w, blocks, r.done, e2, h, v, x);
            values::lemma_value(r.start, parts::node(operand), true, r.done, r.a);
            running::lemma_on(w, blocks, here(g, e), here(r.start, e1), here(r.done, e2));
            running::lemma_on(w, blocks, here(g, e), here(r.done, e2), here(h, e3));
            lemma_agree_on(e, e1, e2, g.f.registers as nat, r.start.f.registers as nat);
            lemma_agree_on(e, e2, e3, g.f.registers as nat, r.done.f.registers as nat);
            assert(reaches(w, blocks, here(g, e), here(h, e3)) && agree(
                e,
                e3,
                g.f.registers as nat,
            ) && machine::value_of(w, e3, v) == x);
        },
        _ => {},
    }
}

/// The code of a complement or a conversion.
proof fn lemma_evaluated_unary(w: World, g: G, node: ExpressionNode, h: G, v: Value, blocks: Blocks, e: Env, s: Store)
    requires
        shape::sound(g),
        node.expression is Not || node.expression is BitNot || node.expression is Cast,
        translation::expr(g, node, true) == Some((h, v)),
        part(h, blocks),
        sees(w, g.cg.scopes, g.f.variables, e.memory, s),
        evaluated(w, s, node) is Some,
    ensures
        values::gives(w, blocks, g, e, h, v, evaluated(w, s, node)->0),
        h.cg == g.cg,
        h.f.variables == g.f.variables,
    decreases node, 0int,
{
    let x = evaluated(w, s, node)->0;
    let operand = values::operand_of(node)->0;
    let (g1, a) = values::lemma_unary(w, g, node, h, v, blocks);
    lemma_evaluated(w, g, parts::node(operand), g1, a, blocks, e, s);
    values::lemma_value(g, parts::node(operand), true, g1, a);
    let e1 = lemma_gives(w, blocks, g, e, g1, a, evaluated(w, s, parts::node(operand))->0);
    assert(here(g1, e1) == here(g1, e1));
    assert(values::gives(w, blocks, g1, e1, h, v, x));
    let e2 = lemma_gives(w, blocks, g1, e1, h, v, x);
    running::lemma_on(w, blocks, here(g, e), here(g1, e1), here(h, e2));
    lemma_agree_on(e, e1, e2, g.f.registers as nat, g1.f.registers as nat);
    assert(reaches(w, blocks, here(g, e), here(h, e2)) && agree(e, e2, g.f.registers as nat)
        && machine::value_of(w, e2, v) == x);
    reveal(translation::expr);
    reveal(translation::inner);
    reveal(translation::unary);
    reveal(crate::ir::defining);
    reveal(crate::ir::appended);
}

/// Where the code of an expression leads.
pub proof fn lemma_gives(w: World, blocks: Blocks, g: G, e: Env, h: G, v: Value, x: Val) -> (e2: Env)
    requires
        values::gives(w, blocks, g, e, h, v, x),
    ensures
        reaches(w, blocks, here(g, e), here(h, e2)),
        agree(e, e2, g.f.registers as nat),
        machine::value_of(w, e2, v) == x,
{
    choose|e2: Env|
        #![trigger here(h, e2)]
        reaches(w, blocks, here(g, e), here(h, e2)) && agree(e, e2, g.f.registers as nat)
            && machine::value_of(w, e2, v) == x
}

/// A value that could be read before is the same in states that agree.
proof fn lemma_kept_value(w: World, a: Env, b: Env, v: Value, n: nat)
    requires
        agree(a, b, n),
        shape::in_use(v, n),
    ensures
        machine::value_of(w, a, v) == machine::value_of(w, b, v),
{
    if let Value::Local(r) = v {
        assert(a.registers[r] == b.registers[r]);
    }
}

/// States that agree in turn agree.
proof fn lemma_agree_on(a: Env, b: Env, c: Env, m: nat, n: nat)
    requires
        agree(a, b, m),
        agree(b, c, n),
        m <= n,
    ensures
        agree(a, c, m),
{
    assert forall|r: usize| r < m implies #[trigger] a.registers[r] == c.registers[r] by {
        assert(b.registers[r] == c.registers[r]);
        assert(a.registers[r] == b.registers[r]);
    }
}

/// A literal or a name declares nothing.
proof fn lemma_same_names(g: G, node: ExpressionNode, h: G, v: Value)
    requires
        node.expression is Integer || node.expression is Boolean || node.expression is Identifier,
        translation::expr(g, node, true) == Some((h, v)),
    ensures
        h.cg == g.cg,
        h.f.variables == g.f.variables,
{
    reveal(translation::expr);
    reveal(translation::inner);
    reveal(translation::name_use);
    reveal(translation::read_name);
    reveal(crate::ir::defining);
    reveal(crate::ir::appended);
}

/// A negation declares nothing.
proof fn lemma_negate_names(g: G, node: ExpressionNode, r: values::Negation, h: G, v: Value)
    requires
        node.expression is Negate,
        !(types::ty_of(node.expression->Negate_0.typed) is Float),
        translation::expr(g, node, true) == Some((h, v)),
        translation::int_const(g, 0) == Some((r.start, r.zero)),
        translation::expr(r.start, *node.expression->Negate_0, true) == Some((r.done, r.a)),
    ensures
        r.start.cg == g.cg,
        r.start.f.variables == g.f.variables,
        h.cg == r.done.cg,
        h.f.variables == r.done.f.variables,
        shape::in_use(r.zero, r.start.f.registers as nat),
        g.f.registers <= r.start.f.registers,
{
    reveal(translation::expr);
    reveal(translation::inner);
    reveal(translation::unary);
    reveal(crate::ir::defining);
    reveal(crate::ir::appended);
}

/// An operator declares nothing.
proof fn lemma_infix_names(g: G, node: ExpressionNode, r: values::Operands, h: G, v: Value)
    requires
        node.expression is Infix,
        !(node.expression->Infix_1 is Or),
        !(node.expression->Infix_1 is And),
        translation::expr(g, node, true) == Some((h, v)),
        translation::expr(g, *node.expression->Infix_0, true) == Some((r.left, r.a)),
        translation::expr(r.left, *node.expression->Infix_2, true) == Some((r.right, r.b)),
    ensures
        h.cg == r.right.cg,
        h.f.variables == r.right.f.variables,
{
    reveal(translation::expr);
    reveal(translation::inner);
    reveal(translation::infix);
    reveal(crate::ir::defining);
    reveal(crate::ir::appended);
}

} // verus!
