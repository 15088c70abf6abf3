//! Names in scopes: what a name stands for, and for how long.

use vstd::prelude::*;
use crate::assoc;
use crate::ast::Statement;
use crate::labels;
use crate::shape;
use crate::shape::statements;
use crate::text;
use crate::translation;
use crate::translation::G;
use crate::types::Ty;

verus! {

/// A variable that is declared is found under its name, with the type that it was
/// declared with.
pub proof fn lemma_declared_is_found(g: G, name: Seq<char>, t: Ty)
    requires
        translation::declare(g, name, t) is Some,
    ensures
        translation::declare(g, name, t) matches Some((h, unique)) && {
            &&& translation::lookup(h, name) == Some(unique)
            &&& assoc::get(h.f.variables, unique) == Some(t)
        },
{
    reveal(translation::declare);
    if let Some((h, unique)) = translation::declare(g, name, t) {
        let top = g.cg.scopes.len() - 1;
        assert(h.cg.scopes[top] == assoc::put(g.cg.scopes[top], name, unique));
        assoc::lemma_put_get(g.cg.scopes[top], name, unique, name);
        assoc::lemma_put_get(g.f.variables, unique, t, unique);
        reveal(translation::lookup);
        reveal(translation::scoped);
    }
}

/// A declaration leaves what other names stand for as it was.
pub proof fn lemma_others_stay(g: G, name: Seq<char>, t: Ty, other: Seq<char>)
    requires
        translation::declare(g, name, t) is Some,
        other != name,
    ensures
        translation::declare(g, name, t) matches Some((h, _)) && translation::lookup(h, other)
            == translation::lookup(g, other),
{
    reveal(translation::declare);
    if let Some((h, unique)) = translation::declare(g, name, t) {
        let top = g.cg.scopes.len() - 1;
        assoc::lemma_put_get(g.cg.scopes[top], name, unique, other);
        assoc::lemma_put_get(g.f.variables, unique, t, other);
        lemma_scopes_below(g.cg.scopes, h.cg.scopes, other, top);
        let d = g.cg.declared;
        assert(d.push(unique)[d.len() as int] == unique);
        if other != unique && d.contains(other) {
            let k = choose|k: int| 0 <= k < d.len() && d[k] == other;
            assert(d.push(unique)[k] == other);
        }
        reveal(assoc::get);
        reveal(translation::lookup);
        reveal(translation::scoped);
    }
}

/// What a name stands for in the scopes `0..k` depends on these scopes only.
proof fn lemma_scopes_below(
    a: Seq<Seq<(Seq<char>, Seq<char>)>>,
    b: Seq<Seq<(Seq<char>, Seq<char>)>>,
    name: Seq<char>,
    k: int,
)
    requires
        a.len() == b.len(),
        0 <= k <= a.len(),
        forall|j: int| 0 <= j < k ==> (#[trigger] a[j]) == b[j],
    ensures
        translation::scoped(a, name, k) == translation::scoped(b, name, k),
    decreases k,
{
    reveal(translation::scoped);
    if k > 0 {
        assert(a[k - 1] == b[k - 1]);
        lemma_scopes_below(a, b, name, k - 1);
    }
}

/// What is declared in a scope is declared there only: behind the statements of a
/// scope, every name stands for the variable that it stood for before them, and for
/// none if it stood for none. A temporary that generation makes for the statements of
/// the scope is left out: it belongs to no scope.
pub proof fn lemma_scope_ends(g: G, ss: Seq<Statement>, ahead: Set<Seq<char>>, name: Seq<char>)
    requires
        shape::ready(g, ahead),
        translation::scope(g, ss) matches Some(h) && (shape::is_temporary(name)
            && assoc::defined(h.f.variables, name) ==> assoc::defined(g.f.variables, name)),
    ensures
        translation::scope(g, ss) matches Some(h) && translation::lookup(h, name)
            == translation::lookup(g, name),
{
    reveal(translation::scope);
    shape::lemma_start(g, ahead);
    shape::lemma_enter(g, ahead);
    let start = translation::enter(g);
    statements::lemma_stmts(start, ss, 0, ahead);
    if let Some(end) = translation::stmts(start, ss, 0) {
        shape::lemma_leave(g, g, end, ahead);
        reveal(shape::extended);
        reveal(shape::names_kept);
        reveal(translation::lookup);
    }
}

/// Whether a name ends with a dot and a number.
pub open spec fn is_numbered(name: Seq<char>) -> bool {
    exists|base: Seq<char>, n: usize|
        name == #[trigger] text::dotted(base, text::digits(n as nat))
}

/// Whether the numbers behind the names of variables go up to `count` only.
#[verifier::opaque]
pub open spec fn numbered_to(variables: Seq<(Seq<char>, Ty)>, count: usize) -> bool {
    forall|base: Seq<char>, n: usize|
        assoc::defined(variables, #[trigger] text::dotted(base, text::digits(n as nat))) ==> n
            <= count
}

/// Whether the numbers behind the names of variables were counted.
pub open spec fn counted(g: G) -> bool {
    numbered_to(g.f.variables, g.cg.var_counter)
}

/// A variable gets a name that the function does not use yet, as long as numbers
/// stand only behind the names that declarations have numbered.
pub proof fn lemma_declared_is_new(g: G, name: Seq<char>, t: Ty)
    requires
        counted(g),
        !is_numbered(name),
        translation::declare(g, name, t) is Some,
    ensures
        translation::declare(g, name, t) matches Some((h, unique)) && {
            &&& !assoc::defined(g.f.variables, unique)
            &&& counted(h)
        },
{
    reveal(numbered_to);
    reveal(translation::declare);
    if let Some((h, unique)) = translation::declare(g, name, t) {
        assert forall|base: Seq<char>, n: usize|
            assoc::defined(
                h.f.variables,
                #[trigger] text::dotted(base, text::digits(n as nat)),
            ) implies n <= h.cg.var_counter by {
            let x = text::dotted(base, text::digits(n as nat));
            assoc::lemma_put_get(g.f.variables, unique, t, x);
            reveal(assoc::get);
            if x == unique {
                if unique == name {
                    assert(is_numbered(name));
                } else {
                    lemma_same_number(base, n, name, h.cg.var_counter);
                }
            }
        }
        if unique != name {
            assert(unique == text::dotted(name, text::digits(h.cg.var_counter as nat)));
        }
    }
}

/// Names with numbers behind them are the same only if the numbers are.
proof fn lemma_same_number(a: Seq<char>, n: usize, b: Seq<char>, m: usize)
    requires
        text::dotted(a, text::digits(n as nat)) == text::dotted(b, text::digits(m as nat)),
    ensures
        n == m,
{
    reveal_strlit(".");
    assert((a + "."@).last() == '.');
    assert((b + "."@).last() == '.');
    labels::lemma_label(a + "."@, n, b + "."@, m);
}

} // verus!
