//! What a lowered program declares: for each struct, function, string and global of the
//! program a step, as the program has it.

use vstd::prelude::*;
use crate::assoc;
use crate::ir::{Extern, Fun, GlobalValue, StructDef};
use crate::lowering;
use crate::lowering::{Linkage, Ll, LlvmType, Op, Step};
use crate::shape;
use crate::types::Ty;

verus! {

/// Whether LLVM types are those of types, one by one.
pub open spec fn are_types(l: Ll, ts: Seq<Ty>, types: Seq<LlvmType>) -> bool {
    &&& types.len() == ts.len()
    &&& forall|i: int|
        0 <= i < ts.len() ==> lowering::basic_type(l, #[trigger] ts[i]) == Some(types[i])
}

/// The LLVM types of types are those of the types, in that order.
proof fn lemma_types(l: Ll, ts: Seq<Ty>, k: int, done: Seq<LlvmType>)
    requires
        0 <= k <= ts.len(),
        done.len() == k,
        forall|i: int| 0 <= i < k ==> lowering::basic_type(l, #[trigger] ts[i]) == Some(done[i]),
    ensures
        lowering::basic_types(l, ts, k, done) matches Some(types) ==> are_types(l, ts, types),
    decreases ts.len() - k,
{
    reveal(lowering::basic_types);
    if k < ts.len() {
        if let Some(t) = lowering::basic_type(l, ts[k]) {
            lemma_types(l, ts, k + 1, done.push(t));
        }
    }
}

/// Which LLVM type a type has depends on the structs and enums only.
proof fn lemma_same_types(a: Ll, b: Ll, t: Ty)
    requires
        a.structs == b.structs,
        a.enums == b.enums,
        a.boxed_enums == b.boxed_enums,
    ensures
        lowering::basic_type(a, t) == lowering::basic_type(b, t),
{
    reveal(lowering::basic_type);
}

/// Whether a module has the structs and enums of another one, and its steps and more.
pub open spec fn follows(a: Ll, b: Ll) -> bool {
    &&& a.structs == b.structs
    &&& a.enums == b.enums
    &&& a.boxed_enums == b.boxed_enums
    &&& shape::extends(a.ops, b.ops)
}

/// What follows in two turns follows.
proof fn lemma_follows(a: Ll, b: Ll, c: Ll)
    requires
        follows(a, b),
        follows(b, c),
    ensures
        follows(a, c),
{
    assert forall|k: int| 0 <= k < a.ops.len() implies c.ops[k] == #[trigger] a.ops[k] by {
        assert(b.ops[k] == a.ops[k]);
    }
}

// ---------------------------------------------------------------------------
// Functions

/// Whether a step declares a function: its name, the types of its parameters in order, its
/// result, whether it takes further arguments, and who sees it.
pub open spec fn declares(
    l: Ll,
    op: Step,
    name: Seq<char>,
    params: Seq<Ty>,
    result: Ty,
    varargs: bool,
    linkage: Linkage,
) -> bool {
    op matches Op::DeclareFunction(n, ps, r, v, k) && {
        &&& n == name
        &&& are_types(l, params, ps)
        &&& if result is Void {
            r is None
        } else {
            r is Some && r == lowering::basic_type(l, result)
        }
        &&& v == varargs
        &&& k == linkage
    }
}

/// One declaration.
proof fn lemma_declared(
    l: Ll,
    name: Seq<char>,
    params: Seq<Ty>,
    ps: Seq<LlvmType>,
    result: Ty,
    r: Option<LlvmType>,
    varargs: bool,
    linkage: Linkage,
)
    requires
        lowering::basic_types(l, params, 0, Seq::empty()) == Some(ps),
        lowering::result_type(l, result) == Some(r),
    ensures
        ({
            let next = lowering::declared(l, name, ps, r, varargs, linkage);
            &&& follows(l, next)
            &&& next.ops.len() == l.ops.len() + 1
            &&& declares(l, next.ops[l.ops.len() as int], name, params, result, varargs, linkage)
        }),
{
    reveal(lowering::declared);
    reveal(lowering::result_type);
    lemma_types(l, params, 0, Seq::empty());
}

/// Each function that is defined elsewhere is declared, once for each time that the program
/// has it, and in that order.
pub proof fn lemma_externs(l: Ll, externs: Seq<(Seq<char>, Extern)>, k: int, j: int)
    requires
        0 <= k,
        lowering::externs_declared(l, externs, k) is Some,
    ensures
        lowering::externs_declared(l, externs, k) matches Some(last) && {
            &&& follows(l, last)
            &&& k <= externs.len() ==> last.ops.len() == l.ops.len() + externs.len() - k
            &&& k <= j < externs.len() ==> declares(
                l,
                last.ops[l.ops.len() + j - k],
                externs[j].0,
                externs[j].1.arguments,
                externs[j].1.result,
                externs[j].1.varargs,
                Linkage::External,
            )
        },
    decreases externs.len() - k,
{
    reveal(lowering::externs_declared);
    if k < externs.len() {
        let f = externs[k].1;
        let ps = lowering::basic_types(l, f.arguments, 0, Seq::empty())->0;
        let r = lowering::result_type(l, f.result)->0;
        lemma_declared(
            l,
            externs[k].0,
            f.arguments,
            ps,
            f.result,
            r,
            f.varargs,
            Linkage::External,
        );
        let next = lowering::declared(l, externs[k].0, ps, r, f.varargs, Linkage::External);
        lemma_externs(next, externs, k + 1, j);
        let last = lowering::externs_declared(l, externs, k)->0;
        lemma_follows(l, next, last);
        if j == k {
            assert(last.ops[l.ops.len() as int] == next.ops[l.ops.len() as int]);
        } else if k < j < externs.len() {
            lemma_declares_same(
                next,
                l,
                last.ops[l.ops.len() + j - k],
                externs[j].0,
                externs[j].1.arguments,
                externs[j].1.result,
                externs[j].1.varargs,
                Linkage::External,
            );
        }
    }
}

/// What a step declares depends on the structs and enums only.
proof fn lemma_declares_same(
    a: Ll,
    b: Ll,
    op: Step,
    name: Seq<char>,
    params: Seq<Ty>,
    result: Ty,
    varargs: bool,
    linkage: Linkage,
)
    requires
        a.structs == b.structs,
        a.enums == b.enums,
        a.boxed_enums == b.boxed_enums,
    ensures
        declares(a, op, name, params, result, varargs, linkage) == declares(
            b,
            op,
            name,
            params,
            result,
            varargs,
            linkage,
        ),
{
    lemma_same_types(a, b, result);
    assert forall|i: int| 0 <= i < params.len() implies lowering::basic_type(
        a,
        #[trigger] params[i],
    ) == lowering::basic_type(b, params[i]) by {
        lemma_same_types(a, b, params[i]);
    }
}

/// What a function gives back to its caller. The program itself gives its exit code to the
/// system, so where it has none it gives a 32-bit integer.
pub open spec fn result_of(name: Seq<char>, f: Fun) -> Ty {
    if name == "main"@ && f.result is Void {
        Ty::SizedSignedInt(32)
    } else {
        f.result
    }
}

/// Each function of a program is declared with the types of its arguments, in their order,
/// and with its result. Only `main` is seen from outside.
pub proof fn lemma_functions(l: Ll, functions: Seq<(Seq<char>, Fun)>, k: int, j: int)
    requires
        0 <= k,
        lowering::functions_declared(l, functions, k) is Some,
    ensures
        lowering::functions_declared(l, functions, k) matches Some(last) && {
            &&& follows(l, last)
            &&& k <= functions.len() ==> last.ops.len() == l.ops.len() + functions.len() - k
            &&& k <= j < functions.len() ==> declares(
                l,
                last.ops[l.ops.len() + j - k],
                functions[j].0,
                lowering::argument_types(functions[j].1),
                result_of(functions[j].0, functions[j].1),
                false,
                if functions[j].0 == "main"@ {
                    Linkage::Default
                } else {
                    Linkage::Private
                },
            )
        },
    decreases functions.len() - k,
{
    reveal(lowering::functions_declared);
    if k < functions.len() {
        let name = functions[k].0;
        let f = functions[k].1;
        let linkage = if name == "main"@ {
            Linkage::Default
        } else {
            Linkage::Private
        };
        let ps = lowering::basic_types(l, lowering::argument_types(f), 0, Seq::empty())->0;
        let r = lowering::result_type(l, lowering::returned(name, f.result))->0;
        lemma_declared(
            l,
            name,
            lowering::argument_types(f),
            ps,
            result_of(name, f),
            r,
            false,
            linkage,
        );
        let next = lowering::declared(l, name, ps, r, false, linkage);
        lemma_functions(next, functions, k + 1, j);
        let last = lowering::functions_declared(l, functions, k)->0;
        lemma_follows(l, next, last);
        if j == k {
            assert(last.ops[l.ops.len() as int] == next.ops[l.ops.len() as int]);
        } else if k < j < functions.len() {
            lemma_declares_same(
                next,
                l,
                last.ops[l.ops.len() + j - k],
                functions[j].0,
                lowering::argument_types(functions[j].1),
                result_of(functions[j].0, functions[j].1),
                false,
                if functions[j].0 == "main"@ {
                    Linkage::Default
                } else {
                    Linkage::Private
                },
            );
        }
    }
}

// ---------------------------------------------------------------------------
// Structs

/// Each struct gets the types of its members, in their order.
pub proof fn lemma_structs(l: Ll, structs: Seq<(Seq<char>, StructDef)>, k: int, j: int)
    requires
        0 <= k,
        structs.len() <= usize::MAX,
        structs.len() <= l.layouts.len(),
        lowering::structs_filled(l, structs, k) is Some,
    ensures
        lowering::structs_filled(l, structs, k) matches Some(last) && {
            &&& follows(l, last)
            &&& last.layouts.len() == l.layouts.len()
            &&& 0 <= j < k && j < l.layouts.len() ==> last.layouts[j] == l.layouts[j]
            &&& k <= j < structs.len() ==> {
                &&& last.ops.len() > l.ops.len() + j - k
                &&& last.ops[l.ops.len() + j - k] == Op::<
                    Seq<char>,
                    Seq<LlvmType>,
                    Seq<crate::lowering::Operand>,
                >::SetBody(j as usize, last.layouts[j])
                &&& are_types(l, lowering::attribute_types(structs[j].1), last.layouts[j])
            }
        },
    decreases structs.len() - k,
{
    reveal(lowering::structs_filled);
    if k < structs.len() {
        let ts = lowering::attribute_types(structs[k].1);
        let types = lowering::basic_types(l, ts, 0, Seq::empty())->0;
        lemma_types(l, ts, 0, Seq::empty());
        let next = lowering::step(
            Ll { layouts: l.layouts.update(k, types), ..l },
            Op::SetBody(k as usize, types),
        );
        lemma_structs(next, structs, k + 1, j);
        lemma_structs(next, structs, k + 1, k);
        let last = lowering::structs_filled(l, structs, k)->0;
        lemma_follows(l, next, last);
        if j == k {
            assert(last.ops[l.ops.len() as int] == next.ops[l.ops.len() as int]);
            assert(last.layouts[k] == types);
        } else if k < j < structs.len() {
            let ts = lowering::attribute_types(structs[j].1);
            assert forall|i: int| 0 <= i < ts.len() implies lowering::basic_type(
                l,
                #[trigger] ts[i],
            ) == lowering::basic_type(next, ts[i]) by {
                lemma_same_types(l, next, ts[i]);
            }
        }
    }
}

// ---------------------------------------------------------------------------
// Constants

/// Each string of a program is built, in order, and is known by its number.
pub proof fn lemma_strings(l: Ll, strings: Seq<Seq<char>>, k: int, j: int)
    requires
        0 <= k <= strings.len(),
        l.ops.len() + strings.len() - k <= usize::MAX,
    ensures
        ({
            let last = lowering::strings_built(l, strings, k);
            &&& follows(l, last)
            &&& last.strings.len() == l.strings.len() + strings.len() - k
            &&& last.ops.len() == l.ops.len() + strings.len() - k
            &&& forall|i: int| 0 <= i < l.strings.len() ==> last.strings[i] == #[trigger] l.strings[i]
            &&& k <= j < strings.len() ==> {
                let v = last.strings[l.strings.len() + j - k];
                &&& v.id == l.ops.len() + j - k
                &&& last.ops[v.id as int] == Op::<
                    Seq<char>,
                    Seq<LlvmType>,
                    Seq<crate::lowering::Operand>,
                >::GlobalString(strings[j])
            }
        }),
    decreases strings.len() - k,
{
    reveal(lowering::strings_built);
    if k < strings.len() {
        let (l1, v) = lowering::built(l, Op::GlobalString(strings[k]), LlvmType::Pointer);
        let next = Ll { strings: l1.strings.push(v), ..l1 };
        lemma_strings(next, strings, k + 1, j);
        let last = lowering::strings_built(l, strings, k);
        lemma_follows(l, next, last);
        assert(last.strings[l.strings.len() as int] == next.strings[l.strings.len() as int]);
        assert forall|i: int| 0 <= i < l.strings.len() implies last.strings[i]
            == #[trigger] l.strings[i] by {
            assert(next.strings[i] == l.strings[i]);
        }
        if j == k {
            assert(last.ops[l.ops.len() as int] == next.ops[l.ops.len() as int]);
        }
    }
}

/// Whether a step gives a global its first value.
pub open spec fn starts_with(op: Step, name: Seq<char>, v: GlobalValue) -> bool {
    match v {
        GlobalValue::Int(i) => op == Op::<
            Seq<char>,
            Seq<LlvmType>,
            Seq<crate::lowering::Operand>,
        >::GlobalInt(name, i),
        GlobalValue::Float(f) => op == Op::<
            Seq<char>,
            Seq<LlvmType>,
            Seq<crate::lowering::Operand>,
        >::GlobalFloat(name, f),
        GlobalValue::Bool(b) => op == Op::<
            Seq<char>,
            Seq<LlvmType>,
            Seq<crate::lowering::Operand>,
        >::GlobalBool(name, b),
        GlobalValue::String(_) => false,
    }
}

/// Each global is built with the value that the program has for it, and found under its
/// name. One that is a string is the string constant.
pub proof fn lemma_globals(l: Ll, globals: Seq<(Seq<char>, GlobalValue)>, k: int, j: int)
    requires
        0 <= k <= globals.len(),
        l.ops.len() + globals.len() - k <= usize::MAX,
        lowering::globals_built(l, globals, k) is Some,
        forall|a: int, b: int|
            0 <= a < b < globals.len() ==> (#[trigger] globals[a]).0 != (#[trigger] globals[b]).0,
    ensures
        lowering::globals_built(l, globals, k) matches Some(last) && {
            &&& follows(l, last)
            &&& last.strings == l.strings
            &&& k <= j < globals.len() ==> (assoc::get(last.globals, globals[j].0) matches Some(v)
                && match globals[j].1 {
                GlobalValue::String(n) => n < l.strings.len() && v == l.strings[n as int],
                value => v.id < last.ops.len() && starts_with(
                    last.ops[v.id as int],
                    globals[j].0,
                    value,
                ),
            })
            &&& 0 <= j < k ==> assoc::get(last.globals, globals[j].0) == assoc::get(
                l.globals,
                globals[j].0,
            )
        },
    decreases globals.len() - k,
{
    reveal(lowering::globals_built);
    reveal(lowering::global);
    reveal(lowering::string);
    if k < globals.len() {
        let (l1, v) = lowering::global(l, globals[k].0, globals[k].1)->0;
        let next = Ll { globals: assoc::put(l1.globals, globals[k].0, v), ..l1 };
        lemma_globals(next, globals, k + 1, j);
        let last = lowering::globals_built(l, globals, k)->0;
        lemma_follows(l, next, last);
        assoc::lemma_put_get(l1.globals, globals[k].0, v, globals[k].0);
        if j == k {
            if !(globals[k].1 is String) {
                assert(last.ops[l.ops.len() as int] == next.ops[l.ops.len() as int]);
            }
        } else if 0 <= j < k {
            assert(globals[j].0 != globals[k].0);
            assoc::lemma_put_get(l1.globals, globals[k].0, v, globals[j].0);
        }
    }
}

} // verus!
