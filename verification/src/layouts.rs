//! What a program has of the types, functions and globals that its source text declares.

use vstd::prelude::*;
use crate::ast;
use crate::ast::{Expression, Statement, TypedIdentifier};
use crate::assoc;
use crate::ir::{Fun, GlobalValue, Mod, StructDef};
use crate::text;
use crate::translation;
use crate::translation::Cg;
use crate::types;
use crate::types::{AzulaType, Ty};

verus! {

// ---------------------------------------------------------------------------
// Types

/// A struct has the members that it is declared with, in that order.
pub proof fn lemma_struct(cg: Cg, s: Statement)
    requires
        s is Struct,
    ensures
        s matches Statement::Struct { name, attributes, .. } && translation::registered(cg, s) matches Some(
            after,
        ) && assoc::get(after.module.structs, name@) matches Some(def) && {
            &&& def.attributes.len() == attributes@.len()
            &&& forall|i: int|
                0 <= i < attributes@.len() ==> #[trigger] def.attributes[i] == (
                    types::ty_of(attributes@[i].0),
                    attributes@[i].1@,
                )
            &&& forall|other: Seq<char>|
                other != name@ ==> #[trigger] assoc::get(after.module.structs, other)
                    == assoc::get(cg.module.structs, other)
        },
{
    reveal(translation::registered);
    if let Statement::Struct { name, attributes, .. } = s {
        let def = StructDef { name: name@, attributes: ast::typed_of(attributes@) };
        assoc::lemma_put_get(cg.module.structs, name@, def, name@);
        assert forall|other: Seq<char>| other != name@ implies #[trigger] assoc::get(
            assoc::put(cg.module.structs, name@, def),
            other,
        ) == assoc::get(cg.module.structs, other) by {
            assoc::lemma_put_get(cg.module.structs, name@, def, other);
        }
    }
}

/// Names behind the same name and a dot are the same only if they are.
proof fn lemma_dotted(owner: Seq<char>, a: Seq<char>, b: Seq<char>)
    ensures
        text::dotted(owner, a) == text::dotted(owner, b) ==> a == b,
{
    let x = text::dotted(owner, a);
    let y = text::dotted(owner, b);
    reveal_strlit(".");
    if x == y {
        let n = owner.len() + 1;
        assert(x.skip(n as int) =~= a);
        assert(y.skip(n as int) =~= b);
    }
}

/// Whether a struct is that of a variant: the tag, which is an integer, and behind it the
/// payload, in the order in which it is declared.
pub open spec fn is_variant(def: StructDef, payload: Seq<AzulaType>) -> bool {
    &&& def.attributes.len() == 1 + payload.len()
    &&& def.attributes[0].0 == Ty::Int
    &&& forall|j: int|
        0 <= j < payload.len() ==> (#[trigger] def.attributes[j + 1]).0 == types::ty_of(payload[j])
}

/// The structs of the variants from position `k` on.
proof fn lemma_variants(
    m: Mod,
    name: Seq<char>,
    variants: Seq<&str>,
    payloads: Seq<Vec<AzulaType>>,
    k: int,
    j: int,
)
    requires
        0 <= k,
        forall|a: int, b: int|
            0 <= a < b < variants.len() ==> (#[trigger] variants[a])@ != (#[trigger] variants[b])@,
    ensures
        k <= j < variants.len() && j < payloads.len() ==> (assoc::get(
            translation::variants_laid(m, name, variants, payloads, k).structs,
            text::dotted(name, variants[j]@),
        ) matches Some(def) && is_variant(def, payloads[j]@)),
        forall|other: Seq<char>|
            (forall|i: int|
                k <= i < variants.len() ==> other != text::dotted(
                    name,
                    (#[trigger] variants[i])@,
                )) ==> #[trigger] assoc::get(
                translation::variants_laid(m, name, variants, payloads, k).structs,
                other,
            ) == assoc::get(m.structs, other),
        translation::variants_laid(m, name, variants, payloads, k).enums == m.enums,
        translation::variants_laid(m, name, variants, payloads, k).boxed_enums == m.boxed_enums,
    decreases variants.len() - k,
{
    reveal(translation::variants_laid);
    if k < variants.len() && k < payloads.len() {
        let own = text::dotted(name, variants[k]@);
        let def = StructDef {
            name: own,
            attributes: translation::variant_members(types::types_of(payloads[k]@)),
        };
        let m1 = Mod { structs: assoc::put(m.structs, own, def), ..m };
        lemma_variants(m1, name, variants, payloads, k + 1, j);
        let last = translation::variants_laid(m, name, variants, payloads, k);
        assert forall|other: Seq<char>|
            (forall|i: int|
                k <= i < variants.len() ==> other != text::dotted(
                    name,
                    (#[trigger] variants[i])@,
                )) implies #[trigger] assoc::get(last.structs, other) == assoc::get(
            m.structs,
            other,
        ) by {
            assert(other != text::dotted(name, variants[k]@));
            assoc::lemma_put_get(m.structs, own, def, other);
        }
        if j == k {
            assert forall|i: int| k + 1 <= i < variants.len() implies own != text::dotted(
                name,
                (#[trigger] variants[i])@,
            ) by {
                assert(variants[k]@ != variants[i]@);
                lemma_dotted(name, variants[k]@, variants[i]@);
            }
            assoc::lemma_put_get(m.structs, own, def, own);
            reveal(types::types_of);
            assert(is_variant(def, payloads[k]@));
        }
    }
}

/// Whether one of some payloads is not empty.
proof fn lemma_has_payload(payloads: Seq<Vec<AzulaType>>, k: int)
    requires
        0 <= k,
    ensures
        translation::has_payload(payloads, k) <==> exists|i: int|
            k <= i < payloads.len() && (#[trigger] payloads[i])@.len() > 0,
    decreases payloads.len() - k,
{
    reveal(translation::has_payload);
    if k < payloads.len() {
        lemma_has_payload(payloads, k + 1);
    }
}

/// An enum has the variants that it is declared with, in that order. If one of them has a
/// payload, values of the enum are kept in memory: each starts with a tag, and the payload of
/// each variant lies behind it.
pub proof fn lemma_enum(cg: Cg, s: Statement)
    requires
        s is Enum,
        s matches Statement::Enum { name, variants, payloads, .. } && {
            &&& variants@.len() == payloads@.len()
            &&& forall|a: int, b: int|
                0 <= a < b < variants@.len() ==> (#[trigger] variants@[a])@ != (
                #[trigger] variants@[b])@
            &&& forall|a: int| 0 <= a < variants@.len() ==> (#[trigger] variants@[a])@ != "__tag"@
            &&& !assoc::defined(cg.module.boxed_enums, name@)
        },
    ensures
        s matches Statement::Enum { name, variants, payloads, .. } && translation::registered(
            cg,
            s,
        ) matches Some(after) && {
            &&& assoc::get(after.module.enums, name@) matches Some(names) && names.len()
                == variants@.len() && forall|i: int|
                0 <= i < names.len() ==> #[trigger] names[i] == variants@[i]@
            &&& assoc::defined(after.module.boxed_enums, name@) <==> exists|i: int|
                0 <= i < payloads@.len() && (#[trigger] payloads@[i])@.len() > 0
            &&& assoc::defined(after.module.boxed_enums, name@) ==> {
                &&& assoc::get(after.module.structs, name@ + ".__tag"@) matches Some(def)
                    && def.attributes.len() == 1 && def.attributes[0].0 == Ty::Int
                &&& forall|i: int|
                    #![trigger variants@[i]]
                    0 <= i < variants@.len() ==> (assoc::get(
                        after.module.structs,
                        text::dotted(name@, variants@[i]@),
                    ) matches Some(def) && is_variant(def, payloads@[i]@))
            }
        },
{
    reveal(translation::registered);
    reveal(translation::boxed_enum);
    if let Statement::Enum { name, variants, payloads, .. } = s {
        let names = ast::strs_of(variants@);
        assoc::lemma_put_get(cg.module.enums, name@, names, name@);
        lemma_has_payload(payloads@, 0);
        let m = Mod { enums: assoc::put(cg.module.enums, name@, names), ..cg.module };
        if translation::has_payload(payloads@, 0) {
            let tag = name@ + ".__tag"@;
            let def = StructDef { name: tag, attributes: seq![(Ty::Int, "tag"@)] };
            let m1 = Mod {
                boxed_enums: assoc::put(m.boxed_enums, name@, ()),
                structs: assoc::put(m.structs, tag, def),
                ..m
            };
            assoc::lemma_put_get(m.boxed_enums, name@, (), name@);
            assoc::lemma_put_get(m.structs, tag, def, tag);
            reveal(assoc::get);
            lemma_variants(m1, name@, variants@, payloads@, 0, 0);
            assert forall|i: int| #![trigger variants@[i]] 0 <= i < variants@.len() implies (
            assoc::get(
                translation::variants_laid(m1, name@, variants@, payloads@, 0).structs,
                text::dotted(name@, variants@[i]@),
            ) matches Some(def) && is_variant(def, payloads@[i]@)) by {
                lemma_variants(m1, name@, variants@, payloads@, 0, i);
            }
            assert forall|i: int| 0 <= i < variants@.len() implies tag != text::dotted(
                name@,
                (#[trigger] variants@[i])@,
            ) by {
                reveal_strlit(".");
                reveal_strlit("__tag");
                reveal_strlit(".__tag");
                assert(".__tag"@ =~= "."@ + "__tag"@);
                assert(tag =~= text::dotted(name@, "__tag"@));
                lemma_dotted(name@, "__tag"@, variants@[i]@);
            }
        }
    }
}

// ---------------------------------------------------------------------------
// Globals

/// A global starts with the value that it is declared with.
pub proof fn lemma_global(cg: Cg, s: Statement)
    requires
        s is Assign,
        translation::registered(cg, s) is Some,
    ensures
        s matches Statement::Assign(_, name, _, value, _) && translation::registered(cg, s) matches Some(
            after,
        ) && assoc::get(after.module.global_values, name@) matches Some(v) && match value.expression {
            Expression::Integer(i) => v == GlobalValue::Int(i),
            Expression::Float(f) => v == GlobalValue::Float(f),
            Expression::Boolean(b) => v == GlobalValue::Bool(b),
            Expression::String(t) => v matches GlobalValue::String(n) && n as int
                == cg.module.strings.len() as usize && after.module.strings
                == cg.module.strings.push(t@),
            Expression::Negate(operand) => match operand.expression {
                Expression::Integer(i) => v matches GlobalValue::Int(n) && n == -i,
                Expression::Float(f) => v matches GlobalValue::Float(n) && n
                    % 0x8000_0000_0000_0000 == f % 0x8000_0000_0000_0000 && n != f,
                _ => false,
            },
            _ => false,
        },
{
    reveal(translation::registered);
    reveal(translation::global);
    if let Statement::Assign(_, name, _, value, _) = s {
        if let Some((m, v)) = translation::global(cg.module, value) {
            assoc::lemma_put_get(m.global_values, name@, v, name@);
        }
    }
}

// ---------------------------------------------------------------------------
// Functions

/// Functions that have been generated stay.
proof fn lemma_defined_stays(cg: Cg, name: Seq<char>, args: Seq<TypedIdentifier>, result: AzulaType, body: Statement, x: Seq<char>)
    requires
        crate::shape::programs::outside_loops(cg),
    ensures
        translation::define(cg, name, args, result, body) matches Some(after) ==> {
            &&& crate::shape::programs::outside_loops(after)
            &&& assoc::defined(after.module.functions, name)
            &&& assoc::defined(cg.module.functions, x) ==> assoc::defined(
                after.module.functions,
                x,
            )
        },
{
    crate::shape::programs::lemma_define(cg, name, args, result, body);
    if let Some(after) = translation::define(cg, name, args, result, body) {
        let f = choose|f: Fun| #[trigger]
            crate::shape::programs::well_formed(f) && after.module.functions == assoc::put(
                cg.module.functions,
                name,
                f,
            ) && f.arguments == translation::arguments_of(args) && f.result == types::ty_of(result);
        assoc::lemma_put_get(cg.module.functions, name, f, name);
        assoc::lemma_put_get(cg.module.functions, name, f, x);
        reveal(assoc::get);
    }
}

/// Methods are generated, and functions that have been generated stay.
proof fn lemma_methods(cg: Cg, owner: Seq<char>, funcs: Seq<Statement>, k: int, j: int, x: Seq<char>)
    requires
        0 <= k,
        crate::shape::programs::outside_loops(cg),
    ensures
        translation::methods(cg, owner, funcs, k) matches Some(after) ==> {
            &&& crate::shape::programs::outside_loops(after)
            &&& assoc::defined(cg.module.functions, x) ==> assoc::defined(
                after.module.functions,
                x,
            )
            &&& k <= j < funcs.len() && (funcs[j] matches Statement::Function { name, .. } && x
                == text::dotted(owner, name@)) ==> assoc::defined(after.module.functions, x)
        },
    decreases funcs.len() - k,
{
    reveal(translation::methods);
    if k < funcs.len() {
        if let Statement::Function { name, args, returns: result, body, .. } = funcs[k] {
            let body = crate::shape::parts::branch(body);
            let full = text::dotted(owner, name@);
            lemma_defined_stays(cg, full, args@, result, body, x);
            if let Some(next) = translation::define(cg, full, args@, result, body) {
                lemma_methods(next, owner, funcs, k + 1, j, x);
            }
        }
    }
}

/// Every function of the source text is generated under its name, and every method under
/// the name of its type, a dot and its name.
pub proof fn lemma_functions(cg: Cg, ss: Seq<Statement>, k: int, j: int, i: int, x: Seq<char>)
    requires
        0 <= k,
        crate::shape::programs::outside_loops(cg),
    ensures
        translation::all_generated(cg, ss, k) matches Some(after) ==> {
            &&& assoc::defined(cg.module.functions, x) ==> assoc::defined(
                after.module.functions,
                x,
            )
            &&& k <= j < ss.len() ==> match ss[j] {
                Statement::Function { name, .. } => x == name@ ==> assoc::defined(
                    after.module.functions,
                    x,
                ),
                Statement::Impl { struct_impl, funcs, .. } => 0 <= i < funcs@.len() && (
                funcs@[i] matches Statement::Function { name, .. } && x == text::dotted(
                    types::name_of(types::ty_of(struct_impl)),
                    name@,
                )) ==> assoc::defined(after.module.functions, x),
                _ => true,
            }
        },
    decreases ss.len() - k,
{
    reveal(translation::all_generated);
    reveal(translation::function);
    reveal(translation::implementation);
    if k < ss.len() {
        match ss[k] {
            Statement::Function { name, args, returns: result, body, .. } => {
                lemma_defined_stays(
                    cg,
                    name@,
                    args@,
                    result,
                    crate::shape::parts::branch(body),
                    x,
                );
                if let Some(next) = translation::function(cg, ss[k]) {
                    lemma_functions(next, ss, k + 1, j, i, x);
                }
            },
            Statement::Impl { struct_impl, funcs, .. } => {
                lemma_methods(
                    cg,
                    types::name_of(types::ty_of(struct_impl)),
                    funcs@,
                    0,
                    i,
                    x,
                );
                if let Some(next) = translation::implementation(cg, ss[k]) {
                    lemma_functions(next, ss, k + 1, j, i, x);
                }
            },
            _ => lemma_functions(cg, ss, k + 1, j, i, x),
        }
    }
}

// ---------------------------------------------------------------------------
// Methods

/// A method has one name, whether its receiver is a value or a pointer to one.
pub proof fn lemma_one_name(t: Ty)
    ensures
        types::name_of(Ty::Pointer(Box::new(t))) == types::name_of(t),
{
    reveal(types::name_of);
}

/// A method that takes a pointer gets one: the receiver if it is a pointer, and else its
/// address. One that takes a value gets one: what the receiver points to if it is a pointer,
/// and else the receiver.
pub proof fn lemma_receiver(cg: Cg, t: Ty, name: Seq<char>, args: Seq<Ty>)
    requires
        assoc::get(cg.signatures, name) == Some(args),
        args.len() > 0,
    ensures
        match translation::receiver(cg.signatures, t, name) {
            translation::Receiver::Address => args[0] is Pointer && !(t is Pointer),
            translation::Receiver::Load => !(args[0] is Pointer) && t is Pointer,
            translation::Receiver::Value => args[0] is Pointer <==> t is Pointer,
        },
{
    reveal(translation::receiver);
}

// ---------------------------------------------------------------------------
// Sizes

/// The sum of numbers.
pub open spec fn total(sizes: Seq<nat>) -> nat
    decreases sizes.len(),
{
    if sizes.len() == 0 {
        0
    } else {
        sizes[0] + total(sizes.skip(1))
    }
}

/// The members of a struct take as many bytes as they take one by one.
proof fn lemma_members_size(structs: Seq<(Seq<char>, StructDef)>, members: Seq<(Ty, Seq<char>)>, k: int, depth: nat) -> (sizes: Seq<nat>)
    requires
        0 <= k <= members.len(),
        translation::members_size(structs, members, k, depth) is Some,
    ensures
        sizes.len() == members.len() - k,
        forall|i: int|
            0 <= i < sizes.len() ==> translation::byte_size(structs, members[k + i].0, depth)
                == Some(#[trigger] sizes[i]),
        translation::members_size(structs, members, k, depth) == Some(total(sizes)),
    decreases members.len() - k,
{
    reveal(translation::members_size);
    reveal(translation::byte_size);
    if k < members.len() {
        let first = translation::byte_size(structs, members[k].0, depth)->0;
        let rest = lemma_members_size(structs, members, k + 1, depth);
        let sizes = seq![first] + rest;
        assert(sizes.skip(1) =~= rest);
        assert forall|i: int| 0 <= i < sizes.len() implies translation::byte_size(
            structs,
            members[k + i].0,
            depth,
        ) == Some(#[trigger] sizes[i]) by {
            if i > 0 {
                assert(sizes[i] == rest[i - 1]);
                assert(members[k + i] == members[k + 1 + (i - 1)]);
            }
        }
        sizes
    } else {
        Seq::empty()
    }
}

/// A struct takes as many bytes as its members take, and so does the memory that is
/// allocated for one.
pub proof fn lemma_struct_size(m: Mod, name: Seq<char>, given: nat) -> (sizes: Seq<nat>)
    requires
        assoc::get(m.structs, name) is Some,
        translation::alloc_size(m, name, given) is Some,
    ensures
        assoc::get(m.structs, name) matches Some(s) && {
            &&& sizes.len() == s.attributes.len()
            &&& forall|i: int|
                0 <= i < sizes.len() ==> translation::byte_size(
                    m.structs,
                    s.attributes[i].0,
                    m.structs.len(),
                ) == Some(#[trigger] sizes[i])
            &&& translation::alloc_size(m, name, given) == Some(total(sizes))
        },
{
    reveal(translation::alloc_size);
    let s = assoc::get(m.structs, name)->0;
    lemma_members_size(m.structs, s.attributes, 0, m.structs.len())
}

} // verus!
