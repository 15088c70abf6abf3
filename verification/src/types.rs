//! The types of the language.

use std::rc::Rc;
use vstd::prelude::*;
use vstd::string::*;
use crate::text::{decimal, join, numbered};

verus! {

/// A type, as the compiler passes hold it.
#[derive(Debug, PartialEq)]
pub enum AzulaType<'a> {
    Int,
    SizedSignedInt(usize),
    SizedUnsignedInt(usize),
    Float,
    SizedFloat(usize),
    Bool,
    Str,
    Void,
    /// `!`: the type of a call that never comes back
    Never,
    /// Not known yet
    Infer,
    /// A struct, an enum or an instance of a generic type
    Named(String),
    UnknownType(&'a str),
    Pointer(Rc<AzulaType<'a>>),
    Array(Rc<AzulaType<'a>>, Option<usize>),
    /// A generic type with its arguments
    Generic(String, Vec<AzulaType<'a>>),
    /// A function value: its parameters and what it returns
    Function(Vec<AzulaType<'a>>, Rc<AzulaType<'a>>),
}

/// The mathematical model of a type.
pub enum Ty {
    Int,
    SizedSignedInt(usize),
    SizedUnsignedInt(usize),
    Float,
    SizedFloat(usize),
    Bool,
    Str,
    Void,
    Never,
    Infer,
    Named(Seq<char>),
    UnknownType(Seq<char>),
    Pointer(Box<Ty>),
    Array(Box<Ty>, Option<usize>),
    Generic(Seq<char>, Seq<Ty>),
    Function(Seq<Ty>, Box<Ty>),
}

/// The type that `t` holds.
#[verifier::opaque]
pub open spec fn ty_of(t: AzulaType) -> Ty
    decreases t,
{
    match t {
        AzulaType::Int => Ty::Int,
        AzulaType::SizedSignedInt(n) => Ty::SizedSignedInt(n),
        AzulaType::SizedUnsignedInt(n) => Ty::SizedUnsignedInt(n),
        AzulaType::Float => Ty::Float,
        AzulaType::SizedFloat(n) => Ty::SizedFloat(n),
        AzulaType::Bool => Ty::Bool,
        AzulaType::Str => Ty::Str,
        AzulaType::Void => Ty::Void,
        AzulaType::Never => Ty::Never,
        AzulaType::Infer => Ty::Infer,
        AzulaType::Named(n) => Ty::Named(n@),
        AzulaType::UnknownType(n) => Ty::UnknownType(n@),
        AzulaType::Pointer(p) => Ty::Pointer(Box::new(ty_of(*p))),
        AzulaType::Array(p, n) => Ty::Array(Box::new(ty_of(*p)), n),
        AzulaType::Generic(n, args) => Ty::Generic(n@, types_of(args@)),
        AzulaType::Function(params, r) => Ty::Function(types_of(params@), Box::new(ty_of(*r))),
    }
}

/// The types that a list holds.
#[verifier::opaque]
pub open spec fn types_of(s: Seq<AzulaType>) -> Seq<Ty>
    decreases s,
{
    Seq::new(s.len(), |i: int| if 0 <= i < s.len() { ty_of(s[i]) } else { arbitrary() })
}

/// The type that is there, if there is one.
pub open spec fn opt_ty_of(t: Option<AzulaType>) -> Option<Ty> {
    match t {
        Some(t) => Some(ty_of(t)),
        None => None,
    }
}

/// The names that types have in source text. A pointer goes by the name of what
/// it points to: a method is found under one name, whether its receiver is a
/// value or a pointer to one.
#[verifier::opaque]
pub open spec fn name_of(t: Ty) -> Seq<char>
    decreases t, 0int,
{
    match t {
        Ty::Int => "int"@,
        Ty::SizedSignedInt(n) => "i"@ + crate::text::digits(n as nat),
        Ty::SizedUnsignedInt(n) => "u"@ + crate::text::digits(n as nat),
        Ty::Float => "float"@,
        Ty::SizedFloat(n) => "f"@ + crate::text::digits(n as nat),
        Ty::Bool => "bool"@,
        Ty::Str => "str"@,
        Ty::Void => "void"@,
        Ty::Never => "!"@,
        Ty::Infer => "infer"@,
        Ty::Named(n) => n,
        Ty::UnknownType(n) => n,
        Ty::Pointer(p) => name_of(*p),
        Ty::Array(p, None) => "["@ + name_of(*p) + "]"@,
        Ty::Array(p, Some(n)) => "["@ + name_of(*p) + "; "@ + crate::text::digits(n as nat)
            + "]"@,
        Ty::Generic(n, args) => n + "<"@ + listed(args, 0) + ">"@,
        Ty::Function(params, r) => "func("@ + listed(params, 0) + "): "@ + name_of(*r),
    }
}

/// The names of the types from position `k` on, separated by commas.
#[verifier::opaque]
pub open spec fn listed(ts: Seq<Ty>, k: int) -> Seq<char>
    decreases ts, ts.len() - k,
{
    if k < 0 || k >= ts.len() {
        Seq::empty()
    } else {
        (if k > 0 { ", "@ } else { Seq::empty() }) + name_of(ts[k]) + listed(ts, k + 1)
    }
}

impl<'a> Clone for AzulaType<'a> {
    fn clone(&self) -> (r: Self)
        ensures
            ty_of(r) == ty_of(*self),
        decreases self,
    {
        reveal(ty_of);
        reveal(types_of);
        match self {
            AzulaType::Int => AzulaType::Int,
            AzulaType::SizedSignedInt(n) => AzulaType::SizedSignedInt(*n),
            AzulaType::SizedUnsignedInt(n) => AzulaType::SizedUnsignedInt(*n),
            AzulaType::Float => AzulaType::Float,
            AzulaType::SizedFloat(n) => AzulaType::SizedFloat(*n),
            AzulaType::Bool => AzulaType::Bool,
            AzulaType::Str => AzulaType::Str,
            AzulaType::Void => AzulaType::Void,
            AzulaType::Never => AzulaType::Never,
            AzulaType::Infer => AzulaType::Infer,
            AzulaType::Named(n) => AzulaType::Named(n.clone()),
            AzulaType::UnknownType(n) => AzulaType::UnknownType(n),
            AzulaType::Pointer(p) => AzulaType::Pointer(p.clone()),
            AzulaType::Array(p, n) => AzulaType::Array(p.clone(), *n),
            AzulaType::Generic(n, args) => AzulaType::Generic(n.clone(), clone_types(args)),
            AzulaType::Function(params, r) => AzulaType::Function(clone_types(params), r.clone()),
        }
    }
}

/// A copy of a list of types.
pub fn clone_types<'a>(v: &Vec<AzulaType<'a>>) -> (r: Vec<AzulaType<'a>>)
    ensures
        types_of(r@) == types_of(v@),
    decreases v,
{
    reveal(types_of);
    reveal(ty_of);
    let mut r: Vec<AzulaType<'a>> = Vec::new();
    let mut i: usize = 0;
    while i < v.len()
        invariant
            i <= v@.len(),
            r@.len() == i,
            forall|j: int| 0 <= j < i ==> ty_of(#[trigger] r@[j]) == ty_of(v@[j]),
        decreases v@.len() - i,
    {
        r.push(v[i].clone());
        i += 1;
    }
    assert(types_of(r@) =~= types_of(v@));
    r
}

/// A copy of the type that is there, if there is one.
pub fn clone_opt_type<'a>(t: &Option<AzulaType<'a>>) -> (r: Option<AzulaType<'a>>)
    ensures
        opt_ty_of(r) == opt_ty_of(*t),
{
    match t {
        Some(t) => Some(t.clone()),
        None => None,
    }
}

impl<'a> AzulaType<'a> {
    /// The name of the type.
    pub fn to_string(&self) -> (r: String)
        ensures
            r@ == name_of(ty_of(*self)),
        decreases self, 0int,
    {
        reveal(ty_of);
        reveal(types_of);
        reveal(name_of);
        reveal(listed);
        match self {
            AzulaType::Int => "int".to_owned(),
            AzulaType::SizedSignedInt(n) => numbered("i", *n),
            AzulaType::SizedUnsignedInt(n) => numbered("u", *n),
            AzulaType::Float => "float".to_owned(),
            AzulaType::SizedFloat(n) => numbered("f", *n),
            AzulaType::Bool => "bool".to_owned(),
            AzulaType::Str => "str".to_owned(),
            AzulaType::Void => "void".to_owned(),
            AzulaType::Never => "!".to_owned(),
            AzulaType::Infer => "infer".to_owned(),
            AzulaType::Named(n) => n.clone(),
            AzulaType::UnknownType(n) => str::to_owned(n),
            AzulaType::Pointer(p) => p.to_string(),
            AzulaType::Array(p, n) => {
                let mut r = join("[", p.to_string().as_str());
                if let Some(n) = n {
                    r.append("; ");
                    r.append(decimal(*n).as_str());
                }
                r.append("]");
                r
            },
            AzulaType::Generic(n, args) => {
                let mut r = join(n.as_str(), "<");
                r.append(names_listed(args).as_str());
                r.append(">");
                r
            },
            AzulaType::Function(params, result) => {
                let mut r = join("func(", names_listed(params).as_str());
                r.append("): ");
                r.append(result.to_string().as_str());
                r
            },
        }
    }
}

/// The names of the types of a list, separated by commas.
fn names_listed(ts: &Vec<AzulaType>) -> (r: String)
    ensures
        r@ == listed(types_of(ts@), 0),
    decreases ts, 0int,
{
    reveal(types_of);
    reveal(ty_of);
    reveal(listed);
    reveal(name_of);
    let mut r = String::new();
    let mut k: usize = 0;
    let ghost all = types_of(ts@);
    while k < ts.len()
        invariant
            k <= ts@.len(),
            all == types_of(ts@),
            r@ + listed(all, k as int) == listed(all, 0),
        decreases ts@.len() - k,
    {
            reveal(types_of);
            reveal(ty_of);
            reveal(listed);
            reveal(name_of);
        let ghost before = r@;
        if k > 0 {
            r.append(", ");
        }
        r.append(ts[k].to_string().as_str());
        proof {
            let sep = if k > 0 { ", "@ } else { Seq::<char>::empty() };
            assert(all[k as int] == ty_of(ts@[k as int]));
            assert(r@ =~= before + sep + name_of(all[k as int]));
            assert(r@ + listed(all, k + 1) =~= before + (sep + name_of(all[k as int]) + listed(
                all,
                k + 1,
            )));
        }
        k += 1;
    }
    assert(r@ + listed(all, k as int) =~= r@);
    r
}

} // verus!
