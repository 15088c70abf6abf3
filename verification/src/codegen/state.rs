//! The state of code generation, and the steps that it is made of.

use vstd::prelude::*;
use crate::assoc;
use crate::assoc::NameMap;
use crate::ast::{Expression, ExpressionNode, Operator, Statement};
use crate::ir;
use crate::ir::{Function, Instruction, Module, Value};
use crate::text::{decimal, dot, numbered, same};
use crate::translation;
use crate::translation::{Cg, Receiver, G};
use crate::types;
use crate::types::{AzulaType, Ty};

verus! {

/// The generator: the program that it builds, and where in the tree it is.
pub struct Codegen<'a> {
    pub root: Statement<'a>,
    pub module: Module<'a>,
    pub function_calls: NameMap<Vec<AzulaType<'a>>>,
    pub loop_end_stack: Vec<String>,
    pub loop_continue_stack: Vec<String>,
    /// Lexical scopes: source variable names to their unique names
    pub scopes: Vec<NameMap<String>>,
    /// Unique names of the variables that declarations have made
    pub declared: Vec<String>,
    pub var_counter: usize,
    /// Argument types of every function and method
    pub signatures: NameMap<Vec<AzulaType<'a>>>,
}

/// The types that each name of a map has.
pub open spec fn signatures_of<'a>(s: Seq<(Seq<char>, Vec<AzulaType<'a>>)>) -> Seq<
    (Seq<char>, Seq<Ty>),
> {
    assoc::mapped(s, |v: Vec<AzulaType<'a>>| types::types_of(v@))
}

/// The names that the names of a map stand for.
pub open spec fn scope_of(s: NameMap<String>) -> Seq<(Seq<char>, Seq<char>)> {
    assoc::mapped(s@, |n: String| n@)
}

/// The scopes in a list.
pub open spec fn scopes_of(s: Seq<NameMap<String>>) -> Seq<Seq<(Seq<char>, Seq<char>)>> {
    Seq::new(s.len(), |i: int| scope_of(s[i]))
}

impl<'a> View for Codegen<'a> {
    type V = Cg;

    closed spec fn view(&self) -> Cg {
        Cg {
            module: self.module@,
            function_calls: signatures_of(self.function_calls@),
            loop_ends: crate::ast::names_of(self.loop_end_stack@),
            loop_continues: crate::ast::names_of(self.loop_continue_stack@),
            scopes: scopes_of(self.scopes@),
            declared: crate::ast::names_of(self.declared@),
            var_counter: self.var_counter,
            signatures: signatures_of(self.signatures@),
        }
    }
}

/// What an exec translation of an expression has to do with `t`: it gives the
/// value and leaves the states that `t` gives, or nothing if `t` gives nothing.
pub open spec fn yields(t: Option<(G, Value)>, r: Option<Value>, cg: Cg, f: ir::Fun) -> bool {
    match t {
        Some((g, v)) => r == Some(v) && g.cg == cg && g.f == f,
        None => r is None,
    }
}

/// The same for a translation without a value.
pub open spec fn reaches(t: Option<G>, r: Option<()>, cg: Cg, f: ir::Fun) -> bool {
    match t {
        Some(g) => r is Some && g.cg == cg && g.f == f,
        None => r is None,
    }
}

/// The name that an identifier is.
pub(crate) fn ident<'b, 'a>(e: &'b ExpressionNode<'a>) -> (r: Option<&'b str>)
    ensures
        match r {
            Some(n) => translation::ident(*e) == Some(n@),
            None => translation::ident(*e) is None,
        },
{
    reveal(translation::ident);
    match &e.expression {
        Expression::Identifier(n) => Some(n.as_str()),
        _ => None,
    }
}

/// The struct that a value of the type, or a pointer to one, belongs to.
pub(crate) fn struct_name<'b, 'a>(t: &'b AzulaType<'a>) -> (r: Option<&'b str>)
    ensures
        match r {
            Some(n) => translation::struct_name(types::ty_of(*t)) == Some(n@),
            None => translation::struct_name(types::ty_of(*t)) is None,
        },
{
    reveal(translation::struct_name);
    reveal_with_fuel(types::ty_of, 2);
    match t {
        AzulaType::Named(n) => Some(n.as_str()),
        AzulaType::Pointer(p) => match &**p {
            AzulaType::Named(n) => Some(n.as_str()),
            _ => None,
        },
        _ => None,
    }
}

/// The type of the elements produced by indexing a value of the type.
pub(crate) fn element_type<'a>(t: &AzulaType<'a>) -> (r: Option<AzulaType<'a>>)
    ensures
        types::opt_ty_of(r) == translation::element(types::ty_of(*t)),
{
    reveal(types::ty_of);
    reveal(translation::element);
    match t {
        AzulaType::Array(inner, _) => Some((**inner).clone()),
        AzulaType::Str => Some(AzulaType::SizedSignedInt(8)),
        AzulaType::Pointer(inner) => Some((**inner).clone()),
        _ => None,
    }
}

/// Whether a type is a pointer.
pub(crate) fn is_pointer(t: &AzulaType) -> (r: bool)
    ensures
        r == (types::ty_of(*t) is Pointer),
{
    reveal(types::ty_of);
    match t {
        AzulaType::Pointer(_) => true,
        _ => false,
    }
}

/// Whether a type is the type of calls that never come back.
pub(crate) fn is_never(t: &AzulaType) -> (r: bool)
    ensures
        r == (types::ty_of(*t) is Never),
{
    reveal(types::ty_of);
    match t {
        AzulaType::Never => true,
        _ => false,
    }
}

/// Whether a type is the type without values.
pub(crate) fn is_void(t: &AzulaType) -> (r: bool)
    ensures
        r == (types::ty_of(*t) is Void),
{
    reveal(types::ty_of);
    match t {
        AzulaType::Void => true,
        _ => false,
    }
}

/// Whether a type is that of floating-point numbers.
pub(crate) fn is_float(t: &AzulaType) -> (r: bool)
    ensures
        r == (types::ty_of(*t) is Float),
{
    reveal(types::ty_of);
    match t {
        AzulaType::Float => true,
        _ => false,
    }
}

/// What a pointer points to.
pub(crate) fn pointee<'a>(t: &AzulaType<'a>) -> (r: Option<AzulaType<'a>>)
    ensures
        match r {
            Some(p) => types::ty_of(*t) == Ty::Pointer(Box::new(types::ty_of(p))),
            None => !(types::ty_of(*t) is Pointer),
        },
{
    reveal(types::ty_of);
    match t {
        AzulaType::Pointer(p) => Some((**p).clone()),
        _ => None,
    }
}

/// The parameters and the result of a function value.
pub(crate) fn signature<'b, 'a>(t: &'b AzulaType<'a>) -> (r: Option<
    (&'b Vec<AzulaType<'a>>, &'b AzulaType<'a>),
>)
    ensures
        match r {
            Some((params, result)) => types::ty_of(*t) == Ty::Function(
                types::types_of(params@),
                Box::new(types::ty_of(*result)),
            ),
            None => !(types::ty_of(*t) is Function),
        },
{
    reveal(types::ty_of);
    reveal(types::types_of);
    match t {
        AzulaType::Function(params, result) => Some((params, result)),
        _ => None,
    }
}

/// The type of truth values.
pub(crate) fn bool_type<'a>() -> (r: AzulaType<'a>)
    ensures
        types::ty_of(r) == Ty::Bool,
{
    reveal(types::ty_of);
    AzulaType::Bool
}

/// The type of strings.
pub(crate) fn str_type<'a>() -> (r: AzulaType<'a>)
    ensures
        types::ty_of(r) == Ty::Str,
{
    reveal(types::ty_of);
    AzulaType::Str
}

/// The type of that name.
pub(crate) fn named_type<'a>(name: String) -> (r: AzulaType<'a>)
    ensures
        types::ty_of(r) == Ty::Named(name@),
{
    reveal(types::ty_of);
    AzulaType::Named(name)
}

/// The parameters of the code of a closure: its environment comes first.
pub(crate) fn after_environment<'a>(params: &Vec<AzulaType<'a>>) -> (r: Vec<AzulaType<'a>>)
    ensures
        types::types_of(r@) == seq![Ty::Str] + types::types_of(params@),
{
    let mut all: Vec<AzulaType<'a>> = Vec::new();
    all.push(str_type());
    let mut k: usize = 0;
    while k < params.len()
        invariant
            k <= params@.len(),
            all@.len() == k + 1,
            types::ty_of(all@[0]) == Ty::Str,
            forall|j: int|
                1 <= j <= k ==> types::ty_of(#[trigger] all@[j]) == types::ty_of(params@[j - 1]),
        decreases params@.len() - k,
    {
        all.push(params[k].clone());
        k += 1;
    }
    proof {
        reveal(types::types_of);
        reveal(types::ty_of);
        assert(types::types_of(all@) =~= seq![Ty::Str] + types::types_of(params@));
    }
    all
}

/// The label made of `prefix` and two numbers.
pub(crate) fn numbered_twice(prefix: &str, n: usize, i: usize) -> (r: String)
    ensures
        r@ == translation::label2(prefix@, n, i),
{
    let mut r = numbered(prefix, n);
    r.append("-");
    numbered(r.as_str(), i)
}

/// The bytes of `n` cells and one more.
pub(crate) fn cells(n: i64) -> (r: Option<i64>)
    ensures
        r == translation::cells(n),
{
    reveal(translation::cells);
    if n < i64::MAX {
        let m: i64 = n + 1;
        if i64::MIN / 8 <= m && m <= i64::MAX / 8 {
            return Some(8 * m);
        }
    }
    None
}

/// The number of bytes of a value of the type, with structs nested at most
/// `depth` deep.
pub(crate) fn struct_byte_size<'a>(module: &Module<'a>, t: &AzulaType<'a>, depth: usize) -> (r: Option<usize>)
    ensures
        match r {
            Some(n) => translation::byte_size(module@.structs, types::ty_of(*t), depth as nat)
                == Some(n as nat),
            None => translation::byte_size(
                module@.structs,
                types::ty_of(*t),
                depth as nat,
            ) is None,
        },
    decreases depth, 0int,
{
    reveal(types::ty_of);
    reveal(translation::byte_size);
    reveal(translation::members_size);
    match t {
        AzulaType::Named(n) => match module.find_struct(n.as_str()) {
            Some(s) => if depth > 0 {
                attributes_size(module, &s.attributes, depth - 1)
            } else {
                None
            },
            None => Some(8),
        },
        _ => Some(8),
    }
}

/// The number of bytes of the members of a struct.
pub(crate) fn attributes_size<'a>(
    module: &Module<'a>,
    members: &Vec<(AzulaType<'a>, String)>,
    depth: usize,
) -> (r: Option<usize>)
    ensures
        match r {
            Some(n) => translation::members_size(
                module@.structs,
                ir::members_of(members@),
                0,
                depth as nat,
            ) == Some(n as nat),
            None => translation::members_size(
                module@.structs,
                ir::members_of(members@),
                0,
                depth as nat,
            ) is None,
        },
    decreases depth, 1int,
{
    reveal(translation::members_size);
        reveal(translation::byte_size);
    let ghost all = ir::members_of(members@);
    let ghost ss = module@.structs;
    let mut sum: usize = 0;
    let mut k: usize = members.len();
    while k > 0
        invariant
            k <= members@.len(),
            all == ir::members_of(members@),
            ss == module@.structs,
            translation::members_size(ss, all, k as int, depth as nat) == Some(sum as nat),
        decreases k,
    {
        reveal(translation::members_size);
        reveal(translation::byte_size);
        k -= 1;
        match struct_byte_size(module, &members[k].0, depth) {
            Some(size) => match sum.checked_add(size) {
                Some(total) => {
                    sum = total;
                },
                None => {
                    proof {
                        lemma_members_none(ss, all, 0, k as int, depth as nat);
                    }
                    return None;
                },
            },
            None => {
                proof {
                    lemma_members_none(ss, all, 0, k as int, depth as nat);
                }
                return None;
            },
        }
    }
    Some(sum)
}

/// Members that have no size together with those after them leave the whole
/// struct without a size.
pub(crate) proof fn lemma_members_none(
    structs: Seq<(Seq<char>, ir::StructDef)>,
    members: Seq<(Ty, Seq<char>)>,
    k: int,
    j: int,
    depth: nat,
)
    requires
        0 <= k <= j < members.len(),
        translation::members_size(structs, members, j, depth) is None,
    ensures
        translation::members_size(structs, members, k, depth) is None,
    decreases j - k,
{
    reveal(translation::members_size);
        reveal(translation::byte_size);
    if k < j {
        lemma_members_none(structs, members, k + 1, j, depth);
    }
}

/// The position of `name` in a list of names.
pub(crate) fn position_of(names: &Vec<String>, name: &str) -> (r: Option<usize>)
    ensures
        match r {
            Some(i) => translation::spot(crate::ast::names_of(names@), name@, 0) == Some(i as int),
            None => translation::spot(crate::ast::names_of(names@), name@, 0) is None,
        },
{
    reveal(translation::spot);
    let ghost all = crate::ast::names_of(names@);
    let mut i: usize = 0;
    while i < names.len()
        invariant
            i <= names@.len(),
            all == crate::ast::names_of(names@),
            translation::spot(all, name@, 0) == translation::spot(all, name@, i as int),
        decreases names@.len() - i,
    {
        reveal(translation::spot);
        if same(names[i].as_str(), name) {
            return Some(i);
        }
        i += 1;
    }
    None
}

impl<'a> Codegen<'a> {
    /// The tree that code is generated for.
    pub closed spec fn tree(&self) -> Statement<'a> {
        self.root
    }

    /// A generator for the tree `root` of the module `name`.
    pub fn new(name: &'a str, root: Statement<'a>) -> (r: Self)
        ensures
            r.tree() == root,
            r@ == translation::fresh(name@),
    {
        let mut scopes: Vec<NameMap<String>> = Vec::new();
        scopes.push(NameMap::new());
        let r = Codegen {
            root,
            module: Module::new(name),
            function_calls: NameMap::new(),
            loop_end_stack: Vec::new(),
            loop_continue_stack: Vec::new(),
            scopes,
            declared: Vec::new(),
            var_counter: 0,
            signatures: NameMap::new(),
        };
        proof {
            let f = translation::fresh(name@);
            assert(r@.function_calls =~= f.function_calls);
            assert(r@.loop_ends =~= f.loop_ends);
            assert(r@.loop_continues =~= f.loop_continues);
            assert(scope_of(r.scopes@[0]) =~= Seq::empty());
            assert(r@.scopes =~= f.scopes);
            assert(r@.declared =~= f.declared);
            assert(r@.signatures =~= f.signatures);
        }
        r
    }

    /// The program that the generator has built and the functions that it has called
    /// are those of its state.
    pub proof fn lemma_program(&self)
        ensures
            self.module@ == self@.module,
            signatures_of(self.function_calls@) == self@.function_calls,
    {
    }

    /// Where only the program and the functions that were called are replaced, the rest
    /// of the state stays.
    pub proof fn lemma_program_replaced(&self, before: Self)
        requires
            *self == (Codegen {
                module: self.module,
                function_calls: self.function_calls,
                ..before
            }),
        ensures
            self@ == (Cg {
                module: self.module@,
                function_calls: signatures_of(self.function_calls@),
                ..before@
            }),
            self.tree() == before.tree(),
    {
    }

    /// The program that the generator has built.
    pub fn program(&self) -> (r: &Module<'a>)
        ensures
            r@ == self@.module,
    {
        &self.module
    }

    /// The program that the generator has built, to be changed.
    pub fn program_mut(&mut self) -> (r: &mut Module<'a>)
        ensures
            r@ == old(self)@.module,
            final(self)@ == (Cg { module: final(r)@, ..old(self)@ }),
            final(self).tree() == old(self).tree(),
    {
        &mut self.module
    }

    /// Note the argument types of a function or method.
    pub(crate) fn add_signature(&mut self, name: String, args: Vec<AzulaType<'a>>)
        ensures
            final(self)@ == (Cg {
                signatures: assoc::put(
                    old(self)@.signatures,
                    name@,
                    types::types_of(args@),
                ),
                ..old(self)@
            }),
            final(self).tree() == old(self).tree(),
    {
        proof {
            assoc::lemma_mapped_put(
                self.signatures@,
                |v: Vec<AzulaType<'a>>| types::types_of(v@),
                name@,
                args,
            );
        }
        self.signatures.insert(name, args);
    }

    /// Forget all scopes and what was declared in them, and enter a first one.
    pub(crate) fn reset_scopes(&mut self)
        ensures
            final(self)@ == (Cg {
                scopes: seq![Seq::<(Seq<char>, Seq<char>)>::empty()],
                declared: Seq::empty(),
                ..old(self)@
            }),
            final(self).tree() == old(self).tree(),
    {
        let mut scopes: Vec<NameMap<String>> = Vec::new();
        scopes.push(NameMap::new());
        self.scopes = scopes;
        self.declared = Vec::new();
        proof {
            assert(self@.declared =~= Seq::empty());
            assert(scope_of(self.scopes@[0]) =~= Seq::empty());
            assert(self@.scopes =~= seq![Seq::<(Seq<char>, Seq<char>)>::empty()]);
        }
    }

    /// Take the tree out of the generator.
    pub(crate) fn take_tree(&mut self) -> (r: Statement<'a>)
        ensures
            r == old(self).tree(),
            final(self)@ == old(self)@,
    {
        let mut tree = Statement::Root(Vec::new());
        std::mem::swap(&mut tree, &mut self.root);
        tree
    }

    /// Put the tree back.
    pub(crate) fn put_tree(&mut self, tree: Statement<'a>)
        ensures
            final(self).tree() == tree,
            final(self)@ == old(self)@,
    {
        self.root = tree;
    }

    /// Add a string constant to the program.
    pub(crate) fn add_string(&mut self, s: String) -> (r: Value)
        ensures
            r == Value::Global(old(self)@.module.strings.len() as usize),
            final(self)@ == (Cg {
                module: ir::Mod {
                    strings: old(self)@.module.strings.push(s@),
                    ..old(self)@.module
                },
                ..old(self)@
            }),
            final(self).tree() == old(self).tree(),
    {
        self.module.add_string(s)
    }

    /// Where `break` goes.
    pub(crate) fn break_target(&self) -> (r: Option<String>)
        ensures
            match r {
                Some(n) => self@.loop_ends.len() > 0 && n@ == self@.loop_ends.last(),
                None => self@.loop_ends.len() == 0,
            },
    {
        let depth: usize = self.loop_end_stack.len();
        if depth == 0 {
            None
        } else {
            Some(self.loop_end_stack[depth - 1].clone())
        }
    }

    /// Where `continue` goes.
    pub(crate) fn continue_target(&self) -> (r: Option<String>)
        ensures
            match r {
                Some(n) => self@.loop_continues.len() > 0 && n@ == self@.loop_continues.last(),
                None => self@.loop_continues.len() == 0,
            },
    {
        let depth: usize = self.loop_continue_stack.len();
        if depth == 0 {
            None
        } else {
            Some(self.loop_continue_stack[depth - 1].clone())
        }
    }

    /// The number of a member of a struct.
    pub(crate) fn struct_member_index(&self, owner: &str, name: &str) -> (r: Option<usize>)
        ensures
            match r {
                Some(i) => translation::member_index(self@.module, owner@, name@) == Some(
                    i as int,
                ),
                None => translation::member_index(self@.module, owner@, name@) is None,
            },
    {
        reveal(translation::member_index);
        reveal(translation::spot);
        match self.module.find_struct(owner) {
            Some(s) => {
                let ghost all = Seq::new(
                    ir::struct_of(*s).attributes.len(),
                    |i: int| ir::struct_of(*s).attributes[i].1,
                );
                let mut i: usize = 0;
                while i < s.attributes.len()
                    invariant
                        i <= s.attributes@.len(),
                        all == Seq::new(
                            ir::struct_of(*s).attributes.len(),
                            |i: int| ir::struct_of(*s).attributes[i].1,
                        ),
                        assoc::get(self@.module.structs, owner@) == Some(ir::struct_of(*s)),
                        translation::spot(all, name@, 0) == translation::spot(all, name@, i as int),
                    decreases s.attributes@.len() - i,
                {
                    reveal(translation::member_index);
                    reveal(translation::spot);
                    if same(s.attributes[i].1.as_str(), name) {
                        return Some(i);
                    }
                    i += 1;
                }
                None
            },
            None => None,
        }
    }

    /// The type of member `index` of a struct.
    pub(crate) fn member_type(&self, owner: &str, index: usize) -> (r: Option<AzulaType<'a>>)
        ensures
            types::opt_ty_of(r) == translation::member_type(self@.module, owner@, index as int),
    {
        reveal(translation::member_type);
        match self.module.find_struct(owner) {
            Some(s) => if index < s.attributes.len() {
                Some(s.attributes[index].0.clone())
            } else {
                None
            },
            None => None,
        }
    }

    /// The number of a variant of an enum.
    pub(crate) fn variant_index(&self, owner: &str, variant: &str) -> (r: Option<usize>)
        ensures
            match r {
                Some(i) => translation::variant_index(self@.module, owner@, variant@) == Some(
                    i as int,
                ),
                None => translation::variant_index(self@.module, owner@, variant@) is None,
            },
    {
        reveal(translation::variant_index);
        match self.module.find_enum(owner) {
            Some(variants) => position_of(variants, variant),
            None => None,
        }
    }

    /// The unique name of a variable visible from the current scope.
    pub(crate) fn lookup_variable(&self, name: &str, func: &Function<'a>) -> (r: Option<String>)
        ensures
            match r {
                Some(n) => translation::lookup(G { cg: self@, f: func@ }, name@) == Some(n@),
                None => translation::lookup(G { cg: self@, f: func@ }, name@) is None,
            },
    {
        reveal(translation::lookup);
        reveal(translation::scoped);
        let mut k: usize = self.scopes.len();
        while k > 0
            invariant
                k <= self.scopes@.len(),
                translation::scoped(self@.scopes, name@, self@.scopes.len() as int)
                    == translation::scoped(self@.scopes, name@, k as int),
            decreases k,
        {
            reveal(translation::lookup);
            reveal(translation::scoped);
            proof {
                assoc::lemma_mapped_get(self.scopes@[k - 1]@, |n: String| n@, name@);
                assert(self@.scopes[k - 1] == scope_of(self.scopes@[k - 1]));
            }
            if let Some(unique) = self.scopes[k - 1].get(name) {
                return Some(unique.clone());
            }
            k -= 1;
        }
        if func.declares(name) && !self.has_declared(name) {
            Some(name.to_owned())
        } else {
            None
        }
    }

    /// Whether a declaration has made the variable with the unique name `name`.
    fn has_declared(&self, name: &str) -> (r: bool)
        ensures
            r == self@.declared.contains(name@),
    {
        let mut i: usize = 0;
        while i < self.declared.len()
            invariant
                i <= self.declared@.len(),
                forall|j: int| 0 <= j < i ==> (#[trigger] self@.declared[j]) != name@,
            decreases self.declared@.len() - i,
        {
            assert(self@.declared[i as int] == self.declared@[i as int]@);
            if same(self.declared[i].as_str(), name) {
                return true;
            }
            i += 1;
        }
        false
    }

    /// Declare a variable in the innermost scope. Its unique name is returned.
    pub(crate) fn declare_variable(&mut self, name: &str, typ: AzulaType<'a>, func: &mut Function<'a>) -> (r:
        Option<String>)
        ensures
            match translation::declare(
                G { cg: old(self)@, f: old(func)@ },
                name@,
                types::ty_of(typ),
            ) {
                Some((g, unique)) => r is Some && r->0@ == unique && final(self)@ == g.cg
                    && final(func)@ == g.f,
                None => r is None,
            },
            final(self).tree() == old(self).tree(),
    {
        reveal(translation::declare);
        let ghost before = self@;
        let unique = if func.declares(name) {
            if self.var_counter == usize::MAX {
                return None;
            }
            self.var_counter = self.var_counter + 1;
            dot(name, decimal(self.var_counter).as_str())
        } else {
            name.to_owned()
        };
        if self.scopes.len() == 0 {
            return None;
        }
        if !func.declares(unique.as_str()) {
            self.declared.push(unique.clone());
            assert(self@.declared =~= before.declared.push(unique@));
        }
        func.declare(unique.clone(), typ);
        let top: usize = self.scopes.len() - 1;
        proof {
            assoc::lemma_mapped_put(self.scopes@[top as int]@, |n: String| n@, name@, unique);
            assert(before.scopes[top as int] == scope_of(self.scopes@[top as int]));
        }
        self.scopes[top].insert(name.to_owned(), unique.clone());
        assert(self@.scopes =~= before.scopes.update(
            top as int,
            assoc::put(before.scopes[top as int], name@, unique@),
        ));
        Some(unique)
    }

    /// Enter a scope.
    pub(crate) fn enter(&mut self)
        ensures
            forall|f: ir::Fun|
                (G { cg: final(self)@, f }) == #[trigger] translation::enter(G { cg: old(self)@, f }),
            final(self).tree() == old(self).tree(),
    {
        reveal(translation::enter);
        let ghost before = self@;
        self.scopes.push(NameMap::new());
        assert(scope_of(self.scopes@.last()) =~= Seq::empty());
        assert(self@.scopes =~= before.scopes.push(Seq::empty()));
    }

    /// Leave the innermost scope.
    pub(crate) fn leave(&mut self)
        ensures
            forall|f: ir::Fun|
                (G { cg: final(self)@, f }) == #[trigger] translation::leave(G { cg: old(self)@, f }),
            final(self).tree() == old(self).tree(),
    {
        reveal(translation::leave);
        let ghost before = self@;
        self.scopes.pop();
        proof {
            if before.scopes.len() > 0 {
                assert(self@.scopes =~= before.scopes.drop_last());
            } else {
                assert(self@.scopes =~= before.scopes);
            }
        }
    }

    /// Enter a loop.
    pub(crate) fn enter_loop(&mut self, end: String, again: String)
        ensures
            forall|f: ir::Fun|
                (G { cg: final(self)@, f }) == #[trigger] translation::enter_loop(
                    G { cg: old(self)@, f },
                    end@,
                    again@,
                ),
            final(self).tree() == old(self).tree(),
    {
        reveal(translation::enter_loop);
        let ghost before = self@;
        self.loop_end_stack.push(end);
        self.loop_continue_stack.push(again);
        assert(self@.loop_ends =~= before.loop_ends.push(end@));
        assert(self@.loop_continues =~= before.loop_continues.push(again@));
    }

    /// Leave the innermost loop.
    pub(crate) fn leave_loop(&mut self)
        ensures
            forall|f: ir::Fun|
                (G { cg: final(self)@, f }) == #[trigger] translation::leave_loop(
                    G { cg: old(self)@, f },
                ),
            final(self).tree() == old(self).tree(),
    {
        reveal(translation::leave_loop);
        let ghost before = self@;
        self.loop_end_stack.pop();
        self.loop_continue_stack.pop();
        proof {
            if before.loop_ends.len() > 0 {
                assert(self@.loop_ends =~= before.loop_ends.drop_last());
            } else {
                assert(self@.loop_ends =~= before.loop_ends);
            }
            if before.loop_continues.len() > 0 {
                assert(self@.loop_continues =~= before.loop_continues.drop_last());
            } else {
                assert(self@.loop_continues =~= before.loop_continues);
            }
        }
    }

    /// The function that an expression in the place of a callee names.
    pub(crate) fn resolve_function(function: &ExpressionNode<'a>) -> (r: Option<String>)
        ensures
            match r {
                Some(n) => translation::resolve(*function) == Some(n@),
                None => translation::resolve(*function) is None,
            },
    {
        reveal(translation::resolve);
        match &function.expression {
            Expression::Identifier(n) => Some(n.clone()),
            Expression::NamespaceAccess(ns, member) => match (ident(ns), ident(member)) {
                (Some(ns), Some(member)) => Some(dot(ns, member)),
                _ => None,
            },
            Expression::StructAccess(left, right) => match ident(right) {
                Some(method) => Some(dot(left.typed.to_string().as_str(), method)),
                None => None,
            },
            _ => None,
        }
    }

    /// The enum and the variant, when `function` names a variant of an enum with
    /// payloads.
    pub(crate) fn as_boxed_variant<'b>(&self, function: &'b ExpressionNode<'a>) -> (r: Option<
        (&'b str, &'b str),
    >)
        ensures
            match r {
                Some((ns, variant)) => translation::boxed_variant(self@.module, *function) == Some(
                    (ns@, variant@),
                ),
                None => translation::boxed_variant(self@.module, *function) is None,
            },
    {
        reveal(translation::boxed_variant);
        match &function.expression {
            Expression::NamespaceAccess(ns, variant) => match (ident(ns), ident(variant)) {
                (Some(ns), Some(variant)) => if self.module.is_boxed(ns)
                    && self.variant_index(ns, variant).is_some() {
                    Some((ns, variant))
                } else {
                    None
                },
                _ => None,
            },
            _ => None,
        }
    }

    /// How the method `name`, called on a receiver of type `t`, gets it.
    pub(crate) fn receiver(&self, t: &AzulaType<'a>, name: &str) -> (r: Receiver)
        ensures
            r == translation::receiver(self@.signatures, types::ty_of(*t), name@),
    {
        reveal(types::types_of);
        reveal(types::ty_of);
        reveal(translation::receiver);
        proof {
            assoc::lemma_mapped_get(
                self.signatures@,
                |v: Vec<AzulaType<'a>>| types::types_of(v@),
                name@,
            );
        }
        let takes_pointer = match self.signatures.get(name) {
            Some(args) => args.len() > 0 && is_pointer(&args[0]),
            None => false,
        };
        if takes_pointer && !is_pointer(t) {
            Receiver::Address
        } else if !takes_pointer && is_pointer(t) {
            Receiver::Load
        } else {
            Receiver::Value
        }
    }
}

/// Add an instruction to a function and give its destination.
pub open spec fn gives(t: Option<(ir::Fun, Value)>, r: Option<Value>, f: ir::Fun) -> bool {
    match t {
        Some((after, v)) => r == Some(v) && after == f,
        None => r is None,
    }
}

/// The list of one value.
pub(crate) fn one(v: Value) -> (r: Vec<Value>)
    ensures
        r@ == seq![v],
{
    let mut r: Vec<Value> = Vec::new();
    r.push(v);
    assert(r@ =~= seq![v]);
    r
}

/// The list of two values.
pub(crate) fn two(v: Value, w: Value) -> (r: Vec<Value>)
    ensures
        r@ == seq![v, w],
{
    let mut r: Vec<Value> = Vec::new();
    r.push(v);
    r.push(w);
    assert(r@ =~= seq![v, w]);
    r
}

/// Load an integer into a register.
pub(crate) fn int_const(func: &mut Function, v: i64) -> (r: Option<Value>)
    ensures
        gives(
            ir::defining(old(func)@, ir::Inst::ConstInt(v, old(func)@.registers)),
            r,
            final(func)@,
        ),
{
    let dest: usize = func.next_register();
    func.define(Instruction::ConstInt(v, dest))
}

/// Call the function `name`.
pub(crate) fn call(func: &mut Function, name: &str, args: Vec<Value>) -> (r: Option<Value>)
    ensures
        gives(
            ir::defining(
                old(func)@,
                ir::Inst::FunctionCall(name@, args@, old(func)@.registers),
            ),
            r,
            final(func)@,
        ),
{
    let dest: usize = func.next_register();
    func.define(Instruction::FunctionCall(name.to_owned(), args, dest))
}

/// Load the member `index` of a struct, or its address.
pub(crate) fn member(func: &mut Function, value: Value, index: usize, resolve: bool, name: &str) -> (r: Option<
    Value,
>)
    ensures
        gives(
            ir::defining(
                old(func)@,
                ir::Inst::AccessStructMember(
                    value,
                    index,
                    old(func)@.registers,
                    resolve,
                    name@,
                ),
            ),
            r,
            final(func)@,
        ),
{
    let dest: usize = func.next_register();
    func.define(Instruction::AccessStructMember(value, index, dest, resolve, name.to_owned()))
}

/// Load an element.
pub(crate) fn access_element<'a>(func: &mut Function<'a>, array: Value, index: Value, t: AzulaType<'a>) -> (r:
    Option<Value>)
    ensures
        gives(
            ir::defining(
                old(func)@,
                ir::Inst::AccessElement(array, index, old(func)@.registers, types::ty_of(t)),
            ),
            r,
            final(func)@,
        ),
{
    let dest: usize = func.next_register();
    func.define(Instruction::AccessElement(array, index, dest, t))
}

/// Read a variable.
pub(crate) fn load<'a>(func: &mut Function<'a>, name: String, t: AzulaType<'a>) -> (r: Option<Value>)
    ensures
        gives(
            ir::defining(
                old(func)@,
                ir::Inst::Load(name@, old(func)@.registers, types::ty_of(t)),
            ),
            r,
            final(func)@,
        ),
{
    let dest: usize = func.next_register();
    func.define(Instruction::Load(name, dest, t))
}

/// Take the address of a variable.
pub(crate) fn pointer(func: &mut Function, name: String) -> (r: Option<Value>)
    ensures
        gives(
            ir::defining(old(func)@, ir::Inst::Pointer(name@, old(func)@.registers)),
            r,
            final(func)@,
        ),
{
    let dest: usize = func.next_register();
    func.define(Instruction::Pointer(name, dest))
}

/// Go to `target`, unless the current block has ended.
pub(crate) fn fall_to(func: &mut Function, target: &str)
    ensures
        forall|cg: Cg|
            (G { cg, f: final(func)@ }) == #[trigger] translation::fall_to(
                G { cg, f: old(func)@ },
                target@,
            ),
{
    reveal(translation::fall_to);
    if !func.current_block_terminated() {
        func.jump(target.to_owned());
    }
}

/// The instruction that applies an operator which does not short-circuit.
pub(crate) fn infix_instruction<'a>(op: Operator, a: Value, b: Value, d: usize) -> (r: Option<Instruction<'a>>)
    ensures
        match r {
            Some(i) => translation::infix_inst(op, a, b, d) == Some(ir::inst_of(i)),
            None => translation::infix_inst(op, a, b, d) is None,
        },
{
    reveal(translation::infix_inst);
    match op {
        Operator::Add => Some(Instruction::Add(a, b, d)),
        Operator::Sub => Some(Instruction::Sub(a, b, d)),
        Operator::Mul => Some(Instruction::Mul(a, b, d)),
        Operator::Div => Some(Instruction::Div(a, b, d)),
        Operator::Mod => Some(Instruction::Mod(a, b, d)),
        Operator::Power => Some(Instruction::Pow(a, b, d)),
        Operator::Or => None,
        Operator::And => None,
        Operator::Eq => Some(Instruction::Eq(a, b, d)),
        Operator::Neq => Some(Instruction::Neq(a, b, d)),
        Operator::Lt => Some(Instruction::Lt(a, b, d)),
        Operator::Lte => Some(Instruction::Lte(a, b, d)),
        Operator::Gt => Some(Instruction::Gt(a, b, d)),
        Operator::Gte => Some(Instruction::Gte(a, b, d)),
        Operator::BitAnd => Some(Instruction::BitAnd(a, b, d)),
        Operator::BitOr => Some(Instruction::BitOr(a, b, d)),
        Operator::BitXor => Some(Instruction::BitXor(a, b, d)),
        Operator::Shl => Some(Instruction::Shl(a, b, d)),
        Operator::Shr => Some(Instruction::Shr(a, b, d)),
    }
}

/// Whether the operator can stand before `=` in an assignment.
pub(crate) fn compounds(op: Operator) -> (r: bool)
    ensures
        r == translation::compounds(op),
{
    reveal(translation::compounds);
    match op {
        Operator::Add | Operator::Sub | Operator::Mul | Operator::Div | Operator::Mod => true,
        Operator::BitAnd | Operator::BitOr | Operator::BitXor => true,
        Operator::Shl | Operator::Shr => true,
        _ => false,
    }
}

/// Store values into the members of a struct, from member `first` on.
pub(crate) fn store_members(func: &mut Function, object: Value, values: &Vec<Value>, first: usize, name: &str)
    requires
        first <= 1,
    ensures
        forall|cg: Cg|
            (G { cg, f: final(func)@ }) == #[trigger] translation::store_members(
                G { cg, f: old(func)@ },
                object,
                values@,
                first as int,
                name@,
                0,
            ),
{
    reveal(translation::store_members);
    let ghost f0 = func@;
    let mut k: usize = 0;
    while k < values.len()
        invariant
            k <= values@.len(),
            first <= 1,
            forall|cg: Cg|
                #[trigger] translation::store_members(
                    G { cg, f: f0 },
                    object,
                    values@,
                    first as int,
                    name@,
                    0,
                ) == translation::store_members(
                    G { cg, f: func@ },
                    object,
                    values@,
                    first as int,
                    name@,
                    k as int,
                ),
        decreases values@.len() - k,
    {
        reveal(translation::store_members);
        func.push_instruction(
            Instruction::StoreStructMember(object, first + k, values[k], name.to_owned()),
        );
        k += 1;
    }
}

} // verus!
