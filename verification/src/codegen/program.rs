//! Functions and programs, and the public interface of the generator.

use std::rc::Rc;
use vstd::prelude::*;
use crate::assoc;
use crate::ast::{Expression, ExpressionNode, MatchPattern, Statement, TypedIdentifier};
use crate::codegen::state::Codegen;
use crate::ir;
use crate::ir::{ExternFunction, Function, GlobalValue, Instruction, Module, Struct, Value};
use crate::text::{dot, join, numbered};
use crate::translation;
use crate::translation::{Cg, G};
use crate::types;
use crate::types::{clone_types, AzulaType, Ty};

verus! {

/// Copy every argument into a variable, so that arguments behave exactly like
/// local variables.
fn spill_arguments(func: &mut Function) -> (r: Option<()>)
    ensures
        match translation::spill(old(func)@, 0) {
            Some(f) => r is Some && final(func)@ == f,
            None => r is None,
        },
{
    reveal(translation::spill);
    reveal(ir::fun_of);
    let mut k: usize = 0;
    while k < func.arguments.len()
        invariant
            k <= func@.arguments.len(),
            func@.arguments.len() == func.arguments@.len(),
            translation::spill(old(func)@, 0) == translation::spill(func@, k as int),
        decreases func@.arguments.len() - k,
    {
        reveal(translation::spill);
        reveal(ir::fun_of);
        let name = func.arguments[k].0.clone();
        let t = func.arguments[k].1.clone();
        let ghost before = func@;
        let dest: usize = func.next_register();
        let v = func.define(Instruction::LoadArg(k, dest, t.clone()))?;
        func.store(name.clone(), v, t.clone());
        func.declare(name, t);
        proof {
            reveal(ir::defining);
            reveal(ir::appended);
        }
        k += 1;
    }
    Some(())
}

/// The arguments of a function.
fn arguments_of<'a>(args: &Vec<TypedIdentifier<'a>>) -> (r: Vec<(String, AzulaType<'a>)>)
    ensures
        ir::named_of(r@) == translation::arguments_of(args@),
{
    let mut r: Vec<(String, AzulaType<'a>)> = Vec::new();
    let mut i: usize = 0;
    while i < args.len()
        invariant
            i <= args@.len(),
            r@.len() == i,
            forall|j: int|
                0 <= j < i ==> (#[trigger] r@[j]).0@ == args@[j].1@ && types::ty_of(r@[j].1)
                    == types::ty_of(args@[j].0),
        decreases args@.len() - i,
    {
        r.push((args[i].1.to_owned(), args[i].0.clone()));
        i += 1;
    }
    assert(ir::named_of(r@) =~= translation::arguments_of(args@));
    r
}

/// The types of the arguments of a function.
fn signature_of<'a>(args: &Vec<TypedIdentifier<'a>>) -> (r: Vec<AzulaType<'a>>)
    ensures
        types::types_of(r@) == translation::signature_of(args@),
{
    let mut r: Vec<AzulaType<'a>> = Vec::new();
    let mut i: usize = 0;
    while i < args.len()
        invariant
            i <= args@.len(),
            r@.len() == i,
            forall|j: int|
                0 <= j < i ==> types::ty_of(#[trigger] r@[j]) == types::ty_of(args@[j].0),
        decreases args@.len() - i,
    {
        r.push(args[i].0.clone());
        i += 1;
    }
    proof {
        reveal(types::types_of);
        reveal(types::ty_of);
        assert(types::types_of(r@) =~= translation::signature_of(args@));
    }
    r
}

/// The members of a struct.
fn members_of<'a>(attributes: &Vec<TypedIdentifier<'a>>) -> (r: Vec<(AzulaType<'a>, String)>)
    ensures
        ir::members_of(r@) == crate::ast::typed_of(attributes@),
{
    let mut r: Vec<(AzulaType<'a>, String)> = Vec::new();
    let mut i: usize = 0;
    while i < attributes.len()
        invariant
            i <= attributes@.len(),
            r@.len() == i,
            forall|j: int|
                0 <= j < i ==> (#[trigger] r@[j]).1@ == attributes@[j].1@ && types::ty_of(r@[j].0)
                    == types::ty_of(attributes@[j].0),
        decreases attributes@.len() - i,
    {
        r.push((attributes[i].0.clone(), attributes[i].1.to_owned()));
        i += 1;
    }
    assert(ir::members_of(r@) =~= crate::ast::typed_of(attributes@));
    r
}

/// Copies of the names in a list.
fn owned_names(names: &Vec<&str>) -> (r: Vec<String>)
    ensures
        crate::ast::names_of(r@) == crate::ast::strs_of(names@),
{
    let mut r: Vec<String> = Vec::new();
    let mut i: usize = 0;
    while i < names.len()
        invariant
            i <= names@.len(),
            r@.len() == i,
            forall|j: int| 0 <= j < i ==> (#[trigger] r@[j])@ == names@[j]@,
        decreases names@.len() - i,
    {
        r.push(names[i].to_owned());
        i += 1;
    }
    assert(crate::ast::names_of(r@) =~= crate::ast::strs_of(names@));
    r
}

/// The initial value of a global.
fn global<'a>(module: &mut Module<'a>, e: &ExpressionNode<'a>) -> (r: Option<GlobalValue>)
    ensures
        match translation::global(old(module)@, *e) {
            Some((m, v)) => r == Some(v) && final(module)@ == m,
            None => r is None,
        },
{
    reveal(translation::global);
    match &e.expression {
        Expression::Integer(i) => Some(GlobalValue::Int(*i)),
        Expression::Negate(operand) => match &operand.expression {
            Expression::Integer(i) => if *i > i64::MIN {
                Some(GlobalValue::Int(-*i))
            } else {
                None
            },
            Expression::Float(f) => Some(
                GlobalValue::Float(
                    if *f >= 0x8000_0000_0000_0000 {
                        *f - 0x8000_0000_0000_0000
                    } else {
                        *f + 0x8000_0000_0000_0000
                    },
                ),
            ),
            _ => None,
        },
        Expression::Float(f) => Some(GlobalValue::Float(*f)),
        Expression::Boolean(b) => Some(GlobalValue::Bool(*b)),
        Expression::String(s) => match module.add_string(s.clone()) {
            Value::Global(n) => Some(GlobalValue::String(n)),
            _ => None,
        },
        _ => None,
    }
}

/// The members of a variant with a payload.
fn variant_members<'a>(payload: &Vec<AzulaType<'a>>) -> (r: Vec<(AzulaType<'a>, String)>)
    ensures
        ir::members_of(r@) == translation::variant_members(types::types_of(payload@)),
{
    reveal(types::ty_of);
    reveal(types::types_of);
    let ghost want = translation::variant_members(types::types_of(payload@));
    let mut r: Vec<(AzulaType<'a>, String)> = Vec::new();
    r.push((AzulaType::Int, "tag".to_owned()));
    let mut i: usize = 0;
    while i < payload.len()
        invariant
            i <= payload@.len(),
            r@.len() == i + 1,
            types::ty_of(r@[0].0) == Ty::Int,
            r@[0].1@ == "tag"@,
            forall|j: int|
                1 <= j <= i ==> types::ty_of((#[trigger] r@[j]).0) == types::ty_of(payload@[j - 1])
                    && r@[j].1@ == "_"@ + crate::text::digits((j - 1) as nat),
        decreases payload@.len() - i,
    {
        r.push((payload[i].clone(), numbered("_", i)));
        i += 1;
    }
    assert forall|j: int| 0 <= j < want.len() implies #[trigger] ir::members_of(r@)[j]
        == want[j] by {
        if j > 0 {
            assert(types::types_of(payload@)[j - 1] == types::ty_of(payload@[j - 1]));
        }
    }
    assert(ir::members_of(r@) =~= want);
    r
}

/// Lay an enum with payloads out.
fn register_boxed_enum<'a>(
    module: &mut Module<'a>,
    name: &str,
    variants: &Vec<&'a str>,
    payloads: &Vec<Vec<AzulaType<'a>>>,
)
    ensures
        final(module)@ == translation::boxed_enum(old(module)@, name@, variants@, payloads@),
{
    reveal(translation::boxed_enum);
    reveal(translation::variants_laid);
    let tag = join(name, ".__tag");
    let mut attributes: Vec<(AzulaType<'a>, String)> = Vec::new();
    attributes.push((AzulaType::Int, "tag".to_owned()));
    proof {
        reveal(types::ty_of);
        assert(ir::members_of(attributes@) =~= seq![(Ty::Int, "tag"@)]);
    }
    module.add_boxed(str::to_owned(name));
    module.add_struct(tag.clone(), Struct { name: tag, attributes });
    let ghost start = module@;
    let mut k: usize = 0;
    while k < variants.len() && k < payloads.len()
        invariant
            k <= variants@.len(),
            k <= payloads@.len(),
            translation::variants_laid(start, name@, variants@, payloads@, 0)
                == translation::variants_laid(module@, name@, variants@, payloads@, k as int),
        decreases variants@.len() - k,
    {
        reveal(translation::variants_laid);
        let struct_name = dot(name, variants[k]);
        let attributes = variant_members(&payloads[k]);
        module.add_struct(struct_name.clone(), Struct { name: struct_name, attributes });
        k += 1;
    }
}

/// Whether a variant has a payload.
fn has_payload(payloads: &Vec<Vec<AzulaType>>) -> (r: bool)
    ensures
        r == translation::has_payload(payloads@, 0),
{
    reveal(translation::has_payload);
    let mut k: usize = 0;
    while k < payloads.len()
        invariant
            k <= payloads@.len(),
            translation::has_payload(payloads@, 0) == translation::has_payload(
                payloads@,
                k as int,
            ),
        decreases payloads@.len() - k,
    {
        reveal(translation::has_payload);
        if payloads[k].len() > 0 {
            return true;
        }
        k += 1;
    }
    false
}

/// What a translation of a declaration has to do with `t`.
pub open spec fn becomes(t: Option<Cg>, r: Option<()>, cg: Cg) -> bool {
    match t {
        Some(after) => r is Some && after == cg,
        None => r is None,
    }
}

impl<'a> Codegen<'a> {
    /// Generate a function and add it to the program.
    fn gen_define(
        &mut self,
        name: String,
        args: &Vec<TypedIdentifier<'a>>,
        result: &AzulaType<'a>,
        body: &Statement<'a>,
    ) -> (r: Option<()>)
        ensures
            becomes(
                translation::define(old(self)@, name@, args@, *result, *body),
                r,
                final(self)@,
            ),
            final(self).tree() == old(self).tree(),
    {
        reveal(translation::define);
        reveal(translation::stmts);
        let mut func = Function::new();
        func.arguments = arguments_of(args);
        func.returns = result.clone();
        proof {
            reveal(ir::fun_of);
        }
        spill_arguments(&mut func)?;
        self.reset_scopes();
        match body {
            Statement::Block(ss) => {
                self.gen_statements(ss, &mut func)?;
            },
            _ => {},
        }
        self.program_mut().add_function(name, func);
        Some(())
    }

    /// Generate a function.
    fn gen_function(&mut self, s: &Statement<'a>) -> (r: Option<()>)
        ensures
            becomes(translation::function(old(self)@, *s), r, final(self)@),
            final(self).tree() == old(self).tree(),
    {
        reveal(translation::function);
        match s {
            Statement::Function { name, args, returns: result, body, .. } => self.gen_define(
                str::to_owned(name),
                args,
                result,
                body,
            ),
            _ => None,
        }
    }

    /// Generate the methods of a type.
    fn gen_impl(&mut self, s: &Statement<'a>) -> (r: Option<()>)
        ensures
            becomes(translation::implementation(old(self)@, *s), r, final(self)@),
            final(self).tree() == old(self).tree(),
    {
        reveal(translation::implementation);
        reveal(translation::methods);
        match s {
            Statement::Impl { struct_impl, funcs, .. } => {
                let owner = struct_impl.to_string();
                let mut k: usize = 0;
                while k < funcs.len()
                    invariant
                        k <= funcs@.len(),
                        self.tree() == old(self).tree(),
                        translation::implementation(old(self)@, *s) == translation::methods(
                            self@,
                            owner@,
                            funcs@,
                            k as int,
                        ),
                    decreases funcs@.len() - k,
                {
                    reveal(translation::methods);
                    match &funcs[k] {
                        Statement::Function { name, args, returns: result, body, .. } => {
                            self.gen_define(dot(owner.as_str(), name), args, result, body)?;
                        },
                        _ => {
                            return None;
                        },
                    }
                    k += 1;
                }
                Some(())
            },
            _ => None,
        }
    }

    /// Note the argument types of methods.
    fn method_signatures(&mut self, owner: &str, funcs: &Vec<Statement<'a>>)
        ensures
            final(self)@ == (Cg {
                signatures: translation::method_signatures(
                    old(self)@.signatures,
                    owner@,
                    funcs@,
                    0,
                ),
                ..old(self)@
            }),
            final(self).tree() == old(self).tree(),
    {
        reveal(translation::method_signatures);
        let mut k: usize = 0;
        while k < funcs.len()
            invariant
                k <= funcs@.len(),
                self.tree() == old(self).tree(),
                self@ == (Cg { signatures: self@.signatures, ..old(self)@ }),
                translation::method_signatures(old(self)@.signatures, owner@, funcs@, 0)
                    == translation::method_signatures(
                    self@.signatures,
                    owner@,
                    funcs@,
                    k as int,
                ),
            decreases funcs@.len() - k,
        {
            reveal(translation::method_signatures);
            match &funcs[k] {
                Statement::Function { name, args, .. } => {
                    self.add_signature(dot(owner, name), signature_of(args));
                },
                _ => {},
            }
            k += 1;
        }
    }

    /// Note what a statement at the top level declares.
    fn register(&mut self, s: &Statement<'a>) -> (r: Option<()>)
        ensures
            becomes(translation::registered(old(self)@, *s), r, final(self)@),
            final(self).tree() == old(self).tree(),
    {
        reveal(translation::registered);
        match s {
            Statement::ExternFunction { name, varargs, args, returns: result, .. } => {
                let f = ExternFunction {
                    varargs: *varargs,
                    arguments: clone_types(args),
                    returns: result.clone(),
                };
                self.program_mut().add_extern_function(name, f);
                Some(())
            },
            Statement::Impl { struct_impl, funcs, .. } => {
                self.method_signatures(struct_impl.to_string().as_str(), funcs);
                Some(())
            },
            Statement::Function { name, args, .. } => {
                self.add_signature(str::to_owned(name), signature_of(args));
                Some(())
            },
            Statement::Assign(_, name, _, value, _) => {
                let value = global(self.program_mut(), value)?;
                self.program_mut().add_global(name.clone(), value);
                Some(())
            },
            Statement::Struct { name, attributes, .. } => {
                let members = members_of(attributes);
                self.program_mut().add_struct(
                    str::to_owned(name),
                    Struct { name: str::to_owned(name), attributes: members },
                );
                Some(())
            },
            Statement::Enum { name, variants, payloads, .. } => {
                self.program_mut().add_enum(str::to_owned(name), owned_names(variants));
                if has_payload(payloads) {
                    register_boxed_enum(self.program_mut(), name, variants, payloads);
                }
                Some(())
            },
            _ => Some(()),
        }
    }

    /// Generate a program.
    fn gen_program(&mut self, root: &Statement<'a>) -> (r: Option<()>)
        ensures
            becomes(translation::program(old(self)@, *root), r, final(self)@),
    {
        reveal(translation::program);
        reveal(translation::all_registered);
        reveal(translation::all_generated);
        let ss = match root {
            Statement::Root(ss) => ss,
            _ => {
                return Some(());
            },
        };
        let mut k: usize = 0;
        while k < ss.len()
            invariant
                k <= ss@.len(),
                *root == Statement::Root(*ss),
                translation::all_registered(old(self)@, ss@, 0) == translation::all_registered(
                    self@,
                    ss@,
                    k as int,
                ),
            decreases ss@.len() - k,
        {
            reveal(translation::program);
            reveal(translation::all_registered);
            self.register(&ss[k])?;
            k += 1;
        }
        let ghost middle = self@;
        let mut k: usize = 0;
        while k < ss.len()
            invariant
                k <= ss@.len(),
                translation::program(old(self)@, *root) == translation::all_generated(
                    self@,
                    ss@,
                    k as int,
                ),
            decreases ss@.len() - k,
        {
            reveal(translation::all_generated);
            match &ss[k] {
                Statement::Function { .. } => {
                    self.gen_function(&ss[k])?;
                },
                Statement::Impl { .. } => {
                    self.gen_impl(&ss[k])?;
                },
                _ => {},
            }
            k += 1;
        }
        Some(())
    }

    /// Generate the program, or give nothing when the tree has no translation.
    pub fn try_codegen(&mut self) -> (r: Option<()>)
        ensures
            becomes(translation::program(old(self)@, old(self).tree()), r, final(self)@),
            final(self).tree() == old(self).tree(),
    {
        let tree = self.take_tree();
        let r = self.gen_program(&tree);
        self.put_tree(tree);
        r
    }

    /// Generate the program.
    pub fn codegen(&mut self)
        requires
            translation::program(old(self)@, old(self).tree()) is Some,
        ensures
            translation::program(old(self)@, old(self).tree()) == Some(final(self)@),
            final(self).tree() == old(self).tree(),
    {
        let _ = self.try_codegen();
    }

    /// End every block of the program that has not ended.
    pub fn insert_implicit_return(&mut self)
        ensures
            final(self)@ == (Cg {
                module: ir::Mod {
                    functions: assoc::mapped(
                        old(self)@.module.functions,
                        |f: ir::Fun| ir::ended(f),
                    ),
                    ..old(self)@.module
                },
                ..old(self)@
            }),
            final(self).tree() == old(self).tree(),
    {
        self.program_mut().end_blocks();
    }

    /// Generate a function.
    pub fn codegen_function(&mut self, stmt: Statement<'a>)
        requires
            translation::function(old(self)@, stmt) is Some,
        ensures
            translation::function(old(self)@, stmt) == Some(final(self)@),
            final(self).tree() == old(self).tree(),
    {
        let _ = self.gen_function(&stmt);
    }

    /// Generate the methods of a type.
    pub fn codegen_impl(&mut self, stmt: Statement<'a>)
        requires
            translation::implementation(old(self)@, stmt) is Some,
        ensures
            translation::implementation(old(self)@, stmt) == Some(final(self)@),
            final(self).tree() == old(self).tree(),
    {
        let _ = self.gen_impl(&stmt);
    }

    /// Generate a statement.
    pub fn codegen_statement(&mut self, stmt: Statement<'a>, func: &mut Function<'a>)
        requires
            translation::stmt(G { cg: old(self)@, f: old(func)@ }, stmt) is Some,
        ensures
            translation::stmt(G { cg: old(self)@, f: old(func)@ }, stmt) == Some(
                G { cg: final(self)@, f: final(func)@ },
            ),
            final(self).tree() == old(self).tree(),
    {
        let _ = self.gen_statement(&stmt, func);
    }

    /// Generate the declaration of a variable.
    pub fn codegen_assign(&mut self, stmt: Statement<'a>, func: &mut Function<'a>)
        requires
            translation::assign(G { cg: old(self)@, f: old(func)@ }, stmt) is Some,
        ensures
            translation::assign(G { cg: old(self)@, f: old(func)@ }, stmt) == Some(
                G { cg: final(self)@, f: final(func)@ },
            ),
            final(self).tree() == old(self).tree(),
    {
        let _ = self.gen_assign(&stmt, func);
    }

    /// Generate an assignment.
    pub fn codegen_reassign(&mut self, stmt: Statement<'a>, func: &mut Function<'a>)
        requires
            translation::reassign(G { cg: old(self)@, f: old(func)@ }, stmt) is Some,
        ensures
            translation::reassign(G { cg: old(self)@, f: old(func)@ }, stmt) == Some(
                G { cg: final(self)@, f: final(func)@ },
            ),
            final(self).tree() == old(self).tree(),
    {
        let _ = self.gen_reassign(&stmt, func);
    }

    /// Generate the end of a function.
    pub fn codegen_return(&mut self, stmt: Statement<'a>, func: &mut Function<'a>)
        requires
            translation::ret(G { cg: old(self)@, f: old(func)@ }, stmt) is Some,
        ensures
            translation::ret(G { cg: old(self)@, f: old(func)@ }, stmt) == Some(
                G { cg: final(self)@, f: final(func)@ },
            ),
            final(self).tree() == old(self).tree(),
    {
        let _ = self.gen_return(&stmt, func);
    }

    /// Generate a conditional.
    pub fn codegen_if(&mut self, stmt: Statement<'a>, func: &mut Function<'a>)
        requires
            translation::if_stmt(G { cg: old(self)@, f: old(func)@ }, stmt) is Some,
        ensures
            translation::if_stmt(G { cg: old(self)@, f: old(func)@ }, stmt) == Some(
                G { cg: final(self)@, f: final(func)@ },
            ),
            final(self).tree() == old(self).tree(),
    {
        let _ = self.gen_if(&stmt, func);
    }

    /// Generate a loop that tests its condition first.
    pub fn codegen_while(&mut self, stmt: Statement<'a>, func: &mut Function<'a>)
        requires
            translation::while_stmt(G { cg: old(self)@, f: old(func)@ }, stmt) is Some,
        ensures
            translation::while_stmt(G { cg: old(self)@, f: old(func)@ }, stmt) == Some(
                G { cg: final(self)@, f: final(func)@ },
            ),
            final(self).tree() == old(self).tree(),
    {
        let _ = self.gen_while(&stmt, func);
    }

    /// Generate a loop with a condition, or without end.
    pub fn codegen_for(&mut self, stmt: Statement<'a>, func: &mut Function<'a>)
        requires
            translation::for_stmt(G { cg: old(self)@, f: old(func)@ }, stmt) is Some,
        ensures
            translation::for_stmt(G { cg: old(self)@, f: old(func)@ }, stmt) == Some(
                G { cg: final(self)@, f: final(func)@ },
            ),
            final(self).tree() == old(self).tree(),
    {
        let _ = self.gen_for(&stmt, func);
    }

    /// Generate an expression. Its value is returned.
    pub fn codegen_expr(
        &mut self,
        expr: ExpressionNode<'a>,
        func: &mut Function<'a>,
        resolve_pointer: bool,
    ) -> (r: Value)
        requires
            translation::expr(
                G { cg: old(self)@, f: old(func)@ },
                expr,
                resolve_pointer,
            ) is Some,
        ensures
            translation::expr(G { cg: old(self)@, f: old(func)@ }, expr, resolve_pointer) == Some(
                (G { cg: final(self)@, f: final(func)@ }, r),
            ),
            final(self).tree() == old(self).tree(),
    {
        self.gen_expr(&expr, func, resolve_pointer).unwrap()
    }

    /// Generate two operands joined by an operator.
    pub fn codegen_infix(
        &mut self,
        expr: ExpressionNode<'a>,
        func: &mut Function<'a>,
        _resolve_pointer: bool,
    ) -> (r: Value)
        requires
            translation::infix(G { cg: old(self)@, f: old(func)@ }, expr) is Some,
        ensures
            translation::infix(G { cg: old(self)@, f: old(func)@ }, expr) == Some(
                (G { cg: final(self)@, f: final(func)@ }, r),
            ),
            final(self).tree() == old(self).tree(),
    {
        self.gen_infix(&expr, func).unwrap()
    }

    /// Generate a match on `scrutinee` whose value has the type `result_type`.
    pub fn codegen_match(
        &mut self,
        scrutinee: Rc<ExpressionNode<'a>>,
        arms: Vec<(MatchPattern<'a>, ExpressionNode<'a>)>,
        result_type: AzulaType<'a>,
        func: &mut Function<'a>,
    ) -> (r: Value)
        requires
            translation::match_expr(
                G { cg: old(self)@, f: old(func)@ },
                translation::match_node(scrutinee, arms, result_type),
            ) is Some,
        ensures
            translation::match_expr(
                G { cg: old(self)@, f: old(func)@ },
                translation::match_node(scrutinee, arms, result_type),
            ) == Some((G { cg: final(self)@, f: final(func)@ }, r)),
            final(self).tree() == old(self).tree(),
    {
        let span = scrutinee.span;
        let node = ExpressionNode {
            expression: Expression::Match(scrutinee, arms),
            typed: result_type,
            span,
        };
        self.gen_match(&node, func).unwrap()
    }
}

} // verus!
