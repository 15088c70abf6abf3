//! Expressions: from a tree to a register that holds its value.

use vstd::prelude::*;
use crate::ast::{Expression, ExpressionNode, Operator};
use crate::codegen::state::{
    access_element, after_environment, attributes_size, bool_type, call, cells, element_type, ident,
    infix_instruction, int_const, is_float, is_never, is_pointer, load, member, named_type, one, pointee,
    pointer, signature, store_members, str_type, struct_byte_size, struct_name, two, Codegen,
};
use crate::codegen::state;
use crate::ir::{Function, GlobalValue, Instruction, Value};
use crate::text::{dot, numbered, same};
use crate::translation;
use crate::translation::{Receiver, G};
use crate::types;
use crate::types::AzulaType;

verus! {

impl<'a> Codegen<'a> {
    /// Allocate a value of an enum with payloads.
    pub(crate) fn construct_variant(
        &self,
        owner: &str,
        variant: &str,
        values: &Vec<Value>,
        func: &mut Function<'a>,
    ) -> (r: Option<Value>)
        ensures
            state::yields(
                translation::construct(
                    G { cg: self@, f: old(func)@ },
                    owner@,
                    variant@,
                    values@,
                ),
                r,
                self@,
                final(func)@,
            ),
    {
        reveal(translation::construct);
        let name = dot(owner, variant);
        let dest: usize = func.next_register();
        let size = func.define(Instruction::SizeOf(named_type(name.clone()), dest))?;
        let object = call(func, "malloc", one(size))?;
        let index = self.variant_index(owner, variant)?;
        let tag = int_const(func, index as i64)?;
        func.push_instruction(Instruction::StoreStructMember(object, 0, tag, name.clone()));
        store_members(func, object, values, 1, name.as_str());
        Some(object)
    }

    /// A variable, a global or `nil` used as a value.
    pub(crate) fn read_name(&self, name: &String, t: &AzulaType<'a>, func: &mut Function<'a>) -> (r: Option<
        Value,
    >)
        ensures
            state::yields(
                translation::read_name(
                    G { cg: self@, f: old(func)@ },
                    name@,
                    types::ty_of(*t),
                ),
                r,
                self@,
                final(func)@,
            ),
    {
        reveal(translation::read_name);
        if let Some(unique) = self.lookup_variable(name.as_str(), func) {
            return load(func, unique, t.clone());
        }
        match self.program().find_global(name.as_str()) {
            Some(GlobalValue::String(n)) => Some(Value::Global(n)),
            Some(_) => {
                let dest: usize = func.next_register();
                func.define(Instruction::LoadGlobal(name.clone(), dest, t.clone()))
            },
            None => if same(name.as_str(), "nil") {
                let dest: usize = func.next_register();
                func.define(Instruction::ConstNull(dest))
            } else {
                None
            },
        }
    }

    /// The value of an expression.
    pub(crate) fn gen_expr(&mut self, e: &ExpressionNode<'a>, func: &mut Function<'a>, resolve_pointer: bool) -> (r:
        Option<Value>)
        ensures
            state::yields(
                translation::expr(G { cg: old(self)@, f: old(func)@ }, *e, resolve_pointer),
                r,
                final(self)@,
                final(func)@,
            ),
            final(self).tree() == old(self).tree(),
        decreases e, 2int,
    {
        reveal(translation::expr);
        reveal(translation::inner);
        let value = self.gen_inner(e, func, resolve_pointer)?;
        let called = match &e.expression {
            Expression::FunctionCall { .. } => true,
            _ => false,
        };
        if called && is_never(&e.typed) {
            func.push_instruction(Instruction::Unreachable);
        }
        Some(value)
    }

    /// The values of expressions, after those in `values`.
    pub(crate) fn gen_exprs(
        &mut self,
        es: &Vec<ExpressionNode<'a>>,
        values: Vec<Value>,
        func: &mut Function<'a>,
    ) -> (r: Option<Vec<Value>>)
        ensures
            match translation::exprs(G { cg: old(self)@, f: old(func)@ }, es@, 0, values@) {
                Some((g, vs)) => r is Some && r->0@ == vs && final(self)@ == g.cg && final(func)@
                    == g.f,
                None => r is None,
            },
            final(self).tree() == old(self).tree(),
        decreases es, 0int,
    {
        reveal(translation::exprs);
        reveal(translation::expr);
        let mut all = values;
        let mut k: usize = 0;
        while k < es.len()
            invariant
                self.tree() == old(self).tree(),
                k <= es@.len(),
                translation::exprs(G { cg: old(self)@, f: old(func)@ }, es@, 0, values@) == translation::exprs(G { cg: self@, f: func@ }, es@, k as int, all@),
            decreases es@.len() - k,
        {
            reveal(translation::exprs);
            reveal(translation::expr);
            let v = self.gen_expr(&es[k], func, true)?;
            all.push(v);
            k += 1;
        }
        Some(all)
    }

    /// The values of named expressions.
    pub(crate) fn gen_fields(&mut self, es: &Vec<(&'a str, ExpressionNode<'a>)>, func: &mut Function<'a>) -> (r:
        Option<Vec<Value>>)
        ensures
            match translation::fields(
                G { cg: old(self)@, f: old(func)@ },
                es@,
                0,
                Seq::empty(),
            ) {
                Some((g, vs)) => r is Some && r->0@ == vs && final(self)@ == g.cg && final(func)@
                    == g.f,
                None => r is None,
            },
            final(self).tree() == old(self).tree(),
        decreases es, 0int,
    {
        reveal(translation::fields);
        reveal(translation::expr);
        let mut all: Vec<Value> = Vec::new();
        assert(all@ =~= Seq::<Value>::empty());
        let mut k: usize = 0;
        while k < es.len()
            invariant
                self.tree() == old(self).tree(),
                k <= es@.len(),
                translation::fields(
            G { cg: old(self)@, f: old(func)@ },
            es@,
            0,
            Seq::<Value>::empty(),
        ) == translation::fields(G { cg: self@, f: func@ }, es@, k as int, all@),
            decreases es@.len() - k,
        {
            reveal(translation::fields);
            reveal(translation::expr);
            let v = self.gen_expr(&es[k].1, func, true)?;
            all.push(v);
            k += 1;
        }
        Some(all)
    }

    /// Two operands joined by an operator.
    pub(crate) fn gen_infix(&mut self, e: &ExpressionNode<'a>, func: &mut Function<'a>) -> (r: Option<Value>)
        ensures
            state::yields(
                translation::infix(G { cg: old(self)@, f: old(func)@ }, *e),
                r,
                final(self)@,
                final(func)@,
            ),
            final(self).tree() == old(self).tree(),
        decreases e, 0int,
    {
        reveal(translation::infix);
        reveal(translation::expr);
        match &e.expression {
            Expression::Infix(left, op, right) => {
                let or = match op {
                    Operator::Or => true,
                    _ => false,
                };
                let and = match op {
                    Operator::And => true,
                    _ => false,
                };
                if or || and {
                    let n = func.next_if()?;
                    let result = numbered("__sc_", n);
                    let rest = numbered("sc_rhs_", n);
                    let end = numbered("sc_end_", n);
                    func.declare(result.clone(), bool_type());
                    let dest: usize = func.next_register();
                    let decided = if or {
                        func.define(Instruction::ConstTrue(dest))?
                    } else {
                        func.define(Instruction::ConstFalse(dest))?
                    };
                    func.store(result.clone(), decided, bool_type());
                    let a = self.gen_expr(left, func, true)?;
                    if or {
                        func.jcond(a, end.clone(), rest.clone());
                    } else {
                        func.jcond(a, rest.clone(), end.clone());
                    }
                    func.open_block(rest);
                    let b = self.gen_expr(right, func, true)?;
                    func.store(result.clone(), b, bool_type());
                    func.jump(end.clone());
                    func.open_block(end);
                    load(func, result, bool_type())
                } else {
                    let a = self.gen_expr(left, func, true)?;
                    let b = self.gen_expr(right, func, true)?;
                    let i = infix_instruction(*op, a, b, func.next_register())?;
                    func.define(i)
                }
            },
            _ => None,
        }
    }

    /// A call.
    pub(crate) fn gen_call(&mut self, e: &ExpressionNode<'a>, func: &mut Function<'a>) -> (r: Option<Value>)
        ensures
            state::yields(
                translation::function_call(G { cg: old(self)@, f: old(func)@ }, *e),
                r,
                final(self)@,
                final(func)@,
            ),
            final(self).tree() == old(self).tree(),
        decreases e, 0int,
    {
        reveal(translation::function_call);
        reveal(translation::expr);
        reveal(translation::exprs);
        reveal(translation::address);
        match &e.expression {
            Expression::FunctionCall { function, args } => {
                if let Some((owner, variant)) = self.as_boxed_variant(function) {
                    let none: Vec<Value> = Vec::new();
                    assert(none@ =~= Seq::<Value>::empty());
                    let values = self.gen_exprs(args, none, func)?;
                    return self.construct_variant(owner, variant, &values, func);
                }
                let name = Self::resolve_function(function)?;
                let before = match &function.expression {
                    Expression::StructAccess(left, _) => {
                        let object = match self.receiver(&left.typed, name.as_str()) {
                            Receiver::Address => self.gen_address(left, func)?,
                            Receiver::Value => self.gen_expr(left, func, true)?,
                            Receiver::Load => {
                                let p = self.gen_expr(left, func, true)?;
                                let zero = int_const(func, 0)?;
                                let t = pointee(&left.typed)?;
                                access_element(func, p, zero, t)?
                            },
                        };
                        one(object)
                    },
                    _ => {
                        let none: Vec<Value> = Vec::new();
                        assert(none@ =~= Seq::<Value>::empty());
                        none
                    },
                };
                let values = self.gen_exprs(args, before, func)?;
                call(func, name.as_str(), values)
            },
            _ => None,
        }
    }

    /// A closure object.
    pub(crate) fn gen_make_closure(&mut self, e: &ExpressionNode<'a>, func: &mut Function<'a>) -> (r: Option<Value>)
        ensures
            state::yields(
                translation::make_closure(G { cg: old(self)@, f: old(func)@ }, *e),
                r,
                final(self)@,
                final(func)@,
            ),
            final(self).tree() == old(self).tree(),
        decreases e, 0int,
    {
        reveal(translation::make_closure);
        reveal(translation::captured);
        match &e.expression {
            Expression::MakeClosure(name, captures) => {
                let bytes = cells(captures.len() as i64)?;
                let size = int_const(func, bytes)?;
                let object = call(func, "malloc", one(size))?;
                let dest: usize = func.next_register();
                let code = func.define(Instruction::FunctionAddress(name.clone(), dest))?;
                call(func, "ptr_write_str", two(object, code))?;
                self.gen_captures(captures, object, func)?;
                Some(object)
            },
            _ => None,
        }
    }

    /// Write captured cells into a closure object.
    pub(crate) fn gen_captures(
        &mut self,
        captures: &Vec<ExpressionNode<'a>>,
        object: Value,
        func: &mut Function<'a>,
    ) -> (r: Option<()>)
        ensures
            state::reaches(
                translation::captured(
                    G { cg: old(self)@, f: old(func)@ },
                    captures@,
                    0,
                    object,
                ),
                r,
                final(self)@,
                final(func)@,
            ),
            final(self).tree() == old(self).tree(),
        decreases captures, 0int,
    {
        reveal(translation::captured);
        reveal(translation::expr);
        let mut k: usize = 0;
        while k < captures.len()
            invariant
                self.tree() == old(self).tree(),
                k <= captures@.len(),
                translation::captured(G { cg: old(self)@, f: old(func)@ }, captures@, 0, object) == translation::captured(
                    G { cg: self@, f: func@ },
                    captures@,
                    k as int,
                    object,
                ),
            decreases captures@.len() - k,
        {
            reveal(translation::captured);
            reveal(translation::expr);
            let cell = self.gen_expr(&captures[k], func, true)?;
            let bytes = cells(k as i64)?;
            let offset = int_const(func, bytes)?;
            let place = call(func, "ptr_add", two(object, offset))?;
            call(func, "ptr_write_str", two(place, cell))?;
            k += 1;
        }
        Some(())
    }

    /// Store items into an array.
    pub(crate) fn gen_elements(
        &mut self,
        items: &Vec<ExpressionNode<'a>>,
        array: Value,
        t: &AzulaType<'a>,
        func: &mut Function<'a>,
    ) -> (r: Option<Value>)
        ensures
            state::yields(
                translation::elements(
                    G { cg: old(self)@, f: old(func)@ },
                    items@,
                    0,
                    array,
                    types::ty_of(*t),
                ),
                r,
                final(self)@,
                final(func)@,
            ),
            final(self).tree() == old(self).tree(),
        decreases items, 0int,
    {
        reveal(translation::elements);
        reveal(translation::expr);
        let ghost ty = types::ty_of(*t);
        let mut k: usize = 0;
        while k < items.len()
            invariant
                self.tree() == old(self).tree(),
                k <= items@.len(),
                ty == types::ty_of(*t),
                translation::elements(
            G { cg: old(self)@, f: old(func)@ },
            items@,
            0,
            array,
            ty,
        ) == translation::elements(
                    G { cg: self@, f: func@ },
                    items@,
                    k as int,
                    array,
                    ty,
                ),
            decreases items@.len() - k,
        {
            reveal(translation::elements);
            reveal(translation::expr);
            let v = self.gen_expr(&items[k], func, true)?;
            let index = int_const(func, k as i64)?;
            func.push_instruction(Instruction::StoreElement(array, index, v, t.clone()));
            k += 1;
        }
        Some(array)
    }
}

impl<'a> Codegen<'a> {
    /// The address of the storage behind an expression.
    pub(crate) fn gen_address(&mut self, e: &ExpressionNode<'a>, func: &mut Function<'a>) -> (r: Option<Value>)
        ensures
            state::yields(
                translation::address(G { cg: old(self)@, f: old(func)@ }, *e),
                r,
                final(self)@,
                final(func)@,
            ),
            final(self).tree() == old(self).tree(),
        decreases e, 3int,
    {
        reveal(translation::address);
        reveal(translation::expr);
        reveal(translation::object);
        match &e.expression {
            Expression::StructAccess(struc, name) => {
                let owner = struct_name(&struc.typed)?;
                let base = self.gen_object(struc, func)?;
                let name = ident(name)?;
                let index = self.struct_member_index(owner, name)?;
                return member(func, base, index, false, owner);
            },
            Expression::ArrayAccess(array, index) => {
                let t = element_type(&array.typed)?;
                let array = self.gen_expr(array, func, true)?;
                let index = self.gen_expr(index, func, true)?;
                let dest: usize = func.next_register();
                return func.define(Instruction::ElementPtr(array, index, dest, t));
            },
            Expression::Deref(pointer) => {
                return self.gen_expr(pointer, func, true);
            },
            Expression::Identifier(name) => {
                if let Some(unique) = self.lookup_variable(name.as_str(), func) {
                    return pointer(func, unique);
                }
            },
            _ => {},
        }
        let n = func.next_if()?;
        let temp = numbered("__tmp_", n);
        let v = self.gen_expr(e, func, true)?;
        func.declare(temp.clone(), e.typed.clone());
        func.store(temp.clone(), v, e.typed.clone());
        pointer(func, temp)
    }

    /// The address of the struct whose member is accessed.
    pub(crate) fn gen_object(&mut self, e: &ExpressionNode<'a>, func: &mut Function<'a>) -> (r: Option<Value>)
        ensures
            state::yields(
                translation::object(G { cg: old(self)@, f: old(func)@ }, *e),
                r,
                final(self)@,
                final(func)@,
            ),
            final(self).tree() == old(self).tree(),
        decreases e, 4int,
    {
        reveal(translation::object);
        reveal(translation::expr);
        reveal(translation::address);
        if is_pointer(&e.typed) {
            self.gen_expr(e, func, true)
        } else {
            self.gen_address(e, func)
        }
    }

    /// The value of an expression, by what it is.
    pub(crate) fn gen_inner(&mut self, e: &ExpressionNode<'a>, func: &mut Function<'a>, resolve_pointer: bool) -> (r:
        Option<Value>)
        ensures
            state::yields(
                translation::inner(G { cg: old(self)@, f: old(func)@ }, *e, resolve_pointer),
                r,
                final(self)@,
                final(func)@,
            ),
            final(self).tree() == old(self).tree(),
        decreases e, 1int,
    {
        reveal(translation::inner);
        reveal(translation::unary);
        reveal(translation::new_cell);
        reveal(translation::array);
        reveal(translation::array_access);
        reveal(translation::struct_value);
        reveal(translation::struct_access);
        reveal(translation::block_value);
        reveal(translation::heap_value);
        reveal(translation::infix);
        reveal(translation::function_call);
        reveal(translation::call_closure);
        reveal(translation::make_closure);
        reveal(translation::address);
        reveal(translation::match_expr);
        let dest: usize = func.next_register();
        match &e.expression {
            Expression::Infix(..) => self.gen_infix(e, func),
            Expression::Integer(v) => int_const(func, *v),
            Expression::Float(v) => func.define(Instruction::ConstFloat(*v, dest)),
            Expression::Identifier(name) => self.name_use(name, &e.typed, func, resolve_pointer),
            Expression::String(s) => Some(self.add_string(s.clone())),
            Expression::Boolean(b) => if *b {
                func.define(Instruction::ConstTrue(dest))
            } else {
                func.define(Instruction::ConstFalse(dest))
            },
            Expression::FunctionCall { .. } => self.gen_call(e, func),
            Expression::Not(..) => self.gen_unary(e, func),
            Expression::BitNot(..) => self.gen_unary(e, func),
            Expression::SizeOf(t) => func.define(Instruction::SizeOf(t.clone(), dest)),
            Expression::Negate(..) => self.gen_unary(e, func),
            Expression::Pointer(operand) => self.gen_address(operand, func),
            Expression::MakeClosure(..) => self.gen_make_closure(e, func),
            Expression::NewCell(..) => self.gen_new_cell(e, func),
            Expression::EnvCell(n) => self.env_cell(*n, func),
            Expression::CallClosure(..) => self.gen_call_closure(e, func),
            Expression::Deref(..) => self.gen_unary(e, func),
            Expression::Array(..) => self.gen_array(e, func),
            Expression::ArrayAccess(..) => self.gen_array_access(e, func),
            Expression::StructInitialisation(..) => self.gen_struct_value(e, func),
            Expression::StructAccess(..) => self.gen_struct_access(e, func, resolve_pointer),
            Expression::NamespaceAccess(ns, variant) => self.variant_value(ns, variant, func),
            Expression::Match(..) => self.gen_match(e, func),
            Expression::Cast(..) => self.gen_unary(e, func),
            Expression::Null => func.define(Instruction::ConstNull(dest)),
            Expression::Block(..) => self.gen_block_value(e, func, resolve_pointer),
            Expression::Alloc(..) => self.gen_alloc(e, func),
            _ => None,
        }
    }

    /// A name used as a value, or for its address.
    fn name_use(
        &self,
        name: &String,
        t: &AzulaType<'a>,
        func: &mut Function<'a>,
        resolve_pointer: bool,
    ) -> (r: Option<Value>)
        ensures
            state::yields(
                translation::name_use(
                    G { cg: self@, f: old(func)@ },
                    name@,
                    types::ty_of(*t),
                    resolve_pointer,
                ),
                r,
                self@,
                final(func)@,
            ),
    {
        reveal(translation::name_use);
        if resolve_pointer {
            self.read_name(name, t, func)
        } else {
            let unique = self.lookup_variable(name.as_str(), func)?;
            pointer(func, unique)
        }
    }

    /// An operation on one operand.
    pub(crate) fn gen_unary(&mut self, e: &ExpressionNode<'a>, func: &mut Function<'a>) -> (r: Option<Value>)
        ensures
            state::yields(
                translation::unary(G { cg: old(self)@, f: old(func)@ }, *e),
                r,
                final(self)@,
                final(func)@,
            ),
            final(self).tree() == old(self).tree(),
        decreases e, 0int,
    {
        reveal(translation::unary);
        reveal(translation::expr);
        match &e.expression {
            Expression::Not(operand) => {
                let v = self.gen_expr(operand, func, true)?;
                let dest: usize = func.next_register();
                func.define(Instruction::Not(v, dest))
            },
            Expression::BitNot(operand) => {
                let v = self.gen_expr(operand, func, true)?;
                let dest: usize = func.next_register();
                func.define(Instruction::Not(v, dest))
            },
            Expression::Negate(operand) => {
                let zero = if is_float(&operand.typed) {
                    let dest: usize = func.next_register();
                    func.define(Instruction::ConstFloat(0, dest))?
                } else {
                    int_const(func, 0)?
                };
                let v = self.gen_expr(operand, func, true)?;
                let dest: usize = func.next_register();
                func.define(Instruction::Sub(zero, v, dest))
            },
            Expression::Deref(pointer) => {
                let p = self.gen_expr(pointer, func, true)?;
                let zero = int_const(func, 0)?;
                access_element(func, p, zero, e.typed.clone())
            },
            Expression::Cast(operand, t) => {
                let v = self.gen_expr(operand, func, true)?;
                let dest: usize = func.next_register();
                func.define(Instruction::Cast(v, t.clone(), dest))
            },
            _ => None,
        }
    }

    /// A new heap cell that holds a value.
    pub(crate) fn gen_new_cell(&mut self, e: &ExpressionNode<'a>, func: &mut Function<'a>) -> (r: Option<Value>)
        ensures
            state::yields(
                translation::new_cell(G { cg: old(self)@, f: old(func)@ }, *e),
                r,
                final(self)@,
                final(func)@,
            ),
            final(self).tree() == old(self).tree(),
        decreases e, 0int,
    {
        reveal(translation::new_cell);
        reveal(translation::expr);
        match &e.expression {
            Expression::NewCell(value) => {
                let depth: usize = self.program().struct_count();
                let bytes = struct_byte_size(self.program(), &value.typed, depth)?;
                let bytes: usize = if bytes > 8 {
                    bytes
                } else {
                    8
                };
                let size = int_const(func, bytes as i64)?;
                let v = self.gen_expr(value, func, true)?;
                let cell = call(func, "malloc", one(size))?;
                let zero = int_const(func, 0)?;
                func.push_instruction(Instruction::StoreElement(cell, zero, v, value.typed.clone()));
                Some(cell)
            },
            _ => None,
        }
    }

    /// A cell of the environment of the closure that is being run.
    pub(crate) fn env_cell(&self, n: usize, func: &mut Function<'a>) -> (r: Option<Value>)
        ensures
            state::yields(
                translation::env_cell(G { cg: self@, f: old(func)@ }, n),
                r,
                self@,
                final(func)@,
            ),
    {
        reveal(translation::env_cell);
        let unique = self.lookup_variable("$env", func)?;
        let env = load(func, unique, str_type())?;
        let bytes = cells(n as i64)?;
        let offset = int_const(func, bytes)?;
        let cell = call(func, "ptr_add", two(env, offset))?;
        call(func, "ptr_read_str", one(cell))
    }

    /// An array.
    pub(crate) fn gen_array(&mut self, e: &ExpressionNode<'a>, func: &mut Function<'a>) -> (r: Option<Value>)
        ensures
            state::yields(
                translation::array(G { cg: old(self)@, f: old(func)@ }, *e),
                r,
                final(self)@,
                final(func)@,
            ),
            final(self).tree() == old(self).tree(),
        decreases e, 0int,
    {
        reveal(translation::array);
        reveal(translation::elements);
        match &e.expression {
            Expression::Array(items) => {
                if items.len() == 0 {
                    return None;
                }
                let dest: usize = func.next_register();
                let array = func.define(
                    Instruction::CreateArray(items[0].typed.clone(), items.len(), dest),
                )?;
                self.gen_elements(items, array, &items[0].typed, func)
            },
            _ => None,
        }
    }

    /// An element of an array, a string or behind a pointer.
    pub(crate) fn gen_array_access(&mut self, e: &ExpressionNode<'a>, func: &mut Function<'a>) -> (r: Option<Value>)
        ensures
            state::yields(
                translation::array_access(G { cg: old(self)@, f: old(func)@ }, *e),
                r,
                final(self)@,
                final(func)@,
            ),
            final(self).tree() == old(self).tree(),
        decreases e, 0int,
    {
        reveal(translation::array_access);
        reveal(translation::expr);
        match &e.expression {
            Expression::ArrayAccess(array, index) => {
                let t = element_type(&array.typed)?;
                let array = self.gen_expr(array, func, true)?;
                let index = self.gen_expr(index, func, true)?;
                access_element(func, array, index, t)
            },
            _ => None,
        }
    }

    /// A struct, member by member.
    pub(crate) fn gen_struct_value(&mut self, e: &ExpressionNode<'a>, func: &mut Function<'a>) -> (r: Option<Value>)
        ensures
            state::yields(
                translation::struct_value(G { cg: old(self)@, f: old(func)@ }, *e),
                r,
                final(self)@,
                final(func)@,
            ),
            final(self).tree() == old(self).tree(),
        decreases e, 0int,
    {
        reveal(translation::struct_value);
        reveal(translation::fields);
        match &e.expression {
            Expression::StructInitialisation(struc, vals) => {
                let values = self.gen_fields(vals, func)?;
                let name = ident(struc)?;
                let dest: usize = func.next_register();
                func.define(Instruction::CreateStruct(name.to_owned(), values, dest))
            },
            _ => None,
        }
    }

    /// A member of a struct, or its address.
    pub(crate) fn gen_struct_access(&mut self, e: &ExpressionNode<'a>, func: &mut Function<'a>, resolve_pointer: bool) -> (r: Option<Value>)
        ensures
            state::yields(
                translation::struct_access(G { cg: old(self)@, f: old(func)@ }, *e, resolve_pointer),
                r,
                final(self)@,
                final(func)@,
            ),
            final(self).tree() == old(self).tree(),
        decreases e, 0int,
    {
        reveal(translation::struct_access);
        reveal(translation::expr);
        match &e.expression {
            Expression::StructAccess(struc, name) => {
                let value = self.gen_expr(struc, func, true)?;
                let name = ident(name)?;
                let owner = struct_name(&struc.typed)?;
                let index = self.struct_member_index(owner, name)?;
                member(func, value, index, resolve_pointer, owner)
            },
            _ => None,
        }
    }

    /// A variant of an enum used as a value.
    pub(crate) fn variant_value(&self, ns: &ExpressionNode<'a>, variant: &ExpressionNode<'a>, func: &mut Function<'a>) -> (r: Option<Value>)
        ensures
            state::yields(
                translation::variant_value(G { cg: self@, f: old(func)@ }, *ns, *variant),
                r,
                self@,
                final(func)@,
            ),
    {
        reveal(translation::variant_value);
        let owner = ident(ns)?;
        let variant = ident(variant)?;
        if self.program().is_boxed(owner) {
            let none: Vec<Value> = Vec::new();
            assert(none@ =~= Seq::<Value>::empty());
            self.construct_variant(owner, variant, &none, func)
        } else {
            let index = self.variant_index(owner, variant)?;
            int_const(func, index as i64)
        }
    }

    /// A block used as a value.
    pub(crate) fn gen_block_value(&mut self, e: &ExpressionNode<'a>, func: &mut Function<'a>, resolve_pointer: bool) -> (r: Option<Value>)
        ensures
            state::yields(
                translation::block_value(G { cg: old(self)@, f: old(func)@ }, *e, resolve_pointer),
                r,
                final(self)@,
                final(func)@,
            ),
            final(self).tree() == old(self).tree(),
        decreases e, 0int,
    {
        reveal(translation::block_value);
        reveal(translation::expr);
        reveal(translation::stmts);
        match &e.expression {
            Expression::Block(body, last) => {
                self.enter();
                self.gen_statements(body, func)?;
                let v = match last {
                    None => Value::LiteralInteger(0),
                    Some(last) => self.gen_expr(last, func, resolve_pointer)?,
                };
                self.leave();
                Some(v)
            },
            _ => None,
        }
    }

    /// A struct on the heap.
    pub(crate) fn gen_alloc(&mut self, e: &ExpressionNode<'a>, func: &mut Function<'a>) -> (r: Option<Value>)
        ensures
            state::yields(
                translation::heap_value(G { cg: old(self)@, f: old(func)@ }, *e),
                r,
                final(self)@,
                final(func)@,
            ),
            final(self).tree() == old(self).tree(),
        decreases e, 0int,
    {
        reveal(translation::heap_value);
        reveal(translation::fields);
        match &e.expression {
            Expression::Alloc(object) => match &object.expression {
                Expression::StructInitialisation(struc, vals) => {
                    let name = ident(struc)?;
                    let values = self.gen_fields(vals, func)?;
                    let bytes = self.alloc_size(name, vals.len())?;
                    let size = int_const(func, bytes as i64)?;
                    let object = call(func, "malloc", one(size))?;
                    store_members(func, object, &values, 0, name);
                    Some(object)
                },
                _ => None,
            },
            _ => None,
        }
    }

    /// The number of bytes that `new` allocates for a struct with `n` members
    /// given.
    pub(crate) fn alloc_size(&self, name: &str, n: usize) -> (r: Option<usize>)
        ensures
            match r {
                Some(size) => translation::alloc_size(self@.module, name@, n as nat) == Some(
                    size as nat,
                ),
                None => translation::alloc_size(self@.module, name@, n as nat) is None,
            },
    {
        reveal(translation::alloc_size);
        match self.program().find_struct(name) {
            Some(s) => attributes_size(self.program(), &s.attributes, self.program().struct_count()),
            None => n.checked_mul(8),
        }
    }

    /// A call of a function value.
    pub(crate) fn gen_call_closure(&mut self, e: &ExpressionNode<'a>, func: &mut Function<'a>) -> (r: Option<Value>)
        ensures
            state::yields(
                translation::call_closure(G { cg: old(self)@, f: old(func)@ }, *e),
                r,
                final(self)@,
                final(func)@,
            ),
            final(self).tree() == old(self).tree(),
        decreases e, 0int,
    {
        reveal(translation::call_closure);
        reveal(translation::expr);
        reveal(translation::exprs);
        let (callee, args) = match &e.expression {
            Expression::CallClosure(callee, args) => (callee, args),
            _ => {
                return None;
            },
        };
        let (params, result) = signature(&callee.typed)?;
        let object = self.gen_expr(callee, func, true)?;
        let code = call(func, "ptr_read_str", one(object))?;
        let values = self.gen_exprs(args, one(object), func)?;
        let dest: usize = func.next_register();
        let v = func.define(
            Instruction::IndirectCall(code, values, after_environment(params), result.clone(), dest),
        )?;
        if is_never(result) {
            func.push_instruction(Instruction::Unreachable);
        }
        Some(v)
    }
}

} // verus!
