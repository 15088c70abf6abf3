//! Statements.

use vstd::prelude::*;
use crate::ast::{Expression, ExpressionNode, Statement};
use crate::codegen::state;
use crate::codegen::state::{
    access_element, compounds, element_type, fall_to, ident, infix_instruction, int_const,
    struct_name, Codegen,
};
use crate::ir::{Function, Instruction, Value};
use crate::text::numbered;
use crate::translation;
use crate::translation::G;

verus! {

impl<'a> Codegen<'a> {
    /// Statements, one after the other.
    pub(crate) fn gen_statements(&mut self, ss: &Vec<Statement<'a>>, func: &mut Function<'a>) -> (r: Option<()>)
        ensures
            state::reaches(
                translation::stmts(G { cg: old(self)@, f: old(func)@ }, ss@, 0),
                r,
                final(self)@,
                final(func)@,
            ),
            final(self).tree() == old(self).tree(),
        decreases ss, 0int,
    {
        reveal(translation::stmts);
        reveal(translation::stmt);
        let mut k: usize = 0;
        while k < ss.len()
            invariant
                self.tree() == old(self).tree(),
                k <= ss@.len(),
                translation::stmts(G { cg: old(self)@, f: old(func)@ }, ss@, 0) == translation::stmts(G { cg: self@, f: func@ }, ss@, k as int),
            decreases ss@.len() - k,
        {
            reveal(translation::stmts);
            reveal(translation::stmt);
            self.gen_statement(&ss[k], func)?;
            k += 1;
        }
        Some(())
    }

    /// The statements of a body, in a scope of their own.
    pub(crate) fn gen_scope(&mut self, ss: &Vec<Statement<'a>>, func: &mut Function<'a>) -> (r: Option<()>)
        ensures
            state::reaches(
                translation::scope(G { cg: old(self)@, f: old(func)@ }, ss@),
                r,
                final(self)@,
                final(func)@,
            ),
            final(self).tree() == old(self).tree(),
        decreases ss, 1int,
    {
        reveal(translation::scope);
        reveal(translation::stmts);
        self.enter();
        self.gen_statements(ss, func)?;
        self.leave();
        Some(())
    }

    /// A statement.
    pub(crate) fn gen_statement(&mut self, s: &Statement<'a>, func: &mut Function<'a>) -> (r: Option<()>)
        ensures
            state::reaches(
                translation::stmt(G { cg: old(self)@, f: old(func)@ }, *s),
                r,
                final(self)@,
                final(func)@,
            ),
            final(self).tree() == old(self).tree(),
        decreases s, 1int,
    {
        reveal(translation::stmt);
        reveal(translation::expr);
        reveal(translation::address);
        reveal(translation::stmts);
        reveal(translation::scope);
        reveal(translation::assign);
        reveal(translation::reassign);
        reveal(translation::ret);
        reveal(translation::if_stmt);
        reveal(translation::while_stmt);
        reveal(translation::for_stmt);
        match s {
            Statement::Assign(..) => self.gen_assign(s, func),
            Statement::Return(..) => self.gen_return(s, func),
            Statement::Group(body) => self.gen_statements(body, func),
            Statement::ExpressionStatement(e, _) => {
                self.gen_expr(e, func, true)?;
                Some(())
            },
            Statement::If(..) => self.gen_if(s, func),
            Statement::While(..) => self.gen_while(s, func),
            Statement::For(..) => self.gen_for(s, func),
            Statement::Break(_) => {
                let target = self.break_target()?;
                func.jump(target);
                Some(())
            },
            Statement::Continue(_) => {
                let target = self.continue_target()?;
                func.jump(target);
                Some(())
            },
            Statement::Reassign(..) => self.gen_reassign(s, func),
            Statement::CompoundAssign(target, op, value, _) => {
                let p = self.gen_address(target, func)?;
                let zero = int_const(func, 0)?;
                let before = access_element(func, p, zero, target.typed.clone())?;
                let v = self.gen_expr(value, func, true)?;
                if !compounds(*op) {
                    return None;
                }
                let i = infix_instruction(*op, before, v, func.next_register())?;
                let after = func.define(i)?;
                func.push_instruction(
                    Instruction::StoreElement(p, zero, after, target.typed.clone()),
                );
                Some(())
            },
            Statement::Block(body) => self.gen_scope(body, func),
            _ => None,
        }
    }

    /// The declaration of a variable.
    pub(crate) fn gen_assign(&mut self, s: &Statement<'a>, func: &mut Function<'a>) -> (r: Option<()>)
        ensures
            state::reaches(
                translation::assign(G { cg: old(self)@, f: old(func)@ }, *s),
                r,
                final(self)@,
                final(func)@,
            ),
            final(self).tree() == old(self).tree(),
        decreases s, 0int,
    {
        reveal(translation::assign);
        reveal(translation::expr);
        match s {
            Statement::Assign(_, name, annotation, e, _) => {
                let v = self.gen_expr(e, func, true)?;
                let t = match annotation {
                    Some(t) => t.clone(),
                    None => e.typed.clone(),
                };
                let unique = self.declare_variable(name.as_str(), t.clone(), func)?;
                func.store(unique, v, t);
                Some(())
            },
            _ => None,
        }
    }

    /// An assignment.
    pub(crate) fn gen_reassign(&mut self, s: &Statement<'a>, func: &mut Function<'a>) -> (r: Option<()>)
        ensures
            state::reaches(
                translation::reassign(G { cg: old(self)@, f: old(func)@ }, *s),
                r,
                final(self)@,
                final(func)@,
            ),
            final(self).tree() == old(self).tree(),
        decreases s, 0int,
    {
        reveal(translation::reassign);
        reveal(translation::expr);
        reveal(translation::store_to);
        let (target, e) = match s {
            Statement::Reassign(target, e, _) => (target, e),
            _ => {
                return None;
            },
        };
        let v = self.gen_expr(e, func, true)?;
        self.gen_store_to(target, v, func)
    }

    /// Store a value where the target of an assignment says.
    pub(crate) fn gen_store_to(&mut self, target: &ExpressionNode<'a>, v: Value, func: &mut Function<'a>) -> (r:
        Option<()>)
        ensures
            state::reaches(
                translation::store_to(G { cg: old(self)@, f: old(func)@ }, *target, v),
                r,
                final(self)@,
                final(func)@,
            ),
            final(self).tree() == old(self).tree(),
        decreases target, 0int,
    {
        reveal(translation::store_to);
        reveal(translation::expr);
        reveal(translation::object);
        match &target.expression {
            Expression::Identifier(name) => {
                let unique = self.lookup_variable(name.as_str(), func)?;
                func.store(unique, v, target.typed.clone());
                Some(())
            },
            Expression::Deref(pointer) => {
                let p = self.gen_expr(pointer, func, true)?;
                let zero = int_const(func, 0)?;
                func.push_instruction(Instruction::StoreElement(p, zero, v, target.typed.clone()));
                Some(())
            },
            Expression::ArrayAccess(array, index) => {
                let t = element_type(&array.typed)?;
                let array = self.gen_expr(array, func, true)?;
                let index = self.gen_expr(index, func, true)?;
                func.push_instruction(Instruction::StoreElement(array, index, v, t));
                Some(())
            },
            Expression::StructAccess(struc, name) => {
                let object = self.gen_object(struc, func)?;
                let name = ident(name)?;
                let owner = struct_name(&struc.typed)?;
                let index = self.struct_member_index(owner, name)?;
                func.push_instruction(
                    Instruction::StoreStructMember(object, index, v, owner.to_owned()),
                );
                Some(())
            },
            _ => None,
        }
    }

    /// The end of a function.
    pub(crate) fn gen_return(&mut self, s: &Statement<'a>, func: &mut Function<'a>) -> (r: Option<()>)
        ensures
            state::reaches(
                translation::ret(G { cg: old(self)@, f: old(func)@ }, *s),
                r,
                final(self)@,
                final(func)@,
            ),
            final(self).tree() == old(self).tree(),
        decreases s, 0int,
    {
        reveal(translation::ret);
        reveal(translation::expr);
        match s {
            Statement::Return(None, _) => {
                func.push_instruction(Instruction::Return(None));
                Some(())
            },
            Statement::Return(Some(e), _) => {
                let v = self.gen_expr(e, func, true)?;
                func.push_instruction(Instruction::Return(Some(v)));
                Some(())
            },
            _ => None,
        }
    }

    /// A conditional.
    pub(crate) fn gen_if(&mut self, s: &Statement<'a>, func: &mut Function<'a>) -> (r: Option<()>)
        ensures
            state::reaches(
                translation::if_stmt(G { cg: old(self)@, f: old(func)@ }, *s),
                r,
                final(self)@,
                final(func)@,
            ),
            final(self).tree() == old(self).tree(),
        decreases s, 0int,
    {
        reveal(translation::if_stmt);
        reveal(translation::expr);
        reveal(translation::scope);
        reveal(translation::stmt);
        match s {
            Statement::If(cond, body, other, _) => {
                let c = self.gen_expr(cond, func, true)?;
                let n = func.next_if()?;
                let yes = numbered("true-", n);
                let no = numbered("else-", n);
                let end = numbered("end-", n);
                if other.is_some() {
                    func.jcond(c, yes.clone(), no.clone());
                } else {
                    func.jcond(c, yes.clone(), end.clone());
                }
                func.open_block(yes);
                self.gen_scope(body, func)?;
                fall_to(func, end.as_str());
                if let Some(other) = other {
                    func.open_block(no);
                    self.enter();
                    self.gen_statement(other, func)?;
                    self.leave();
                    fall_to(func, end.as_str());
                }
                func.open_block(end);
                Some(())
            },
            _ => None,
        }
    }

    /// A loop that tests its condition first.
    pub(crate) fn gen_while(&mut self, s: &Statement<'a>, func: &mut Function<'a>) -> (r: Option<()>)
        ensures
            state::reaches(
                translation::while_stmt(G { cg: old(self)@, f: old(func)@ }, *s),
                r,
                final(self)@,
                final(func)@,
            ),
            final(self).tree() == old(self).tree(),
        decreases s, 0int,
    {
        reveal(translation::while_stmt);
        reveal(translation::expr);
        reveal(translation::scope);
        match s {
            Statement::While(cond, body, _) => {
                let n = func.next_if()?;
                let eval = numbered("eval-", n);
                let again = numbered("loop-", n);
                let end = numbered("end-", n);
                self.enter_loop(end.clone(), eval.clone());
                func.jump(eval.clone());
                func.open_block(eval.clone());
                let c = self.gen_expr(cond, func, true)?;
                func.jcond(c, again.clone(), end.clone());
                func.open_block(again);
                self.gen_scope(body, func)?;
                func.jump(eval);
                self.leave_loop();
                func.open_block(end);
                Some(())
            },
            _ => None,
        }
    }

    /// A loop with a condition, or without end.
    pub(crate) fn gen_for(&mut self, s: &Statement<'a>, func: &mut Function<'a>) -> (r: Option<()>)
        ensures
            state::reaches(
                translation::for_stmt(G { cg: old(self)@, f: old(func)@ }, *s),
                r,
                final(self)@,
                final(func)@,
            ),
            final(self).tree() == old(self).tree(),
        decreases s, 0int,
    {
        reveal(translation::for_stmt);
        reveal(translation::expr);
        reveal(translation::scope);
        match s {
            Statement::For(cond, body, _) => {
                let n = func.next_if()?;
                let again = numbered("loop-", n);
                let end = numbered("end-", n);
                match cond {
                    Some(cond) => {
                        let eval = numbered("eval-", n);
                        self.enter_loop(end.clone(), eval.clone());
                        func.jump(eval.clone());
                        func.open_block(eval.clone());
                        let c = self.gen_expr(cond, func, true)?;
                        func.jcond(c, again.clone(), end.clone());
                        func.open_block(again);
                        self.gen_scope(body, func)?;
                        fall_to(func, eval.as_str());
                    },
                    None => {
                        self.enter_loop(end.clone(), again.clone());
                        func.jump(again.clone());
                        func.open_block(again.clone());
                        self.gen_scope(body, func)?;
                        fall_to(func, again.as_str());
                    },
                }
                self.leave_loop();
                func.open_block(end);
                Some(())
            },
            _ => None,
        }
    }
}

} // verus!
