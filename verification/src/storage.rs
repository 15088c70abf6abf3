//! The storage of variables: a function allocates it where its entry block starts, and
//! nowhere else. So it is there whichever way the function is run through.

use vstd::prelude::*;
use crate::assoc;
use crate::ir::{Fun, GlobalValue, Inst, Mod, Value};
use crate::lowering;
use crate::lowering::{
    FloatOp, IntOp, Label, Ll, LlvmType, Loc, Low, Op, Operand, Predicate, Sig, Step,
};
use crate::shape;
use crate::types::Ty;

verus! {

/// The number of steps that allocate storage for a variable.
pub open spec fn allocations(ops: Seq<Step>) -> nat
    decreases ops.len(),
{
    if ops.len() == 0 {
        0
    } else {
        allocations(ops.drop_last()) + if ops.last() is Alloca {
            1nat
        } else {
            0nat
        }
    }
}

/// Whether steps are only added between two modules, and none of them allocates.
pub open spec fn same(a: Ll, b: Ll) -> bool {
    allocations(a.ops) == allocations(b.ops) && shape::extends(a.ops, b.ops)
}

/// Whether nothing is allocated between two states of a function, and the same
/// variables have storage.
pub open spec fn same_in(a: Low, b: Low) -> bool {
    same(a.l, b.l) && a.loc.variables == b.loc.variables
}

/// One more step.
broadcast proof fn lemma_step(ops: Seq<Step>, op: Step)
    ensures
        #[trigger] allocations(ops.push(op)) == allocations(ops) + if op is Alloca {
            1nat
        } else {
            0nat
        },
{
    assert(ops.push(op).drop_last() =~= ops);
}

/// Steps that are added in two turns are added.
proof fn lemma_added_twice(a: Seq<Step>, b: Seq<Step>, c: Seq<Step>)
    requires
        shape::extends(a, b),
        shape::extends(b, c),
    ensures
        shape::extends(a, c),
{
    assert forall|k: int| 0 <= k < a.len() implies c[k] == #[trigger] a[k] by {
        assert(b[k] == a[k]);
    }
}

// ---------------------------------------------------------------------------
// Values

/// Bringing an integer to a width.
proof fn lemma_coerced(l: Ll, v: Operand, target: LlvmType)
    ensures
        same(l, lowering::coerced(l, v, target).0),
{
    broadcast use lemma_step;

    reveal(lowering::coerced);
}

/// Bringing two integers to one width.
proof fn lemma_harmonized(l: Ll, a: Operand, b: Operand)
    ensures
        same(l, lowering::harmonized(l, a, b).0),
{
    broadcast use lemma_step;

    reveal(lowering::harmonized);
}

/// An operand.
proof fn lemma_operand(s: Low, v: Value)
    ensures
        lowering::operand(s, v) matches Some((t, _)) ==> same_in(s, t),
{
    broadcast use lemma_step;

    reveal(lowering::operand);
}

/// Operands.
proof fn lemma_operands(s: Low, vs: Seq<Value>, k: int, values: Seq<Operand>)
    ensures
        lowering::operands(s, vs, k, values) matches Some((t, _)) ==> same_in(s, t),
    decreases vs.len() - k,
{
    reveal(lowering::operands);
    if 0 <= k < vs.len() {
        lemma_operand(s, vs[k]);
        if let Some((t, v)) = lowering::operand(s, vs[k]) {
            lemma_operands(t, vs, k + 1, values.push(v));
        }
    }
}

/// A block.
proof fn lemma_block(s: Low, function: usize, name: Seq<char>)
    ensures
        same_in(s, lowering::block(s, function, name).0),
{
    broadcast use lemma_step;

    reveal(lowering::block);
}

// ---------------------------------------------------------------------------
// Instructions

/// Calculations.
proof fn lemma_calculations(
    s: Low,
    i: IntOp,
    f: FloatOp,
    p: Predicate,
    harmonize: bool,
    a: Value,
    b: Value,
    dest: usize,
)
    ensures
        lowering::arithmetic(s, i, f, a, b, dest) matches Some(t) ==> same_in(s, t),
        lowering::comparison(s, p, a, b, dest) matches Some(t) ==> same_in(s, t),
        lowering::bitwise(s, i, harmonize, a, b, dest) matches Some(t) ==> same_in(s, t),
        lowering::power(s, a, b, dest) matches Some(t) ==> same_in(s, t),
{
    broadcast use lemma_step;

    reveal(lowering::arithmetic);
    reveal(lowering::comparison);
    reveal(lowering::bitwise);
    reveal(lowering::power);
    if let Some(x) = lowering::local(s.loc, a) {
        if let Some(y) = lowering::local(s.loc, b) {
            lemma_harmonized(s.l, x, y);
        }
    }
}

/// Reading variables, globals and arguments.
proof fn lemma_loads(s: Low, name: Seq<char>, sig: Sig, arg: usize, dest: usize, t: Ty)
    ensures
        lowering::load(s, name, dest, t) matches Some(r) ==> same_in(s, r),
        lowering::load_global(s, name, dest, t) matches Some(r) ==> same_in(s, r),
        lowering::load_arg(s, sig, arg, dest) matches Some(r) ==> same_in(s, r),
{
    broadcast use lemma_step;

    reveal(lowering::load);
    reveal(lowering::load_global);
    reveal(lowering::load_arg);
}

/// Writing a variable that has storage.
proof fn lemma_store(s: Low, name: Seq<char>, v: Value, t: Ty)
    requires
        assoc::defined(s.loc.variables, name),
    ensures
        lowering::store(s, name, v, t) matches Some(r) ==> same_in(s, r),
{
    broadcast use lemma_step;

    reveal(lowering::store);
    reveal(lowering::store_string);
    reveal(lowering::variable);
    reveal(assoc::get);
    lemma_operand(s, v);
    if let Some((r, value)) = lowering::operand(s, v) {
        if let Some(ty) = lowering::basic_type(r.l, t) {
            lemma_coerced(r.l, value, ty);
        }
    }
}

/// The end of a function.
proof fn lemma_ret(s: Low, sig: Sig, v: Option<Value>)
    ensures
        lowering::ret(s, sig, v) matches Some(r) ==> same_in(s, r),
{
    broadcast use lemma_step;

    reveal(lowering::ret);
    if let Some(Value::Local(n)) = v {
        if let Some(value) = lowering::local(s.loc, Value::Local(n)) {
            if let Some(t) = sig.result {
                lemma_coerced(s.l, value, t);
            }
        }
    }
}

/// Bringing an argument to what a callee expects.
proof fn lemma_argument(l: Ll, v: Operand, param: Option<LlvmType>)
    ensures
        same(l, lowering::argument(l, v, param).0),
{
    broadcast use lemma_step;

    reveal(lowering::argument);
    if let Some(t) = param {
        lemma_coerced(l, v, t);
    }
}

/// Bringing arguments to what a callee expects.
proof fn lemma_arguments(
    l: Ll,
    vs: Seq<Operand>,
    params: Seq<LlvmType>,
    k: int,
    done: Seq<Operand>,
)
    ensures
        same(l, lowering::arguments(l, vs, params, k, done).0),
    decreases vs.len() - k,
{
    reveal(lowering::arguments);
    if 0 <= k < vs.len() {
        let param = if k < params.len() {
            Some(params[k])
        } else {
            None
        };
        lemma_argument(l, vs[k], param);
        let (m, v) = lowering::argument(l, vs[k], param);
        lemma_arguments(m, vs, params, k + 1, done.push(v));
    }
}

/// A call.
proof fn lemma_call(s: Low, name: Seq<char>, args: Seq<Value>, dest: usize)
    ensures
        lowering::call(s, name, args, dest) matches Some(r) ==> same_in(s, r),
{
    broadcast use lemma_step;

    reveal(lowering::call);
    reveal(lowering::pointer_add);
    reveal(lowering::pointer_read);
    reveal(lowering::pointer_write);
    reveal(lowering::function_call);
    lemma_operands(s, args, 0, Seq::empty());
    if let Some((t, values)) = lowering::operands(s, args, 0, Seq::empty()) {
        if let Some(sig) = assoc::get(t.l.functions, name) {
            lemma_arguments(t.l, values, sig.params, 0, Seq::empty());
        }
    }
}

/// Branches.
proof fn lemma_branches(s: Low, function: usize, cond: Value, yes: Seq<char>, no: Seq<char>)
    ensures
        lowering::cond_branch(s, function, cond, yes, no) matches Some(r) ==> same_in(s, r),
        same_in(s, lowering::branch(s, function, yes)),
{
    broadcast use lemma_step;

    reveal(lowering::cond_branch);
    reveal(lowering::branch);
    lemma_block(s, function, yes);
    lemma_block(lowering::block(s, function, yes).0, function, no);
}

/// Elements of arrays.
proof fn lemma_elements(s: Low, array: Value, index: Value, v: Value, t: Ty, label: Label)
    ensures
        lowering::element(s, array, index, t, label) matches Some((l, _, _)) ==> same(s.l, l),
        lowering::store_element(s, array, index, v, t) matches Some(r) ==> same_in(s, r),
{
    broadcast use lemma_step;

    reveal(lowering::element);
    reveal(lowering::store_element);
    lemma_operand(s, v);
    if let Some((r, x)) = lowering::operand(s, v) {
        if let Some(ty) = lowering::basic_type(r.l, t) {
            lemma_coerced(r.l, x, ty);
        }
    }
}

/// Members of structs.
proof fn lemma_members(
    s: Low,
    struc: Value,
    index: usize,
    v: Value,
    dest: usize,
    resolve: bool,
    name: Seq<char>,
)
    ensures
        lowering::store_member(s, struc, index, v, name) matches Some(r) ==> same_in(s, r),
        lowering::access_member(s, struc, index, dest, resolve, name) matches Some(r) ==> same_in(
            s,
            r,
        ),
{
    broadcast use lemma_step;

    reveal(lowering::store_member);
    reveal(lowering::access_member);
    lemma_operand(s, v);
    if let Some((r, x)) = lowering::operand(s, v) {
        if let Some(n) = assoc::get(r.l.structs, name) {
            if let Some(ty) = lowering::member_type(r.l, n, index as u32) {
                lemma_coerced(r.l, x, ty);
            }
        }
    }
}

/// Setting the members of a struct.
proof fn lemma_inserted(l: Ll, n: usize, object: Operand, vs: Seq<Operand>, k: int)
    ensures
        lowering::inserted(l, n, object, vs, k) matches Some((m, _)) ==> same(l, m),
    decreases vs.len() - k,
{
    broadcast use lemma_step;

    reveal(lowering::inserted);
    if 0 <= k < vs.len() {
        if let Some(ty) = lowering::member_type(l, n, k as usize as u32) {
            lemma_coerced(l, vs[k], ty);
            let (m, v) = lowering::coerced(l, vs[k], ty);
            let (w, o) = lowering::built(
                m,
                Op::InsertValue(object, v, k as usize as u32, Label::Insert),
                LlvmType::Struct(n),
            );
            lemma_inserted(w, n, o, vs, k + 1);
            if let Some((last, _)) = lowering::inserted(w, n, o, vs, k + 1) {
                lemma_added_twice(l.ops, m.ops, w.ops);
                lemma_added_twice(l.ops, w.ops, last.ops);
            }
        }
    }
}

/// Making structs and arrays.
proof fn lemma_creations(s: Low, name: Seq<char>, vs: Seq<Value>, t: Ty, size: usize, dest: usize)
    ensures
        lowering::create_struct(s, name, vs, dest) matches Some(r) ==> same_in(s, r),
        lowering::create_array(s, t, size, dest) matches Some(r) ==> same_in(s, r),
{
    broadcast use lemma_step;

    reveal(lowering::create_struct);
    reveal(lowering::create_array);
    if let Some(n) = assoc::get(s.l.structs, name) {
        lemma_operands(s, vs, 0, Seq::empty());
        if let Some((r, values)) = lowering::operands(s, vs, 0, Seq::empty()) {
            let (l, object) = lowering::built(r.l, Op::ConstStruct(n), LlvmType::Struct(n));
            lemma_inserted(l, n, object, values, 0);
            if let Some((last, _)) = lowering::inserted(l, n, object, values, 0) {
                lemma_added_twice(s.l.ops, r.l.ops, l.ops);
                lemma_added_twice(s.l.ops, l.ops, last.ops);
            }
        }
    }
}

/// A conversion.
proof fn lemma_cast(s: Low, v: Value, t: Ty, dest: usize)
    ensures
        lowering::cast(s, v, t, dest) matches Some(r) ==> same_in(s, r),
{
    broadcast use lemma_step;

    reveal(lowering::cast);
    if let Some(x) = lowering::local(s.loc, v) {
        if let Some(ty) = lowering::basic_type(s.l, t) {
            lemma_coerced(s.l, x, ty);
        }
    }
}

/// An instruction allocates nothing, as long as the variable that it names, if it
/// names one, has storage.
pub proof fn lemma_instruction(s: Low, sig: Sig, i: Inst)
    requires
        shape::variable(i) matches Some(x) ==> assoc::defined(s.loc.variables, x),
    ensures
        lowering::instruction(s, sig, i) matches Some(t) ==> same_in(s, t),
{
    broadcast use lemma_step;

    reveal(lowering::instruction);
    match i {
        Inst::Load(name, dest, t) => lemma_loads(s, name, sig, 0, dest, t),
        Inst::LoadGlobal(name, dest, t) => lemma_loads(s, name, sig, 0, dest, t),
        Inst::LoadArg(arg, dest, t) => lemma_loads(s, Seq::empty(), sig, arg, dest, t),
        Inst::Store(name, v, t) => lemma_store(s, name, v, t),
        Inst::Add(a, b, dest) => {
            lemma_calculations(s, IntOp::Add, FloatOp::Add, Predicate::Eq, true, a, b, dest);
        },
        Inst::Sub(a, b, dest) => {
            lemma_calculations(s, IntOp::Sub, FloatOp::Sub, Predicate::Eq, true, a, b, dest);
        },
        Inst::Mul(a, b, dest) => {
            lemma_calculations(s, IntOp::Mul, FloatOp::Mul, Predicate::Eq, true, a, b, dest);
        },
        Inst::Div(a, b, dest) => {
            lemma_calculations(s, IntOp::Div, FloatOp::Div, Predicate::Eq, true, a, b, dest);
        },
        Inst::Mod(a, b, dest) => {
            lemma_calculations(s, IntOp::Rem, FloatOp::Rem, Predicate::Eq, true, a, b, dest);
        },
        Inst::Pow(a, b, dest) => {
            lemma_calculations(s, IntOp::Add, FloatOp::Add, Predicate::Eq, true, a, b, dest);
        },
        Inst::Or(a, b, dest) => {
            lemma_calculations(s, IntOp::Or, FloatOp::Add, Predicate::Eq, false, a, b, dest);
        },
        Inst::And(a, b, dest) => {
            lemma_calculations(s, IntOp::And, FloatOp::Add, Predicate::Eq, false, a, b, dest);
        },
        Inst::Eq(a, b, dest) => {
            lemma_calculations(s, IntOp::Add, FloatOp::Add, Predicate::Eq, true, a, b, dest);
        },
        Inst::Neq(a, b, dest) => {
            lemma_calculations(s, IntOp::Add, FloatOp::Add, Predicate::Neq, true, a, b, dest);
        },
        Inst::Lt(a, b, dest) => {
            lemma_calculations(s, IntOp::Add, FloatOp::Add, Predicate::Lt, true, a, b, dest);
        },
        Inst::Lte(a, b, dest) => {
            lemma_calculations(s, IntOp::Add, FloatOp::Add, Predicate::Lte, true, a, b, dest);
        },
        Inst::Gt(a, b, dest) => {
            lemma_calculations(s, IntOp::Add, FloatOp::Add, Predicate::Gt, true, a, b, dest);
        },
        Inst::Gte(a, b, dest) => {
            lemma_calculations(s, IntOp::Add, FloatOp::Add, Predicate::Gte, true, a, b, dest);
        },
        Inst::BitAnd(a, b, dest) => {
            lemma_calculations(s, IntOp::And, FloatOp::Add, Predicate::Eq, true, a, b, dest);
        },
        Inst::BitOr(a, b, dest) => {
            lemma_calculations(s, IntOp::Or, FloatOp::Add, Predicate::Eq, true, a, b, dest);
        },
        Inst::BitXor(a, b, dest) => {
            lemma_calculations(s, IntOp::Xor, FloatOp::Add, Predicate::Eq, true, a, b, dest);
        },
        Inst::Shl(a, b, dest) => {
            lemma_calculations(s, IntOp::Shl, FloatOp::Add, Predicate::Eq, true, a, b, dest);
        },
        Inst::Shr(a, b, dest) => {
            lemma_calculations(s, IntOp::Shr, FloatOp::Add, Predicate::Eq, true, a, b, dest);
        },
        Inst::Return(v) => lemma_ret(s, sig, v),
        Inst::FunctionCall(name, args, dest) => lemma_call(s, name, args, dest),
        Inst::Jump(target) => lemma_branches(s, sig.id, Value::Local(0), target, target),
        Inst::Jcond(cond, yes, no) => lemma_branches(s, sig.id, cond, yes, no),
        Inst::ElementPtr(array, index, _, t) => {
            lemma_elements(s, array, index, array, t, Label::ElementPtr);
        },
        Inst::CreateArray(t, size, dest) => {
            lemma_creations(s, Seq::empty(), Seq::empty(), t, size, dest);
        },
        Inst::StoreElement(array, index, v, t) => {
            lemma_elements(s, array, index, v, t, Label::Gep);
        },
        Inst::AccessElement(array, index, _, t) => {
            lemma_elements(s, array, index, array, t, Label::Gep);
        },
        Inst::StoreStructMember(struc, index, v, name) => {
            lemma_members(s, struc, index, v, 0, true, name);
        },
        Inst::CreateStruct(name, vs, dest) => lemma_creations(s, name, vs, Ty::Int, 0, dest),
        Inst::AccessStructMember(struc, index, dest, resolve, name) => {
            lemma_members(s, struc, index, struc, dest, resolve, name);
        },
        Inst::Cast(v, t, dest) => lemma_cast(s, v, t, dest),
        _ => {},
    }
}

/// Instructions allocate nothing, as long as the variables that they name have
/// storage.
pub proof fn lemma_instructions(s: Low, sig: Sig, is: Seq<Inst>, k: int)
    requires
        0 <= k,
        forall|j: int|
            k <= j < is.len() ==> (shape::variable(#[trigger] is[j]) matches Some(x)
                ==> assoc::defined(s.loc.variables, x)),
    ensures
        lowering::instructions(s, sig, is, k) matches Some(t) ==> same_in(s, t),
    decreases is.len() - k,
{
    reveal(lowering::instructions);
    if k < is.len() {
        lemma_instruction(s, sig, is[k]);
        if let Some(t) = lowering::instruction(s, sig, is[k]) {
            lemma_instructions(t, sig, is, k + 1);
        }
    }
}

// ---------------------------------------------------------------------------
// Functions

/// Building string constants.
proof fn lemma_constants(l: Ll, strings: Seq<Seq<char>>, k: int)
    ensures
        same(l, lowering::strings_built(l, strings, k)),
    decreases strings.len() - k,
{
    broadcast use lemma_step;

    reveal(lowering::strings_built);
    if 0 <= k < strings.len() {
        let (m, v) = lowering::built(l, Op::GlobalString(strings[k]), LlvmType::Pointer);
        lemma_constants(Ll { strings: m.strings.push(v), ..m }, strings, k + 1);
        lemma_added_twice(l.ops, m.ops, lowering::strings_built(l, strings, k).ops);
    }
}

/// Building globals.
proof fn lemma_globals(l: Ll, globals: Seq<(Seq<char>, GlobalValue)>, k: int)
    ensures
        lowering::globals_built(l, globals, k) matches Some(m) ==> same(l, m),
    decreases globals.len() - k,
{
    broadcast use lemma_step;

    reveal(lowering::globals_built);
    reveal(lowering::global);
    if 0 <= k < globals.len() {
        if let Some((m, v)) = lowering::global(l, globals[k].0, globals[k].1) {
            lemma_globals(
                Ll { globals: assoc::put(m.globals, globals[k].0, v), ..m },
                globals,
                k + 1,
            );
            if let Some(last) = lowering::globals_built(l, globals, k) {
                lemma_added_twice(l.ops, m.ops, last.ops);
            }
        }
    }
}

/// Going to a block.
proof fn lemma_entered(s: Low, function: usize, name: Seq<char>)
    ensures
        same_in(s, lowering::entered(s, function, name)),
{
    broadcast use lemma_step;

    reveal(lowering::entered);
}

/// The blocks of a function allocate nothing, as long as the variables that their
/// instructions name have storage.
proof fn lemma_blocks(
    s: Low,
    m: Mod,
    sig: Sig,
    blocks: Seq<(Seq<char>, Seq<Inst>)>,
    k: int,
    first: bool,
)
    requires
        0 <= k,
        forall|b: int, j: int|
            k <= b < blocks.len() && 0 <= j < blocks[b].1.len() ==> (shape::variable(
                #[trigger] blocks[b].1[j],
            ) matches Some(x) ==> assoc::defined(s.loc.variables, x)),
    ensures
        lowering::blocks_built(s, m, sig, blocks, k, first) matches Some((t, _)) ==> same_in(s, t),
    decreases blocks.len() - k,
{
    reveal(lowering::blocks_built);
    if k < blocks.len() {
        lemma_entered(s, sig.id, blocks[k].0);
        let e = lowering::entered(s, sig.id, blocks[k].0);
        let w = lowering::strings_built(e.l, m.strings, 0);
        lemma_constants(e.l, m.strings, 0);
        lemma_globals(w, m.global_values, 0);
        let l = if first {
            lowering::globals_built(w, m.global_values, 0)
        } else {
            Some(e.l)
        };
        if let Some(l) = l {
            let t = Low { l, ..e };
            lemma_instructions(t, sig, blocks[k].1, 0);
            if let Some(r) = lowering::instructions(t, sig, blocks[k].1, 0) {
                lemma_blocks(r, m, sig, blocks, k + 1, false);
            }
        }
    }
}

/// Allocating variables: one step for each, after which it has storage.
proof fn lemma_variables(s: Low, variables: Seq<(Seq<char>, Ty)>, k: int)
    requires
        0 <= k <= variables.len(),
        forall|j: int|
            0 <= j < k ==> assoc::defined(s.loc.variables, (#[trigger] variables[j]).0),
    ensures
        lowering::variables_built(s, variables, k) matches Some(t) ==> {
            &&& allocations(t.l.ops) == allocations(s.l.ops) + variables.len() - k
            &&& forall|j: int|
                0 <= j < variables.len() ==> assoc::defined(
                    t.loc.variables,
                    (#[trigger] variables[j]).0,
                )
        },
    decreases variables.len() - k,
{
    broadcast use lemma_step;

    reveal(lowering::variables_built);
    if k < variables.len() {
        if let Some(ty) = lowering::basic_type(s.l, variables[k].1) {
            let (l, p) = lowering::built(s.l, Op::Alloca(ty), LlvmType::Pointer);
            let after = assoc::put(s.loc.variables, variables[k].0, p);
            assert forall|j: int| 0 <= j < k + 1 implies assoc::defined(
                after,
                (#[trigger] variables[j]).0,
            ) by {
                assoc::lemma_put_get(s.loc.variables, variables[k].0, p, variables[j].0);
                reveal(assoc::get);
            }
            lemma_variables(
                Low { l, loc: Loc { variables: after, ..s.loc } },
                variables,
                k + 1,
            );
        }
    }
}

/// The instructions of a block are among those of all blocks.
proof fn lemma_in_flat(blocks: Seq<(Seq<char>, Seq<Inst>)>, b: int, j: int) -> (k: int)
    requires
        0 <= b < blocks.len(),
        0 <= j < blocks[b].1.len(),
    ensures
        0 <= k < shape::flat(blocks).len(),
        shape::flat(blocks)[k] == blocks[b].1[j],
    decreases blocks.len(),
{
    let rest = blocks.drop_last();
    if b == blocks.len() - 1 {
        shape::flat(rest).len() + j
    } else {
        assert(rest[b] == blocks[b]);
        lemma_in_flat(rest, b, j)
    }
}

/// The state of lowering the function `name` where its entry block starts and the
/// variables `variables` have got their storage.
pub open spec fn at_entry(l: Ll, name: Seq<char>, variables: Seq<(Seq<char>, Ty)>) -> Option<Low> {
    match assoc::get(l.functions, name) {
        None => None,
        Some(sig) => {
            let (s, entry) = lowering::block(
                Low { l, loc: lowering::no_locals() },
                sig.id,
                "entry"@,
            );
            lowering::variables_built(
                Low { l: lowering::step(s.l, Op::Position(entry)), ..s },
                variables,
                0,
            )
        },
    }
}

/// A function whose instructions name only variables that it declares allocates
/// storage for each of them once, where its entry block starts, and none later.
pub proof fn lemma_storage(l: Ll, m: Mod, name: Seq<char>, f: Fun, first: bool)
    requires
        shape::names_declared(shape::flat(f.blocks), f.variables),
        lowering::function(l, m, name, f, first) is Some,
    ensures
        lowering::function(l, m, name, f, first) matches Some((after, _)) && (at_entry(
            l,
            name,
            f.variables,
        ) matches Some(entry) && {
            &&& allocations(entry.l.ops) == allocations(l.ops) + f.variables.len()
            &&& allocations(after.ops) == allocations(entry.l.ops)
        }),
{
    broadcast use lemma_step;

    reveal(lowering::function);
    if let Some(sig) = assoc::get(l.functions, name) {
        let a = Low { l, loc: lowering::no_locals() };
        lemma_block(a, sig.id, "entry"@);
        let (b, entry) = lowering::block(a, sig.id, "entry"@);
        let s = Low { l: lowering::step(b.l, Op::Position(entry)), ..b };
        lemma_variables(s, f.variables, 0);
        if let Some(t) = lowering::variables_built(s, f.variables, 0) {
            assert forall|b: int, j: int|
                0 <= b < f.blocks.len() && 0 <= j < f.blocks[b].1.len() implies (shape::variable(
                #[trigger] f.blocks[b].1[j],
            ) matches Some(x) ==> assoc::defined(t.loc.variables, x)) by {
                let k = lemma_in_flat(f.blocks, b, j);
                let i = shape::flat(f.blocks)[k];
                if let Some(x) = shape::variable(i) {
                    assert(assoc::defined(f.variables, x));
                    reveal(assoc::defined);
                    let v = choose|v: int| assoc::first_at(f.variables, x, v);
                    assert(assoc::defined(t.loc.variables, f.variables[v].0));
                }
            }
            lemma_blocks(t, m, sig, f.blocks, 0, first);
        }
    }
}

} // verus!
