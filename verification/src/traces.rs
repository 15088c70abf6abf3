//! The steps that a program is lowered to fit together: every operand of a step is a
//! value that an earlier step built, of the type that the operand says, and of a kind
//! that the step takes. Steps go to blocks and call functions that earlier steps
//! added.
//!
//! Steps are known by their positions, which are numbers of the machine, so all this
//! is said of lists of steps that are no longer than these numbers reach.

use vstd::prelude::*;
use crate::assoc;
use crate::ir::{Extern, Fun, GlobalValue, Inst, Mod, StructDef, Value};
use crate::lowering;
use crate::lowering::{
    FloatOp, IntOp, Label, Linkage, Ll, LlvmType, Loc, Low, Op, Operand, Predicate, Sig, Step,
};
use crate::types::Ty;

verus! {

// ---------------------------------------------------------------------------
// Steps

/// What the function that step `f` declares returns.
pub open spec fn result_of(l: Ll, f: usize) -> Option<LlvmType> {
    match l.ops[f as int] {
        Op::DeclareFunction(_, _, r, _, _) => r,
        _ => None,
    }
}

/// The type of parameter `i` of the function that step `f` declares.
pub open spec fn param_of(l: Ll, f: usize, i: usize) -> Option<LlvmType> {
    match l.ops[f as int] {
        Op::DeclareFunction(_, ps, _, _, _) => if i < ps.len() {
            Some(ps[i as int])
        } else {
            None
        },
        _ => None,
    }
}

/// The type of the value that a step builds, if it builds one.
pub open spec fn type_of(l: Ll, op: Step) -> Option<LlvmType> {
    match op {
        Op::GlobalString(_) => Some(LlvmType::Pointer),
        Op::GlobalInt(..) => Some(LlvmType::Pointer),
        Op::GlobalFloat(..) => Some(LlvmType::Pointer),
        Op::GlobalBool(..) => Some(LlvmType::Pointer),
        Op::Param(f, i) => param_of(l, f, i),
        Op::ConstInt(n, _) => Some(LlvmType::Int(n)),
        Op::ConstFloat(_) => Some(LlvmType::Float(64)),
        Op::ConstNull => Some(LlvmType::Pointer),
        Op::ConstStruct(n) => Some(LlvmType::Struct(n)),
        Op::SizeOf(_) => Some(LlvmType::Int(64)),
        Op::Alloca(_) => Some(LlvmType::Pointer),
        Op::Load(t, _, _) => Some(t),
        Op::Gep(..) => Some(LlvmType::Pointer),
        Op::StructGep(..) => Some(LlvmType::Pointer),
        Op::InsertValue(s, _, _, _) => Some(s.ty),
        Op::ExtractValue(s, i) => match s.ty {
            LlvmType::Struct(n) => lowering::member_type(l, n, i),
            _ => None,
        },
        Op::Int(_, a, _) => Some(a.ty),
        Op::Float(_, a, _) => Some(a.ty),
        Op::IntCompare(..) => Some(LlvmType::Int(1)),
        Op::FloatCompare(..) => Some(LlvmType::Int(1)),
        Op::Not(v) => Some(v.ty),
        Op::ZeroExtend(_, n, _) => Some(LlvmType::Int(n)),
        Op::SignExtend(_, n, _) => Some(LlvmType::Int(n)),
        Op::Truncate(_, n) => Some(LlvmType::Int(n)),
        Op::FloatExtend(_) => Some(LlvmType::Float(64)),
        Op::IntToFloat(_, n) => Some(LlvmType::Float(n)),
        Op::FloatToInt(_, n) => Some(LlvmType::Int(n)),
        Op::IntToPointer(_) => Some(LlvmType::Pointer),
        Op::PointerToInt(_, n) => Some(LlvmType::Int(n)),
        Op::ArrayMalloc(..) => Some(LlvmType::Pointer),
        Op::Call(f, _, _) => result_of(l, f),
        _ => None,
    }
}

/// The values that a step takes.
pub open spec fn operands_of(op: Step) -> Seq<Operand> {
    match op {
        Op::Load(_, p, _) => seq![p],
        Op::Store(p, v) => seq![p, v],
        Op::Gep(_, p, i, _) => seq![p, i],
        Op::StructGep(_, p, _) => seq![p],
        Op::InsertValue(s, v, _, _) => seq![s, v],
        Op::ExtractValue(s, _) => seq![s],
        Op::Int(_, a, b) => seq![a, b],
        Op::Float(_, a, b) => seq![a, b],
        Op::IntCompare(_, a, b) => seq![a, b],
        Op::FloatCompare(_, a, b) => seq![a, b],
        Op::Not(v) => seq![v],
        Op::ZeroExtend(v, _, _) => seq![v],
        Op::SignExtend(v, _, _) => seq![v],
        Op::Truncate(v, _) => seq![v],
        Op::FloatExtend(v) => seq![v],
        Op::IntToFloat(v, _) => seq![v],
        Op::FloatToInt(v, _) => seq![v],
        Op::IntToPointer(v) => seq![v],
        Op::PointerToInt(v, _) => seq![v],
        Op::ArrayMalloc(_, n) => seq![n],
        Op::Call(_, vs, _) => vs,
        Op::CondBranch(c, _, _) => seq![c],
        Op::Return(Some(v)) => seq![v],
        _ => Seq::empty(),
    }
}

/// The function that a step belongs to or calls.
pub open spec fn function_of(op: Step) -> Option<usize> {
    match op {
        Op::Param(f, _) => Some(f),
        Op::AppendBlock(f, _) => Some(f),
        Op::Call(f, _, _) => Some(f),
        _ => None,
    }
}

/// The blocks that a step goes to.
pub open spec fn blocks_of(op: Step) -> Seq<usize> {
    match op {
        Op::Position(b) => seq![b],
        Op::Branch(b) => seq![b],
        Op::CondBranch(_, a, b) => seq![a, b],
        _ => Seq::empty(),
    }
}

/// Whether the values that a step takes are of the kinds that it needs: pointers to
/// load from and store to, integers of one width to calculate with and to compare,
/// integers that are narrower or wider to extend or truncate.
pub open spec fn kinds(op: Step) -> bool {
    match op {
        Op::Load(_, p, _) => p.ty is Pointer,
        Op::Store(p, _) => p.ty is Pointer,
        Op::Gep(_, p, i, _) => p.ty is Pointer && i.ty is Int,
        Op::StructGep(_, p, _) => p.ty is Pointer,
        Op::InsertValue(s, _, _, _) => s.ty is Struct,
        Op::ExtractValue(s, _) => s.ty is Struct,
        Op::Int(o, a, b) => a.ty is Int && b.ty is Int && (o is And || o is Or || a.ty == b.ty),
        Op::Float(_, a, b) => a.ty is Float && b.ty is Float,
        Op::IntCompare(_, a, b) => a.ty is Int && a.ty == b.ty,
        Op::FloatCompare(_, a, b) => a.ty is Float && b.ty is Float,
        Op::Not(v) => v.ty is Int,
        Op::ZeroExtend(v, n, _) => v.ty matches LlvmType::Int(m) && m < n,
        Op::SignExtend(v, n, _) => v.ty matches LlvmType::Int(m) && m < n,
        Op::Truncate(v, n) => v.ty matches LlvmType::Int(m) && m > n,
        Op::FloatExtend(v) => v.ty matches LlvmType::Float(m) && m != 64,
        Op::IntToFloat(v, _) => v.ty is Int,
        Op::FloatToInt(v, _) => v.ty is Float,
        Op::IntToPointer(v) => v.ty is Int,
        Op::PointerToInt(v, _) => v.ty is Pointer,
        Op::ArrayMalloc(_, n) => n.ty is Int,
        Op::CondBranch(c, _, _) => c.ty is Int,
        _ => true,
    }
}

/// Whether a value is built by a step before position `k`, with the type that it says.
pub open spec fn built_before(l: Ll, v: Operand, k: int) -> bool {
    v.id < k && type_of(l, l.ops[v.id as int]) == Some(v.ty)
}

/// Whether a function is declared by a step before position `k`.
pub open spec fn declared_before(l: Ll, f: usize, k: int) -> bool {
    f < k && l.ops[f as int] is DeclareFunction
}

/// Whether a block is added by a step before position `k`.
pub open spec fn added_before(l: Ll, b: usize, k: int) -> bool {
    b < k && l.ops[b as int] is AppendBlock
}

/// Whether a step at position `k` fits to the steps before it.
pub open spec fn fits(l: Ll, op: Step, k: int) -> bool {
    &&& forall|j: int|
        0 <= j < operands_of(op).len() ==> built_before(l, #[trigger] operands_of(op)[j], k)
    &&& function_of(op) matches Some(f) ==> declared_before(l, f, k)
    &&& forall|j: int|
        0 <= j < blocks_of(op).len() ==> added_before(l, #[trigger] blocks_of(op)[j], k)
    &&& kinds(op)
}

/// Whether all steps fit together.
pub open spec fn fit_together(l: Ll) -> bool {
    forall|k: int| 0 <= k < l.ops.len() ==> fits(l, #[trigger] l.ops[k], k)
}

// ---------------------------------------------------------------------------
// States

/// Whether positions of steps can be counted.
pub open spec fn countable(l: Ll) -> bool {
    l.ops.len() <= usize::MAX
}

/// Whether a value is built.
pub open spec fn is_built(l: Ll, v: Operand) -> bool {
    countable(l) ==> built_before(l, v, l.ops.len() as int)
}

/// Whether a function is declared as it is said.
pub open spec fn is_declared(l: Ll, sig: Sig) -> bool {
    countable(l) ==> sig.id < l.ops.len() && (l.ops[sig.id as int] matches Op::DeclareFunction(
        _,
        ps,
        r,
        _,
        _,
    ) && ps == sig.params && r == sig.result)
}

/// Whether a block is added.
pub open spec fn is_added(l: Ll, b: usize) -> bool {
    countable(l) ==> added_before(l, b, l.ops.len() as int)
}

/// Whether the steps of a module fit together, and what it names is there.
#[verifier::opaque]
pub open spec fn sound(l: Ll) -> bool {
    &&& countable(l) ==> fit_together(l)
    &&& forall|k: int|
        0 <= k < l.strings.len() ==> is_built(l, #[trigger] l.strings[k]) && l.strings[k].ty is Pointer
    &&& forall|k: int|
        0 <= k < l.globals.len() ==> is_built(l, (#[trigger] l.globals[k]).1)
            && l.globals[k].1.ty is Pointer
    &&& forall|k: int|
        0 <= k < l.functions.len() ==> is_declared(l, (#[trigger] l.functions[k]).1)
}

/// Whether what a function that is being lowered names is there.
#[verifier::opaque]
pub open spec fn sound_in(loc: Loc, l: Ll) -> bool {
    &&& forall|d: usize| #[trigger]
        loc.registers.dom().contains(d) ==> is_built(l, loc.registers[d])
    &&& forall|k: int|
        0 <= k < loc.variables.len() ==> is_built(l, (#[trigger] loc.variables[k]).1)
            && loc.variables[k].1.ty is Pointer
    &&& forall|k: int| 0 <= k < loc.blocks.len() ==> is_added(l, (#[trigger] loc.blocks[k]).1)
}

/// Whether `b` has the steps of `a` and more, and the same structs.
#[verifier::opaque]
pub open spec fn grown(a: Ll, b: Ll) -> bool {
    &&& a.ops.len() <= b.ops.len()
    &&& forall|k: int| 0 <= k < a.ops.len() ==> b.ops[k] == #[trigger] a.ops[k]
    &&& a.layouts == b.layouts
}

/// Whether lowering leads from a module to another.
pub open spec fn leads(a: Ll, b: Ll) -> bool {
    sound(b) && grown(a, b)
}

/// Whether lowering leads from a function to another.
pub open spec fn leads_in(a: Low, b: Low) -> bool {
    leads(a.l, b.l) && sound_in(b.loc, b.l)
}

/// Whether a step can be added.
pub open spec fn addable(l: Ll, op: Step) -> bool {
    countable(l) ==> fits(l, op, l.ops.len() as int)
}

// ---------------------------------------------------------------------------
// What stays

/// Growth from a module to itself.
proof fn lemma_start(l: Ll)
    ensures
        grown(l, l),
{
    reveal(grown);
}

/// Growth in two parts.
proof fn lemma_then(a: Ll, b: Ll, c: Ll)
    requires
        grown(a, b),
        grown(b, c),
    ensures
        grown(a, c),
{
    reveal(grown);
    assert forall|k: int| 0 <= k < a.ops.len() implies c.ops[k] == #[trigger] a.ops[k] by {
        assert(b.ops[k] == a.ops[k]);
    }
}

/// The type of a value stays.
proof fn lemma_type_stays(a: Ll, b: Ll, id: int)
    requires
        fit_together(a),
        grown(a, b),
        0 <= id < a.ops.len(),
    ensures
        type_of(a, a.ops[id]) == type_of(b, b.ops[id]),
{
    reveal(grown);
    reveal(lowering::member_type);
    assert(b.ops[id] == a.ops[id]);
    assert(fits(a, a.ops[id], id));
    if let Some(f) = function_of(a.ops[id]) {
        assert(b.ops[f as int] == a.ops[f as int]);
    }
}

/// A value that is built stays built.
proof fn lemma_built_stays(a: Ll, b: Ll, v: Operand)
    requires
        sound(a),
        grown(a, b),
        is_built(a, v),
    ensures
        is_built(b, v),
{
    if countable(b) {
        assert(countable(a)) by {
            reveal(grown);
        }
        assert(fit_together(a)) by {
            reveal(sound);
        }
        lemma_type_stays(a, b, v.id as int);
        reveal(grown);
    }
}

/// Values that are built stay built.
proof fn lemma_all_stay(a: Ll, b: Ll, vs: Seq<Operand>)
    requires
        sound(a),
        grown(a, b),
        forall|k: int| 0 <= k < vs.len() ==> is_built(a, #[trigger] vs[k]),
    ensures
        forall|k: int| 0 <= k < vs.len() ==> is_built(b, #[trigger] vs[k]),
{
    assert forall|k: int| 0 <= k < vs.len() implies is_built(b, #[trigger] vs[k]) by {
        lemma_built_stays(a, b, vs[k]);
    }
}

/// A function that is declared stays declared.
proof fn lemma_declared_stays(a: Ll, b: Ll, sig: Sig)
    requires
        grown(a, b),
        is_declared(a, sig),
    ensures
        is_declared(b, sig),
{
    reveal(grown);
    if countable(b) {
        assert(b.ops[sig.id as int] == a.ops[sig.id as int]);
    }
}

/// A block that is added stays added.
proof fn lemma_added_stays(a: Ll, b: Ll, x: usize)
    requires
        grown(a, b),
        is_added(a, x),
    ensures
        is_added(b, x),
{
    reveal(grown);
    if countable(b) {
        assert(b.ops[x as int] == a.ops[x as int]);
    }
}

/// What a function names stays.
proof fn lemma_locals_stay(a: Ll, b: Ll, loc: Loc)
    requires
        sound(a),
        grown(a, b),
        sound_in(loc, a),
    ensures
        sound_in(loc, b),
{
    reveal(sound_in);
    assert forall|d: usize| #[trigger] loc.registers.dom().contains(d) implies is_built(
        b,
        loc.registers[d],
    ) by {
        lemma_built_stays(a, b, loc.registers[d]);
    }
    assert forall|k: int| 0 <= k < loc.variables.len() implies is_built(
        b,
        (#[trigger] loc.variables[k]).1,
    ) && loc.variables[k].1.ty is Pointer by {
        lemma_built_stays(a, b, loc.variables[k].1);
    }
    assert forall|k: int| 0 <= k < loc.blocks.len() implies is_added(
        b,
        (#[trigger] loc.blocks[k]).1,
    ) by {
        lemma_added_stays(a, b, loc.blocks[k].1);
    }
}

/// Adding a step that fits.
proof fn lemma_step(l: Ll, op: Step)
    requires
        sound(l),
        addable(l, op),
    ensures
        leads(l, lowering::step(l, op)),
{
    let b = lowering::step(l, op);
    assert(grown(l, b)) by {
        reveal(grown);
    }
    assert(sound(b)) by {
        assert(countable(b) ==> fit_together(b)) by {
            if countable(b) {
                reveal(sound);
                assert forall|k: int| 0 <= k < b.ops.len() implies fits(
                    b,
                    #[trigger] b.ops[k],
                    k,
                ) by {
                    let o = b.ops[k];
                    assert(fits(l, o, k)) by {
                        if k < l.ops.len() {
                            assert(o == l.ops[k]);
                        }
                    }
                    assert forall|j: int| 0 <= j < operands_of(o).len() implies built_before(
                        b,
                        #[trigger] operands_of(o)[j],
                        k,
                    ) by {
                        assert(built_before(l, operands_of(o)[j], k));
                        lemma_type_stays(l, b, operands_of(o)[j].id as int);
                    }
                    assert forall|j: int| 0 <= j < blocks_of(o).len() implies added_before(
                        b,
                        #[trigger] blocks_of(o)[j],
                        k,
                    ) by {
                        assert(added_before(l, blocks_of(o)[j], k));
                    }
                }
            }
        }
        lemma_named_stay(l, b);
    }
}

/// What a module names stays when only steps are added.
proof fn lemma_named_stay(l: Ll, b: Ll)
    requires
        sound(l),
        grown(l, b),
        countable(b) ==> fit_together(b),
        b.strings == l.strings,
        b.globals == l.globals,
        b.functions == l.functions,
    ensures
        sound(b),
{
    assert forall|k: int| 0 <= k < b.strings.len() implies is_built(b, #[trigger] b.strings[k])
        && b.strings[k].ty is Pointer by {
        reveal(sound);
        assert(is_built(l, l.strings[k]));
        lemma_built_stays(l, b, l.strings[k]);
    }
    assert forall|k: int| 0 <= k < b.globals.len() implies is_built(
        b,
        (#[trigger] b.globals[k]).1,
    ) && b.globals[k].1.ty is Pointer by {
        reveal(sound);
        assert(is_built(l, l.globals[k].1));
        lemma_built_stays(l, b, l.globals[k].1);
    }
    assert forall|k: int| 0 <= k < b.functions.len() implies is_declared(
        b,
        (#[trigger] b.functions[k]).1,
    ) by {
        reveal(sound);
        assert(is_declared(l, l.functions[k].1));
        lemma_declared_stays(l, b, l.functions[k].1);
    }
    reveal(sound);
}

/// Adding a step that builds a value.
proof fn lemma_built(l: Ll, op: Step, ty: LlvmType)
    requires
        sound(l),
        addable(l, op),
        countable(l) ==> type_of(l, op) == Some(ty),
    ensures
        leads(l, lowering::built(l, op, ty).0),
        is_built(lowering::built(l, op, ty).0, lowering::built(l, op, ty).1),
{
    lemma_step(l, op);
    let (b, v) = lowering::built(l, op, ty);
    if countable(b) {
        assert(v.id == l.ops.len());
        assert(b.ops[v.id as int] == op);
        reveal(lowering::member_type);
        if let Some(f) = function_of(op) {
            assert(b.ops[f as int] == l.ops[f as int]);
        }
    }
}

// ---------------------------------------------------------------------------
// Functions that are being lowered

/// Steps added to the module of a function.
proof fn lemma_moved(a: Low, s: Low, l: Ll)
    requires
        leads_in(a, s),
        leads(s.l, l),
    ensures
        leads_in(a, Low { l, ..s }),
{
    lemma_then(a.l, s.l, l);
    lemma_locals_stay(s.l, l, s.loc);
}

/// Adding a step while a function is lowered.
proof fn lemma_added(a: Low, s: Low, op: Step)
    requires
        leads_in(a, s),
        addable(s.l, op),
    ensures
        leads_in(a, Low { l: lowering::step(s.l, op), ..s }),
        grown(s.l, lowering::step(s.l, op)),
{
    lemma_step(s.l, op);
    lemma_moved(a, s, lowering::step(s.l, op));
}

/// Putting a value into a register.
proof fn lemma_assigned(a: Low, s: Low, dest: usize, v: Operand)
    requires
        leads_in(a, s),
        is_built(s.l, v),
    ensures
        leads_in(a, lowering::assigned(s, dest, v)),
{
    reveal(sound_in);
    let b = lowering::assigned(s, dest, v);
    assert forall|d: usize| #[trigger] b.loc.registers.dom().contains(d) implies is_built(
        b.l,
        b.loc.registers[d],
    ) by {
        if d != dest {
            assert(s.loc.registers.dom().contains(d));
        }
    }
}

/// Building a value and putting it into a register.
proof fn lemma_build(a: Low, s: Low, op: Step, ty: LlvmType, dest: usize)
    requires
        leads_in(a, s),
        addable(s.l, op),
        countable(s.l) ==> type_of(s.l, op) == Some(ty),
    ensures
        leads_in(a, lowering::build(s, op, ty, dest)),
{
    lemma_built(s.l, op, ty);
    let (l, v) = lowering::built(s.l, op, ty);
    lemma_moved(a, s, l);
    lemma_assigned(a, Low { l, ..s }, dest, v);
}

/// What an entry of a list holds.
proof fn lemma_entry<V>(entries: Seq<(Seq<char>, V)>, name: Seq<char>) -> (k: int)
    requires
        assoc::get(entries, name) is Some,
    ensures
        0 <= k < entries.len(),
        assoc::get(entries, name) == Some(entries[k].1),
{
    reveal(assoc::get);
    reveal(assoc::defined);
    reveal(assoc::position);
    assoc::position(entries, name)
}

/// What the entries of a list hold after one is put there.
proof fn lemma_put<V>(entries: Seq<(Seq<char>, V)>, name: Seq<char>, v: V)
    ensures
        forall|k: int|
            0 <= k < assoc::put(entries, name, v).len() ==> (#[trigger] assoc::put(
                entries,
                name,
                v,
            )[k]).1 == v || (k < entries.len() && assoc::put(entries, name, v)[k] == entries[k]),
{
    reveal(assoc::put);
    reveal(assoc::defined);
    reveal(assoc::position);
}

/// The value of a register is built.
proof fn lemma_local(s: Low, v: Value)
    requires
        sound_in(s.loc, s.l),
    ensures
        lowering::local(s.loc, v) matches Some(x) ==> is_built(s.l, x),
        lowering::local_pointer(s.loc, v) matches Some(x) ==> is_built(s.l, x) && x.ty is Pointer,
        lowering::local_int(s.loc, v) matches Some(x) ==> is_built(s.l, x) && x.ty is Int,
{
    reveal(sound_in);
    reveal(lowering::local);
    reveal(lowering::local_pointer);
    reveal(lowering::local_int);
}

/// A string constant is built.
proof fn lemma_string(l: Ll, n: usize)
    requires
        sound(l),
    ensures
        lowering::string(l, n) matches Some(x) ==> is_built(l, x) && x.ty is Pointer,
{
    reveal(sound);
    reveal(lowering::string);
}

/// A function that is found is declared.
proof fn lemma_function(l: Ll, name: Seq<char>)
    requires
        sound(l),
    ensures
        assoc::get(l.functions, name) matches Some(sig) ==> is_declared(l, sig),
{
    reveal(sound);
    if assoc::get(l.functions, name) is Some {
        let k = lemma_entry(l.functions, name);
        assert(is_declared(l, l.functions[k].1));
    }
}

/// The storage of a variable that is found is built.
proof fn lemma_stored(s: Low, name: Seq<char>)
    requires
        sound_in(s.loc, s.l),
    ensures
        assoc::get(s.loc.variables, name) matches Some(p) ==> is_built(s.l, p) && p.ty is Pointer,
{
    reveal(sound_in);
    if assoc::get(s.loc.variables, name) is Some {
        let k = lemma_entry(s.loc.variables, name);
        assert(is_built(s.l, s.loc.variables[k].1));
    }
}

/// Bringing an integer to a width builds it with that width.
pub proof fn lemma_coerced(l: Ll, v: Operand, target: LlvmType)
    requires
        sound(l),
        is_built(l, v),
    ensures
        leads(l, lowering::coerced(l, v, target).0),
        is_built(lowering::coerced(l, v, target).0, lowering::coerced(l, v, target).1),
        v.ty is Int && target is Int ==> lowering::coerced(l, v, target).1.ty == target,
        !(v.ty is Int && target is Int) ==> lowering::coerced(l, v, target) == (l, v),
{
    reveal(lowering::coerced);
    lemma_start(l);
    if let LlvmType::Int(src) = v.ty {
        if let LlvmType::Int(dst) = target {
            if dst > src && src == 1 {
                lemma_built(l, Op::ZeroExtend(v, dst, Label::Extend), target);
            } else if dst > src {
                lemma_built(l, Op::SignExtend(v, dst, Label::Extend), target);
            } else if dst < src {
                lemma_built(l, Op::Truncate(v, dst), target);
            }
        }
    }
}

/// Bringing two integers to one width builds them with the wider of their widths.
/// Other values stay as they are.
pub proof fn lemma_harmonized(l: Ll, a: Operand, b: Operand)
    requires
        sound(l),
        is_built(l, a),
        is_built(l, b),
    ensures
        ({
            let (m, x, y) = lowering::harmonized(l, a, b);
            &&& leads(l, m)
            &&& is_built(m, x)
            &&& is_built(m, y)
            &&& a.ty matches LlvmType::Int(i) ==> b.ty matches LlvmType::Int(j) ==> x.ty == y.ty
                && x.ty == LlvmType::Int(
                if i < j {
                    j
                } else {
                    i
                },
            )
            &&& !(a.ty is Int && b.ty is Int) ==> m == l && x == a && y == b
        }),
{
    reveal(lowering::harmonized);
    lemma_start(l);
    if let LlvmType::Int(i) = a.ty {
        if let LlvmType::Int(j) = b.ty {
            if i < j {
                let op = Op::SignExtend(a, j, Label::Extend);
                lemma_built(l, op, b.ty);
                lemma_built_stays(l, lowering::built(l, op, b.ty).0, b);
            } else if j < i {
                let op = Op::SignExtend(b, i, Label::Extend);
                lemma_built(l, op, a.ty);
                lemma_built_stays(l, lowering::built(l, op, a.ty).0, a);
            }
        }
    }
}

/// An operand is built.
proof fn lemma_operand(a: Low, s: Low, v: Value)
    requires
        leads_in(a, s),
    ensures
        lowering::operand(s, v) matches Some((t, x)) ==> {
            &&& leads_in(a, t)
            &&& leads_in(s, t)
            &&& is_built(t.l, x)
            &&& t.loc == s.loc
        },
{
    reveal(lowering::operand);
    lemma_start(s.l);
    lemma_local(s, v);
    match v {
        Value::Local(_) => {},
        Value::LiteralInteger(n) => {
            let op = Op::ConstInt(64, n as u64);
            lemma_built(s.l, op, LlvmType::Int(64));
            let l = lowering::built(s.l, op, LlvmType::Int(64)).0;
            lemma_moved(a, s, l);
            lemma_moved(s, s, l);
        },
        Value::LiteralBoolean(b) => {
            let op = Op::ConstInt(
                1,
                if b {
                    1
                } else {
                    0
                },
            );
            lemma_built(s.l, op, LlvmType::Int(1));
            let l = lowering::built(s.l, op, LlvmType::Int(1)).0;
            lemma_moved(a, s, l);
            lemma_moved(s, s, l);
        },
        Value::Global(n) => {
            lemma_string(s.l, n);
        },
    }
}

/// Operands are built.
proof fn lemma_operands(a: Low, s: Low, vs: Seq<Value>, k: int, values: Seq<Operand>)
    requires
        leads_in(a, s),
        forall|j: int| 0 <= j < values.len() ==> is_built(s.l, #[trigger] values[j]),
    ensures
        lowering::operands(s, vs, k, values) matches Some((t, xs)) ==> {
            &&& leads_in(a, t)
            &&& forall|j: int| 0 <= j < xs.len() ==> is_built(t.l, #[trigger] xs[j])
        },
    decreases vs.len() - k,
{
    reveal(lowering::operands);
    if 0 <= k < vs.len() {
        lemma_operand(a, s, vs[k]);
        if let Some((t, x)) = lowering::operand(s, vs[k]) {
            lemma_all_stay(s.l, t.l, values);
            lemma_operands(a, t, vs, k + 1, values.push(x));
        }
    }
}

/// The storage of a variable is built.
proof fn lemma_variable(a: Low, s: Low, name: Seq<char>, ty: LlvmType)
    requires
        leads_in(a, s),
    ensures
        ({
            let (t, p) = lowering::variable(s, name, ty);
            &&& leads_in(a, t)
            &&& grown(s.l, t.l)
            &&& is_built(t.l, p)
            &&& p.ty is Pointer
        }),
{
    reveal(lowering::variable);
    lemma_start(s.l);
    lemma_stored(s, name);
    if assoc::get(s.loc.variables, name) is None {
        lemma_built(s.l, Op::Alloca(ty), LlvmType::Pointer);
        let (l, p) = lowering::built(s.l, Op::Alloca(ty), LlvmType::Pointer);
        lemma_moved(a, s, l);
        lemma_locals_put(a, Low { l, ..s }, name, p);
    }
}

/// Declaring a variable.
proof fn lemma_locals_put(a: Low, s: Low, name: Seq<char>, p: Operand)
    requires
        leads_in(a, s),
        is_built(s.l, p),
        p.ty is Pointer,
    ensures
        leads_in(
            a,
            Low {
                loc: Loc { variables: assoc::put(s.loc.variables, name, p), ..s.loc },
                ..s
            },
        ),
{
    reveal(sound_in);
    lemma_put(s.loc.variables, name, p);
    let after = assoc::put(s.loc.variables, name, p);
    assert forall|k: int| 0 <= k < after.len() implies is_built(s.l, (#[trigger] after[k]).1)
        && after[k].1.ty is Pointer by {
        if after[k].1 != p {
            assert(after[k] == s.loc.variables[k]);
        }
    }
}

/// A block of a function is added.
proof fn lemma_block(a: Low, s: Low, sig: Sig, name: Seq<char>)
    requires
        leads_in(a, s),
        is_declared(s.l, sig),
    ensures
        ({
            let (t, b) = lowering::block(s, sig.id, name);
            &&& leads_in(a, t)
            &&& grown(s.l, t.l)
            &&& is_added(t.l, b)
            &&& t.loc.registers == s.loc.registers
        }),
{
    reveal(lowering::block);
    lemma_start(s.l);
    match assoc::get(s.loc.blocks, name) {
        Some(b) => {
            reveal(sound_in);
            let k = lemma_entry(s.loc.blocks, name);
            assert(is_added(s.l, s.loc.blocks[k].1));
        },
        None => {
            let op = Op::AppendBlock(sig.id, name);
            lemma_added(a, s, op);
            let t = Low { l: lowering::step(s.l, op), ..s };
            let b = s.l.ops.len() as usize;
            assert(is_added(t.l, b));
            reveal(sound_in);
            lemma_put(s.loc.blocks, name, b);
            let after = assoc::put(s.loc.blocks, name, b);
            assert forall|k: int| 0 <= k < after.len() implies is_added(
                t.l,
                (#[trigger] after[k]).1,
            ) by {
                if after[k].1 != b {
                    assert(after[k] == s.loc.blocks[k]);
                }
            }
        },
    }
}

// ---------------------------------------------------------------------------
// Instructions

/// Arithmetic.
proof fn lemma_arithmetic(s: Low, i: IntOp, f: FloatOp, a: Value, b: Value, dest: usize)
    requires
        leads_in(s, s),
    ensures
        lowering::arithmetic(s, i, f, a, b, dest) matches Some(t) ==> leads_in(s, t),
{
    reveal(lowering::arithmetic);
    lemma_local(s, a);
    lemma_local(s, b);
    if let Some(x) = lowering::local(s.loc, a) {
        if let Some(y) = lowering::local(s.loc, b) {
            lemma_harmonized(s.l, x, y);
            let (l, x, y) = lowering::harmonized(s.l, x, y);
            let t = Low { l, ..s };
            lemma_moved(s, s, l);
            if x.ty is Float && y.ty is Float {
                lemma_build(s, t, Op::Float(f, x, y), x.ty, dest);
            }
            if x.ty is Int && y.ty is Int {
                lemma_build(s, t, Op::Int(i, x, y), x.ty, dest);
            }
        }
    }
}

/// A comparison.
proof fn lemma_comparison(s: Low, p: Predicate, a: Value, b: Value, dest: usize)
    requires
        leads_in(s, s),
    ensures
        lowering::comparison(s, p, a, b, dest) matches Some(t) ==> leads_in(s, t),
{
    reveal(lowering::comparison);
    lemma_local(s, a);
    lemma_local(s, b);
    if let Some(x) = lowering::local(s.loc, a) {
        if let Some(y) = lowering::local(s.loc, b) {
            lemma_harmonized(s.l, x, y);
            let (l, x, y) = lowering::harmonized(s.l, x, y);
            let t = Low { l, ..s };
            lemma_moved(s, s, l);
            if x.ty is Float && y.ty is Float {
                lemma_build(s, t, Op::FloatCompare(p, x, y), LlvmType::Int(1), dest);
            }
            if x.ty is Int && y.ty is Int {
                lemma_build(s, t, Op::IntCompare(p, x, y), LlvmType::Int(1), dest);
            }
            if x.ty is Pointer && y.ty is Pointer {
                let first = Op::PointerToInt(x, 64);
                lemma_built(l, first, LlvmType::Int(64));
                let (l1, x1) = lowering::built(l, first, LlvmType::Int(64));
                lemma_moved(s, t, l1);
                lemma_built_stays(l, l1, y);
                let second = Op::PointerToInt(y, 64);
                lemma_built(l1, second, LlvmType::Int(64));
                let (l2, y1) = lowering::built(l1, second, LlvmType::Int(64));
                lemma_moved(s, Low { l: l1, ..s }, l2);
                lemma_built_stays(l1, l2, x1);
                lemma_build(
                    s,
                    Low { l: l2, ..s },
                    Op::IntCompare(p, x1, y1),
                    LlvmType::Int(1),
                    dest,
                );
            }
        }
    }
}

/// An operation on bits.
proof fn lemma_bitwise(s: Low, op: IntOp, harmonize: bool, a: Value, b: Value, dest: usize)
    requires
        leads_in(s, s),
        harmonize || op is And || op is Or,
    ensures
        lowering::bitwise(s, op, harmonize, a, b, dest) matches Some(t) ==> leads_in(s, t),
{
    reveal(lowering::bitwise);
    lemma_local(s, a);
    lemma_local(s, b);
    if let Some(x) = lowering::local(s.loc, a) {
        if let Some(y) = lowering::local(s.loc, b) {
            lemma_start(s.l);
            lemma_harmonized(s.l, x, y);
            let (l, x, y) = if harmonize {
                lowering::harmonized(s.l, x, y)
            } else {
                (s.l, x, y)
            };
            lemma_moved(s, s, l);
            if x.ty is Int && y.ty is Int {
                lemma_build(s, Low { l, ..s }, Op::Int(op, x, y), x.ty, dest);
            }
        }
    }
}

/// A power.
proof fn lemma_power(s: Low, a: Value, b: Value, dest: usize)
    requires
        leads_in(s, s),
    ensures
        lowering::power(s, a, b, dest) matches Some(t) ==> leads_in(s, t),
{
    reveal(lowering::power);
    lemma_local(s, a);
    lemma_local(s, b);
    if let Some(x) = lowering::local(s.loc, a) {
        if let Some(y) = lowering::local(s.loc, b) {
            lemma_harmonized(s.l, x, y);
            let (l, x, y) = lowering::harmonized(s.l, x, y);
            lemma_moved(s, s, l);
            lemma_function(l, "pow"@);
            if let Some(sig) = assoc::get(l.functions, "pow"@) {
                if let Some(t) = sig.result {
                    lemma_build(
                        s,
                        Low { l, ..s },
                        Op::Call(sig.id, seq![x, y], Label::Power),
                        t,
                        dest,
                    );
                }
            }
        }
    }
}

/// Reading a variable, a global or an argument.
proof fn lemma_loads(s: Low, name: Seq<char>, dest: usize, t: Ty)
    requires
        leads_in(s, s),
    ensures
        lowering::load(s, name, dest, t) matches Some(r) ==> leads_in(s, r),
        lowering::load_global(s, name, dest, t) matches Some(r) ==> leads_in(s, r),
{
    reveal(lowering::load);
    reveal(lowering::load_global);
    lemma_stored(s, name);
    if let Some(ty) = lowering::basic_type(s.l, t) {
        if let Some(p) = assoc::get(s.loc.variables, name) {
            lemma_build(s, s, Op::Load(ty, p, Label::Load), ty, dest);
        }
        if let Some(p) = assoc::get(s.l.globals, name) {
            reveal(sound);
            let k = lemma_entry(s.l.globals, name);
            assert(is_built(s.l, s.l.globals[k].1));
            lemma_build(s, s, Op::Load(ty, p, Label::Load), ty, dest);
        }
    }
}

/// Reading an argument.
proof fn lemma_load_arg(s: Low, sig: Sig, arg: usize, dest: usize)
    requires
        leads_in(s, s),
        is_declared(s.l, sig),
    ensures
        lowering::load_arg(s, sig, arg, dest) matches Some(r) ==> leads_in(s, r),
{
    reveal(lowering::load_arg);
    if arg < sig.params.len() {
        lemma_build(s, s, Op::Param(sig.id, arg), sig.params[arg as int], dest);
    }
}

/// Writing a variable.
proof fn lemma_store(s: Low, name: Seq<char>, v: Value, t: Ty)
    requires
        leads_in(s, s),
    ensures
        lowering::store(s, name, v, t) matches Some(r) ==> leads_in(s, r),
{
    reveal(lowering::store);
    if let Value::Global(n) = v {
        reveal(lowering::store_string);
        lemma_string(s.l, n);
        lemma_stored(s, name);
        if let Some(value) = lowering::string(s.l, n) {
            if let Some(p) = assoc::get(s.loc.variables, name) {
                lemma_added(s, s, Op::Store(p, value));
            } else if let Some(ty) = lowering::basic_type(s.l, t) {
                lemma_variable(s, s, name, ty);
                let (r, p) = lowering::variable(s, name, ty);
                lemma_built_stays(s.l, r.l, value);
                lemma_added(s, r, Op::Store(p, value));
            }
        }
    } else {
        lemma_operand(s, s, v);
        if let Some((r, value)) = lowering::operand(s, v) {
            if let Some(ty) = lowering::basic_type(r.l, t) {
                lemma_coerced(r.l, value, ty);
                let (l, value) = lowering::coerced(r.l, value, ty);
                lemma_moved(s, r, l);
                let q = Low { l, ..r };
                lemma_variable(s, q, name, ty);
                let (w, p) = lowering::variable(q, name, ty);
                lemma_built_stays(l, w.l, value);
                lemma_added(s, w, Op::Store(p, value));
            }
        }
    }
}

/// The end of a function.
proof fn lemma_ret(s: Low, sig: Sig, v: Option<Value>)
    requires
        leads_in(s, s),
    ensures
        lowering::ret(s, sig, v) matches Some(r) ==> leads_in(s, r),
{
    reveal(lowering::ret);
    match v {
        None => {
            if let Some(LlvmType::Int(n)) = sig.result {
                lemma_built(s.l, Op::ConstInt(n, 0), LlvmType::Int(n));
                let (l, zero) = lowering::built(s.l, Op::ConstInt(n, 0), LlvmType::Int(n));
                lemma_moved(s, s, l);
                lemma_added(s, Low { l, ..s }, Op::Return(Some(zero)));
            } else {
                lemma_added(s, s, Op::Return(None));
            }
        },
        Some(Value::Local(n)) => {
            lemma_local(s, Value::Local(n));
            if let Some(value) = lowering::local(s.loc, Value::Local(n)) {
                if let Some(t) = sig.result {
                    lemma_coerced(s.l, value, t);
                    let (l, value) = lowering::coerced(s.l, value, t);
                    lemma_moved(s, s, l);
                    lemma_added(s, Low { l, ..s }, Op::Return(Some(value)));
                } else {
                    lemma_added(s, s, Op::Return(Some(value)));
                }
            }
        },
        Some(Value::Global(n)) => {
            lemma_string(s.l, n);
            if let Some(value) = lowering::string(s.l, n) {
                lemma_added(s, s, Op::Return(Some(value)));
            }
        },
        _ => {},
    }
}

/// Bringing arguments to what a callee expects.
proof fn lemma_arguments(
    l: Ll,
    vs: Seq<Operand>,
    params: Seq<LlvmType>,
    k: int,
    done: Seq<Operand>,
)
    requires
        sound(l),
        forall|j: int| 0 <= j < vs.len() ==> is_built(l, #[trigger] vs[j]),
        forall|j: int| 0 <= j < done.len() ==> is_built(l, #[trigger] done[j]),
    ensures
        ({
            let (m, xs) = lowering::arguments(l, vs, params, k, done);
            &&& leads(l, m)
            &&& forall|j: int| 0 <= j < xs.len() ==> is_built(m, #[trigger] xs[j])
        }),
    decreases vs.len() - k,
{
    reveal(lowering::arguments);
    lemma_start(l);
    if 0 <= k < vs.len() {
        let param = if k < params.len() {
            Some(params[k])
        } else {
            None
        };
        let v = vs[k];
        assert(is_built(l, v));
        lemma_argument(l, v, param);
        let (m, x) = lowering::argument(l, v, param);
        lemma_all_stay(l, m, vs);
        lemma_all_stay(l, m, done);
        lemma_arguments(m, vs, params, k + 1, done.push(x));
        lemma_then(l, m, lowering::arguments(m, vs, params, k + 1, done.push(x)).0);
    }
}

/// Bringing an argument to what a callee expects.
proof fn lemma_argument(l: Ll, v: Operand, param: Option<LlvmType>)
    requires
        sound(l),
        is_built(l, v),
    ensures
        leads(l, lowering::argument(l, v, param).0),
        is_built(lowering::argument(l, v, param).0, lowering::argument(l, v, param).1),
{
    reveal(lowering::argument);
    lemma_start(l);
    match param {
        Some(t) => {
            lemma_coerced(l, v, t);
        },
        None => match v.ty {
            LlvmType::Int(n) => {
                if n == 1 {
                    lemma_built(l, Op::ZeroExtend(v, 32, Label::Promote), LlvmType::Int(32));
                } else if n < 32 {
                    lemma_built(l, Op::SignExtend(v, 32, Label::Promote), LlvmType::Int(32));
                }
            },
            LlvmType::Float(n) => {
                if n != 64 {
                    lemma_built(l, Op::FloatExtend(v), LlvmType::Float(64));
                }
            },
            _ => {},
        },
    }
}

/// A call.
proof fn lemma_call(s: Low, name: Seq<char>, args: Seq<Value>, dest: usize)
    requires
        leads_in(s, s),
    ensures
        lowering::call(s, name, args, dest) matches Some(r) ==> leads_in(s, r),
{
    reveal(lowering::call);
    lemma_pointer_add(s, args, dest);
    lemma_pointer_read(s, args, LlvmType::Int(64), Label::PtrReadInt, dest);
    lemma_pointer_read(s, args, LlvmType::Pointer, Label::PtrReadStr, dest);
    lemma_pointer_write(s, args, true);
    lemma_pointer_write(s, args, false);
    reveal(lowering::function_call);
    lemma_operands(s, s, args, 0, Seq::empty());
    if let Some((t, values)) = lowering::operands(s, args, 0, Seq::empty()) {
        lemma_function(t.l, name);
        if let Some(sig) = assoc::get(t.l.functions, name) {
            lemma_arguments(t.l, values, sig.params, 0, Seq::empty());
            let (l, values) = lowering::arguments(t.l, values, sig.params, 0, Seq::empty());
            lemma_moved(s, t, l);
            lemma_declared_stays(t.l, l, sig);
            let op = Op::Call(sig.id, values, Label::Call);
            if let Some(ty) = sig.result {
                lemma_build(s, Low { l, ..t }, op, ty, dest);
            } else {
                lemma_added(s, Low { l, ..t }, op);
            }
        }
    }
}

/// The pointer that such a call gets is built.
proof fn lemma_pointer_argument(s: Low, args: Seq<Value>)
    requires
        leads_in(s, s),
    ensures
        lowering::pointer_argument(s.loc, args) matches Some(p) ==> is_built(s.l, p)
            && p.ty is Pointer,
{
    reveal(lowering::pointer_argument);
    if args.len() > 0 {
        lemma_local(s, args[0]);
    }
}

/// The call that moves a pointer.
proof fn lemma_pointer_add(s: Low, args: Seq<Value>, dest: usize)
    requires
        leads_in(s, s),
    ensures
        lowering::pointer_add(s, args, dest) matches Some(r) ==> leads_in(s, r),
{
    reveal(lowering::pointer_add);
    lemma_pointer_argument(s, args);
    if let Some(p) = lowering::pointer_argument(s.loc, args) {
        if args.len() > 1 {
            lemma_local(s, args[1]);
            if let Some(offset) = lowering::local_int(s.loc, args[1]) {
                lemma_build(
                    s,
                    s,
                    Op::Gep(LlvmType::Int(8), p, offset, Label::PtrAdd),
                    LlvmType::Pointer,
                    dest,
                );
            }
        }
    }
}

/// The calls that read through a pointer.
proof fn lemma_pointer_read(s: Low, args: Seq<Value>, ty: LlvmType, label: Label, dest: usize)
    requires
        leads_in(s, s),
    ensures
        lowering::pointer_read(s, args, ty, label, dest) matches Some(r) ==> leads_in(s, r),
{
    reveal(lowering::pointer_read);
    lemma_pointer_argument(s, args);
    if let Some(p) = lowering::pointer_argument(s.loc, args) {
        lemma_build(s, s, Op::Load(ty, p, label), ty, dest);
    }
}

/// The calls that write through a pointer.
proof fn lemma_pointer_write(s: Low, args: Seq<Value>, of_int: bool)
    requires
        leads_in(s, s),
    ensures
        lowering::pointer_write(s, args, of_int) matches Some(r) ==> leads_in(s, r),
{
    reveal(lowering::pointer_write);
    lemma_pointer_argument(s, args);
    if let Some(p) = lowering::pointer_argument(s.loc, args) {
        if args.len() > 1 {
            lemma_local(s, args[1]);
            let v = if of_int {
                lowering::local_int(s.loc, args[1])
            } else {
                lowering::local_pointer(s.loc, args[1])
            };
            if let Some(v) = v {
                lemma_added(s, s, Op::Store(p, v));
            }
        }
    }
}

/// Branches.
proof fn lemma_branches(s: Low, sig: Sig, cond: Value, yes: Seq<char>, no: Seq<char>)
    requires
        leads_in(s, s),
        is_declared(s.l, sig),
    ensures
        lowering::cond_branch(s, sig.id, cond, yes, no) matches Some(r) ==> leads_in(s, r),
        leads_in(s, lowering::branch(s, sig.id, yes)),
{
    reveal(lowering::cond_branch);
    reveal(lowering::branch);
    lemma_local(s, cond);
    lemma_block(s, s, sig, yes);
    let (t, b) = lowering::block(s, sig.id, yes);
    let go = Op::Branch(b);
    lemma_added(s, t, go);
    let u = Low { l: lowering::step(t.l, go), ..t };
    lemma_added_stays(t.l, u.l, b);
    lemma_added(s, u, Op::Position(b));
    if let Some(c) = lowering::local_int(s.loc, cond) {
        lemma_declared_stays(s.l, t.l, sig);
        lemma_block(s, t, sig, no);
        let (w, d) = lowering::block(t, sig.id, no);
        lemma_added_stays(t.l, w.l, b);
        lemma_then(s.l, t.l, w.l);
        lemma_built_stays(s.l, w.l, c);
        lemma_added(s, w, Op::CondBranch(c, b, d));
    }
}

/// The address of an element.
proof fn lemma_element(s: Low, array: Value, index: Value, t: Ty, label: Label)
    requires
        leads_in(s, s),
    ensures
        lowering::element(s, array, index, t, label) matches Some((l, e, ty)) ==> {
            &&& leads_in(s, Low { l, ..s })
            &&& is_built(l, e)
            &&& e.ty is Pointer
        },
{
    reveal(lowering::element);
    lemma_local(s, array);
    lemma_local(s, index);
    if let Some(p) = lowering::local_pointer(s.loc, array) {
        if let Some(i) = lowering::local_int(s.loc, index) {
            if let Some(ty) = lowering::basic_type(s.l, t) {
                let op = Op::Gep(ty, p, i, label);
                lemma_built(s.l, op, LlvmType::Pointer);
                lemma_moved(s, s, lowering::built(s.l, op, LlvmType::Pointer).0);
            }
        }
    }
}

/// Writing an element.
proof fn lemma_store_element(s: Low, array: Value, index: Value, v: Value, t: Ty)
    requires
        leads_in(s, s),
    ensures
        lowering::store_element(s, array, index, v, t) matches Some(r) ==> leads_in(s, r),
{
    reveal(lowering::store_element);
    lemma_local(s, array);
    lemma_local(s, index);
    if let Some(p) = lowering::local_pointer(s.loc, array) {
        if let Some(i) = lowering::local_int(s.loc, index) {
            lemma_operand(s, s, v);
            if let Some((r, x)) = lowering::operand(s, v) {
                if let Some(ty) = lowering::basic_type(r.l, t) {
                    lemma_coerced(r.l, x, ty);
                    let (l, x) = lowering::coerced(r.l, x, ty);
                    lemma_moved(s, r, l);
                    lemma_then(s.l, r.l, l);
                    lemma_built_stays(s.l, l, p);
                    lemma_built_stays(s.l, l, i);
                    let op = Op::Gep(ty, p, i, Label::Gep);
                    lemma_built(l, op, LlvmType::Pointer);
                    let (m, e) = lowering::built(l, op, LlvmType::Pointer);
                    lemma_moved(s, Low { l, ..r }, m);
                    lemma_built_stays(l, m, x);
                    lemma_added(s, Low { l: m, ..r }, Op::Store(e, x));
                }
            }
        }
    }
}

/// Writing a member.
proof fn lemma_store_member(s: Low, struc: Value, index: usize, v: Value, name: Seq<char>)
    requires
        leads_in(s, s),
    ensures
        lowering::store_member(s, struc, index, v, name) matches Some(r) ==> leads_in(s, r),
{
    reveal(lowering::store_member);
    lemma_operand(s, s, v);
    if let Some((r, x)) = lowering::operand(s, v) {
        lemma_local(r, struc);
        if let Some(object) = lowering::local(r.loc, struc) {
            if object.ty is Struct {
                if let Value::Local(d) = struc {
                    lemma_build(
                        s,
                        r,
                        Op::InsertValue(object, x, index as u32, Label::Member),
                        object.ty,
                        d,
                    );
                }
            }
            if object.ty is Pointer {
                if let Some(n) = assoc::get(r.l.structs, name) {
                    if let Some(ty) = lowering::member_type(r.l, n, index as u32) {
                        lemma_coerced(r.l, x, ty);
                        let (l, x) = lowering::coerced(r.l, x, ty);
                        lemma_moved(s, r, l);
                        lemma_built_stays(r.l, l, object);
                        let op = Op::StructGep(n, object, index as u32);
                        lemma_built(l, op, LlvmType::Pointer);
                        let (m, p) = lowering::built(l, op, LlvmType::Pointer);
                        lemma_moved(s, Low { l, ..r }, m);
                        lemma_built_stays(l, m, x);
                        lemma_added(s, Low { l: m, ..r }, Op::Store(p, x));
                    }
                }
            }
        }
    }
}

/// Setting the members of a struct.
proof fn lemma_inserted(l: Ll, n: usize, object: Operand, vs: Seq<Operand>, k: int)
    requires
        sound(l),
        is_built(l, object),
        object.ty == LlvmType::Struct(n),
        forall|j: int| 0 <= j < vs.len() ==> is_built(l, #[trigger] vs[j]),
    ensures
        lowering::inserted(l, n, object, vs, k) matches Some((m, o)) ==> leads(l, m) && is_built(
            m,
            o,
        ),
    decreases vs.len() - k,
{
    reveal(lowering::inserted);
    lemma_start(l);
    if 0 <= k < vs.len() {
        if let Some(ty) = lowering::member_type(l, n, k as usize as u32) {
            assert(is_built(l, vs[k]));
            lemma_coerced(l, vs[k], ty);
            let (m, v) = lowering::coerced(l, vs[k], ty);
            lemma_built_stays(l, m, object);
            let op = Op::InsertValue(object, v, k as usize as u32, Label::Insert);
            lemma_built(m, op, LlvmType::Struct(n));
            let (w, o) = lowering::built(m, op, LlvmType::Struct(n));
            lemma_then(l, m, w);
            lemma_all_stay(l, w, vs);
            lemma_inserted(w, n, o, vs, k + 1);
            if let Some((z, _)) = lowering::inserted(w, n, o, vs, k + 1) {
                lemma_then(l, w, z);
            }
        }
    }
}

/// Making a struct.
proof fn lemma_create_struct(s: Low, name: Seq<char>, vs: Seq<Value>, dest: usize)
    requires
        leads_in(s, s),
    ensures
        lowering::create_struct(s, name, vs, dest) matches Some(r) ==> leads_in(s, r),
{
    reveal(lowering::create_struct);
    if let Some(n) = assoc::get(s.l.structs, name) {
        lemma_operands(s, s, vs, 0, Seq::empty());
        if let Some((t, values)) = lowering::operands(s, vs, 0, Seq::empty()) {
            let op = Op::ConstStruct(n);
            lemma_built(t.l, op, LlvmType::Struct(n));
            let (l, object) = lowering::built(t.l, op, LlvmType::Struct(n));
            lemma_moved(s, t, l);
            lemma_all_stay(t.l, l, values);
            lemma_inserted(l, n, object, values, 0);
            if let Some((m, o)) = lowering::inserted(l, n, object, values, 0) {
                lemma_moved(s, Low { l, ..t }, m);
                lemma_assigned(s, Low { l: m, ..t }, dest, o);
            }
        }
    }
}

/// Reading a member.
proof fn lemma_access_member(
    s: Low,
    struc: Value,
    index: usize,
    dest: usize,
    resolve: bool,
    name: Seq<char>,
)
    requires
        leads_in(s, s),
    ensures
        lowering::access_member(s, struc, index, dest, resolve, name) matches Some(r) ==> leads_in(
            s,
            r,
        ),
{
    reveal(lowering::access_member);
    lemma_local(s, struc);
    if let Some(object) = lowering::local(s.loc, struc) {
        if let LlvmType::Struct(n) = object.ty {
            if let Some(ty) = lowering::member_type(s.l, n, index as u32) {
                lemma_build(s, s, Op::ExtractValue(object, index as u32), ty, dest);
            }
        }
        if object.ty is Pointer {
            if let Some(n) = assoc::get(s.l.structs, name) {
                if let Some(ty) = lowering::member_type(s.l, n, index as u32) {
                    let op = Op::StructGep(n, object, index as u32);
                    lemma_built(s.l, op, LlvmType::Pointer);
                    let (l, p) = lowering::built(s.l, op, LlvmType::Pointer);
                    let t = Low { l, ..s };
                    lemma_moved(s, s, l);
                    lemma_build(s, t, Op::Load(ty, p, Label::Load), ty, dest);
                    lemma_assigned(s, t, dest, p);
                }
            }
        }
    }
}

/// A conversion.
proof fn lemma_cast(s: Low, v: Value, t: Ty, dest: usize)
    requires
        leads_in(s, s),
    ensures
        lowering::cast(s, v, t, dest) matches Some(r) ==> leads_in(s, r),
{
    reveal(lowering::cast);
    lemma_local(s, v);
    if let Some(x) = lowering::local(s.loc, v) {
        if let Some(ty) = lowering::basic_type(s.l, t) {
            lemma_assigned(s, s, dest, x);
            lemma_coerced(s.l, x, ty);
            let (l, y) = lowering::coerced(s.l, x, ty);
            lemma_moved(s, s, l);
            lemma_assigned(s, Low { l, ..s }, dest, y);
            match x.ty {
                LlvmType::Int(_) => match ty {
                    LlvmType::Float(n) => {
                        lemma_build(s, s, Op::IntToFloat(x, n), ty, dest);
                    },
                    LlvmType::Pointer => {
                        lemma_build(s, s, Op::IntToPointer(x), ty, dest);
                    },
                    _ => {},
                },
                LlvmType::Float(_) => match ty {
                    LlvmType::Int(n) => {
                        lemma_build(s, s, Op::FloatToInt(x, n), ty, dest);
                    },
                    _ => {},
                },
                LlvmType::Pointer => match ty {
                    LlvmType::Int(n) => {
                        lemma_build(s, s, Op::PointerToInt(x, n), ty, dest);
                    },
                    _ => {},
                },
                _ => {},
            }
        }
    }
}

/// An array.
proof fn lemma_create_array(s: Low, t: Ty, size: usize, dest: usize)
    requires
        leads_in(s, s),
    ensures
        lowering::create_array(s, t, size, dest) matches Some(r) ==> leads_in(s, r),
{
    reveal(lowering::create_array);
    if let Some(ty) = lowering::basic_type(s.l, t) {
        let op = Op::ConstInt(32, size as u64);
        lemma_built(s.l, op, LlvmType::Int(32));
        let (l, n) = lowering::built(s.l, op, LlvmType::Int(32));
        lemma_moved(s, s, l);
        lemma_build(s, Low { l, ..s }, Op::ArrayMalloc(ty, n), LlvmType::Pointer, dest);
    }
}

/// An instruction.
proof fn lemma_instruction(s: Low, sig: Sig, i: Inst)
    requires
        leads_in(s, s),
        is_declared(s.l, sig),
    ensures
        lowering::instruction(s, sig, i) matches Some(t) ==> leads_in(s, t),
{
    reveal(lowering::instruction);
    match i {
        Inst::Load(name, dest, t) => lemma_loads(s, name, dest, t),
        Inst::LoadGlobal(name, dest, t) => lemma_loads(s, name, dest, t),
        Inst::LoadArg(arg, dest, _) => lemma_load_arg(s, sig, arg, dest),
        Inst::Store(name, v, t) => lemma_store(s, name, v, t),
        Inst::ConstInt(v, dest) => lemma_build(
            s,
            s,
            Op::ConstInt(64, v as u64),
            LlvmType::Int(64),
            dest,
        ),
        Inst::ConstFloat(v, dest) => lemma_build(
            s,
            s,
            Op::ConstFloat(v),
            LlvmType::Float(64),
            dest,
        ),
        Inst::ConstTrue(dest) => lemma_build(s, s, Op::ConstInt(1, 1), LlvmType::Int(1), dest),
        Inst::ConstFalse(dest) => lemma_build(s, s, Op::ConstInt(1, 0), LlvmType::Int(1), dest),
        Inst::ConstNull(dest) => lemma_build(s, s, Op::ConstNull, LlvmType::Pointer, dest),
        Inst::Add(a, b, dest) => lemma_arithmetic(s, IntOp::Add, FloatOp::Add, a, b, dest),
        Inst::Sub(a, b, dest) => lemma_arithmetic(s, IntOp::Sub, FloatOp::Sub, a, b, dest),
        Inst::Mul(a, b, dest) => lemma_arithmetic(s, IntOp::Mul, FloatOp::Mul, a, b, dest),
        Inst::Div(a, b, dest) => lemma_arithmetic(s, IntOp::Div, FloatOp::Div, a, b, dest),
        Inst::Mod(a, b, dest) => lemma_arithmetic(s, IntOp::Rem, FloatOp::Rem, a, b, dest),
        Inst::Pow(a, b, dest) => lemma_power(s, a, b, dest),
        Inst::Or(a, b, dest) => lemma_bitwise(s, IntOp::Or, false, a, b, dest),
        Inst::And(a, b, dest) => lemma_bitwise(s, IntOp::And, false, a, b, dest),
        Inst::Eq(a, b, dest) => lemma_comparison(s, Predicate::Eq, a, b, dest),
        Inst::Neq(a, b, dest) => lemma_comparison(s, Predicate::Neq, a, b, dest),
        Inst::Lt(a, b, dest) => lemma_comparison(s, Predicate::Lt, a, b, dest),
        Inst::Lte(a, b, dest) => lemma_comparison(s, Predicate::Lte, a, b, dest),
        Inst::Gt(a, b, dest) => lemma_comparison(s, Predicate::Gt, a, b, dest),
        Inst::Gte(a, b, dest) => lemma_comparison(s, Predicate::Gte, a, b, dest),
        Inst::BitAnd(a, b, dest) => lemma_bitwise(s, IntOp::And, true, a, b, dest),
        Inst::BitOr(a, b, dest) => lemma_bitwise(s, IntOp::Or, true, a, b, dest),
        Inst::BitXor(a, b, dest) => lemma_bitwise(s, IntOp::Xor, true, a, b, dest),
        Inst::Shl(a, b, dest) => lemma_bitwise(s, IntOp::Shl, true, a, b, dest),
        Inst::Shr(a, b, dest) => lemma_bitwise(s, IntOp::Shr, true, a, b, dest),
        Inst::Not(v, dest) => {
            lemma_local(s, v);
            if let Some(x) = lowering::local_int(s.loc, v) {
                lemma_build(s, s, Op::Not(x), x.ty, dest);
            }
        },
        Inst::Return(v) => lemma_ret(s, sig, v),
        Inst::Unreachable => lemma_added(s, s, Op::Unreachable),
        Inst::FunctionCall(name, args, dest) => lemma_call(s, name, args, dest),
        Inst::Jump(target) => lemma_branches(s, sig, Value::Local(0), target, target),
        Inst::Jcond(cond, yes, no) => lemma_branches(s, sig, cond, yes, no),
        Inst::SizeOf(t, dest) => {
            if let Some(ty) = lowering::basic_type(s.l, t) {
                lemma_build(s, s, Op::SizeOf(ty), LlvmType::Int(64), dest);
            }
        },
        Inst::ElementPtr(array, index, dest, t) => {
            lemma_element(s, array, index, t, Label::ElementPtr);
            if let Some((l, e, _)) = lowering::element(s, array, index, t, Label::ElementPtr) {
                lemma_assigned(s, Low { l, ..s }, dest, e);
            }
        },
        Inst::Pointer(name, dest) => {
            lemma_stored(s, name);
            if let Some(p) = assoc::get(s.loc.variables, name) {
                lemma_assigned(s, s, dest, p);
            }
        },
        Inst::CreateArray(t, size, dest) => lemma_create_array(s, t, size, dest),
        Inst::StoreElement(array, index, v, t) => lemma_store_element(s, array, index, v, t),
        Inst::AccessElement(array, index, dest, t) => {
            lemma_element(s, array, index, t, Label::Gep);
            if let Some((l, e, ty)) = lowering::element(s, array, index, t, Label::Gep) {
                lemma_build(s, Low { l, ..s }, Op::Load(ty, e, Label::Load), ty, dest);
            }
        },
        Inst::StoreStructMember(struc, index, v, name) => lemma_store_member(
            s,
            struc,
            index,
            v,
            name,
        ),
        Inst::CreateStruct(name, vs, dest) => lemma_create_struct(s, name, vs, dest),
        Inst::AccessStructMember(struc, index, dest, resolve, name) => lemma_access_member(
            s,
            struc,
            index,
            dest,
            resolve,
            name,
        ),
        Inst::Cast(v, t, dest) => lemma_cast(s, v, t, dest),
        _ => {},
    }
}

/// The instructions of a block.
proof fn lemma_instructions(s: Low, sig: Sig, is: Seq<Inst>, k: int)
    requires
        leads_in(s, s),
        is_declared(s.l, sig),
    ensures
        lowering::instructions(s, sig, is, k) matches Some(t) ==> leads_in(s, t),
    decreases is.len() - k,
{
    reveal(lowering::instructions);
    if 0 <= k < is.len() {
        lemma_instruction(s, sig, is[k]);
        if let Some(t) = lowering::instruction(s, sig, is[k]) {
            lemma_start(t.l);
            lemma_declared_stays(s.l, t.l, sig);
            lemma_instructions(t, sig, is, k + 1);
            if let Some(r) = lowering::instructions(t, sig, is, k + 1) {
                lemma_then(s.l, t.l, r.l);
            }
        }
    }
}

// ---------------------------------------------------------------------------
// Modules

/// Whether a module has types only.
spec fn only_types(l: Ll) -> bool {
    &&& forall|k: int|
        0 <= k < l.ops.len() ==> (#[trigger] l.ops[k]) is OpaqueStruct || l.ops[k] is SetBody
    &&& l.strings.len() == 0
    &&& l.globals.len() == 0
    &&& l.functions.len() == 0
}

/// Declaring structs.
proof fn lemma_structs_declared(l: Ll, structs: Seq<(Seq<char>, StructDef)>, k: int)
    requires
        only_types(l),
    ensures
        only_types(lowering::structs_declared(l, structs, k)),
    decreases structs.len() - k,
{
    reveal(lowering::structs_declared);
    if 0 <= k < structs.len() {
        lemma_structs_declared(
            lowering::step(
                Ll {
                    structs: assoc::put(l.structs, structs[k].0, k as usize),
                    layouts: l.layouts.push(Seq::empty()),
                    ..l
                },
                Op::OpaqueStruct(structs[k].0),
            ),
            structs,
            k + 1,
        );
    }
}

/// Giving structs their members.
proof fn lemma_structs_filled(l: Ll, structs: Seq<(Seq<char>, StructDef)>, k: int)
    requires
        only_types(l),
    ensures
        lowering::structs_filled(l, structs, k) matches Some(m) ==> only_types(m),
    decreases structs.len() - k,
{
    reveal(lowering::structs_filled);
    if 0 <= k < structs.len() {
        if let Some(types) = lowering::basic_types(
            l,
            lowering::attribute_types(structs[k].1),
            0,
            Seq::empty(),
        ) {
            lemma_structs_filled(
                lowering::step(
                    Ll { layouts: l.layouts.update(k, types), ..l },
                    Op::SetBody(k as usize, types),
                ),
                structs,
                k + 1,
            );
        }
    }
}

/// Types fit together.
proof fn lemma_only_types(l: Ll)
    requires
        only_types(l),
    ensures
        sound(l),
{
    reveal(sound);
    assert forall|k: int| 0 <= k < l.ops.len() implies fits(l, #[trigger] l.ops[k], k) by {
        assert(l.ops[k] is OpaqueStruct || l.ops[k] is SetBody);
    }
}

/// Declaring a function.
proof fn lemma_declared(
    l: Ll,
    name: Seq<char>,
    params: Seq<LlvmType>,
    result: Option<LlvmType>,
    varargs: bool,
    linkage: Linkage,
)
    requires
        sound(l),
    ensures
        leads(l, lowering::declared(l, name, params, result, varargs, linkage)),
{
    reveal(lowering::declared);
    let op = Op::DeclareFunction(name, params, result, varargs, linkage);
    lemma_step(l, op);
    let m = lowering::step(l, op);
    let sig = Sig { id: l.ops.len() as usize, params, result };
    let after = Ll { functions: assoc::put(l.functions, name, sig), ..m };
    assert(leads(l, after)) by {
        reveal(grown);
        reveal(sound);
        lemma_put(l.functions, name, sig);
        assert(countable(after) ==> fit_together(after)) by {
            if countable(after) {
                assert(fit_together(m));
                lemma_same_fit(m, after);
            }
        }
        lemma_same_built(m, after);
        assert(is_declared(after, sig));
        assert forall|k: int| 0 <= k < after.functions.len() implies is_declared(
            after,
            (#[trigger] after.functions[k]).1,
        ) by {
            if after.functions[k].1 != sig {
                assert(after.functions[k] == m.functions[k]);
                assert(is_declared(m, m.functions[k].1));
            }
        }
    }
}

/// Values are built by the steps, whatever names there are.
proof fn lemma_same_built(a: Ll, b: Ll)
    requires
        a.ops == b.ops,
        a.layouts == b.layouts,
    ensures
        forall|v: Operand| #[trigger] is_built(b, v) == is_built(a, v),
{
    reveal(lowering::member_type);
    assert forall|v: Operand| #[trigger] is_built(b, v) == is_built(a, v) by {
        assert(type_of(a, a.ops[v.id as int]) == type_of(b, b.ops[v.id as int]));
    }
}

/// Steps fit together, whatever names there are.
proof fn lemma_same_fit(a: Ll, b: Ll)
    requires
        a.ops == b.ops,
        a.layouts == b.layouts,
        fit_together(a),
    ensures
        fit_together(b),
{
    reveal(lowering::member_type);
    assert forall|k: int| 0 <= k < b.ops.len() implies fits(b, #[trigger] b.ops[k], k) by {
        let op = b.ops[k];
        assert(fits(a, a.ops[k], k));
        assert forall|j: int| 0 <= j < operands_of(op).len() implies built_before(
            b,
            #[trigger] operands_of(op)[j],
            k,
        ) by {
            let v = operands_of(op)[j];
            assert(built_before(a, v, k));
            assert(type_of(a, a.ops[v.id as int]) == type_of(b, b.ops[v.id as int]));
        }
        assert forall|j: int| 0 <= j < blocks_of(op).len() implies added_before(
            b,
            #[trigger] blocks_of(op)[j],
            k,
        ) by {
            assert(added_before(a, blocks_of(op)[j], k));
        }
    }
}

/// Declaring the functions that are defined elsewhere.
proof fn lemma_externs_declared(l: Ll, externs: Seq<(Seq<char>, Extern)>, k: int)
    requires
        sound(l),
    ensures
        lowering::externs_declared(l, externs, k) matches Some(m) ==> leads(l, m),
    decreases externs.len() - k,
{
    reveal(lowering::externs_declared);
    lemma_start(l);
    if 0 <= k < externs.len() {
        let f = externs[k].1;
        if let Some(params) = lowering::basic_types(l, f.arguments, 0, Seq::empty()) {
            if let Some(result) = lowering::result_type(l, f.result) {
                let name = externs[k].0;
                lemma_declared(l, name, params, result, f.varargs, Linkage::External);
                let m = lowering::declared(
                    l,
                    name,
                    params,
                    result,
                    f.varargs,
                    Linkage::External,
                );
                lemma_externs_declared(m, externs, k + 1);
                if let Some(n) = lowering::externs_declared(m, externs, k + 1) {
                    lemma_then(l, m, n);
                }
            }
        }
    }
}

/// Declaring functions.
proof fn lemma_functions_declared(l: Ll, functions: Seq<(Seq<char>, Fun)>, k: int)
    requires
        sound(l),
    ensures
        lowering::functions_declared(l, functions, k) matches Some(m) ==> leads(l, m),
    decreases functions.len() - k,
{
    reveal(lowering::functions_declared);
    lemma_start(l);
    if 0 <= k < functions.len() {
        let name = functions[k].0;
        let f = functions[k].1;
        let linkage = if name == "main"@ {
            Linkage::Default
        } else {
            Linkage::Private
        };
        if let Some(params) = lowering::basic_types(
            l,
            lowering::argument_types(f),
            0,
            Seq::empty(),
        ) {
            if let Some(result) = lowering::result_type(l, lowering::returned(name, f.result)) {
                lemma_declared(l, name, params, result, false, linkage);
                let m = lowering::declared(l, name, params, result, false, linkage);
                lemma_functions_declared(m, functions, k + 1);
                if let Some(n) = lowering::functions_declared(m, functions, k + 1) {
                    lemma_then(l, m, n);
                }
            }
        }
    }
}

/// Building string constants.
proof fn lemma_strings_built(l: Ll, strings: Seq<Seq<char>>, k: int)
    requires
        sound(l),
    ensures
        leads(l, lowering::strings_built(l, strings, k)),
    decreases strings.len() - k,
{
    reveal(lowering::strings_built);
    lemma_start(l);
    if 0 <= k < strings.len() {
        let op = Op::GlobalString(strings[k]);
        lemma_built(l, op, LlvmType::Pointer);
        let (m, v) = lowering::built(l, op, LlvmType::Pointer);
        let after = Ll { strings: m.strings.push(v), ..m };
        assert(leads(l, after)) by {
            reveal(grown);
            reveal(sound);
            lemma_same_built(m, after);
            if countable(after) {
                lemma_same_fit(m, after);
            }
            assert forall|j: int| 0 <= j < after.strings.len() implies is_built(
                after,
                #[trigger] after.strings[j],
            ) && after.strings[j].ty is Pointer by {
                if j < m.strings.len() {
                    assert(after.strings[j] == m.strings[j]);
                    assert(is_built(m, m.strings[j]));
                }
            }
            assert forall|j: int| 0 <= j < after.functions.len() implies is_declared(
                after,
                (#[trigger] after.functions[j]).1,
            ) by {
                assert(is_declared(m, m.functions[j].1));
            }
        }
        lemma_strings_built(after, strings, k + 1);
        lemma_then(l, after, lowering::strings_built(after, strings, k + 1));
    }
}

/// Building globals.
proof fn lemma_globals_built(l: Ll, globals: Seq<(Seq<char>, GlobalValue)>, k: int)
    requires
        sound(l),
    ensures
        lowering::globals_built(l, globals, k) matches Some(m) ==> leads(l, m),
    decreases globals.len() - k,
{
    reveal(lowering::globals_built);
    lemma_start(l);
    if 0 <= k < globals.len() {
        let name = globals[k].0;
        if let Some((m, v)) = lowering::global(l, name, globals[k].1) {
            assert(leads(l, m) && is_built(m, v) && v.ty is Pointer) by {
                reveal(lowering::global);
                match globals[k].1 {
                    GlobalValue::Int(i) => {
                        lemma_built(l, Op::GlobalInt(name, i), LlvmType::Pointer);
                    },
                    GlobalValue::Float(f) => {
                        lemma_built(l, Op::GlobalFloat(name, f), LlvmType::Pointer);
                    },
                    GlobalValue::Bool(b) => {
                        lemma_built(l, Op::GlobalBool(name, b), LlvmType::Pointer);
                    },
                    GlobalValue::String(n) => {
                        lemma_string(l, n);
                    },
                }
            }
            let after = Ll { globals: assoc::put(m.globals, name, v), ..m };
            assert(leads(l, after)) by {
                reveal(grown);
                reveal(sound);
                lemma_put(m.globals, name, v);
                lemma_same_built(m, after);
                if countable(after) {
                    lemma_same_fit(m, after);
                }
                assert forall|j: int| 0 <= j < after.globals.len() implies is_built(
                    after,
                    (#[trigger] after.globals[j]).1,
                ) && after.globals[j].1.ty is Pointer by {
                    if after.globals[j].1 != v {
                        assert(after.globals[j] == m.globals[j]);
                        assert(is_built(m, m.globals[j].1));
                    }
                }
                assert forall|j: int| 0 <= j < after.functions.len() implies is_declared(
                    after,
                    (#[trigger] after.functions[j]).1,
                ) by {
                    assert(is_declared(m, m.functions[j].1));
                }
            }
            lemma_globals_built(after, globals, k + 1);
            if let Some(n) = lowering::globals_built(after, globals, k + 1) {
                lemma_then(l, after, n);
            }
        }
    }
}

/// Allocating variables.
proof fn lemma_variables_built(a: Low, s: Low, variables: Seq<(Seq<char>, Ty)>, k: int)
    requires
        leads_in(a, s),
    ensures
        lowering::variables_built(s, variables, k) matches Some(t) ==> leads_in(a, t),
    decreases variables.len() - k,
{
    reveal(lowering::variables_built);
    if 0 <= k < variables.len() {
        if let Some(ty) = lowering::basic_type(s.l, variables[k].1) {
            lemma_built(s.l, Op::Alloca(ty), LlvmType::Pointer);
            let (l, p) = lowering::built(s.l, Op::Alloca(ty), LlvmType::Pointer);
            lemma_moved(a, s, l);
            let t = Low { l, ..s };
            lemma_locals_put(a, t, variables[k].0, p);
            lemma_variables_built(
                a,
                Low {
                    loc: Loc {
                        variables: assoc::put(t.loc.variables, variables[k].0, p),
                        ..t.loc
                    },
                    ..t
                },
                variables,
                k + 1,
            );
        }
    }
}

/// Going to a block.
proof fn lemma_entered(a: Low, s: Low, sig: Sig, name: Seq<char>)
    requires
        leads_in(a, s),
        is_declared(s.l, sig),
    ensures
        leads_in(a, lowering::entered(s, sig.id, name)),
        grown(s.l, lowering::entered(s, sig.id, name).l),
{
    reveal(lowering::entered);
    match assoc::get(s.loc.blocks, name) {
        Some(b) => {
            assert(is_added(s.l, b)) by {
                reveal(sound_in);
                let k = lemma_entry(s.loc.blocks, name);
                assert(is_added(s.l, s.loc.blocks[k].1));
            }
            lemma_added(a, s, Op::Position(b));
        },
        None => {
            let op = Op::AppendBlock(sig.id, name);
            lemma_added(a, s, op);
            let t = Low { l: lowering::step(s.l, op), ..s };
            let b = s.l.ops.len() as usize;
            assert(is_added(t.l, b));
            lemma_added(a, t, Op::Position(b));
            lemma_then(s.l, t.l, lowering::step(t.l, Op::Position(b)));
        },
    }
}

/// The blocks of a function.
proof fn lemma_blocks_built(
    a: Low,
    s: Low,
    m: Mod,
    sig: Sig,
    blocks: Seq<(Seq<char>, Seq<Inst>)>,
    k: int,
    first: bool,
)
    requires
        leads_in(a, s),
        is_declared(s.l, sig),
    ensures
        lowering::blocks_built(s, m, sig, blocks, k, first) matches Some((t, _)) ==> leads_in(
            a,
            t,
        ),
    decreases blocks.len() - k,
{
    reveal(lowering::blocks_built);
    if 0 <= k < blocks.len() {
        lemma_entered(a, s, sig, blocks[k].0);
        let e = lowering::entered(s, sig.id, blocks[k].0);
        lemma_declared_stays(s.l, e.l, sig);
        lemma_strings_built(e.l, m.strings, 0);
        let w = lowering::strings_built(e.l, m.strings, 0);
        lemma_globals_built(w, m.global_values, 0);
        lemma_start(e.l);
        let l = if first {
            lowering::globals_built(w, m.global_values, 0)
        } else {
            Some(e.l)
        };
        if let Some(l) = l {
            if first {
                lemma_then(e.l, w, l);
            }
            lemma_moved(a, e, l);
            lemma_declared_stays(e.l, l, sig);
            lemma_start(l);
            let t = Low { l, ..e };
            lemma_instructions(t, sig, blocks[k].1, 0);
            if let Some(r) = lowering::instructions(t, sig, blocks[k].1, 0) {
                lemma_then(a.l, t.l, r.l);
                lemma_declared_stays(t.l, r.l, sig);
                lemma_blocks_built(a, r, m, sig, blocks, k + 1, false);
            }
        }
    }
}

/// The body of a function.
proof fn lemma_function_built(l: Ll, m: Mod, name: Seq<char>, f: Fun, first: bool)
    requires
        sound(l),
    ensures
        lowering::function(l, m, name, f, first) matches Some((r, _)) ==> leads(l, r),
{
    reveal(lowering::function);
    lemma_function(l, name);
    if let Some(sig) = assoc::get(l.functions, name) {
        let a = Low { l, loc: lowering::no_locals() };
        lemma_start(l);
        assert(sound_in(a.loc, l)) by {
            reveal(sound_in);
        }
        lemma_block(a, a, sig, "entry"@);
        let (b, entry) = lowering::block(a, sig.id, "entry"@);
        lemma_added(a, b, Op::Position(entry));
        let s = Low { l: lowering::step(b.l, Op::Position(entry)), ..b };
        lemma_variables_built(a, s, f.variables, 0);
        if let Some(t) = lowering::variables_built(s, f.variables, 0) {
            lemma_declared_stays(l, t.l, sig);
            lemma_blocks_built(a, t, m, sig, f.blocks, 0, first);
        }
    }
}

/// The bodies of functions.
proof fn lemma_functions_built(l: Ll, m: Mod, k: int, first: bool)
    requires
        sound(l),
    ensures
        lowering::functions_built(l, m, k, first) matches Some(r) ==> leads(l, r),
    decreases m.functions.len() - k,
{
    reveal(lowering::functions_built);
    lemma_start(l);
    if 0 <= k < m.functions.len() {
        lemma_function_built(l, m, m.functions[k].0, m.functions[k].1, first);
        if let Some((w, first)) = lowering::function(
            l,
            m,
            m.functions[k].0,
            m.functions[k].1,
            first,
        ) {
            lemma_functions_built(w, m, k + 1, first);
            if let Some(r) = lowering::functions_built(w, m, k + 1, first) {
                lemma_then(l, w, r);
            }
        }
    }
}

/// The steps that a program is lowered to fit together.
pub proof fn lemma_lowered(m: Mod)
    requires
        lowering::lowered(m) matches Some(l) && countable(l),
    ensures
        lowering::lowered(m) matches Some(l) && fit_together(l),
{
    reveal(lowering::lowered);
    let l = lowering::structs_declared(lowering::start(m), m.structs, 0);
    lemma_structs_declared(lowering::start(m), m.structs, 0);
    lemma_structs_filled(l, m.structs, 0);
    if let Some(l) = lowering::structs_filled(l, m.structs, 0) {
        lemma_only_types(l);
        lemma_externs_declared(l, m.extern_functions, 0);
        if let Some(l) = lowering::externs_declared(l, m.extern_functions, 0) {
            let params = seq![LlvmType::Float(64), LlvmType::Float(64)];
            let result = Some(LlvmType::Float(64));
            lemma_declared(l, "pow"@, params, result, false, Linkage::External);
            let l = lowering::declared(l, "pow"@, params, result, false, Linkage::External);
            lemma_functions_declared(l, m.functions, 0);
            if let Some(l) = lowering::functions_declared(l, m.functions, 0) {
                lemma_functions_built(l, m, 0, true);
            }
        }
    }
    reveal(sound);
}

} // verus!
