//! An interpreter for LIR functions, as a state machine: `step` takes one
//! instruction of a function and either does what it means or returns the
//! action the caller must perform (memory access, calls, floating point
//! arithmetic), after which the caller writes the result back with
//! `set_reg` and steps again.
//!
//! Control flow follows WebAssembly: breaking out of a block or an if-else
//! continues after it, breaking out of a loop re-enters the loop body, and
//! reaching the end of a sequence leaves it.

use vstd::prelude::*;
use vstd::wrapping::{u32_specs, u64_specs, usize_specs};
use crate::lir::{
    BinaryOpcode, Function, FunctionId, HostFunction, InsnKind, MultiValInsn, Reg, SingleValInsn, UnaryOpcode,
    ValType, Value,
};

verus! {

/// A position inside an instruction sequence being executed.
#[derive(Clone, Copy, Debug, PartialEq, Eq, Structural)]
pub struct Frame {
    /// The instruction sequence.
    pub seq: usize,
    /// The index of the next instruction in it.
    pub pc: usize,
    /// Whether the sequence is the body of a loop, which a break re-enters.
    pub is_loop: bool,
}

/// The state of an interpreted call: the values of the registers, and the
/// nested sequences being executed, innermost last.
pub struct InterpState {
    pub regs: Vec<Option<Value>>,
    pub frames: Vec<Frame>,
}

/// The function that a call goes to.
#[derive(Clone, Copy)]
pub enum Callee {
    Host(HostFunction),
    User(FunctionId),
    /// The function whose pointer is the value.
    Indirect(Value),
}

/// What the caller of [`step`] must do next.
pub enum Action {
    /// Nothing: the step was taken.
    Continue,
    /// The function returned these values.
    Return { values: Vec<Value> },
    /// The program is ill formed or ill typed at this instruction; the state
    /// is unchanged.
    Fault,
    /// Load a value of type `ty` from `addr` into `out`.
    Load { ty: ValType, addr: usize, out: Reg },
    /// Store `value`, of type `ty`, at `addr`.
    Store { ty: ValType, addr: usize, value: Value },
    /// Load a value of type `ty` from the stack frame at `offset` into `out`.
    StackLoad { ty: ValType, offset: usize, out: Reg },
    /// Store `value`, of type `ty`, into the stack frame at `offset`.
    StackStore { ty: ValType, offset: usize, value: Value },
    /// Write the address of the stack frame at `offset` into `out`.
    StackAddr { offset: usize, out: Reg },
    /// Write the pointer to `function` into `out`.
    FunctionPtr { function: FunctionId, out: Reg },
    /// Apply a floating point unary operation and write the result into `out`.
    FloatUnary { op: UnaryOpcode, operand: Value, out: Reg },
    /// Apply a floating point binary operation and write the result into `out`.
    FloatBinary { op: BinaryOpcode, lhs: Value, rhs: Value, out: Reg },
    /// Call `callee` with `args` and write its results into `outs`.
    Call { callee: Callee, args: Vec<Value>, outs: Vec<Reg> },
}

/// An [`Action`] with its vectors seen as sequences.
pub ghost enum ActionSpec {
    Continue,
    Return { values: Seq<Value> },
    Fault,
    Load { ty: ValType, addr: usize, out: Reg },
    Store { ty: ValType, addr: usize, value: Value },
    StackLoad { ty: ValType, offset: usize, out: Reg },
    StackStore { ty: ValType, offset: usize, value: Value },
    StackAddr { offset: usize, out: Reg },
    FunctionPtr { function: FunctionId, out: Reg },
    FloatUnary { op: UnaryOpcode, operand: Value, out: Reg },
    FloatBinary { op: BinaryOpcode, lhs: Value, rhs: Value, out: Reg },
    Call { callee: Callee, args: Seq<Value>, outs: Seq<Reg> },
}

/// The action `a` seen as an [`ActionSpec`].
pub open spec fn action_view(a: Action) -> ActionSpec {
    match a {
        Action::Continue => ActionSpec::Continue,
        Action::Return { values } => ActionSpec::Return { values: values@ },
        Action::Fault => ActionSpec::Fault,
        Action::Load { ty, addr, out } => ActionSpec::Load { ty, addr, out },
        Action::Store { ty, addr, value } => ActionSpec::Store { ty, addr, value },
        Action::StackLoad { ty, offset, out } => ActionSpec::StackLoad { ty, offset, out },
        Action::StackStore { ty, offset, value } => ActionSpec::StackStore { ty, offset, value },
        Action::StackAddr { offset, out } => ActionSpec::StackAddr { offset, out },
        Action::FunctionPtr { function, out } => ActionSpec::FunctionPtr { function, out },
        Action::FloatUnary { op, operand, out } => ActionSpec::FloatUnary { op, operand, out },
        Action::FloatBinary { op, lhs, rhs, out } => ActionSpec::FloatBinary { op, lhs, rhs, out },
        Action::Call { callee, args, outs } => ActionSpec::Call { callee, args: args@, outs: outs@ },
    }
}

/// The value of register `r`, if it has one.
pub open spec fn reg_value(regs: Seq<Option<Value>>, r: Reg) -> Option<Value> {
    if r.0 < regs.len() {
        regs[r.0 as int]
    } else {
        None
    }
}

/// Every register of `rs` has a value.
pub open spec fn all_set(regs: Seq<Option<Value>>, rs: Seq<Reg>) -> bool {
    forall|i: int| 0 <= i < rs.len() ==> (#[trigger] reg_value(regs, rs[i])) is Some
}

/// The values of the registers `rs`.
pub open spec fn reg_values(regs: Seq<Option<Value>>, rs: Seq<Reg>) -> Seq<Value> {
    Seq::new(rs.len(), |i: int| reg_value(regs, rs[i])->0)
}

/// Every register of `rs` exists.
pub open spec fn all_exist(regs: Seq<Option<Value>>, rs: Seq<Reg>) -> bool {
    forall|i: int| 0 <= i < rs.len() ==> (#[trigger] rs[i]).0 < regs.len()
}

/// Whether a condition value holds: a nonzero integer.
pub open spec fn truth(v: Value) -> Option<bool> {
    match v {
        Value::I8(x) => Some(x != 0),
        Value::I32(x) => Some(x != 0),
        _ => None,
    }
}

/// A boolean as a byte.
pub open spec fn bool_value(b: bool) -> Value {
    Value::I8(if b { 1 } else { 0 })
}

/// The result of an integer unary operation, if it applies to `v`: the low
/// 32 bits of a 64-bit integer, or the negation of a boolean byte.
pub open spec fn int_unary(op: UnaryOpcode, v: Value) -> Option<Value> {
    match (op, v) {
        (UnaryOpcode::I64ToI32, Value::I64(x)) => Some(Value::I32(x as u32)),
        (UnaryOpcode::Not, Value::I8(x)) => Some(bool_value(x == 0)),
        _ => None,
    }
}

/// The result of an integer binary operation, if it applies to `a` and `b`:
/// wrapping arithmetic (subtraction of pointers saturates at 0),
/// comparisons giving a boolean byte, and conjunction and disjunction of
/// boolean bytes.
pub open spec fn int_binary(op: BinaryOpcode, a: Value, b: Value) -> Option<Value> {
    match (a, b) {
        (Value::I32(x), Value::I32(y)) => match op {
            BinaryOpcode::IAdd => Some(Value::I32(u32_specs::wrapping_add(x, y))),
            BinaryOpcode::ISub => Some(Value::I32(u32_specs::wrapping_sub(x, y))),
            BinaryOpcode::IMul => Some(Value::I32(u32_specs::wrapping_mul(x, y))),
            BinaryOpcode::ULt => Some(bool_value(x < y)),
            BinaryOpcode::UGt => Some(bool_value(x > y)),
            BinaryOpcode::IEq => Some(bool_value(x == y)),
            BinaryOpcode::INeq => Some(bool_value(x != y)),
            BinaryOpcode::SLt => Some(bool_value((x as i32) < (y as i32))),
            BinaryOpcode::SGt => Some(bool_value((x as i32) > (y as i32))),
            _ => None,
        },
        (Value::I64(x), Value::I64(y)) => match op {
            BinaryOpcode::IAdd => Some(Value::I64(u64_specs::wrapping_add(x, y))),
            BinaryOpcode::ISub => Some(Value::I64(u64_specs::wrapping_sub(x, y))),
            BinaryOpcode::IMul => Some(Value::I64(u64_specs::wrapping_mul(x, y))),
            BinaryOpcode::ULt => Some(bool_value(x < y)),
            BinaryOpcode::UGt => Some(bool_value(x > y)),
            BinaryOpcode::IEq => Some(bool_value(x == y)),
            BinaryOpcode::INeq => Some(bool_value(x != y)),
            BinaryOpcode::SLt => Some(bool_value((x as i64) < (y as i64))),
            BinaryOpcode::SGt => Some(bool_value((x as i64) > (y as i64))),
            _ => None,
        },
        (Value::Ptr(x), Value::Ptr(y)) => match op {
            BinaryOpcode::IAdd => Some(Value::Ptr(usize_specs::wrapping_add(x, y))),
            BinaryOpcode::ISub => Some(Value::Ptr(if x >= y { (x - y) as usize } else { 0 })),
            BinaryOpcode::IMul => Some(Value::Ptr(usize_specs::wrapping_mul(x, y))),
            BinaryOpcode::ULt => Some(bool_value(x < y)),
            BinaryOpcode::UGt => Some(bool_value(x > y)),
            BinaryOpcode::IEq => Some(bool_value(x == y)),
            BinaryOpcode::INeq => Some(bool_value(x != y)),
            _ => None,
        },
        (Value::I8(x), Value::I8(y)) => match op {
            BinaryOpcode::And => Some(bool_value(x != 0 && y != 0)),
            BinaryOpcode::Or => Some(bool_value(x != 0 || y != 0)),
            _ => None,
        },
        _ => None,
    }
}

/// Whether `op` is a floating point operation applied to two floats.
pub open spec fn float_binary(op: BinaryOpcode, a: Value, b: Value) -> bool {
    &&& a is F64
    &&& b is F64
    &&& match op {
        BinaryOpcode::FAdd | BinaryOpcode::FSub | BinaryOpcode::FMul | BinaryOpcode::FDiv | BinaryOpcode::FLt
        | BinaryOpcode::FLte | BinaryOpcode::FGt | BinaryOpcode::FGte | BinaryOpcode::FEq => true,
        _ => false,
    }
}

/// The frames after breaking out to sequence `target`: the frames inside it
/// are left, and so is the target itself unless it is a loop body, which is
/// re-entered from its start. `None` when no frame runs `target`.
pub open spec fn break_to(frames: Seq<Frame>, target: usize) -> Option<Seq<Frame>>
    decreases frames.len(),
{
    if frames.len() == 0 {
        None
    } else if frames.last().seq == target {
        if frames.last().is_loop {
            Some(frames.drop_last().push(Frame { pc: 0, ..frames.last() }))
        } else {
            Some(frames.drop_last())
        }
    } else {
        break_to(frames.drop_last(), target)
    }
}

/// The registers, the frames and the action after one step of a function
/// with instruction sequences `insns` and return registers `rets`.
pub open spec fn spec_step(
    insns: Seq<Seq<InsnKind>>,
    rets: Seq<Reg>,
    regs: Seq<Option<Value>>,
    frames: Seq<Frame>,
) -> (Seq<Option<Value>>, Seq<Frame>, ActionSpec) {
    let fault = (regs, frames, ActionSpec::Fault);
    if frames.len() == 0 {
        if all_set(regs, rets) {
            (regs, frames, ActionSpec::Return { values: reg_values(regs, rets) })
        } else {
            fault
        }
    } else if frames.last().seq >= insns.len() {
        fault
    } else if frames.last().pc >= insns[frames.last().seq as int].len() {
        (regs, frames.drop_last(), ActionSpec::Continue)
    } else {
        let top = frames.last();
        let adv = frames.update(frames.len() - 1, Frame { pc: (top.pc + 1) as usize, ..top });
        match insns[top.seq as int][top.pc as int] {
            InsnKind::SingleVal { out, insn } => {
                if out.0 >= regs.len() {
                    fault
                } else {
                    let write = |v: Value| (regs.update(out.0 as int, Some(v)), adv, ActionSpec::Continue);
                    match insn {
                        SingleValInsn::Const { val } => write(val),
                        SingleValInsn::UserFunctionPtr { function } => (
                            regs,
                            adv,
                            ActionSpec::FunctionPtr { function, out },
                        ),
                        SingleValInsn::DeriveField { offset, ptr } => match reg_value(regs, ptr) {
                            Some(Value::Ptr(a)) => write(Value::Ptr(usize_specs::wrapping_add(a, offset))),
                            _ => fault,
                        },
                        SingleValInsn::DeriveElement { element_size, ptr, index } => match (
                            reg_value(regs, ptr),
                            reg_value(regs, index),
                        ) {
                            (Some(Value::Ptr(a)), Some(Value::I32(i))) => write(
                                Value::Ptr(usize_specs::wrapping_add(a, usize_specs::wrapping_mul(element_size, i as usize))),
                            ),
                            _ => fault,
                        },
                        SingleValInsn::MemLoad { ty, offset, ptr } => match reg_value(regs, ptr) {
                            Some(Value::Ptr(a)) => (
                                regs,
                                adv,
                                ActionSpec::Load { ty, addr: usize_specs::wrapping_add(a, offset), out },
                            ),
                            _ => fault,
                        },
                        SingleValInsn::StackLoad { ty, offset } => (regs, adv, ActionSpec::StackLoad { ty, offset, out }),
                        SingleValInsn::StackAddr { offset } => (regs, adv, ActionSpec::StackAddr { offset, out }),
                        SingleValInsn::UnaryOp { op, operand } => match reg_value(regs, operand) {
                            Some(v) => match int_unary(op, v) {
                                Some(w) => write(w),
                                None => if op is FNeg && v is F64 {
                                    (regs, adv, ActionSpec::FloatUnary { op, operand: v, out })
                                } else {
                                    fault
                                },
                            },
                            None => fault,
                        },
                        SingleValInsn::BinaryOp { op, lhs, rhs } => match (reg_value(regs, lhs), reg_value(regs, rhs)) {
                            (Some(a), Some(b)) => match int_binary(op, a, b) {
                                Some(w) => write(w),
                                None => if float_binary(op, a, b) {
                                    (regs, adv, ActionSpec::FloatBinary { op, lhs: a, rhs: b, out })
                                } else {
                                    fault
                                },
                            },
                            _ => fault,
                        },
                    }
                }
            },
            InsnKind::MultiVal { out, insn } => {
                if !all_exist(regs, out@) {
                    fault
                } else {
                    match insn {
                        MultiValInsn::CallHostFunction { function, args } => if all_set(regs, args@) {
                            (
                                regs,
                                adv,
                                ActionSpec::Call {
                                    callee: Callee::Host(function),
                                    args: reg_values(regs, args@),
                                    outs: out@,
                                },
                            )
                        } else {
                            fault
                        },
                        MultiValInsn::CallUserFunction { function, args } => if all_set(regs, args@) {
                            (
                                regs,
                                adv,
                                ActionSpec::Call {
                                    callee: Callee::User(function),
                                    args: reg_values(regs, args@),
                                    outs: out@,
                                },
                            )
                        } else {
                            fault
                        },
                        MultiValInsn::CallIndirectFunction { function, args } => match reg_value(regs, function) {
                            Some(f) => if all_set(regs, args@) {
                                (
                                    regs,
                                    adv,
                                    ActionSpec::Call {
                                        callee: Callee::Indirect(f),
                                        args: reg_values(regs, args@),
                                        outs: out@,
                                    },
                                )
                            } else {
                                fault
                            },
                            None => fault,
                        },
                    }
                }
            },
            InsnKind::MemStore { ty, offset, ptr, value } => match (reg_value(regs, ptr), reg_value(regs, value)) {
                (Some(Value::Ptr(a)), Some(v)) => (
                    regs,
                    adv,
                    ActionSpec::Store { ty, addr: usize_specs::wrapping_add(a, offset), value: v },
                ),
                _ => fault,
            },
            InsnKind::StackStore { ty, offset, value } => match reg_value(regs, value) {
                Some(v) => (regs, adv, ActionSpec::StackStore { ty, offset, value: v }),
                None => fault,
            },
            InsnKind::Break { target } => match break_to(frames, target.0) {
                Some(f) => (regs, f, ActionSpec::Continue),
                None => fault,
            },
            InsnKind::ConditionalBreak { target, condition } => match reg_value(regs, condition) {
                Some(c) => match truth(c) {
                    Some(true) => match break_to(frames, target.0) {
                        Some(f) => (regs, f, ActionSpec::Continue),
                        None => fault,
                    },
                    Some(false) => (regs, adv, ActionSpec::Continue),
                    None => fault,
                },
                None => fault,
            },
            InsnKind::Block(b) => (regs, adv.push(Frame { seq: b.body.0, pc: 0, is_loop: false }), ActionSpec::Continue),
            InsnKind::IfElse(ie) => match reg_value(regs, ie.condition) {
                Some(c) => match truth(c) {
                    Some(t) => (
                        regs,
                        adv.push(
                            Frame { seq: if t { ie.then_body.0 } else { ie.else_body.0 }, pc: 0, is_loop: false },
                        ),
                        ActionSpec::Continue,
                    ),
                    None => fault,
                },
                None => fault,
            },
            InsnKind::Loop(l) => (regs, adv.push(Frame { seq: l.body.0, pc: 0, is_loop: true }), ActionSpec::Continue),
        }
    }
}

/// The instruction sequences of `f`.
pub open spec fn fn_insns(f: &Function) -> Seq<Seq<InsnKind>> {
    f.insn_seqs@.map_values(|s: Vec<InsnKind>| s@)
}

/// The value of register `r`, if it has one.
fn get_reg(regs: &Vec<Option<Value>>, r: Reg) -> (v: Option<Value>)
    ensures
        v == reg_value(regs@, r),
{
    if r.0 < regs.len() {
        regs[r.0]
    } else {
        None
    }
}

/// The values of the registers `rs`, if they all have one.
fn get_regs(regs: &Vec<Option<Value>>, rs: &Vec<Reg>) -> (v: Option<Vec<Value>>)
    ensures
        v is Some <==> all_set(regs@, rs@),
        v matches Some(vs) ==> vs@ == reg_values(regs@, rs@),
{
    let mut vs: Vec<Value> = Vec::new();
    let mut i: usize = 0;
    while i < rs.len()
        invariant
            i <= rs.len(),
            vs@.len() == i,
            forall|j: int| 0 <= j < i ==> (#[trigger] reg_value(regs@, rs@[j])) == Some(vs@[j]),
        decreases rs.len() - i,
    {
        match get_reg(regs, rs[i]) {
            Some(v) => vs.push(v),
            None => {
                assert(!all_set(regs@, rs@)) by {
                    assert(reg_value(regs@, rs@[i as int]) is None);
                }
                return None;
            },
        }
        i = i + 1;
    }
    assert(vs@ =~= reg_values(regs@, rs@));
    Some(vs)
}

/// Whether every register of `rs` exists.
fn regs_exist(regs: &Vec<Option<Value>>, rs: &Vec<Reg>) -> (b: bool)
    ensures
        b == all_exist(regs@, rs@),
{
    let mut i: usize = 0;
    while i < rs.len()
        invariant
            i <= rs.len(),
            forall|j: int| 0 <= j < i ==> (#[trigger] rs@[j]).0 < regs@.len(),
        decreases rs.len() - i,
    {
        if rs[i].0 >= regs.len() {
            return false;
        }
        i = i + 1;
    }
    true
}

/// Whether a condition value holds.
fn eval_truth(v: Value) -> (r: Option<bool>)
    ensures
        r == truth(v),
{
    match v {
        Value::I8(x) => Some(x != 0),
        Value::I32(x) => Some(x != 0),
        _ => None,
    }
}

/// A boolean as a byte.
fn bool_val(b: bool) -> (r: Value)
    ensures
        r == bool_value(b),
{
    Value::I8(if b { 1 } else { 0 })
}

/// The result of an integer unary operation.
fn eval_int_unary(op: UnaryOpcode, v: Value) -> (r: Option<Value>)
    ensures
        r == int_unary(op, v),
{
    match (op, v) {
        (UnaryOpcode::I64ToI32, Value::I64(x)) => Some(Value::I32(x as u32)),
        (UnaryOpcode::Not, Value::I8(x)) => Some(bool_val(x == 0)),
        _ => None,
    }
}

/// The result of an integer binary operation.
fn eval_int_binary(op: BinaryOpcode, a: Value, b: Value) -> (r: Option<Value>)
    ensures
        r == int_binary(op, a, b),
{
    match (a, b) {
        (Value::I32(x), Value::I32(y)) => match op {
            BinaryOpcode::IAdd => Some(Value::I32(x.wrapping_add(y))),
            BinaryOpcode::ISub => Some(Value::I32(x.wrapping_sub(y))),
            BinaryOpcode::IMul => Some(Value::I32(x.wrapping_mul(y))),
            BinaryOpcode::ULt => Some(bool_val(x < y)),
            BinaryOpcode::UGt => Some(bool_val(x > y)),
            BinaryOpcode::IEq => Some(bool_val(x == y)),
            BinaryOpcode::INeq => Some(bool_val(x != y)),
            BinaryOpcode::SLt => Some(bool_val((x as i32) < (y as i32))),
            BinaryOpcode::SGt => Some(bool_val((x as i32) > (y as i32))),
            _ => None,
        },
        (Value::I64(x), Value::I64(y)) => match op {
            BinaryOpcode::IAdd => Some(Value::I64(x.wrapping_add(y))),
            BinaryOpcode::ISub => Some(Value::I64(x.wrapping_sub(y))),
            BinaryOpcode::IMul => Some(Value::I64(x.wrapping_mul(y))),
            BinaryOpcode::ULt => Some(bool_val(x < y)),
            BinaryOpcode::UGt => Some(bool_val(x > y)),
            BinaryOpcode::IEq => Some(bool_val(x == y)),
            BinaryOpcode::INeq => Some(bool_val(x != y)),
            BinaryOpcode::SLt => Some(bool_val((x as i64) < (y as i64))),
            BinaryOpcode::SGt => Some(bool_val((x as i64) > (y as i64))),
            _ => None,
        },
        (Value::Ptr(x), Value::Ptr(y)) => match op {
            BinaryOpcode::IAdd => Some(Value::Ptr(x.wrapping_add(y))),
            BinaryOpcode::ISub => Some(Value::Ptr(if x >= y { x - y } else { 0 })),
            BinaryOpcode::IMul => Some(Value::Ptr(x.wrapping_mul(y))),
            BinaryOpcode::ULt => Some(bool_val(x < y)),
            BinaryOpcode::UGt => Some(bool_val(x > y)),
            BinaryOpcode::IEq => Some(bool_val(x == y)),
            BinaryOpcode::INeq => Some(bool_val(x != y)),
            _ => None,
        },
        (Value::I8(x), Value::I8(y)) => match op {
            BinaryOpcode::And => Some(bool_val(x != 0 && y != 0)),
            BinaryOpcode::Or => Some(bool_val(x != 0 || y != 0)),
            _ => None,
        },
        _ => None,
    }
}

/// Whether `op` is a floating point operation applied to two floats.
fn is_float_binary(op: BinaryOpcode, a: Value, b: Value) -> (r: bool)
    ensures
        r == float_binary(op, a, b),
{
    match (a, b) {
        (Value::F64(_), Value::F64(_)) => match op {
            BinaryOpcode::FAdd | BinaryOpcode::FSub | BinaryOpcode::FMul | BinaryOpcode::FDiv | BinaryOpcode::FLt
            | BinaryOpcode::FLte | BinaryOpcode::FGt | BinaryOpcode::FGte | BinaryOpcode::FEq => true,
            _ => false,
        },
        _ => false,
    }
}

/// Breaks out to sequence `target`; `false`, with the frames unchanged, when
/// no frame runs it.
fn break_frames(frames: &mut Vec<Frame>, target: usize) -> (r: bool)
    ensures
        r == break_to(old(frames)@, target) is Some,
        r ==> Some(final(frames)@) == break_to(old(frames)@, target),
        !r ==> final(frames)@ == old(frames)@,
{
    let ghost f0 = frames@;
    let mut n = frames.len();
    assert(f0.subrange(0, n as int) =~= f0);
    while n > 0
        invariant
            n <= f0.len(),
            frames@ == f0,
            f0 == old(frames)@,
            break_to(f0, target) == break_to(f0.subrange(0, n as int), target),
        decreases n,
    {
        let top = frames[n - 1];
        let ghost sub = f0.subrange(0, n as int);
        proof {
            assert(sub.drop_last() =~= f0.subrange(0, n - 1));
            assert(sub.last() == top);
            assert(break_to(sub, target) == if sub.last().seq == target {
                if sub.last().is_loop {
                    Some(sub.drop_last().push(Frame { pc: 0, ..sub.last() }))
                } else {
                    Some(sub.drop_last())
                }
            } else {
                break_to(sub.drop_last(), target)
            });
        }
        if top.seq == target {
            frames.truncate(n - 1);
            assert(frames@ =~= f0.subrange(0, n - 1));
            if top.is_loop {
                frames.push(Frame { pc: 0, ..top });
            }
            return true;
        }
        n = n - 1;
    }
    proof {
        assert(f0.subrange(0, 0) =~= Seq::<Frame>::empty());
    }
    false
}

/// Starts a call of `f` with arguments `args`, each written into its
/// parameter register; `None` when their number differs from the number of
/// parameters or a parameter register does not exist.
pub fn start(f: &Function, args: &Vec<Value>) -> (r: Option<InterpState>)
    ensures
        r is Some <==> (args@.len() == f.parameters@.len() && forall|i: int|
            0 <= i < f.parameters@.len() ==> (#[trigger] f.parameters@[i]).0 < f.registers@.len()),
        r matches Some(s) ==> {
            &&& s.frames@ == seq![Frame { seq: f.body.body.0, pc: 0, is_loop: false }]
            &&& s.regs@.len() == f.registers@.len()
            &&& forall|x: int|
                0 <= x < s.regs@.len() && !(exists|i: int|
                    0 <= i < f.parameters@.len() && #[trigger] f.parameters@[i].0 == x) ==> s.regs@[x] is None
            &&& distinct_regs(f.parameters@) ==> forall|i: int|
                0 <= i < f.parameters@.len() ==> #[trigger] reg_value(s.regs@, f.parameters@[i]) == Some(args@[i])
        },
{
    if args.len() != f.parameters.len() {
        return None;
    }
    let mut regs: Vec<Option<Value>> = Vec::new();
    let mut k: usize = 0;
    while k < f.registers.len()
        invariant
            k <= f.registers@.len(),
            regs@ == Seq::new(k as nat, |i: int| None::<Value>),
        decreases f.registers.len() - k,
    {
        regs.push(None);
        k = k + 1;
        assert(regs@ =~= Seq::new(k as nat, |i: int| None::<Value>));
    }
    let mut i: usize = 0;
    while i < f.parameters.len()
        invariant
            i <= f.parameters@.len(),
            args@.len() == f.parameters@.len(),
            regs@.len() == f.registers@.len(),
            forall|j: int| 0 <= j < i ==> (#[trigger] f.parameters@[j]).0 < f.registers@.len(),
            forall|x: int|
                0 <= x < regs@.len() && !(exists|j: int| 0 <= j < i && #[trigger] f.parameters@[j].0 == x)
                    ==> regs@[x] is None,
            distinct_regs(f.parameters@) ==> forall|j: int|
                0 <= j < i ==> #[trigger] reg_value(regs@, f.parameters@[j]) == Some(args@[j]),
        decreases f.parameters.len() - i,
    {
        let r = f.parameters[i];
        if r.0 >= regs.len() {
            return None;
        }
        let ghost before = regs@;
        regs.set(r.0, Some(args[i]));
        proof {
            assert forall|x: int|
                0 <= x < regs@.len() && !(exists|j: int| 0 <= j < i + 1 && #[trigger] f.parameters@[j].0 == x)
                    implies regs@[x] is None by {
                assert(f.parameters@[i as int].0 != x);
                if exists|j: int| 0 <= j < i && #[trigger] f.parameters@[j].0 == x {
                    let j = choose|j: int| 0 <= j < i && #[trigger] f.parameters@[j].0 == x;
                    assert(0 <= j < i + 1 && f.parameters@[j].0 == x);
                }
            }
            if distinct_regs(f.parameters@) {
                assert forall|j: int| 0 <= j < i + 1 implies #[trigger] reg_value(regs@, f.parameters@[j]) == Some(
                    args@[j],
                ) by {
                    if j < i {
                        assert(f.parameters@[j] != f.parameters@[i as int]);
                        assert(f.parameters@[j].0 != f.parameters@[i as int].0);
                        assert(reg_value(before, f.parameters@[j]) == Some(args@[j]));
                    }
                }
            }
        }
        i = i + 1;
    }
    Some(InterpState { regs, frames: vec![Frame { seq: f.body.body.0, pc: 0, is_loop: false }] })
}

/// No register occurs twice in `rs`.
pub open spec fn distinct_regs(rs: Seq<Reg>) -> bool {
    forall|i: int, j: int| 0 <= i < j < rs.len() ==> rs[i] != rs[j]
}

/// Writes `v` into register `r`, after the caller performed an action.
pub fn set_reg(state: &mut InterpState, r: Reg, v: Value)
    requires
        r.0 < old(state).regs@.len(),
    ensures
        final(state).regs@ == old(state).regs@.update(r.0 as int, Some(v)),
        final(state).frames@ == old(state).frames@,
{
    state.regs.set(r.0, Some(v));
}

/// Takes one step of a call of `f`: runs the next instruction, or leaves
/// the innermost sequence when it is finished, or returns when no sequence
/// is left. What the library cannot do itself it returns as an action, with
/// the state already past the instruction.
pub fn step(f: &Function, state: &mut InterpState) -> (a: Action)
    ensures
        (final(state).regs@, final(state).frames@, action_view(a)) == spec_step(
            fn_insns(f),
            f.return_values@,
            old(state).regs@,
            old(state).frames@,
        ),
{
    let nf = state.frames.len();
    if nf == 0 {
        return match get_regs(&state.regs, &f.return_values) {
            Some(values) => Action::Return { values },
            None => Action::Fault,
        };
    }
    let top = state.frames[nf - 1];
    if top.seq >= f.insn_seqs.len() {
        return Action::Fault;
    }
    let seq = &f.insn_seqs[top.seq];
    assert(fn_insns(f)[top.seq as int] == seq@);
    if top.pc >= seq.len() {
        state.frames.pop();
        return Action::Continue;
    }
    let insn = &seq[top.pc];
    let adv = Frame { pc: top.pc + 1, ..top };
    let ghost regs0 = state.regs@;
    let ghost frames0 = state.frames@;
    let ghost adv_frames = frames0.update(frames0.len() - 1, adv);
    match insn {
        InsnKind::SingleVal { out, insn } => {
            let out = *out;
            if out.0 >= state.regs.len() {
                return Action::Fault;
            }
            let value: Value = match insn {
                SingleValInsn::Const { val } => *val,
                SingleValInsn::UserFunctionPtr { function } => {
                    state.frames.set(nf - 1, adv);
                    return Action::FunctionPtr { function: *function, out };
                },
                SingleValInsn::DeriveField { offset, ptr } => match get_reg(&state.regs, *ptr) {
                    Some(Value::Ptr(a)) => Value::Ptr(a.wrapping_add(*offset)),
                    _ => {
                        return Action::Fault;
                    },
                },
                SingleValInsn::DeriveElement { element_size, ptr, index } => match (
                    get_reg(&state.regs, *ptr),
                    get_reg(&state.regs, *index),
                ) {
                    (Some(Value::Ptr(a)), Some(Value::I32(i))) => Value::Ptr(
                        a.wrapping_add(element_size.wrapping_mul(i as usize)),
                    ),
                    _ => {
                        return Action::Fault;
                    },
                },
                SingleValInsn::MemLoad { ty, offset, ptr } => match get_reg(&state.regs, *ptr) {
                    Some(Value::Ptr(a)) => {
                        state.frames.set(nf - 1, adv);
                        return Action::Load { ty: *ty, addr: a.wrapping_add(*offset), out };
                    },
                    _ => {
                        return Action::Fault;
                    },
                },
                SingleValInsn::StackLoad { ty, offset } => {
                    state.frames.set(nf - 1, adv);
                    return Action::StackLoad { ty: *ty, offset: *offset, out };
                },
                SingleValInsn::StackAddr { offset } => {
                    state.frames.set(nf - 1, adv);
                    return Action::StackAddr { offset: *offset, out };
                },
                SingleValInsn::UnaryOp { op, operand } => match get_reg(&state.regs, *operand) {
                    Some(v) => match eval_int_unary(*op, v) {
                        Some(w) => w,
                        None => {
                            if matches!(op, UnaryOpcode::FNeg) && matches!(v, Value::F64(_)) {
                                state.frames.set(nf - 1, adv);
                                return Action::FloatUnary { op: *op, operand: v, out };
                            }
                            return Action::Fault;
                        },
                    },
                    None => {
                        return Action::Fault;
                    },
                },
                SingleValInsn::BinaryOp { op, lhs, rhs } => match (
                    get_reg(&state.regs, *lhs),
                    get_reg(&state.regs, *rhs),
                ) {
                    (Some(x), Some(y)) => match eval_int_binary(*op, x, y) {
                        Some(w) => w,
                        None => {
                            if is_float_binary(*op, x, y) {
                                state.frames.set(nf - 1, adv);
                                return Action::FloatBinary { op: *op, lhs: x, rhs: y, out };
                            }
                            return Action::Fault;
                        },
                    },
                    _ => {
                        return Action::Fault;
                    },
                },
            };
            state.regs.set(out.0, Some(value));
            state.frames.set(nf - 1, adv);
            Action::Continue
        },
        InsnKind::MultiVal { out, insn } => {
            if !regs_exist(&state.regs, out) {
                return Action::Fault;
            }
            let (callee, args) = match insn {
                MultiValInsn::CallHostFunction { function, args } => (Callee::Host(*function), args),
                MultiValInsn::CallUserFunction { function, args } => (Callee::User(*function), args),
                MultiValInsn::CallIndirectFunction { function, args } => match get_reg(&state.regs, *function) {
                    Some(fp) => (Callee::Indirect(fp), args),
                    None => {
                        return Action::Fault;
                    },
                },
            };
            match get_regs(&state.regs, args) {
                Some(values) => {
                    state.frames.set(nf - 1, adv);
                    Action::Call { callee, args: values, outs: out.clone() }
                },
                None => Action::Fault,
            }
        },
        InsnKind::MemStore { ty, offset, ptr, value } => match (
            get_reg(&state.regs, *ptr),
            get_reg(&state.regs, *value),
        ) {
            (Some(Value::Ptr(a)), Some(v)) => {
                state.frames.set(nf - 1, adv);
                Action::Store { ty: *ty, addr: a.wrapping_add(*offset), value: v }
            },
            _ => Action::Fault,
        },
        InsnKind::StackStore { ty, offset, value } => match get_reg(&state.regs, *value) {
            Some(v) => {
                state.frames.set(nf - 1, adv);
                Action::StackStore { ty: *ty, offset: *offset, value: v }
            },
            None => Action::Fault,
        },
        InsnKind::Break { target } => {
            if break_frames(&mut state.frames, target.0) {
                Action::Continue
            } else {
                Action::Fault
            }
        },
        InsnKind::ConditionalBreak { target, condition } => match get_reg(&state.regs, *condition) {
            Some(c) => match eval_truth(c) {
                Some(true) => {
                    if break_frames(&mut state.frames, target.0) {
                        Action::Continue
                    } else {
                        Action::Fault
                    }
                },
                Some(false) => {
                    state.frames.set(nf - 1, adv);
                    Action::Continue
                },
                None => Action::Fault,
            },
            None => Action::Fault,
        },
        InsnKind::Block(b) => {
            state.frames.set(nf - 1, adv);
            state.frames.push(Frame { seq: b.body.0, pc: 0, is_loop: false });
            Action::Continue
        },
        InsnKind::IfElse(ie) => match get_reg(&state.regs, ie.condition) {
            Some(c) => match eval_truth(c) {
                Some(t) => {
                    state.frames.set(nf - 1, adv);
                    let body = if t {
                        ie.then_body.0
                    } else {
                        ie.else_body.0
                    };
                    state.frames.push(Frame { seq: body, pc: 0, is_loop: false });
                    Action::Continue
                },
                None => Action::Fault,
            },
            None => Action::Fault,
        },
        InsnKind::Loop(l) => {
            state.frames.set(nf - 1, adv);
            state.frames.push(Frame { seq: l.body.0, pc: 0, is_loop: true });
            Action::Continue
        },
    }
}

/// Breaking out of a block or an if-else branch continues after it: the
/// frames are those from before the block was entered.
pub proof fn law_break_leaves_block(frames: Seq<Frame>, body: usize, pc: usize)
    ensures
        break_to(frames.push(Frame { seq: body, pc, is_loop: false }), body) == Some(frames),
{
    assert(frames.push(Frame { seq: body, pc, is_loop: false }).drop_last() =~= frames);
}

/// Breaking out of a loop body re-enters it from its start.
pub proof fn law_break_reenters_loop(frames: Seq<Frame>, body: usize, pc: usize)
    ensures
        break_to(frames.push(Frame { seq: body, pc, is_loop: true }), body) == Some(
            frames.push(Frame { seq: body, pc: 0, is_loop: true }),
        ),
{
    assert(frames.push(Frame { seq: body, pc, is_loop: true }).drop_last() =~= frames);
}

/// Integer arithmetic on 32-bit values is arithmetic modulo 2^32: the sum
/// and the product are reduced, the difference `r` of `x` and `y` is the
/// value with `y + r == x` modulo 2^32, and comparisons give 1 exactly when
/// they hold (signed ones on the two's complement reading).
pub proof fn law_i32_arith(x: u32, y: u32)
    ensures
        int_binary(BinaryOpcode::IAdd, Value::I32(x), Value::I32(y)) matches Some(Value::I32(r)) && r as int == (x
            + y) % 0x1_0000_0000,
        int_binary(BinaryOpcode::ISub, Value::I32(x), Value::I32(y)) matches Some(Value::I32(r)) && (y + r)
            % 0x1_0000_0000 == x as int,
        int_binary(BinaryOpcode::IMul, Value::I32(x), Value::I32(y)) matches Some(Value::I32(r)) && r as int == (x
            * y) % 0x1_0000_0000,
        int_binary(BinaryOpcode::ULt, Value::I32(x), Value::I32(y)) == Some(Value::I8(if x < y { 1u8 } else { 0u8 })),
        int_binary(BinaryOpcode::UGt, Value::I32(x), Value::I32(y)) == Some(Value::I8(if x > y { 1u8 } else { 0u8 })),
        int_binary(BinaryOpcode::IEq, Value::I32(x), Value::I32(y)) == Some(Value::I8(if x == y { 1u8 } else { 0u8 })),
        int_binary(BinaryOpcode::INeq, Value::I32(x), Value::I32(y)) == Some(
            Value::I8(if x != y { 1u8 } else { 0u8 }),
        ),
        int_binary(BinaryOpcode::SLt, Value::I32(x), Value::I32(y)) == Some(
            Value::I8(if signed32(x) < signed32(y) { 1u8 } else { 0u8 }),
        ),
        int_binary(BinaryOpcode::SGt, Value::I32(x), Value::I32(y)) == Some(
            Value::I8(if signed32(x) > signed32(y) { 1u8 } else { 0u8 }),
        ),
{
    let m: int = 0x1_0000_0000;
    assert(((x as nat * y as nat) % (m as nat)) as int == (x * y) % m);
    assert(x as i32 == signed32(x)) by (bit_vector);
    assert(y as i32 == signed32(y)) by (bit_vector);
}

/// The value of a 32-bit word read as a two's complement integer.
pub open spec fn signed32(x: u32) -> int {
    if x < 0x8000_0000 {
        x as int
    } else {
        x - 0x1_0000_0000
    }
}

/// The value of a 64-bit word read as a two's complement integer.
pub open spec fn signed64(x: u64) -> int {
    if x < 0x8000_0000_0000_0000 {
        x as int
    } else {
        x - 0x1_0000_0000_0000_0000
    }
}

/// Integer arithmetic on 64-bit values is arithmetic modulo 2^64, as for
/// 32-bit values.
pub proof fn law_i64_arith(x: u64, y: u64)
    ensures
        int_binary(BinaryOpcode::IAdd, Value::I64(x), Value::I64(y)) matches Some(Value::I64(r)) && r as int == (x
            + y) % 0x1_0000_0000_0000_0000,
        int_binary(BinaryOpcode::ISub, Value::I64(x), Value::I64(y)) matches Some(Value::I64(r)) && (y + r)
            % 0x1_0000_0000_0000_0000 == x as int,
        int_binary(BinaryOpcode::IMul, Value::I64(x), Value::I64(y)) matches Some(Value::I64(r)) && r as int == (x
            * y) % 0x1_0000_0000_0000_0000,
        int_binary(BinaryOpcode::ULt, Value::I64(x), Value::I64(y)) == Some(Value::I8(if x < y { 1u8 } else { 0u8 })),
        int_binary(BinaryOpcode::UGt, Value::I64(x), Value::I64(y)) == Some(Value::I8(if x > y { 1u8 } else { 0u8 })),
        int_binary(BinaryOpcode::IEq, Value::I64(x), Value::I64(y)) == Some(Value::I8(if x == y { 1u8 } else { 0u8 })),
        int_binary(BinaryOpcode::INeq, Value::I64(x), Value::I64(y)) == Some(
            Value::I8(if x != y { 1u8 } else { 0u8 }),
        ),
        int_binary(BinaryOpcode::SLt, Value::I64(x), Value::I64(y)) == Some(
            Value::I8(if signed64(x) < signed64(y) { 1u8 } else { 0u8 }),
        ),
        int_binary(BinaryOpcode::SGt, Value::I64(x), Value::I64(y)) == Some(
            Value::I8(if signed64(x) > signed64(y) { 1u8 } else { 0u8 }),
        ),
{
    let m: int = 0x1_0000_0000_0000_0000;
    assert(((x as nat * y as nat) % (m as nat)) as int == (x * y) % m);
    assert(x as i64 == signed64(x)) by (bit_vector);
    assert(y as i64 == signed64(y)) by (bit_vector);
}

/// Pointer arithmetic: sums and products wrap around the address space, and
/// the difference of two pointers is `x - y`, or 0 when `y` is above `x`.
pub proof fn law_ptr_arith(x: usize, y: usize)
    ensures
        int_binary(BinaryOpcode::IAdd, Value::Ptr(x), Value::Ptr(y)) matches Some(Value::Ptr(r)) && r as int == (x
            + y) % (usize::MAX + 1),
        int_binary(BinaryOpcode::ISub, Value::Ptr(x), Value::Ptr(y)) == Some(
            Value::Ptr(if y <= x { (x - y) as usize } else { 0usize }),
        ),
        int_binary(BinaryOpcode::ULt, Value::Ptr(x), Value::Ptr(y)) == Some(Value::I8(if x < y { 1u8 } else { 0u8 })),
        int_binary(BinaryOpcode::IEq, Value::Ptr(x), Value::Ptr(y)) == Some(Value::I8(if x == y { 1u8 } else { 0u8 })),
        int_binary(BinaryOpcode::IMul, Value::Ptr(x), Value::Ptr(y)) matches Some(Value::Ptr(r)) && r as int == (x
            * y) % (usize::MAX + 1),
        int_binary(BinaryOpcode::UGt, Value::Ptr(x), Value::Ptr(y)) == Some(Value::I8(if x > y { 1u8 } else { 0u8 })),
        int_binary(BinaryOpcode::INeq, Value::Ptr(x), Value::Ptr(y)) == Some(
            Value::I8(if x != y { 1u8 } else { 0u8 }),
        ),
{
    let m = usize::MAX as int + 1;
    assert(((x as nat * y as nat) % (m as nat)) as int == (x * y) % m);
    if x + y > usize::MAX {
        assert((x + y) % m == x + y - m) by (nonlinear_arith)
            requires
                m <= x + y < 2 * m,
        ;
    } else {
        assert((x + y) % m == x + y) by (nonlinear_arith)
            requires
                0 <= x + y < m,
        ;
    }
}

/// Narrowing a 64-bit integer keeps its low 32 bits.
pub proof fn law_narrowing(x: u64)
    ensures
        int_unary(UnaryOpcode::I64ToI32, Value::I64(x)) matches Some(Value::I32(r)) && r as int == x
            % 0x1_0000_0000,
{
    assert(x as u32 == x % 0x1_0000_0000) by (bit_vector);
}

/// Conjunction and disjunction of boolean bytes, and negation.
pub proof fn law_bool_ops(x: u8, y: u8)
    ensures
        int_binary(BinaryOpcode::And, Value::I8(x), Value::I8(y)) == Some(
            Value::I8(if x != 0 && y != 0 { 1u8 } else { 0u8 }),
        ),
        int_binary(BinaryOpcode::Or, Value::I8(x), Value::I8(y)) == Some(
            Value::I8(if x != 0 || y != 0 { 1u8 } else { 0u8 }),
        ),
        int_unary(UnaryOpcode::Not, Value::I8(x)) == Some(Value::I8(if x == 0 { 1u8 } else { 0u8 })),
{
}

/// The interpreter agrees with the type rules: whenever it computes an
/// integer operation, the result has the type the type rules give the
/// operation on the operands' types.
pub proof fn law_int_binary_well_typed(op: BinaryOpcode, a: Value, b: Value)
    ensures
        int_binary(op, a, b) matches Some(w) ==> crate::lir::binary_op_output(
            op,
            crate::lir::value_type(a),
            crate::lir::value_type(b),
        ) == Some(crate::lir::value_type(w)),
        int_unary(UnaryOpcode::I64ToI32, a) matches Some(w) ==> crate::lir::unary_op_output(
            UnaryOpcode::I64ToI32,
            crate::lir::value_type(a),
        ) == Some(crate::lir::value_type(w)),
        int_unary(UnaryOpcode::Not, a) matches Some(w) ==> crate::lir::unary_op_output(
            UnaryOpcode::Not,
            crate::lir::value_type(a),
        ) == Some(crate::lir::value_type(w)),
{
}

/// A step on an integer operation writes its result into the output
/// register, leaves the other registers alone, and moves to the next
/// instruction.
pub proof fn law_step_binary(
    insns: Seq<Seq<InsnKind>>,
    rets: Seq<Reg>,
    regs: Seq<Option<Value>>,
    frames: Seq<Frame>,
    out: Reg,
    op: BinaryOpcode,
    lhs: Reg,
    rhs: Reg,
    a: Value,
    b: Value,
)
    requires
        frames.len() > 0,
        frames.last().seq < insns.len(),
        frames.last().pc < insns[frames.last().seq as int].len(),
        insns[frames.last().seq as int][frames.last().pc as int] == (InsnKind::SingleVal {
            out,
            insn: SingleValInsn::BinaryOp { op, lhs, rhs },
        }),
        insns[frames.last().seq as int].len() <= usize::MAX,
        out.0 < regs.len(),
        reg_value(regs, lhs) == Some(a),
        reg_value(regs, rhs) == Some(b),
        int_binary(op, a, b) is Some,
    ensures
        ({
            let (regs2, frames2, action) = spec_step(insns, rets, regs, frames);
            &&& action == ActionSpec::Continue
            &&& regs2.len() == regs.len()
            &&& regs2[out.0 as int] == int_binary(op, a, b)
            &&& forall|i: int| 0 <= i < regs.len() && i != out.0 ==> #[trigger] regs2[i] == regs[i]
            &&& frames2.len() == frames.len()
            &&& frames2.last().seq == frames.last().seq
            &&& frames2.last().pc == frames.last().pc + 1
            &&& frames2.drop_last() == frames.drop_last()
        }),
{
    let top = frames.last();
    let adv = frames.update(frames.len() - 1, Frame { pc: (top.pc + 1) as usize, ..top });
    assert(adv.drop_last() =~= frames.drop_last());
}

/// A store takes its address from its first operand and the value from its
/// second, in the order in which they are listed as its inputs for
/// stackification: the step on it asks to store the second operand's value
/// at the first operand's address plus the offset.
pub proof fn law_store_operand_order(
    insns: Seq<Seq<InsnKind>>,
    rets: Seq<Reg>,
    regs: Seq<Option<Value>>,
    frames: Seq<Frame>,
    ty: ValType,
    offset: usize,
    ptr: Reg,
    value: Reg,
    addr: usize,
    v: Value,
)
    requires
        frames.len() > 0,
        frames.last().seq < insns.len(),
        frames.last().pc < insns[frames.last().seq as int].len(),
        insns[frames.last().seq as int][frames.last().pc as int] == (InsnKind::MemStore { ty, offset, ptr, value }),
        reg_value(regs, ptr) == Some(Value::Ptr(addr)),
        reg_value(regs, value) == Some(v),
    ensures
        crate::stackify_lir::insn_reads(InsnKind::MemStore { ty, offset, ptr, value }) == seq![ptr, value],
        ({
            let (regs2, frames2, action) = spec_step(insns, rets, regs, frames);
            &&& regs2 == regs
            &&& action matches ActionSpec::Store { ty: t, addr: at, value: stored } && t == ty && stored == v
                && at as int == (addr + offset) % (usize::MAX + 1)
        }),
{
    let m = usize::MAX as int + 1;
    if addr + offset > usize::MAX {
        assert((addr + offset) % m == addr + offset - m) by (nonlinear_arith)
            requires
                m <= addr + offset < 2 * m,
        ;
    } else {
        assert((addr + offset) % m == addr + offset) by (nonlinear_arith)
            requires
                0 <= addr + offset < m,
        ;
    }
}

/// A call to a user function hands over its arguments in the order in which
/// they are listed, the same order in which they are its inputs for
/// stackification.
pub proof fn law_call_argument_order(
    insns: Seq<Seq<InsnKind>>,
    rets: Seq<Reg>,
    regs: Seq<Option<Value>>,
    frames: Seq<Frame>,
    out: Vec<Reg>,
    function: FunctionId,
    args: Vec<Reg>,
)
    requires
        frames.len() > 0,
        frames.last().seq < insns.len(),
        frames.last().pc < insns[frames.last().seq as int].len(),
        insns[frames.last().seq as int][frames.last().pc as int] == (InsnKind::MultiVal {
            out,
            insn: MultiValInsn::CallUserFunction { function, args },
        }),
        all_exist(regs, out@),
        all_set(regs, args@),
    ensures
        crate::stackify_lir::insn_reads(
            InsnKind::MultiVal { out, insn: MultiValInsn::CallUserFunction { function, args } },
        ) == args@,
        spec_step(insns, rets, regs, frames).2 == (ActionSpec::Call {
            callee: Callee::User(function),
            args: reg_values(regs, args@),
            outs: out@,
        }),
        forall|k: int|
            0 <= k < args.len() ==> Some(#[trigger] reg_values(regs, args@)[k]) == reg_value(regs, args@[k]),
{
}

/// Addressing an element reads the base pointer first and the index second,
/// the order of its inputs for stackification, and gives the base plus the
/// index times the element size, wrapping around the address space.
pub proof fn law_element_address(
    insns: Seq<Seq<InsnKind>>,
    rets: Seq<Reg>,
    regs: Seq<Option<Value>>,
    frames: Seq<Frame>,
    out: Reg,
    element_size: usize,
    ptr: Reg,
    index: Reg,
    a: usize,
    i: u32,
)
    requires
        frames.len() > 0,
        frames.last().seq < insns.len(),
        frames.last().pc < insns[frames.last().seq as int].len(),
        insns[frames.last().seq as int][frames.last().pc as int] == (InsnKind::SingleVal {
            out,
            insn: SingleValInsn::DeriveElement { element_size, ptr, index },
        }),
        out.0 < regs.len(),
        reg_value(regs, ptr) == Some(Value::Ptr(a)),
        reg_value(regs, index) == Some(Value::I32(i)),
    ensures
        crate::stackify_lir::insn_reads(
            InsnKind::SingleVal { out, insn: SingleValInsn::DeriveElement { element_size, ptr, index } },
        ) == seq![ptr, index],
        spec_step(insns, rets, regs, frames).0[out.0 as int] matches Some(Value::Ptr(r)) && r as int == (a + (
        element_size * i) % (usize::MAX + 1)) % (usize::MAX + 1),
{
    let m = usize::MAX as int + 1;
    let p = (element_size * i) % m;
    assert(0 <= p < m) by (nonlinear_arith)
        requires
            m > 0,
            p == (element_size * i) % m,
    ;
    assert(((element_size as nat * (i as usize) as nat) % (m as nat)) as int == p);
    if a + p > usize::MAX {
        assert((a + p) % m == a + p - m) by (nonlinear_arith)
            requires
                m <= a + p < 2 * m,
        ;
    } else {
        assert((a + p) % m == a + p) by (nonlinear_arith)
            requires
                0 <= a + p < m,
        ;
    }
}

/// A binary operation reads its left operand first and its right operand
/// second, in the order in which they are listed as its inputs for
/// stackification.
pub proof fn law_binary_operand_order(out: Reg, op: BinaryOpcode, lhs: Reg, rhs: Reg)
    ensures
        crate::stackify_lir::insn_reads(
            InsnKind::SingleVal { out, insn: SingleValInsn::BinaryOp { op, lhs, rhs } },
        ) == seq![lhs, rhs],
{
}

} // verus!
