//! Stackification of the instruction sequences of a LIR function: each
//! instruction is described by the values it consumes and produces, and the
//! sequence is stackified one instruction after another.

use vstd::prelude::*;
use std::collections::HashMap;
use std::hash::RandomState;
use vstd::std_specs::hash::obeys_key_model;
use crate::lir::{Function, InsnKind, MultiValInsn, Reg, SingleValInsn};
use crate::row_buffer::vec_cell_mut;
use vstd::laws_eq::obeys_concrete_eq;
use vstd::std_specs::cmp::PartialEqSpec;
use crate::stackify_generic::{
    AvailOperand, InsnSeqStackification, ManipsView, StackManipulators, birthdate, captures_fit, inputs_born,
    manips_view, op_stack_before, opt_le, remove_excess_operands, remove_excess_spec, single_getters,
    single_manips, single_op_stack, stackify_single,
};

verus! {

/// A value an instruction consumes or produces.
#[derive(Debug, PartialEq, Eq, Clone, Copy, Hash, Structural)]
pub enum Val {
    Reg {
        /// The register whose value we want to use.
        reg: Reg,
        /// A monotonically increasing index that differentiates between
        /// different values of the same register if the register was
        /// modified.
        nonce: u32,
    },
    /// The stack pointer of the current function. This cannot change.
    StackPtr,
}

// ---------------------------------------------------------------------------
// the values held by registers
// ---------------------------------------------------------------------------

/// The nonce the next value of register `r` gets: one more than its current
/// one, or 0 if it was never set.
pub open spec fn next_nonce(m: Map<usize, u32>, r: Reg) -> u32 {
    if m.contains_key(r.0) {
        (m[r.0] + 1) as u32
    } else {
        0
    }
}

/// Whether register `r` can be set again without its nonce overflowing.
pub open spec fn can_set(m: Map<usize, u32>, r: Reg) -> bool {
    m.contains_key(r.0) ==> m[r.0] < u32::MAX
}

/// The current value of register `r`.
pub open spec fn reg_val(m: Map<usize, u32>, r: Reg) -> Val {
    Val::Reg { reg: r, nonce: m[r.0] }
}

/// The nonces after the registers `regs` are set, one after another.
pub open spec fn set_all(m: Map<usize, u32>, regs: Seq<Reg>) -> Map<usize, u32>
    decreases regs.len(),
{
    if regs.len() == 0 {
        m
    } else {
        let prev = set_all(m, regs.drop_last());
        prev.insert(regs.last().0, next_nonce(prev, regs.last()))
    }
}

/// Tracks the current value of every register.
pub struct ValTracker {
    /// Maps each register (by its index) to the nonce of the last value of
    /// the register that was set. If a register does not exist in this map,
    /// its value was never set.
    current_reg_nonces: HashMap<usize, u32>,
}

impl ValTracker {
    /// The nonce of the current value of each register that was set.
    pub closed spec fn nonces(&self) -> Map<usize, u32> {
        self.current_reg_nonces@
    }

    /// A tracker in which no register was set.
    pub fn new() -> (r: Self)
        ensures
            r.nonces() == Map::<usize, u32>::empty(),
    {
        proof {
            broadcast use vstd::std_specs::hash::group_hash_axioms;
        }
        ValTracker { current_reg_nonces: HashMap::new() }
    }

    /// Sets register `reg` to a new value, and returns that value.
    pub fn set_reg(&mut self, reg: Reg) -> (r: Val)
        requires
            can_set(old(self).nonces(), reg),
        ensures
            r == (Val::Reg { reg, nonce: next_nonce(old(self).nonces(), reg) }),
            final(self).nonces() == old(self).nonces().insert(reg.0, next_nonce(old(self).nonces(), reg)),
    {
        proof {
            broadcast use vstd::std_specs::hash::group_hash_axioms;
        }
        let nonce = match self.current_reg_nonces.get(&reg.0) {
            Some(n) => *n + 1,
            None => 0,
        };
        self.current_reg_nonces.insert(reg.0, nonce);
        Val::Reg { reg, nonce }
    }

    /// The current value of register `reg`, which must have been set.
    pub fn get_reg(&self, reg: Reg) -> (r: Val)
        requires
            self.nonces().contains_key(reg.0),
        ensures
            r == reg_val(self.nonces(), reg),
    {
        proof {
            broadcast use vstd::std_specs::hash::group_hash_axioms;
        }
        let nonce = *self.current_reg_nonces.get(&reg.0).unwrap();
        Val::Reg { reg, nonce }
    }
}

// ---------------------------------------------------------------------------
// what an instruction consumes and produces
// ---------------------------------------------------------------------------

/// The registers an instruction reads, in argument order.
pub open spec fn insn_reads(insn: InsnKind) -> Seq<Reg> {
    match insn {
        InsnKind::SingleVal { out, insn } => match insn {
            SingleValInsn::DeriveField { ptr, .. } => seq![ptr],
            SingleValInsn::DeriveElement { ptr, index, .. } => seq![ptr, index],
            SingleValInsn::MemLoad { ptr, .. } => seq![ptr],
            SingleValInsn::UnaryOp { operand, .. } => seq![operand],
            SingleValInsn::BinaryOp { lhs, rhs, .. } => seq![lhs, rhs],
            _ => Seq::empty(),
        },
        InsnKind::MultiVal { out, insn } => match insn {
            MultiValInsn::CallHostFunction { args, .. } => args@,
            MultiValInsn::CallUserFunction { args, .. } => args@,
            MultiValInsn::CallIndirectFunction { args, .. } => args@,
        },
        InsnKind::MemStore { ptr, value, .. } => seq![ptr, value],
        InsnKind::StackStore { value, .. } => seq![value],
        InsnKind::ConditionalBreak { condition, .. } => seq![condition],
        _ => Seq::empty(),
    }
}

/// The registers an instruction sets, in order.
pub open spec fn insn_sets(insn: InsnKind) -> Seq<Reg> {
    match insn {
        InsnKind::SingleVal { out, .. } => seq![out],
        InsnKind::MultiVal { out, .. } => out@,
        _ => Seq::empty(),
    }
}

/// The values an instruction consumes, given the current nonces.
pub open spec fn insn_inputs(m: Map<usize, u32>, insn: InsnKind) -> Seq<Val> {
    let regs = insn_reads(insn).map_values(|r: Reg| reg_val(m, r));
    match insn {
        InsnKind::StackStore { .. } => seq![Val::StackPtr] + regs,
        _ => regs,
    }
}

/// The values produced by setting the registers `regs` one after another.
pub open spec fn set_vals(m: Map<usize, u32>, regs: Seq<Reg>) -> Seq<Val> {
    Seq::new(regs.len(), |k: int| Val::Reg { reg: regs[k], nonce: next_nonce(set_all(m, regs.take(k)), regs[k]) })
}

/// The values an instruction produces, given the current nonces.
pub open spec fn insn_outputs(m: Map<usize, u32>, insn: InsnKind) -> Seq<Val> {
    set_vals(m, insn_sets(insn))
}

/// Whether the registers `regs` can be set one after another.
pub open spec fn can_set_all(m: Map<usize, u32>, regs: Seq<Reg>) -> bool {
    forall|k: int| 0 <= k < regs.len() ==> can_set(set_all(m, regs.take(k)), #[trigger] regs[k])
}

/// Whether an instruction can be described: every register it reads was set
/// before, and no register it sets runs out of nonces.
pub open spec fn insn_ok(m: Map<usize, u32>, insn: InsnKind) -> bool {
    &&& forall|k: int| 0 <= k < insn_reads(insn).len() ==> m.contains_key(#[trigger] insn_reads(insn)[k].0)
    &&& can_set_all(m, insn_sets(insn))
}

/// Setting one more register extends the nonces by that register.
proof fn lemma_set_all_step(m: Map<usize, u32>, regs: Seq<Reg>, k: int)
    requires
        0 <= k < regs.len(),
    ensures
        ({
            let p = set_all(m, regs.take(k));
            set_all(m, regs.take(k + 1)) == p.insert(regs[k].0, next_nonce(p, regs[k]))
        }),
{
    assert(regs.take(k + 1).drop_last() =~= regs.take(k));
    assert(regs.take(k + 1).last() == regs[k]);
}

/// Sets the registers `regs` one after another, returning their new values.
fn set_regs(v: &mut ValTracker, regs: &Vec<Reg>) -> (r: Vec<Val>)
    requires
        can_set_all(old(v).nonces(), regs@),
    ensures
        r@ == set_vals(old(v).nonces(), regs@),
        final(v).nonces() == set_all(old(v).nonces(), regs@),
{
    let ghost m0 = v.nonces();
    let mut out: Vec<Val> = Vec::new();
    let mut k: usize = 0;
    while k < regs.len()
        invariant
            k <= regs.len(),
            can_set_all(m0, regs@),
            v.nonces() == set_all(m0, regs@.take(k as int)),
            out@.len() == k,
            forall|j: int| 0 <= j < k ==> #[trigger] out@[j] == set_vals(m0, regs@)[j],
        decreases regs.len() - k,
    {
        proof {
            lemma_set_all_step(m0, regs@, k as int);
            assert(can_set(set_all(m0, regs@.take(k as int)), regs@[k as int]));
        }
        let val = v.set_reg(regs[k]);
        out.push(val);
        k = k + 1;
    }
    proof {
        assert(regs@.take(regs.len() as int) =~= regs@);
        assert(out@ =~= set_vals(m0, regs@));
    }
    out
}

/// The current values of the registers `regs`, which must all have been set.
fn get_regs(v: &ValTracker, regs: &Vec<Reg>) -> (r: Vec<Val>)
    requires
        forall|k: int| 0 <= k < regs.len() ==> v.nonces().contains_key(#[trigger] regs@[k].0),
    ensures
        r@ == regs@.map_values(|reg: Reg| reg_val(v.nonces(), reg)),
{
    let mut out: Vec<Val> = Vec::new();
    let mut k: usize = 0;
    while k < regs.len()
        invariant
            k <= regs.len(),
            forall|j: int| 0 <= j < regs.len() ==> v.nonces().contains_key(#[trigger] regs@[j].0),
            out@ =~= regs@.map_values(|reg: Reg| reg_val(v.nonces(), reg)).take(k as int),
        decreases regs.len() - k,
    {
        out.push(v.get_reg(regs[k]));
        k = k + 1;
    }
    out
}

/// The values an instruction consumes and produces; the registers it sets
/// get new values in `v`.
fn to_inputs_and_outputs(v: &mut ValTracker, insn: &InsnKind) -> (r: (Vec<Val>, Vec<Val>))
    requires
        insn_ok(old(v).nonces(), *insn),
    ensures
        r.0@ == insn_inputs(old(v).nonces(), *insn),
        r.1@ == insn_outputs(old(v).nonces(), *insn),
        final(v).nonces() == set_all(old(v).nonces(), insn_sets(*insn)),
{
    let ghost m = v.nonces();
    proof {
        reveal_with_fuel(set_all, 2);
    }
    match insn {
        InsnKind::SingleVal { out, insn: single } => {
            proof {
                let reads = insn_reads(*insn);
                if reads.len() > 0 {
                    assert(m.contains_key(reads[0].0));
                }
                if reads.len() > 1 {
                    assert(m.contains_key(reads[1].0));
                }
                assert(insn_sets(*insn)[0] == *out);
                assert(insn_sets(*insn).take(0) =~= Seq::<Reg>::empty());
            }
            let inputs = match single {
                SingleValInsn::Const { .. } => vec![],
                SingleValInsn::DeriveField { ptr, .. } => vec![v.get_reg(*ptr)],
                SingleValInsn::DeriveElement { ptr, index, .. } => vec![v.get_reg(*ptr), v.get_reg(*index)],
                SingleValInsn::UserFunctionPtr { .. } => vec![],
                SingleValInsn::MemLoad { ptr, .. } => vec![v.get_reg(*ptr)],
                SingleValInsn::StackLoad { .. } => vec![],
                SingleValInsn::StackAddr { .. } => vec![],
                SingleValInsn::UnaryOp { operand, .. } => vec![v.get_reg(*operand)],
                SingleValInsn::BinaryOp { lhs, rhs, .. } => vec![v.get_reg(*lhs), v.get_reg(*rhs)],
            };
            proof {
                assert(seq![*out].take(0) =~= Seq::<Reg>::empty());
                assert(seq![*out].drop_last() =~= Seq::<Reg>::empty());
            }
            let output = v.set_reg(*out);
            proof {
                assert(inputs@ =~= insn_inputs(m, *insn));
                assert(seq![output] =~= insn_outputs(m, *insn));
            }
            (inputs, vec![output])
        },
        InsnKind::MultiVal { out, insn: multi } => {
            let inputs = match multi {
                MultiValInsn::CallHostFunction { args, .. } => {
                    proof {
                        assert(insn_reads(*insn) == args@);
                    }
                    get_regs(v, args)
                },
                MultiValInsn::CallUserFunction { args, .. } => {
                    proof {
                        assert(insn_reads(*insn) == args@);
                    }
                    get_regs(v, args)
                },
                MultiValInsn::CallIndirectFunction { args, .. } => {
                    proof {
                        assert(insn_reads(*insn) == args@);
                    }
                    get_regs(v, args)
                },
            };
            let outputs = set_regs(v, out);
            (inputs, outputs)
        },
        InsnKind::MemStore { ptr, value, .. } => {
            proof {
                assert(m.contains_key(insn_reads(*insn)[0].0));
            }
            proof {
                assert(m.contains_key(insn_reads(*insn)[1].0));
            }
            let inputs = vec![v.get_reg(*ptr), v.get_reg(*value)];
            proof {
                assert(inputs@ =~= insn_inputs(m, *insn));
                assert(Seq::<Val>::empty() =~= insn_outputs(m, *insn));
            }
            (inputs, vec![])
        },
        InsnKind::StackStore { value, .. } => {
            proof {
                assert(m.contains_key(insn_reads(*insn)[0].0));
            }
            let inputs = vec![Val::StackPtr, v.get_reg(*value)];
            proof {
                assert(inputs@ =~= insn_inputs(m, *insn));
                assert(Seq::<Val>::empty() =~= insn_outputs(m, *insn));
            }
            (inputs, vec![])
        },
        InsnKind::Break { .. } => {
            proof {
                assert(Seq::<Val>::empty() =~= insn_inputs(m, *insn));
                assert(Seq::<Val>::empty() =~= insn_outputs(m, *insn));
            }
            (vec![], vec![])
        },
        InsnKind::ConditionalBreak { condition, .. } => {
            proof {
                assert(m.contains_key(insn_reads(*insn)[0].0));
            }
            let inputs = vec![v.get_reg(*condition)];
            proof {
                assert(inputs@ =~= insn_inputs(m, *insn));
                assert(Seq::<Val>::empty() =~= insn_outputs(m, *insn));
            }
            (inputs, vec![])
        },
        // control flow instructions are stackified as instructions without
        // inputs or outputs; their bodies are sequences of their own
        _ => {
            proof {
                assert(Seq::<Val>::empty() =~= insn_inputs(m, *insn));
                assert(Seq::<Val>::empty() =~= insn_outputs(m, *insn));
            }
            (vec![], vec![])
        },
    }
}

// ---------------------------------------------------------------------------
// stackifying a sequence
// ---------------------------------------------------------------------------

/// The state of the stackification of a sequence after some of its
/// instructions.
pub ghost struct SeqState {
    pub op: Seq<AvailOperand<Val>>,
    pub ag: Map<Val, usize>,
    pub manips: Seq<ManipsView<Val>>,
    pub nonces: Map<usize, u32>,
}

/// `n` manipulators that do nothing.
pub open spec fn empty_manips(n: nat) -> Seq<ManipsView<Val>> {
    Seq::new(n, |i: int| ManipsView { captures: 0, getters: Seq::empty(), inputs: Seq::empty(), outputs: Seq::empty() })
}

/// Stackifies instruction `insn` at idx `k`.
pub open spec fn seq_step(s: SeqState, k: int, insn: InsnKind) -> SeqState {
    let inputs = insn_inputs(s.nonces, insn);
    let outputs = insn_outputs(s.nonces, insn);
    SeqState {
        op: single_op_stack(s.op, s.ag, k as usize, inputs, outputs),
        ag: single_getters(s.ag, k as usize, outputs),
        manips: single_manips(s.op, s.ag, s.manips, k as usize, inputs, outputs),
        nonces: set_all(s.nonces, insn_sets(insn)),
    }
}

/// The state after the first `k` instructions of `insns`, starting from the
/// register nonces `m0`.
pub open spec fn seq_prefix(m0: Map<usize, u32>, insns: Seq<InsnKind>, k: nat) -> SeqState
    decreases k,
{
    if k == 0 {
        SeqState { op: Seq::empty(), ag: Map::empty(), manips: empty_manips(insns.len() + 1), nonces: m0 }
    } else {
        seq_step(seq_prefix(m0, insns, (k - 1) as nat), k - 1, insns[k - 1])
    }
}

/// The operands left on the stack, none of them required.
pub open spec fn unreleased(op: Seq<AvailOperand<Val>>) -> Seq<(AvailOperand<Val>, bool)> {
    op.map_values(|o: AvailOperand<Val>| (o, false))
}

/// The manipulators of the sequence `insns`: every instruction stackified in
/// turn, then the operands left over removed at the end of the sequence.
pub open spec fn seq_manips(m0: Map<usize, u32>, insns: Seq<InsnKind>) -> Seq<ManipsView<Val>> {
    let s = seq_prefix(m0, insns, insns.len());
    remove_excess_spec(s.manips, unreleased(s.op), insns.len() as int)
}

/// The number of values the instructions `insns` produce.
pub open spec fn total_outputs(insns: Seq<InsnKind>) -> nat
    decreases insns.len(),
{
    if insns.len() == 0 {
        0
    } else {
        total_outputs(insns.drop_last()) + insn_sets(insns.last()).len()
    }
}

/// Whether the sequence `insns` can be stackified starting from the register
/// nonces `m0`: every instruction can be described, and the counts of
/// operands and captures fit in a `usize`.
pub open spec fn seq_ok(m0: Map<usize, u32>, insns: Seq<InsnKind>) -> bool {
    &&& forall|k: int| 0 <= k < insns.len() ==> insn_ok(seq_prefix(m0, insns, k as nat).nonces, #[trigger] insns[k])
    &&& insns.len() < usize::MAX
    &&& (insns.len() + 1) * total_outputs(insns) <= usize::MAX
}

proof fn lemma_total_outputs_prefix(insns: Seq<InsnKind>, k: int)
    requires
        0 <= k <= insns.len(),
    ensures
        total_outputs(insns.take(k)) <= total_outputs(insns),
        k < insns.len() ==> total_outputs(insns.take(k + 1)) == total_outputs(insns.take(k)) + insn_sets(
            insns[k],
        ).len(),
    decreases insns.len() - k,
{
    if k < insns.len() {
        assert(insns.take(k + 1).drop_last() =~= insns.take(k));
        lemma_total_outputs_prefix(insns, k + 1);
    } else {
        assert(insns.take(k) =~= insns);
    }
}

/// The stackification of one instruction sequence; the registers it sets get
/// new values in `vals`.
fn stackify_insn_seq(insn_seq: &Vec<InsnKind>, vals: &mut ValTracker) -> (r: InsnSeqStackification<Val>)
    requires
        obeys_key_model::<Val>(),
        vstd::laws_eq::obeys_concrete_eq::<Val>(),
        seq_ok(old(vals).nonces(), insn_seq@),
    ensures
        r.inputs@ == Seq::<Val>::empty(),
        manips_view(r.manips@) == seq_manips(old(vals).nonces(), insn_seq@),
        final(vals).nonces() == seq_prefix(old(vals).nonces(), insn_seq@, insn_seq.len() as nat).nonces,
{
    proof {
        broadcast use vstd::std_specs::hash::group_hash_axioms;
    }
    let ghost m0 = vals.nonces();
    let ghost insns = insn_seq@;
    let ghost total = total_outputs(insns);
    let n = insn_seq.len();
    // start the sequence with a fresh operand stack and no manipulators
    let mut op_stack: Vec<AvailOperand<Val>> = Vec::new();
    let mut getters: HashMap<Val, usize> = HashMap::new();
    let mut manips: Vec<StackManipulators<Val>> = Vec::new();
    let mut i: usize = 0;
    while i <= n
        invariant
            i <= n + 1,
            n < usize::MAX,
            manips.len() == i,
            manips_view(manips@) =~= empty_manips((n + 1) as nat).take(i as int),
            forall|j: int| 0 <= j < manips.len() ==> #[trigger] manips@[j].captures == 0,
        decreases n + 1 - i,
    {
        let ghost prev = manips@;
        let blank = StackManipulators { captures: 0, getters: vec![], inputs: vec![], outputs: vec![] };
        proof {
            assert(blank@ == empty_manips((n + 1) as nat)[i as int]);
        }
        manips.push(blank);
        proof {
            assert(manips@ == prev.push(blank));
            assert forall|j: int| 0 <= j <= i implies #[trigger] manips_view(manips@)[j] == empty_manips(
                (n + 1) as nat,
            )[j] by {
                if j < i {
                    assert(manips@[j] == prev[j]);
                    assert(manips_view(prev)[j] == empty_manips((n + 1) as nat).take(i as int)[j]);
                } else {
                    assert(manips@[j] == blank);
                }
            }
        }
        i = i + 1;
    }
    proof {
        assert(getters@ =~= Map::<Val, usize>::empty());
    }
    let mut k: usize = 0;
    while k < n
        invariant
            k <= n,
            n == insns.len(),
            insns == insn_seq@,
            seq_ok(m0, insns),
            total == total_outputs(insns),
            obeys_key_model::<Val>(),
            vstd::laws_eq::obeys_concrete_eq::<Val>(),
            vstd::std_specs::hash::builds_valid_hashers::<RandomState>(),
            ({
                let s = seq_prefix(m0, insns, k as nat);
                &&& op_stack@ == s.op
                &&& getters@ == s.ag
                &&& manips_view(manips@) == s.manips
                &&& vals.nonces() == s.nonces
            }),
            manips.len() == n + 1,
            op_stack_before(op_stack@, k),
            forall|v: Val| getters@.contains_key(v) ==> #[trigger] getters@[v] <= k,
            op_stack.len() <= total_outputs(insns.take(k as int)),
            forall|j: int| 0 <= j < manips.len() ==> #[trigger] manips@[j].captures <= k * total,
        decreases n - k,
    {
        let ghost s = seq_prefix(m0, insns, k as nat);
        proof {
            assert(insn_ok(seq_prefix(m0, insns, k as nat).nonces, insns[k as int]));
            assert(s.nonces == vals.nonces());
            lemma_total_outputs_prefix(insns, k as int);
        }
        let (inputs, outputs) = to_inputs_and_outputs(vals, &insn_seq[k]);
        proof {
            assert forall|j: int| 0 <= j < inputs.len() implies opt_le(
                #[trigger] birthdate(getters@, inputs@[j]),
                Some(k),
            ) by {}
            assert(inputs_born(getters@, inputs@, k));
            assert((k + 1) * total == k * total + total) by (nonlinear_arith);
            assert((k + 1) * total <= (n + 1) * total) by (nonlinear_arith)
                requires
                    k + 1 <= n + 1,
            ;
            assert(captures_fit(manips@, op_stack.len() as nat));
        }
        let ghost before_manips = manips@;
        let ghost out_len = outputs.len();
        stackify_single(&mut op_stack, &mut getters, &mut manips, k, inputs, outputs);
        proof {
            assert(out_len == insn_sets(insns[k as int]).len());
            assert forall|v: Val| getters@.contains_key(v) implies #[trigger] getters@[v] <= k + 1 by {}
            assert forall|j: int| 0 <= j < manips.len() implies #[trigger] manips@[j].captures <= (k + 1) * total by {
                assert(before_manips[j].captures <= k * total);
            }
        }
        k = k + 1;
    }
    // any excess operands on the stack should be eliminated
    let ghost s = seq_prefix(m0, insns, n as nat);
    let mut excess: Vec<(AvailOperand<Val>, bool)> = Vec::new();
    let mut j: usize = 0;
    while j < op_stack.len()
        invariant
            j <= op_stack.len(),
            excess@ =~= unreleased(op_stack@).take(j as int),
        decreases op_stack.len() - j,
    {
        excess.push((op_stack[j], false));
        j = j + 1;
    }
    proof {
        assert(excess@ =~= unreleased(op_stack@));
        lemma_total_outputs_prefix(insns, n as int);
        assert((n as int) * total + total == (n + 1) * total) by (nonlinear_arith);
        assert(captures_fit(manips@, excess.len() as nat));
    }
    remove_excess_operands(excess, &mut manips, n);
    InsnSeqStackification { inputs: vec![], manips }
}

// ---------------------------------------------------------------------------
// stackifying a function
// ---------------------------------------------------------------------------

/// The stackification of every instruction sequence of a function.
#[derive(Debug, PartialEq, Eq)]
pub struct CfgStackification {
    /// The manipulators to be injected into each instruction sequence (by its
    /// id) to get proper stack machine execution.
    pub seqs: Vec<InsnSeqStackification<Val>>,
}

/// The instruction sequences of a function, by id.
pub open spec fn seqs_of(function: &Function) -> Seq<Seq<InsnKind>> {
    function.insn_seqs@.map_values(|s: Vec<InsnKind>| s@)
}

/// The register nonces after the first `k` sequences of `seqs` were
/// stackified, one after another.
pub open spec fn cfg_nonces(seqs: Seq<Seq<InsnKind>>, k: nat) -> Map<usize, u32>
    decreases k,
{
    if k == 0 {
        Map::empty()
    } else {
        let m = cfg_nonces(seqs, (k - 1) as nat);
        seq_prefix(m, seqs[k - 1], seqs[k - 1].len()).nonces
    }
}

/// Whether every sequence of `seqs` can be stackified in turn.
pub open spec fn cfg_ok(seqs: Seq<Seq<InsnKind>>) -> bool {
    forall|k: int| 0 <= k < seqs.len() ==> seq_ok(cfg_nonces(seqs, k as nat), #[trigger] seqs[k])
}

/// Stackifies every instruction sequence of `function`, in the order of their
/// ids. Every register must be set before it is read, in that order.
pub fn stackify_cfg(function: &Function) -> (r: CfgStackification)
    requires
        obeys_key_model::<Val>(),
        vstd::laws_eq::obeys_concrete_eq::<Val>(),
        cfg_ok(seqs_of(function)),
    ensures
        r.seqs.len() == function.insn_seqs.len(),
        forall|k: int|
            0 <= k < r.seqs.len() ==> {
                &&& (#[trigger] r.seqs@[k]).inputs@ == Seq::<Val>::empty()
                &&& manips_view(r.seqs@[k].manips@) == seq_manips(
                    cfg_nonces(seqs_of(function), k as nat),
                    seqs_of(function)[k],
                )
            },
{
    let ghost seqs = seqs_of(function);
    let mut vals = ValTracker::new();
    let mut result = CfgStackification { seqs: Vec::new() };
    let mut k: usize = 0;
    while k < function.insn_seqs.len()
        invariant
            k <= function.insn_seqs.len(),
            seqs == seqs_of(function),
            cfg_ok(seqs),
            obeys_key_model::<Val>(),
            vstd::laws_eq::obeys_concrete_eq::<Val>(),
            vals.nonces() == cfg_nonces(seqs, k as nat),
            result.seqs.len() == k,
            forall|j: int|
                0 <= j < k ==> {
                    &&& (#[trigger] result.seqs@[j]).inputs@ == Seq::<Val>::empty()
                    &&& manips_view(result.seqs@[j].manips@) == seq_manips(cfg_nonces(seqs, j as nat), seqs[j])
                },
        decreases function.insn_seqs.len() - k,
    {
        proof {
            assert(seqs[k as int] == function.insn_seqs@[k as int]@);
            assert(seq_ok(cfg_nonces(seqs, k as nat), seqs[k as int]));
        }
        let stackification = stackify_insn_seq(&function.insn_seqs[k], &mut vals);
        let ghost prev = result.seqs@;
        result.seqs.push(stackification);
        proof {
            assert forall|j: int| 0 <= j <= k implies {
                &&& (#[trigger] result.seqs@[j]).inputs@ == Seq::<Val>::empty()
                &&& manips_view(result.seqs@[j].manips@) == seq_manips(cfg_nonces(seqs, j as nat), seqs[j])
            } by {
                if j < k {
                    assert(result.seqs@[j] == prev[j]);
                }
            }
        }
        k = k + 1;
    }
    result
}

/// Whether all the sequences have at least `p` elements and agree on the
/// first `p` of them.
pub open spec fn common_prefix<T>(seqs: Seq<Seq<T>>, p: int) -> bool {
    forall|i: int| 0 <= i < seqs.len() ==> (#[trigger] seqs[i]).len() >= p && seqs[i].take(p) == seqs[0].take(p)
}

/// The contents of the sequences.
pub open spec fn contents<T>(seqs: Seq<Vec<T>>) -> Seq<Seq<T>> {
    seqs.map_values(|v: Vec<T>| v@)
}

/// Factors out all elements that are equal at the beginning of all the
/// sequences, and returns them in a vector in the same order.
pub fn factor_common_prefix<T: PartialEq>(sequences: &mut Vec<Vec<T>>) -> (r: Vec<T>)
    requires
        obeys_concrete_eq::<T>(),
    ensures
        final(sequences).len() == old(sequences).len(),
        old(sequences).len() == 0 ==> r.len() == 0,
        common_prefix(contents(old(sequences)@), r.len() as int),
        old(sequences).len() > 0 ==> r.len() == old(sequences)@[0]@.len() || !common_prefix(
            contents(old(sequences)@),
            r.len() + 1,
        ),
        old(sequences).len() > 0 ==> r@ == old(sequences)@[0]@.take(r.len() as int),
        forall|i: int|
            0 <= i < old(sequences).len() ==> (#[trigger] final(sequences)@[i])@ == old(sequences)@[i]@.skip(
                r.len() as int,
            ),
{
    let ghost old_seqs = contents(sequences@);
    let n = sequences.len();
    if n == 0 {
        proof {
            assert(sequences@ == old(sequences)@);
        }
        return Vec::new();
    }
    if n == 1 {
        let mut all = Vec::new();
        std::mem::swap(&mut all, vec_cell_mut(sequences, 0));
        proof {
            assert(old_seqs[0] == old(sequences)@[0]@);
            assert(all@.take(all.len() as int) =~= all@);
            assert(sequences@[0]@ =~= all@.skip(all.len() as int));
        }
        return all;
    }
    let mut result: Vec<T> = Vec::new();
    let m = sequences[0].len();
    let mut k: usize = 0;
    proof {
        assert forall|i: int| 0 <= i < n implies (#[trigger] old_seqs[i]).len() >= 0 && old_seqs[i].take(0) == old_seqs[0].take(0) by {
            assert(old_seqs[i].take(0) =~= old_seqs[0].take(0));
        }
        assert forall|i: int| 0 <= i < n implies (#[trigger] sequences@[i])@ == old_seqs[i].skip(0) by {
            assert(old_seqs[i].skip(0) =~= old_seqs[i]);
        }
        assert(result@ =~= old_seqs[0].take(0));
    }
    while k < m
        invariant
            n == sequences.len(),
            n == old_seqs.len(),
            n >= 2,
            old_seqs == contents(old(sequences)@),
            m == old_seqs[0].len(),
            k <= m,
            result.len() == k,
            result@ == old_seqs[0].take(k as int),
            common_prefix(old_seqs, k as int),
            forall|i: int| 0 <= i < n ==> (#[trigger] sequences@[i])@ == old_seqs[i].skip(k as int),
            obeys_concrete_eq::<T>(),
        decreases m - k,
    {
        assert(sequences@[0]@ == old_seqs[0].skip(k as int));
        // whether every other sequence starts with the same element
        let mut all_match = true;
        let mut j: usize = 1;
        while j < n
            invariant
                n == sequences.len(),
                n == old_seqs.len(),
                1 <= j <= n,
                k < m,
                m == old_seqs[0].len(),
                common_prefix(old_seqs, k as int),
                forall|i: int| 0 <= i < n ==> (#[trigger] sequences@[i])@ == old_seqs[i].skip(k as int),
                all_match <==> forall|i: int|
                    1 <= i < j ==> (#[trigger] old_seqs[i]).len() > k && old_seqs[i][k as int] == old_seqs[0][k as int],
                obeys_concrete_eq::<T>(),
            decreases n - j,
        {
            assert(sequences@[j as int]@ == old_seqs[j as int].skip(k as int));
            assert(sequences@[0]@ == old_seqs[0].skip(k as int));
            let same = if sequences[j].len() > 0 {
                let eq = sequences[j][0].eq(&sequences[0][0]);
                proof {
                    reveal(obeys_concrete_eq);
                    assert(sequences@[j as int]@[0].eq_spec(&sequences@[0]@[0]) <==> (sequences@[j as int]@[0]
                        == sequences@[0]@[0]));
                }
                eq
            } else {
                false
            };
            proof {
                if sequences@[j as int]@.len() > 0 {
                    assert(sequences@[j as int]@[0] == old_seqs[j as int][k as int]);
                }
                assert(sequences@[0]@[0] == old_seqs[0][k as int]);
                assert(same <==> (old_seqs[j as int].len() > k && old_seqs[j as int][k as int] == old_seqs[0][k as int]));
            }
            all_match = all_match && same;
            proof {
                assert(all_match <==> forall|i: int|
                    1 <= i < j + 1 ==> (#[trigger] old_seqs[i]).len() > k && old_seqs[i][k as int] == old_seqs[0][k as int]);
            }
            j = j + 1;
        }
        if !all_match {
            proof {
                let i = choose|i: int|
                    1 <= i < n && !((#[trigger] old_seqs[i]).len() > k && old_seqs[i][k as int] == old_seqs[0][k as int]);
                if old_seqs[i].len() > k {
                    assert(old_seqs[i].take(k + 1)[k as int] != old_seqs[0].take(k + 1)[k as int]);
                }
            }
            return result;
        }
        let x = vec_cell_mut(sequences, 0).remove(0);
        result.push(x);
        let mut j: usize = 1;
        while j < n
            invariant
                n == sequences.len(),
                n == old_seqs.len(),
                1 <= j <= n,
                k < m,
                m == old_seqs[0].len(),
                forall|i: int| 0 < i < j ==> (#[trigger] sequences@[i])@ == old_seqs[i].skip(k + 1),
                forall|i: int| j <= i < n ==> (#[trigger] sequences@[i])@ == old_seqs[i].skip(k as int),
                sequences@[0]@ == old_seqs[0].skip(k + 1),
                forall|i: int| 1 <= i < n ==> (#[trigger] old_seqs[i]).len() > k,
            decreases n - j,
        {
            assert(sequences@[j as int]@ == old_seqs[j as int].skip(k as int));
            vec_cell_mut(sequences, j).remove(0);
            proof {
                assert(sequences@[j as int]@ =~= old_seqs[j as int].skip(k + 1));
            }
            j = j + 1;
        }
        proof {
            assert(result@ =~= old_seqs[0].take(k + 1));
            assert forall|i: int| 0 <= i < n implies (#[trigger] old_seqs[i]).len() >= k + 1 && old_seqs[i].take(k + 1)
                == old_seqs[0].take(k + 1) by {
                if i > 0 {
                    assert(old_seqs[i].take(k as int) == old_seqs[0].take(k as int));
                    assert(old_seqs[i].take(k + 1) =~= old_seqs[i].take(k as int).push(old_seqs[i][k as int]));
                    assert(old_seqs[0].take(k + 1) =~= old_seqs[0].take(k as int).push(old_seqs[0][k as int]));
                }
            }
        }
        k = k + 1;
    }
    result
}

} // verus!
