//! Stackification of instruction sequences whose instructions consume and
//! produce values.
//!
//! Each instruction, executed at some idx, expects its inputs on the operand
//! stack (in argument order, the last input on top) and pushes its outputs
//! onto the operand stack. A value is immutable, so any occurrence of a value
//! on the stack can serve a later instruction that expects it. The functions
//! here compute, for every idx, how many operands must be popped and dropped
//! ("captures") and which values must be re-fetched from local variables
//! ("getters") right before the instruction at that idx runs, so that every
//! instruction finds exactly its inputs on top of the operand stack.

use std::collections::HashMap;
use std::hash::Hash;
use vstd::prelude::*;
use vstd::laws_eq::obeys_concrete_eq;
use vstd::std_specs::hash::{obeys_key_model, builds_valid_hashers};

verus! {

broadcast use vstd::std_specs::hash::group_hash_axioms;

/// The stack manipulators computed for one instruction sequence.
#[derive(Debug, PartialEq, Eq)]
pub struct InsnSeqStackification<V> {
    /// Values that must be on the stack when entering this instruction
    /// sequence to get proper stack machine execution.
    pub inputs: Vec<V>,
    /// Information about execution at each idx to get proper stack machine
    /// execution. The entry at idx `i` applies before the instruction at `i`.
    pub manips: Vec<StackManipulators<V>>,
}

/// An operand that currently sits on the operand stack.
#[derive(Debug, PartialEq, Eq, Clone, Copy)]
pub struct AvailOperand<V> {
    pub value: V,
    /// The idx at which the operand can be released (one plus the idx of the
    /// instruction that outputs it, or zero if the operand is a forced
    /// argument). These values are monotonically increasing over the
    /// multivalues on the operand stack.
    pub releases_at: usize,
    /// The idx at which the direct calculation of this operand, represented as
    /// a tree, begins. Retro-inserting something onto the stack before this
    /// operand can be done no later than this idx.
    pub subtree_start: usize,
    /// If true, then this operand ends a multivalue. Each single value operand
    /// ends a multivalue with just itself. A getter can only be inserted
    /// before an operand that ends a multivalue, and if one value of a
    /// multivalue is captured then all following values of it must be
    /// captured too.
    pub ends_multivalue: bool,
}

/// Describes what stack manipulators exist/need to be added at a given idx.
#[derive(Debug, PartialEq, Eq, Clone)]
pub struct StackManipulators<V> {
    /// The number of captures (pop and drop the top of the stack) to insert at
    /// this idx, before any other manipulator and before the instruction.
    pub captures: usize,
    /// The values for the getters to insert at this idx, after the captures
    /// but before the instruction at the idx is executed.
    pub getters: Vec<V>,
    /// The inputs to the instruction at this idx.
    pub inputs: Vec<V>,
    /// The outputs of the instruction at this idx.
    pub outputs: Vec<V>,
}

/// The mathematical content of a [`StackManipulators`].
pub ghost struct ManipsView<V> {
    pub captures: nat,
    pub getters: Seq<V>,
    pub inputs: Seq<V>,
    pub outputs: Seq<V>,
}

impl<V> View for StackManipulators<V> {
    type V = ManipsView<V>;

    open spec fn view(&self) -> ManipsView<V> {
        ManipsView {
            captures: self.captures as nat,
            getters: self.getters@,
            inputs: self.inputs@,
            outputs: self.outputs@,
        }
    }
}

/// The views of a sequence of manipulators.
pub open spec fn manips_view<V>(m: Seq<StackManipulators<V>>) -> Seq<ManipsView<V>> {
    m.map_values(|x: StackManipulators<V>| x@)
}

// ---------------------------------------------------------------------------
// remove_excess_operands
// ---------------------------------------------------------------------------

/// The state carried from one operand to the next while excess operands are
/// removed.
pub ghost struct RemoveState<V> {
    /// Values waiting to be re-released at the end of the current multivalue;
    /// `None` if no re-release is in progress.
    pub queued: Option<Seq<V>>,
    /// Captures counted for the current multivalue.
    pub num_captures: nat,
    pub manips: Seq<ManipsView<V>>,
}

/// Adds `getters` and `captures` to the manipulators at `idx`.
pub open spec fn add_manips<V>(
    m: Seq<ManipsView<V>>,
    idx: int,
    getters: Seq<V>,
    captures: nat,
) -> Seq<ManipsView<V>> {
    m.update(
        idx,
        ManipsView { captures: m[idx].captures + captures, getters: m[idx].getters + getters, ..m[idx] },
    )
}

/// Handles one operand of the excess stack: `released` tells whether the
/// operand is required (released) or excess (captured).
pub open spec fn remove_step<V>(s: RemoveState<V>, operand: AvailOperand<V>, released: bool) -> RemoveState<V> {
    let queued = if released {
        match s.queued {
            Some(q) => Some(q.push(operand.value)),
            None => None,
        }
    } else if !operand.ends_multivalue && s.queued is None {
        Some(Seq::<V>::empty())
    } else {
        s.queued
    };
    let num_captures = if released && s.queued is None { s.num_captures } else { s.num_captures + 1 };
    if operand.ends_multivalue {
        let q = match queued {
            Some(q) => q,
            None => Seq::<V>::empty(),
        };
        let manips = if q.len() > 0 || num_captures > 0 {
            add_manips(s.manips, operand.releases_at as int, q, num_captures)
        } else {
            s.manips
        };
        RemoveState { queued: None, num_captures: 0, manips }
    } else {
        RemoveState { queued, num_captures, manips: s.manips }
    }
}

/// The state after handling the first `k` operands of `items`.
pub open spec fn remove_prefix<V>(
    manips: Seq<ManipsView<V>>,
    items: Seq<(AvailOperand<V>, bool)>,
    k: nat,
) -> RemoveState<V>
    decreases k,
{
    if k == 0 {
        RemoveState { queued: None, num_captures: 0, manips }
    } else {
        let s = remove_prefix(manips, items, (k - 1) as nat);
        remove_step(s, items[k - 1].0, items[k - 1].1)
    }
}

/// The manipulators after removing the excess operands `items`, with
/// `target_idx` as the fallback location.
pub open spec fn remove_excess_spec<V>(
    manips: Seq<ManipsView<V>>,
    items: Seq<(AvailOperand<V>, bool)>,
    target_idx: int,
) -> Seq<ManipsView<V>> {
    let s = remove_prefix(manips, items, items.len());
    match s.queued {
        Some(q) => add_manips(s.manips, target_idx, q, s.num_captures),
        None => s.manips,
    }
}

/// Whether every idx mentioned by `items` is a valid index into `manips`.
pub open spec fn items_in_bounds<V>(items: Seq<(AvailOperand<V>, bool)>, len: nat) -> bool {
    forall|k: int| 0 <= k < items.len() ==> (#[trigger] items[k]).0.releases_at < len
}

/// Whether adding `extra` captures to any idx of `manips` fits in a `usize`.
pub open spec fn captures_fit<V>(manips: Seq<StackManipulators<V>>, extra: nat) -> bool {
    forall|j: int| 0 <= j < manips.len() ==> (#[trigger] manips[j]).captures + extra <= usize::MAX
}

fn add_to_manips<V: Copy>(manips: &mut Vec<StackManipulators<V>>, idx: usize, getters: Vec<V>, captures: usize)
    requires
        idx < old(manips).len(),
        old(manips)[idx as int].captures + captures <= usize::MAX,
    ensures
        final(manips).len() == old(manips).len(),
        manips_view(final(manips)@) == add_manips(manips_view(old(manips)@), idx as int, getters@, captures as nat),
        forall|j: int| 0 <= j < old(manips).len() && j != idx ==> #[trigger] final(manips)[j] == old(manips)[j],
        final(manips)[idx as int].captures == old(manips)[idx as int].captures + captures,
{
    let ghost g = getters@;
    let mut getters = getters;
    let m = &mut manips[idx];
    m.captures = m.captures + captures;
    m.getters.append(&mut getters);
    proof {
        assert(manips_view(manips@) =~= add_manips(manips_view(old(manips)@), idx as int, g, captures as nat));
    }
}

/// Given that a subsequence of instructions has been stackified and results in
/// the given stack of excess operands, add manipulators such that there is no
/// excess except for the operands marked as released.
///
/// Each entry of `excess_op_stack` pairs an operand with whether it is
/// required (`true`: release it) or excess (`false`: capture it). An excess
/// operand that does not end its multivalue forces the rest of that
/// multivalue to be captured too; required operands among them are queued and
/// re-fetched ("re-released") at the end of the multivalue. Manipulators go at
/// the idx where the multivalue is released; if the last operand does not end
/// a multivalue, the pending ones go at `target_idx`.
pub fn remove_excess_operands<V: Copy>(
    excess_op_stack: Vec<(AvailOperand<V>, bool)>,
    manips: &mut Vec<StackManipulators<V>>,
    target_idx: usize,
)
    requires
        target_idx < old(manips).len(),
        items_in_bounds(excess_op_stack@, old(manips).len() as nat),
        captures_fit(old(manips)@, excess_op_stack.len() as nat),
    ensures
        final(manips).len() == old(manips).len(),
        manips_view(final(manips)@) == remove_excess_spec(manips_view(old(manips)@), excess_op_stack@, target_idx as int),
        forall|j: int|
            0 <= j < final(manips).len() ==> #[trigger] final(manips)[j].captures <= old(manips)[j].captures
                + excess_op_stack.len(),
{
    let ghost items = excess_op_stack@;
    let ghost m0 = manips@;
    let n = excess_op_stack.len();
    let mut queued: Option<Vec<V>> = None;
    let mut num_captures: usize = 0;
    let mut i: usize = 0;
    while i < n
        invariant
            n == excess_op_stack.len(),
            items == excess_op_stack@,
            0 <= i <= n,
            manips.len() == m0.len(),
            target_idx < m0.len(),
            items_in_bounds(items, m0.len() as nat),
            captures_fit(m0, n as nat),
            num_captures <= i,
            forall|j: int| 0 <= j < manips.len() ==> #[trigger] manips[j].captures <= m0[j].captures + i - num_captures,
            ({
                let s = remove_prefix(manips_view(m0), items, i as nat);
                &&& s.manips == manips_view(manips@)
                &&& s.num_captures == num_captures as nat
                &&& s.queued == match queued { Some(q) => Some(q@), None => None::<Seq<V>> }
            }),
        decreases n - i,
    {
        let operand = excess_op_stack[i].0;
        let released = excess_op_stack[i].1;
        let ghost s = remove_prefix(manips_view(m0), items, i as nat);
        assert(items[i as int].0 == operand && items[i as int].1 == released);
        if released {
            match queued {
                Some(ref mut q) => {
                    num_captures = num_captures + 1;
                    q.push(operand.value);
                },
                None => {},
            }
        } else {
            num_captures = num_captures + 1;
            if !operand.ends_multivalue && queued.is_none() {
                queued = Some(Vec::new());
            }
        }
        if operand.ends_multivalue {
            let q = match queued {
                Some(q) => q,
                None => Vec::new(),
            };
            if q.len() > 0 || num_captures > 0 {
                let r = operand.releases_at;
                assert(items[i as int].0.releases_at < m0.len());
                assert(manips[r as int].captures <= m0[r as int].captures + i - num_captures + 1);
                add_to_manips(manips, r, q, num_captures);
            }
            queued = None;
            num_captures = 0;
        }
        i = i + 1;
        proof {
            let s2 = remove_prefix(manips_view(m0), items, i as nat);
            assert(s2 == remove_step(s, operand, released));
            assert(s2.manips =~= manips_view(manips@));
        }
    }
    match queued {
        Some(q) => {
            assert(manips[target_idx as int].captures <= m0[target_idx as int].captures + n - num_captures);
            add_to_manips(manips, target_idx, q, num_captures);
        },
        None => {},
    }
}

// ---------------------------------------------------------------------------
// stackify_single
// ---------------------------------------------------------------------------

/// `a <= b` where `None` compares less than every `Some`.
pub open spec fn opt_le(a: Option<usize>, b: Option<usize>) -> bool {
    match (a, b) {
        (None, _) => true,
        (Some(_), None) => false,
        (Some(x), Some(y)) => x <= y,
    }
}

/// The earliest idx at which `v` can be gotten; `None` if it is always
/// available.
pub open spec fn birthdate<V>(ag: Map<V, usize>, v: V) -> Option<usize> {
    if ag.contains_key(v) {
        Some(ag[v])
    } else {
        None
    }
}

/// The first position at or after `k` in `op` holding the value `v`.
pub open spec fn find_operand<V>(op: Seq<AvailOperand<V>>, k: int, v: V) -> Option<nat>
    decreases op.len() - k,
{
    if k < 0 || k >= op.len() {
        None
    } else if op[k].value == v {
        Some(k as nat)
    } else {
        find_operand(op, k + 1, v)
    }
}

/// The first position at or after `k` in `op` of an operand that ends a
/// multivalue and is released no earlier than `bd`.
pub open spec fn find_slot<V>(op: Seq<AvailOperand<V>>, k: int, bd: Option<usize>) -> Option<nat>
    decreases op.len() - k,
{
    if k < 0 || k >= op.len() {
        None
    } else if op[k].ends_multivalue && opt_le(bd, Some(op[k].releases_at)) {
        Some(k as nat)
    } else {
        find_slot(op, k + 1, bd)
    }
}

/// The state carried from one input to the next while the inputs of an
/// instruction are matched against the operand stack.
pub ghost struct InputState<V> {
    /// Only operands at positions `>= order_barrier` may still be released.
    pub order_barrier: nat,
    /// The position of the first released operand, if any.
    pub first_released: Option<nat>,
    /// Which positions of the operand stack are released.
    pub released: Seq<bool>,
    /// Getters still to be placed: `(idx, value)`.
    pub getters: Seq<(usize, V)>,
}

/// Whether every pending getter's value is available no later than `st`.
pub open spec fn getters_precede<V>(ag: Map<V, usize>, gs: Seq<(usize, V)>, st: usize) -> bool {
    forall|k: int| 0 <= k < gs.len() ==> opt_le(#[trigger] birthdate(ag, gs[k].1), Some(st))
}

/// Matches one input against the operand stack.
pub open spec fn input_step<V>(
    op: Seq<AvailOperand<V>>,
    ag: Map<V, usize>,
    my_idx: usize,
    s: InputState<V>,
    input: V,
) -> InputState<V> {
    let found = find_operand(op, s.order_barrier as int, input);
    if found is Some && getters_precede(ag, s.getters, op[found->0 as int].subtree_start) {
        let i = found->0;
        let st = op[i as int].subtree_start;
        InputState {
            order_barrier: i + 1,
            first_released: if s.first_released is None { Some(i) } else { s.first_released },
            released: s.released.update(i as int, true),
            getters: if s.first_released is None {
                s.getters.map_values(|g: (usize, V)| (st, g.1))
            } else {
                s.getters
            },
        }
    } else if s.first_released is Some {
        let slot = find_slot(op, s.order_barrier - 1, birthdate(ag, input));
        let (nob, ins) = match slot {
            Some(k) => ((k + 1) as nat, op[k as int].releases_at),
            None => (op.len(), my_idx),
        };
        InputState { order_barrier: nob, getters: s.getters.push((ins, input)), ..s }
    } else {
        InputState { getters: s.getters.push((my_idx, input)), ..s }
    }
}

/// The state after matching the first `k` inputs.
pub open spec fn inputs_prefix<V>(
    op: Seq<AvailOperand<V>>,
    ag: Map<V, usize>,
    my_idx: usize,
    inputs: Seq<V>,
    k: nat,
) -> InputState<V>
    decreases k,
{
    if k == 0 {
        InputState {
            order_barrier: 0,
            first_released: None,
            released: Seq::new(op.len(), |j: int| false),
            getters: Seq::empty(),
        }
    } else {
        input_step(op, ag, my_idx, inputs_prefix(op, ag, my_idx, inputs, (k - 1) as nat), inputs[k - 1])
    }
}

/// Prepends the getter `g` to the getters at its idx.
pub open spec fn prepend_getter<V>(m: Seq<ManipsView<V>>, g: (usize, V)) -> Seq<ManipsView<V>> {
    let i = g.0 as int;
    m.update(i, ManipsView { getters: seq![g.1] + m[i].getters, ..m[i] })
}

/// Places the getters `gs` in front of the existing getters at their idxs,
/// keeping the order of `gs` among getters with the same idx.
pub open spec fn prepend_getters<V>(m: Seq<ManipsView<V>>, gs: Seq<(usize, V)>) -> Seq<ManipsView<V>>
    decreases gs.len(),
{
    if gs.len() == 0 {
        m
    } else {
        prepend_getters(prepend_getter(m, gs.last()), gs.drop_last())
    }
}

/// The operands pushed for the outputs of an instruction at `my_idx` whose
/// operand tree starts at `st`.
pub open spec fn output_operands<V>(outputs: Seq<V>, my_idx: usize, st: usize) -> Seq<AvailOperand<V>> {
    Seq::new(
        outputs.len(),
        |k: int| AvailOperand {
            value: outputs[k],
            releases_at: (my_idx + 1) as usize,
            subtree_start: st,
            ends_multivalue: k == outputs.len() - 1,
        },
    )
}

/// The excess operands from position `f` on, paired with their release flags.
pub open spec fn excess_items<V>(op: Seq<AvailOperand<V>>, released: Seq<bool>, f: nat) -> Seq<(AvailOperand<V>, bool)> {
    Seq::new((op.len() - f) as nat, |k: int| (op[f + k], released[f + k]))
}

/// The operand stack after the instruction ran.
pub open spec fn single_op_stack<V>(
    op: Seq<AvailOperand<V>>,
    ag: Map<V, usize>,
    my_idx: usize,
    inputs: Seq<V>,
    outputs: Seq<V>,
) -> Seq<AvailOperand<V>> {
    let s = inputs_prefix(op, ag, my_idx, inputs, inputs.len());
    let keep = match s.first_released {
        Some(f) => f as int,
        None => op.len() as int,
    };
    let st = match s.first_released {
        Some(f) => op[f as int].subtree_start,
        None => my_idx,
    };
    op.take(keep) + output_operands(outputs, my_idx, st)
}

/// The available getters after the instruction ran: every output becomes
/// available right after the instruction.
pub open spec fn single_getters<V>(ag: Map<V, usize>, my_idx: usize, outputs: Seq<V>) -> Map<V, usize> {
    ag.union_prefer_right(Map::new(|v: V| outputs.contains(v), |v: V| (my_idx + 1) as usize))
}

/// The manipulators after the instruction ran.
pub open spec fn single_manips<V>(
    op: Seq<AvailOperand<V>>,
    ag: Map<V, usize>,
    m: Seq<ManipsView<V>>,
    my_idx: usize,
    inputs: Seq<V>,
    outputs: Seq<V>,
) -> Seq<ManipsView<V>> {
    let s = inputs_prefix(op, ag, my_idx, inputs, inputs.len());
    let m1 = match s.first_released {
        Some(f) => remove_excess_spec(m, excess_items(op, s.released, f), my_idx as int),
        None => m,
    };
    let m2 = prepend_getters(m1, s.getters);
    m2.update(my_idx as int, ManipsView { inputs, outputs, ..m2[my_idx as int] })
}

/// Whether all idxs on the operand stack are at most `my_idx`.
pub open spec fn op_stack_before<V>(op: Seq<AvailOperand<V>>, my_idx: usize) -> bool {
    forall|k: int| 0 <= k < op.len() ==> {
        &&& (#[trigger] op[k]).releases_at <= my_idx
        &&& op[k].subtree_start <= my_idx
    }
}

/// Whether every input that has a birthdate was born no later than `my_idx`.
pub open spec fn inputs_born<V>(ag: Map<V, usize>, inputs: Seq<V>, my_idx: usize) -> bool {
    forall|k: int| 0 <= k < inputs.len() ==> opt_le(#[trigger] birthdate(ag, inputs[k]), Some(my_idx))
}

fn values_equal<V: PartialEq>(a: &V, b: &V) -> (r: bool)
    requires
        obeys_concrete_eq::<V>(),
    ensures
        r == (*a == *b),
{
    proof {
        reveal(obeys_concrete_eq);
    }
    *a == *b
}

fn get_birthdate<V: Eq + Hash>(ag: &HashMap<V, usize>, v: &V) -> (r: Option<usize>)
    requires
        obeys_key_model::<V>(),
        builds_valid_hashers::<std::hash::RandomState>(),
    ensures
        r == birthdate(ag@, *v),
{
    match ag.get(v) {
        Some(b) => Some(*b),
        None => None,
    }
}

fn opt_le_exec(a: Option<usize>, b: usize) -> (r: bool)
    ensures
        r == opt_le(a, Some(b)),
{
    match a {
        None => true,
        Some(x) => x <= b,
    }
}

proof fn lemma_find_operand_bounds<V>(op: Seq<AvailOperand<V>>, k: int, v: V)
    ensures
        find_operand(op, k, v) matches Some(i) ==> k <= i < op.len() && op[i as int].value == v,
    decreases op.len() - k,
{
    if 0 <= k < op.len() && op[k].value != v {
        lemma_find_operand_bounds(op, k + 1, v);
    }
}

proof fn lemma_find_slot_bounds<V>(op: Seq<AvailOperand<V>>, k: int, bd: Option<usize>)
    ensures
        find_slot(op, k, bd) matches Some(i) ==> k <= i < op.len(),
    decreases op.len() - k,
{
    if 0 <= k < op.len() && !(op[k].ends_multivalue && opt_le(bd, Some(op[k].releases_at))) {
        lemma_find_slot_bounds(op, k + 1, bd);
    }
}

fn find_operand_exec<V: PartialEq>(op: &Vec<AvailOperand<V>>, start: usize, v: &V) -> (r: Option<usize>)
    requires
        obeys_concrete_eq::<V>(),
    ensures
        r == match find_operand(op@, start as int, *v) {
            Some(i) => Some(i as usize),
            None => None::<usize>,
        },
        r matches Some(i) ==> start <= i < op.len() && op[i as int].value == *v,
{
    let mut k = start;
    while k < op.len()
        invariant
            obeys_concrete_eq::<V>(),
            start <= k,
            find_operand(op@, start as int, *v) == find_operand(op@, k as int, *v),
        decreases op.len() - k,
    {
        if values_equal(&op[k].value, v) {
            return Some(k);
        }
        k = k + 1;
    }
    None
}

fn find_slot_exec<V>(op: &Vec<AvailOperand<V>>, start: usize, bd: Option<usize>) -> (r: Option<usize>)
    ensures
        r == match find_slot(op@, start as int, bd) {
            Some(i) => Some(i as usize),
            None => None::<usize>,
        },
        r matches Some(i) ==> start <= i < op.len(),
{
    let mut k = start;
    while k < op.len()
        invariant
            start <= k,
            find_slot(op@, start as int, bd) == find_slot(op@, k as int, bd),
        decreases op.len() - k,
    {
        if op[k].ends_multivalue && opt_le_exec(bd, op[k].releases_at) {
            return Some(k);
        }
        k = k + 1;
    }
    None
}

/// Whether all pending getters are available no later than `st`.
fn getters_precede_exec<V: Eq + Hash>(ag: &HashMap<V, usize>, getters: &Vec<(usize, V)>, st: usize) -> (r: bool)
    requires
        obeys_key_model::<V>(),
        builds_valid_hashers::<std::hash::RandomState>(),
    ensures
        r == getters_precede(ag@, getters@, st),
{
    let mut k: usize = 0;
    while k < getters.len()
        invariant
            obeys_key_model::<V>(),
            builds_valid_hashers::<std::hash::RandomState>(),
            k <= getters.len(),
            forall|j: int| 0 <= j < k ==> opt_le(#[trigger] birthdate(ag@, getters@[j].1), Some(st)),
        decreases getters.len() - k,
    {
        let bd = get_birthdate(ag, &getters[k].1);
        if !opt_le_exec(bd, st) {
            assert(!opt_le(birthdate(ag@, getters@[k as int].1), Some(st)));
            return false;
        }
        k = k + 1;
    }
    true
}

/// Moves all pending getters to idx `sub`.
fn restamp_getters<V: Copy>(getters: &mut Vec<(usize, V)>, sub: usize)
    ensures
        final(getters)@ == old(getters)@.map_values(|g: (usize, V)| (sub, g.1)),
{
    let ghost g0 = getters@;
    let mut k: usize = 0;
    while k < getters.len()
        invariant
            k <= getters.len(),
            getters.len() == g0.len(),
            forall|j: int| 0 <= j < k ==> #[trigger] getters@[j] == (sub, g0[j].1),
            forall|j: int| k <= j < g0.len() ==> #[trigger] getters@[j] == g0[j],
        decreases g0.len() - k,
    {
        let v = getters[k].1;
        getters.set(k, (sub, v));
        k = k + 1;
    }
    proof {
        assert(getters@ =~= g0.map_values(|g: (usize, V)| (sub, g.1)));
    }
}

/// The exec state of the input-matching loop.
struct InputMatch<V> {
    order_barrier: usize,
    first_released: Option<usize>,
    released: Vec<bool>,
    getters: Vec<(usize, V)>,
}

impl<V> InputMatch<V> {
    spec fn matches_spec(&self, s: InputState<V>) -> bool {
        &&& s.order_barrier == self.order_barrier as nat
        &&& s.first_released == match self.first_released {
            Some(f) => Some(f as nat),
            None => None::<nat>,
        }
        &&& s.released == self.released@
        &&& s.getters == self.getters@
    }

    spec fn well_formed(&self, op_len: nat, my_idx: usize) -> bool {
        &&& self.released.len() == op_len
        &&& self.order_barrier <= op_len
        &&& self.first_released matches Some(f) ==> f < op_len && 1 <= self.order_barrier
        &&& forall|k: int| 0 <= k < self.getters.len() ==> (#[trigger] self.getters@[k]).0 <= my_idx
    }
}

/// Matches all inputs against the operand stack.
fn match_inputs<V: Copy + Eq + Hash>(
    op: &Vec<AvailOperand<V>>,
    ag: &HashMap<V, usize>,
    my_idx: usize,
    inputs: &Vec<V>,
) -> (r: InputMatch<V>)
    requires
        obeys_key_model::<V>(),
        builds_valid_hashers::<std::hash::RandomState>(),
        obeys_concrete_eq::<V>(),
        op_stack_before(op@, my_idx),
    ensures
        r.matches_spec(inputs_prefix(op@, ag@, my_idx, inputs@, inputs.len() as nat)),
        r.well_formed(op.len() as nat, my_idx),
{
    let mut st = InputMatch {
        order_barrier: 0,
        first_released: None,
        released: vec![false; op.len()],
        getters: Vec::new(),
    };
    proof {
        assert(st.released@ =~= Seq::new(op@.len(), |j: int| false));
    }
    let mut i: usize = 0;
    while i < inputs.len()
        invariant
            obeys_key_model::<V>(),
            builds_valid_hashers::<std::hash::RandomState>(),
            obeys_concrete_eq::<V>(),
            op_stack_before(op@, my_idx),
            i <= inputs.len(),
            st.matches_spec(inputs_prefix(op@, ag@, my_idx, inputs@, i as nat)),
            st.well_formed(op.len() as nat, my_idx),
        decreases inputs.len() - i,
    {
        let input = inputs[i];
        let ghost s = inputs_prefix(op@, ag@, my_idx, inputs@, i as nat);
        let found = find_operand_exec(op, st.order_barrier, &input);
        let can_release = match found {
            Some(idx) => getters_precede_exec(ag, &st.getters, op[idx].subtree_start),
            None => false,
        };
        let ghost sfound = find_operand(op@, s.order_barrier as int, input);
        proof {
            lemma_find_operand_bounds(op@, s.order_barrier as int, input);
        }
        assert(can_release == (sfound is Some && getters_precede(ag@, s.getters, op@[sfound->0 as int].subtree_start)));
        if can_release {
            let idx = found.unwrap();
            assert(sfound == Some(idx as nat));
            let sub = op[idx].subtree_start;
            st.released.set(idx, true);
            if st.first_released.is_none() {
                st.first_released = Some(idx);
                restamp_getters(&mut st.getters, sub);
            }
            st.order_barrier = idx + 1;
            assert(st.released@ == s.released.update(idx as int, true));
            assert(input_step(op@, ag@, my_idx, s, input).released == s.released.update(idx as int, true));
        } else {
            let bd = get_birthdate(ag, &input);
            if st.first_released.is_some() {
                let slot = find_slot_exec(op, st.order_barrier - 1, bd);
                proof {
                    lemma_find_slot_bounds(op@, st.order_barrier - 1, bd);
                }
                let (nob, ins) = match slot {
                    Some(k) => (k + 1, op[k].releases_at),
                    None => (op.len(), my_idx),
                };
                st.order_barrier = nob;
                st.getters.push((ins, input));
            } else {
                st.getters.push((my_idx, input));
            }
            assert(!(sfound is Some && getters_precede(ag@, s.getters, op@[sfound->0 as int].subtree_start)));
        }
        i = i + 1;
        proof {
            let s2 = input_step(op@, ag@, my_idx, s, input);
            assert(inputs_prefix(op@, ag@, my_idx, inputs@, i as nat) == s2);
            assert(s2.order_barrier == st.order_barrier as nat);
            assert(s2.released =~= st.released@);
            assert(s2.getters =~= st.getters@);
            assert(st.matches_spec(s2));
        }
    }
    st
}

/// Places the getters `gs` in front of the existing getters at their idxs.
fn prepend_getters_exec<V: Copy>(manips: &mut Vec<StackManipulators<V>>, gs: Vec<(usize, V)>)
    requires
        forall|k: int| 0 <= k < gs.len() ==> (#[trigger] gs@[k]).0 < old(manips).len(),
    ensures
        final(manips).len() == old(manips).len(),
        manips_view(final(manips)@) == prepend_getters(manips_view(old(manips)@), gs@),
        forall|j: int| 0 <= j < final(manips).len() ==> #[trigger] final(manips)[j].captures == old(manips)[j].captures,
{
    let ghost m0 = manips_view(manips@);
    let mut k = gs.len();
    proof {
        assert(gs@.take(k as int) =~= gs@);
    }
    while k > 0
        invariant
            k <= gs.len(),
            manips.len() == old(manips).len(),
            forall|j: int| 0 <= j < gs.len() ==> (#[trigger] gs@[j]).0 < manips.len(),
            prepend_getters(m0, gs@) == prepend_getters(manips_view(manips@), gs@.take(k as int)),
            forall|j: int| 0 <= j < manips.len() ==> #[trigger] manips[j].captures == old(manips)[j].captures,
        decreases k,
    {
        let ghost before = manips_view(manips@);
        let (idx, v) = gs[k - 1];
        let m = &mut manips[idx];
        m.getters.insert(0, v);
        proof {
            assert(manips@[idx as int].getters@ =~= seq![v] + before[idx as int].getters);
            let t = gs@.take(k as int);
            assert(t.last() == gs@[k - 1]);
            assert(t.drop_last() =~= gs@.take(k - 1));
            assert(manips_view(manips@) =~= prepend_getter(before, gs@[k - 1]));
        }
        k = k - 1;
    }
    proof {
        assert(gs@.take(0) =~= Seq::<(usize, V)>::empty());
    }
}

/// Stackifies a single instruction executed at `my_idx` that expects
/// `inputs` on top of the operand stack and pushes `outputs`.
///
/// * `available_operand_stack` - The stack of operands that are available to
///   the current instruction. On return it holds the operands available to
///   the next instruction.
/// * `available_getters` - Maps each value to the earliest idx at which it can
///   be gotten. A value without an entry is available everywhere.
/// * `stack_manips` - The manipulators of the whole sequence, extended with
///   the captures and getters this instruction needs.
///
/// Inputs are matched in argument order against the operand stack: an input
/// found after the previous released one (and computed after every input
/// that already needs a getter) is released; any other input gets a getter,
/// placed as early as possible after the last released input. Operands above
/// the first released input that are not released are captured.
pub fn stackify_single<V: Copy + Eq + Hash>(
    available_operand_stack: &mut Vec<AvailOperand<V>>,
    available_getters: &mut HashMap<V, usize>,
    stack_manips: &mut Vec<StackManipulators<V>>,
    my_idx: usize,
    inputs: Vec<V>,
    outputs: Vec<V>,
)
    requires
        obeys_key_model::<V>(),
        builds_valid_hashers::<std::hash::RandomState>(),
        obeys_concrete_eq::<V>(),
        my_idx < old(stack_manips).len(),
        op_stack_before(old(available_operand_stack)@, my_idx),
        inputs_born(old(available_getters)@, inputs@, my_idx),
        captures_fit(old(stack_manips)@, old(available_operand_stack).len() as nat),
    ensures
        final(available_operand_stack)@ == single_op_stack(
            old(available_operand_stack)@,
            old(available_getters)@,
            my_idx,
            inputs@,
            outputs@,
        ),
        final(available_getters)@ == single_getters(old(available_getters)@, my_idx, outputs@),
        final(stack_manips).len() == old(stack_manips).len(),
        manips_view(final(stack_manips)@) == single_manips(
            old(available_operand_stack)@,
            old(available_getters)@,
            manips_view(old(stack_manips)@),
            my_idx,
            inputs@,
            outputs@,
        ),
        final(stack_manips)[my_idx as int].inputs@ == inputs@,
        final(stack_manips)[my_idx as int].outputs@ == outputs@,
        op_stack_before(final(available_operand_stack)@, (my_idx + 1) as usize),
        final(available_operand_stack).len() <= old(available_operand_stack).len() + outputs.len(),
        forall|j: int|
            0 <= j < final(stack_manips).len() ==> #[trigger] final(stack_manips)[j].captures <= old(
                stack_manips,
            )[j].captures + old(available_operand_stack).len(),
{
    let ghost op0 = available_operand_stack@;
    let ghost ag0 = available_getters@;
    let ghost mv0 = manips_view(stack_manips@);
    let m = match_inputs(available_operand_stack, available_getters, my_idx, &inputs);
    let ghost s = inputs_prefix(op0, ag0, my_idx, inputs@, inputs@.len());
    let my_subtree_start = match m.first_released {
        Some(f) => available_operand_stack[f].subtree_start,
        None => my_idx,
    };

    // remove all operands after the first released one, capturing the ones
    // that are not released
    match m.first_released {
        Some(f) => {
            let mut items: Vec<(AvailOperand<V>, bool)> = Vec::new();
            let mut k = f;
            while k < available_operand_stack.len()
                invariant
                    f <= k <= available_operand_stack.len(),
                    available_operand_stack@ == op0,
                    m.released.len() == op0.len(),
                    items@ =~= excess_items(op0, m.released@, f as nat).take(k - f),
                decreases available_operand_stack.len() - k,
            {
                items.push((available_operand_stack[k], m.released[k]));
                k = k + 1;
            }
            assert(items@ =~= excess_items(op0, m.released@, f as nat));
            available_operand_stack.truncate(f);
            remove_excess_operands(items, stack_manips, my_idx);
        },
        None => {},
    }
    let ghost mv1 = manips_view(stack_manips@);
    assert(forall|j: int| 0 <= j < stack_manips.len() ==> #[trigger] stack_manips@[j].captures <= usize::MAX);

    // place the getters in front of the ones already at the same idx; the
    // ones already there bind more tightly
    prepend_getters_exec(stack_manips, m.getters);

    // push the outputs of the instruction
    let ghost op1 = available_operand_stack@;
    let n = outputs.len();
    let mut k: usize = 0;
    while k < n
        invariant
            n == outputs.len(),
            k <= n,
            my_idx < usize::MAX,
            available_operand_stack@ =~= op1 + output_operands(outputs@, my_idx, my_subtree_start).take(k as int),
            available_getters@ =~= ag0.union_prefer_right(
                Map::new(|v: V| outputs@.take(k as int).contains(v), |v: V| (my_idx + 1) as usize),
            ),
            obeys_key_model::<V>(),
            builds_valid_hashers::<std::hash::RandomState>(),
        decreases n - k,
    {
        let v = outputs[k];
        available_operand_stack.push(
            AvailOperand {
                value: v,
                releases_at: my_idx + 1,
                subtree_start: my_subtree_start,
                ends_multivalue: k == n - 1,
            },
        );
        let ghost agk = available_getters@;
        available_getters.insert(v, my_idx + 1);
        proof {
            let t0 = outputs@.take(k as int);
            let t1 = outputs@.take(k + 1);
            assert(t1 =~= t0.push(v));
            assert forall|w: V| t1.contains(w) <==> (t0.contains(w) || w == v) by {
                if t0.contains(w) {
                    let j = choose|j: int| 0 <= j < t0.len() && t0[j] == w;
                    assert(t1[j] == w);
                }
                if t1.contains(w) && w != v {
                    let j = choose|j: int| 0 <= j < t1.len() && t1[j] == w;
                    assert(j < t0.len());
                    assert(t0[j] == w);
                }
                if w == v {
                    assert(t1[k as int] == w);
                }
            }
        }
        k = k + 1;
    }
    proof {
        assert(outputs@.take(n as int) =~= outputs@);
        assert(output_operands(outputs@, my_idx, my_subtree_start).take(n as int) =~= output_operands(
            outputs@,
            my_idx,
            my_subtree_start,
        ));
    }
    let mm = &mut stack_manips[my_idx];
    mm.inputs = inputs;
    mm.outputs = outputs;
    proof {
        assert(manips_view(stack_manips@) =~= single_manips(op0, ag0, mv0, my_idx, inputs@, outputs@));
    }
}

} // verus!
