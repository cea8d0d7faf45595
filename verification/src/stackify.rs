//! Stackification of an instruction sequence with linear control flow, where
//! every instruction produces at most one value and instructions are
//! identified by their program counter (pc).
//!
//! Each instruction, when executed on a stack machine, pops its inputs off the
//! operand stack and pushes its result. The functions here decide, without
//! reordering any instruction, which results flow directly to their user on
//! the operand stack ("released"), which are kept off the stack
//! ("captured"), and where local variable getters must be inserted so that
//! every instruction finds its inputs on the stack in argument order.

use vstd::prelude::*;
use crate::stackify_correctness::{fresh_forest, law_stackify_verifies, outside_inputs_first, succ_links};

verus! {

/// A sequence of instructions with linear control flow where each instruction
/// leads into the next one (or diverges). Instructions are identified by a pc.
pub trait InsnSequence {
    /// The pcs of the instructions shallowly included in the sequence, in
    /// execution order. Implementations override this; the default describes
    /// an empty sequence.
    open spec fn spec_instructions(&self) -> Seq<usize> {
        Seq::empty()
    }

    /// The instructions used as input by `insn`, in argument order.
    /// Implementations override this; the default describes an instruction
    /// without inputs.
    open spec fn spec_inputs_of(&self, insn: usize) -> Seq<usize> {
        Seq::empty()
    }

    /// The pc that shallowly succeeds `insn`. Implementations override this;
    /// the default is the next pc.
    open spec fn spec_succ_of(&self, insn: usize) -> usize {
        (insn + 1) as usize
    }

    /// Returns true if the specified instruction is part of this sequence. This
    /// is false for instructions that are only included transitively by
    /// compound instructions in the sequence.
    fn shallow_includes(&self, insn: usize) -> (r: bool)
        ensures
            r == self.spec_instructions().contains(insn),
    ;

    /// All instructions shallowly included in the sequence.
    fn instructions(&self) -> (r: Vec<usize>)
        ensures
            r@ == self.spec_instructions(),
    ;

    /// All instructions of the range `start..end` shallowly included in the
    /// sequence.
    fn instructions_in_range(&self, start: usize, end: usize) -> (r: Vec<usize>)
        ensures
            r@ == self.spec_instructions().filter(|pc: usize| start <= pc < end),
    ;

    /// Returns the instruction that shallowly succeeds the specified
    /// instruction (compound instructions are considered one instruction).
    fn succ_of(&self, insn: usize) -> (r: usize)
        ensures
            r == self.spec_succ_of(insn),
    ;

    /// Which instructions are used by the specified instruction as input.
    fn inputs_of(&self, insn: usize) -> (r: Vec<usize>)
        ensures
            r@ == self.spec_inputs_of(insn),
    ;
}

#[derive(Clone, Copy, PartialEq, Eq, Debug, Structural)]
pub enum OutputMode<Pc> {
    /// This represents an undetermined output type. If this instruction
    /// releases its result onto the operand stack, it will *not* be picked up
    /// before the next available instruction.
    Available,
    /// This instruction will release its result onto the operand stack, and it
    /// will be picked up by the parent instruction before the next available
    /// instruction.
    Release { parent: Pc },
    /// Do not let this instruction release its result onto the operand stack.
    /// The parent instruction is the instruction whose arguments were being
    /// calculated when this instruction was captured.
    Capture { parent: Pc },
}

/// Information associated with an instruction in a sequence that helps
/// determine its input/output relations with other instructions.
#[derive(Clone, Copy, Debug, PartialEq, Eq, Structural)]
pub struct InsnTreeInfo<Pc> {
    pub output_mode: OutputMode<Pc>,
    /// The start of the subtree rooted at this instruction.
    pub subtree_start: Pc,
}

#[derive(Clone, Copy, PartialEq, Eq, Debug, Structural)]
pub struct Getter<Pc> {
    /// The program counter at which to insert the getter.
    pub pc: Pc,
    /// The instruction whose value to get.
    pub value: Pc,
}

/// The result of stackifying a sequence: the tree information of every
/// instruction (indexed by pc) and the local variable getters to insert.
#[derive(Debug, PartialEq, Eq)]
pub struct InsnSeqStackification {
    pub forest: Vec<InsnTreeInfo<usize>>,
    pub getters: Vec<Getter<usize>>,
}

/// The parent recorded in an output mode, if any.
pub open spec fn parent_of(m: OutputMode<usize>) -> Option<usize> {
    match m {
        OutputMode::Available => None,
        OutputMode::Release { parent } => Some(parent),
        OutputMode::Capture { parent } => Some(parent),
    }
}

/// Every parent pointer of the forest points to a later instruction inside the
/// forest.
pub open spec fn forest_wf(forest: Seq<InsnTreeInfo<usize>>) -> bool {
    forall|i: int|
        0 <= i < forest.len() ==> match parent_of(#[trigger] forest[i].output_mode) {
            Some(p) => i < p < forest.len(),
            None => true,
        }
}

/// Follows parent pointers from `insn` until reaching an instruction without
/// a parent or whose parent is `ignore`.
pub open spec fn find_root_spec(forest: Seq<InsnTreeInfo<usize>>, insn: usize, ignore: usize) -> usize
    decreases forest.len() - insn,
{
    if insn >= forest.len() {
        insn
    } else {
        match parent_of(forest[insn as int].output_mode) {
            Some(p) => if p != ignore && insn < p < forest.len() {
                find_root_spec(forest, p, ignore)
            } else {
                insn
            },
            None => insn,
        }
    }
}

/// Finds the root of the subtree that includes `start_insn`. If the next parent
/// encountered would be `ignore_insn`, then stops and returns the previous
/// instruction traversed.
fn find_root(forest: &Vec<InsnTreeInfo<usize>>, start_insn: usize, ignore_insn: usize) -> (r: usize)
    requires
        forest_wf(forest@),
        start_insn < forest.len(),
    ensures
        r == find_root_spec(forest@, start_insn, ignore_insn),
        start_insn <= r < forest.len(),
{
    let mut insn = start_insn;
    loop
        invariant
            forest_wf(forest@),
            start_insn <= insn < forest.len(),
            find_root_spec(forest@, start_insn, ignore_insn) == find_root_spec(forest@, insn, ignore_insn),
        decreases forest.len() - insn,
    {
        let parent = match forest[insn].output_mode {
            OutputMode::Capture { parent } => parent,
            OutputMode::Release { parent } => parent,
            OutputMode::Available => {
                return insn;
            },
        };
        if parent == ignore_insn {
            return insn;
        }
        assert(forest[insn as int].output_mode matches OutputMode::Capture { .. } || forest[insn as int].output_mode matches OutputMode::Release { .. });
        insn = parent;
    }
}

// ---------------------------------------------------------------------------
// insert_getters
// ---------------------------------------------------------------------------

/// The end of the run of getters with the same pc as `s[i]`, searching from
/// `j`.
pub open spec fn run_end(s: Seq<Getter<usize>>, i: int, j: int) -> int
    decreases s.len() - j,
{
    if j >= s.len() || j < 0 || i < 0 || i >= s.len() {
        if j < s.len() { s.len() as int } else { j }
    } else if s[j].pc != s[i].pc {
        j
    } else {
        run_end(s, i, j + 1)
    }
}

/// The first position in `dest` whose getter pc is at least `pc`, searching
/// from `l`.
pub open spec fn first_ge(dest: Seq<Getter<usize>>, pc: usize, l: int) -> int
    decreases dest.len() - l,
{
    if l >= dest.len() || l < 0 {
        if l < dest.len() { dest.len() as int } else { l }
    } else if dest[l].pc >= pc {
        l
    } else {
        first_ge(dest, pc, l + 1)
    }
}

/// Inserts the getters `ins[i..]` into `dest`, one run of equal pcs at a time:
/// each run is inserted, in order, right before the first getter of `dest`
/// whose pc is at least the run's pc.
pub open spec fn insert_getters_spec(dest: Seq<Getter<usize>>, ins: Seq<Getter<usize>>, i: int) -> Seq<Getter<usize>>
    decreases ins.len() - i,
{
    if i >= ins.len() || i < 0 {
        dest
    } else {
        let e = run_end(ins, i, i + 1);
        let l = first_ge(dest, ins[i].pc, 0);
        if e <= i || e > ins.len() {
            dest
        } else {
            insert_getters_spec(dest.take(l) + ins.subrange(i, e) + dest.skip(l), ins, e)
        }
    }
}

/// Whether the getters are sorted by pc.
pub open spec fn getters_sorted(s: Seq<Getter<usize>>) -> bool {
    forall|a: int, b: int| 0 <= a <= b < s.len() ==> #[trigger] s[a].pc <= #[trigger] s[b].pc
}

pub(crate) proof fn lemma_run_end(s: Seq<Getter<usize>>, i: int, j: int)
    requires
        0 <= i < j <= s.len(),
        forall|k: int| i <= k < j ==> #[trigger] s[k].pc == s[i].pc,
    ensures
        j <= run_end(s, i, j) <= s.len(),
        forall|k: int| i <= k < run_end(s, i, j) ==> #[trigger] s[k].pc == s[i].pc,
        run_end(s, i, j) < s.len() ==> s[run_end(s, i, j)].pc != s[i].pc,
    decreases s.len() - j,
{
    if j < s.len() && s[j].pc == s[i].pc {
        lemma_run_end(s, i, j + 1);
    }
}

pub(crate) proof fn lemma_first_ge(dest: Seq<Getter<usize>>, pc: usize, l: int)
    requires
        0 <= l <= dest.len(),
        forall|k: int| 0 <= k < l ==> #[trigger] dest[k].pc < pc,
    ensures
        l <= first_ge(dest, pc, l) <= dest.len(),
        forall|k: int| 0 <= k < first_ge(dest, pc, l) ==> #[trigger] dest[k].pc < pc,
        first_ge(dest, pc, l) < dest.len() ==> dest[first_ge(dest, pc, l)].pc >= pc,
    decreases dest.len() - l,
{
    if l < dest.len() && dest[l].pc < pc {
        lemma_first_ge(dest, pc, l + 1);
    }
}

/// Inserting getters keeps a getter list sorted by pc, and keeps every getter
/// already there.
pub proof fn lemma_insert_getters_sorted(dest: Seq<Getter<usize>>, ins: Seq<Getter<usize>>, i: int)
    requires
        getters_sorted(dest),
        0 <= i <= ins.len(),
    ensures
        getters_sorted(insert_getters_spec(dest, ins, i)),
        insert_getters_spec(dest, ins, i).len() == dest.len() + ins.len() - i,
    decreases ins.len() - i,
{
    if i < ins.len() {
        lemma_run_end(ins, i, i + 1);
        lemma_first_ge(dest, ins[i].pc, 0);
        let e = run_end(ins, i, i + 1);
        let l = first_ge(dest, ins[i].pc, 0);
        let nd = dest.take(l) + ins.subrange(i, e) + dest.skip(l);
        assert(getters_sorted(nd)) by {
            assert forall|a: int, b: int| 0 <= a <= b < nd.len() implies #[trigger] nd[a].pc <= #[trigger] nd[b].pc by {
                let p = ins[i].pc;
                let c = e - i;
                if a < l {
                    assert(nd[a] == dest[a]);
                    if b < l {
                        assert(nd[b] == dest[b]);
                    } else if b < l + c {
                        assert(nd[b] == ins[i + b - l]);
                    } else {
                        assert(nd[b] == dest[b - c]);
                        assert(dest[l].pc >= p);
                    }
                } else if a < l + c {
                    assert(nd[a] == ins[i + a - l]);
                    if b < l + c {
                        assert(nd[b] == ins[i + b - l]);
                    } else {
                        assert(nd[b] == dest[b - c]);
                        assert(dest[l].pc >= p);
                    }
                } else {
                    assert(nd[a] == dest[a - c]);
                    assert(nd[b] == dest[b - c]);
                }
            }
        }
        lemma_insert_getters_sorted(nd, ins, e);
    }
}

/// Insert getters in `to_insert` into `dest`. Getters with the same pc will be
/// inserted in the order they appear in `to_insert`, but they will be inserted
/// before any other existing getters in `dest` with the same pc.
fn insert_getters(dest: &mut Vec<Getter<usize>>, to_insert: &Vec<Getter<usize>>)
    ensures
        final(dest)@ == insert_getters_spec(old(dest)@, to_insert@, 0),
        final(dest).len() == old(dest).len() + to_insert.len(),
{
    let ghost d0 = dest@;
    let n = to_insert.len();
    let mut i: usize = 0;
    while i < n
        invariant
            n == to_insert.len(),
            i <= n,
            insert_getters_spec(d0, to_insert@, 0) == insert_getters_spec(dest@, to_insert@, i as int),
            dest.len() + n - i == d0.len() + n,
        decreases n - i,
    {
        // find the end of the chunk of getters with the same pc
        let getter_pc = to_insert[i].pc;
        let mut e = i + 1;
        while e < n && to_insert[e].pc == getter_pc
            invariant
                n == to_insert.len(),
                i < e <= n,
                getter_pc == to_insert@[i as int].pc,
                forall|k: int| i <= k < e ==> #[trigger] to_insert@[k].pc == getter_pc,
                run_end(to_insert@, i as int, i + 1) == run_end(to_insert@, i as int, e as int),
            decreases n - e,
        {
            e = e + 1;
        }
        proof {
            lemma_run_end(to_insert@, i as int, e as int);
        }
        // find the correct index into `dest` at which to insert the getters
        let mut l: usize = 0;
        while l < dest.len() && dest[l].pc < getter_pc
            invariant
                l <= dest.len(),
                first_ge(dest@, getter_pc, 0) == first_ge(dest@, getter_pc, l as int),
            decreases dest.len() - l,
        {
            l = l + 1;
        }
        // insert all getters destined for `getter_pc` at point `l`
        let ghost before = dest@;
        let mut k = i;
        while k < e
            invariant
                i <= k <= e <= n,
                n == to_insert.len(),
                l <= before.len(),
                dest@ == before.take(l as int) + to_insert@.subrange(i as int, k as int) + before.skip(l as int),
            decreases e - k,
        {
            assert(dest.len() == before.len() + (k - i));
            dest.insert(l + (k - i), to_insert[k]);
            proof {
                assert(dest@ =~= before.take(l as int) + to_insert@.subrange(i as int, k + 1) + before.skip(l as int));
            }
            k = k + 1;
        }
        i = e;
    }
}

// ---------------------------------------------------------------------------
// stackify
// ---------------------------------------------------------------------------

/// The span of operands released so far for the current instruction:
/// `(first_released, insertion_pc)`.
pub type Span = Option<(usize, usize)>;

/// The state carried from one input to the next while the inputs of
/// `current` are processed.
pub ghost struct InputWalk {
    pub span: Span,
    pub current_getters: Seq<Getter<usize>>,
    pub forest: Seq<InsnTreeInfo<usize>>,
}

/// Handles one input of `current`: release it if possible, otherwise plan a
/// getter for it.
pub open spec fn stackify_input_step<T: InsnSequence>(seq: &T, current: usize, w: InputWalk, input: usize) -> InputWalk {
    let forest = w.forest;
    let releasable = seq.spec_instructions().contains(input)
        && forest[input as int].output_mode == OutputMode::<usize>::Available
        && match w.span {
            Some((_, ins)) => input >= ins,
            None => true,
        }
        && (forall|k: int| 0 <= k < w.current_getters.len() ==> #[trigger] w.current_getters[k].value < forest[input as int].subtree_start);
    if releasable {
        let st = forest[input as int].subtree_start;
        InputWalk {
            span: match w.span {
                Some((first, _)) => Some((first, seq.spec_succ_of(input))),
                None => Some((input, seq.spec_succ_of(input))),
            },
            current_getters: if w.span is None {
                w.current_getters.map_values(|g: Getter<usize>| Getter { pc: st, value: g.value })
            } else {
                w.current_getters
            },
            forest: forest.update(
                input as int,
                InsnTreeInfo { output_mode: OutputMode::Release { parent: current }, ..forest[input as int] },
            ),
        }
    } else {
        match w.span {
            Some((first, ins)) => {
                let root = find_root_spec(forest, input, current);
                let ins2 = if root != current && root > ins { seq.spec_succ_of(root) } else { ins };
                InputWalk {
                    span: Some((first, ins2)),
                    current_getters: w.current_getters.push(Getter { pc: ins2, value: input }),
                    forest,
                }
            },
            None => InputWalk {
                current_getters: w.current_getters.push(Getter { pc: current, value: input }),
                ..w
            },
        }
    }
}

/// The walk state after the first `k` inputs of `current`.
pub open spec fn stackify_inputs<T: InsnSequence>(
    seq: &T,
    current: usize,
    forest: Seq<InsnTreeInfo<usize>>,
    k: nat,
) -> InputWalk
    decreases k,
{
    if k == 0 {
        InputWalk { span: None, current_getters: Seq::empty(), forest }
    } else {
        stackify_input_step(seq, current, stackify_inputs(seq, current, forest, (k - 1) as nat), seq.spec_inputs_of(current)[k - 1])
    }
}

/// Captures every available instruction of the sequence in
/// `first..current`, on behalf of `current`.
pub open spec fn lock_range<T: InsnSequence>(
    seq: &T,
    forest: Seq<InsnTreeInfo<usize>>,
    first: usize,
    current: usize,
) -> Seq<InsnTreeInfo<usize>> {
    Seq::new(
        forest.len(),
        |j: int|
            if seq.spec_instructions().contains(j as usize) && first <= j < current
                && forest[j].output_mode == OutputMode::<usize>::Available {
                InsnTreeInfo { output_mode: OutputMode::Capture { parent: current }, ..forest[j] }
            } else {
                forest[j]
            },
    )
}

/// The stackification state after processing the instruction `current`.
pub open spec fn stackify_insn<T: InsnSequence>(
    seq: &T,
    forest: Seq<InsnTreeInfo<usize>>,
    getters: Seq<Getter<usize>>,
    current: usize,
) -> (Seq<InsnTreeInfo<usize>>, Seq<Getter<usize>>) {
    let w = stackify_inputs(seq, current, forest, seq.spec_inputs_of(current).len());
    let f = match w.span {
        Some((first, _)) => {
            let f0 = w.forest.update(
                current as int,
                InsnTreeInfo { subtree_start: w.forest[first as int].subtree_start, ..w.forest[current as int] },
            );
            lock_range(seq, f0, first, current)
        },
        None => w.forest,
    };
    (f, insert_getters_spec(getters, w.current_getters, 0))
}

/// The stackification state after processing the first `k` instructions.
pub open spec fn stackify_prefix<T: InsnSequence>(
    seq: &T,
    forest: Seq<InsnTreeInfo<usize>>,
    getters: Seq<Getter<usize>>,
    k: nat,
) -> (Seq<InsnTreeInfo<usize>>, Seq<Getter<usize>>)
    decreases k,
{
    if k == 0 {
        (forest, getters)
    } else {
        let (f, g) = stackify_prefix(seq, forest, getters, (k - 1) as nat);
        stackify_insn(seq, f, g, seq.spec_instructions()[k - 1])
    }
}

/// The requirements on a sequence for stackification with a forest of
/// `len` entries: instructions come in increasing pc order, lie inside the
/// forest, and only use instructions computed before them.
pub open spec fn seq_wf<T: InsnSequence>(seq: &T, len: nat) -> bool {
    let pcs = seq.spec_instructions();
    &&& forall|a: int, b: int| 0 <= a < b < pcs.len() ==> #[trigger] pcs[a] < #[trigger] pcs[b]
    &&& forall|a: int| 0 <= a < pcs.len() ==> #[trigger] pcs[a] < len
    &&& forall|a: int, k: int|
        0 <= a < pcs.len() && 0 <= k < seq.spec_inputs_of(pcs[a]).len() ==> #[trigger] seq.spec_inputs_of(pcs[a])[k] < #[trigger] pcs[a]
}

/// Every instruction of the sequence lies inside a forest of `len` entries.
pub open spec fn seq_in_forest<T: InsnSequence>(seq: &T, len: nat) -> bool {
    let pcs = seq.spec_instructions();
    forall|a: int| 0 <= a < pcs.len() ==> #[trigger] pcs[a] < len
}

/// Every instruction of the sequence only uses instructions computed before
/// it.
pub open spec fn inputs_before<T: InsnSequence>(seq: &T) -> bool {
    let pcs = seq.spec_instructions();
    forall|a: int, k: int|
        0 <= a < pcs.len() && 0 <= k < seq.spec_inputs_of(pcs[a]).len() ==> #[trigger] seq.spec_inputs_of(pcs[a])[k] < #[trigger] pcs[a]
}

/// `forest` with every available instruction in `locked` captured on behalf
/// of `current`.
pub open spec fn lock_set(forest: Seq<InsnTreeInfo<usize>>, locked: Seq<usize>, current: usize) -> Seq<InsnTreeInfo<usize>> {
    Seq::new(
        forest.len(),
        |j: int|
            if locked.contains(j as usize) && forest[j].output_mode == OutputMode::<usize>::Available {
                InsnTreeInfo { output_mode: OutputMode::Capture { parent: current }, ..forest[j] }
            } else {
                forest[j]
            },
    )
}

fn is_available(m: OutputMode<usize>) -> (r: bool)
    ensures
        r == (m == OutputMode::<usize>::Available),
{
    match m {
        OutputMode::Available => true,
        _ => false,
    }
}

/// Whether every planned getter reads a value computed before `st`.
fn getters_before(getters: &Vec<Getter<usize>>, st: usize) -> (r: bool)
    ensures
        r == (forall|k: int| 0 <= k < getters.len() ==> #[trigger] getters@[k].value < st),
{
    let mut k: usize = 0;
    while k < getters.len()
        invariant
            k <= getters.len(),
            forall|j: int| 0 <= j < k ==> #[trigger] getters@[j].value < st,
        decreases getters.len() - k,
    {
        if getters[k].value >= st {
            return false;
        }
        k = k + 1;
    }
    true
}

/// Moves all planned getters to pc `st`.
fn restamp(getters: &mut Vec<Getter<usize>>, st: usize)
    ensures
        final(getters)@ == old(getters)@.map_values(|g: Getter<usize>| Getter { pc: st, value: g.value }),
{
    let ghost g0 = getters@;
    let mut k: usize = 0;
    while k < getters.len()
        invariant
            k <= getters.len(),
            getters.len() == g0.len(),
            forall|j: int| 0 <= j < k ==> #[trigger] getters@[j] == (Getter { pc: st, value: g0[j].value }),
            forall|j: int| k <= j < g0.len() ==> #[trigger] getters@[j] == g0[j],
        decreases g0.len() - k,
    {
        let v = getters[k].value;
        getters.set(k, Getter { pc: st, value: v });
        k = k + 1;
    }
    proof {
        assert(getters@ =~= g0.map_values(|g: Getter<usize>| Getter { pc: st, value: g.value }));
    }
}

/// Processes the instruction `current`: releases or plans getters for its
/// inputs, captures the instructions between its first released input and
/// itself, and records the planned getters.
fn stackify_insn_exec<T: InsnSequence>(seq: &T, stackification: &mut InsnSeqStackification, current: usize)
    requires
        seq_in_forest(seq, old(stackification).forest.len() as nat),
        inputs_before(seq),
        forest_wf(old(stackification).forest@),
        seq.spec_instructions().contains(current),
    ensures
        (final(stackification).forest@, final(stackification).getters@) == stackify_insn(
            seq,
            old(stackification).forest@,
            old(stackification).getters@,
            current,
        ),
        forest_wf(final(stackification).forest@),
        final(stackification).forest.len() == old(stackification).forest.len(),
{
    let ghost f0 = stackification.forest@;
    let ghost g0 = stackification.getters@;
    let ghost pcs = seq.spec_instructions();
    let ghost a = choose|a: int| 0 <= a < pcs.len() && pcs[a] == current;
    let len = stackification.forest.len();
    let inputs = seq.inputs_of(current);
    let mut span: Option<(usize, usize)> = None;
    let mut current_getters: Vec<Getter<usize>> = Vec::new();
    let mut k: usize = 0;
    while k < inputs.len()
        invariant
            k <= inputs.len(),
            inputs@ == seq.spec_inputs_of(current),
            0 <= a < pcs.len() && pcs[a] == current,
            pcs == seq.spec_instructions(),
            seq_in_forest(seq, len as nat),
            inputs_before(seq),
            current < len,
            stackification.forest.len() == len,
            forest_wf(stackification.forest@),
            stackification.getters@ == g0,
            ({
                let w = stackify_inputs(seq, current, f0, k as nat);
                &&& w.span == span
                &&& w.current_getters == current_getters@
                &&& w.forest == stackification.forest@
            }),
            span matches Some((first, _)) ==> first < current,
        decreases inputs.len() - k,
    {
        let input = inputs[k];
        let ghost w = stackify_inputs(seq, current, f0, k as nat);
        assert(seq.spec_inputs_of(pcs[a])[k as int] < pcs[a]);
        let includes = seq.shallow_includes(input);
        let releasable = includes && is_available(stackification.forest[input].output_mode) && match span {
            Some((_, ins)) => input >= ins,
            None => true,
        } && getters_before(&current_getters, stackification.forest[input].subtree_start);
        if releasable {
            let st = stackification.forest[input].subtree_start;
            let succ = seq.succ_of(input);
            match span {
                Some((first, _)) => {
                    span = Some((first, succ));
                },
                None => {
                    span = Some((input, succ));
                    restamp(&mut current_getters, st);
                },
            }
            stackification.forest[input].output_mode = OutputMode::Release { parent: current };
        } else {
            match span {
                Some((first, ins)) => {
                    let root = find_root(&stackification.forest, input, current);
                    let ins2 = if root != current && root > ins {
                        seq.succ_of(root)
                    } else {
                        ins
                    };
                    span = Some((first, ins2));
                    current_getters.push(Getter { pc: ins2, value: input });
                },
                None => {
                    current_getters.push(Getter { pc: current, value: input });
                },
            }
        }
        k = k + 1;
        proof {
            let w2 = stackify_input_step(seq, current, w, input);
            assert(stackify_inputs(seq, current, f0, k as nat) == w2);
            assert(w2.forest =~= stackification.forest@);
            assert(w2.current_getters =~= current_getters@);
        }
    }
    let ghost wf = stackify_inputs(seq, current, f0, inputs.len() as nat);
    assert(wf.span == span && wf.forest == stackification.forest@ && wf.current_getters == current_getters@);
    match span {
        Some((first, _)) => {
            let first_start = stackification.forest[first].subtree_start;
            stackification.forest[current].subtree_start = first_start;
            let ghost f1 = stackification.forest@;
            assert(f1 =~= wf.forest.update(
                current as int,
                InsnTreeInfo { subtree_start: wf.forest[first as int].subtree_start, ..wf.forest[current as int] },
            ));
            let locked = seq.instructions_in_range(first, current);
            let mut j: usize = 0;
            while j < locked.len()
                invariant
                    j <= locked.len(),
                    locked@ == pcs.filter(|pc: usize| first <= pc < current),
                    pcs == seq.spec_instructions(),
                    seq_in_forest(seq, len as nat),
                    current < len,
                    f1.len() == len,
                    forest_wf(f1),
                    stackification.forest.len() == len,
                    stackification.forest@ == lock_set(f1, locked@.take(j as int), current),
                    stackification.getters@ == g0,
                decreases locked.len() - j,
            {
                let pc = locked[j];
                proof {
                    let pred = |pc: usize| first <= pc < current;
                    assert(locked@[j as int] == pc);
                    assert(locked@.contains(pc));
                    pcs.lemma_filter_contains_rev(pred, pc);
                    pcs.lemma_filter_pred(pred, j as int);
                    let b = choose|b: int| 0 <= b < pcs.len() && pcs[b] == pc;
                    assert(pcs[b] < len);
                }
                if is_available(stackification.forest[pc].output_mode) {
                    stackification.forest[pc].output_mode = OutputMode::Capture { parent: current };
                }
                proof {
                    let s1 = locked@.take(j + 1);
                    assert(s1 =~= locked@.take(j as int).push(pc));
                    assert forall|x: usize| s1.contains(x) <==> (locked@.take(j as int).contains(x) || x == pc) by {
                        let t0 = locked@.take(j as int);
                        if t0.contains(x) {
                            let q = choose|q: int| 0 <= q < t0.len() && t0[q] == x;
                            assert(s1[q] == x);
                        }
                        if s1.contains(x) && x != pc {
                            let q = choose|q: int| 0 <= q < s1.len() && s1[q] == x;
                            assert(t0[q] == x);
                        }
                        if x == pc {
                            assert(s1[j as int] == x);
                        }
                    }
                    assert(stackification.forest@ =~= lock_set(f1, s1, current));
                }
                j = j + 1;
            }
            proof {
                assert(locked@.take(locked.len() as int) =~= locked@);
                let pred = |pc: usize| first <= pc < current;
                pcs.filter_lemma(pred);
                assert forall|x: usize| locked@.contains(x) <==> (pcs.contains(x) && first <= x < current) by {
                    if pcs.contains(x) && first <= x < current {
                        let b = choose|b: int| 0 <= b < pcs.len() && pcs[b] == x;
                        pcs.lemma_filter_contains(pred, b);
                    }
                    if locked@.contains(x) {
                        pcs.lemma_filter_contains_rev(pred, x);
                        let q = choose|q: int| 0 <= q < locked@.len() && locked@[q] == x;
                        pcs.lemma_filter_pred(pred, q);
                    }
                }
                assert(stackification.forest@ =~= lock_range(seq, f1, first, current));
            }
        },
        None => {},
    }
    assert(stackification.getters@ == g0);
    assert(stackification.forest@ == stackify_insn(seq, f0, g0, current).0);
    insert_getters(&mut stackification.getters, &current_getters);
    assert(stackification.getters@ == stackify_insn(seq, f0, g0, current).1);
}

/// Calculates how the given instruction sequence with linear control flow can
/// be made to execute correctly on a stack machine, without reordering any
/// instruction.
///
/// Instructions are processed in order. For the inputs `A_0, A_1, ...` of an
/// instruction `C`, in argument order, `A_x` is released onto the operand
/// stack for `C` if it belongs to the sequence, is still available, comes no
/// earlier than the point where the previous input was provided, and is
/// computed after every earlier input that needs a getter. Otherwise a getter
/// for `A_x` is planned right after the previously provided input (or after
/// the root of the subtree that computes `A_x`, whichever is later), or before
/// `C` if nothing was released yet. Every still available instruction between
/// the first released input and `C` is captured on behalf of `C`.
///
/// On return, the output mode at pc `i` tells which manipulator goes after
/// the instruction at `i`, and each getter `(pc, value)` tells that a local
/// variable getter for `value` goes before the instruction at `pc`; getters
/// with the same pc are inserted in the order they appear.
///
/// Started from a fresh forest and no getters, on a sequence whose
/// instructions come in increasing pc order, are each succeeded by the next,
/// and use values computed earlier in the sequence or before it, the result
/// always passes `verify_stackification`.
pub fn stackify<T: InsnSequence>(seq: &T, stackification: &mut InsnSeqStackification)
    requires
        seq_in_forest(seq, old(stackification).forest.len() as nat),
        inputs_before(seq),
        forest_wf(old(stackification).forest@),
    ensures
        (final(stackification).forest@, final(stackification).getters@) == stackify_prefix(
            seq,
            old(stackification).forest@,
            old(stackification).getters@,
            seq.spec_instructions().len(),
        ),
        final(stackification).forest.len() == old(stackification).forest.len(),
        forest_wf(final(stackification).forest@),
        getters_sorted(old(stackification).getters@) ==> getters_sorted(final(stackification).getters@),
        seq_wf(seq, old(stackification).forest.len() as nat) && fresh_forest(old(stackification).forest@)
            && old(stackification).getters.len() == 0 && succ_links(seq) && outside_inputs_first(seq)
            ==> stackification_result(
            seq,
            final(stackification).forest@,
            final(stackification).getters@,
        ) == Ok::<(), usize>(()),
{
    let ghost f0 = stackification.forest@;
    let ghost g0 = stackification.getters@;
    let len = stackification.forest.len();
    let insns = seq.instructions();
    let mut idx: usize = 0;
    while idx < insns.len()
        invariant
            idx <= insns.len(),
            insns@ == seq.spec_instructions(),
            seq_in_forest(seq, len as nat),
            inputs_before(seq),
            stackification.forest.len() == len,
            forest_wf(stackification.forest@),
            (stackification.forest@, stackification.getters@) == stackify_prefix(seq, f0, g0, idx as nat),
            getters_sorted(g0) ==> getters_sorted(stackification.getters@),
        decreases insns.len() - idx,
    {
        let current = insns[idx];
        assert(insns@[idx as int] == current);
        let ghost before = stackification.getters@;
        stackify_insn_exec(seq, stackification, current);
        proof {
            if getters_sorted(g0) {
                let w0 = stackify_inputs(
                    seq,
                    current,
                    stackify_prefix(seq, f0, g0, idx as nat).0,
                    seq.spec_inputs_of(current).len(),
                );
                lemma_insert_getters_sorted(before, w0.current_getters, 0);
            }
        }
        idx = idx + 1;
    }
    proof {
        if seq_wf(seq, len as nat) && fresh_forest(f0) && g0.len() == 0 && succ_links(seq) && outside_inputs_first(
            seq,
        ) {
            assert(g0 =~= Seq::<Getter<usize>>::empty());
            law_stackify_verifies(seq, f0);
        }
    }
}

// ---------------------------------------------------------------------------
// verification of a stackification
// ---------------------------------------------------------------------------

/// The state of a simulated stack machine run.
pub ghost struct StackRun {
    pub op_stack: Seq<usize>,
    /// The position of the next getter to consider.
    pub next_getter: nat,
    /// The instruction at which the run failed, if it failed.
    pub failed_at: Option<usize>,
}

/// Runs the getters placed before `insn`, starting from getter `g`: getters
/// for earlier pcs (inside compound instructions) are skipped, a getter for a
/// value not computed before `insn` fails the run, and every other getter
/// pushes its value. Returns the next getter, the operand stack, and whether
/// the run failed.
pub open spec fn run_getters(
    getters: Seq<Getter<usize>>,
    g: nat,
    insn: usize,
    op: Seq<usize>,
) -> (nat, Seq<usize>, bool)
    decreases getters.len() - g,
{
    if g >= getters.len() || getters[g as int].pc > insn {
        (g, op, false)
    } else if getters[g as int].pc != insn {
        run_getters(getters, g + 1, insn, op)
    } else if getters[g as int].value >= insn {
        (g + 1, op, true)
    } else {
        run_getters(getters, g + 1, insn, op.push(getters[g as int].value))
    }
}

/// Pops the inputs off the operand stack, last input first; `None` if the
/// stack does not end with exactly these inputs.
pub open spec fn pop_inputs(op: Seq<usize>, ins: Seq<usize>) -> Option<Seq<usize>>
    decreases ins.len(),
{
    if ins.len() == 0 {
        Some(op)
    } else if op.len() > 0 && op.last() == ins.last() {
        pop_inputs(op.drop_last(), ins.drop_last())
    } else {
        None
    }
}

/// Executes `insn` on the simulated stack machine.
pub open spec fn run_insn<T: InsnSequence>(
    seq: &T,
    forest: Seq<InsnTreeInfo<usize>>,
    getters: Seq<Getter<usize>>,
    s: StackRun,
    insn: usize,
) -> StackRun {
    if s.failed_at is Some {
        s
    } else {
        let (g, op, failed) = run_getters(getters, s.next_getter, insn, s.op_stack);
        if failed {
            StackRun { op_stack: op, next_getter: g, failed_at: Some(insn) }
        } else {
            match pop_inputs(op, seq.spec_inputs_of(insn)) {
                None => StackRun { op_stack: op, next_getter: g, failed_at: Some(insn) },
                Some(op2) => StackRun {
                    op_stack: if forest[insn as int].output_mode is Capture { op2 } else { op2.push(insn) },
                    next_getter: g,
                    failed_at: None,
                },
            }
        }
    }
}

/// The simulated run after the first `k` instructions.
pub open spec fn run_prefix<T: InsnSequence>(
    seq: &T,
    forest: Seq<InsnTreeInfo<usize>>,
    getters: Seq<Getter<usize>>,
    k: nat,
) -> StackRun
    decreases k,
{
    if k == 0 {
        StackRun { op_stack: Seq::empty(), next_getter: 0, failed_at: None }
    } else {
        run_insn(seq, forest, getters, run_prefix(seq, forest, getters, (k - 1) as nat), seq.spec_instructions()[k - 1])
    }
}

/// Whether the stackification makes the sequence run correctly on a stack
/// machine: `Err(pc)` names the first instruction that would not find its
/// inputs on top of the operand stack in order.
pub open spec fn stackification_result<T: InsnSequence>(
    seq: &T,
    forest: Seq<InsnTreeInfo<usize>>,
    getters: Seq<Getter<usize>>,
) -> Result<(), usize> {
    match run_prefix(seq, forest, getters, seq.spec_instructions().len()).failed_at {
        Some(pc) => Err(pc),
        None => Ok(()),
    }
}

/// Verifies if the given stackfication is correct with respect to the given
/// instruction sequence. Returns an error with the instruction at which an
/// error occurs.
#[verifier::loop_isolation(false)]
pub fn verify_stackification<T: InsnSequence>(seq: &T, stackification: &InsnSeqStackification) -> (r: Result<(), usize>)
    requires
        seq_in_forest(seq, stackification.forest.len() as nat),
    ensures
        r == stackification_result(seq, stackification.forest@, stackification.getters@),
{
    let ghost forest = stackification.forest@;
    let ghost getters = stackification.getters@;
    let insns = seq.instructions();
    let mut op_stack: Vec<usize> = Vec::new();
    let mut g: usize = 0;
    let mut idx: usize = 0;
    while idx < insns.len()
        invariant
            idx <= insns.len(),
            insns@ == seq.spec_instructions(),
            seq_in_forest(seq, stackification.forest.len() as nat),
            g <= getters.len(),
            getters == stackification.getters@,
            forest == stackification.forest@,
            ({
                let s = run_prefix(seq, forest, getters, idx as nat);
                &&& s.failed_at is None
                &&& s.op_stack == op_stack@
                &&& s.next_getter == g as nat
            }),
        decreases insns.len() - idx,
    {
        let insn = insns[idx];
        let ghost s = run_prefix(seq, forest, getters, idx as nat);
        assert(run_prefix(seq, forest, getters, (idx + 1) as nat) == run_insn(seq, forest, getters, s, insn));
        let ghost rg = run_getters(getters, g as nat, insn, op_stack@);
        // resolve all local getters before this instruction
        while g < stackification.getters.len() && stackification.getters[g].pc <= insn
            invariant
                g <= getters.len(),
                getters == stackification.getters@,
                rg == run_getters(getters, g as nat, insn, op_stack@),
            decreases getters.len() - g,
        {
            let getter = stackification.getters[g];
            g = g + 1;
            // skip over getters that are meant for instructions inside
            // compound instructions
            if getter.pc != insn {
                continue;
            }
            // the instruction being gotten must have been calculated already
            if getter.value >= insn {
                proof {
                    lemma_run_prefix_failed(seq, forest, getters, (idx + 1) as nat, insns.len() as nat);
                }
                return Err(insn);
            }
            op_stack.push(getter.value);
        }
        assert(rg == (g as nat, op_stack@, false));
        // take input operands off the operand stack
        let inputs = seq.inputs_of(insn);
        let ghost popped = pop_inputs(op_stack@, inputs@);
        assert(inputs@.take(inputs.len() as int) =~= inputs@);
        let mut k = inputs.len();
        while k > 0
            invariant
                k <= inputs.len(),
                popped == pop_inputs(op_stack@, inputs@.take(k as int)),
            decreases k,
        {
            let ghost before = op_stack@;
            let top = op_stack.pop();
            let expected = inputs[k - 1];
            proof {
                let t = inputs@.take(k as int);
                assert(t.last() == expected);
                assert(t.drop_last() =~= inputs@.take(k - 1));
            }
            match top {
                Some(x) => {
                    if x != expected {
                        proof {
                            lemma_run_prefix_failed(seq, forest, getters, (idx + 1) as nat, insns.len() as nat);
                        }
                        return Err(insn);
                    }
                },
                None => {
                    proof {
                        lemma_run_prefix_failed(seq, forest, getters, (idx + 1) as nat, insns.len() as nat);
                    }
                    return Err(insn);
                },
            }
            k = k - 1;
        }
        assert(inputs@.take(0) =~= Seq::<usize>::empty());
        // push the result onto the operand stack unless it is captured
        proof {
            let a = idx as int;
            assert(seq.spec_instructions()[a] < forest.len());
        }
        match stackification.forest[insn].output_mode {
            OutputMode::Capture { .. } => {},
            _ => {
                op_stack.push(insn);
            },
        }
        idx = idx + 1;
    }
    Ok(())
}

/// Whether the operand stack `op` ends with `ins`, the last input on top.
pub open spec fn ends_with(op: Seq<usize>, ins: Seq<usize>) -> bool {
    ins.len() <= op.len() && op.subrange(op.len() - ins.len(), op.len() as int) == ins
}

/// Popping inputs succeeds exactly when the operand stack ends with the
/// inputs in argument order (the last input on top), and then leaves the
/// stack below them.
pub proof fn law_pop_inputs(op: Seq<usize>, ins: Seq<usize>)
    ensures
        pop_inputs(op, ins) == if ends_with(op, ins) {
            Some(op.subrange(0, op.len() - ins.len()))
        } else {
            None::<Seq<usize>>
        },
    decreases ins.len(),
{
    let n = op.len() as int;
    let m = ins.len() as int;
    if m == 0 {
        assert(op.subrange(n, n) =~= ins);
        assert(op.subrange(0, n) =~= op);
    } else if n > 0 && op.last() == ins.last() {
        law_pop_inputs(op.drop_last(), ins.drop_last());
        let op1 = op.drop_last();
        let ins1 = ins.drop_last();
        if m <= n {
            assert(op1.subrange(0, (n - 1) - (m - 1)) =~= op.subrange(0, n - m));
            if op.subrange(n - m, n) == ins {
                assert(op1.subrange((n - 1) - (m - 1), n - 1) =~= ins1) by {
                    assert forall|i: int| 0 <= i < m - 1 implies op1.subrange((n - 1) - (m - 1), n - 1)[i] == ins1[i] by {
                        assert(op.subrange(n - m, n)[i] == ins[i]);
                    }
                }
            }
            if op1.subrange((n - 1) - (m - 1), n - 1) == ins1 {
                assert(op.subrange(n - m, n) =~= ins) by {
                    assert forall|i: int| 0 <= i < m implies op.subrange(n - m, n)[i] == ins[i] by {
                        if i < m - 1 {
                            assert(op1.subrange((n - 1) - (m - 1), n - 1)[i] == ins1[i]);
                        }
                    }
                }
            }
        }
    } else {
        if m <= n {
            assert(op.subrange(n - m, n)[m - 1] == op.last());
        }
    }
}

/// The values that the getters `g..j` place before `insn` push, in order.
pub open spec fn gotten(getters: Seq<Getter<usize>>, g: int, j: int, insn: usize) -> Seq<usize> {
    getters.subrange(g, j).filter(getter_at(insn)).map_values(getter_value())
}

/// Whether a getter is placed before `insn`.
pub open spec fn getter_at(insn: usize) -> spec_fn(Getter<usize>) -> bool {
    |x: Getter<usize>| x.pc == insn
}

/// The value a getter gets.
pub open spec fn getter_value() -> spec_fn(Getter<usize>) -> usize {
    |x: Getter<usize>| x.value
}

/// The getters placed before an instruction, up to the first getter of a
/// later pc, push their values onto the operand stack in order (getters of
/// earlier pcs are skipped), provided each gets a value computed before the
/// instruction; a getter for a value not computed before the instruction
/// makes the run fail.
pub proof fn law_run_getters(getters: Seq<Getter<usize>>, g: int, j: int, insn: usize, op: Seq<usize>)
    requires
        0 <= g <= j <= getters.len(),
        forall|i: int| g <= i < j ==> (#[trigger] getters[i]).pc <= insn,
    ensures
        (forall|i: int| g <= i < j && (#[trigger] getters[i]).pc == insn ==> getters[i].value < insn)
            && (j == getters.len() || getters[j].pc > insn) ==> run_getters(getters, g as nat, insn, op) == (
            j as nat,
            op + gotten(getters, g, j, insn),
            false,
        ),
        j < getters.len() && getters[j].pc == insn && getters[j].value >= insn ==> run_getters(
            getters,
            g as nat,
            insn,
            op,
        ).2,
    decreases j - g,
{
    let p = getter_at(insn);
    let f = getter_value();
    if g == j {
        assert(getters.subrange(g, j) =~= Seq::<Getter<usize>>::empty());
        assert(gotten(getters, g, j, insn) =~= Seq::<usize>::empty());
        assert(op + Seq::<usize>::empty() =~= op);
    } else {
        let x = getters[g];
        let rest = getters.subrange(g + 1, j);
        assert(getters.subrange(g, j) =~= seq![x] + rest);
        rest.lemma_filter_prepend(x, p);
        if x.pc == insn && x.value >= insn {
        } else if x.pc != insn {
            law_run_getters(getters, g + 1, j, insn, op);
            assert(gotten(getters, g, j, insn) =~= gotten(getters, g + 1, j, insn));
        } else {
            law_run_getters(getters, g + 1, j, insn, op.push(x.value));
            assert((seq![x] + rest.filter(p)).map_values(f) =~= seq![x.value] + rest.filter(p).map_values(f));
            assert(gotten(getters, g, j, insn) =~= seq![x.value] + gotten(getters, g + 1, j, insn));
            assert(op.push(x.value) + gotten(getters, g + 1, j, insn) =~= op + gotten(getters, g, j, insn));
        }
    }
}

/// An instruction that does not find its inputs, in argument order, on top
/// of the operand stack after its getters ran makes the whole check fail at
/// that instruction; one that does find them has them popped, and its own
/// value pushed unless it is captured.
pub proof fn law_run_insn_checks_inputs<T: InsnSequence>(
    seq: &T,
    forest: Seq<InsnTreeInfo<usize>>,
    getters: Seq<Getter<usize>>,
    k: nat,
)
    requires
        k < seq.spec_instructions().len(),
        run_prefix(seq, forest, getters, k).failed_at is None,
        !run_getters(
            getters,
            run_prefix(seq, forest, getters, k).next_getter,
            seq.spec_instructions()[k as int],
            run_prefix(seq, forest, getters, k).op_stack,
        ).2,
    ensures
        ({
            let s = run_prefix(seq, forest, getters, k);
            let insn = seq.spec_instructions()[k as int];
            let op = run_getters(getters, s.next_getter, insn, s.op_stack).1;
            let ins = seq.spec_inputs_of(insn);
            let below = op.subrange(0, op.len() - ins.len());
            &&& !ends_with(op, ins) ==> stackification_result(seq, forest, getters) == Err::<(), usize>(insn)
            &&& ends_with(op, ins) ==> run_prefix(seq, forest, getters, k + 1).failed_at is None
                && run_prefix(seq, forest, getters, k + 1).op_stack == if forest[insn as int].output_mode is Capture {
                    below
                } else {
                    below.push(insn)
                }
        }),
{
    let s = run_prefix(seq, forest, getters, k);
    let insn = seq.spec_instructions()[k as int];
    let op = run_getters(getters, s.next_getter, insn, s.op_stack).1;
    law_pop_inputs(op, seq.spec_inputs_of(insn));
    assert(run_prefix(seq, forest, getters, k + 1) == run_insn(seq, forest, getters, s, insn));
    if !ends_with(op, seq.spec_inputs_of(insn)) {
        lemma_run_prefix_failed(seq, forest, getters, k + 1, seq.spec_instructions().len());
    }
}

/// Once a run has failed, it stays failed at the same instruction.
proof fn lemma_run_prefix_failed<T: InsnSequence>(
    seq: &T,
    forest: Seq<InsnTreeInfo<usize>>,
    getters: Seq<Getter<usize>>,
    k: nat,
    n: nat,
)
    requires
        k <= n,
        run_prefix(seq, forest, getters, k).failed_at is Some,
    ensures
        run_prefix(seq, forest, getters, n).failed_at == run_prefix(seq, forest, getters, k).failed_at,
    decreases n - k,
{
    if k < n {
        lemma_run_prefix_failed(seq, forest, getters, k, (n - 1) as nat);
    }
}

} // verus!
