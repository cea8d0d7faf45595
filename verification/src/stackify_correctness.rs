//! Correctness of `stackify`: on a well-formed sequence, starting from a
//! fresh forest and no getters, the stackification it computes passes
//! `verify_stackification`.
//!
//! The proof runs the stack machine segment by segment. After every
//! processed instruction, the instructions that are still available (the
//! roots) split the processed prefix into consecutive segments, one per root,
//! and running a root's segment on any stack pushes exactly that root.

use vstd::prelude::*;
use crate::stackify::{
    find_root_spec, first_ge, getters_sorted, insert_getters_spec, lock_range, parent_of, pop_inputs,
    lemma_first_ge, lemma_insert_getters_sorted, lemma_run_end, run_end, run_getters, run_insn, run_prefix, seq_wf, stackification_result, stackify_input_step,
    stackify_inputs, stackify_insn, stackify_prefix, Getter, InputWalk, InsnSequence, InsnTreeInfo,
    OutputMode, StackRun,
};

verus! {

// ---------------------------------------------------------------------------
// a segment-wise model of the stack machine run
// ---------------------------------------------------------------------------

/// The values of the getters placed at `pc`, in order.
pub open spec fn getter_values(g: Seq<Getter<usize>>, pc: usize) -> Seq<usize>
    decreases g.len(),
{
    if g.len() == 0 {
        Seq::empty()
    } else {
        let r = getter_values(g.drop_last(), pc);
        if g.last().pc == pc {
            r.push(g.last().value)
        } else {
            r
        }
    }
}

/// Every value is below `bound`.
pub open spec fn all_below(s: Seq<usize>, bound: usize) -> bool {
    forall|i: int| 0 <= i < s.len() ==> #[trigger] s[i] < bound
}

/// Runs the getters placed before `pc` and pops the inputs of `pc`.
pub open spec fn pre_step<T: InsnSequence>(seq: &T, g: Seq<Getter<usize>>, pc: usize, s: Seq<usize>) -> Option<Seq<usize>> {
    let vs = getter_values(g, pc);
    if all_below(vs, pc) {
        pop_inputs(s + vs, seq.spec_inputs_of(pc))
    } else {
        None
    }
}

/// Executes the instruction `pc` with its getters.
pub open spec fn step<T: InsnSequence>(
    seq: &T,
    f: Seq<InsnTreeInfo<usize>>,
    g: Seq<Getter<usize>>,
    pc: usize,
    s: Seq<usize>,
) -> Option<Seq<usize>> {
    match pre_step(seq, g, pc, s) {
        None => None,
        Some(s2) => Some(
            if f[pc as int].output_mode is Capture {
                s2
            } else {
                s2.push(pc)
            },
        ),
    }
}

/// Runs the instructions at positions `i..j` of the sequence from stack `s`.
pub open spec fn run_seg<T: InsnSequence>(
    seq: &T,
    f: Seq<InsnTreeInfo<usize>>,
    g: Seq<Getter<usize>>,
    i: int,
    j: int,
    s: Seq<usize>,
) -> Option<Seq<usize>>
    decreases j - i,
{
    if j <= i {
        Some(s)
    } else {
        match run_seg(seq, f, g, i, j - 1, s) {
            None => None,
            Some(s1) => step(seq, f, g, seq.spec_instructions()[j - 1], s1),
        }
    }
}

proof fn lemma_run_seg_concat<T: InsnSequence>(
    seq: &T,
    f: Seq<InsnTreeInfo<usize>>,
    g: Seq<Getter<usize>>,
    i: int,
    j: int,
    k: int,
    s: Seq<usize>,
)
    requires
        i <= j <= k,
    ensures
        run_seg(seq, f, g, i, k, s) == (match run_seg(seq, f, g, i, j, s) {
            None => None,
            Some(s1) => run_seg(seq, f, g, j, k, s1),
        }),
    decreases k - j,
{
    if k > j {
        lemma_run_seg_concat(seq, f, g, i, j, k - 1, s);
    }
}

proof fn lemma_pop_inputs_frame(pre: Seq<usize>, op: Seq<usize>, ins: Seq<usize>)
    requires
        pop_inputs(op, ins) is Some,
    ensures
        pop_inputs(pre + op, ins) == Some(pre + pop_inputs(op, ins).unwrap()),
    decreases ins.len(),
{
    if ins.len() > 0 {
        assert((pre + op).last() == op.last());
        assert((pre + op).drop_last() =~= pre + op.drop_last());
        lemma_pop_inputs_frame(pre, op.drop_last(), ins.drop_last());
    }
}

proof fn lemma_pop_inputs_self(s: Seq<usize>, ins: Seq<usize>)
    ensures
        pop_inputs(s + ins, ins) == Some(s),
    decreases ins.len(),
{
    if ins.len() > 0 {
        assert((s + ins).last() == ins.last());
        assert((s + ins).drop_last() =~= s + ins.drop_last());
        lemma_pop_inputs_self(s, ins.drop_last());
    } else {
        assert(s + ins =~= s);
    }
}

proof fn lemma_run_seg_frame<T: InsnSequence>(
    seq: &T,
    f: Seq<InsnTreeInfo<usize>>,
    g: Seq<Getter<usize>>,
    i: int,
    j: int,
    pre: Seq<usize>,
    s: Seq<usize>,
)
    requires
        run_seg(seq, f, g, i, j, s) is Some,
    ensures
        run_seg(seq, f, g, i, j, pre + s) == Some(pre + run_seg(seq, f, g, i, j, s).unwrap()),
    decreases j - i,
{
    if j > i {
        lemma_run_seg_frame(seq, f, g, i, j - 1, pre, s);
        let s1 = run_seg(seq, f, g, i, j - 1, s).unwrap();
        let pc = seq.spec_instructions()[j - 1];
        let vs = getter_values(g, pc);
        assert(pre + s1 + vs =~= pre + (s1 + vs));
        lemma_pop_inputs_frame(pre, s1 + vs, seq.spec_inputs_of(pc));
        let s2 = pop_inputs(s1 + vs, seq.spec_inputs_of(pc)).unwrap();
        assert((pre + s2).push(pc) =~= pre + s2.push(pc));
    }
}

/// Two states run a range alike when they agree there on the getters and on
/// which instructions are captured.
proof fn lemma_run_seg_agree<T: InsnSequence>(
    seq: &T,
    f1: Seq<InsnTreeInfo<usize>>,
    g1: Seq<Getter<usize>>,
    f2: Seq<InsnTreeInfo<usize>>,
    g2: Seq<Getter<usize>>,
    i: int,
    j: int,
    s: Seq<usize>,
)
    requires
        forall|x: int|
            i <= x < j ==> getter_values(g1, #[trigger] seq.spec_instructions()[x]) == getter_values(
                g2,
                seq.spec_instructions()[x],
            ) && (f1[seq.spec_instructions()[x] as int].output_mode is Capture) == (
            f2[seq.spec_instructions()[x] as int].output_mode is Capture),
    ensures
        run_seg(seq, f1, g1, i, j, s) == run_seg(seq, f2, g2, i, j, s),
    decreases j - i,
{
    if j > i {
        lemma_run_seg_agree(seq, f1, g1, f2, g2, i, j - 1, s);
        let pc = seq.spec_instructions()[j - 1];
        assert(getter_values(g1, pc) == getter_values(g2, pc));
    }
}

// ---------------------------------------------------------------------------
// getters at a pc
// ---------------------------------------------------------------------------

proof fn lemma_gv_push(g: Seq<Getter<usize>>, x: Getter<usize>, pc: usize)
    ensures
        getter_values(g.push(x), pc) == if x.pc == pc {
            getter_values(g, pc).push(x.value)
        } else {
            getter_values(g, pc)
        },
{
    assert(g.push(x).drop_last() =~= g);
}

proof fn lemma_gv_add(a: Seq<Getter<usize>>, b: Seq<Getter<usize>>, pc: usize)
    ensures
        getter_values(a + b, pc) == getter_values(a, pc) + getter_values(b, pc),
    decreases b.len(),
{
    if b.len() == 0 {
        assert(a + b =~= a);
        assert(getter_values(a, pc) + getter_values(b, pc) =~= getter_values(a, pc));
    } else {
        lemma_gv_add(a, b.drop_last(), pc);
        assert((a + b).drop_last() =~= a + b.drop_last());
        assert((a + b).last() == b.last());
        if b.last().pc == pc {
            assert(getter_values(a, pc) + getter_values(b.drop_last(), pc).push(b.last().value) =~= (
            getter_values(a, pc) + getter_values(b.drop_last(), pc)).push(b.last().value));
        }
    }
}

proof fn lemma_gv_none(g: Seq<Getter<usize>>, pc: usize)
    requires
        forall|i: int| 0 <= i < g.len() ==> #[trigger] g[i].pc != pc,
    ensures
        getter_values(g, pc) == Seq::<usize>::empty(),
    decreases g.len(),
{
    if g.len() > 0 {
        lemma_gv_none(g.drop_last(), pc);
    }
}

/// The pcs of the getters, from position `i` on, never decrease.
pub open spec fn pcs_nondecreasing(s: Seq<Getter<usize>>, i: int) -> bool {
    forall|a: int, b: int| i <= a <= b < s.len() ==> #[trigger] s[a].pc <= #[trigger] s[b].pc
}

/// Inserting getters whose pcs never decrease puts, at every pc, the
/// inserted getters for that pc, in the order they come, before the ones
/// already there.
pub proof fn lemma_insert_values(dest: Seq<Getter<usize>>, ins: Seq<Getter<usize>>, i: int, pc: usize)
    requires
        0 <= i <= ins.len(),
        pcs_nondecreasing(ins, i),
    ensures
        getter_values(insert_getters_spec(dest, ins, i), pc) == getter_values(ins.subrange(i, ins.len() as int), pc)
            + getter_values(dest, pc),
    decreases ins.len() - i,
{
    if i == ins.len() {
        assert(getter_values(ins.subrange(i, ins.len() as int), pc) =~= Seq::<usize>::empty()) by {
            lemma_gv_none(ins.subrange(i, ins.len() as int), pc);
        }
        assert(Seq::<usize>::empty() + getter_values(dest, pc) =~= getter_values(dest, pc));
    } else {
        lemma_run_end(ins, i, i + 1);
        lemma_first_ge(dest, ins[i].pc, 0);
        let p = ins[i].pc;
        let e = run_end(ins, i, i + 1);
        let l = first_ge(dest, p, 0);
        let run = ins.subrange(i, e);
        let rest = ins.subrange(e, ins.len() as int);
        let nd = dest.take(l) + run + dest.skip(l);
        assert(dest =~= dest.take(l) + dest.skip(l));
        lemma_gv_add(dest.take(l), dest.skip(l), pc);
        lemma_gv_add(dest.take(l) + run, dest.skip(l), pc);
        lemma_gv_add(dest.take(l), run, pc);
        assert(ins.subrange(i, ins.len() as int) =~= run + rest);
        lemma_gv_add(run, rest, pc);
        lemma_insert_values(nd, ins, e, pc);
        if pc == p {
            lemma_gv_none(dest.take(l), pc);
            assert forall|b: int| 0 <= b < rest.len() implies #[trigger] rest[b].pc != pc by {
                assert(rest[b] == ins[e + b]);
                assert(ins[e].pc != p);
                assert(ins[e - 1].pc == p);
                assert(ins[e - 1].pc <= ins[e].pc);
                assert(ins[e].pc <= ins[e + b].pc);
            }
            lemma_gv_none(rest, pc);
            assert(Seq::<usize>::empty() + getter_values(run, pc) =~= getter_values(run, pc));
            assert(getter_values(run, pc) + Seq::<usize>::empty() =~= getter_values(run, pc));
            assert(Seq::<usize>::empty() + getter_values(dest.skip(l), pc) =~= getter_values(dest.skip(l), pc));
            assert(getter_values(rest, pc) + getter_values(nd, pc) =~= getter_values(run, pc) + getter_values(
                dest,
                pc,
            ));
        } else {
            assert forall|b: int| 0 <= b < run.len() implies #[trigger] run[b].pc != pc by {
                assert(run[b] == ins[i + b]);
            }
            lemma_gv_none(run, pc);
            assert(getter_values(dest.take(l), pc) + Seq::<usize>::empty() =~= getter_values(dest.take(l), pc));
            assert(Seq::<usize>::empty() + getter_values(rest, pc) =~= getter_values(rest, pc));
        }
        assert(getter_values(rest, pc) + getter_values(nd, pc) + Seq::<usize>::empty() =~= getter_values(rest, pc) + getter_values(nd, pc));
        assert((getter_values(run, pc) + getter_values(rest, pc)) + getter_values(dest, pc) =~= getter_values(rest, pc) + getter_values(nd, pc)) by {
            if pc == p {
            } else {
            }
        }
    }
}

/// Every getter after an insertion was in the destination or among the
/// inserted ones.
proof fn lemma_insert_members(dest: Seq<Getter<usize>>, ins: Seq<Getter<usize>>, i: int, good: spec_fn(Getter<usize>) -> bool)
    requires
        0 <= i <= ins.len(),
        forall|a: int| 0 <= a < dest.len() ==> good(#[trigger] dest[a]),
        forall|b: int| i <= b < ins.len() ==> good(#[trigger] ins[b]),
    ensures
        forall|c: int|
            0 <= c < insert_getters_spec(dest, ins, i).len() ==> good(#[trigger] insert_getters_spec(dest, ins, i)[c]),
    decreases ins.len() - i,
{
    if i < ins.len() {
        lemma_run_end(ins, i, i + 1);
        lemma_first_ge(dest, ins[i].pc, 0);
        let e = run_end(ins, i, i + 1);
        let l = first_ge(dest, ins[i].pc, 0);
        let nd = dest.take(l) + ins.subrange(i, e) + dest.skip(l);
        assert forall|a: int| 0 <= a < nd.len() implies good(#[trigger] nd[a]) by {
            let c = e - i;
            if a < l {
                assert(nd[a] == dest[a]);
            } else if a < l + c {
                assert(nd[a] == ins[i + a - l]);
            } else {
                assert(nd[a] == dest[a - c]);
            }
        }
        lemma_insert_members(nd, ins, e, good);
        assert(insert_getters_spec(dest, ins, i) == insert_getters_spec(nd, ins, e));
    }
}

proof fn lemma_gv_all(g: Seq<Getter<usize>>, pc: usize)
    requires
        forall|i: int| 0 <= i < g.len() ==> #[trigger] g[i].pc == pc,
    ensures
        getter_values(g, pc) == g.map_values(|x: Getter<usize>| x.value),
    decreases g.len(),
{
    if g.len() > 0 {
        lemma_gv_all(g.drop_last(), pc);
        assert(g.map_values(|x: Getter<usize>| x.value) =~= g.drop_last().map_values(|x: Getter<usize>| x.value).push(
            g.last().value,
        ));
    } else {
        assert(g.map_values(|x: Getter<usize>| x.value) =~= Seq::<usize>::empty());
    }
}

// ---------------------------------------------------------------------------
// the segment-wise run is the run of `verify_stackification`
// ---------------------------------------------------------------------------

/// The end of the block of getters from `c` on whose pc is at most `p`.
pub open spec fn block_end(g: Seq<Getter<usize>>, p: usize, c: int) -> int
    decreases g.len() - c,
{
    if c < 0 || c >= g.len() || g[c].pc > p {
        c
    } else {
        block_end(g, p, c + 1)
    }
}

proof fn lemma_block_end(g: Seq<Getter<usize>>, p: usize, c: int)
    requires
        0 <= c <= g.len(),
    ensures
        c <= block_end(g, p, c) <= g.len(),
        forall|x: int| c <= x < block_end(g, p, c) ==> #[trigger] g[x].pc <= p,
        block_end(g, p, c) < g.len() ==> g[block_end(g, p, c)].pc > p,
    decreases g.len() - c,
{
    if c < g.len() && g[c].pc <= p {
        lemma_block_end(g, p, c + 1);
    }
}

proof fn lemma_run_getters_block(g: Seq<Getter<usize>>, c: int, d: int, p: usize, op: Seq<usize>)
    requires
        0 <= c <= d <= g.len(),
        forall|x: int| c <= x < d ==> (#[trigger] g[x]).pc == p && g[x].value < p,
        d == g.len() || g[d].pc > p,
    ensures
        run_getters(g, c as nat, p, op) == (d as nat, op + getter_values(g.subrange(c, d), p), false),
    decreases d - c,
{
    if c == d {
        assert(g.subrange(c, d) =~= Seq::<Getter<usize>>::empty());
        assert(op + Seq::<usize>::empty() =~= op);
    } else {
        lemma_run_getters_block(g, c + 1, d, p, op.push(g[c].value));
        assert(g.subrange(c, d) =~= seq![g[c]] + g.subrange(c + 1, d));
        lemma_gv_add(seq![g[c]], g.subrange(c + 1, d), p);
        assert(seq![g[c]] =~= Seq::<Getter<usize>>::empty().push(g[c]));
        lemma_gv_push(Seq::<Getter<usize>>::empty(), g[c], p);
        assert(getter_values(Seq::<Getter<usize>>::empty(), p) == Seq::<usize>::empty());
        assert(getter_values(seq![g[c]], p) =~= seq![g[c].value]);
        assert(op.push(g[c].value) + getter_values(g.subrange(c + 1, d), p) =~= op + (seq![g[c].value]
            + getter_values(g.subrange(c + 1, d), p)));
    }
}

/// The pcs of the sequence strictly increase.
pub open spec fn pcs_increasing(pcs: Seq<usize>) -> bool {
    forall|a: int, b: int| 0 <= a < b < pcs.len() ==> #[trigger] pcs[a] < #[trigger] pcs[b]
}

/// When the getters are sorted and placed at instructions of the sequence,
/// a successful segment-wise run of the first `k` instructions is what
/// `verify_stackification` computes for them.
proof fn lemma_run_prefix_matches<T: InsnSequence>(
    seq: &T,
    f: Seq<InsnTreeInfo<usize>>,
    g: Seq<Getter<usize>>,
    k: nat,
)
    requires
        pcs_increasing(seq.spec_instructions()),
        getters_sorted(g),
        forall|x: int| 0 <= x < g.len() ==> seq.spec_instructions().contains(#[trigger] g[x].pc),
        k <= seq.spec_instructions().len(),
        run_seg(seq, f, g, 0, k as int, Seq::empty()) is Some,
    ensures
        ({
            let r = run_prefix(seq, f, g, k);
            &&& r.failed_at is None
            &&& r.op_stack == run_seg(seq, f, g, 0, k as int, Seq::empty()).unwrap()
            &&& r.next_getter <= g.len()
            &&& forall|x: int| 0 <= x < r.next_getter ==> k > 0 && #[trigger] g[x].pc <= seq.spec_instructions()[k - 1]
            &&& forall|x: int| r.next_getter <= x < g.len() ==> k == 0 || #[trigger] g[x].pc > seq.spec_instructions()[k - 1]
        }),
    decreases k,
{
    let pcs = seq.spec_instructions();
    if k > 0 {
        let j = (k - 1) as nat;
        lemma_run_prefix_matches(seq, f, g, j);
        let prev = run_prefix(seq, f, g, j);
        let c = prev.next_getter as int;
        let p = pcs[j as int];
        lemma_block_end(g, p, c);
        let d = block_end(g, p, c);
        assert forall|x: int| c <= x < g.len() implies #[trigger] g[x].pc >= p by {
            assert(pcs.contains(g[x].pc));
            let a = choose|a: int| 0 <= a < pcs.len() && pcs[a] == g[x].pc;
            if j > 0 {
                assert(g[x].pc > pcs[j - 1]);
                if a < j {
                    if a < j - 1 {
                        assert(pcs[a] < pcs[j - 1]);
                    }
                }
            }
            if a < j {
                assert(pcs[a] < pcs[j as int]);
            }
        }
        assert forall|x: int| c <= x < d implies (#[trigger] g[x]).pc == p by {}
        assert forall|x: int| d <= x < g.len() implies #[trigger] g[x].pc > p by {
            assert(g[d].pc <= g[x].pc);
        }
        assert forall|x: int| 0 <= x < c implies #[trigger] g[x].pc < p by {
            if j > 0 {
                assert(pcs[j - 1] < pcs[j as int]);
            }
        }
        assert(g =~= g.subrange(0, c) + g.subrange(c, d) + g.subrange(d, g.len() as int));
        lemma_gv_add(g.subrange(0, c) + g.subrange(c, d), g.subrange(d, g.len() as int), p);
        lemma_gv_add(g.subrange(0, c), g.subrange(c, d), p);
        lemma_gv_none(g.subrange(0, c), p);
        lemma_gv_none(g.subrange(d, g.len() as int), p);
        let blk = g.subrange(c, d);
        assert(getter_values(g, p) =~= getter_values(blk, p));
        lemma_gv_all(blk, p);
        let s1 = run_seg(seq, f, g, 0, j as int, Seq::empty()).unwrap();
        assert(pre_step(seq, g, p, s1) is Some);
        assert forall|x: int| c <= x < d implies (#[trigger] g[x]).pc == p && g[x].value < p by {
            assert(getter_values(g, p)[x - c] == blk[x - c].value);
        }
        lemma_run_getters_block(g, c, d, p, s1);
    }
}

// ---------------------------------------------------------------------------
// roots, segments and the pushes planned for the current instruction
// ---------------------------------------------------------------------------

/// The position where the segment of the `i`-th root starts: right after the
/// previous root.
pub open spec fn seg_start(ri: Seq<int>, i: int) -> int {
    if i <= 0 {
        0
    } else {
        ri[i - 1] + 1
    }
}

/// The pc where the segment of the `l`-th root starts (for `l` equal to the
/// number of roots: the pc of the instruction being processed).
pub open spec fn bnd(pcs: Seq<usize>, ri: Seq<int>, l: int) -> usize {
    pcs[seg_start(ri, l)]
}

/// Whether `x` is among the first `k` instructions.
pub open spec fn processed(pcs: Seq<usize>, k: int, x: usize) -> bool {
    exists|a: int| 0 <= a < k && pcs[a] == x
}

/// The positions of the roots among the first `k` instructions: increasing,
/// the last one being the last processed instruction.
pub open spec fn roots_ok(ri: Seq<int>, k: int) -> bool {
    &&& forall|a: int, b: int| 0 <= a < b < ri.len() ==> #[trigger] ri[a] < #[trigger] ri[b]
    &&& forall|a: int| 0 <= a < ri.len() ==> 0 <= #[trigger] ri[a] < k
    &&& (k == 0 <==> ri.len() == 0)
    &&& k > 0 ==> ri.last() == k - 1
}

/// Whether the `i`-th root has been released to the instruction being
/// processed.
pub open spec fn released(wf: Seq<InsnTreeInfo<usize>>, pcs: Seq<usize>, ri: Seq<int>, i: int) -> bool {
    wf[pcs[ri[i]] as int].output_mode is Release
}

/// What the segments of the roots `j..i` push when run, the getters `cg`
/// being placed at their starts.
pub open spec fn ps_upto(
    pcs: Seq<usize>,
    ri: Seq<int>,
    wf: Seq<InsnTreeInfo<usize>>,
    cg: Seq<Getter<usize>>,
    j: int,
    i: int,
) -> Seq<usize>
    decreases i - j,
{
    if i <= j {
        Seq::empty()
    } else {
        ps_upto(pcs, ri, wf, cg, j, i - 1) + getter_values(cg, bnd(pcs, ri, i - 1)) + (if released(
            wf,
            pcs,
            ri,
            i - 1,
        ) {
            seq![pcs[ri[i - 1]]]
        } else {
            Seq::empty()
        })
    }
}

/// Everything pushed for the processed instruction, from the segment of
/// the `j`-th root on, when the planned getters `cg` are in place.
pub open spec fn planned(pcs: Seq<usize>, ri: Seq<int>, wf: Seq<InsnTreeInfo<usize>>, cg: Seq<Getter<usize>>, j: int) -> Seq<usize> {
    ps_upto(pcs, ri, wf, cg, j, ri.len() as int) + getter_values(cg, bnd(pcs, ri, ri.len() as int))
}

proof fn lemma_bnd_mono(pcs: Seq<usize>, ri: Seq<int>, k: int, l1: int, l2: int)
    requires
        pcs_increasing(pcs),
        roots_ok(ri, k),
        k < pcs.len(),
        0 <= l1 < l2 <= ri.len(),
    ensures
        seg_start(ri, l1) < seg_start(ri, l2) <= k,
        bnd(pcs, ri, l1) < bnd(pcs, ri, l2),
        l1 < ri.len() ==> seg_start(ri, l1) <= ri[l1] < seg_start(ri, l1 + 1),
        seg_start(ri, ri.len() as int) == k,
{
    if l1 > 0 {
        assert(ri[l1 - 1] < ri[l2 - 1]);
    }
    if l1 < ri.len() && l1 > 0 {
        assert(ri[l1 - 1] < ri[l1]);
    }
    assert(0 <= ri[l2 - 1] < k);
    if ri.len() > 0 {
        assert(ri[ri.len() - 1] == ri.last());
    }
}

proof fn lemma_ps_agree(
    pcs: Seq<usize>,
    ri: Seq<int>,
    wf1: Seq<InsnTreeInfo<usize>>,
    cg1: Seq<Getter<usize>>,
    wf2: Seq<InsnTreeInfo<usize>>,
    cg2: Seq<Getter<usize>>,
    j: int,
    i: int,
)
    requires
        forall|x: int|
            j <= x < i ==> getter_values(cg1, #[trigger] bnd(pcs, ri, x)) == getter_values(cg2, bnd(pcs, ri, x))
                && released(wf1, pcs, ri, x) == released(wf2, pcs, ri, x),
    ensures
        ps_upto(pcs, ri, wf1, cg1, j, i) == ps_upto(pcs, ri, wf2, cg2, j, i),
    decreases i - j,
{
    if i > j {
        lemma_ps_agree(pcs, ri, wf1, cg1, wf2, cg2, j, i - 1);
        assert(getter_values(cg1, bnd(pcs, ri, i - 1)) == getter_values(cg2, bnd(pcs, ri, i - 1)));
    }
}

/// Beyond the `l`-th root, nothing is released and no getter is placed, so
/// those segments push nothing.
proof fn lemma_ps_tail(
    pcs: Seq<usize>,
    ri: Seq<int>,
    k: int,
    wf: Seq<InsnTreeInfo<usize>>,
    cg: Seq<Getter<usize>>,
    j: int,
    l: int,
    i: int,
)
    requires
        pcs_increasing(pcs),
        roots_ok(ri, k),
        k < pcs.len(),
        0 <= j <= l < i <= ri.len(),
        forall|x: int| 0 <= x < cg.len() ==> (#[trigger] cg[x]).pc <= bnd(pcs, ri, l),
        forall|x: int| l < x < ri.len() ==> !released(wf, pcs, ri, x),
    ensures
        ps_upto(pcs, ri, wf, cg, j, i) == ps_upto(pcs, ri, wf, cg, j, l + 1),
    decreases i - l,
{
    if i > l + 1 {
        lemma_ps_tail(pcs, ri, k, wf, cg, j, l, i - 1);
        lemma_bnd_mono(pcs, ri, k, l, i - 1);
        lemma_gv_none(cg, bnd(pcs, ri, i - 1));
        let a = ps_upto(pcs, ri, wf, cg, j, i - 1);
        assert(a + Seq::<usize>::empty() + Seq::<usize>::empty() =~= a);
    }
}

/// Appending a getter at the start of the `l`-th segment, after which
/// nothing was planned yet, appends its value to what is pushed.
proof fn lemma_planned_getter(
    pcs: Seq<usize>,
    ri: Seq<int>,
    k: int,
    wf: Seq<InsnTreeInfo<usize>>,
    cg: Seq<Getter<usize>>,
    j: int,
    l: int,
    v: usize,
)
    requires
        pcs_increasing(pcs),
        roots_ok(ri, k),
        k < pcs.len(),
        0 <= j <= l <= ri.len(),
        forall|x: int| 0 <= x < cg.len() ==> (#[trigger] cg[x]).pc <= bnd(pcs, ri, l),
        forall|x: int| 0 <= x < ri.len() && released(wf, pcs, ri, x) ==> x < l,
    ensures
        planned(pcs, ri, wf, cg.push(Getter { pc: bnd(pcs, ri, l), value: v }), j) == planned(pcs, ri, wf, cg, j).push(v),
{
    let m = ri.len() as int;
    let g = Getter { pc: bnd(pcs, ri, l), value: v };
    let cg2 = cg.push(g);
    assert forall|x: int| j <= x < l implies getter_values(cg2, #[trigger] bnd(pcs, ri, x)) == getter_values(cg, bnd(pcs, ri, x))
        && released(wf, pcs, ri, x) == released(wf, pcs, ri, x) by {
        lemma_bnd_mono(pcs, ri, k, x, l);
        lemma_gv_push(cg, g, bnd(pcs, ri, x));
    }
    lemma_ps_agree(pcs, ri, wf, cg2, wf, cg, j, l);
    lemma_gv_push(cg, g, bnd(pcs, ri, l));
    if l < m {
        assert forall|x: int| 0 <= x < cg2.len() implies (#[trigger] cg2[x]).pc <= bnd(pcs, ri, l) by {
            if x < cg.len() {
                assert(cg2[x] == cg[x]);
            }
        }
        lemma_ps_tail(pcs, ri, k, wf, cg2, j, l, m);
        lemma_ps_tail(pcs, ri, k, wf, cg, j, l, m);
        lemma_bnd_mono(pcs, ri, k, l, m);
        lemma_gv_none(cg, bnd(pcs, ri, m));
        lemma_gv_push(cg, g, bnd(pcs, ri, m));
        assert(!released(wf, pcs, ri, l));
        let a = ps_upto(pcs, ri, wf, cg, j, l);
        let b = getter_values(cg, bnd(pcs, ri, l));
        assert(a + b.push(v) + Seq::<usize>::empty() + Seq::<usize>::empty() =~= (a + b + Seq::<usize>::empty()
            + Seq::<usize>::empty()).push(v));
    } else {
        assert(planned(pcs, ri, wf, cg2, j) =~= planned(pcs, ri, wf, cg, j).push(v));
    }
}

/// Releasing the `l`-th root, after which nothing was planned yet, appends
/// it to what is pushed.
proof fn lemma_planned_release(
    pcs: Seq<usize>,
    ri: Seq<int>,
    k: int,
    wf: Seq<InsnTreeInfo<usize>>,
    cg: Seq<Getter<usize>>,
    j: int,
    l: int,
    c: usize,
)
    requires
        pcs_increasing(pcs),
        roots_ok(ri, k),
        k < pcs.len(),
        0 <= j <= l < ri.len(),
        forall|a: int| 0 <= a < pcs.len() ==> #[trigger] pcs[a] < wf.len(),
        forall|x: int| 0 <= x < cg.len() ==> (#[trigger] cg[x]).pc <= bnd(pcs, ri, l),
        forall|x: int| 0 <= x < ri.len() && released(wf, pcs, ri, x) ==> x < l,
    ensures
        planned(
            pcs,
            ri,
            wf.update(
                pcs[ri[l]] as int,
                InsnTreeInfo { output_mode: OutputMode::Release { parent: c }, ..wf[pcs[ri[l]] as int] },
            ),
            cg,
            j,
        ) == planned(pcs, ri, wf, cg, j).push(pcs[ri[l]]),
{
    let m = ri.len() as int;
    let r = pcs[ri[l]];
    let wf2 = wf.update(r as int, InsnTreeInfo { output_mode: OutputMode::Release { parent: c }, ..wf[r as int] });
    assert forall|x: int| 0 <= x < m && x != l implies released(wf2, pcs, ri, x) == released(wf, pcs, ri, x) by {
        assert(0 <= ri[x] < k);
        assert(pcs[ri[x]] < wf.len());
        if x < l {
            assert(ri[x] < ri[l]);
            assert(pcs[ri[x]] < pcs[ri[l]]);
        } else {
            assert(ri[l] < ri[x]);
            assert(pcs[ri[l]] < pcs[ri[x]]);
        }
    }
    assert forall|x: int| j <= x < l implies getter_values(cg, #[trigger] bnd(pcs, ri, x)) == getter_values(cg, bnd(pcs, ri, x))
        && released(wf2, pcs, ri, x) == released(wf, pcs, ri, x) by {}
    lemma_ps_agree(pcs, ri, wf2, cg, wf, cg, j, l);
    lemma_ps_tail(pcs, ri, k, wf2, cg, j, l, m);
    lemma_ps_tail(pcs, ri, k, wf, cg, j, l, m);
    lemma_bnd_mono(pcs, ri, k, l, m);
    lemma_gv_none(cg, bnd(pcs, ri, m));
    assert(released(wf2, pcs, ri, l));
    assert(!released(wf, pcs, ri, l));
    let a = ps_upto(pcs, ri, wf, cg, j, l);
    let b = getter_values(cg, bnd(pcs, ri, l));
    assert(a + b + seq![r] + Seq::<usize>::empty() =~= (a + b + Seq::<usize>::empty() + Seq::<usize>::empty()).push(r));
}

// ---------------------------------------------------------------------------
// the invariant kept while instructions are processed
// ---------------------------------------------------------------------------

/// A fresh forest: every instruction available and alone in its subtree.
pub open spec fn fresh_forest(f: Seq<InsnTreeInfo<usize>>) -> bool {
    forall|x: int| 0 <= x < f.len() ==> #[trigger] fresh_at(f, x)
}

/// The entry `x` of the forest is as in a fresh forest.
pub open spec fn fresh_at(f: Seq<InsnTreeInfo<usize>>, x: int) -> bool {
    f[x] == (InsnTreeInfo { output_mode: OutputMode::<usize>::Available, subtree_start: x as usize })
}

/// Each instruction of the sequence but the last is succeeded by the next one.
pub open spec fn succ_links<T: InsnSequence>(seq: &T) -> bool {
    let pcs = seq.spec_instructions();
    forall|a: int| 0 <= a < pcs.len() - 1 ==> seq.spec_succ_of(#[trigger] pcs[a]) == pcs[a + 1]
}

/// Every input that is not an instruction of the sequence is computed before
/// the sequence starts.
pub open spec fn outside_inputs_first<T: InsnSequence>(seq: &T) -> bool {
    let pcs = seq.spec_instructions();
    forall|a: int, t: int|
        0 <= a < pcs.len() && 0 <= t < seq.spec_inputs_of(pcs[a]).len() ==> pcs.contains(
            #[trigger] seq.spec_inputs_of(pcs[a])[t],
        ) || seq.spec_inputs_of(pcs[a])[t] < pcs[0]
}

/// A parent, if any, comes later and has been processed.
pub open spec fn parent_ok(pcs: Seq<usize>, k: int, x: usize, m: OutputMode<usize>) -> bool {
    match parent_of(m) {
        Some(p) => x < p && processed(pcs, k, p),
        None => true,
    }
}

/// Whether `x` is the pc of one of the roots.
pub open spec fn is_root_pc(pcs: Seq<usize>, ri: Seq<int>, x: int) -> bool {
    exists|i: int| 0 <= i < ri.len() && pcs[ri[i]] == x
}

/// The entries of the forest not processed yet are still fresh.
#[verifier::opaque]
pub open spec fn inv_frame<T: InsnSequence>(seq: &T, len: int, f: Seq<InsnTreeInfo<usize>>, k: int) -> bool {
    let pcs = seq.spec_instructions();
    &&& 0 <= k <= pcs.len()
    &&& f.len() == len
    &&& forall|a: int| k <= a < pcs.len() ==> fresh_at(f, #[trigger] pcs[a] as int)
    &&& forall|x: int| 0 <= x < len && !pcs.contains(x as usize) ==> #[trigger] fresh_at(f, x)
}

/// The roots are exactly the available processed instructions, and each
/// root's subtree starts its segment.
#[verifier::opaque]
pub open spec fn inv_roots<T: InsnSequence>(seq: &T, f: Seq<InsnTreeInfo<usize>>, k: int, ri: Seq<int>) -> bool {
    let pcs = seq.spec_instructions();
    &&& forall|i: int|
        0 <= i < ri.len() ==> (#[trigger] f[pcs[ri[i]] as int]).output_mode == OutputMode::<usize>::Available
            && f[pcs[ri[i]] as int].subtree_start == pcs[seg_start(ri, i)]
    &&& forall|a: int|
        0 <= a < k && (#[trigger] f[pcs[a] as int]).output_mode == OutputMode::<usize>::Available ==> ri.contains(a)
}

/// Parents of processed instructions are later processed instructions.
#[verifier::opaque]
pub open spec fn inv_parents<T: InsnSequence>(seq: &T, f: Seq<InsnTreeInfo<usize>>, k: int) -> bool {
    let pcs = seq.spec_instructions();
    forall|a: int| 0 <= a < k ==> parent_ok(pcs, k, pcs[a], (#[trigger] f[pcs[a] as int]).output_mode)
}

/// Following parents from an instruction leads to the root of its segment.
#[verifier::opaque]
pub open spec fn inv_tree<T: InsnSequence>(seq: &T, f: Seq<InsnTreeInfo<usize>>, k: int, ri: Seq<int>) -> bool {
    let pcs = seq.spec_instructions();
    forall|i: int, a: int, ign: usize|
        #![trigger find_root_spec(f, pcs[a], ign), ri[i]]
        0 <= i < ri.len() && seg_start(ri, i) <= a <= ri[i] && !processed(pcs, k, ign) ==> find_root_spec(f, pcs[a], ign)
            == pcs[ri[i]]
}

/// The getters are sorted and placed at processed instructions.
#[verifier::opaque]
pub open spec fn inv_getters<T: InsnSequence>(seq: &T, g: Seq<Getter<usize>>, k: int) -> bool {
    let pcs = seq.spec_instructions();
    &&& getters_sorted(g)
    &&& forall|x: int| 0 <= x < g.len() ==> processed(pcs, k, (#[trigger] g[x]).pc)
}

/// Running the segment of a root pushes exactly that root.
#[verifier::opaque]
pub open spec fn inv_runs<T: InsnSequence>(seq: &T, f: Seq<InsnTreeInfo<usize>>, g: Seq<Getter<usize>>, ri: Seq<int>) -> bool {
    let pcs = seq.spec_instructions();
    forall|i: int|
        0 <= i < ri.len() ==> run_seg(seq, f, g, seg_start(ri, i), #[trigger] ri[i] + 1, Seq::empty()) == Some(
            seq![pcs[ri[i]]],
        )
}

/// The state after processing the first `k` instructions from a fresh
/// forest, with roots at the positions `ri`.
pub open spec fn state_inv<T: InsnSequence>(
    seq: &T,
    len: int,
    f: Seq<InsnTreeInfo<usize>>,
    g: Seq<Getter<usize>>,
    k: int,
    ri: Seq<int>,
) -> bool {
    &&& inv_frame(seq, len, f, k)
    &&& roots_ok(ri, k)
    &&& inv_roots(seq, f, k, ri)
    &&& inv_parents(seq, f, k)
    &&& inv_tree(seq, f, k, ri)
    &&& inv_getters(seq, g, k)
    &&& inv_runs(seq, f, g, ri)
}

/// The forest of the walk differs from the processed one only in roots
/// released to the `k`-th instruction.
#[verifier::opaque]
pub open spec fn walk_forest(
    pcs: Seq<usize>,
    len: int,
    f: Seq<InsnTreeInfo<usize>>,
    k: int,
    ri: Seq<int>,
    wf: Seq<InsnTreeInfo<usize>>,
) -> bool {
    let c = pcs[k];
    &&& wf.len() == len
    &&& forall|x: int| 0 <= x < len && !is_root_pc(pcs, ri, x) ==> #[trigger] wf[x] == f[x]
    &&& forall|i: int|
        0 <= i < ri.len() ==> (#[trigger] wf[pcs[ri[i]] as int] == f[pcs[ri[i]] as int] || wf[pcs[ri[i]] as int]
            == InsnTreeInfo { output_mode: OutputMode::Release { parent: c }, ..f[pcs[ri[i]] as int] })
}

/// Before any release, every input so far got a getter before the
/// instruction.
#[verifier::opaque]
pub open spec fn walk_unreleased(pcs: Seq<usize>, inputs: Seq<usize>, k: int, ri: Seq<int>, w: InputWalk, t: int) -> bool {
    let c = pcs[k];
    &&& forall|i: int| 0 <= i < ri.len() ==> !#[trigger] released(w.forest, pcs, ri, i)
    &&& w.current_getters == inputs.take(t).map_values(|a: usize| Getter { pc: c, value: a })
}

/// After a release, what is planned pushes the inputs so far in order.
#[verifier::opaque]
pub open spec fn walk_released(
    pcs: Seq<usize>,
    inputs: Seq<usize>,
    ri: Seq<int>,
    w: InputWalk,
    t: int,
    j: int,
    lins: int,
) -> bool {
    let m = ri.len() as int;
    let cg = w.current_getters;
    let first = w.span.unwrap().0;
    let ins = w.span.unwrap().1;
    &&& 0 <= j < lins <= m
    &&& first == pcs[ri[j]]
    &&& ins == bnd(pcs, ri, lins)
    &&& released(w.forest, pcs, ri, j)
    &&& forall|i: int| 0 <= i < m && #[trigger] released(w.forest, pcs, ri, i) ==> j <= i < lins
    &&& forall|x: int|
        0 <= x < cg.len() ==> bnd(pcs, ri, j) <= (#[trigger] cg[x]).pc <= ins && cg[x].value < cg[x].pc && exists|l: int|
            j <= l <= lins && bnd(pcs, ri, l) == cg[x].pc
    &&& pcs_nondecreasing(cg, 0)
    &&& planned(pcs, ri, w.forest, cg, j) == inputs.take(t)
}

/// The state of the walk over the first `t` inputs of the `k`-th
/// instruction: released inputs are roots from the `j`-th on, and the last
/// input was provided at the start of the `lins`-th segment.
pub open spec fn walk_inv<T: InsnSequence>(
    seq: &T,
    len: int,
    f: Seq<InsnTreeInfo<usize>>,
    k: int,
    ri: Seq<int>,
    w: InputWalk,
    t: int,
    j: int,
    lins: int,
) -> bool {
    let pcs = seq.spec_instructions();
    let inputs = seq.spec_inputs_of(pcs[k]);
    &&& 0 <= t <= inputs.len()
    &&& walk_forest(pcs, len, f, k, ri, w.forest)
    &&& if w.span is None {
        walk_unreleased(pcs, inputs, k, ri, w, t)
    } else {
        walk_released(pcs, inputs, ri, w, t, j, lins)
    }
}

/// Following parents from a processed instruction leads to a root, and
/// still does after some roots were given the parent `c`.
proof fn lemma_find_root_moved(
    pcs: Seq<usize>,
    k: int,
    f: Seq<InsnTreeInfo<usize>>,
    f2: Seq<InsnTreeInfo<usize>>,
    x: usize,
    ign: usize,
    c: usize,
)
    requires
        processed(pcs, k, x),
        !processed(pcs, k, ign),
        f.len() == f2.len(),
        c < f.len(),
        forall|a: int| 0 <= a < k ==> #[trigger] pcs[a] < c,
        forall|a: int| 0 <= a < k ==> parent_ok(pcs, k, pcs[a], (#[trigger] f[pcs[a] as int]).output_mode),
        forall|a: int|
            0 <= a < k && (#[trigger] f[pcs[a] as int]).output_mode != OutputMode::<usize>::Available ==> f2[pcs[a] as int]
                == f[pcs[a] as int],
        forall|a: int|
            0 <= a < k && (#[trigger] f[pcs[a] as int]).output_mode == OutputMode::<usize>::Available ==> (f2[pcs[a] as int]
                == f[pcs[a] as int] || parent_of(f2[pcs[a] as int].output_mode) == Some(c)),
    ensures
        ({
            let r = find_root_spec(f, x, ign);
            &&& processed(pcs, k, r)
            &&& f[r as int].output_mode == OutputMode::<usize>::Available
            &&& find_root_spec(f2, x, ign) == if f2[r as int] == f[r as int] || ign == c {
                r
            } else {
                find_root_spec(f2, c, ign)
            }
        }),
    decreases f.len() - x,
{
    let a = choose|a: int| 0 <= a < k && pcs[a] == x;
    assert(pcs[a] < c);
    assert(parent_ok(pcs, k, pcs[a], f[pcs[a] as int].output_mode));
    if f[x as int].output_mode == OutputMode::<usize>::Available {
        assert(find_root_spec(f, x, ign) == x);
    } else {
        let p = parent_of(f[x as int].output_mode).unwrap();
        let b = choose|b: int| 0 <= b < k && pcs[b] == p;
        assert(pcs[b] < c);
        assert(p != ign);
        assert(find_root_spec(f, x, ign) == find_root_spec(f, p, ign));
        assert(f2[x as int] == f[x as int]);
        assert(find_root_spec(f2, x, ign) == find_root_spec(f2, p, ign));
        lemma_find_root_moved(pcs, k, f, f2, p, ign, c);
    }
}

/// Every processed position lies in the segment of some root.
proof fn lemma_seg_cover(ri: Seq<int>, k: int, b: int, i: int) -> (r: int)
    requires
        roots_ok(ri, k),
        0 <= b < k,
        0 <= i < ri.len(),
        forall|x: int| 0 <= x < i ==> #[trigger] ri[x] < b,
    ensures
        0 <= r < ri.len(),
        seg_start(ri, r) <= b <= ri[r],
    decreases ri.len() - i,
{
    if ri[i] >= b {
        if i > 0 {
            assert(ri[i - 1] < b);
        }
        i
    } else {
        if i + 1 == ri.len() {
            assert(ri[ri.len() - 1] == ri.last());
        }
        lemma_seg_cover(ri, k, b, i + 1)
    }
}

/// Facts about the sequence that the walk uses.
proof fn lemma_seq_facts<T: InsnSequence>(seq: &T, len: int, k: int, t: int)
    requires
        0 <= len,
        seq_wf(seq, len as nat),
        0 <= k < seq.spec_instructions().len(),
        0 <= t < seq.spec_inputs_of(seq.spec_instructions()[k]).len(),
    ensures
        pcs_increasing(seq.spec_instructions()),
        seq.spec_inputs_of(seq.spec_instructions()[k])[t] < seq.spec_instructions()[k] < len,
        !processed(seq.spec_instructions(), k, seq.spec_instructions()[k]),
{
    let pcs = seq.spec_instructions();
    assert(seq.spec_inputs_of(pcs[k])[t] < pcs[k]);
    assert(pcs[k] < len);
    if processed(pcs, k, pcs[k]) {
        let a = choose|a: int| 0 <= a < k && pcs[a] == pcs[k];
        assert(pcs[a] < pcs[k]);
    }
}

/// The position of an instruction of the sequence computed before the
/// `k`-th one.
proof fn lemma_position(pcs: Seq<usize>, k: int, x: usize) -> (b: int)
    requires
        pcs_increasing(pcs),
        0 <= k < pcs.len(),
        pcs.contains(x),
        x < pcs[k],
    ensures
        0 <= b < k,
        pcs[b] == x,
        processed(pcs, k, x),
{
    let b = choose|b: int| 0 <= b < pcs.len() && pcs[b] == x;
    if b >= k {
        if b > k {
            assert(pcs[k] < pcs[b]);
        }
    }
    b
}


/// A releasable input is a root that was not released yet.
proof fn lemma_release_root<T: InsnSequence>(
    seq: &T,
    len: int,
    f: Seq<InsnTreeInfo<usize>>,
    k: int,
    ri: Seq<int>,
    wf: Seq<InsnTreeInfo<usize>>,
    a: usize,
) -> (l: int)
    requires
        pcs_increasing(seq.spec_instructions()),
        roots_ok(ri, k),
        0 <= k < seq.spec_instructions().len(),
        inv_roots(seq, f, k, ri),
        walk_forest(seq.spec_instructions(), len, f, k, ri, wf),
        seq.spec_instructions().contains(a),
        a < seq.spec_instructions()[k],
        a < len,
        wf[a as int].output_mode == OutputMode::<usize>::Available,
    ensures
        0 <= l < ri.len(),
        seq.spec_instructions()[ri[l]] == a,
        wf[a as int] == f[a as int],
        !released(wf, seq.spec_instructions(), ri, l),
        f[a as int].subtree_start == bnd(seq.spec_instructions(), ri, l),
{
    reveal(inv_roots);
    reveal(walk_forest);
    let pcs = seq.spec_instructions();
    let c = pcs[k];
    let b = lemma_position(pcs, k, a);
    assert(f[pcs[b] as int].output_mode == OutputMode::<usize>::Available) by {
        if is_root_pc(pcs, ri, a as int) {
            let i = choose|i: int| 0 <= i < ri.len() && pcs[ri[i]] == a as int;
            assert(wf[pcs[ri[i]] as int] == f[pcs[ri[i]] as int] || wf[pcs[ri[i]] as int] == InsnTreeInfo {
                output_mode: OutputMode::Release { parent: c },
                ..f[pcs[ri[i]] as int]
            });
        }
    }
    assert(ri.contains(b));
    let l = choose|l: int| 0 <= l < ri.len() && ri[l] == b;
    assert(wf[pcs[ri[l]] as int] == f[pcs[ri[l]] as int] || wf[pcs[ri[l]] as int] == InsnTreeInfo {
        output_mode: OutputMode::Release { parent: c },
        ..f[pcs[ri[l]] as int]
    });
    l
}

/// Releasing a root keeps the shape of the walk's forest and changes
/// nothing else about which roots are released.
proof fn lemma_release_forest(
    pcs: Seq<usize>,
    len: int,
    f: Seq<InsnTreeInfo<usize>>,
    k: int,
    ri: Seq<int>,
    wf: Seq<InsnTreeInfo<usize>>,
    l: int,
)
    requires
        pcs_increasing(pcs),
        roots_ok(ri, k),
        0 <= k < pcs.len(),
        forall|x: int| 0 <= x < pcs.len() ==> #[trigger] pcs[x] < len,
        walk_forest(pcs, len, f, k, ri, wf),
        0 <= l < ri.len(),
        wf[pcs[ri[l]] as int] == f[pcs[ri[l]] as int],
    ensures
        ({
            let wf2 = wf.update(
                pcs[ri[l]] as int,
                InsnTreeInfo { output_mode: OutputMode::Release { parent: pcs[k] }, ..wf[pcs[ri[l]] as int] },
            );
            &&& walk_forest(pcs, len, f, k, ri, wf2)
            &&& released(wf2, pcs, ri, l)
            &&& forall|i: int| 0 <= i < ri.len() && i != l ==> released(wf2, pcs, ri, i) == released(wf, pcs, ri, i)
        }),
{
    reveal(walk_forest);
    let c = pcs[k];
    let a = pcs[ri[l]];
    let wf2 = wf.update(a as int, InsnTreeInfo { output_mode: OutputMode::Release { parent: c }, ..wf[a as int] });
    assert(0 <= ri[l] < k);
    assert forall|x: int| 0 <= x < len && !is_root_pc(pcs, ri, x) implies #[trigger] wf2[x] == f[x] by {
        assert(x != a) by {
            if x == a {
                assert(pcs[ri[l]] == x);
            }
        }
    }
    assert forall|i: int| 0 <= i < ri.len() && i != l implies wf2[pcs[ri[i]] as int] == wf[pcs[ri[i]] as int] by {
        assert(0 <= ri[i] < k);
        if i < l {
            assert(ri[i] < ri[l]);
            assert(pcs[ri[i]] < pcs[ri[l]]);
        } else {
            assert(ri[l] < ri[i]);
            assert(pcs[ri[l]] < pcs[ri[i]]);
        }
    }
    assert forall|i: int| 0 <= i < ri.len() implies (#[trigger] wf2[pcs[ri[i]] as int] == f[pcs[ri[i]] as int] || wf2[pcs[ri[i]] as int]
        == InsnTreeInfo { output_mode: OutputMode::Release { parent: c }, ..f[pcs[ri[i]] as int] }) by {
        if i != l {
            assert(wf2[pcs[ri[i]] as int] == wf[pcs[ri[i]] as int]);
        }
    }
}

/// Whether the walk releases the input `a` of `current`.
pub open spec fn input_releasable<T: InsnSequence>(seq: &T, w: InputWalk, a: usize) -> bool {
    seq.spec_instructions().contains(a) && w.forest[a as int].output_mode == OutputMode::<usize>::Available && match w.span {
        Some((_, ins)) => a >= ins,
        None => true,
    } && (forall|x: int| 0 <= x < w.current_getters.len() ==> #[trigger] w.current_getters[x].value < w.forest[a as int].subtree_start)
}

/// The first released input starts the segment where the getters planned so
/// far go.
#[verifier::rlimit(40)]
proof fn lemma_walk_release_first<T: InsnSequence>(
    seq: &T,
    len: int,
    f: Seq<InsnTreeInfo<usize>>,
    k: int,
    ri: Seq<int>,
    w: InputWalk,
    t: int,
    l: int,
)
    requires
        pcs_increasing(seq.spec_instructions()),
        roots_ok(ri, k),
        0 <= k < seq.spec_instructions().len() - 0,
        forall|x: int| 0 <= x < seq.spec_instructions().len() ==> #[trigger] seq.spec_instructions()[x] < len,
        0 <= t < seq.spec_inputs_of(seq.spec_instructions()[k]).len(),
        succ_links(seq),
        w.span is None,
        walk_forest(seq.spec_instructions(), len, f, k, ri, w.forest),
        walk_unreleased(seq.spec_instructions(), seq.spec_inputs_of(seq.spec_instructions()[k]), k, ri, w, t),
        0 <= l < ri.len(),
        seq.spec_instructions()[ri[l]] == seq.spec_inputs_of(seq.spec_instructions()[k])[t],
        w.forest[seq.spec_instructions()[ri[l]] as int] == f[seq.spec_instructions()[ri[l]] as int],
        f[seq.spec_instructions()[ri[l]] as int].subtree_start == bnd(seq.spec_instructions(), ri, l),
        input_releasable(seq, w, seq.spec_inputs_of(seq.spec_instructions()[k])[t]),
    ensures
        walk_inv(
            seq,
            len,
            f,
            k,
            ri,
            stackify_input_step(
                seq,
                seq.spec_instructions()[k],
                w,
                seq.spec_inputs_of(seq.spec_instructions()[k])[t],
            ),
            t + 1,
            l,
            l + 1,
        ),
{
    reveal(walk_unreleased);
    let pcs = seq.spec_instructions();
    let c = pcs[k];
    let m = ri.len() as int;
    let inputs = seq.spec_inputs_of(c);
    let a = inputs[t];
    let cg = w.current_getters;
    let forest = w.forest;
    let w2 = stackify_input_step(seq, c, w, a);
    assert(inputs.take(t + 1) =~= inputs.take(t).push(a));
    let b = ri[l];
    assert(0 <= b < k);
    assert(b < pcs.len() - 1);
    assert(seq.spec_succ_of(pcs[b]) == pcs[b + 1]);
    assert(seg_start(ri, l + 1) == b + 1);
    lemma_bnd_mono(pcs, ri, k, l, m);
    lemma_release_forest(pcs, len, f, k, ri, forest, l);
    assert(forest.len() == len) by {
        reveal(walk_forest);
    }
    let wf2 = forest.update(a as int, InsnTreeInfo { output_mode: OutputMode::Release { parent: c }, ..forest[a as int] });
    assert(w2.forest == wf2);
    let st = forest[a as int].subtree_start;
    let cg2 = cg.map_values(|gg: Getter<usize>| Getter { pc: st, value: gg.value });
    assert(w2.current_getters == cg2);
    assert(w2.span == Some((a, pcs[b + 1])));
    assert forall|x: int| 0 <= x < cg2.len() implies #[trigger] cg2[x].pc == bnd(pcs, ri, l) by {}
    assert forall|x: int| 0 <= x < cg2.len() implies (#[trigger] cg2[x]).pc <= bnd(pcs, ri, l) by {}
    assert forall|x: int| 0 <= x < m && released(forest, pcs, ri, x) implies x < l by {}
    lemma_planned_release(pcs, ri, k, forest, cg2, l, l, c);
    lemma_ps_tail(pcs, ri, k, forest, cg2, l, l, m);
    lemma_gv_all(cg2, bnd(pcs, ri, l));
    assert(cg2.map_values(|x: Getter<usize>| x.value) =~= inputs.take(t));
    assert forall|x: int| 0 <= x < cg2.len() implies #[trigger] cg2[x].pc != bnd(pcs, ri, m) by {}
    lemma_gv_none(cg2, bnd(pcs, ri, m));
    assert(ps_upto(pcs, ri, forest, cg2, l, l) == Seq::<usize>::empty());
    assert(!released(forest, pcs, ri, l));
    assert(ps_upto(pcs, ri, forest, cg2, l, l + 1) =~= inputs.take(t));
    assert(planned(pcs, ri, forest, cg2, l) =~= inputs.take(t));
    assert forall|x: int| 0 <= x < cg2.len() implies bnd(pcs, ri, l) <= (#[trigger] cg2[x]).pc <= pcs[b + 1]
        && cg2[x].value < cg2[x].pc && exists|l2: int| l <= l2 <= l + 1 && bnd(pcs, ri, l2) == cg2[x].pc by {
        assert(cg[x].value < forest[a as int].subtree_start);
    }
    assert forall|i: int| 0 <= i < m && #[trigger] released(wf2, pcs, ri, i) implies l <= i < l + 1 by {
        if i != l {
            assert(!released(forest, pcs, ri, i));
        }
    }
    assert(walk_released(pcs, inputs, ri, w2, t + 1, l, l + 1)) by {
        reveal(walk_released);
    }
}

/// A later released input extends the planned pushes.
#[verifier::rlimit(40)]
proof fn lemma_walk_release_more<T: InsnSequence>(
    seq: &T,
    len: int,
    f: Seq<InsnTreeInfo<usize>>,
    k: int,
    ri: Seq<int>,
    w: InputWalk,
    t: int,
    j: int,
    lins: int,
    l: int,
)
    requires
        pcs_increasing(seq.spec_instructions()),
        roots_ok(ri, k),
        0 <= k < seq.spec_instructions().len(),
        forall|x: int| 0 <= x < seq.spec_instructions().len() ==> #[trigger] seq.spec_instructions()[x] < len,
        0 <= t < seq.spec_inputs_of(seq.spec_instructions()[k]).len(),
        succ_links(seq),
        w.span is Some,
        walk_forest(seq.spec_instructions(), len, f, k, ri, w.forest),
        walk_released(seq.spec_instructions(), seq.spec_inputs_of(seq.spec_instructions()[k]), ri, w, t, j, lins),
        0 <= l < ri.len(),
        seq.spec_instructions()[ri[l]] == seq.spec_inputs_of(seq.spec_instructions()[k])[t],
        w.forest[seq.spec_instructions()[ri[l]] as int] == f[seq.spec_instructions()[ri[l]] as int],
        !released(w.forest, seq.spec_instructions(), ri, l),
        input_releasable(seq, w, seq.spec_inputs_of(seq.spec_instructions()[k])[t]),
    ensures
        walk_inv(
            seq,
            len,
            f,
            k,
            ri,
            stackify_input_step(
                seq,
                seq.spec_instructions()[k],
                w,
                seq.spec_inputs_of(seq.spec_instructions()[k])[t],
            ),
            t + 1,
            j,
            l + 1,
        ),
{
    reveal(walk_released);
    let pcs = seq.spec_instructions();
    let c = pcs[k];
    let m = ri.len() as int;
    let inputs = seq.spec_inputs_of(c);
    let a = inputs[t];
    let cg = w.current_getters;
    let forest = w.forest;
    let first = w.span.unwrap().0;
    let ins = w.span.unwrap().1;
    let w2 = stackify_input_step(seq, c, w, a);
    assert(inputs.take(t + 1) =~= inputs.take(t).push(a));
    let b = ri[l];
    assert(0 <= b < k);
    assert(b < pcs.len() - 1);
    assert(seq.spec_succ_of(pcs[b]) == pcs[b + 1]);
    assert(seg_start(ri, l + 1) == b + 1);
    assert(l >= lins) by {
        if l < lins {
            if l + 1 < lins {
                lemma_bnd_mono(pcs, ri, k, l + 1, lins);
            }
            assert(pcs[ri[l]] < pcs[b + 1]);
        }
    }
    lemma_bnd_mono(pcs, ri, k, lins, l + 1);
    if lins < l {
        lemma_bnd_mono(pcs, ri, k, lins, l);
    }
    lemma_release_forest(pcs, len, f, k, ri, forest, l);
    assert(forest.len() == len) by {
        reveal(walk_forest);
    }
    let wf2 = forest.update(a as int, InsnTreeInfo { output_mode: OutputMode::Release { parent: c }, ..forest[a as int] });
    assert(w2.forest == wf2);
    assert forall|x: int| 0 <= x < cg.len() implies (#[trigger] cg[x]).pc <= bnd(pcs, ri, l) by {}
    lemma_planned_release(pcs, ri, k, forest, cg, j, l, c);
    assert(w2.span == Some((first, pcs[b + 1])));
    assert(w2.current_getters == cg);
    assert forall|x: int| 0 <= x < cg.len() implies bnd(pcs, ri, j) <= (#[trigger] cg[x]).pc <= pcs[b + 1]
        && cg[x].value < cg[x].pc && exists|l2: int| j <= l2 <= l + 1 && bnd(pcs, ri, l2) == cg[x].pc by {
        let l2 = choose|l2: int| j <= l2 <= lins && bnd(pcs, ri, l2) == cg[x].pc;
    }
    assert forall|i: int| 0 <= i < m && #[trigger] released(wf2, pcs, ri, i) implies j <= i < l + 1 by {
        if i != l {
            assert(released(forest, pcs, ri, i));
        }
    }
    assert(released(wf2, pcs, ri, j));
}

/// A root that was not released is as in the processed forest: available,
/// with its subtree starting its segment.
proof fn lemma_unreleased_root<T: InsnSequence>(
    seq: &T,
    len: int,
    f: Seq<InsnTreeInfo<usize>>,
    k: int,
    ri: Seq<int>,
    wf: Seq<InsnTreeInfo<usize>>,
    i: int,
)
    requires
        inv_roots(seq, f, k, ri),
        walk_forest(seq.spec_instructions(), len, f, k, ri, wf),
        0 <= i < ri.len(),
        !released(wf, seq.spec_instructions(), ri, i),
    ensures
        wf[seq.spec_instructions()[ri[i]] as int] == f[seq.spec_instructions()[ri[i]] as int],
        f[seq.spec_instructions()[ri[i]] as int].output_mode == OutputMode::<usize>::Available,
        f[seq.spec_instructions()[ri[i]] as int].subtree_start == bnd(seq.spec_instructions(), ri, i),
{
    reveal(inv_roots);
    reveal(walk_forest);
    let pcs = seq.spec_instructions();
    assert(wf[pcs[ri[i]] as int] == f[pcs[ri[i]] as int] || wf[pcs[ri[i]] as int] == InsnTreeInfo {
        output_mode: OutputMode::Release { parent: pcs[k] },
        ..f[pcs[ri[i]] as int]
    });
}

/// In the walk's forest, following parents from a processed input stops at
/// the root of its segment.
#[verifier::rlimit(40)]
proof fn lemma_walk_root<T: InsnSequence>(
    seq: &T,
    len: int,
    f: Seq<InsnTreeInfo<usize>>,
    k: int,
    ri: Seq<int>,
    wf: Seq<InsnTreeInfo<usize>>,
    a: usize,
) -> (r: (int, int))
    requires
        pcs_increasing(seq.spec_instructions()),
        roots_ok(ri, k),
        0 <= k < seq.spec_instructions().len(),
        seq.spec_instructions()[k] < len,
        f.len() == len,
        inv_roots(seq, f, k, ri),
        inv_parents(seq, f, k),
        inv_tree(seq, f, k, ri),
        walk_forest(seq.spec_instructions(), len, f, k, ri, wf),
        seq.spec_instructions().contains(a),
        a < seq.spec_instructions()[k],
    ensures
        0 <= r.0 < ri.len(),
        0 <= r.1 < k,
        seq.spec_instructions()[r.1] == a,
        seg_start(ri, r.0) <= r.1 <= ri[r.0],
        find_root_spec(wf, a, seq.spec_instructions()[k]) == seq.spec_instructions()[ri[r.0]],
        a <= seq.spec_instructions()[ri[r.0]],
{
    reveal(inv_roots);
    reveal(inv_tree);
    reveal(inv_parents);
    reveal(walk_forest);
    let pcs = seq.spec_instructions();
    let c = pcs[k];
    let b = lemma_position(pcs, k, a);
    let i = lemma_seg_cover(ri, k, b, 0);
    assert(!processed(pcs, k, c)) by {
        if processed(pcs, k, c) {
            let x = choose|x: int| 0 <= x < k && pcs[x] == c;
            assert(pcs[x] < pcs[k]);
        }
    }
    assert(find_root_spec(f, pcs[b], c) == pcs[ri[i]]);
    assert forall|a2: int|
        0 <= a2 < k && (#[trigger] f[pcs[a2] as int]).output_mode != OutputMode::<usize>::Available implies wf[pcs[a2] as int]
        == f[pcs[a2] as int] by {
        if is_root_pc(pcs, ri, pcs[a2] as int) {
            let i2 = choose|i2: int| 0 <= i2 < ri.len() && pcs[ri[i2]] == pcs[a2] as int;
            assert(f[pcs[ri[i2]] as int].output_mode == OutputMode::<usize>::Available);
        }
    }
    assert forall|a2: int|
        0 <= a2 < k && (#[trigger] f[pcs[a2] as int]).output_mode == OutputMode::<usize>::Available implies (wf[pcs[a2] as int]
        == f[pcs[a2] as int] || parent_of(wf[pcs[a2] as int].output_mode) == Some(c)) by {
        if is_root_pc(pcs, ri, pcs[a2] as int) {
            let i2 = choose|i2: int| 0 <= i2 < ri.len() && pcs[ri[i2]] == pcs[a2] as int;
            assert(wf[pcs[ri[i2]] as int] == f[pcs[ri[i2]] as int] || wf[pcs[ri[i2]] as int] == InsnTreeInfo {
                output_mode: OutputMode::Release { parent: c },
                ..f[pcs[ri[i2]] as int]
            });
        }
    }
    assert forall|a2: int| 0 <= a2 < k implies #[trigger] pcs[a2] < c by {}
    lemma_find_root_moved(pcs, k, f, wf, a, c, c);
    assert(pcs[b] <= pcs[ri[i]]) by {
        if b < ri[i] {
            assert(pcs[b] < pcs[ri[i]]);
        }
    }
    (i, b)
}

/// In the walk's forest, an input from before the sequence is its own root.
proof fn lemma_outside_root<T: InsnSequence>(
    seq: &T,
    len: int,
    f: Seq<InsnTreeInfo<usize>>,
    k: int,
    ri: Seq<int>,
    wf: Seq<InsnTreeInfo<usize>>,
    a: usize,
)
    requires
        roots_ok(ri, k),
        0 <= k < seq.spec_instructions().len(),
        inv_frame(seq, len, f, k),
        walk_forest(seq.spec_instructions(), len, f, k, ri, wf),
        !seq.spec_instructions().contains(a),
        a < len,
    ensures
        find_root_spec(wf, a, seq.spec_instructions()[k]) == a,
{
    reveal(inv_frame);
    reveal(walk_forest);
    let pcs = seq.spec_instructions();
    assert(!is_root_pc(pcs, ri, a as int)) by {
        if is_root_pc(pcs, ri, a as int) {
            let i2 = choose|i2: int| 0 <= i2 < ri.len() && pcs[ri[i2]] == a as int;
            assert(0 <= ri[i2] < k);
            assert(pcs.contains(a)) by {
                assert(pcs[ri[i2]] == a);
            }
        }
    }
    assert(wf[a as int] == f[a as int]);
    assert(fresh_at(f, a as int));
}

/// Where the getter for an input that cannot be released goes: the start of
/// the `r`-th segment, no earlier than the previous one and after the value
/// is computed.
#[verifier::rlimit(40)]
proof fn lemma_getter_target<T: InsnSequence>(
    seq: &T,
    len: int,
    f: Seq<InsnTreeInfo<usize>>,
    g: Seq<Getter<usize>>,
    k: int,
    ri: Seq<int>,
    w: InputWalk,
    t: int,
    j: int,
    lins: int,
) -> (r: int)
    requires
        0 <= len,
        seq_wf(seq, len as nat),
        succ_links(seq),
        outside_inputs_first(seq),
        state_inv(seq, len, f, g, k, ri),
        0 <= k < seq.spec_instructions().len(),
        0 <= t < seq.spec_inputs_of(seq.spec_instructions()[k]).len(),
        w.span is Some,
        walk_forest(seq.spec_instructions(), len, f, k, ri, w.forest),
        walk_released(seq.spec_instructions(), seq.spec_inputs_of(seq.spec_instructions()[k]), ri, w, t, j, lins),
        !input_releasable(seq, w, seq.spec_inputs_of(seq.spec_instructions()[k])[t]),
    ensures
        lins <= r <= ri.len(),
        ({
            let pcs = seq.spec_instructions();
            let c = pcs[k];
            let a = seq.spec_inputs_of(c)[t];
            let ins = w.span.unwrap().1;
            let root = find_root_spec(w.forest, a, c);
            &&& bnd(pcs, ri, r) == if root != c && root > ins {
                seq.spec_succ_of(root)
            } else {
                ins
            }
            &&& a < bnd(pcs, ri, r)
        }),
{
    reveal(walk_released);
    let pcs = seq.spec_instructions();
    let n = pcs.len() as int;
    let c = pcs[k];
    let m = ri.len() as int;
    let inputs = seq.spec_inputs_of(c);
    let a = inputs[t];
    let cg = w.current_getters;
    let forest = w.forest;
    let ins = w.span.unwrap().1;
    lemma_seq_facts(seq, len, k, t);
    let root = find_root_spec(forest, a, c);
    lemma_bnd_mono(pcs, ri, k, 0, lins);
    assert(pcs[0] <= ins) by {
        if seg_start(ri, lins) > 0 {
            assert(pcs[0] < pcs[seg_start(ri, lins)]);
        }
    }
    if pcs.contains(a) {
        assert(f.len() == len) by {
            reveal(inv_frame);
        }
        let (i, b) = lemma_walk_root(seq, len, f, k, ri, forest, a);
        assert(root == pcs[ri[i]]);
        if root > ins {
            assert(i >= lins) by {
                if i < lins {
                    if i + 1 < lins {
                        lemma_bnd_mono(pcs, ri, k, i + 1, lins);
                    }
                    assert(pcs[ri[i]] < pcs[ri[i] + 1]);
                }
            }
            assert(ri[i] < n - 1);
            assert(seq.spec_succ_of(pcs[ri[i]]) == pcs[ri[i] + 1]);
            assert(pcs[ri[i]] < pcs[ri[i] + 1]);
            i + 1
        } else {
            assert(a < ins) by {
                if a == ins {
                    assert(b == seg_start(ri, lins)) by {
                        if b < seg_start(ri, lins) {
                            assert(pcs[b] < pcs[seg_start(ri, lins)]);
                        }
                        if b > seg_start(ri, lins) {
                            assert(pcs[b] > pcs[seg_start(ri, lins)]);
                        }
                    }
                    assert(ri[i] == b) by {
                        if b < ri[i] {
                            assert(pcs[b] < pcs[ri[i]]);
                        }
                    }
                    assert(i == lins) by {
                        if i < lins {
                            assert(ri[i] <= ri[lins - 1]) by {
                                if i < lins - 1 {
                                    assert(ri[i] < ri[lins - 1]);
                                }
                            }
                        }
                        if i > lins {
                            lemma_bnd_mono(pcs, ri, k, lins, i);
                        }
                    }
                    assert(!released(forest, pcs, ri, lins));
                    lemma_unreleased_root(seq, len, f, k, ri, forest, lins);
                    assert(forall|x: int| 0 <= x < cg.len() ==> #[trigger] cg[x].value < forest[a as int].subtree_start);
                    assert(input_releasable(seq, w, a));
                }
            }
            lins
        }
    } else {
        assert(a < pcs[0]) by {
            assert(pcs.contains(seq.spec_inputs_of(pcs[k])[t]) || seq.spec_inputs_of(pcs[k])[t] < pcs[0]);
        }
        lemma_outside_root(seq, len, f, k, ri, forest, a);
        lins
    }
}

/// An input that gets a getter, once an input was released, keeps the walk
/// invariant.
#[verifier::rlimit(40)]
proof fn lemma_walk_getter<T: InsnSequence>(
    seq: &T,
    len: int,
    f: Seq<InsnTreeInfo<usize>>,
    g: Seq<Getter<usize>>,
    k: int,
    ri: Seq<int>,
    w: InputWalk,
    t: int,
    j: int,
    lins: int,
) -> (r: int)
    requires
        0 <= len,
        seq_wf(seq, len as nat),
        succ_links(seq),
        outside_inputs_first(seq),
        state_inv(seq, len, f, g, k, ri),
        0 <= k < seq.spec_instructions().len(),
        0 <= t < seq.spec_inputs_of(seq.spec_instructions()[k]).len(),
        w.span is Some,
        walk_forest(seq.spec_instructions(), len, f, k, ri, w.forest),
        walk_released(seq.spec_instructions(), seq.spec_inputs_of(seq.spec_instructions()[k]), ri, w, t, j, lins),
        !input_releasable(seq, w, seq.spec_inputs_of(seq.spec_instructions()[k])[t]),
    ensures
        walk_inv(
            seq,
            len,
            f,
            k,
            ri,
            stackify_input_step(
                seq,
                seq.spec_instructions()[k],
                w,
                seq.spec_inputs_of(seq.spec_instructions()[k])[t],
            ),
            t + 1,
            j,
            r,
        ),
{
    let lins2 = lemma_getter_target(seq, len, f, g, k, ri, w, t, j, lins);
    reveal(walk_released);
    let pcs = seq.spec_instructions();
    let c = pcs[k];
    let inputs = seq.spec_inputs_of(c);
    let a = inputs[t];
    let cg = w.current_getters;
    let forest = w.forest;
    let first = w.span.unwrap().0;
    let ins2 = bnd(pcs, ri, lins2);
    let w2 = stackify_input_step(seq, c, w, a);
    lemma_seq_facts(seq, len, k, t);
    assert(inputs.take(t + 1) =~= inputs.take(t).push(a));
    assert(w2.span == Some((first, ins2)));
    assert(w2.current_getters == cg.push(Getter { pc: ins2, value: a }));
    assert(w2.forest == forest);
    if lins < lins2 {
        lemma_bnd_mono(pcs, ri, k, lins, lins2);
    }
    assert forall|x: int| 0 <= x < cg.len() implies (#[trigger] cg[x]).pc <= bnd(pcs, ri, lins2) by {}
    lemma_planned_getter(pcs, ri, k, forest, cg, j, lins2, a);
    let cg2 = cg.push(Getter { pc: ins2, value: a });
    assert forall|x: int| 0 <= x < cg2.len() implies bnd(pcs, ri, j) <= (#[trigger] cg2[x]).pc <= ins2
        && cg2[x].value < cg2[x].pc && exists|l2: int| j <= l2 <= lins2 && bnd(pcs, ri, l2) == cg2[x].pc by {
        if x < cg.len() {
            assert(cg2[x] == cg[x]);
            let l2 = choose|l2: int| j <= l2 <= lins && bnd(pcs, ri, l2) == cg[x].pc;
        } else {
            lemma_bnd_mono(pcs, ri, k, j, lins2);
        }
    }
    assert(pcs_nondecreasing(cg2, 0)) by {
        assert forall|x: int, y: int| 0 <= x <= y < cg2.len() implies #[trigger] cg2[x].pc <= #[trigger] cg2[y].pc by {
            if y < cg.len() {
                assert(cg2[x] == cg[x] && cg2[y] == cg[y]);
            } else if x < cg.len() {
                assert(cg2[x] == cg[x]);
            }
        }
    }
    lins2
}

/// One input of the `k`-th instruction keeps the walk invariant.
proof fn lemma_walk_step<T: InsnSequence>(
    seq: &T,
    len: int,
    f: Seq<InsnTreeInfo<usize>>,
    g: Seq<Getter<usize>>,
    k: int,
    ri: Seq<int>,
    w: InputWalk,
    t: int,
    j: int,
    lins: int,
) -> (r: (int, int))
    requires
        0 <= len,
        seq_wf(seq, len as nat),
        succ_links(seq),
        outside_inputs_first(seq),
        state_inv(seq, len, f, g, k, ri),
        0 <= k < seq.spec_instructions().len(),
        walk_inv(seq, len, f, k, ri, w, t, j, lins),
        t < seq.spec_inputs_of(seq.spec_instructions()[k]).len(),
    ensures
        walk_inv(
            seq,
            len,
            f,
            k,
            ri,
            stackify_input_step(
                seq,
                seq.spec_instructions()[k],
                w,
                seq.spec_inputs_of(seq.spec_instructions()[k])[t],
            ),
            t + 1,
            r.0,
            r.1,
        ),
{
    let pcs = seq.spec_instructions();
    let c = pcs[k];
    let inputs = seq.spec_inputs_of(c);
    let a = inputs[t];
    lemma_seq_facts(seq, len, k, t);
    assert(forall|x: int| 0 <= x < pcs.len() ==> #[trigger] pcs[x] < len);
    if input_releasable(seq, w, a) {
        let l = lemma_release_root(seq, len, f, k, ri, w.forest, a);
        if w.span is None {
            lemma_walk_release_first(seq, len, f, k, ri, w, t, l);
            (l, l + 1)
        } else {
            lemma_walk_release_more(seq, len, f, k, ri, w, t, j, lins, l);
            (j, l + 1)
        }
    } else if w.span is Some {
        let r = lemma_walk_getter(seq, len, f, g, k, ri, w, t, j, lins);
        (j, r)
    } else {
        reveal(walk_unreleased);
        assert(inputs.take(t + 1) =~= inputs.take(t).push(a));
        let cg = w.current_getters;
        assert(cg.push(Getter { pc: c, value: a }) =~= inputs.take(t + 1).map_values(
            |x: usize| Getter { pc: c, value: x },
        ));
        (j, lins)
    }
}

// ---------------------------------------------------------------------------
// running segments after an instruction was processed
// ---------------------------------------------------------------------------

proof fn lemma_gv_below(g: Seq<Getter<usize>>, pc: usize)
    requires
        forall|x: int| 0 <= x < g.len() ==> (#[trigger] g[x]).value < g[x].pc,
    ensures
        all_below(getter_values(g, pc), pc),
    decreases g.len(),
{
    if g.len() > 0 {
        lemma_gv_below(g.drop_last(), pc);
        assert(g.last() == g[g.len() - 1]);
    }
}

/// Getters added before the first instruction of a range act as if they
/// were on the stack before it.
proof fn lemma_run_seg_prefix<T: InsnSequence>(
    seq: &T,
    f: Seq<InsnTreeInfo<usize>>,
    g1: Seq<Getter<usize>>,
    g2: Seq<Getter<usize>>,
    s0: int,
    e: int,
    sigma: Seq<usize>,
    x: Seq<usize>,
)
    requires
        s0 < e,
        getter_values(g1, seq.spec_instructions()[s0]) == x + getter_values(g2, seq.spec_instructions()[s0]),
        all_below(x, seq.spec_instructions()[s0]),
        forall|a: int|
            s0 < a < e ==> getter_values(g1, #[trigger] seq.spec_instructions()[a]) == getter_values(
                g2,
                seq.spec_instructions()[a],
            ),
    ensures
        run_seg(seq, f, g1, s0, e, sigma) == run_seg(seq, f, g2, s0, e, sigma + x),
{
    let pc = seq.spec_instructions()[s0];
    let v2 = getter_values(g2, pc);
    lemma_run_seg_concat(seq, f, g1, s0, s0 + 1, e, sigma);
    lemma_run_seg_concat(seq, f, g2, s0, s0 + 1, e, sigma + x);
    assert(all_below(x + v2, pc) == all_below(v2, pc)) by {
        if all_below(v2, pc) {
            assert forall|i: int| 0 <= i < (x + v2).len() implies #[trigger] (x + v2)[i] < pc by {
                if i < x.len() {
                    assert((x + v2)[i] == x[i]);
                } else {
                    assert((x + v2)[i] == v2[i - x.len()]);
                }
            }
        }
        if all_below(x + v2, pc) {
            assert forall|i: int| 0 <= i < v2.len() implies #[trigger] v2[i] < pc by {
                assert((x + v2)[i + x.len()] == v2[i]);
            }
        }
    }
    assert(sigma + (x + v2) =~= sigma + x + v2);
    assert(run_seg(seq, f, g1, s0, s0, sigma) == Some(sigma));
    assert(run_seg(seq, f, g2, s0, s0, sigma + x) == Some(sigma + x));
    assert(run_seg(seq, f, g1, s0, s0 + 1, sigma) == step(seq, f, g1, pc, sigma));
    assert(run_seg(seq, f, g2, s0, s0 + 1, sigma + x) == step(seq, f, g2, pc, sigma + x));
    assert(pre_step(seq, g1, pc, sigma) == pre_step(seq, g2, pc, sigma + x));
    assert(run_seg(seq, f, g1, s0, s0 + 1, sigma) == run_seg(seq, f, g2, s0, s0 + 1, sigma + x));
    if run_seg(seq, f, g1, s0, s0 + 1, sigma) is Some {
        let s1 = run_seg(seq, f, g1, s0, s0 + 1, sigma).unwrap();
        lemma_run_seg_agree(seq, f, g1, f, g2, s0 + 1, e, s1);
    }
}

/// Running a root's segment after its instruction was processed: the getters
/// `x` added at its start are pushed first, then the root unless it was
/// captured.
proof fn lemma_segment_run<T: InsnSequence>(
    seq: &T,
    f: Seq<InsnTreeInfo<usize>>,
    g: Seq<Getter<usize>>,
    f2: Seq<InsnTreeInfo<usize>>,
    g2: Seq<Getter<usize>>,
    s0: int,
    e: int,
    x: Seq<usize>,
    sigma: Seq<usize>,
)
    requires
        0 <= s0 <= e < seq.spec_instructions().len(),
        run_seg(seq, f, g, s0, e + 1, Seq::empty()) == Some(seq![seq.spec_instructions()[e]]),
        forall|a: int|
            s0 <= a <= e ==> getter_values(g2, #[trigger] seq.spec_instructions()[a]) == (if a == s0 {
                x
            } else {
                Seq::<usize>::empty()
            }) + getter_values(g, seq.spec_instructions()[a]),
        all_below(x, seq.spec_instructions()[s0]),
        forall|a: int|
            s0 <= a < e ==> (f2[#[trigger] seq.spec_instructions()[a] as int].output_mode is Capture) == (
            f[seq.spec_instructions()[a] as int].output_mode is Capture),
        !(f[seq.spec_instructions()[e] as int].output_mode is Capture),
    ensures
        run_seg(seq, f2, g2, s0, e + 1, sigma) == Some(
            sigma + x + if f2[seq.spec_instructions()[e] as int].output_mode is Capture {
                Seq::<usize>::empty()
            } else {
                seq![seq.spec_instructions()[e]]
            },
        ),
{
    let pcs = seq.spec_instructions();
    let r = pcs[e];
    assert forall|a: int| s0 < a < e + 1 implies getter_values(g2, #[trigger] pcs[a]) == getter_values(g, pcs[a]) by {
        assert(Seq::<usize>::empty() + getter_values(g, pcs[a]) =~= getter_values(g, pcs[a]));
    }
    lemma_run_seg_prefix(seq, f, g2, g, s0, e + 1, sigma, x);
    lemma_run_seg_frame(seq, f, g, s0, e + 1, sigma + x, Seq::empty());
    assert(sigma + x + Seq::<usize>::empty() =~= sigma + x);
    let full = sigma + x + seq![r];
    assert((sigma + x) + seq![r] == full);
    assert(run_seg(seq, f, g2, s0, e + 1, sigma) == Some(full));
    // the run up to the root is the same with either forest
    assert forall|a: int| s0 <= a < e implies getter_values(g2, #[trigger] pcs[a]) == getter_values(g2, pcs[a])
        && (f2[pcs[a] as int].output_mode is Capture) == (f[pcs[a] as int].output_mode is Capture) by {}
    lemma_run_seg_agree(seq, f2, g2, f, g2, s0, e, sigma);
    let s1 = run_seg(seq, f, g2, s0, e, sigma).unwrap();
    let s2 = pre_step(seq, g2, r, s1).unwrap();
    assert(s2.push(r) == full);
    assert(s2 =~= sigma + x) by {
        assert(s2.push(r).drop_last() =~= s2);
        assert(full.drop_last() =~= sigma + x);
    }
    if f2[r as int].output_mode is Capture {
        assert(sigma + x + Seq::<usize>::empty() =~= sigma + x);
    }
}

// ---------------------------------------------------------------------------
// processing one instruction keeps the invariant
// ---------------------------------------------------------------------------

/// Walking over the first `t` inputs keeps the walk invariant.
proof fn lemma_walk<T: InsnSequence>(
    seq: &T,
    len: int,
    f: Seq<InsnTreeInfo<usize>>,
    g: Seq<Getter<usize>>,
    k: int,
    ri: Seq<int>,
    t: int,
) -> (r: (int, int))
    requires
        0 <= len,
        seq_wf(seq, len as nat),
        succ_links(seq),
        outside_inputs_first(seq),
        state_inv(seq, len, f, g, k, ri),
        0 <= k < seq.spec_instructions().len(),
        0 <= t <= seq.spec_inputs_of(seq.spec_instructions()[k]).len(),
    ensures
        walk_inv(seq, len, f, k, ri, stackify_inputs(seq, seq.spec_instructions()[k], f, t as nat), t, r.0, r.1),
    decreases t,
{
    let pcs = seq.spec_instructions();
    let c = pcs[k];
    if t == 0 {
        let w = stackify_inputs(seq, c, f, 0);
        assert(w.forest == f && w.span is None && w.current_getters == Seq::<Getter<usize>>::empty());
        assert(walk_forest(pcs, len, f, k, ri, f)) by {
            reveal(walk_forest);
            reveal(inv_frame);
        }
        assert(walk_unreleased(pcs, seq.spec_inputs_of(c), k, ri, w, 0)) by {
            reveal(walk_unreleased);
            reveal(inv_roots);
            assert(seq.spec_inputs_of(c).take(0).map_values(|a: usize| Getter { pc: c, value: a }) =~= Seq::<
                Getter<usize>,
            >::empty());
        }
        (0, 0)
    } else {
        let (j, l) = lemma_walk(seq, len, f, g, k, ri, t - 1);
        let w = stackify_inputs(seq, c, f, (t - 1) as nat);
        assert(stackify_inputs(seq, c, f, t as nat) == stackify_input_step(seq, c, w, seq.spec_inputs_of(c)[t - 1]));
        lemma_walk_step(seq, len, f, g, k, ri, w, t - 1, j, l)
    }
}

proof fn lemma_processed_mono(pcs: Seq<usize>, k: int, k2: int, x: usize)
    requires
        processed(pcs, k, x),
        k <= k2,
    ensures
        processed(pcs, k2, x),
{
    let a = choose|a: int| 0 <= a < k && pcs[a] == x;
    assert(0 <= a < k2 && pcs[a] == x);
}

/// A processed pc comes before the `k`-th instruction.
proof fn lemma_processed_before(pcs: Seq<usize>, k: int, x: usize)
    requires
        pcs_increasing(pcs),
        0 <= k < pcs.len(),
        processed(pcs, k, x),
    ensures
        x < pcs[k],
{
    let a = choose|a: int| 0 <= a < k && pcs[a] == x;
    assert(pcs[a] < pcs[k]);
}

/// Processing an instruction none of whose inputs could be released.
#[verifier::rlimit(40)]
proof fn lemma_step_none<T: InsnSequence>(
    seq: &T,
    len: int,
    f: Seq<InsnTreeInfo<usize>>,
    g: Seq<Getter<usize>>,
    k: int,
    ri: Seq<int>,
    j: int,
    lins: int,
) -> (ri2: Seq<int>)
    requires
        0 <= len,
        seq_wf(seq, len as nat),
        state_inv(seq, len, f, g, k, ri),
        0 <= k < seq.spec_instructions().len(),
        walk_inv(
            seq,
            len,
            f,
            k,
            ri,
            stackify_inputs(
                seq,
                seq.spec_instructions()[k],
                f,
                seq.spec_inputs_of(seq.spec_instructions()[k]).len(),
            ),
            seq.spec_inputs_of(seq.spec_instructions()[k]).len() as int,
            j,
            lins,
        ),
        stackify_inputs(
            seq,
            seq.spec_instructions()[k],
            f,
            seq.spec_inputs_of(seq.spec_instructions()[k]).len(),
        ).span is None,
    ensures
        state_inv(
            seq,
            len,
            stackify_insn(seq, f, g, seq.spec_instructions()[k]).0,
            stackify_insn(seq, f, g, seq.spec_instructions()[k]).1,
            k + 1,
            ri2,
        ),
{
    let pcs = seq.spec_instructions();
    let c = pcs[k];
    let inputs = seq.spec_inputs_of(c);
    let q = inputs.len() as int;
    let w = stackify_inputs(seq, c, f, inputs.len());
    let cg = w.current_getters;
    let m = ri.len() as int;
    assert(pcs_increasing(pcs));
    assert(c < len);
    assert(f.len() == len) by {
        reveal(inv_frame);
    }
    assert(cg == inputs.map_values(|a: usize| Getter { pc: c, value: a })) by {
        reveal(walk_unreleased);
        assert(inputs.take(q) =~= inputs);
    }
    assert(w.forest =~= f) by {
        reveal(walk_forest);
        reveal(walk_unreleased);
        reveal(inv_roots);
        assert forall|x: int| 0 <= x < len implies w.forest[x] == f[x] by {
            if is_root_pc(pcs, ri, x) {
                let i = choose|i: int| 0 <= i < ri.len() && pcs[ri[i]] == x;
                assert(!released(w.forest, pcs, ri, i));
                assert(w.forest[pcs[ri[i]] as int] == f[pcs[ri[i]] as int] || w.forest[pcs[ri[i]] as int] == InsnTreeInfo {
                    output_mode: OutputMode::Release { parent: c },
                    ..f[pcs[ri[i]] as int]
                });
            }
        }
    }
    let f2 = stackify_insn(seq, f, g, c).0;
    let g2 = stackify_insn(seq, f, g, c).1;
    assert(f2 == f);
    assert(g2 == insert_getters_spec(g, cg, 0));
    let ri2 = ri.push(k);
    assert(pcs_nondecreasing(cg, 0));
    assert(cg.subrange(0, cg.len() as int) =~= cg);
    assert(fresh_at(f, c as int)) by {
        reveal(inv_frame);
    }
    assert(roots_ok(ri2, k + 1)) by {
        assert forall|a: int, b: int| 0 <= a < b < ri2.len() implies #[trigger] ri2[a] < #[trigger] ri2[b] by {
            if b < m {
                assert(ri[a] < ri[b]);
            } else {
                assert(ri[a] < k);
            }
        }
        assert forall|a: int| 0 <= a < ri2.len() implies 0 <= #[trigger] ri2[a] < k + 1 by {
            if a < m {
                assert(ri[a] < k);
            }
        }
    }
    assert(seg_start(ri2, m) == k) by {
        if m > 0 {
            assert(ri[m - 1] == ri.last());
        }
    }
    assert forall|i: int| 0 <= i < m implies seg_start(ri2, i) == seg_start(ri, i) by {}
    assert(inv_frame(seq, len, f, k + 1)) by {
        reveal(inv_frame);
    }
    assert(inv_roots(seq, f, k + 1, ri2)) by {
        reveal(inv_roots);
        assert forall|a: int|
            0 <= a < k + 1 && (#[trigger] f[pcs[a] as int]).output_mode == OutputMode::<usize>::Available implies ri2.contains(a) by {
            if a < k {
                assert(ri.contains(a));
                let i = choose|i: int| 0 <= i < ri.len() && ri[i] == a;
                assert(ri2[i] == a);
            } else {
                assert(ri2[m] == a);
            }
        }
    }
    assert(inv_parents(seq, f, k + 1)) by {
        reveal(inv_parents);
        assert forall|a: int| 0 <= a < k + 1 implies parent_ok(pcs, k + 1, pcs[a], (#[trigger] f[pcs[a] as int]).output_mode) by {
            if a < k {
                assert(parent_ok(pcs, k, pcs[a], f[pcs[a] as int].output_mode));
                match parent_of(f[pcs[a] as int].output_mode) {
                    Some(p) => lemma_processed_mono(pcs, k, k + 1, p),
                    None => {},
                }
            }
        }
    }
    assert(inv_tree(seq, f, k + 1, ri2)) by {
        reveal(inv_tree);
        assert forall|i: int, a: int, ign: usize|
            0 <= i < ri2.len() && seg_start(ri2, i) <= a <= ri2[i] && !processed(pcs, k + 1, ign) implies #[trigger] find_root_spec(
            f,
            pcs[a],
            ign,
        ) == pcs[#[trigger] ri2[i]] by {
            if i < m {
                if processed(pcs, k, ign) {
                    lemma_processed_mono(pcs, k, k + 1, ign);
                }
                assert(find_root_spec(f, pcs[a], ign) == pcs[ri[i]]);
            } else {
                assert(a == k);
            }
        }
    }
    assert(inv_getters(seq, g2, k + 1)) by {
        reveal(inv_getters);
        lemma_insert_getters_sorted(g, cg, 0);
        let good = |x: Getter<usize>| processed(pcs, k + 1, x.pc);
        assert forall|a: int| 0 <= a < g.len() implies good(#[trigger] g[a]) by {
            lemma_processed_mono(pcs, k, k + 1, g[a].pc);
        }
        assert forall|b: int| 0 <= b < cg.len() implies good(#[trigger] cg[b]) by {
            assert(pcs[k] == cg[b].pc);
        }
        lemma_insert_members(g, cg, 0, good);
        assert forall|x: int| 0 <= x < g2.len() implies processed(pcs, k + 1, (#[trigger] g2[x]).pc) by {
            assert(good(g2[x]));
        }
    }
    assert(inv_runs(seq, f, g2, ri2)) by {
        reveal(inv_runs);
        reveal(inv_getters);
        assert forall|i: int| 0 <= i < ri2.len() implies run_seg(seq, f, g2, seg_start(ri2, i), #[trigger] ri2[i] + 1, Seq::empty())
            == Some(seq![pcs[ri2[i]]]) by {
            if i < m {
                assert forall|a: int| seg_start(ri, i) <= a < ri[i] + 1 implies getter_values(g2, #[trigger] pcs[a])
                    == getter_values(g, pcs[a]) && (f[pcs[a] as int].output_mode is Capture) == (f[pcs[a] as int].output_mode is Capture) by {
                    lemma_insert_values(g, cg, 0, pcs[a]);
                    assert(ri[i] < k);
                    assert(pcs[a] < pcs[k]);
                    lemma_gv_none(cg, pcs[a]);
                    assert(Seq::<usize>::empty() + getter_values(g, pcs[a]) =~= getter_values(g, pcs[a]));
                }
                lemma_run_seg_agree(seq, f, g2, f, g, seg_start(ri, i), ri[i] + 1, Seq::empty());
            } else {
                lemma_insert_values(g, cg, 0, c);
                assert forall|x: int| 0 <= x < cg.len() implies #[trigger] cg[x].pc == c by {}
                lemma_gv_all(cg, c);
                assert(cg.map_values(|x: Getter<usize>| x.value) =~= inputs);
                assert forall|x: int| 0 <= x < g.len() implies #[trigger] g[x].pc != c by {
                    lemma_processed_before(pcs, k, g[x].pc);
                }
                lemma_gv_none(g, c);
                assert(getter_values(g2, c) =~= inputs);
                assert(all_below(inputs, c)) by {
                    assert forall|t: int| 0 <= t < inputs.len() implies #[trigger] inputs[t] < c by {
                        assert(seq.spec_inputs_of(pcs[k])[t] < pcs[k]);
                    }
                }
                lemma_pop_inputs_self(Seq::<usize>::empty(), inputs);
                assert(Seq::<usize>::empty() + inputs =~= inputs);
                assert(run_seg(seq, f, g2, k, k, Seq::empty()) == Some(Seq::<usize>::empty()));
                assert(Seq::<usize>::empty().push(c) =~= seq![c]);
            }
        }
    }
    ri2
}

/// The forest after the inputs of the `k`-th instruction were released and
/// the rest of its segment captured.
pub open spec fn locked_forest<T: InsnSequence>(seq: &T, k: int, w: InputWalk) -> Seq<InsnTreeInfo<usize>> {
    let c = seq.spec_instructions()[k];
    let first = w.span.unwrap().0;
    lock_range(
        seq,
        w.forest.update(c as int, InsnTreeInfo { subtree_start: w.forest[first as int].subtree_start, ..w.forest[c as int] }),
        first,
        c,
    )
}

/// What locking does: the new root is available with the subtree of the
/// first released input, the roots of its segment are released or captured
/// on its behalf, and everything else is as before.
#[verifier::rlimit(40)]
proof fn lemma_lock_facts<T: InsnSequence>(
    seq: &T,
    len: int,
    f: Seq<InsnTreeInfo<usize>>,
    g: Seq<Getter<usize>>,
    k: int,
    ri: Seq<int>,
    w: InputWalk,
    t: int,
    j: int,
    lins: int,
)
    requires
        0 <= len,
        seq_wf(seq, len as nat),
        state_inv(seq, len, f, g, k, ri),
        0 <= k < seq.spec_instructions().len(),
        w.span is Some,
        walk_forest(seq.spec_instructions(), len, f, k, ri, w.forest),
        walk_released(seq.spec_instructions(), seq.spec_inputs_of(seq.spec_instructions()[k]), ri, w, t, j, lins),
    ensures
        ({
            let pcs = seq.spec_instructions();
            let c = pcs[k];
            let f2 = locked_forest(seq, k, w);
            &&& f2.len() == len
            &&& f2[c as int] == (InsnTreeInfo { output_mode: OutputMode::<usize>::Available, subtree_start: bnd(pcs, ri, j) })
            &&& forall|i: int| 0 <= i < j ==> #[trigger] f2[pcs[ri[i]] as int] == f[pcs[ri[i]] as int]
            &&& forall|i: int|
                j <= i < ri.len() ==> #[trigger] f2[pcs[ri[i]] as int] == (InsnTreeInfo {
                    output_mode: if released(w.forest, pcs, ri, i) {
                        OutputMode::Release { parent: c }
                    } else {
                        OutputMode::Capture { parent: c }
                    },
                    subtree_start: f[pcs[ri[i]] as int].subtree_start,
                })
            &&& forall|x: int| 0 <= x < len && x != c && !is_root_pc(pcs, ri, x) ==> #[trigger] f2[x] == f[x]
        }),
{
    reveal(walk_forest);
    reveal(walk_released);
    reveal(inv_roots);
    reveal(inv_frame);
    let pcs = seq.spec_instructions();
    let c = pcs[k];
    let m = ri.len() as int;
    let wf = w.forest;
    let first = w.span.unwrap().0;
    let f0 = wf.update(c as int, InsnTreeInfo { subtree_start: wf[first as int].subtree_start, ..wf[c as int] });
    let f2 = locked_forest(seq, k, w);
    assert(pcs_increasing(pcs));
    assert(c < len);
    assert(0 <= ri[j] < k);
    assert(pcs[ri[j]] < c);
    assert(!is_root_pc(pcs, ri, c as int)) by {
        if is_root_pc(pcs, ri, c as int) {
            let i = choose|i: int| 0 <= i < ri.len() && pcs[ri[i]] == c as int;
            assert(ri[i] < k);
            assert(pcs[ri[i]] < pcs[k]);
        }
    }
    assert(wf[c as int] == f[c as int]);
    assert(fresh_at(f, c as int));
    assert(wf[pcs[ri[j]] as int] == f[pcs[ri[j]] as int] || wf[pcs[ri[j]] as int] == InsnTreeInfo {
        output_mode: OutputMode::Release { parent: c },
        ..f[pcs[ri[j]] as int]
    });
    assert(f2[c as int] == (InsnTreeInfo { output_mode: OutputMode::<usize>::Available, subtree_start: bnd(pcs, ri, j) }));
    assert forall|i: int| 0 <= i < m implies pcs[ri[i]] != c && f0[pcs[ri[i]] as int] == wf[pcs[ri[i]] as int] by {
        assert(ri[i] < k);
        assert(pcs[ri[i]] < pcs[k]);
    }
    assert forall|i: int| 0 <= i < j implies #[trigger] f2[pcs[ri[i]] as int] == f[pcs[ri[i]] as int] by {
        assert(ri[i] < ri[j]);
        assert(pcs[ri[i]] < pcs[ri[j]]);
        assert(!released(wf, pcs, ri, i));
        assert(wf[pcs[ri[i]] as int] == f[pcs[ri[i]] as int] || wf[pcs[ri[i]] as int] == InsnTreeInfo {
            output_mode: OutputMode::Release { parent: c },
            ..f[pcs[ri[i]] as int]
        });
    }
    assert forall|i: int| j <= i < m implies #[trigger] f2[pcs[ri[i]] as int] == (InsnTreeInfo {
        output_mode: if released(wf, pcs, ri, i) {
            OutputMode::Release { parent: c }
        } else {
            OutputMode::Capture { parent: c }
        },
        subtree_start: f[pcs[ri[i]] as int].subtree_start,
    }) by {
        if i > j {
            assert(ri[j] < ri[i]);
            assert(pcs[ri[j]] < pcs[ri[i]]);
        }
        assert(ri[i] < k);
        assert(pcs[ri[i]] < pcs[k]);
        assert(pcs.contains(pcs[ri[i]]));
        assert(wf[pcs[ri[i]] as int] == f[pcs[ri[i]] as int] || wf[pcs[ri[i]] as int] == InsnTreeInfo {
            output_mode: OutputMode::Release { parent: c },
            ..f[pcs[ri[i]] as int]
        });
    }
    assert forall|x: int| 0 <= x < len && x != c && !is_root_pc(pcs, ri, x) implies #[trigger] f2[x] == f[x] by {
        assert(f0[x] == wf[x]);
        assert(wf[x] == f[x]);
        if pcs.contains(x as usize) && pcs[ri[j]] <= x < c && f[x].output_mode == OutputMode::<usize>::Available {
            let b = lemma_position(pcs, k, x as usize);
            assert(ri.contains(b));
            let i = choose|i: int| 0 <= i < ri.len() && ri[i] == b;
            assert(pcs[ri[i]] == x);
        }
    }
}

/// Running the segments of the roots `j..i` after locking pushes what was
/// planned for them.
#[verifier::rlimit(40)]
proof fn lemma_assembly_upto<T: InsnSequence>(
    seq: &T,
    len: int,
    f: Seq<InsnTreeInfo<usize>>,
    g: Seq<Getter<usize>>,
    k: int,
    ri: Seq<int>,
    w: InputWalk,
    t: int,
    j: int,
    lins: int,
    i: int,
)
    requires
        0 <= len,
        seq_wf(seq, len as nat),
        state_inv(seq, len, f, g, k, ri),
        0 <= k < seq.spec_instructions().len(),
        w.span is Some,
        walk_forest(seq.spec_instructions(), len, f, k, ri, w.forest),
        walk_released(seq.spec_instructions(), seq.spec_inputs_of(seq.spec_instructions()[k]), ri, w, t, j, lins),
        j <= i <= ri.len(),
    ensures
        run_seg(
            seq,
            locked_forest(seq, k, w),
            insert_getters_spec(g, w.current_getters, 0),
            seg_start(ri, j),
            seg_start(ri, i),
            Seq::empty(),
        ) == Some(ps_upto(seq.spec_instructions(), ri, w.forest, w.current_getters, j, i)),
    decreases i - j,
{
    let pcs = seq.spec_instructions();
    let c = pcs[k];
    let m = ri.len() as int;
    let f2 = locked_forest(seq, k, w);
    let cg = w.current_getters;
    let g2 = insert_getters_spec(g, cg, 0);
    assert(0 <= j) by {
        reveal(walk_released);
    }
    if i > j {
        let i1 = i - 1;
        lemma_assembly_upto(seq, len, f, g, k, ri, w, t, j, lins, i1);
        assert(pcs_increasing(pcs));
        lemma_bnd_mono(pcs, ri, k, i1, m);
        let s0 = seg_start(ri, i1);
        let e = ri[i1];
        assert(seg_start(ri, i) == e + 1);
        lemma_bnd_mono(pcs, ri, k, j, i);
        lemma_run_seg_concat(seq, f2, g2, seg_start(ri, j), s0, e + 1, Seq::empty());
        let sigma = ps_upto(pcs, ri, w.forest, cg, j, i1);
        let x = getter_values(cg, bnd(pcs, ri, i1));
        lemma_lock_facts(seq, len, f, g, k, ri, w, t, j, lins);
        assert(cg.subrange(0, cg.len() as int) =~= cg);
        assert(pcs_nondecreasing(cg, 0)) by {
            reveal(walk_released);
        }
        assert(run_seg(seq, f, g, s0, e + 1, Seq::empty()) == Some(seq![pcs[e]])) by {
            reveal(inv_runs);
        }
        assert forall|a: int| s0 <= a <= e implies getter_values(g2, #[trigger] pcs[a]) == (if a == s0 {
            x
        } else {
            Seq::<usize>::empty()
        }) + getter_values(g, pcs[a]) by {
            lemma_insert_values(g, cg, 0, pcs[a]);
            if a > s0 {
                assert forall|y: int| 0 <= y < cg.len() implies #[trigger] cg[y].pc != pcs[a] by {
                    reveal(walk_released);
                    let l = choose|l: int| j <= l <= lins && bnd(pcs, ri, l) == cg[y].pc;
                    if cg[y].pc == pcs[a] {
                        assert(seg_start(ri, l) == a) by {
                            lemma_bnd_mono(pcs, ri, k, 0, l);
                            if seg_start(ri, l) < a {
                                assert(pcs[seg_start(ri, l)] < pcs[a]);
                            }
                            if seg_start(ri, l) > a {
                                assert(pcs[seg_start(ri, l)] > pcs[a]);
                            }
                        }
                        if l <= i1 {
                            if l < i1 {
                                lemma_bnd_mono(pcs, ri, k, l, i1);
                            }
                        } else {
                            if l > i {
                                lemma_bnd_mono(pcs, ri, k, i, l);
                            }
                        }
                    }
                }
                lemma_gv_none(cg, pcs[a]);
            }
        }
        assert(all_below(x, pcs[s0])) by {
            reveal(walk_released);
            lemma_gv_below(cg, bnd(pcs, ri, i1));
        }
        assert forall|a: int| s0 <= a < e implies (f2[#[trigger] pcs[a] as int].output_mode is Capture) == (
        f[pcs[a] as int].output_mode is Capture) by {
            assert(a < k);
            assert(pcs[a] < c);
            assert(pcs[a] < len);
            assert(!is_root_pc(pcs, ri, pcs[a] as int)) by {
                if is_root_pc(pcs, ri, pcs[a] as int) {
                    let l = choose|l: int| 0 <= l < ri.len() && pcs[ri[l]] == pcs[a] as int;
                    assert(ri[l] == a) by {
                        if ri[l] < a {
                            assert(pcs[ri[l]] < pcs[a]);
                        }
                        if ri[l] > a {
                            assert(pcs[ri[l]] > pcs[a]);
                        }
                    }
                    if l < i1 {
                        assert(ri[l] <= ri[i1 - 1]) by {
                            if l < i1 - 1 {
                                assert(ri[l] < ri[i1 - 1]);
                            }
                        }
                    } else if l > i1 {
                        assert(ri[i1] < ri[l]);
                    }
                }
            }
        }
        assert(f[pcs[e] as int].output_mode == OutputMode::<usize>::Available) by {
            reveal(inv_roots);
        }
        lemma_segment_run(seq, f, g, f2, g2, s0, e, x, sigma);
        assert(f2[pcs[e] as int].output_mode is Capture <==> !released(w.forest, pcs, ri, i1));
    }
}

/// After locking, running the segment of the processed instruction pushes
/// exactly that instruction.
#[verifier::rlimit(40)]
proof fn lemma_assembly<T: InsnSequence>(
    seq: &T,
    len: int,
    f: Seq<InsnTreeInfo<usize>>,
    g: Seq<Getter<usize>>,
    k: int,
    ri: Seq<int>,
    w: InputWalk,
    j: int,
    lins: int,
)
    requires
        0 <= len,
        seq_wf(seq, len as nat),
        state_inv(seq, len, f, g, k, ri),
        0 <= k < seq.spec_instructions().len(),
        w.span is Some,
        walk_forest(seq.spec_instructions(), len, f, k, ri, w.forest),
        walk_released(
            seq.spec_instructions(),
            seq.spec_inputs_of(seq.spec_instructions()[k]),
            ri,
            w,
            seq.spec_inputs_of(seq.spec_instructions()[k]).len() as int,
            j,
            lins,
        ),
    ensures
        run_seg(
            seq,
            locked_forest(seq, k, w),
            insert_getters_spec(g, w.current_getters, 0),
            seg_start(ri, j),
            k + 1,
            Seq::empty(),
        ) == Some(seq![seq.spec_instructions()[k]]),
{
    let pcs = seq.spec_instructions();
    let c = pcs[k];
    let m = ri.len() as int;
    let inputs = seq.spec_inputs_of(c);
    let q = inputs.len() as int;
    let f2 = locked_forest(seq, k, w);
    let cg = w.current_getters;
    let g2 = insert_getters_spec(g, cg, 0);
    assert(0 <= j < m) by {
        reveal(walk_released);
    }
    assert(pcs_increasing(pcs));
    lemma_assembly_upto(seq, len, f, g, k, ri, w, q, j, lins, m);
    lemma_bnd_mono(pcs, ri, k, j, m);
    let ps = ps_upto(pcs, ri, w.forest, cg, j, m);
    assert(seg_start(ri, m) == k);
    assert(run_seg(seq, f2, g2, seg_start(ri, j), k + 1, Seq::empty()) == step(seq, f2, g2, c, ps));
    assert(cg.subrange(0, cg.len() as int) =~= cg);
    assert(pcs_nondecreasing(cg, 0)) by {
        reveal(walk_released);
    }
    lemma_insert_values(g, cg, 0, c);
    assert forall|x: int| 0 <= x < g.len() implies #[trigger] g[x].pc != c by {
        reveal(inv_getters);
        lemma_processed_before(pcs, k, g[x].pc);
    }
    lemma_gv_none(g, c);
    let vc = getter_values(cg, c);
    assert(vc + Seq::<usize>::empty() =~= vc);
    assert(getter_values(g2, c) == vc);
    assert(all_below(vc, c)) by {
        reveal(walk_released);
        lemma_gv_below(cg, c);
    }
    assert(planned(pcs, ri, w.forest, cg, j) == inputs) by {
        reveal(walk_released);
        assert(inputs.take(q) =~= inputs);
    }
    assert(ps + vc == inputs);
    lemma_pop_inputs_self(Seq::<usize>::empty(), inputs);
    assert(Seq::<usize>::empty() + inputs =~= inputs);
    lemma_lock_facts(seq, len, f, g, k, ri, w, q, j, lins);
    assert(Seq::<usize>::empty().push(c) =~= seq![c]);
}

/// The locked forest differs from the processed one only in roots, which
/// get the processed instruction as parent.
proof fn lemma_locked_moved<T: InsnSequence>(
    seq: &T,
    len: int,
    f: Seq<InsnTreeInfo<usize>>,
    g: Seq<Getter<usize>>,
    k: int,
    ri: Seq<int>,
    w: InputWalk,
    t: int,
    j: int,
    lins: int,
)
    requires
        0 <= len,
        seq_wf(seq, len as nat),
        state_inv(seq, len, f, g, k, ri),
        0 <= k < seq.spec_instructions().len(),
        w.span is Some,
        walk_forest(seq.spec_instructions(), len, f, k, ri, w.forest),
        walk_released(seq.spec_instructions(), seq.spec_inputs_of(seq.spec_instructions()[k]), ri, w, t, j, lins),
    ensures
        ({
            let pcs = seq.spec_instructions();
            let c = pcs[k];
            let f2 = locked_forest(seq, k, w);
            &&& forall|a: int|
                0 <= a < k && (#[trigger] f[pcs[a] as int]).output_mode != OutputMode::<usize>::Available ==> f2[pcs[a] as int]
                    == f[pcs[a] as int]
            &&& forall|a: int|
                0 <= a < k && (#[trigger] f[pcs[a] as int]).output_mode == OutputMode::<usize>::Available ==> (f2[pcs[a] as int]
                    == f[pcs[a] as int] || parent_of(f2[pcs[a] as int].output_mode) == Some(c))
            &&& forall|a: int| 0 <= a < k ==> #[trigger] pcs[a] < c
            &&& c < len
            &&& f.len() == len
        }),
{
    let pcs = seq.spec_instructions();
    let c = pcs[k];
    let f2 = locked_forest(seq, k, w);
    lemma_lock_facts(seq, len, f, g, k, ri, w, t, j, lins);
    assert(pcs_increasing(pcs));
    assert(c < len);
    assert(f.len() == len) by {
        reveal(inv_frame);
    }
    assert forall|a: int| 0 <= a < k implies #[trigger] pcs[a] < c by {}
    assert forall|a: int|
        0 <= a < k && (#[trigger] f[pcs[a] as int]).output_mode != OutputMode::<usize>::Available implies f2[pcs[a] as int]
        == f[pcs[a] as int] by {
        assert(!is_root_pc(pcs, ri, pcs[a] as int)) by {
            reveal(inv_roots);
            if is_root_pc(pcs, ri, pcs[a] as int) {
                let i = choose|i: int| 0 <= i < ri.len() && pcs[ri[i]] == pcs[a] as int;
                assert(f[pcs[ri[i]] as int].output_mode == OutputMode::<usize>::Available);
            }
        }
        assert(pcs[a] < c);
    }
    assert forall|a: int|
        0 <= a < k && (#[trigger] f[pcs[a] as int]).output_mode == OutputMode::<usize>::Available implies (f2[pcs[a] as int]
        == f[pcs[a] as int] || parent_of(f2[pcs[a] as int].output_mode) == Some(c)) by {
        reveal(inv_roots);
        assert(ri.contains(a));
        let i = choose|i: int| 0 <= i < ri.len() && ri[i] == a;
        assert(pcs[ri[i]] == pcs[a]);
        if i < j {
            assert(f2[pcs[ri[i]] as int] == f[pcs[ri[i]] as int]);
        } else {
            assert(f2[pcs[ri[i]] as int] == (InsnTreeInfo {
                output_mode: if released(w.forest, pcs, ri, i) {
                    OutputMode::Release { parent: c }
                } else {
                    OutputMode::Capture { parent: c }
                },
                subtree_start: f[pcs[ri[i]] as int].subtree_start,
            }));
        }
    }
}

/// Processing an instruction one of whose inputs was released.
#[verifier::rlimit(60)]
proof fn lemma_step_some<T: InsnSequence>(
    seq: &T,
    len: int,
    f: Seq<InsnTreeInfo<usize>>,
    g: Seq<Getter<usize>>,
    k: int,
    ri: Seq<int>,
    j: int,
    lins: int,
) -> (ri2: Seq<int>)
    requires
        0 <= len,
        seq_wf(seq, len as nat),
        state_inv(seq, len, f, g, k, ri),
        0 <= k < seq.spec_instructions().len(),
        walk_inv(
            seq,
            len,
            f,
            k,
            ri,
            stackify_inputs(
                seq,
                seq.spec_instructions()[k],
                f,
                seq.spec_inputs_of(seq.spec_instructions()[k]).len(),
            ),
            seq.spec_inputs_of(seq.spec_instructions()[k]).len() as int,
            j,
            lins,
        ),
        stackify_inputs(
            seq,
            seq.spec_instructions()[k],
            f,
            seq.spec_inputs_of(seq.spec_instructions()[k]).len(),
        ).span is Some,
    ensures
        state_inv(
            seq,
            len,
            stackify_insn(seq, f, g, seq.spec_instructions()[k]).0,
            stackify_insn(seq, f, g, seq.spec_instructions()[k]).1,
            k + 1,
            ri2,
        ),
{
    let pcs = seq.spec_instructions();
    let c = pcs[k];
    let inputs = seq.spec_inputs_of(c);
    let q = inputs.len() as int;
    let w = stackify_inputs(seq, c, f, inputs.len());
    let cg = w.current_getters;
    let m = ri.len() as int;
    let f2 = locked_forest(seq, k, w);
    let g2 = insert_getters_spec(g, cg, 0);
    assert(stackify_insn(seq, f, g, c).0 == f2);
    assert(stackify_insn(seq, f, g, c).1 == g2);
    assert(0 <= j < lins <= m) by {
        reveal(walk_released);
    }
    assert(pcs_increasing(pcs));
    lemma_lock_facts(seq, len, f, g, k, ri, w, q, j, lins);
    lemma_locked_moved(seq, len, f, g, k, ri, w, q, j, lins);
    let ri2 = ri.take(j).push(k);
    assert(ri2.len() == j + 1);
    assert(ri2[j] == k);
    assert forall|i: int| 0 <= i < j implies #[trigger] ri2[i] == ri[i] by {}
    assert forall|i: int| 0 <= i <= j implies #[trigger] seg_start(ri2, i) == seg_start(ri, i) by {}
    lemma_bnd_mono(pcs, ri, k, j, m);
    assert(roots_ok(ri2, k + 1)) by {
        assert forall|a: int, b: int| 0 <= a < b < ri2.len() implies #[trigger] ri2[a] < #[trigger] ri2[b] by {
            if b < j {
                assert(ri[a] < ri[b]);
            } else {
                assert(ri[a] < k);
            }
        }
        assert forall|a: int| 0 <= a < ri2.len() implies 0 <= #[trigger] ri2[a] < k + 1 by {
            if a < j {
                assert(ri[a] < k);
            }
        }
    }
    assert(inv_frame(seq, len, f2, k + 1)) by {
        reveal(inv_frame);
        assert forall|a: int| k + 1 <= a < pcs.len() implies fresh_at(f2, #[trigger] pcs[a] as int) by {
            assert(pcs[k] < pcs[a]);
            assert(!is_root_pc(pcs, ri, pcs[a] as int)) by {
                if is_root_pc(pcs, ri, pcs[a] as int) {
                    let i = choose|i: int| 0 <= i < ri.len() && pcs[ri[i]] == pcs[a] as int;
                    assert(ri[i] < k);
                    assert(pcs[ri[i]] < pcs[k]);
                }
            }
            assert(fresh_at(f, pcs[a] as int));
        }
        assert forall|x: int| 0 <= x < len && !pcs.contains(x as usize) implies #[trigger] fresh_at(f2, x) by {
            assert(x != c) by {
                if x == c {
                    assert(pcs.contains(pcs[k]));
                }
            }
            assert(!is_root_pc(pcs, ri, x)) by {
                if is_root_pc(pcs, ri, x) {
                    let i = choose|i: int| 0 <= i < ri.len() && pcs[ri[i]] == x;
                    assert(pcs.contains(pcs[ri[i]]));
                }
            }
            assert(fresh_at(f, x));
        }
    }
    assert(inv_roots(seq, f2, k + 1, ri2)) by {
        reveal(inv_roots);
        assert forall|i: int| 0 <= i < ri2.len() implies (#[trigger] f2[pcs[ri2[i]] as int]).output_mode
            == OutputMode::<usize>::Available && f2[pcs[ri2[i]] as int].subtree_start == pcs[seg_start(ri2, i)] by {
            if i < j {
                assert(f2[pcs[ri[i]] as int] == f[pcs[ri[i]] as int]);
            }
        }
        assert forall|a: int|
            0 <= a < k + 1 && (#[trigger] f2[pcs[a] as int]).output_mode == OutputMode::<usize>::Available implies ri2.contains(a) by {
            if a == k {
                assert(ri2[j] == a);
            } else {
                if f[pcs[a] as int].output_mode == OutputMode::<usize>::Available {
                    assert(ri.contains(a));
                    let i = choose|i: int| 0 <= i < ri.len() && ri[i] == a;
                    if i < j {
                        assert(ri2[i] == a);
                    } else {
                        assert(f2[pcs[ri[i]] as int].output_mode != OutputMode::<usize>::Available);
                    }
                } else {
                    assert(f2[pcs[a] as int] == f[pcs[a] as int]);
                }
            }
        }
    }
    assert(inv_parents(seq, f2, k + 1)) by {
        reveal(inv_parents);
        reveal(inv_roots);
        assert(processed(pcs, k + 1, c));
        assert forall|a: int| 0 <= a < k + 1 implies parent_ok(pcs, k + 1, pcs[a], (#[trigger] f2[pcs[a] as int]).output_mode) by {
            if a < k {
                if f[pcs[a] as int].output_mode == OutputMode::<usize>::Available {
                    assert(ri.contains(a));
                    let i = choose|i: int| 0 <= i < ri.len() && ri[i] == a;
                    if i < j {
                        assert(f2[pcs[ri[i]] as int] == f[pcs[ri[i]] as int]);
                    } else {
                        assert(pcs[a] < c);
                    }
                } else {
                    assert(f2[pcs[a] as int] == f[pcs[a] as int]);
                    assert(parent_ok(pcs, k, pcs[a], f[pcs[a] as int].output_mode));
                    match parent_of(f[pcs[a] as int].output_mode) {
                        Some(p) => lemma_processed_mono(pcs, k, k + 1, p),
                        None => {},
                    }
                }
            }
        }
    }
    assert(inv_tree(seq, f2, k + 1, ri2)) by {
        reveal(inv_tree);
        assert(inv_parents(seq, f, k));
        assert forall|i: int, a: int, ign: usize|
            0 <= i < ri2.len() && seg_start(ri2, i) <= a <= ri2[i] && !processed(pcs, k + 1, ign) implies #[trigger] find_root_spec(
            f2,
            pcs[a],
            ign,
        ) == pcs[#[trigger] ri2[i]] by {
            assert(!processed(pcs, k, ign)) by {
                if processed(pcs, k, ign) {
                    lemma_processed_mono(pcs, k, k + 1, ign);
                }
            }
            assert(ign != c) by {
                assert(pcs[k] == c);
            }
            assert(find_root_spec(f2, c, ign) == c);
            if a < k {
                assert(processed(pcs, k, pcs[a]));
                reveal(inv_parents);
                lemma_find_root_moved(pcs, k, f, f2, pcs[a], ign, c);
                if i < j {
                    assert(find_root_spec(f, pcs[a], ign) == pcs[ri[i]]);
                } else {
                    let l = lemma_seg_cover(ri, k, a, 0);
                    assert(l >= j) by {
                        if l < j {
                            assert(ri[l] <= ri[j - 1]) by {
                                if l < j - 1 {
                                    assert(ri[l] < ri[j - 1]);
                                }
                            }
                        }
                    }
                    assert(find_root_spec(f, pcs[a], ign) == pcs[ri[l]]);
                    assert(f2[pcs[ri[l]] as int] != f[pcs[ri[l]] as int]) by {
                        reveal(inv_roots);
                    }
                }
            } else {
                assert(a == k);
            }
        }
    }
    assert(inv_getters(seq, g2, k + 1)) by {
        reveal(inv_getters);
        reveal(walk_released);
        lemma_insert_getters_sorted(g, cg, 0);
        let good = |x: Getter<usize>| processed(pcs, k + 1, x.pc);
        assert forall|a: int| 0 <= a < g.len() implies good(#[trigger] g[a]) by {
            lemma_processed_mono(pcs, k, k + 1, g[a].pc);
        }
        assert forall|b: int| 0 <= b < cg.len() implies good(#[trigger] cg[b]) by {
            let l = choose|l: int| j <= l <= lins && bnd(pcs, ri, l) == cg[b].pc;
            if l < m {
                lemma_bnd_mono(pcs, ri, k, l, m);
            }
            assert(0 <= seg_start(ri, l) < k + 1);
        }
        lemma_insert_members(g, cg, 0, good);
        assert forall|x: int| 0 <= x < g2.len() implies processed(pcs, k + 1, (#[trigger] g2[x]).pc) by {
            assert(good(g2[x]));
        }
    }
    assert(inv_runs(seq, f2, g2, ri2)) by {
        reveal(inv_runs);
        assert forall|i: int| 0 <= i < ri2.len() implies run_seg(seq, f2, g2, seg_start(ri2, i), #[trigger] ri2[i] + 1, Seq::empty())
            == Some(seq![pcs[ri2[i]]]) by {
            if i < j {
                assert(ri[i] < seg_start(ri, j)) by {
                    if i < j - 1 {
                        assert(ri[i] < ri[j - 1]);
                    }
                }
                assert(cg.subrange(0, cg.len() as int) =~= cg);
                assert(pcs_nondecreasing(cg, 0)) by {
                    reveal(walk_released);
                }
                assert forall|a: int| seg_start(ri, i) <= a < ri[i] + 1 implies getter_values(g2, #[trigger] pcs[a])
                    == getter_values(g, pcs[a]) && (f2[pcs[a] as int].output_mode is Capture) == (f[pcs[a] as int].output_mode is Capture) by {
                    lemma_insert_values(g, cg, 0, pcs[a]);
                    assert(pcs[a] < bnd(pcs, ri, j));
                    assert forall|y: int| 0 <= y < cg.len() implies #[trigger] cg[y].pc != pcs[a] by {
                        reveal(walk_released);
                    }
                    lemma_gv_none(cg, pcs[a]);
                    assert(Seq::<usize>::empty() + getter_values(g, pcs[a]) =~= getter_values(g, pcs[a]));
                    assert(a < k);
                    assert(pcs[a] < c);
                    if a == ri[i] {
                        assert(f2[pcs[ri[i]] as int] == f[pcs[ri[i]] as int]);
                    } else {
                        assert(!is_root_pc(pcs, ri, pcs[a] as int)) by {
                            if is_root_pc(pcs, ri, pcs[a] as int) {
                                let l = choose|l: int| 0 <= l < ri.len() && pcs[ri[l]] == pcs[a] as int;
                                assert(ri[l] == a) by {
                                    if ri[l] < a {
                                        assert(pcs[ri[l]] < pcs[a]);
                                    }
                                    if ri[l] > a {
                                        assert(pcs[ri[l]] > pcs[a]);
                                    }
                                }
                                if l < i {
                                    assert(ri[l] <= ri[i - 1]) by {
                                        if l < i - 1 {
                                            assert(ri[l] < ri[i - 1]);
                                        }
                                    }
                                } else if l > i {
                                    assert(ri[i] < ri[l]);
                                }
                            }
                        }
                        assert(pcs[a] < len);
                    }
                }
                lemma_run_seg_agree(seq, f2, g2, f, g, seg_start(ri, i), ri[i] + 1, Seq::empty());
            } else {
                lemma_assembly(seq, len, f, g, k, ri, w, j, lins);
            }
        }
    }
    ri2
}

/// Processing the `k`-th instruction keeps the invariant.
proof fn lemma_step<T: InsnSequence>(
    seq: &T,
    len: int,
    f: Seq<InsnTreeInfo<usize>>,
    g: Seq<Getter<usize>>,
    k: int,
    ri: Seq<int>,
) -> (ri2: Seq<int>)
    requires
        0 <= len,
        seq_wf(seq, len as nat),
        succ_links(seq),
        outside_inputs_first(seq),
        state_inv(seq, len, f, g, k, ri),
        0 <= k < seq.spec_instructions().len(),
    ensures
        state_inv(
            seq,
            len,
            stackify_insn(seq, f, g, seq.spec_instructions()[k]).0,
            stackify_insn(seq, f, g, seq.spec_instructions()[k]).1,
            k + 1,
            ri2,
        ),
{
    let pcs = seq.spec_instructions();
    let c = pcs[k];
    let q = seq.spec_inputs_of(c).len() as int;
    let (j, lins) = lemma_walk(seq, len, f, g, k, ri, q);
    if stackify_inputs(seq, c, f, seq.spec_inputs_of(c).len()).span is None {
        lemma_step_none(seq, len, f, g, k, ri, j, lins)
    } else {
        lemma_step_some(seq, len, f, g, k, ri, j, lins)
    }
}

/// The invariant holds after processing the first `k` instructions.
proof fn lemma_prefix<T: InsnSequence>(seq: &T, forest: Seq<InsnTreeInfo<usize>>, k: int) -> (ri: Seq<int>)
    requires
        seq_wf(seq, forest.len() as nat),
        fresh_forest(forest),
        succ_links(seq),
        outside_inputs_first(seq),
        0 <= k <= seq.spec_instructions().len(),
    ensures
        state_inv(
            seq,
            forest.len() as int,
            stackify_prefix(seq, forest, Seq::empty(), k as nat).0,
            stackify_prefix(seq, forest, Seq::empty(), k as nat).1,
            k,
            ri,
        ),
    decreases k,
{
    let len = forest.len() as int;
    if k == 0 {
        let ri = Seq::<int>::empty();
        let g = Seq::<Getter<usize>>::empty();
        assert(stackify_prefix(seq, forest, g, 0) == (forest, g));
        assert(inv_frame(seq, len, forest, 0)) by {
            reveal(inv_frame);
        }
        assert(inv_roots(seq, forest, 0, ri)) by {
            reveal(inv_roots);
        }
        assert(inv_parents(seq, forest, 0)) by {
            reveal(inv_parents);
        }
        assert(inv_tree(seq, forest, 0, ri)) by {
            reveal(inv_tree);
        }
        assert(inv_getters(seq, g, 0)) by {
            reveal(inv_getters);
        }
        assert(inv_runs(seq, forest, g, ri)) by {
            reveal(inv_runs);
        }
        ri
    } else {
        let ri = lemma_prefix(seq, forest, k - 1);
        let (f, g) = stackify_prefix(seq, forest, Seq::empty(), (k - 1) as nat);
        assert(stackify_prefix(seq, forest, Seq::empty(), k as nat) == stackify_insn(
            seq,
            f,
            g,
            seq.spec_instructions()[k - 1],
        ));
        lemma_step(seq, len, f, g, k - 1, ri)
    }
}

/// The segments of the roots, run one after the other from the start, push
/// the roots.
proof fn lemma_run_roots<T: InsnSequence>(
    seq: &T,
    len: int,
    f: Seq<InsnTreeInfo<usize>>,
    g: Seq<Getter<usize>>,
    k: int,
    ri: Seq<int>,
    i: int,
)
    requires
        state_inv(seq, len, f, g, k, ri),
        0 <= i <= ri.len(),
    ensures
        run_seg(seq, f, g, 0, seg_start(ri, i), Seq::empty()) is Some,
    decreases i,
{
    if i > 0 {
        lemma_run_roots(seq, len, f, g, k, ri, i - 1);
        let s0 = seg_start(ri, i - 1);
        assert(s0 <= ri[i - 1]) by {
            if i > 1 {
                assert(ri[i - 2] < ri[i - 1]);
            }
        }
        assert(0 <= s0);
        lemma_run_seg_concat(seq, f, g, 0, s0, ri[i - 1] + 1, Seq::empty());
        let pre = run_seg(seq, f, g, 0, s0, Seq::empty()).unwrap();
        assert(run_seg(seq, f, g, s0, ri[i - 1] + 1, Seq::empty()) == Some(seq![seq.spec_instructions()[ri[i - 1]]])) by {
            reveal(inv_runs);
        }
        lemma_run_seg_frame(seq, f, g, s0, ri[i - 1] + 1, pre, Seq::empty());
        assert(pre + Seq::<usize>::empty() =~= pre);
    }
}

// ---------------------------------------------------------------------------
// the law
// ---------------------------------------------------------------------------

/// Stackifying a sequence whose instructions come in increasing pc order,
/// each succeeded by the next and using only values computed before it
/// (inside the sequence or before it starts), from a fresh forest and no
/// getters, yields a stackification that `verify_stackification` accepts:
/// every instruction finds its inputs on top of the operand stack in
/// argument order, and every getter reads a value computed before it.
pub proof fn law_stackify_verifies<T: InsnSequence>(seq: &T, forest: Seq<InsnTreeInfo<usize>>)
    requires
        seq_wf(seq, forest.len() as nat),
        fresh_forest(forest),
        succ_links(seq),
        outside_inputs_first(seq),
    ensures
        stackification_result(
            seq,
            stackify_prefix(seq, forest, Seq::empty(), seq.spec_instructions().len()).0,
            stackify_prefix(seq, forest, Seq::empty(), seq.spec_instructions().len()).1,
        ) == Ok::<(), usize>(()),
{
    let pcs = seq.spec_instructions();
    let n = pcs.len() as int;
    let len = forest.len() as int;
    let ri = lemma_prefix(seq, forest, n);
    let (f, g) = stackify_prefix(seq, forest, Seq::empty(), n as nat);
    lemma_run_roots(seq, len, f, g, n, ri, ri.len() as int);
    assert(seg_start(ri, ri.len() as int) == n) by {
        if ri.len() > 0 {
            assert(ri[ri.len() - 1] == ri.last());
        }
    }
    assert(pcs_increasing(pcs));
    assert(getters_sorted(g)) by {
        reveal(inv_getters);
    }
    assert forall|x: int| 0 <= x < g.len() implies pcs.contains(#[trigger] g[x].pc) by {
        reveal(inv_getters);
        let a = choose|a: int| 0 <= a < n && pcs[a] == g[x].pc;
    }
    lemma_run_prefix_matches(seq, f, g, n as nat);
}

} // verus!
