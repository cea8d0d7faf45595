use oxitortoise::lir::{
    BinaryOpcode, Block, Function, IfElse, InsnKind, InsnSeqId, Reg, RegInfo, SingleValInsn, ValType, Value,
};
use oxitortoise::stackify_generic::StackManipulators;
use oxitortoise::stackify_lir::{factor_common_prefix, stackify_cfg, Val, ValTracker};

fn konst(out: usize, x: u32) -> InsnKind {
    InsnKind::SingleVal { out: Reg(out), insn: SingleValInsn::Const { val: Value::I32(x) } }
}

fn binop(out: usize, op: BinaryOpcode, lhs: usize, rhs: usize) -> InsnKind {
    InsnKind::SingleVal { out: Reg(out), insn: SingleValInsn::BinaryOp { op, lhs: Reg(lhs), rhs: Reg(rhs) } }
}

fn function(num_regs: usize, insn_seqs: Vec<Vec<InsnKind>>) -> Function {
    Function {
        registers: (0..num_regs).map(|_| RegInfo { ty: ValType::I32, name: None }).collect(),
        parameters: vec![],
        return_values: vec![],
        stack_space: 0,
        body: Block { body: InsnSeqId(0) },
        insn_seqs,
        debug_fn_name: None,
        is_entrypoint: false,
    }
}

fn v(reg: usize, nonce: u32) -> Val {
    Val::Reg { reg: Reg(reg), nonce }
}

fn manip(captures: usize, getters: Vec<Val>, inputs: Vec<Val>, outputs: Vec<Val>) -> StackManipulators<Val> {
    StackManipulators { captures, getters, inputs, outputs }
}

#[test]
fn stackify_lir_includes_branches() {
    // a, b, c are set in the main sequence; the branches read them
    let main = vec![
        konst(0, 10),
        konst(1, 20),
        konst(2, 30),
        InsnKind::IfElse(IfElse { condition: Reg(0), then_body: InsnSeqId(1), else_body: InsnSeqId(2) }),
        InsnKind::Break { target: InsnSeqId(0) },
    ];
    let then_ = vec![binop(4, BinaryOpcode::IAdd, 1, 2), InsnKind::Break { target: InsnSeqId(1) }];
    let else_ = vec![binop(5, BinaryOpcode::ISub, 1, 0), InsnKind::Break { target: InsnSeqId(2) }];
    let f = function(6, vec![main, then_, else_]);

    let stk = stackify_cfg(&f);
    assert_eq!(stk.seqs.len(), 3);

    // nothing in the main sequence reads the constants, so each is dropped
    // right after it was pushed
    assert!(stk.seqs[0].inputs.is_empty());
    assert_eq!(
        stk.seqs[0].manips,
        vec![
            manip(0, vec![], vec![], vec![v(0, 0)]),
            manip(1, vec![], vec![], vec![v(1, 0)]),
            manip(1, vec![], vec![], vec![v(2, 0)]),
            manip(1, vec![], vec![], vec![]),
            manip(0, vec![], vec![], vec![]),
            manip(0, vec![], vec![], vec![]),
        ]
    );

    // each branch starts with an empty stack, so it gets its inputs, and
    // drops its unused result before breaking
    assert_eq!(
        stk.seqs[1].manips,
        vec![
            manip(0, vec![v(1, 0), v(2, 0)], vec![v(1, 0), v(2, 0)], vec![v(4, 0)]),
            manip(1, vec![], vec![], vec![]),
            manip(0, vec![], vec![], vec![]),
        ]
    );
    assert_eq!(
        stk.seqs[2].manips,
        vec![
            manip(0, vec![v(1, 0), v(0, 0)], vec![v(1, 0), v(0, 0)], vec![v(5, 0)]),
            manip(1, vec![], vec![], vec![]),
            manip(0, vec![], vec![], vec![]),
        ]
    );
}

#[test]
fn stackify_lir_sum_of_constants() {
    let main = vec![konst(0, 0), konst(1, 1), binop(2, BinaryOpcode::IAdd, 0, 1), InsnKind::Break {
        target: InsnSeqId(0),
    }];
    let stk = stackify_cfg(&function(3, vec![main]));
    assert_eq!(
        stk.seqs[0].manips,
        vec![
            manip(0, vec![], vec![], vec![v(0, 0)]),
            manip(0, vec![], vec![], vec![v(1, 0)]),
            manip(0, vec![], vec![v(0, 0), v(1, 0)], vec![v(2, 0)]),
            manip(1, vec![], vec![], vec![]),
            manip(0, vec![], vec![], vec![]),
        ]
    );
}

#[test]
fn stackify_lir_setting_a_register_again_gives_a_new_value() {
    let mut vals = ValTracker::new();
    assert_eq!(vals.set_reg(Reg(3)), v(3, 0));
    assert_eq!(vals.get_reg(Reg(3)), v(3, 0));
    assert_eq!(vals.set_reg(Reg(3)), v(3, 1));
    assert_eq!(vals.get_reg(Reg(3)), v(3, 1));
    assert_eq!(vals.set_reg(Reg(1)), v(1, 0));
}

#[test]
fn stackify_lir_reassigned_register_is_gotten() {
    // r0 is set twice; the sum reads the second value, which is on top of the
    // stack, and the first value is dropped
    let main = vec![konst(0, 1), konst(0, 2), binop(1, BinaryOpcode::IAdd, 0, 0)];
    let stk = stackify_cfg(&function(2, vec![main]));
    let m = &stk.seqs[0].manips;
    assert_eq!(m[2].inputs, vec![v(0, 1), v(0, 1)]);
    assert_eq!(m[2].outputs, vec![v(1, 0)]);
}

#[test]
fn factor_common_prefix_takes_the_shared_start() {
    let mut seqs = vec![vec![1u32, 2, 3, 4], vec![1, 2, 5], vec![1, 2, 3]];
    let prefix = factor_common_prefix(&mut seqs);
    assert_eq!(prefix, vec![1, 2]);
    assert_eq!(seqs, vec![vec![3, 4], vec![5], vec![3]]);
}

#[test]
fn factor_common_prefix_single_and_empty() {
    let mut one = vec![vec![7u32, 8]];
    assert_eq!(factor_common_prefix(&mut one), vec![7, 8]);
    assert_eq!(one, vec![Vec::<u32>::new()]);

    let mut none: Vec<Vec<u32>> = vec![];
    assert!(factor_common_prefix(&mut none).is_empty());

    let mut disjoint = vec![vec![1u32], vec![2u32]];
    assert!(factor_common_prefix(&mut disjoint).is_empty());
    assert_eq!(disjoint, vec![vec![1], vec![2]]);

    let mut shorter = vec![vec![1u32, 2], vec![1u32]];
    assert_eq!(factor_common_prefix(&mut shorter), vec![1]);
    assert_eq!(shorter, vec![vec![2], vec![]]);
}
