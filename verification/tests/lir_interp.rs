use oxitortoise::lir::{
    BinaryOpcode, Block, Function, InsnKind, InsnSeqId, Loop, Reg, RegInfo, SingleValInsn, ValType, Value,
};
use oxitortoise::lir_interp::{set_reg, start, step, Action};

fn function(num_regs: usize, params: Vec<Reg>, rets: Vec<Reg>, insn_seqs: Vec<Vec<InsnKind>>) -> Function {
    Function {
        registers: (0..num_regs).map(|_| RegInfo { ty: ValType::I32, name: None }).collect(),
        parameters: params,
        return_values: rets,
        stack_space: 0,
        body: Block { body: InsnSeqId(0) },
        insn_seqs,
        debug_fn_name: None,
        is_entrypoint: true,
    }
}

fn konst(out: usize, v: u32) -> InsnKind {
    InsnKind::SingleVal { out: Reg(out), insn: SingleValInsn::Const { val: Value::I32(v) } }
}

fn run(f: &Function, args: Vec<Value>) -> Vec<Value> {
    let mut state = start(f, &args).unwrap();
    for _ in 0..10_000 {
        match step(f, &mut state) {
            Action::Continue => {}
            Action::Return { values } => return values,
            _ => panic!("unexpected action"),
        }
    }
    panic!("did not return");
}

#[test]
fn interpreter_adds_and_breaks_out_of_a_block() {
    let f = function(
        3,
        vec![],
        vec![Reg(2)],
        vec![
            vec![
                konst(0, 2),
                konst(1, 3),
                InsnKind::Block(Block { body: InsnSeqId(1) }),
                InsnKind::SingleVal {
                    out: Reg(1),
                    insn: SingleValInsn::Const { val: Value::I32(100) },
                },
            ],
            vec![
                InsnKind::SingleVal {
                    out: Reg(2),
                    insn: SingleValInsn::BinaryOp { op: BinaryOpcode::IAdd, lhs: Reg(0), rhs: Reg(1) },
                },
                InsnKind::Break { target: InsnSeqId(1) },
                konst(2, 999),
            ],
        ],
    );
    assert!(run(&f, vec![]) == vec![Value::I32(5)]);
}

#[test]
fn interpreter_loops_until_the_condition_fails() {
    // counts r0 up from the argument to 5
    let f = function(
        4,
        vec![Reg(0)],
        vec![Reg(0)],
        vec![
            vec![konst(1, 1), konst(3, 5), InsnKind::Loop(Loop { body: InsnSeqId(1) })],
            vec![
                InsnKind::SingleVal {
                    out: Reg(0),
                    insn: SingleValInsn::BinaryOp { op: BinaryOpcode::IAdd, lhs: Reg(0), rhs: Reg(1) },
                },
                InsnKind::SingleVal {
                    out: Reg(2),
                    insn: SingleValInsn::BinaryOp { op: BinaryOpcode::ULt, lhs: Reg(0), rhs: Reg(3) },
                },
                InsnKind::ConditionalBreak { target: InsnSeqId(1), condition: Reg(2) },
            ],
        ],
    );
    assert!(run(&f, vec![Value::I32(1)]) == vec![Value::I32(5)]);
}

#[test]
fn interpreter_hands_out_memory_loads() {
    let f = function(
        2,
        vec![Reg(0)],
        vec![Reg(1)],
        vec![vec![InsnKind::SingleVal {
            out: Reg(1),
            insn: SingleValInsn::MemLoad { ty: ValType::I32, offset: 8, ptr: Reg(0) },
        }]],
    );
    let mut state = start(&f, &vec![Value::Ptr(0x1000)]).unwrap();
    match step(&f, &mut state) {
        Action::Load { ty, addr, out } => {
            assert!(ty == ValType::I32 && addr == 0x1008 && out == Reg(1));
            set_reg(&mut state, out, Value::I32(42));
        }
        _ => panic!("expected a load"),
    }
    // the end of the body is left, then the function returns
    assert!(matches!(step(&f, &mut state), Action::Continue));
    match step(&f, &mut state) {
        Action::Return { values } => assert!(values == vec![Value::I32(42)]),
        _ => panic!("expected a return"),
    }
}

#[test]
fn interpreter_faults_on_an_unset_register() {
    let f = function(2, vec![], vec![Reg(1)], vec![vec![]]);
    let mut state = start(&f, &vec![]).unwrap();
    assert!(matches!(step(&f, &mut state), Action::Continue));
    assert!(matches!(step(&f, &mut state), Action::Fault));
}
