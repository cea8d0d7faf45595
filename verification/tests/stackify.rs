use oxitortoise::stackify::{
    stackify, verify_stackification, Getter, InsnSeqStackification, InsnSequence, InsnTreeInfo,
    OutputMode,
};

#[derive(Clone, Debug)]
struct TestInsn {
    inputs: Vec<usize>,
}

#[derive(Debug)]
struct TestInsnBlock {
    /// The number at which to start counting instructions in this block.
    start: usize,
    insns: Vec<TestInsn>,
}

impl TestInsnBlock {
    fn new(start: usize, insns: Vec<TestInsn>) -> Self {
        Self { start, insns }
    }
}

impl InsnSequence for TestInsnBlock {
    fn shallow_includes(&self, insn: usize) -> bool {
        insn >= self.start && insn < self.start + self.insns.len()
    }

    fn instructions(&self) -> Vec<usize> {
        (self.start..self.start + self.insns.len()).collect()
    }

    fn instructions_in_range(&self, start: usize, end: usize) -> Vec<usize> {
        assert!(self.shallow_includes(start));
        assert!(self.shallow_includes(end));
        (start..end).collect()
    }

    fn inputs_of(&self, insn: usize) -> Vec<usize> {
        self.insns[insn - self.start].inputs.clone()
    }

    fn succ_of(&self, insn: usize) -> usize {
        insn + 1
    }
}

fn create_stackification(seq: &TestInsnBlock) -> InsnSeqStackification {
    InsnSeqStackification {
        forest: (0..(seq.instructions().len() + seq.start))
            .map(|i| InsnTreeInfo { output_mode: OutputMode::Available, subtree_start: i })
            .collect(),
        getters: vec![],
    }
}

/// Builds the instructions of a test block from the inputs of each
/// instruction.
fn test_insns(inputs: &[&[usize]]) -> Vec<TestInsn> {
    inputs.iter().map(|ins| TestInsn { inputs: ins.to_vec() }).collect()
}

#[test]
fn test_insns_macro() {
    let insns = test_insns(&[
            &[1, 2][..],
            &[3, 4, 5][..],
            &[][..],
        ]);

    assert_eq!(insns.len(), 3);
    assert_eq!(insns[0].inputs, [1, 2]);
    assert_eq!(
        insns[1].inputs,
        [3, 4, 5]
    );
    assert!(insns[2].inputs.is_empty());
}

#[test]
fn stackify_ignore_all() {
    let block = TestInsnBlock::new(
        0,
        test_insns(&[
            &[][..],
            &[][..],
            &[][..],
            &[][..],
        ]),
    );
    let mut stackification = create_stackification(&block);
    stackify(&block, &mut stackification);
    assert_eq!(
        stackification.forest,
        [
            InsnTreeInfo {
                output_mode: OutputMode::Available,
                subtree_start: 0,
            },
            InsnTreeInfo {
                output_mode: OutputMode::Available,
                subtree_start: 1,
            },
            InsnTreeInfo {
                output_mode: OutputMode::Available,
                subtree_start: 2,
            },
            InsnTreeInfo {
                output_mode: OutputMode::Available,
                subtree_start: 3,
            },
        ]
    );
    assert_eq!(stackification.getters, []);
}

#[test]
fn stackify_use_all_in_order() {
    let block = TestInsnBlock::new(
        0,
        test_insns(&[
            &[][..],
            &[][..],
            &[][..],
            &[][..],
            &[0, 1, 2, 3][..],
        ]),
    );
    let mut stackification = create_stackification(&block);
    stackify(&block, &mut stackification);
    assert_eq!(
        stackification.forest,
        [
            InsnTreeInfo {
                output_mode: OutputMode::Release {
                    parent: 4
                },
                subtree_start: 0,
            },
            InsnTreeInfo {
                output_mode: OutputMode::Release {
                    parent: 4
                },
                subtree_start: 1,
            },
            InsnTreeInfo {
                output_mode: OutputMode::Release {
                    parent: 4
                },
                subtree_start: 2,
            },
            InsnTreeInfo {
                output_mode: OutputMode::Release {
                    parent: 4
                },
                subtree_start: 3,
            },
            InsnTreeInfo {
                output_mode: OutputMode::Available,
                subtree_start: 0,
            },
        ]
    );
    assert_eq!(stackification.getters, []);
}

#[test]
fn stackify_use_skipping_in_order() {
    let block = TestInsnBlock::new(
        0,
        test_insns(&[
            &[][..],
            &[][..],
            &[][..],
            &[][..],
            &[1, 3][..],
        ]),
    );
    let mut stackification = create_stackification(&block);
    stackify(&block, &mut stackification);
    assert_eq!(
        stackification.forest,
        [
            InsnTreeInfo {
                output_mode: OutputMode::Available,
                subtree_start: 0,
            },
            InsnTreeInfo {
                output_mode: OutputMode::Release {
                    parent: 4
                },
                subtree_start: 1,
            },
            InsnTreeInfo {
                output_mode: OutputMode::Capture {
                    parent: 4
                },
                subtree_start: 2,
            },
            InsnTreeInfo {
                output_mode: OutputMode::Release {
                    parent: 4
                },
                subtree_start: 3,
            },
            InsnTreeInfo {
                output_mode: OutputMode::Available,
                subtree_start: 1,
            },
        ]
    );
    assert_eq!(stackification.getters, []);
}

#[test]
fn stackify_use_out_of_order() {
    let block = TestInsnBlock::new(
        0,
        test_insns(&[
            &[][..],
            &[][..],
            &[][..],
            &[][..],
            &[1, 3, 2, 0][..],
        ]),
    );
    let mut stackification = create_stackification(&block);
    stackify(&block, &mut stackification);
    assert_eq!(
        stackification.forest,
        [
            InsnTreeInfo {
                output_mode: OutputMode::Available,
                subtree_start: 0,
            },
            InsnTreeInfo {
                output_mode: OutputMode::Release {
                    parent: 4
                },
                subtree_start: 1,
            },
            InsnTreeInfo {
                output_mode: OutputMode::Capture {
                    parent: 4
                },
                subtree_start: 2,
            },
            InsnTreeInfo {
                output_mode: OutputMode::Release {
                    parent: 4
                },
                subtree_start: 3,
            },
            InsnTreeInfo {
                output_mode: OutputMode::Available,
                subtree_start: 1,
            },
        ]
    );
    assert_eq!(
        stackification.getters,
        [
            Getter {
                pc: 4,
                value: 2
            },
            Getter {
                pc: 4,
                value: 0
            }
        ]
    );
}

#[test]
fn stackify_use_repeated() {
    let block = TestInsnBlock::new(
        0,
        test_insns(&[
            &[][..],
            &[][..],
            &[0, 0, 1][..],
        ]),
    );
    let mut stackification = create_stackification(&block);
    stackify(&block, &mut stackification);
    assert_eq!(
        stackification.forest,
        [
            InsnTreeInfo {
                output_mode: OutputMode::Release {
                    parent: 2
                },
                subtree_start: 0,
            },
            InsnTreeInfo {
                output_mode: OutputMode::Release {
                    parent: 2
                },
                subtree_start: 1,
            },
            InsnTreeInfo {
                output_mode: OutputMode::Available,
                subtree_start: 0,
            },
        ]
    );
    assert_eq!(
        stackification.getters,
        [Getter {
            pc: 1,
            value: 0
        }]
    );
}

#[test]
fn stackify_queueing_getters() {
    let block = TestInsnBlock::new(
        0,
        test_insns(&[
            &[][..],
            &[][..],
            &[0, 1][..],
            &[][..],
            &[1, 0, 3][..],
        ]),
    );
    let mut stackification = create_stackification(&block);
    stackify(&block, &mut stackification);
    assert_eq!(
        stackification.forest,
        [
            InsnTreeInfo {
                output_mode: OutputMode::Release {
                    parent: 2
                },
                subtree_start: 0,
            },
            InsnTreeInfo {
                output_mode: OutputMode::Release {
                    parent: 2
                },
                subtree_start: 1,
            },
            InsnTreeInfo {
                output_mode: OutputMode::Available,
                subtree_start: 0,
            },
            InsnTreeInfo {
                output_mode: OutputMode::Release {
                    parent: 4
                },
                subtree_start: 3,
            },
            InsnTreeInfo {
                output_mode: OutputMode::Available,
                subtree_start: 3,
            },
        ]
    );
    assert_eq!(
        stackification.getters,
        [
            Getter {
                pc: 3,
                value: 1
            },
            Getter {
                pc: 3,
                value: 0
            }
        ]
    );
}

#[test]
fn stackify_staircase() {
    let block = TestInsnBlock::new(
        0,
        test_insns(&[
            &[][..],
            &[0][..],
            &[0, 1][..],
            &[0, 1, 1, 2][..],
        ]),
    );
    let mut stackification = create_stackification(&block);
    stackify(&block, &mut stackification);
    assert_eq!(
        stackification.forest,
        [
            InsnTreeInfo {
                output_mode: OutputMode::Release {
                    parent: 1
                },
                subtree_start: 0,
            },
            InsnTreeInfo {
                output_mode: OutputMode::Available,
                subtree_start: 0,
            },
            InsnTreeInfo {
                output_mode: OutputMode::Release {
                    parent: 3
                },
                subtree_start: 2,
            },
            InsnTreeInfo {
                output_mode: OutputMode::Available,
                subtree_start: 2,
            },
        ]
    );
    assert_eq!(
        stackification.getters,
        [
            Getter {
                pc: 2,
                value: 0
            },
            Getter {
                pc: 2,
                value: 1
            },
            Getter {
                pc: 2,
                value: 1
            },
            Getter {
                pc: 2,
                value: 0
            },
            Getter {
                pc: 2,
                value: 1
            },
        ]
    );
}

#[test]
fn stackify_nested_operators() {
    let block = TestInsnBlock::new(
        0,
        test_insns(&[
            &[][..],
            &[][..],
            &[0, 1][..],
            &[1][..],
            &[][..],
            &[4][..],
            &[2, 5][..],
            &[0, 6][..],
        ]),
    );
    let mut stackification = create_stackification(&block);
    stackify(&block, &mut stackification);
    assert_eq!(
        stackification.forest,
        [
            InsnTreeInfo {
                output_mode: OutputMode::Release {
                    parent: 2
                },
                subtree_start: 0,
            },
            InsnTreeInfo {
                output_mode: OutputMode::Release {
                    parent: 2
                },
                subtree_start: 1,
            },
            InsnTreeInfo {
                output_mode: OutputMode::Release {
                    parent: 6
                },
                subtree_start: 0,
            },
            InsnTreeInfo {
                output_mode: OutputMode::Capture {
                    parent: 6
                },
                subtree_start: 3,
            },
            InsnTreeInfo {
                output_mode: OutputMode::Release {
                    parent: 5
                },
                subtree_start: 4,
            },
            InsnTreeInfo {
                output_mode: OutputMode::Release {
                    parent: 6
                },
                subtree_start: 4,
            },
            InsnTreeInfo {
                output_mode: OutputMode::Available,
                subtree_start: 0,
            },
            InsnTreeInfo {
                output_mode: OutputMode::Available,
                subtree_start: 7,
            },
        ]
    );
    assert_eq!(
        stackification.getters,
        [
            Getter {
                pc: 3,
                value: 1
            },
            Getter {
                pc: 7,
                value: 0
            },
            Getter {
                pc: 7,
                value: 6
            }
        ]
    );
}

#[test]
fn stackify_external_instructions() {
    let block = TestInsnBlock::new(
        10,
        test_insns(&[
            &[9][..],
            &[10][..],
            &[11, 10][..],
        ]),
    );
    let mut stackification = create_stackification(&block);
    stackify(&block, &mut stackification);
    assert_eq!(
        stackification.forest[10..],
        [
            InsnTreeInfo {
                output_mode: OutputMode::Release {
                    parent: 11
                },
                subtree_start: 10,
            },
            InsnTreeInfo {
                output_mode: OutputMode::Release {
                    parent: 12
                },
                subtree_start: 10,
            },
            InsnTreeInfo {
                output_mode: OutputMode::Available,
                subtree_start: 10,
            },
        ]
    );
    assert_eq!(
        stackification.getters,
        [
            Getter {
                pc: 10,
                value: 9
            },
            Getter {
                pc: 12,
                value: 10
            }
        ]
    );
}

#[test]
fn stackify_conflicting_getter_locations() {
    let block = TestInsnBlock::new(
        10,
        test_insns(&[
            &[][..],
            &[][..],
            &[10, 11][..],
            &[10][..],
            &[12, 11, 13][..],
        ]),
    );
    let mut stackification = create_stackification(&block);
    stackify(&block, &mut stackification);
    assert_eq!(
        stackification.forest[10..],
        [
            InsnTreeInfo {
                output_mode: OutputMode::Release {
                    parent: 12
                },
                subtree_start: 10,
            },
            InsnTreeInfo {
                output_mode: OutputMode::Release {
                    parent: 12
                },
                subtree_start: 11,
            },
            InsnTreeInfo {
                output_mode: OutputMode::Release {
                    parent: 14
                },
                subtree_start: 10,
            },
            InsnTreeInfo {
                output_mode: OutputMode::Release {
                    parent: 14
                },
                subtree_start: 13,
            },
            InsnTreeInfo {
                output_mode: OutputMode::Available,
                subtree_start: 10,
            },
        ]
    );
    assert_eq!(
        stackification.getters,
        [
            Getter {
                pc: 13,
                value: 11
            },
            Getter {
                pc: 13,
                value: 10
            }
        ],
    );
}

#[test]
fn stackify_getter_before_calculation_after_release() {
    let block = TestInsnBlock::new(
        0,
        test_insns(&[
            &[][..],
            &[][..],
            &[][..],
            &[1, 2][..],
            &[3][..],
            &[0, 3][..],
        ]),
    );

    let mut stackification = create_stackification(&block);
    stackify(&block, &mut stackification);
    assert_eq!(
        stackification.forest,
        [
            InsnTreeInfo {
                output_mode: OutputMode::Release {
                    parent: 5
                },
                subtree_start: 0,
            },
            InsnTreeInfo {
                output_mode: OutputMode::Release {
                    parent: 3
                },
                subtree_start: 1,
            },
            InsnTreeInfo {
                output_mode: OutputMode::Release {
                    parent: 3
                },
                subtree_start: 2,
            },
            InsnTreeInfo {
                output_mode: OutputMode::Release {
                    parent: 4
                },
                subtree_start: 1,
            },
            InsnTreeInfo {
                output_mode: OutputMode::Capture {
                    parent: 5
                },
                subtree_start: 1,
            },
            InsnTreeInfo {
                output_mode: OutputMode::Available,
                subtree_start: 0,
            },
        ]
    );
    assert_eq!(
        stackification.getters,
        [Getter {
            pc: 5,
            value: 3
        }]
    );
}

#[test]
fn stackify_getter_before_calculation_before_release() {
    let block = TestInsnBlock::new(
        0,
        test_insns(&[
            &[][..],
            &[][..],
            &[][..],
            &[1, 2][..],
            &[3][..],
            &[3, 0][..],
        ]),
    );

    let mut stackification = create_stackification(&block);
    stackify(&block, &mut stackification);
    assert_eq!(
        stackification.forest,
        [
            InsnTreeInfo {
                output_mode: OutputMode::Available,
                subtree_start: 0,
            },
            InsnTreeInfo {
                output_mode: OutputMode::Release {
                    parent: 3
                },
                subtree_start: 1,
            },
            InsnTreeInfo {
                output_mode: OutputMode::Release {
                    parent: 3
                },
                subtree_start: 2,
            },
            InsnTreeInfo {
                output_mode: OutputMode::Release {
                    parent: 4
                },
                subtree_start: 1,
            },
            InsnTreeInfo {
                output_mode: OutputMode::Available,
                subtree_start: 1,
            },
            InsnTreeInfo {
                output_mode: OutputMode::Available,
                subtree_start: 5,
            },
        ]
    );
    assert_eq!(
        stackification.getters,
        [
            Getter {
                pc: 5,
                value: 3
            },
            Getter {
                pc: 5,
                value: 0
            }
        ]
    );
}


/// A block whose instructions are listed explicitly, so that some pcs can
/// lie inside compound instructions of the block.
struct ListedBlock {
    pcs: Vec<usize>,
    inputs: Vec<Vec<usize>>,
}

impl InsnSequence for ListedBlock {
    fn shallow_includes(&self, insn: usize) -> bool {
        self.pcs.contains(&insn)
    }

    fn instructions(&self) -> Vec<usize> {
        self.pcs.clone()
    }

    fn instructions_in_range(&self, start: usize, end: usize) -> Vec<usize> {
        self.pcs.iter().copied().filter(|&pc| start <= pc && pc < end).collect()
    }

    fn inputs_of(&self, insn: usize) -> Vec<usize> {
        let pos = self.pcs.iter().position(|&pc| pc == insn).unwrap();
        self.inputs[pos].clone()
    }

    fn succ_of(&self, insn: usize) -> usize {
        insn + 1
    }
}

#[test]
fn stackify_value_from_inside_compound_instruction_is_rejected() {
    // pc 2 lies inside the compound instruction 1; instruction 4 uses it
    let seq = ListedBlock { pcs: vec![0, 1, 3, 4], inputs: vec![vec![], vec![], vec![1], vec![0, 2, 3]] };
    let mut stk = InsnSeqStackification {
        forest: (0..5).map(|i| InsnTreeInfo { output_mode: OutputMode::Available, subtree_start: i }).collect(),
        getters: vec![],
    };
    stackify(&seq, &mut stk);
    assert_eq!(stk.getters, vec![Getter { pc: 3, value: 2 }, Getter { pc: 3, value: 3 }]);
    assert_eq!(verify_stackification(&seq, &stk), Err(3));
}

#[test]
fn stackify_listed_block_without_gaps_verifies() {
    let seq = ListedBlock { pcs: vec![0, 1, 2, 3], inputs: vec![vec![], vec![0], vec![], vec![1, 2]] };
    let mut stk = InsnSeqStackification {
        forest: (0..4).map(|i| InsnTreeInfo { output_mode: OutputMode::Available, subtree_start: i }).collect(),
        getters: vec![],
    };
    stackify(&seq, &mut stk);
    assert_eq!(verify_stackification(&seq, &stk), Ok(()));
}
