use oxitortoise::stackify::{
    stackify, verify_stackification, InsnSeqStackification, InsnSequence, InsnTreeInfo, OutputMode,
};

struct Block {
    start: usize,
    inputs: Vec<Vec<usize>>,
}

impl InsnSequence for Block {
    fn shallow_includes(&self, insn: usize) -> bool {
        insn >= self.start && insn < self.start + self.inputs.len()
    }

    fn instructions(&self) -> Vec<usize> {
        (self.start..self.start + self.inputs.len()).collect()
    }

    fn instructions_in_range(&self, start: usize, end: usize) -> Vec<usize> {
        (start..end).collect()
    }

    fn inputs_of(&self, insn: usize) -> Vec<usize> {
        self.inputs[insn - self.start].clone()
    }

    fn succ_of(&self, insn: usize) -> usize {
        insn + 1
    }
}

struct XorShift(u64);

impl XorShift {
    fn next(&mut self, bound: usize) -> usize {
        self.0 ^= self.0 << 13;
        self.0 ^= self.0 >> 7;
        self.0 ^= self.0 << 17;
        (self.0 % bound as u64) as usize
    }
}

#[test]
fn stackify_random_sequences_verify() {
    let mut rng = XorShift(0x2545F4914F6CDD1D);
    for case in 0..50000 {
        let n = 1 + rng.next(7);
        let start = rng.next(3);
        let mut inputs = Vec::new();
        for i in 0..n {
            let mut ins = Vec::new();
            if start + i > 0 {
                let k = rng.next(4);
                for _ in 0..k {
                    ins.push(rng.next(start + i));
                }
            }
            inputs.push(ins);
        }
        let block = Block { start, inputs };
        let mut stk = InsnSeqStackification {
            forest: (0..start + n)
                .map(|i| InsnTreeInfo { output_mode: OutputMode::Available, subtree_start: i })
                .collect(),
            getters: vec![],
        };
        stackify(&block, &mut stk);
        let r = verify_stackification(&block, &stk);
        assert!(r.is_ok(), "case {}: inputs {:?} gave {:?}: {:?} {:?}", case, block.inputs, r, stk.forest, stk.getters);
    }
}
