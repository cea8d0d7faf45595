use std::collections::HashMap;

use oxitortoise::stackify_generic::{
    remove_excess_operands, stackify_single, AvailOperand, InsnSeqStackification, StackManipulators,
};

type Idx = usize;
type V = &'static str;

fn op(value: V, start: Idx, end: Idx, ends_multivalue: bool) -> AvailOperand<V> {
    AvailOperand { value, releases_at: end, subtree_start: start, ends_multivalue }
}

/// Builds a stackification from `(captures, getters, inputs, outputs)` rows.
fn stackification(rows: &[(usize, &[V], &[V], &[V])]) -> InsnSeqStackification<V> {
    InsnSeqStackification {
        inputs: vec![],
        manips: rows
            .iter()
            .map(|(captures, getters, inputs, outputs)| StackManipulators {
                captures: *captures,
                getters: getters.to_vec(),
                inputs: inputs.to_vec(),
                outputs: outputs.to_vec(),
            })
            .collect(),
    }
}

fn test_skeleton(external: &[V], insns: &[(&[V], &[V])]) -> InsnSeqStackification<V> {
    // each sequence starts with fresh operand stack and manipulators
    let mut op_stack = Vec::new();
    let mut getters: HashMap<V, Idx> = HashMap::from_iter(external.iter().map(|&v| (v, 0)));
    let mut stk = InsnSeqStackification {
        inputs: vec![],
        manips: vec![
            StackManipulators { captures: 0, getters: vec![], inputs: vec![], outputs: vec![] };
            insns.len() + 1
        ],
    };

    for (i, (inputs, outputs)) in insns.iter().enumerate() {
        stackify_single(
            &mut op_stack,
            &mut getters,
            &mut stk.manips,
            i,
            inputs.to_vec(),
            outputs.to_vec(),
        );
    }
    remove_excess_operands(
        op_stack.drain(..).map(|o| (o, false)).collect(),
        &mut stk.manips,
        insns.len(),
    );

    stk
}

#[test]
fn no_op() {
    let mut op_stack = vec![op("a", 0, 0, true), op("b", 0, 1, true)];
    let mut getters = HashMap::from([("a", 0), ("b", 1)]);
    let mut stk = stackification(&[
            (0, &[][..], &[][..], &[][..]),
            (0, &[][..], &[][..], &[][..]),
            (0, &[][..], &[][..], &[][..]),
        ]);

    stackify_single(
        &mut op_stack,
        &mut getters,
        &mut stk.manips,
        2,
        vec![],
        vec![],
    );
    assert_eq!(
        op_stack,
        vec![op("a", 0, 0, true), op("b", 0, 1, true)]
    );
    assert_eq!(getters, HashMap::from([("a", 0), ("b", 1)]));
    assert_eq!(
        stk,
        stackification(&[
            (0, &[][..], &[][..], &[][..]),
            (0, &[][..], &[][..], &[][..]),
            (0, &[][..], &[][..], &[][..]),
        ])
    );
}

#[test]
fn three_args_one_output() {
    let mut op_stack = vec![
        op("a", 0, 0, true),
        op("b", 0, 1, true),
        op("c", 1, 2, true),
    ];
    let mut getters = HashMap::from([("a", 0), ("b", 1), ("c", 2)]);
    let mut stk = stackification(&[
            (0, &[][..], &[][..], &[][..]),
            (0, &[][..], &[][..], &[][..]),
            (0, &[][..], &[][..], &[][..]),
        ]);

    stackify_single(
        &mut op_stack,
        &mut getters,
        &mut stk.manips,
        2,
        vec!["a", "b", "c"],
        vec!["x"],
    );

    assert_eq!(op_stack, vec![op("x", 0, 3, true)]);
    assert_eq!(getters, HashMap::from([("a", 0), ("b", 1), ("c", 2), ("x", 3)]));
    assert_eq!(
        stk,
        stackification(&[
            (0, &[][..], &[][..], &[][..]),
            (0, &[][..], &[][..], &[][..]),
            (0, &[][..], &["a", "b", "c"][..], &["x"][..]),
        ])
    );
}

#[test]
fn args_out_of_order() {
    let mut op_stack = vec![
        op("a", 0, 0, true),
        op("b", 0, 1, true),
        op("c", 1, 2, true),
        op("d", 2, 3, true),
    ];
    let mut getters = HashMap::from([("a", 0), ("b", 1), ("c", 2), ("d", 3)]);
    let mut stk = stackification(&[
            (0, &[][..], &[][..], &[][..]),
            (0, &[][..], &[][..], &[][..]),
            (0, &[][..], &[][..], &[][..]),
            (0, &[][..], &[][..], &[][..]),
        ]);

    stackify_single(
        &mut op_stack,
        &mut getters,
        &mut stk.manips,
        3,
        vec!["c", "b", "d"],
        vec!["x"],
    );

    assert_eq!(
        op_stack,
        vec![
            op("a", 0, 0, true),
            op("b", 0, 1, true),
            op("x", 1, 4, true),
        ]
    );
    assert_eq!(getters, HashMap::from([("a", 0), ("b", 1), ("c", 2), ("d", 3), ("x", 4)]));
    assert_eq!(
        stk,
        stackification(&[
            (0, &[][..], &[][..], &[][..]),
            (0, &[][..], &[][..], &[][..]),
            (0, &["b"][..], &[][..], &[][..]),
            (0, &[][..], &["c", "b", "d"][..], &["x"][..]),
        ])
    );
}

#[test]
fn stackify_args_with_captures() {
    let mut op_stack = vec![
        op("a", 0, 0, true),
        op("b", 0, 1, true),
        op("c", 1, 2, true),
        op("d", 2, 3, true),
    ];
    let mut getters = HashMap::from([("a", 0), ("b", 1), ("c", 2), ("d", 3)]);
    let mut stk = stackification(&[
            (0, &[][..], &[][..], &[][..]),
            (0, &[][..], &[][..], &[][..]),
            (0, &[][..], &[][..], &[][..]),
            (0, &[][..], &[][..], &[][..]),
        ]);

    stackify_single(
        &mut op_stack,
        &mut getters,
        &mut stk.manips,
        3,
        vec!["b", "d"],
        vec!["x"],
    );

    assert_eq!(
        op_stack,
        vec![op("a", 0, 0, true), op("x", 0, 4, true),]
    );
    assert_eq!(getters, HashMap::from([("a", 0), ("b", 1), ("c", 2), ("d", 3), ("x", 4)]));
    assert_eq!(
        stk,
        stackification(&[
            (0, &[][..], &[][..], &[][..]),
            (0, &[][..], &[][..], &[][..]),
            (1, &[][..], &[][..], &[][..]),
            (0, &[][..], &["b", "d"][..], &["x"][..]),
        ])
    );
}

#[test]
fn multivalue_output() {
    let mut op_stack = vec![
        op("a", 0, 0, true),
        op("b", 0, 1, true),
        op("c", 1, 2, true),
        op("d", 2, 3, true),
    ];
    let mut getters = HashMap::from([("a", 0), ("b", 1), ("c", 2), ("d", 3)]);
    let mut stk = stackification(&[
            (0, &[][..], &[][..], &[][..]),
            (0, &[][..], &[][..], &[][..]),
            (0, &[][..], &[][..], &[][..]),
            (0, &[][..], &[][..], &[][..]),
        ]);

    stackify_single(
        &mut op_stack,
        &mut getters,
        &mut stk.manips,
        3,
        vec!["c"],
        vec!["x", "y", "z"],
    );

    assert_eq!(
        op_stack,
        vec![
            op("a", 0, 0, true),
            op("b", 0, 1, true),
            op("x", 1, 4, false),
            op("y", 1, 4, false),
            op("z", 1, 4, true),
        ]
    );
    assert_eq!(
        getters,
        HashMap::from([("a", 0), ("b", 1), ("c", 2), ("d", 3), ("x", 4), ("y", 4), ("z", 4)])
    );
    assert_eq!(
        stk,
        stackification(&[
            (0, &[][..], &[][..], &[][..]),
            (0, &[][..], &[][..], &[][..]),
            (0, &[][..], &[][..], &[][..]),
            (1, &[][..], &["c"][..], &["x", "y", "z"][..]),
        ])
    );
}

#[test]
fn multivalue_input_whole() {
    let mut op_stack = vec![
        op("a", 0, 0, true),
        op("b", 0, 1, true),
        op("c", 1, 2, false),
        op("d", 1, 2, false),
        op("e", 1, 2, true),
        op("f", 2, 3, true),
    ];
    let mut getters =
        HashMap::from([("a", 0), ("b", 1), ("c", 2), ("d", 2), ("e", 2), ("f", 3)]);
    let mut stk = stackification(&[
            (0, &[][..], &[][..], &[][..]),
            (0, &[][..], &[][..], &[][..]),
            (0, &[][..], &[][..], &[][..]),
            (0, &[][..], &[][..], &[][..]),
        ]);

    stackify_single(
        &mut op_stack,
        &mut getters,
        &mut stk.manips,
        3,
        vec!["c", "d", "e", "f"],
        vec!["x"],
    );

    assert_eq!(
        op_stack,
        vec![
            op("a", 0, 0, true),
            op("b", 0, 1, true),
            op("x", 1, 4, true)
        ]
    );
    assert_eq!(
        getters,
        HashMap::from([("a", 0), ("b", 1), ("c", 2), ("d", 2), ("e", 2), ("f", 3), ("x", 4)])
    );
    assert_eq!(
        stk,
        stackification(&[
            (0, &[][..], &[][..], &[][..]),
            (0, &[][..], &[][..], &[][..]),
            (0, &[][..], &[][..], &[][..]),
            (0, &[][..], &["c", "d", "e", "f"][..], &["x"][..]),
        ])
    );
}

#[test]
fn multivalue_input_prefix() {
    let mut op_stack = vec![
        op("a", 0, 0, true),
        op("b", 0, 1, false),
        op("c", 0, 1, false),
        op("d", 0, 1, true),
    ];
    let mut getters = HashMap::from([("a", 0), ("b", 1), ("c", 1), ("d", 1)]);
    let mut stk = stackification(&[
            (0, &[][..], &[][..], &[][..]),
            (0, &[][..], &[][..], &[][..]),
        ]);

    stackify_single(
        &mut op_stack,
        &mut getters,
        &mut stk.manips,
        1,
        vec!["b", "c"],
        vec!["x"],
    );

    assert_eq!(
        op_stack,
        vec![op("a", 0, 0, true), op("x", 0, 2, true)]
    );
    assert_eq!(getters, HashMap::from([("a", 0), ("b", 1), ("c", 1), ("d", 1), ("x", 2)]));
    assert_eq!(
        stk,
        stackification(&[
            (0, &[][..], &[][..], &[][..]),
            (1, &[][..], &["b", "c"][..], &["x"][..]),
        ])
    );
}

#[test]
fn multivalue_input_suffix() {
    let mut op_stack = vec![
        op("a", 0, 0, true),
        op("b", 0, 1, false),
        op("c", 0, 1, false),
        op("d", 0, 1, true),
        op("e", 1, 2, true),
    ];
    let mut getters = HashMap::from([("a", 0), ("b", 1), ("c", 1), ("d", 1), ("e", 2)]);
    let mut stk = stackification(&[
            (0, &[][..], &[][..], &[][..]),
            (0, &[][..], &[][..], &[][..]),
            (0, &[][..], &[][..], &[][..]),
        ]);

    stackify_single(
        &mut op_stack,
        &mut getters,
        &mut stk.manips,
        2,
        vec!["c", "d", "e"],
        vec!["x"],
    );

    assert_eq!(
        op_stack,
        vec![
            op("a", 0, 0, true),
            op("b", 0, 1, false),
            op("x", 0, 3, true)
        ]
    );
    assert_eq!(
        getters,
        HashMap::from([("a", 0), ("b", 1), ("c", 1), ("d", 1), ("e", 2), ("x", 3)])
    );
    assert_eq!(
        stk,
        stackification(&[
            (0, &[][..], &[][..], &[][..]),
            (0, &[][..], &[][..], &[][..]),
            (0, &[][..], &["c", "d", "e"][..], &["x"][..]),
        ])
    );
}

#[test]
fn multivalue_input_interleaved() {
    let mut op_stack = vec![
        op("a", 0, 0, true),
        op("b", 0, 1, true),
        op("c", 1, 2, true),
        op("d", 2, 3, false),
        op("e", 2, 3, false),
        op("f", 2, 3, false),
        op("g", 2, 3, true),
        op("h", 3, 4, true),
        op("i", 4, 5, true),
    ];
    let mut getters = HashMap::from([
        ("a", 0),
        ("b", 1),
        ("c", 2),
        ("d", 3),
        ("e", 3),
        ("f", 3),
        ("g", 3),
        ("h", 4),
        ("i", 5),
    ]);
    let mut stk = stackification(&[
            (0, &[][..], &[][..], &[][..]),
            (0, &[][..], &[][..], &[][..]),
            (0, &[][..], &[][..], &[][..]),
            (0, &[][..], &[][..], &[][..]),
            (0, &[][..], &[][..], &[][..]),
            (0, &[][..], &[][..], &[][..]),
        ]);

    stackify_single(
        &mut op_stack,
        &mut getters,
        &mut stk.manips,
        5,
        vec!["b", "e", "g", "i"],
        vec!["x"],
    );

    assert_eq!(
        op_stack,
        vec![op("a", 0, 0, true), op("x", 0, 6, true),]
    );
    assert_eq!(
        stk,
        stackification(&[
            (0, &[][..], &[][..], &[][..]),
            (0, &[][..], &[][..], &[][..]),
            (1, &[][..], &[][..], &[][..]),
            (4, &["e", "g"][..], &[][..], &[][..]),
            (1, &[][..], &[][..], &[][..]),
            (0, &[][..], &["b", "e", "g", "i"][..], &["x"][..]),
        ])
    );
}

#[test]
fn multivalue_input_partial_interleaved() {
    let mut op_stack = vec![
        op("a", 0, 0, true),
        op("b", 0, 1, true),
        op("c", 1, 2, true),
        op("d", 2, 3, false),
        op("e", 2, 3, false),
        op("f", 2, 3, false),
        op("g", 2, 3, true),
        op("h", 3, 4, true),
        op("i", 4, 5, true),
    ];
    let mut getters = HashMap::from([
        ("a", 0),
        ("b", 1),
        ("c", 2),
        ("d", 3),
        ("e", 3),
        ("f", 3),
        ("g", 3),
        ("h", 4),
        ("i", 5),
    ]);
    let mut stk = stackification(&[
            (0, &[][..], &[][..], &[][..]),
            (0, &[][..], &[][..], &[][..]),
            (0, &[][..], &[][..], &[][..]),
            (0, &[][..], &[][..], &[][..]),
            (0, &[][..], &[][..], &[][..]),
            (0, &[][..], &[][..], &[][..]),
        ]);

    stackify_single(
        &mut op_stack,
        &mut getters,
        &mut stk.manips,
        5,
        vec!["e", "g", "i"],
        vec!["x"],
    );

    assert_eq!(
        op_stack,
        vec![
            op("a", 0, 0, true),
            op("b", 0, 1, true),
            op("c", 1, 2, true),
            op("d", 2, 3, false),
            op("x", 2, 6, true),
        ]
    );
    assert_eq!(
        stk,
        stackification(&[
            (0, &[][..], &[][..], &[][..]),
            (0, &[][..], &[][..], &[][..]),
            (0, &[][..], &[][..], &[][..]),
            (2, &["g"][..], &[][..], &[][..]),
            (1, &[][..], &[][..], &[][..]),
            (0, &[][..], &["e", "g", "i"][..], &["x"][..]),
        ])
    );
}

#[test]
fn multivalue_frankenstein_input() {
    let mut op_stack = vec![
        op("a", 0, 0, true),
        op("b", 0, 1, true),
        op("c", 1, 2, true),
        op("d", 2, 3, false),
        op("x", 2, 6, false),
        op("y", 2, 6, false),
        op("z", 2, 6, true),
    ];
    let mut getters =
        HashMap::from([("a", 0), ("b", 1), ("c", 2), ("d", 3), ("x", 4), ("y", 4), ("z", 5)]);
    let mut stk = stackification(&[
            (0, &[][..], &[][..], &[][..]),
            (0, &[][..], &[][..], &[][..]),
            (0, &[][..], &[][..], &[][..]),
            (0, &[][..], &[][..], &[][..]),
            (0, &[][..], &[][..], &[][..]),
            (0, &[][..], &[][..], &[][..]),
            (0, &[][..], &[][..], &[][..]),
        ]);

    stackify_single(
        &mut op_stack,
        &mut getters,
        &mut stk.manips,
        6,
        vec!["y", "d"],
        vec!["w"],
    );

    assert_eq!(
        op_stack,
        vec![
            op("a", 0, 0, true),
            op("b", 0, 1, true),
            op("c", 1, 2, true),
            op("d", 2, 3, false),
            op("x", 2, 6, false),
            op("w", 2, 7, true),
        ]
    );
    assert_eq!(
        getters,
        HashMap::from([
            ("a", 0),
            ("b", 1),
            ("c", 2),
            ("d", 3),
            ("x", 4),
            ("y", 4),
            ("z", 5),
            ("w", 7),
        ])
    );
    assert_eq!(
        stk,
        stackification(&[
            (0, &[][..], &[][..], &[][..]),
            (0, &[][..], &[][..], &[][..]),
            (0, &[][..], &[][..], &[][..]),
            (0, &[][..], &[][..], &[][..]),
            (0, &[][..], &[][..], &[][..]),
            (0, &[][..], &[][..], &[][..]),
            (1, &["d"][..], &["y", "d"][..], &["w"][..]),
        ])
    );
}

#[test]
fn repeated_inputs() {
    let mut op_stack = vec![
        op("a", 0, 0, true),
        op("b", 0, 1, true),
        op("c", 1, 2, true),
    ];
    let mut getters = HashMap::from([("a", 0), ("b", 1), ("c", 2)]);
    let mut stk = stackification(&[
            (0, &[][..], &[][..], &[][..]),
            (0, &[][..], &[][..], &[][..]),
            (0, &[][..], &[][..], &[][..]),
        ]);

    stackify_single(
        &mut op_stack,
        &mut getters,
        &mut stk.manips,
        2,
        vec!["b", "b"],
        vec!["x"],
    );

    assert_eq!(
        op_stack,
        vec![op("a", 0, 0, true), op("x", 0, 3, true)]
    );
    assert_eq!(getters, HashMap::from([("a", 0), ("b", 1), ("c", 2), ("x", 3)]));
    assert_eq!(
        stk,
        stackification(&[
            (0, &[][..], &[][..], &[][..]),
            (0, &["b"][..], &[][..], &[][..]),
            (1, &[][..], &["b", "b"][..], &["x"][..]),
        ])
    );
}

#[test]
fn repeated_inputs_with_in_between() {
    let mut op_stack = vec![
        op("a", 0, 0, true),
        op("b", 0, 1, true),
        op("c", 1, 2, true),
    ];
    let mut getters = HashMap::from([("a", 0), ("b", 1), ("c", 2)]);
    let mut stk = stackification(&[
            (0, &[][..], &[][..], &[][..]),
            (0, &[][..], &[][..], &[][..]),
            (0, &[][..], &[][..], &[][..]),
        ]);

    stackify_single(
        &mut op_stack,
        &mut getters,
        &mut stk.manips,
        2,
        vec!["b", "a", "b"],
        vec!["x"],
    );
    assert_eq!(
        op_stack,
        vec![op("a", 0, 0, true), op("x", 0, 3, true)]
    );
    assert_eq!(getters, HashMap::from([("a", 0), ("b", 1), ("c", 2), ("x", 3)]));
    assert_eq!(
        stk,
        stackification(&[
            (0, &[][..], &[][..], &[][..]),
            (0, &["a", "b"][..], &[][..], &[][..]),
            (1, &[][..], &["b", "a", "b"][..], &["x"][..]),
        ])
    );
}

#[test]
fn stackify_generic_ignore_all() {
    let stk = test_skeleton(
        &[],
        &[
            (&[][..], &["a"][..]),
            (&[][..], &["b"][..]),
            (&[][..], &["c"][..]),
            (&[][..], &["d"][..]),
        ],
    );
    assert_eq!(
        stk,
        stackification(&[
            (0, &[][..], &[][..], &["a"][..]),
            (1, &[][..], &[][..], &["b"][..]),
            (1, &[][..], &[][..], &["c"][..]),
            (1, &[][..], &[][..], &["d"][..]),
            (1, &[][..], &[][..], &[][..]),
        ])
    );
}

#[test]
fn stackify_generic_use_all_in_order() {
    let stk = test_skeleton(
        &[],
        &[
            (&[][..], &["a"][..]),
            (&[][..], &["b"][..]),
            (&[][..], &["c"][..]),
            (&[][..], &["d"][..]),
            (&["a", "b", "c", "d"][..], &["e"][..]),
        ],
    );
    assert_eq!(
        stk,
        stackification(&[
            (0, &[][..], &[][..], &["a"][..]),
            (0, &[][..], &[][..], &["b"][..]),
            (0, &[][..], &[][..], &["c"][..]),
            (0, &[][..], &[][..], &["d"][..]),
            (0, &[][..], &["a", "b", "c", "d"][..], &["e"][..]),
            (1, &[][..], &[][..], &[][..]),
        ])
    );
}

#[test]
fn stackify_generic_use_skipping_in_order() {
    let stk = test_skeleton(
        &[],
        &[
            (&[][..], &["a"][..]),
            (&[][..], &["b"][..]),
            (&[][..], &["c"][..]),
            (&[][..], &["d"][..]),
            (&["b", "d"][..], &["e"][..]),
        ],
    );
    assert_eq!(
        stk,
        stackification(&[
            (0, &[][..], &[][..], &["a"][..]),
            (1, &[][..], &[][..], &["b"][..]),
            (0, &[][..], &[][..], &["c"][..]),
            (1, &[][..], &[][..], &["d"][..]),
            (0, &[][..], &["b", "d"][..], &["e"][..]),
            (1, &[][..], &[][..], &[][..]),
        ])
    );
}

#[test]
fn stackify_generic_use_out_of_order() {
    let stk = test_skeleton(
        &[],
        &[
            (&[][..], &["a"][..]),
            (&[][..], &["b"][..]),
            (&[][..], &["c"][..]),
            (&[][..], &["d"][..]),
            (&["b", "d", "c", "a"][..], &["e"][..]),
        ],
    );
    assert_eq!(
        stk,
        stackification(&[
            (0, &[][..], &[][..], &["a"][..]),
            (1, &[][..], &[][..], &["b"][..]),
            (0, &[][..], &[][..], &["c"][..]),
            (1, &[][..], &[][..], &["d"][..]),
            (0, &["c", "a"][..], &["b", "d", "c", "a"][..], &["e"][..]),
            (1, &[][..], &[][..], &[][..]),
        ])
    );
}

#[test]
fn stackify_generic_use_repeated() {
    let stk = test_skeleton(
        &[],
        &[
            (&[][..], &["a"][..]),
            (&[][..], &["b"][..]),
            (&["a", "a", "b"][..], &["c"][..]),
        ],
    );
    assert_eq!(
        stk,
        stackification(&[
            (0, &[][..], &[][..], &["a"][..]),
            (0, &["a"][..], &[][..], &["b"][..]),
            (0, &[][..], &["a", "a", "b"][..], &["c"][..]),
            (1, &[][..], &[][..], &[][..]),
        ])
    );
}

#[test]
fn stackify_generic_queueing_getters() {
    let stk = test_skeleton(
        &[],
        &[
            (&[][..], &["a"][..]),
            (&[][..], &["b"][..]),
            (&["a", "b"][..], &["c"][..]),
            (&[][..], &["d"][..]),
            (&["b", "a", "d"][..], &["e"][..]),
        ],
    );
    assert_eq!(
        stk,
        stackification(&[
            (0, &[][..], &[][..], &["a"][..]),
            (0, &[][..], &[][..], &["b"][..]),
            (0, &[][..], &["a", "b"][..], &["c"][..]),
            (1, &["b", "a"][..], &[][..], &["d"][..]),
            (0, &[][..], &["b", "a", "d"][..], &["e"][..]),
            (1, &[][..], &[][..], &[][..]),
        ])
    );
}

#[test]
fn stackify_generic_staircase() {
    let stk = test_skeleton(
        &[],
        &[
            (&[][..], &["a"][..]),
            (&["a"][..], &["b"][..]),
            (&["a", "b"][..], &["c"][..]),
            (&["a", "b", "b", "c"][..], &["d"][..]),
        ],
    );
    assert_eq!(
        stk,
        stackification(&[
            (0, &[][..], &[][..], &["a"][..]),
            (0, &[][..], &["a"][..], &["b"][..]),
            (1, &["a", "b", "b", "a", "b"][..], &["a", "b"][..], &["c"][..]),
            (0, &[][..], &["a", "b", "b", "c"][..], &["d"][..]),
            (1, &[][..], &[][..], &[][..]),
        ])
    );
}

#[test]
fn stackify_generic_nested_operators() {
    let stk = test_skeleton(
        &[],
        &[
            (&[][..], &["a"][..]),
            (&[][..], &["b"][..]),
            (&["a", "b"][..], &["c"][..]),
            (&["b"][..], &["d"][..]),
            (&[][..], &["e"][..]),
            (&["e"][..], &["f"][..]),
            (&["c", "f"][..], &["g"][..]),
            (&["a", "g"][..], &["h"][..]),
        ],
    );
    assert_eq!(
        stk,
        stackification(&[
            (0, &[][..], &[][..], &["a"][..]),
            (0, &[][..], &[][..], &["b"][..]),
            (0, &[][..], &["a", "b"][..], &["c"][..]),
            (0, &["b"][..], &["b"][..], &["d"][..]),
            (1, &[][..], &[][..], &["e"][..]),
            (0, &[][..], &["e"][..], &["f"][..]),
            (0, &[][..], &["c", "f"][..], &["g"][..]),
            (1, &["a", "g"][..], &["a", "g"][..], &["h"][..]),
            (1, &[][..], &[][..], &[][..]),
        ])
    );
}

#[test]
fn stackify_generic_external_instructions() {
    let stk = test_skeleton(
        &["ex0"],
        &[
            (&["ex0"][..], &["a"][..]),
            (&["a"][..], &["b"][..]),
            (&["b", "a"][..], &["c"][..]),
        ],
    );
    assert_eq!(
        stk,
        stackification(&[
            (0, &["ex0"][..], &["ex0"][..], &["a"][..]),
            (0, &[][..], &["a"][..], &["b"][..]),
            (0, &["a"][..], &["b", "a"][..], &["c"][..]),
            (1, &[][..], &[][..], &[][..]),
        ])
    )
}

#[test]
fn stackify_generic_conflicting_getter_locations() {
    let stk = test_skeleton(
        &[],
        &[
            (&[][..], &["a"][..]),
            (&[][..], &["b"][..]),
            (&["a", "b"][..], &["c"][..]),
            (&["a"][..], &["d"][..]),
            (&["c", "b", "d"][..], &["e"][..]),
        ],
    );
    assert_eq!(
        stk,
        stackification(&[
            (0, &[][..], &[][..], &["a"][..]),
            (0, &[][..], &[][..], &["b"][..]),
            (0, &[][..], &["a", "b"][..], &["c"][..]),
            (0, &["b", "a"][..], &["a"][..], &["d"][..]),
            (0, &[][..], &["c", "b", "d"][..], &["e"][..]),
            (1, &[][..], &[][..], &[][..]),
        ])
    )
}

#[test]
fn stackify_generic_getter_before_calculation_after_release() {
    let stk = test_skeleton(
        &[],
        &[
            (&[][..], &["a"][..]),
            (&[][..], &["b"][..]),
            (&[][..], &["c"][..]),
            (&["b", "c"][..], &["d"][..]),
            (&["d"][..], &["e"][..]),
            (&["a", "d"][..], &["f"][..]),
        ],
    );
    assert_eq!(
        stk,
        stackification(&[
            (0, &[][..], &[][..], &["a"][..]),
            (0, &[][..], &[][..], &["b"][..]),
            (0, &[][..], &[][..], &["c"][..]),
            (0, &[][..], &["b", "c"][..], &["d"][..]),
            (0, &[][..], &["d"][..], &["e"][..]),
            (1, &["d"][..], &["a", "d"][..], &["f"][..]),
            (1, &[][..], &[][..], &[][..]),
        ])
    );
}

#[test]
fn stackify_generic_getter_before_calculation_before_release() {
    let stk = test_skeleton(
        &[],
        &[
            (&[][..], &["a"][..]),
            (&[][..], &["b"][..]),
            (&[][..], &["c"][..]),
            (&["b", "c"][..], &["d"][..]),
            (&["d"][..], &["e"][..]),
            (&["d", "a"][..], &["f"][..]),
        ],
    );
    assert_eq!(
        stk,
        stackification(&[
            (0, &[][..], &[][..], &["a"][..]),
            (1, &[][..], &[][..], &["b"][..]),
            (0, &[][..], &[][..], &["c"][..]),
            (0, &[][..], &["b", "c"][..], &["d"][..]),
            (0, &[][..], &["d"][..], &["e"][..]),
            (1, &["d", "a"][..], &["d", "a"][..], &["f"][..]),
            (1, &[][..], &[][..], &[][..]),
        ])
    );
}

#[test]
fn transparent_instruction() {
    let stk = test_skeleton(
        &[],
        &[
            (&[][..], &["a"][..]),
            (&[][..], &["b"][..]),
            (&[][..], &["c"][..]),
            (&[][..], &["d"][..]),
            (&[][..], &["e"][..]),
            (&["b", "c", "d", "e"][..], &["b", "c", "d"][..]),
            (&["a", "c"][..], &["f"][..]),
            (&["d", "b"][..], &["g"][..]),
        ],
    );
    assert_eq!(
        stk,
        stackification(&[
            (0, &[][..], &[][..], &["a"][..]),
            (0, &[][..], &[][..], &["b"][..]),
            (0, &[][..], &[][..], &["c"][..]),
            (0, &[][..], &[][..], &["d"][..]),
            (0, &[][..], &[][..], &["e"][..]),
            (0, &[][..], &["b", "c", "d", "e"][..], &["b", "c", "d"][..]),
            (3, &["c"][..], &["a", "c"][..], &["f"][..]),
            (1, &["d", "b"][..], &["d", "b"][..], &["g"][..]),
            (1, &[][..], &[][..], &[][..]),
        ])
    );
}

