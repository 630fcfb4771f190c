//! The optimization passes and the reference evaluator on whole graphs.

use circuit_opt::field::U256;
use circuit_opt::graph::{evaluate, Node};
use circuit_opt::ops::Operation;
use circuit_opt::passes::{constants, montgomery_form, optimize, value_numbering};
use circuit_opt::propagate::propagate;
use circuit_opt::shake::tree_shake;

fn u(x: u64) -> U256 {
    U256 { l0: x, l1: 0, l2: 0, l3: 0 }
}

#[test]
fn end_to_end_example() {
    // (3 + 4) * 5 == 35, before and after optimization.
    let mut nodes = vec![
        Node::Input(0),
        Node::Input(1),
        Node::Constant(u(5)),
        Node::Op(Operation::Add, 0, 1),
        Node::Op(Operation::Mul, 3, 2),
    ];
    let mut outputs = vec![4];
    let inputs = vec![u(3), u(4)];
    let before = evaluate(&nodes, &inputs, &outputs);
    assert_eq!(before, vec![u(35)]);

    optimize(&mut nodes, &mut outputs);
    let after = evaluate(&nodes, &inputs, &outputs);
    assert_eq!(after, vec![u(35)]);
    // The literal five is now carried as a Montgomery-form constant.
    assert!(nodes.iter().any(|n| matches!(n, Node::MontConstant(_))));
    assert!(!nodes.iter().any(|n| matches!(n, Node::Constant(_))));
}

#[test]
fn propagate_folds_constant_addition() {
    let mut nodes = vec![
        Node::Constant(u(2)),
        Node::Constant(u(3)),
        Node::Op(Operation::Add, 0, 1),
    ];
    propagate(&mut nodes);
    assert_eq!(nodes[2], Node::Constant(u(5)));
}

#[test]
fn propagate_folds_equal_operand_comparisons() {
    let mut nodes = vec![
        Node::Input(0),
        Node::Op(Operation::Eq, 0, 0),
        Node::Op(Operation::Lt, 0, 0),
        Node::Op(Operation::Leq, 0, 0),
        Node::Op(Operation::Neq, 0, 0),
        Node::Op(Operation::Add, 0, 0),
    ];
    propagate(&mut nodes);
    assert_eq!(nodes[1], Node::Constant(u(1)));
    assert_eq!(nodes[2], Node::Constant(u(0)));
    assert_eq!(nodes[3], Node::Constant(u(1)));
    assert_eq!(nodes[4], Node::Constant(u(0)));
    // No algebraic identity is assumed for other operations.
    assert_eq!(nodes[5], Node::Op(Operation::Add, 0, 0));
}

#[test]
fn propagate_folds_through_chains() {
    // The fold of an earlier node feeds the fold of a later one.
    let mut nodes = vec![
        Node::Constant(u(2)),
        Node::Constant(u(3)),
        Node::Op(Operation::Add, 0, 1),
        Node::Op(Operation::Mul, 2, 2),
    ];
    propagate(&mut nodes);
    assert_eq!(nodes[3], Node::Constant(u(25)));
}

#[test]
fn tree_shake_removes_dead_nodes() {
    let mut nodes = vec![
        Node::Input(0),
        Node::Constant(u(5)),
        Node::Op(Operation::Add, 0, 0),
    ];
    let mut outputs = vec![2];
    tree_shake(&mut nodes, &mut outputs);
    assert_eq!(nodes, vec![Node::Input(0), Node::Op(Operation::Add, 0, 0)]);
    assert_eq!(outputs, vec![1]);
}

#[test]
fn tree_shake_is_idempotent() {
    let mut nodes = vec![
        Node::Input(0),
        Node::Input(1),
        Node::Constant(u(9)),
        Node::Op(Operation::Mul, 0, 0),
        Node::Op(Operation::Add, 1, 3),
    ];
    let mut outputs = vec![4, 3];
    tree_shake(&mut nodes, &mut outputs);
    let once_nodes = nodes.clone();
    let once_outputs = outputs.clone();
    tree_shake(&mut nodes, &mut outputs);
    assert_eq!(nodes, once_nodes);
    assert_eq!(outputs, once_outputs);
}

#[test]
fn value_numbering_merges_equal_computations() {
    // Two copies of the same computation collapse to one representative.
    for _ in 0..8 {
        let mut nodes = vec![
            Node::Input(0),
            Node::Input(0),
            Node::Op(Operation::Add, 0, 0),
            Node::Op(Operation::Add, 1, 1),
        ];
        let mut outputs = vec![2, 3];
        value_numbering(&mut nodes, &mut outputs);
        assert_eq!(outputs[0], outputs[1]);
    }
}

#[test]
fn value_numbering_merges_identical_nonalgebraic_subexpressions() {
    // Non-algebraic operations are memoized by (operation, operand values),
    // so two structurally identical shifts always land in one value class.
    for _ in 0..8 {
        let mut nodes = vec![
            Node::Input(0),
            Node::Constant(u(3)),
            Node::Op(Operation::Shl, 0, 1),
            Node::Op(Operation::Shl, 0, 1),
        ];
        let mut outputs = vec![2, 3];
        value_numbering(&mut nodes, &mut outputs);
        assert_eq!(outputs[0], outputs[1]);
    }
}

#[test]
fn value_numbering_never_merges_distinct_functions() {
    // A sum and a product of two independent inputs are different
    // functions: no trial may identify them.
    for _ in 0..8 {
        let mut nodes = vec![
            Node::Input(0),
            Node::Input(1),
            Node::Op(Operation::Add, 0, 1),
            Node::Op(Operation::Mul, 0, 1),
        ];
        let mut outputs = vec![2, 3];
        value_numbering(&mut nodes, &mut outputs);
        assert_ne!(outputs[0], outputs[1]);
    }
}

#[test]
fn constants_promotes_derived_constants() {
    let mut nodes = vec![
        Node::Constant(u(7)),
        Node::Op(Operation::Add, 0, 0),
    ];
    constants(&mut nodes);
    assert_eq!(nodes[1], Node::Constant(u(14)));
}

#[test]
fn constants_keeps_input_dependent_nodes() {
    for _ in 0..8 {
        let mut nodes = vec![Node::Input(0), Node::Op(Operation::Add, 0, 0)];
        constants(&mut nodes);
        assert_eq!(nodes[1], Node::Op(Operation::Add, 0, 0));
    }
}

#[test]
fn montgomery_form_converts_constants_only() {
    let mut nodes = vec![
        Node::Input(0),
        Node::Constant(u(5)),
        Node::Op(Operation::Add, 0, 1),
    ];
    montgomery_form(&mut nodes);
    assert_eq!(nodes[0], Node::Input(0));
    assert_eq!(nodes[2], Node::Op(Operation::Add, 0, 1));
    match nodes[1] {
        Node::MontConstant(f) => assert_eq!(f.rep, u(5)),
        _ => panic!("constant was not converted"),
    }
}

#[test]
fn evaluate_multiple_outputs_in_order() {
    let nodes = vec![
        Node::Input(0),
        Node::Input(1),
        Node::Op(Operation::Sub, 0, 1),
        Node::Op(Operation::Lt, 1, 0),
    ];
    let outputs = vec![3, 2, 0];
    let inputs = vec![u(10), u(4)];
    assert_eq!(evaluate(&nodes, &inputs, &outputs), vec![u(1), u(6), u(10)]);
}

#[test]
fn optimize_preserves_semantics_with_sharing() {
    let mut nodes = vec![
        Node::Input(0),
        Node::Input(1),
        Node::Constant(u(2)),
        Node::Constant(u(3)),
        Node::Op(Operation::Add, 2, 3),
        Node::Op(Operation::Mul, 0, 1),
        Node::Op(Operation::Mul, 0, 1),
        Node::Op(Operation::Add, 5, 6),
        Node::Op(Operation::Mul, 7, 4),
    ];
    let mut outputs = vec![8];
    let inputs = vec![u(11), u(13)];
    let before = evaluate(&nodes, &inputs, &outputs);
    assert_eq!(before, vec![u((11 * 13 * 2) * 5)]);
    optimize(&mut nodes, &mut outputs);
    assert_eq!(evaluate(&nodes, &inputs, &outputs), before);
    assert!(nodes.len() <= 9);
}
