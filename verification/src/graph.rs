//! The circuit DAG: nodes, well-formedness, and the reference evaluator.
//!
//! A node's identity is its index in the node sequence. Every `Op` node's
//! operand indices point strictly backwards, so one forward pass evaluates
//! the whole graph.

use vstd::prelude::*;
use crate::field::{fr_from_u256, m_nat, FrElement, U256};
use crate::ops::{eval_ok, op_fr, Operation};

verus! {

/// One node of the circuit graph.
#[derive(Clone, Copy, Debug, PartialEq, Eq, Structural)]
pub enum Node {
    /// The value of the external input at the given position.
    Input(usize),
    /// A literal 256-bit value, interpreted as a field residue.
    Constant(U256),
    /// A literal field element, produced only by the final conversion pass.
    MontConstant(FrElement),
    /// A binary operation applied to two earlier nodes.
    Op(Operation, usize, usize),
}

/// An `Op` node at position `i` may only reference strictly earlier nodes.
pub open spec fn node_ok(n: Node, i: int) -> bool {
    match n {
        Node::Op(_, a, b) => a < i && b < i,
        _ => true,
    }
}

/// The backward-reference invariant: every operand index is strictly less
/// than the index of the node that uses it.
pub open spec fn valid_graph(ns: Seq<Node>) -> bool {
    forall|i: int| 0 <= i < ns.len() ==> node_ok(#[trigger] ns[i], i)
}

/// No node is a Montgomery-form constant (true of every graph before the
/// final conversion pass).
pub open spec fn no_mont(ns: Seq<Node>) -> bool {
    forall|i: int| 0 <= i < ns.len() ==> !((#[trigger] ns[i]) is MontConstant)
}

/// Every Montgomery-form constant stores a reduced representative.
pub open spec fn mont_canonical(ns: Seq<Node>) -> bool {
    forall|i: int|
        0 <= i < ns.len() ==> ((#[trigger] ns[i]) matches Node::MontConstant(f)
            ==> f.is_canonical())
}

/// Every input reference fits the supplied input vector.
pub open spec fn inputs_ok(ns: Seq<Node>, m: nat) -> bool {
    forall|i: int|
        0 <= i < ns.len() ==> ((#[trigger] ns[i]) matches Node::Input(k) ==> k < m)
}

/// Every output index points at a node.
pub open spec fn outputs_ok(outs: Seq<usize>, n: nat) -> bool {
    forall|k: int| 0 <= k < outs.len() ==> (#[trigger] outs[k]) < n
}

/// The field value computed at node `i` under the given input assignment.
/// Out-of-range operand references (excluded by `valid_graph`) evaluate
/// to zero.
pub open spec fn node_value(ns: Seq<Node>, inputs: Seq<nat>, i: int) -> nat
    decreases i,
{
    match ns[i] {
        Node::Input(k) => if k < inputs.len() {
            inputs[k as int] % m_nat()
        } else {
            0
        },
        Node::Constant(c) => c.val() % m_nat(),
        Node::MontConstant(f) => f.val(),
        Node::Op(op, a, b) => if 0 <= a && a < i && 0 <= b && b < i {
            op_fr(op, node_value(ns, inputs, a as int), node_value(ns, inputs, b as int))
        } else {
            0
        },
    }
}

/// The values of a sequence of 256-bit integers.
pub open spec fn u256_vals(s: Seq<U256>) -> Seq<nat> {
    s.map_values(|u: U256| u.val())
}

/// Every operation in the graph is defined on the values that reach it:
/// no reserved operation, and shift amounts below 256.
pub open spec fn eval_requires(ns: Seq<Node>, inputs: Seq<nat>) -> bool {
    forall|i: int|
        0 <= i < ns.len() ==> ((#[trigger] ns[i]) matches Node::Op(op, a, b)
            ==> eval_ok(op, node_value(ns, inputs, b as int)))
}

/// Evaluate the graph on a full input assignment and return the canonical
/// residues of the requested output nodes, in the order requested.
pub fn evaluate(nodes: &Vec<Node>, inputs: &Vec<U256>, outputs: &Vec<usize>) -> (out: Vec<U256>)
    requires
        valid_graph(nodes@),
        mont_canonical(nodes@),
        inputs_ok(nodes@, inputs@.len() as nat),
        eval_requires(nodes@, u256_vals(inputs@)),
        outputs_ok(outputs@, nodes@.len() as nat),
    ensures
        out@.len() == outputs@.len(),
        forall|k: int|
            0 <= k < outputs@.len() ==> (#[trigger] out@[k]).val() == node_value(
                nodes@,
                u256_vals(inputs@),
                outputs@[k] as int,
            ),
{
    let ghost ivals = u256_vals(inputs@);
    let n = nodes.len();
    let mut values: Vec<FrElement> = Vec::new();
    for idx in 0..n
        invariant
            n == nodes@.len(),
            values@.len() == idx,
            valid_graph(nodes@),
            mont_canonical(nodes@),
            inputs_ok(nodes@, inputs@.len() as nat),
            eval_requires(nodes@, ivals),
            ivals == u256_vals(inputs@),
            forall|j: int|
                0 <= j < idx ==> (#[trigger] values@[j]).val() == node_value(nodes@, ivals, j)
                    && values@[j].is_canonical(),
    {
        let value = match nodes[idx] {
            Node::Constant(c) => fr_from_u256(&c),
            Node::MontConstant(c) => c,
            Node::Input(i) => fr_from_u256(&inputs[i]),
            Node::Op(op, a, b) => {
                let va = values[a];
                let vb = values[b];
                op.eval_fr(va, vb)
            },
        };
        values.push(value);
    }
    let mut out: Vec<U256> = Vec::new();
    let k = outputs.len();
    for i in 0..k
        invariant
            k == outputs@.len(),
            n == nodes@.len(),
            values@.len() == n,
            outputs_ok(outputs@, nodes@.len() as nat),
            out@.len() == i,
            forall|j: int|
                0 <= j < n ==> (#[trigger] values@[j]).val() == node_value(nodes@, ivals, j),
            ivals == u256_vals(inputs@),
            forall|j: int|
                0 <= j < i ==> (#[trigger] out@[j]).val() == node_value(
                    nodes@,
                    ivals,
                    outputs@[j] as int,
                ),
    {
        let idx = outputs[i];
        out.push(values[idx].to_u256());
    }
    out
}

} // verus!
