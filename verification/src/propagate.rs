//! Local constant folding: a single forward pass that replaces operations on
//! two constants by their result, and comparisons of a node with itself by
//! the constant truth value.

use vstd::prelude::*;
use crate::field::{lemma_u256_roundtrip, u256_of_nat, U256};
use crate::graph::{no_mont, node_ok, valid_graph, Node};
use crate::ops::{bool_nat, eval_ok, op_raw, Operation};

verus! {

/// The truth value that a comparison takes on equal operands, if it has one.
pub open spec fn equal_operand_fold(op: Operation) -> Option<bool> {
    match op {
        Operation::Eq | Operation::Leq | Operation::Geq => Some(true),
        Operation::Neq | Operation::Lt | Operation::Gt => Some(false),
        _ => None,
    }
}

/// The value of a constant node, or zero for any other node.
pub open spec fn const_val(n: Node) -> nat {
    match n {
        Node::Constant(c) => c.val(),
        _ => 0,
    }
}

/// The node at position `i` after the folding pass. Folding is defined by
/// recursion over the strictly backward operand references: when node `i` is
/// folded, its operands have already taken their final shape.
pub open spec fn folded_node(ns: Seq<Node>, i: int) -> Node
    decreases i,
{
    match ns[i] {
        Node::Op(op, a, b) => if 0 <= a && a < i && 0 <= b && b < i {
            let na = folded_node(ns, a as int);
            let nb = folded_node(ns, b as int);
            if na is Constant && nb is Constant {
                Node::Constant(u256_of_nat(op_raw(op, const_val(na), const_val(nb))))
            } else if a == b && equal_operand_fold(op) is Some {
                Node::Constant(u256_of_nat(bool_nat(equal_operand_fold(op)->Some_0)))
            } else {
                ns[i]
            }
        } else {
            ns[i]
        },
        _ => ns[i],
    }
}

/// Whether every fold the pass performs is defined: no fold reaches the
/// reserved operation, and folded shift amounts stay below 256.
pub open spec fn fold_ok(ns: Seq<Node>) -> bool {
    forall|i: int|
        0 <= i < ns.len() ==> match #[trigger] ns[i] {
            Node::Op(op, a, b) => (0 <= a && a < i && 0 <= b && b < i && folded_node(
                ns,
                a as int,
            ) is Constant && folded_node(ns, b as int) is Constant) ==> eval_ok(
                op,
                const_val(folded_node(ns, b as int)),
            ),
            _ => true,
        }
}

/// Folding never turns a constant into an operation, so the backward
/// reference invariant survives the pass.
pub proof fn lemma_folded_node_ok(ns: Seq<Node>, i: int)
    requires
        0 <= i < ns.len(),
        node_ok(ns[i], i),
    ensures
        node_ok(folded_node(ns, i), i),
{
}

/// A folded node is either a fresh constant or the original node.
pub proof fn lemma_folded_variant(ns: Seq<Node>, i: int)
    ensures
        folded_node(ns, i) is Constant || folded_node(ns, i) == ns[i],
{
}

/// Replace every operation on two constants by its constant result, and
/// every comparison of a node with itself by its constant truth value.
#[verifier::rlimit(100)]
pub fn propagate(nodes: &mut Vec<Node>)
    requires
        valid_graph(old(nodes)@),
        fold_ok(old(nodes)@),
    ensures
        final(nodes)@.len() == old(nodes)@.len(),
        forall|i: int|
            0 <= i < old(nodes)@.len() ==> final(nodes)@[i] == folded_node(old(nodes)@, i),
        valid_graph(final(nodes)@),
        no_mont(old(nodes)@) ==> no_mont(final(nodes)@),
{
    let ghost orig = nodes@;
    let n = nodes.len();
    for i in 0..n
        invariant
            nodes@.len() == n,
            orig.len() == n,
            valid_graph(orig),
            fold_ok(orig),
            forall|j: int| 0 <= j < i ==> nodes@[j] == folded_node(orig, j),
            forall|j: int| i <= j < n ==> nodes@[j] == orig[j],
    {
        if let Node::Op(op, a, b) = nodes[i] {
            let na = nodes[a];
            let nb = nodes[b];
            proof {
                assert(na == folded_node(orig, a as int));
                assert(nb == folded_node(orig, b as int));
            }
            if let (Node::Constant(va), Node::Constant(vb)) = (na, nb) {
                proof {
                    assert(eval_ok(op, vb.val()));
                }
                let folded = op.eval(va, vb);
                proof {
                    lemma_u256_roundtrip(folded);
                    assert(folded_node(orig, i as int) == Node::Constant(
                        u256_of_nat(op_raw(op, va.val(), vb.val())),
                    ));
                    assert(folded == u256_of_nat(folded.val()));
                }
                nodes.set(i, Node::Constant(folded));
            } else if a == b {
                let fold: Option<bool> = match op {
                    Operation::Eq | Operation::Leq | Operation::Geq => Some(true),
                    Operation::Neq | Operation::Lt | Operation::Gt => Some(false),
                    _ => None,
                };
                if let Some(c) = fold {
                    let cv = U256::from_u64(if c {
                        1
                    } else {
                        0
                    });
                    proof {
                        lemma_u256_roundtrip(cv);
                    }
                    nodes.set(i, Node::Constant(cv));
                }
            }
        }
    }
    proof {
        assert forall|j: int| 0 <= j < n implies node_ok(#[trigger] nodes@[j], j) by {
            lemma_folded_node_ok(orig, j);
        }
        if no_mont(orig) {
            assert forall|j: int| 0 <= j < n implies !((#[trigger] nodes@[j]) is MontConstant) by {
                lemma_folded_variant(orig, j);
                assert(!(orig[j] is MontConstant));
            }
        }
    }
}

} // verus!
