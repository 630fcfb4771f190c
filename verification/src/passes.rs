//! The probabilistic passes and the optimization pipeline: random
//! evaluation, global value numbering, constant discovery, Montgomery-form
//! conversion, and the fixed pass schedule.

use vstd::prelude::*;
use crate::field::{
    fr_from_u256, lemma_u256_injective, lemma_u256_roundtrip, m_nat, random_residue, u256_of_nat,
    FrElement, U256,
};
use crate::graph::{
    mont_canonical, no_mont, node_ok, outputs_ok, u256_vals, valid_graph, Node,
};
use crate::ops::{op_raw, Operation};
use crate::propagate::{fold_ok, propagate};
use crate::shake::{shaken_nodes, shaken_outputs, tree_shake};

verus! {

/// Whether an operation is algebraic: evaluated exactly during random
/// evaluation, because the field is large enough for evaluation to preserve
/// algebraic identity with overwhelming probability.
pub open spec fn is_algebraic(op: Operation) -> bool {
    op == Operation::Add || op == Operation::Sub || op == Operation::Mul
}

/// What holds of every outcome of a random evaluation: one value per node,
/// constants evaluate to themselves, and algebraic operations are computed
/// exactly from their operands' values.
pub open spec fn rand_eval_consistent(ns: Seq<Node>, vals: Seq<nat>) -> bool {
    &&& vals.len() == ns.len()
    &&& forall|i: int|
        0 <= i < ns.len() ==> match #[trigger] ns[i] {
            Node::Constant(c) => vals[i] == c.val(),
            Node::Op(op, a, b) => (is_algebraic(op) && a < i && b < i) ==> vals[i] == op_raw(
                op,
                vals[a as int],
                vals[b as int],
            ),
            _ => true,
        }
    &&& forall|i: int, j: int|
        0 <= i < ns.len() && 0 <= j < ns.len() ==> match (#[trigger] ns[i], #[trigger] ns[j]) {
            (Node::Input(k1), Node::Input(k2)) => k1 == k2 ==> vals[i] == vals[j],
            (Node::Op(op1, a1, b1), Node::Op(op2, a2, b2)) => (!is_algebraic(op1) && op1 == op2
                && a1 < i && b1 < i && a2 < j && b2 < j && vals[a1 as int] == vals[a2 as int]
                && vals[b1 as int] == vals[b2 as int]) ==> vals[i] == vals[j],
            _ => true,
        }
}

/// Look up a memoized random value for a non-algebraic operation applied to
/// the given operand values.
fn lookup_prf(keys: &Vec<(Operation, U256, U256)>, vals: &Vec<U256>, op: Operation, a: U256, b: U256) -> (r: Option<
    U256,
>)
    requires
        keys@.len() == vals@.len(),
    ensures
        match r {
            Some(v) => exists|t: int|
                0 <= t < keys@.len() && #[trigger] keys@[t] == (op, a, b) && vals@[t] == v,
            None => forall|t: int| 0 <= t < keys@.len() ==> #[trigger] keys@[t] != (op, a, b),
        },
{
    let mut t: usize = 0;
    while t < keys.len()
        invariant
            t <= keys@.len(),
            keys@.len() == vals@.len(),
            forall|t2: int| 0 <= t2 < t ==> #[trigger] keys@[t2] != (op, a, b),
        decreases keys@.len() - t,
    {
        let (kop, ka, kb) = keys[t];
        if kop == op && ka == a && kb == b {
            proof {
                assert(keys@[t as int] == (op, a, b));
            }
            return Some(vals[t]);
        }
        t = t + 1;
    }
    None
}

/// Look up the memoized random value for an input position.
fn lookup_input(keys: &Vec<usize>, vals: &Vec<U256>, k: usize) -> (r: Option<U256>)
    requires
        keys@.len() == vals@.len(),
    ensures
        match r {
            Some(v) => exists|t: int|
                0 <= t < keys@.len() && #[trigger] keys@[t] == k && vals@[t] == v,
            None => forall|t: int| 0 <= t < keys@.len() ==> #[trigger] keys@[t] != k,
        },
{
    let mut t: usize = 0;
    while t < keys.len()
        invariant
            t <= keys@.len(),
            keys@.len() == vals@.len(),
            forall|t2: int| 0 <= t2 < t ==> #[trigger] keys@[t2] != k,
        decreases keys@.len() - t,
    {
        if keys[t] == k {
            proof {
                assert(keys@[t as int] == k);
            }
            return Some(vals[t]);
        }
        t = t + 1;
    }
    None
}

/// Evaluate the graph under one random assignment: constants are exact,
/// algebraic operations are computed, and inputs and non-algebraic
/// operations take memoized uniform random field values, shared between
/// occurrences with the same input position or the same (operation,
/// operand values) triple.
#[verifier::rlimit(100)]
fn random_eval(nodes: &Vec<Node>) -> (values: Vec<U256>)
    requires
        valid_graph(nodes@),
        no_mont(nodes@),
    ensures
        rand_eval_consistent(nodes@, u256_vals(values@)),
{
    let n = nodes.len();
    let mut values: Vec<U256> = Vec::new();
    let mut input_keys: Vec<usize> = Vec::new();
    let mut input_vals: Vec<U256> = Vec::new();
    let mut prf_keys: Vec<(Operation, U256, U256)> = Vec::new();
    let mut prf_vals: Vec<U256> = Vec::new();
    for i in 0..n
        invariant
            n == nodes@.len(),
            valid_graph(nodes@),
            no_mont(nodes@),
            values@.len() == i,
            input_keys@.len() == input_vals@.len(),
            prf_keys@.len() == prf_vals@.len(),
            forall|j: int|
                0 <= j < i ==> match #[trigger] nodes@[j] {
                    Node::Constant(c) => values@[j] == c,
                    Node::Op(op, a, b) => (is_algebraic(op) && a < j && b < j) ==> values@[j].val()
                        == op_raw(op, values@[a as int].val(), values@[b as int].val()),
                    _ => true,
                },
            forall|t1: int, t2: int|
                0 <= t1 < t2 < input_keys@.len() ==> #[trigger] input_keys@[t1]
                    != #[trigger] input_keys@[t2],
            forall|j: int|
                0 <= j < i ==> match #[trigger] nodes@[j] {
                    Node::Input(k) => exists|t: int|
                        0 <= t < input_keys@.len() && #[trigger] input_keys@[t] == k
                            && input_vals@[t] == values@[j],
                    _ => true,
                },
            forall|t1: int, t2: int|
                0 <= t1 < t2 < prf_keys@.len() ==> #[trigger] prf_keys@[t1]
                    != #[trigger] prf_keys@[t2],
            forall|j: int|
                0 <= j < i ==> match #[trigger] nodes@[j] {
                    Node::Op(op, a, b) => (!is_algebraic(op) && a < j && b < j) ==> exists|t: int|
                        0 <= t < prf_keys@.len() && #[trigger] prf_keys@[t] == (
                            op,
                            values@[a as int],
                            values@[b as int],
                        ) && prf_vals@[t] == values@[j],
                    _ => true,
                },
    {
        let ghost pre_vals = values@;
        let ghost pre_ik = input_keys@;
        let ghost pre_iv = input_vals@;
        let ghost pre_pk = prf_keys@;
        let ghost pre_pv = prf_vals@;
        match nodes[i] {
            Node::Constant(c) => {
                values.push(c);
            },
            Node::MontConstant(_) => {
                proof {
                    assert(false);
                }
                values.push(U256::zero());
            },
            Node::Op(op, a, b) => {
                let va = values[a];
                let vb = values[b];
                let algebraic = matches!(op, Operation::Add | Operation::Sub | Operation::Mul);
                if algebraic {
                    values.push(op.eval(va, vb));
                } else {
                    match lookup_prf(&prf_keys, &prf_vals, op, va, vb) {
                        Some(v) => {
                            values.push(v);
                            proof {
                                let t0 = choose|t: int|
                                    0 <= t < prf_keys@.len() && #[trigger] prf_keys@[t] == (
                                        op,
                                        va,
                                        vb,
                                    ) && prf_vals@[t] == v;
                                assert(prf_keys@[t0] == (
                                    op,
                                    values@[a as int],
                                    values@[b as int],
                                ) && prf_vals@[t0] == values@[i as int]);
                            }
                        },
                        None => {
                            let v = random_residue();
                            prf_keys.push((op, va, vb));
                            prf_vals.push(v);
                            values.push(v);
                            proof {
                                let t0 = pre_pk.len() as int;
                                assert(prf_keys@[t0] == (
                                    op,
                                    values@[a as int],
                                    values@[b as int],
                                ) && prf_vals@[t0] == values@[i as int]);
                                assert forall|t1: int, t2: int|
                                    0 <= t1 < t2 < prf_keys@.len() implies #[trigger] prf_keys@[t1]
                                    != #[trigger] prf_keys@[t2] by {
                                    if t2 == t0 {
                                        assert(prf_keys@[t1] == pre_pk[t1]);
                                        assert(pre_pk[t1] != (op, va, vb));
                                    } else {
                                        assert(prf_keys@[t1] == pre_pk[t1]);
                                        assert(prf_keys@[t2] == pre_pk[t2]);
                                    }
                                }
                            }
                        },
                    }
                }
            },
            Node::Input(k) => {
                match lookup_input(&input_keys, &input_vals, k) {
                    Some(v) => {
                        values.push(v);
                        proof {
                            let t0 = choose|t: int|
                                0 <= t < input_keys@.len() && #[trigger] input_keys@[t] == k
                                    && input_vals@[t] == v;
                            assert(input_keys@[t0] == k && input_vals@[t0] == values@[i as int]);
                        }
                    },
                    None => {
                        let v = random_residue();
                        input_keys.push(k);
                        input_vals.push(v);
                        values.push(v);
                        proof {
                            let t0 = pre_ik.len() as int;
                            assert(input_keys@[t0] == k && input_vals@[t0] == values@[i as int]);
                            assert forall|t1: int, t2: int|
                                0 <= t1 < t2 < input_keys@.len() implies #[trigger] input_keys@[t1]
                                != #[trigger] input_keys@[t2] by {
                                if t2 == t0 {
                                    assert(input_keys@[t1] == pre_ik[t1]);
                                    assert(pre_ik[t1] != k);
                                } else {
                                    assert(input_keys@[t1] == pre_ik[t1]);
                                    assert(input_keys@[t2] == pre_ik[t2]);
                                }
                            }
                        }
                    },
                }
            },
        };
        proof {
            assert(values@.len() == i + 1);
            assert forall|j: int| 0 <= j < i implies values@[j] == pre_vals[j] by {}
            assert forall|t: int|
                0 <= t < pre_ik.len() implies #[trigger] input_keys@[t] == pre_ik[t]
                && input_vals@[t] == pre_iv[t] by {}
            assert forall|t: int|
                0 <= t < pre_pk.len() implies #[trigger] prf_keys@[t] == pre_pk[t] && prf_vals@[t]
                == pre_pv[t] by {}
            assert forall|j: int|
                0 <= j < i + 1 implies match #[trigger] nodes@[j] {
                Node::Input(k) => exists|t: int|
                    0 <= t < input_keys@.len() && #[trigger] input_keys@[t] == k && input_vals@[t]
                        == values@[j],
                _ => true,
            } by {
                if j < i {
                    match nodes@[j] {
                        Node::Input(k2) => {
                            let t1 = choose|t: int|
                                0 <= t < pre_ik.len() && #[trigger] pre_ik[t] == k2 && pre_iv[t]
                                    == pre_vals[j];
                            assert(input_keys@[t1] == k2 && input_vals@[t1] == values@[j]);
                        },
                        _ => {
                        },
                    }
                }
            }
            assert forall|j: int|
                0 <= j < i + 1 implies match #[trigger] nodes@[j] {
                Node::Op(op, a, b) => (!is_algebraic(op) && a < j && b < j) ==> exists|t: int|
                    0 <= t < prf_keys@.len() && #[trigger] prf_keys@[t] == (
                        op,
                        values@[a as int],
                        values@[b as int],
                    ) && prf_vals@[t] == values@[j],
                _ => true,
            } by {
                if j < i {
                    match nodes@[j] {
                        Node::Op(op2, a2, b2) => {
                            if !is_algebraic(op2) && (a2 as int) < j && (b2 as int) < j {
                                let t1 = choose|t: int|
                                    0 <= t < pre_pk.len() && #[trigger] pre_pk[t] == (
                                        op2,
                                        pre_vals[a2 as int],
                                        pre_vals[b2 as int],
                                    ) && pre_pv[t] == pre_vals[j];
                                assert(prf_keys@[t1] == (
                                    op2,
                                    values@[a2 as int],
                                    values@[b2 as int],
                                ) && prf_vals@[t1] == values@[j]);
                            }
                        },
                        _ => {
                        },
                    }
                }
            }
        }
    }
    proof {
        lemma_memo_tables_give_sharing(
            nodes@,
            values@,
            input_keys@,
            input_vals@,
            prf_keys@,
            prf_vals@,
        );
    }
    values
}

/// Two nodes served from one memo table entry carry one value: the table's
/// keys are distinct, so equal keys name the same entry.
proof fn lemma_memo_tables_give_sharing(
    ns: Seq<Node>,
    values: Seq<U256>,
    input_keys: Seq<usize>,
    input_vals: Seq<U256>,
    prf_keys: Seq<(Operation, U256, U256)>,
    prf_vals: Seq<U256>,
)
    requires
        values.len() == ns.len(),
        forall|t1: int, t2: int|
            0 <= t1 < t2 < input_keys.len() ==> #[trigger] input_keys[t1]
                != #[trigger] input_keys[t2],
        forall|j: int|
            0 <= j < ns.len() ==> match #[trigger] ns[j] {
                Node::Input(k) => exists|t: int|
                    0 <= t < input_keys.len() && #[trigger] input_keys[t] == k && input_vals[t]
                        == values[j],
                _ => true,
            },
        forall|t1: int, t2: int|
            0 <= t1 < t2 < prf_keys.len() ==> #[trigger] prf_keys[t1] != #[trigger] prf_keys[t2],
        forall|j: int|
            0 <= j < ns.len() ==> match #[trigger] ns[j] {
                Node::Op(op, a, b) => (!is_algebraic(op) && a < j && b < j) ==> exists|t: int|
                    0 <= t < prf_keys.len() && #[trigger] prf_keys[t] == (
                        op,
                        values[a as int],
                        values[b as int],
                    ) && prf_vals[t] == values[j],
                _ => true,
            },
    ensures
        forall|i: int, j: int|
            0 <= i < ns.len() && 0 <= j < ns.len() ==> match (#[trigger] ns[i], #[trigger] ns[j]) {
                (Node::Input(k1), Node::Input(k2)) => k1 == k2 ==> u256_vals(values)[i]
                    == u256_vals(values)[j],
                (Node::Op(op1, a1, b1), Node::Op(op2, a2, b2)) => (!is_algebraic(op1) && op1 == op2
                    && a1 < i && b1 < i && a2 < j && b2 < j && u256_vals(values)[a1 as int]
                    == u256_vals(values)[a2 as int] && u256_vals(values)[b1 as int] == u256_vals(
                    values,
                )[b2 as int]) ==> u256_vals(values)[i] == u256_vals(values)[j],
                _ => true,
            },
{
    let vals = u256_vals(values);
    assert forall|i: int, j: int|
        0 <= i < ns.len() && 0 <= j < ns.len() implies match (#[trigger] ns[i], #[trigger] ns[j]) {
        (Node::Input(k1), Node::Input(k2)) => k1 == k2 ==> vals[i] == vals[j],
        (Node::Op(op1, a1, b1), Node::Op(op2, a2, b2)) => (!is_algebraic(op1) && op1 == op2 && a1
            < i && b1 < i && a2 < j && b2 < j && vals[a1 as int] == vals[a2 as int] && vals[b1
            as int] == vals[b2 as int]) ==> vals[i] == vals[j],
        _ => true,
    } by {
        match (ns[i], ns[j]) {
            (Node::Input(k1), Node::Input(k2)) => {
                if k1 == k2 {
                    let t1 = choose|t: int|
                        0 <= t < input_keys.len() && #[trigger] input_keys[t] == k1
                            && input_vals[t] == values[i];
                    let t2 = choose|t: int|
                        0 <= t < input_keys.len() && #[trigger] input_keys[t] == k2
                            && input_vals[t] == values[j];
                    assert(t1 == t2);
                    assert(values[i] == values[j]);
                }
            },
            (Node::Op(op1, a1, b1), Node::Op(op2, a2, b2)) => {
                if !is_algebraic(op1) && op1 == op2 && a1 < i && b1 < i && a2 < j && b2 < j
                    && vals[a1 as int] == vals[a2 as int] && vals[b1 as int] == vals[b2 as int] {
                    crate::field::lemma_u256_injective(values[a1 as int], values[a2 as int]);
                    crate::field::lemma_u256_injective(values[b1 as int], values[b2 as int]);
                    let t1 = choose|t: int|
                        0 <= t < prf_keys.len() && #[trigger] prf_keys[t] == (
                            op1,
                            values[a1 as int],
                            values[b1 as int],
                        ) && prf_vals[t] == values[i];
                    let t2 = choose|t: int|
                        0 <= t < prf_keys.len() && #[trigger] prf_keys[t] == (
                            op2,
                            values[a2 as int],
                            values[b2 as int],
                        ) && prf_vals[t] == values[j];
                    assert(t1 == t2);
                    assert(values[i] == values[j]);
                }
            },
            _ => {
            },
        }
    }
}

/// The first index at or after `j` (and at most `i`) whose value equals the
/// value at `i`.
pub open spec fn first_eq_from(vals: Seq<nat>, i: int, j: int) -> int
    decreases i - j,
{
    if j >= i {
        i
    } else if vals[j] == vals[i] {
        j
    } else {
        first_eq_from(vals, i, j + 1)
    }
}

/// The canonical representative of node `i` under a value assignment: the
/// lowest index with the same value.
pub open spec fn first_eq(vals: Seq<nat>, i: int) -> int {
    first_eq_from(vals, i, 0)
}

/// A node with its operand references redirected to canonical
/// representatives.
pub open spec fn vn_node(n: Node, vals: Seq<nat>) -> Node {
    match n {
        Node::Op(op, a, b) => Node::Op(
            op,
            first_eq(vals, a as int) as usize,
            first_eq(vals, b as int) as usize,
        ),
        _ => n,
    }
}

/// The representative never lies above the node it represents.
pub proof fn lemma_first_eq_bounds(vals: Seq<nat>, i: int, j: int)
    requires
        0 <= j <= i,
    ensures
        j <= first_eq_from(vals, i, j) <= i,
    decreases i - j,
{
    if j < i && vals[j] != vals[i] {
        lemma_first_eq_bounds(vals, i, j + 1);
    }
}

/// Global value numbering: evaluate the whole graph under one random
/// assignment, treat nodes with equal values as equal, and redirect every
/// operand and output to the lowest index in its value class.
pub fn value_numbering(nodes: &mut Vec<Node>, outputs: &mut Vec<usize>)
    requires
        valid_graph(old(nodes)@),
        no_mont(old(nodes)@),
        outputs_ok(old(outputs)@, old(nodes)@.len() as nat),
    ensures
        final(nodes)@.len() == old(nodes)@.len(),
        final(outputs)@.len() == old(outputs)@.len(),
        valid_graph(final(nodes)@),
        no_mont(final(nodes)@),
        outputs_ok(final(outputs)@, final(nodes)@.len() as nat),
        exists|vals: Seq<nat>|
            rand_eval_consistent(old(nodes)@, vals) && (forall|i: int|
                0 <= i < old(nodes)@.len() ==> final(nodes)@[i] == vn_node(
                    old(nodes)@[i],
                    vals,
                )) && (forall|k: int|
                0 <= k < old(outputs)@.len() ==> final(outputs)@[k] as int == first_eq(
                    vals,
                    old(outputs)@[k] as int,
                )),
{
    let ghost ons = nodes@;
    let ghost oouts = outputs@;
    let values = random_eval(nodes);
    let ghost vals = u256_vals(values@);
    let n = nodes.len();

    let mut renumber: Vec<usize> = Vec::new();
    for i in 0..n
        invariant
            n == values@.len(),
            vals == u256_vals(values@),
            renumber@.len() == i,
            forall|t: int|
                0 <= t < i ==> #[trigger] renumber@[t] as int == first_eq(vals, t)
                    && renumber@[t] <= t,
    {
        let mut j: usize = 0;
        while j < i && !(values[j] == values[i])
            invariant
                0 <= j <= i < n,
                n == values@.len(),
                vals == u256_vals(values@),
                first_eq_from(vals, i as int, j as int) == first_eq(vals, i as int),
            decreases i - j,
        {
            proof {
                if values@[j as int].val() == values@[i as int].val() {
                    lemma_u256_injective(values@[j as int], values@[i as int]);
                }
                assert(vals[j as int] != vals[i as int]);
            }
            j = j + 1;
        }
        proof {
            if j < i {
                assert(vals[j as int] == vals[i as int]);
            }
            assert(first_eq(vals, i as int) == j);
            lemma_first_eq_bounds(vals, i as int, 0);
        }
        renumber.push(j);
    }

    for i in 0..n
        invariant
            n == ons.len(),
            nodes@.len() == n,
            renumber@.len() == n,
            valid_graph(ons),
            no_mont(ons),
            forall|t: int|
                0 <= t < n ==> #[trigger] renumber@[t] as int == first_eq(vals, t)
                    && renumber@[t] <= t,
            forall|t: int| 0 <= t < i ==> nodes@[t] == vn_node(ons[t], vals),
            forall|t: int| i <= t < n ==> nodes@[t] == ons[t],
            forall|t: int| 0 <= t < i ==> node_ok(#[trigger] nodes@[t], t),
            forall|t: int| 0 <= t < i ==> !((#[trigger] nodes@[t]) is MontConstant),
    {
        if let Node::Op(op, a, b) = nodes[i] {
            nodes.set(i, Node::Op(op, renumber[a], renumber[b]));
        }
        proof {
            assert(node_ok(ons[i as int], i as int));
        }
    }

    let m = outputs.len();
    let mut k: usize = 0;
    while k < m
        invariant
            0 <= k <= m,
            m == oouts.len(),
            outputs@.len() == m,
            renumber@.len() == n,
            n == ons.len(),
            outputs_ok(oouts, n as nat),
            forall|t: int|
                0 <= t < n ==> #[trigger] renumber@[t] as int == first_eq(vals, t)
                    && renumber@[t] <= t,
            forall|t: int| k <= t < m ==> #[trigger] outputs@[t] == oouts[t],
            forall|t: int|
                0 <= t < k ==> #[trigger] outputs@[t] as int == first_eq(vals, oouts[t] as int)
                    && outputs@[t] < n,
        decreases m - k,
    {
        let o = outputs[k];
        outputs.set(k, renumber[o]);
        k = k + 1;
    }
    proof {
        assert(rand_eval_consistent(ons, vals));
    }
}

/// The result of constant discovery at one node, given the node and its two
/// random evaluations: an agreeing non-constant node is promoted.
pub open spec fn discovered_node(n: Node, x: U256, y: U256) -> Node {
    if n is Constant {
        n
    } else if x == y {
        Node::Constant(x)
    } else {
        n
    }
}

/// Probabilistic constant discovery: evaluate the graph under two
/// independent random assignments, and promote every non-constant node on
/// which the two runs agree to a constant with the agreed value.
pub fn constants(nodes: &mut Vec<Node>)
    requires
        valid_graph(old(nodes)@),
        no_mont(old(nodes)@),
    ensures
        final(nodes)@.len() == old(nodes)@.len(),
        valid_graph(final(nodes)@),
        no_mont(final(nodes)@),
        exists|va: Seq<U256>, vb: Seq<U256>|
            va.len() == old(nodes)@.len() && vb.len() == old(nodes)@.len()
                && rand_eval_consistent(old(nodes)@, u256_vals(va)) && rand_eval_consistent(
                old(nodes)@,
                u256_vals(vb),
            ) && (forall|i: int|
                0 <= i < old(nodes)@.len() ==> final(nodes)@[i] == discovered_node(
                    old(nodes)@[i],
                    va[i],
                    vb[i],
                )),
{
    let ghost ons = nodes@;
    let values_a = random_eval(nodes);
    let values_b = random_eval(nodes);
    let ghost va = values_a@;
    let ghost vb = values_b@;
    let n = nodes.len();
    for i in 0..n
        invariant
            n == ons.len(),
            nodes@.len() == n,
            values_a@ == va,
            values_b@ == vb,
            va.len() == n,
            vb.len() == n,
            valid_graph(ons),
            no_mont(ons),
            forall|t: int|
                0 <= t < i ==> #[trigger] nodes@[t] == discovered_node(ons[t], va[t], vb[t]),
            forall|t: int| i <= t < n ==> nodes@[t] == ons[t],
            forall|t: int| 0 <= t < i ==> node_ok(#[trigger] nodes@[t], t),
            forall|t: int| 0 <= t < i ==> !((#[trigger] nodes@[t]) is MontConstant),
    {
        let is_const = matches!(nodes[i], Node::Constant(_));
        if !is_const {
            if values_a[i] == values_b[i] {
                nodes.set(i, Node::Constant(values_a[i]));
            }
        }
        proof {
            assert(node_ok(ons[i as int], i as int));
            assert(nodes@[i as int] == discovered_node(ons[i as int], va[i as int], vb[i as int]));
        }
    }
}

/// The Montgomery-form image of a node: raw constants become field-element
/// constants with the same logical value; everything else is unchanged.
#[verifier::opaque]
pub open spec fn mont_node(n: Node) -> Node {
    match n {
        Node::Constant(c) => Node::MontConstant(
            FrElement { rep: u256_of_nat(c.val() % m_nat()) },
        ),
        _ => n,
    }
}

/// The converted form of a constant is its value reduced into the field.
pub proof fn lemma_mont_node_from(c: U256, f: FrElement)
    requires
        f.rep.val() == c.val() % m_nat(),
    ensures
        Node::MontConstant(f) == mont_node(Node::Constant(c)),
{
    reveal(mont_node);
    lemma_u256_roundtrip(f.rep);
}

/// Conversion only touches raw constants, and what it produces is a
/// reduced field element.
pub proof fn lemma_mont_node_shape(n: Node, i: int)
    ensures
        !(mont_node(n) is Constant),
        !(n is Constant) ==> mont_node(n) == n,
        n is Constant ==> (mont_node(n) is MontConstant
            && mont_node(n)->MontConstant_0.is_canonical()),
        node_ok(n, i) ==> node_ok(mont_node(n), i),
{
    reveal(mont_node);
    if n is Constant {
        let c = n->Constant_0;
        crate::field::lemma_u256_of_nat_val(c.val() % m_nat());
    }
}

/// Convert every raw constant to a Montgomery-form field element, leaving
/// all other nodes untouched.
#[verifier::rlimit(100)]
pub fn montgomery_form(nodes: &mut Vec<Node>)
    ensures
        final(nodes)@.len() == old(nodes)@.len(),
        forall|i: int| 0 <= i < old(nodes)@.len() ==> final(nodes)@[i] == mont_node(old(nodes)@[i]),
        valid_graph(old(nodes)@) ==> valid_graph(final(nodes)@),
        no_mont(old(nodes)@) ==> mont_canonical(final(nodes)@),
        no_mont(old(nodes)@) ==> (forall|i: int|
            0 <= i < final(nodes)@.len() ==> !((#[trigger] final(nodes)@[i]) is Constant)),
{
    let ghost ons = nodes@;
    let n = nodes.len();
    for i in 0..n
        invariant
            n == ons.len(),
            nodes@.len() == n,
            forall|t: int| 0 <= t < i ==> nodes@[t] == mont_node(ons[t]),
            forall|t: int| i <= t < n ==> nodes@[t] == ons[t],
    {
        if let Node::Constant(c) = nodes[i] {
            let f = fr_from_u256(&c);
            proof {
                lemma_mont_node_from(c, f);
            }
            nodes.set(i, Node::MontConstant(f));
        }
        proof {
            lemma_mont_node_shape(ons[i as int], i as int);
        }
    }
    proof {
        assert forall|j: int| 0 <= j < n implies !((#[trigger] nodes@[j]) is Constant) by {
            lemma_mont_node_shape(ons[j], j);
        }
        if valid_graph(ons) {
            assert forall|j: int| 0 <= j < n implies node_ok(#[trigger] nodes@[j], j) by {
                assert(node_ok(ons[j], j));
                lemma_mont_node_shape(ons[j], j);
            }
        }
        if no_mont(ons) {
            assert forall|j: int|
                0 <= j < n implies ((#[trigger] nodes@[j]) matches Node::MontConstant(f)
                ==> f.is_canonical()) by {
                lemma_mont_node_shape(ons[j], j);
                assert(!(ons[j] is MontConstant));
            }
        }
    }
}

/// The node sequence after value numbering under a given valuation.
pub open spec fn vn_graph(ns: Seq<Node>, vals: Seq<nat>) -> Seq<Node> {
    Seq::new(ns.len(), |i: int| vn_node(ns[i], vals))
}

/// The output indices after value numbering under a given valuation.
pub open spec fn vn_outputs(outs: Seq<usize>, vals: Seq<nat>) -> Seq<usize> {
    Seq::new(outs.len(), |k: int| first_eq(vals, outs[k] as int) as usize)
}

/// The node sequence after constant discovery under two valuations.
pub open spec fn discovered_graph(ns: Seq<Node>, va: Seq<U256>, vb: Seq<U256>) -> Seq<Node> {
    Seq::new(ns.len(), |i: int| discovered_node(ns[i], va[i], vb[i]))
}

/// The pipeline's whole data flow, given the random valuations the two
/// probabilistic passes drew: first dead-code elimination, then constant
/// folding, then value numbering under `vals`, then constant discovery
/// under `va` and `vb`, then dead-code elimination again, and finally
/// Montgomery-form conversion.
pub open spec fn optimize_trace(
    ns0: Seq<Node>,
    os0: Seq<usize>,
    nsf: Seq<Node>,
    osf: Seq<usize>,
    vals: Seq<nat>,
    va: Seq<U256>,
    vb: Seq<U256>,
) -> bool {
    let g1 = shaken_nodes(ns0, os0);
    let o1 = shaken_outputs(ns0, os0);
    let g2 = crate::laws::folded_graph(g1);
    let g3 = vn_graph(g2, vals);
    let o2 = vn_outputs(o1, vals);
    let g4 = discovered_graph(g3, va, vb);
    &&& rand_eval_consistent(g2, vals)
    &&& va.len() == g3.len()
    &&& vb.len() == g3.len()
    &&& rand_eval_consistent(g3, u256_vals(va))
    &&& rand_eval_consistent(g3, u256_vals(vb))
    &&& nsf == crate::laws::mont_graph(shaken_nodes(g4, o2))
    &&& osf == shaken_outputs(g4, o2)
}

/// Run the fixed optimization schedule: dead-code elimination, constant
/// folding, value numbering, constant discovery, dead-code elimination
/// again, and finally Montgomery-form conversion. The final graph and
/// outputs are exactly the pipeline's image of the input under the random
/// valuations that the two probabilistic passes drew.
#[verifier::rlimit(100)]
pub fn optimize(nodes: &mut Vec<Node>, outputs: &mut Vec<usize>)
    requires
        valid_graph(old(nodes)@),
        no_mont(old(nodes)@),
        outputs_ok(old(outputs)@, old(nodes)@.len() as nat),
        fold_ok(shaken_nodes(old(nodes)@, old(outputs)@)),
    ensures
        valid_graph(final(nodes)@),
        outputs_ok(final(outputs)@, final(nodes)@.len() as nat),
        mont_canonical(final(nodes)@),
        final(outputs)@.len() == old(outputs)@.len(),
        forall|i: int|
            0 <= i < final(nodes)@.len() ==> !((#[trigger] final(nodes)@[i]) is Constant),
        exists|vals: Seq<nat>, va: Seq<U256>, vb: Seq<U256>|
            optimize_trace(
                old(nodes)@,
                old(outputs)@,
                final(nodes)@,
                final(outputs)@,
                vals,
                va,
                vb,
            ),
{
    let ghost ns0 = nodes@;
    let ghost os0 = outputs@;
    tree_shake(nodes, outputs);
    let ghost g1 = nodes@;
    let ghost o1 = outputs@;
    propagate(nodes);
    let ghost g2 = nodes@;
    proof {
        assert(g2 =~= crate::laws::folded_graph(g1));
    }
    value_numbering(nodes, outputs);
    let ghost vals = choose|vals: Seq<nat>|
        rand_eval_consistent(g2, vals) && (forall|i: int|
            0 <= i < g2.len() ==> nodes@[i] == vn_node(g2[i], vals)) && (forall|k: int|
            0 <= k < o1.len() ==> outputs@[k] as int == first_eq(vals, o1[k] as int));
    let ghost g3 = nodes@;
    let ghost o2 = outputs@;
    proof {
        assert(g3 =~= vn_graph(g2, vals));
        assert(o2 =~= vn_outputs(o1, vals));
    }
    constants(nodes);
    let ghost (va, vb) = choose|va: Seq<U256>, vb: Seq<U256>|
        va.len() == g3.len() && vb.len() == g3.len() && rand_eval_consistent(g3, u256_vals(va))
            && rand_eval_consistent(g3, u256_vals(vb)) && (forall|i: int|
            0 <= i < g3.len() ==> nodes@[i] == discovered_node(g3[i], va[i], vb[i]));
    let ghost g4 = nodes@;
    proof {
        assert(g4 =~= discovered_graph(g3, va, vb));
    }
    tree_shake(nodes, outputs);
    let ghost g5 = nodes@;
    montgomery_form(nodes);
    proof {
        assert(nodes@ =~= crate::laws::mont_graph(g5));
        assert(optimize_trace(ns0, os0, nodes@, outputs@, vals, va, vb));
    }
}

} // verus!
