//! Laws of the optimizer, proved once and for all: the two evaluators
//! agree on canonical values, constant folding is exact, and the
//! deterministic passes preserve every node's computed value.

use vstd::prelude::*;
use vstd::arithmetic::div_mod::{lemma_div_is_ordered_by_denominator, lemma_mod_bound, lemma_small_mod};
use vstd::arithmetic::power2::{lemma2_to64, lemma_pow2_pos, pow2};
use crate::field::{m_nat, pow256, u256_of_nat, U256};
use crate::graph::{node_value, valid_graph, Node};
use crate::ops::{eval_ok, op_fr, op_raw, Operation};
use crate::passes::mont_node;
use crate::propagate::{const_val, folded_node};
use crate::graph::{node_ok, outputs_ok};
use crate::shake::{
    lemma_live_elim, lemma_live_intro, lemma_live_operands, lemma_live_output, lemma_rank_bounds,
    lemma_rank_monotone, lemma_shaken_prefix_index, lemma_shaken_prefix_len, live, mark_step,
    marks_after, op_refs, rank, renumber_node, shaken_nodes, shaken_outputs,
};

verus! {

/// The raw and the field evaluator agree on every operation, for canonical
/// operands: the field result is the raw result reduced into the field.
pub proof fn lemma_raw_fr_agree(op: Operation, a: nat, b: nat)
    requires
        a < m_nat(),
        b < m_nat(),
        eval_ok(op, b),
    ensures
        op_fr(op, a, b) == op_raw(op, a, b) % m_nat(),
{
    let m = m_nat();
    match op {
        Operation::Add => {
            lemma_mod_bound((a + b) as int, m as int);
            lemma_small_mod((a + b) % m, m);
        },
        Operation::Sub => {
            lemma_mod_bound((a + (m - b)) as int, m as int);
            lemma_small_mod(((a + m_nat() - b) as nat) % m, m);
        },
        Operation::Mul => {
            lemma_mod_bound((a * b) as int, m as int);
            lemma_small_mod((a * b) % m, m);
        },
        Operation::Shl => {
        },
        Operation::Shr => {
        },
        Operation::Band => {
        },
        Operation::MMul => {
        },
        _ => {
            assert(op_raw(op, a, b) <= 1);
            lemma_small_mod(op_raw(op, a, b), m);
        },
    }
}

/// A shift by zero, in either direction, returns the value unchanged.
pub proof fn lemma_shift_zero(a: nat)
    requires
        a < pow256(),
    ensures
        op_raw(Operation::Shl, a, 0) == a,
        op_raw(Operation::Shr, a, 0) == a,
{
    lemma2_to64();
    assert(pow2(0) == 1);
    assert(a * 1 == a);
    lemma_small_mod(a, pow256());
    assert(a as int / 1 == a);
}

/// Folding an addition of two constants yields their modular sum.
pub proof fn lemma_fold_add_constants(ns: Seq<Node>, i: int, a: usize, b: usize, x: U256, y: U256)
    requires
        a < i,
        b < i,
        0 <= i < ns.len(),
        ns[i] == Node::Op(Operation::Add, a, b),
        ns[a as int] == Node::Constant(x),
        ns[b as int] == Node::Constant(y),
    ensures
        folded_node(ns, i) == Node::Constant(u256_of_nat((x.val() + y.val()) % m_nat())),
{
    assert(folded_node(ns, a as int) == ns[a as int]);
    assert(folded_node(ns, b as int) == ns[b as int]);
}

/// A comparison of a node with itself folds to its constant truth value:
/// equality to one, strict inequality to zero.
pub proof fn lemma_fold_equal_operands(ns: Seq<Node>, i: int, a: usize)
    requires
        a < i,
        0 <= i < ns.len(),
    ensures
        ns[i] == Node::Op(Operation::Eq, a, a) ==> folded_node(ns, i) == Node::Constant(
            u256_of_nat(1),
        ),
        ns[i] == Node::Op(Operation::Lt, a, a) ==> folded_node(ns, i) == Node::Constant(
            u256_of_nat(0),
        ),
{
    let fa = folded_node(ns, a as int);
    if ns[i] == Node::Op(Operation::Eq, a, a) {
        if fa is Constant {
            assert(op_raw(Operation::Eq, const_val(fa), const_val(fa)) == 1);
        }
    }
    if ns[i] == Node::Op(Operation::Lt, a, a) {
        if fa is Constant {
            assert(op_raw(Operation::Lt, const_val(fa), const_val(fa)) == 0);
        }
    }
}

/// The graph after the folding pass.
pub open spec fn folded_graph(ns: Seq<Node>) -> Seq<Node> {
    Seq::new(ns.len(), |i: int| folded_node(ns, i))
}

/// Every constant that folding produces (or keeps) is a reduced residue.
pub open spec fn folded_consts_canonical(ns: Seq<Node>) -> bool {
    forall|i: int|
        0 <= i < ns.len() ==> (#[trigger] folded_node(ns, i) matches Node::Constant(c)
            ==> c.val() < m_nat())
}

/// Every raw operation result fits in 256 bits.
pub proof fn lemma_op_raw_bound(op: Operation, a: nat, b: nat)
    requires
        a < pow256(),
        b < pow256(),
    ensures
        op_raw(op, a, b) < pow256(),
{
    match op {
        Operation::Add => {
            lemma_mod_bound((a + b) as int, m_nat() as int);
        },
        Operation::Sub => {
            lemma_mod_bound((a + crate::ops::sub_wrap(m_nat(), b)) as int, m_nat() as int);
        },
        Operation::Mul => {
            lemma_mod_bound((a * b) as int, m_nat() as int);
        },
        Operation::Shl => {
            if b < 256 {
                lemma_mod_bound((a * pow2(b)) as int, pow256() as int);
            }
        },
        Operation::Shr => {
            if b < 256 {
                lemma_pow2_pos(b);
                lemma_div_is_ordered_by_denominator(a as int, 1, pow2(b) as int);
            }
        },
        _ => {
        },
    }
}

/// Constant folding changes no node's computed value, as long as every
/// constant it works with is a reduced residue.
pub proof fn lemma_propagate_preserves_value(ns: Seq<Node>, inputs: Seq<nat>, i: int)
    requires
        valid_graph(ns),
        crate::propagate::fold_ok(ns),
        folded_consts_canonical(ns),
        0 <= i < ns.len(),
    ensures
        node_value(folded_graph(ns), inputs, i) == node_value(ns, inputs, i),
    decreases i,
{
    match ns[i] {
        Node::Op(op, a, b) => {
            assert(crate::graph::node_ok(ns[i], i));
            lemma_propagate_preserves_value(ns, inputs, a as int);
            lemma_propagate_preserves_value(ns, inputs, b as int);
            let fa = folded_node(ns, a as int);
            let fb = folded_node(ns, b as int);
            if fa is Constant && fb is Constant {
                let ca = fa->Constant_0;
                let cb = fb->Constant_0;
                assert(node_value(ns, inputs, a as int) == ca.val() % m_nat());
                assert(node_value(ns, inputs, b as int) == cb.val() % m_nat());
                lemma_small_mod(ca.val(), m_nat());
                lemma_small_mod(cb.val(), m_nat());
                lemma_op_raw_bound(op, ca.val(), cb.val());
                crate::field::lemma_u256_of_nat_val(op_raw(op, ca.val(), cb.val()));
                lemma_raw_fr_agree(op, ca.val(), cb.val());
                assert(folded_node(ns, i) == Node::Constant(
                    u256_of_nat(op_raw(op, const_val(fa), const_val(fb))),
                ));
            } else if a == b && crate::propagate::equal_operand_fold(op) is Some {
                let v = node_value(ns, inputs, a as int);
                assert(op_fr(op, v, v) == crate::ops::bool_nat(
                    crate::propagate::equal_operand_fold(op)->Some_0,
                ));
                crate::field::lemma_u256_of_nat_val(1);
                crate::field::lemma_u256_of_nat_val(0);
                lemma_small_mod(1, m_nat());
                lemma_small_mod(0, m_nat());
            } else {
                assert(folded_node(ns, i) == ns[i]);
            }
        },
        _ => {
            assert(folded_node(ns, i) == ns[i]);
        },
    }
}

/// The graph with every raw constant converted to Montgomery form.
pub open spec fn mont_graph(ns: Seq<Node>) -> Seq<Node> {
    Seq::new(ns.len(), |i: int| mont_node(ns[i]))
}

/// Montgomery conversion changes no node's computed value.
pub proof fn lemma_mont_preserves_value(ns: Seq<Node>, inputs: Seq<nat>, i: int)
    requires
        0 <= i < ns.len(),
    ensures
        node_value(mont_graph(ns), inputs, i) == node_value(ns, inputs, i),
    decreases i,
{
    reveal(crate::passes::mont_node);
    match ns[i] {
        Node::Constant(c) => {
            crate::field::lemma_u256_of_nat_val(c.val() % m_nat());
            lemma_mod_bound(c.val() as int, m_nat() as int);
        },
        Node::Op(op, a, b) => {
            if 0 <= a && (a as int) < i && 0 <= b && (b as int) < i {
                lemma_mont_preserves_value(ns, inputs, a as int);
                lemma_mont_preserves_value(ns, inputs, b as int);
            }
        },
        _ => {
        },
    }
}

/// Montgomery conversion leaves the backward marking scan unchanged: it
/// touches no operation node and no output index.
proof fn lemma_mont_marks(ns: Seq<Node>, outs: Seq<usize>, j: int)
    ensures
        marks_after(mont_graph(ns), outs, j) == marks_after(ns, outs, j),
    decreases ns.len() - j,
{
    if j < ns.len() {
        lemma_mont_marks(ns, outs, j + 1);
        if 0 <= j {
            crate::passes::lemma_mont_node_shape(ns[j], j);
            assert(mark_step(mont_graph(ns), marks_after(ns, outs, j + 1), j) == mark_step(
                ns,
                marks_after(ns, outs, j + 1),
                j,
            ));
        }
    } else {
        assert(marks_after(mont_graph(ns), outs, j) =~= marks_after(ns, outs, j));
    }
}

/// Montgomery conversion preserves liveness, so reachability facts about
/// the graph before the final conversion carry over to the result.
pub proof fn lemma_mont_preserves_live(ns: Seq<Node>, outs: Seq<usize>, i: int)
    ensures
        live(mont_graph(ns), outs, i) == live(ns, outs, i),
{
    lemma_mont_marks(ns, outs, 0);
}

/// Dead-code elimination changes no live node's computed value: the node at
/// its new index computes what it computed at its old index.
pub proof fn lemma_shake_preserves_value(ns: Seq<Node>, outs: Seq<usize>, inputs: Seq<nat>, i: int)
    requires
        valid_graph(ns),
        0 <= i < ns.len(),
        live(ns, outs, i),
    ensures
        node_value(shaken_nodes(ns, outs), inputs, rank(ns, outs, i)) == node_value(ns, inputs, i),
    decreases i,
{
    lemma_shaken_prefix_index(ns, outs, ns.len() as int, i);
    let new_ns = shaken_nodes(ns, outs);
    let r = rank(ns, outs, i);
    match ns[i] {
        Node::Op(op, a, b) => {
            lemma_live_operands(ns, outs, i);
            lemma_rank_monotone(ns, outs, a as int, i);
            lemma_rank_monotone(ns, outs, b as int, i);
            crate::shake::lemma_rank_bounds(ns, outs, a as int);
            crate::shake::lemma_rank_bounds(ns, outs, b as int);
            lemma_shake_preserves_value(ns, outs, inputs, a as int);
            lemma_shake_preserves_value(ns, outs, inputs, b as int);
            assert(new_ns[r] == Node::Op(
                op,
                rank(ns, outs, a as int) as usize,
                rank(ns, outs, b as int) as usize,
            ));
        },
        _ => {
            assert(new_ns[r] == ns[i]);
        },
    }
}

/// Dead-code elimination preserves every output's value.
pub proof fn lemma_shake_preserves_outputs(
    ns: Seq<Node>,
    outs: Seq<usize>,
    inputs: Seq<nat>,
    k: int,
)
    requires
        valid_graph(ns),
        0 <= k < outs.len(),
        outs[k] < ns.len(),
    ensures
        node_value(shaken_nodes(ns, outs), inputs, shaken_outputs(ns, outs)[k] as int)
            == node_value(ns, inputs, outs[k] as int),
{
    crate::shake::lemma_live_output(ns, outs, outs[k] as int);
    crate::shake::lemma_rank_bounds(ns, outs, outs[k] as int);
    lemma_shake_preserves_value(ns, outs, inputs, outs[k] as int);
}

/// The pipeline's deterministic tail changes no output's value: after the
/// final dead-code elimination and Montgomery conversion of a graph, each
/// rewritten output index computes what its old index computed.
pub proof fn lemma_pipeline_tail_preserves_outputs(
    ns: Seq<Node>,
    outs: Seq<usize>,
    inputs: Seq<nat>,
    k: int,
)
    requires
        valid_graph(ns),
        0 <= k < outs.len(),
        outs[k] < ns.len(),
    ensures
        node_value(mont_graph(shaken_nodes(ns, outs)), inputs, shaken_outputs(ns, outs)[k] as int)
            == node_value(ns, inputs, outs[k] as int),
{
    lemma_shake_preserves_outputs(ns, outs, inputs, k);
    let o = outs[k] as int;
    crate::shake::lemma_live_output(ns, outs, o);
    crate::shake::lemma_rank_bounds(ns, outs, o);
    lemma_rank_monotone(ns, outs, o, ns.len() as int);
    lemma_shaken_prefix_len(ns, outs, ns.len() as int);
    lemma_mont_preserves_value(shaken_nodes(ns, outs), inputs, rank(ns, outs, o));
}

/// Every new index is the rank of exactly one live old index.
pub proof fn lemma_rank_inverse(ns: Seq<Node>, outs: Seq<usize>, i: int, k: int) -> (t: int)
    requires
        0 <= i,
        0 <= k < rank(ns, outs, i),
    ensures
        0 <= t < i,
        live(ns, outs, t),
        rank(ns, outs, t) == k,
    decreases i,
{
    lemma_rank_bounds(ns, outs, i);
    if live(ns, outs, i - 1) && k == rank(ns, outs, i - 1) {
        i - 1
    } else {
        lemma_rank_bounds(ns, outs, i - 1);
        lemma_rank_inverse(ns, outs, i - 1, k)
    }
}

/// The compacted graph again satisfies the backward-reference invariant.
pub proof fn lemma_shaken_valid(ns: Seq<Node>, outs: Seq<usize>)
    requires
        valid_graph(ns),
    ensures
        valid_graph(shaken_nodes(ns, outs)),
{
    let new_ns = shaken_nodes(ns, outs);
    lemma_shaken_prefix_len(ns, outs, ns.len() as int);
    assert forall|k: int| 0 <= k < new_ns.len() implies node_ok(#[trigger] new_ns[k], k) by {
        let t = lemma_rank_inverse(ns, outs, ns.len() as int, k);
        lemma_shaken_prefix_index(ns, outs, ns.len() as int, t);
        assert(new_ns[k] == renumber_node(ns, outs, ns[t]));
        if ns[t] is Op {
            lemma_live_operands(ns, outs, t);
            assert(node_ok(ns[t], t));
            lemma_rank_monotone(ns, outs, ns[t]->Op_1 as int, t);
            lemma_rank_monotone(ns, outs, ns[t]->Op_2 as int, t);
            lemma_rank_bounds(ns, outs, ns[t]->Op_1 as int);
            lemma_rank_bounds(ns, outs, ns[t]->Op_2 as int);
        }
    }
}

/// A live node stays live at its new index after compaction.
pub proof fn lemma_live_shaken(ns: Seq<Node>, outs: Seq<usize>, t: int)
    requires
        ns.len() <= usize::MAX,
        valid_graph(ns),
        0 <= t < ns.len(),
        live(ns, outs, t),
    ensures
        live(shaken_nodes(ns, outs), shaken_outputs(ns, outs), rank(ns, outs, t)),
    decreases ns.len() - t,
{
    let new_ns = shaken_nodes(ns, outs);
    let new_outs = shaken_outputs(ns, outs);
    lemma_shaken_prefix_len(ns, outs, ns.len() as int);
    lemma_rank_bounds(ns, outs, t);
    lemma_rank_monotone(ns, outs, t, ns.len() as int);
    if outs.contains(t as usize) {
        let k = choose|k: int| 0 <= k < outs.len() && outs[k] == t as usize;
        assert(new_outs[k] == rank(ns, outs, outs[k] as int) as usize);
        assert(new_outs[k] == rank(ns, outs, t) as usize);
        assert(new_outs.contains(rank(ns, outs, t) as usize));
        lemma_live_output(new_ns, new_outs, rank(ns, outs, t));
    } else {
        let j = lemma_live_elim(ns, outs, t);
        lemma_live_shaken(ns, outs, j);
        lemma_shaken_prefix_index(ns, outs, ns.len() as int, j);
        assert(new_ns[rank(ns, outs, j)] == renumber_node(ns, outs, ns[j]));
        assert(op_refs(renumber_node(ns, outs, ns[j]), rank(ns, outs, t)));
        lemma_rank_monotone(ns, outs, t, j);
        lemma_shaken_valid(ns, outs);
        lemma_live_intro(new_ns, new_outs, rank(ns, outs, t), rank(ns, outs, j));
    }
}

/// After dead-code elimination every remaining node is reachable backwards
/// from some output: the pass removes all dead code and nothing else.
pub proof fn lemma_shaken_all_live(ns: Seq<Node>, outs: Seq<usize>, k: int)
    requires
        ns.len() <= usize::MAX,
        valid_graph(ns),
        0 <= k < shaken_nodes(ns, outs).len(),
    ensures
        live(shaken_nodes(ns, outs), shaken_outputs(ns, outs), k),
{
    lemma_shaken_prefix_len(ns, outs, ns.len() as int);
    let t = lemma_rank_inverse(ns, outs, ns.len() as int, k);
    lemma_live_shaken(ns, outs, t);
}

/// When every node is live, ranks are the identity.
proof fn lemma_rank_all_live(ns: Seq<Node>, outs: Seq<usize>, i: int)
    requires
        0 <= i <= ns.len(),
        forall|t: int| 0 <= t < ns.len() ==> live(ns, outs, t),
    ensures
        rank(ns, outs, i) == i,
    decreases i,
{
    if i > 0 {
        lemma_rank_all_live(ns, outs, i - 1);
    }
}

/// When every node is live, dead-code elimination is the identity.
proof fn lemma_all_live_identity(ns: Seq<Node>, outs: Seq<usize>)
    requires
        ns.len() <= usize::MAX,
        valid_graph(ns),
        outputs_ok(outs, ns.len() as nat),
        forall|t: int| 0 <= t < ns.len() ==> live(ns, outs, t),
    ensures
        shaken_nodes(ns, outs) == ns,
        shaken_outputs(ns, outs) == outs,
    decreases ns.len(),
{
    lemma_shaken_prefix_len(ns, outs, ns.len() as int);
    lemma_rank_all_live(ns, outs, ns.len() as int);
    assert forall|i: int| 0 <= i < ns.len() implies shaken_nodes(ns, outs)[i] == ns[i] by {
        lemma_rank_all_live(ns, outs, i);
        lemma_shaken_prefix_index(ns, outs, ns.len() as int, i);
        if ns[i] is Op {
            assert(node_ok(ns[i], i));
            lemma_rank_all_live(ns, outs, ns[i]->Op_1 as int);
            lemma_rank_all_live(ns, outs, ns[i]->Op_2 as int);
        }
    }
    assert(shaken_nodes(ns, outs) =~= ns);
    assert forall|k: int| 0 <= k < outs.len() implies shaken_outputs(ns, outs)[k] == outs[k] by {
        lemma_rank_all_live(ns, outs, outs[k] as int);
    }
    assert(shaken_outputs(ns, outs) =~= outs);
}

/// Dead-code elimination is idempotent: a second run returns the first
/// run's graph and outputs unchanged.
pub proof fn lemma_tree_shake_idempotent(ns: Seq<Node>, outs: Seq<usize>)
    requires
        ns.len() <= usize::MAX,
        valid_graph(ns),
        outputs_ok(outs, ns.len() as nat),
    ensures
        shaken_nodes(shaken_nodes(ns, outs), shaken_outputs(ns, outs)) == shaken_nodes(ns, outs),
        shaken_outputs(shaken_nodes(ns, outs), shaken_outputs(ns, outs)) == shaken_outputs(
            ns,
            outs,
        ),
{
    let ns2 = shaken_nodes(ns, outs);
    let outs2 = shaken_outputs(ns, outs);
    lemma_shaken_valid(ns, outs);
    lemma_shaken_prefix_len(ns, outs, ns.len() as int);
    lemma_rank_bounds(ns, outs, ns.len() as int);
    assert forall|k: int| 0 <= k < outs2.len() implies (#[trigger] outs2[k]) < ns2.len() by {
        lemma_live_output(ns, outs, outs[k] as int);
        lemma_rank_bounds(ns, outs, outs[k] as int);
        lemma_rank_monotone(ns, outs, outs[k] as int, ns.len() as int);
    }
    assert forall|t: int| 0 <= t < ns2.len() implies live(ns2, outs2, t) by {
        lemma_shaken_all_live(ns, outs, t);
    }
    lemma_all_live_identity(ns2, outs2);
}

} // verus!
