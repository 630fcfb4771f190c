//! Dead-code elimination: mark every node reachable backwards from an
//! output, drop the rest, and renumber the survivors densely.

use vstd::prelude::*;
use crate::graph::{no_mont, node_ok, outputs_ok, valid_graph, Node};
use crate::ops::Operation;

verus! {

/// Whether node `n` references index `i` as an operand.
pub open spec fn op_refs(n: Node, i: int) -> bool {
    match n {
        Node::Op(_, a, b) => a == i || b == i,
        _ => false,
    }
}

/// One step of the backward marking scan: if node `j` is marked, mark its
/// operands.
pub open spec fn mark_step(ns: Seq<Node>, m: Seq<bool>, j: int) -> Seq<bool> {
    if 0 <= j < ns.len() && m[j] {
        match ns[j] {
            Node::Op(_, a, b) => if a < j && b < j {
                m.update(a as int, true).update(b as int, true)
            } else {
                m
            },
            _ => m,
        }
    } else {
        m
    }
}

/// The marks after the backward scan has processed every index at or above
/// `j`, starting from the outputs.
pub open spec fn marks_after(ns: Seq<Node>, outs: Seq<usize>, j: int) -> Seq<bool>
    decreases ns.len() - j,
{
    if j >= ns.len() {
        Seq::new(ns.len(), |i: int| outs.contains(i as usize))
    } else {
        mark_step(ns, marks_after(ns, outs, j + 1), j)
    }
}

/// A node is live when the backward scan marks it: it is an output, or it
/// is reachable backwards from one through operand references.
pub open spec fn live(ns: Seq<Node>, outs: Seq<usize>, i: int) -> bool {
    0 <= i < ns.len() && marks_after(ns, outs, 0)[i]
}

/// The number of live nodes strictly before index `i`: the new index that
/// a live node at `i` receives after compaction.
pub open spec fn rank(ns: Seq<Node>, outs: Seq<usize>, i: int) -> int
    decreases i,
{
    if i <= 0 {
        0
    } else {
        rank(ns, outs, i - 1) + if live(ns, outs, i - 1) {
            1int
        } else {
            0int
        }
    }
}

/// A node with its operand references rewritten to the new indices.
pub open spec fn renumber_node(ns: Seq<Node>, outs: Seq<usize>, n: Node) -> Node {
    match n {
        Node::Op(op, a, b) => Node::Op(
            op,
            rank(ns, outs, a as int) as usize,
            rank(ns, outs, b as int) as usize,
        ),
        _ => n,
    }
}

/// The surviving, renumbered nodes among the first `i` of the graph.
pub open spec fn shaken_prefix(ns: Seq<Node>, outs: Seq<usize>, i: int) -> Seq<Node>
    decreases i,
{
    if i <= 0 {
        Seq::empty()
    } else {
        shaken_prefix(ns, outs, i - 1) + if live(ns, outs, i - 1) {
            seq![renumber_node(ns, outs, ns[i - 1])]
        } else {
            Seq::empty()
        }
    }
}

/// The node sequence after dead-code elimination.
pub open spec fn shaken_nodes(ns: Seq<Node>, outs: Seq<usize>) -> Seq<Node> {
    shaken_prefix(ns, outs, ns.len() as int)
}

/// The output indices after dead-code elimination.
pub open spec fn shaken_outputs(ns: Seq<Node>, outs: Seq<usize>) -> Seq<usize> {
    Seq::new(outs.len(), |k: int| rank(ns, outs, outs[k] as int) as usize)
}

/// The marks always form a sequence as long as the graph.
pub proof fn lemma_marks_len(ns: Seq<Node>, outs: Seq<usize>, j: int)
    ensures
        marks_after(ns, outs, j).len() == ns.len(),
    decreases ns.len() - j,
{
    if j >= ns.len() {
        assert(marks_after(ns, outs, j) == Seq::new(
            ns.len(),
            |i: int| outs.contains(i as usize),
        ));
    } else {
        lemma_marks_len(ns, outs, j + 1);
        assert(marks_after(ns, outs, j) == mark_step(ns, marks_after(ns, outs, j + 1), j));
        assert(mark_step(ns, marks_after(ns, outs, j + 1), j).len() == ns.len());
    }
}

/// Scanning further down never clears a mark.
pub proof fn lemma_marks_monotone(ns: Seq<Node>, outs: Seq<usize>, j: int, j2: int, t: int)
    requires
        j <= j2,
        0 <= t < ns.len(),
        marks_after(ns, outs, j2)[t],
    ensures
        marks_after(ns, outs, j)[t],
    decreases j2 - j,
{
    lemma_marks_len(ns, outs, j + 1);
    if j < j2 {
        lemma_marks_monotone(ns, outs, j + 1, j2, t);
    }
}

/// A mark at position `t` is settled once the scan reaches `t`: in a valid
/// graph, steps at or below `t` only mark lower positions.
pub proof fn lemma_marks_stable(ns: Seq<Node>, outs: Seq<usize>, j: int, t: int)
    requires
        valid_graph(ns),
        0 <= t < ns.len(),
        j <= t + 1,
    ensures
        marks_after(ns, outs, j)[t] == marks_after(ns, outs, t + 1)[t],
    decreases t + 1 - j,
{
    if j <= t {
        lemma_marks_stable(ns, outs, j + 1, t);
        lemma_marks_len(ns, outs, j + 1);
        if 0 <= j && marks_after(ns, outs, j + 1)[j] {
            assert(node_ok(ns[j], j));
        }
    }
}

/// An output node is live.
pub proof fn lemma_live_output(ns: Seq<Node>, outs: Seq<usize>, i: int)
    requires
        0 <= i < ns.len(),
        outs.contains(i as usize),
    ensures
        live(ns, outs, i),
{
    lemma_marks_len(ns, outs, ns.len() as int);
    assert(marks_after(ns, outs, ns.len() as int)[i]);
    lemma_marks_monotone(ns, outs, 0, ns.len() as int, i);
}

/// A node referenced by a live later node is live.
pub proof fn lemma_live_intro(ns: Seq<Node>, outs: Seq<usize>, i: int, j: int)
    requires
        valid_graph(ns),
        0 <= i < ns.len(),
        i < j < ns.len(),
        live(ns, outs, j),
        op_refs(ns[j], i),
    ensures
        live(ns, outs, i),
{
    lemma_marks_stable(ns, outs, 0, j);
    lemma_marks_len(ns, outs, j + 1);
    assert(marks_after(ns, outs, j + 1)[j]);
    assert(marks_after(ns, outs, j)[i]);
    lemma_marks_monotone(ns, outs, 0, j, i);
}

/// A marked node that is not an output was marked by a live node at or
/// above the scan position.
pub proof fn lemma_marked_source(ns: Seq<Node>, outs: Seq<usize>, j: int, t: int) -> (j2: int)
    requires
        valid_graph(ns),
        0 <= t < ns.len(),
        0 <= j <= ns.len(),
        marks_after(ns, outs, j)[t],
        !outs.contains(t as usize),
    ensures
        j <= j2 < ns.len(),
        live(ns, outs, j2),
        op_refs(ns[j2], t),
    decreases ns.len() - j,
{
    lemma_marks_len(ns, outs, j);
    lemma_marks_len(ns, outs, j + 1);
    if j == ns.len() {
        assert(false);
        0
    } else {
        if marks_after(ns, outs, j + 1)[t] {
            lemma_marked_source(ns, outs, j + 1, t)
        } else {
            assert(marks_after(ns, outs, j + 1)[j]);
            lemma_marks_stable(ns, outs, 0, j);
            assert(live(ns, outs, j));
            assert(op_refs(ns[j], t));
            j
        }
    }
}

/// A live node that is not an output is referenced by some live later node.
pub proof fn lemma_live_elim(ns: Seq<Node>, outs: Seq<usize>, i: int) -> (j: int)
    requires
        valid_graph(ns),
        live(ns, outs, i),
        !outs.contains(i as usize),
    ensures
        i < j < ns.len(),
        live(ns, outs, j),
        op_refs(ns[j], i),
{
    let j = lemma_marked_source(ns, outs, 0, i);
    assert(node_ok(ns[j], j));
    j
}

/// Ranks start at zero and never exceed the index.
pub proof fn lemma_rank_bounds(ns: Seq<Node>, outs: Seq<usize>, i: int)
    requires
        0 <= i,
    ensures
        0 <= rank(ns, outs, i) <= i,
    decreases i,
{
    if i > 0 {
        lemma_rank_bounds(ns, outs, i - 1);
    }
}

/// Rank is monotone, and strictly so past a live index.
pub proof fn lemma_rank_monotone(ns: Seq<Node>, outs: Seq<usize>, i: int, j: int)
    requires
        0 <= i <= j,
    ensures
        rank(ns, outs, i) <= rank(ns, outs, j),
        live(ns, outs, i) && i < j ==> rank(ns, outs, i) < rank(ns, outs, j),
    decreases j,
{
    if i < j {
        lemma_rank_monotone(ns, outs, i, j - 1);
    }
}

/// The compacted prefix holds exactly `rank(i)` nodes.
pub proof fn lemma_shaken_prefix_len(ns: Seq<Node>, outs: Seq<usize>, i: int)
    requires
        0 <= i,
    ensures
        shaken_prefix(ns, outs, i).len() == rank(ns, outs, i),
    decreases i,
{
    if i > 0 {
        lemma_shaken_prefix_len(ns, outs, i - 1);
    }
}

/// A live node at old index `j` stands at new index `rank(j)`.
pub proof fn lemma_shaken_prefix_index(ns: Seq<Node>, outs: Seq<usize>, i: int, j: int)
    requires
        0 <= j < i,
        live(ns, outs, j),
    ensures
        shaken_prefix(ns, outs, i).len() == rank(ns, outs, i),
        rank(ns, outs, j) < rank(ns, outs, i),
        shaken_prefix(ns, outs, i)[rank(ns, outs, j)] == renumber_node(ns, outs, ns[j]),
    decreases i,
{
    lemma_shaken_prefix_len(ns, outs, i);
    lemma_rank_monotone(ns, outs, j, i);
    if j == i - 1 {
        lemma_shaken_prefix_len(ns, outs, i - 1);
        assert(shaken_prefix(ns, outs, i) == shaken_prefix(ns, outs, i - 1) + seq![
            renumber_node(ns, outs, ns[i - 1]),
        ]);
        assert(shaken_prefix(ns, outs, i)[rank(ns, outs, j)] == seq![
            renumber_node(ns, outs, ns[j]),
        ][0]);
    } else {
        lemma_shaken_prefix_index(ns, outs, i - 1, j);
        lemma_shaken_prefix_len(ns, outs, i - 1);
        lemma_rank_monotone(ns, outs, j, i - 1);
        lemma_rank_bounds(ns, outs, j);
        assert(shaken_prefix(ns, outs, i) == shaken_prefix(ns, outs, i - 1) + (if live(
            ns,
            outs,
            i - 1,
        ) {
            seq![renumber_node(ns, outs, ns[i - 1])]
        } else {
            Seq::empty()
        }));
        let s1 = shaken_prefix(ns, outs, i - 1);
        let s2: Seq<Node> = if live(ns, outs, i - 1) {
            seq![renumber_node(ns, outs, ns[i - 1])]
        } else {
            Seq::empty()
        };
        assert(s1.add(s2)[rank(ns, outs, j)] == s1[rank(ns, outs, j)]);
        assert(shaken_prefix(ns, outs, i)[rank(ns, outs, j)] == shaken_prefix(ns, outs, i - 1)[rank(
            ns,
            outs,
            j,
        )]);
    }
}

/// The operands of a live operation node are live.
pub proof fn lemma_live_operands(ns: Seq<Node>, outs: Seq<usize>, i: int)
    requires
        valid_graph(ns),
        0 <= i < ns.len(),
        live(ns, outs, i),
        ns[i] is Op,
    ensures
        live(ns, outs, ns[i]->Op_1 as int),
        live(ns, outs, ns[i]->Op_2 as int),
{
    let a = ns[i]->Op_1 as int;
    let b = ns[i]->Op_2 as int;
    assert(node_ok(ns[i], i));
    assert(op_refs(ns[i], a));
    assert(op_refs(ns[i], b));
    lemma_live_intro(ns, outs, a, i);
    lemma_live_intro(ns, outs, b, i);
}

/// Remove every node not reachable backwards from an output, keep the
/// survivors in order, and rewrite all operand and output indices.
pub fn tree_shake(nodes: &mut Vec<Node>, outputs: &mut Vec<usize>)
    requires
        valid_graph(old(nodes)@),
        outputs_ok(old(outputs)@, old(nodes)@.len() as nat),
    ensures
        final(nodes)@ == shaken_nodes(old(nodes)@, old(outputs)@),
        final(outputs)@ == shaken_outputs(old(nodes)@, old(outputs)@),
        valid_graph(final(nodes)@),
        outputs_ok(final(outputs)@, final(nodes)@.len() as nat),
        no_mont(old(nodes)@) ==> no_mont(final(nodes)@),
{
    let ghost ons = nodes@;
    let ghost oouts = outputs@;
    let n = nodes.len();

    // Mark the outputs.
    let mut used: Vec<bool> = Vec::new();
    for i in 0..n
        invariant
            used@.len() == i,
            forall|t: int| 0 <= t < i ==> !(#[trigger] used@[t]),
    {
        used.push(false);
    }
    let m = outputs.len();
    for k in 0..m
        invariant
            m == oouts.len(),
            oouts == outputs@,
            ons == nodes@,
            n == ons.len(),
            used@.len() == n,
            outputs_ok(oouts, n as nat),
            forall|t: int|
                0 <= t < n ==> (#[trigger] used@[t] == exists|k2: int|
                    0 <= k2 < k && oouts[k2] == t),
    {
        let o = outputs[k];
        used.set(o, true);
        proof {
            assert forall|t: int| 0 <= t < n implies (#[trigger] used@[t] == exists|k2: int|
                0 <= k2 < k + 1 && oouts[k2] == t) by {
                if t == o {
                    assert(oouts[k as int] == t);
                } else {
                    assert forall|k2: int| 0 <= k2 < k + 1 && oouts[k2] == t implies k2 < k by {}
                }
            }
        }
    }
    proof {
        lemma_marks_len(ons, oouts, n as int);
        assert forall|t: int|
            0 <= t < n implies used@[t] == marks_after(ons, oouts, n as int)[t] by {
            if used@[t] {
                let k2 = choose|k2: int| 0 <= k2 < m && oouts[k2] == t;
                assert(oouts[k2] == t as usize);
            }
            if oouts.contains(t as usize) {
                let k2 = choose|k2: int| 0 <= k2 < oouts.len() && oouts[k2] == t as usize;
                assert(0 <= k2 < m && oouts[k2] == t);
            }
        }
        assert(used@ =~= marks_after(ons, oouts, n as int));
    }

    // Mark operands backwards: every reference points to a lower index.
    let mut j = n;
    while j > 0
        invariant
            0 <= j <= n,
            used@.len() == n,
            ons == nodes@,
            oouts == outputs@,
            n == ons.len(),
            valid_graph(ons),
            used@ == marks_after(ons, oouts, j as int),
        decreases j,
    {
        let i2 = j - 1;
        if used[i2] {
            if let Node::Op(_, a, b) = nodes[i2] {
                proof {
                    assert(node_ok(ons[i2 as int], i2 as int));
                }
                used.set(a, true);
                used.set(b, true);
            }
        }
        proof {
            assert(used@ =~= mark_step(ons, marks_after(ons, oouts, i2 + 1), i2 as int));
            assert(used@ == marks_after(ons, oouts, i2 as int));
        }
        j = i2;
    }
    proof {
        lemma_marks_len(ons, oouts, 0);
        assert(forall|t: int| 0 <= t < n ==> used@[t] == live(ons, oouts, t));
    }

    // New index for every old index: the number of live nodes before it.
    let mut renumber: Vec<usize> = Vec::new();
    let mut count: usize = 0;
    for i in 0..n
        invariant
            used@.len() == n,
            n == ons.len(),
            forall|t: int| 0 <= t < n ==> used@[t] == live(ons, oouts, t),
            renumber@.len() == i,
            count as int == rank(ons, oouts, i as int),
            forall|t: int| 0 <= t < i ==> #[trigger] renumber@[t] as int == rank(ons, oouts, t),
    {
        proof {
            lemma_rank_bounds(ons, oouts, i as int);
        }
        renumber.push(count);
        if used[i] {
            count = count + 1;
        }
    }

    // Compact: keep the live nodes in order, rewriting their operands.
    let mut compacted: Vec<Node> = Vec::new();
    for i in 0..n
        invariant
            used@.len() == n,
            renumber@.len() == n,
            ons == nodes@,
            n == ons.len(),
            valid_graph(ons),
            forall|t: int| 0 <= t < n ==> used@[t] == live(ons, oouts, t),
            forall|t: int| 0 <= t < n ==> #[trigger] renumber@[t] as int == rank(ons, oouts, t),
            compacted@ == shaken_prefix(ons, oouts, i as int),
            forall|t: int| 0 <= t < compacted@.len() ==> node_ok(#[trigger] compacted@[t], t),
            no_mont(ons) ==> (forall|t: int|
                0 <= t < compacted@.len() ==> !((#[trigger] compacted@[t]) is MontConstant)),
    {
        proof {
            lemma_shaken_prefix_len(ons, oouts, i as int);
        }
        if used[i] {
            let node = nodes[i];
            match node {
                Node::Op(op, a, b) => {
                    proof {
                        lemma_live_operands(ons, oouts, i as int);
                        lemma_rank_monotone(ons, oouts, a as int, i as int);
                        lemma_rank_monotone(ons, oouts, b as int, i as int);
                        lemma_rank_bounds(ons, oouts, a as int);
                        lemma_rank_bounds(ons, oouts, b as int);
                    }
                    compacted.push(Node::Op(op, renumber[a], renumber[b]));
                },
                _ => {
                    compacted.push(node);
                },
            }
            proof {
                assert(compacted@ =~= shaken_prefix(ons, oouts, i + 1));
            }
        } else {
            proof {
                assert(compacted@ =~= shaken_prefix(ons, oouts, i + 1));
            }
        }
    }
    *nodes = compacted;

    // Rewrite the outputs through the same renumbering.
    let mut k: usize = 0;
    while k < m
        invariant
            0 <= k <= m,
            m == oouts.len(),
            outputs@.len() == m,
            renumber@.len() == n,
            n == ons.len(),
            outputs_ok(oouts, n as nat),
            forall|t: int| 0 <= t < n ==> #[trigger] renumber@[t] as int == rank(ons, oouts, t),
            forall|t: int| k <= t < m ==> #[trigger] outputs@[t] == oouts[t],
            forall|t: int|
                0 <= t < k ==> #[trigger] outputs@[t] as int == rank(ons, oouts, oouts[t] as int),
        decreases m - k,
    {
        let o = outputs[k];
        let r = renumber[o];
        outputs.set(k, r);
        k = k + 1;
    }
    proof {
        assert(outputs@ =~= shaken_outputs(ons, oouts));
        lemma_shaken_prefix_len(ons, oouts, n as int);
        assert forall|t: int|
            0 <= t < outputs@.len() implies (#[trigger] outputs@[t]) < nodes@.len() by {
            let o = oouts[t] as int;
            assert(oouts.contains(oouts[t]));
            lemma_live_output(ons, oouts, o);
            lemma_rank_monotone(ons, oouts, o, n as int);
        }
    }
}

} // verus!
