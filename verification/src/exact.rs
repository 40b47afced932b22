//! An exact-arithmetic model of the backward pass.
//!
//! The numeric executor applies the backward plan over machine floats,
//! which this crate cannot reason about.  This module replays the very
//! same plan over unbounded integers — an exact model of the plan's
//! algebra — and proves the chain-rule accumulation equation: once the
//! plan has run, every node's gradient equals its seed plus the sum, over
//! all of its reachable consumers, of the consumer's *final* gradient
//! weighted by the local derivative of that consumer with respect to the
//! node.  That every consumer's gradient is already final when it is read
//! is exactly the guarantee the reverse-topological order exists to
//! provide; fan-out, diamonds and repeated operands are all covered.
//!
//! Division falls outside the model — its local derivatives are
//! quotients, which unbounded integers do not carry — so the law is
//! stated for graphs whose reachable nodes use every other operation.

use vstd::prelude::*;

verus! {

use crate::backward::{plan_spec, steps_of, Gain, Step};
use crate::graph::{op_wf, wf_ops, Op};
use crate::traversal::reaches;

/// What a gain multiplies the consumer's gradient by, over exact
/// integers.  The two division gains are quotients, not multipliers, and
/// stand outside this model; they are mapped to zero and never arise in
/// the plans the model is applied to.
pub open spec fn gain_val(gain: Gain, vals: Seq<int>) -> int {
    match gain {
        Gain::One => 1,
        Gain::NegOne => -1,
        Gain::ValueOf(i) => vals[i as int],
        Gain::RecipOf(_) => 0,
        Gain::NegRatioSq(_, _) => 0,
        Gain::OneMinusSquareOf(i) => 1 - vals[i as int] * vals[i as int],
    }
}

/// The gradient table after the steps run in order, each adding the
/// gain-weighted source gradient into its target.
pub open spec fn exec_steps(vals: Seq<int>, steps: Seq<Step>, gr: Seq<int>) -> Seq<int>
    decreases steps.len(),
{
    if steps.len() == 0 {
        gr
    } else {
        let st = steps[0];
        let upd = if (st.target as int) < gr.len() && (st.src as int) < gr.len() {
            gr.update(
                st.target as int,
                gr[st.target as int] + gain_val(st.gain, vals) * gr[st.src as int],
            )
        } else {
            gr
        };
        exec_steps(vals, steps.skip(1), upd)
    }
}

/// The gradient table the backward pass starts from: one at the root —
/// the seed — and zero everywhere else.
pub open spec fn seed_table(len: nat, root: usize) -> Seq<int> {
    Seq::new(len, |i: int| if i == root { 1int } else { 0int })
}

/// The local derivative of the node at `n` (produced by `op`) with
/// respect to node `m`, counting every operand slot that names `m`.
pub open spec fn local_d(op: Op, vals: Seq<int>, n: usize, m: int) -> int {
    match op {
        Op::Leaf => 0,
        Op::Add(a, b) => (if a as int == m { 1int } else { 0int }) + (if b as int == m {
            1int
        } else {
            0int
        }),
        Op::Mul(a, b) => (if a as int == m { vals[b as int] } else { 0int }) + (if b as int == m {
            vals[a as int]
        } else {
            0int
        }),
        Op::Div(_, _) => 0,
        Op::Neg(a) => if a as int == m { -1int } else { 0int },
        Op::Tanh(a) => if a as int == m { 1 - vals[n as int] * vals[n as int] } else { 0int },
    }
}

/// The total chain-rule inflow into node `m` from the reachable consumers
/// at indices `i` and above, each weighted by its gradient in `gr`.
pub open spec fn inflow_from(
    ops: Seq<Op>,
    vals: Seq<int>,
    gr: Seq<int>,
    root: usize,
    m: int,
    i: int,
) -> int
    decreases ops.len() - i,
{
    if i < 0 || i >= ops.len() {
        0
    } else {
        (if reaches(ops, root, i as usize) {
            local_d(ops[i], vals, i as usize, m) * gr[i]
        } else {
            0int
        }) + inflow_from(ops, vals, gr, root, m, i + 1)
    }
}

/// The plan restricted to the nodes in `i .. j`, in decreasing node
/// order, reachable nodes only.
pub open spec fn plan_range(ops: Seq<Op>, root: usize, i: int, j: int) -> Seq<Step>
    decreases j - i,
{
    if j <= i {
        Seq::empty()
    } else {
        let here = if reaches(ops, root, (j - 1) as usize) {
            steps_of(ops[j - 1], (j - 1) as usize)
        } else {
            Seq::empty()
        };
        here + plan_range(ops, root, i, j - 1)
    }
}

proof fn lemma_exec_concat(vals: Seq<int>, s1: Seq<Step>, s2: Seq<Step>, gr: Seq<int>)
    ensures
        exec_steps(vals, s1 + s2, gr) == exec_steps(vals, s2, exec_steps(vals, s1, gr)),
    decreases s1.len(),
{
    if s1.len() == 0 {
        assert(s1 + s2 =~= s2);
    } else {
        assert((s1 + s2)[0] == s1[0]);
        assert((s1 + s2).skip(1) =~= s1.skip(1) + s2);
        let st = s1[0];
        let upd = if (st.target as int) < gr.len() && (st.src as int) < gr.len() {
            gr.update(
                st.target as int,
                gr[st.target as int] + gain_val(st.gain, vals) * gr[st.src as int],
            )
        } else {
            gr
        };
        lemma_exec_concat(vals, s1.skip(1), s2, upd);
    }
}

/// Running one node's steps adds `local_d * gr[n]` into every entry: the
/// node reads its own gradient and accumulates into each operand slot.
proof fn lemma_exec_node_steps(vals: Seq<int>, op: Op, n: usize, gr: Seq<int>)
    requires
        (n as int) < gr.len(),
        op_wf(op, n as int),
    ensures
        exec_steps(vals, steps_of(op, n), gr).len() == gr.len(),
        forall|m: int|
            0 <= m < gr.len()
                ==> exec_steps(vals, steps_of(op, n), gr)[m] == gr[m] + local_d(op, vals, n, m)
                    * gr[n as int],
{
    reveal_with_fuel(exec_steps, 4);
    let s = steps_of(op, n);
    match op {
        Op::Leaf => {
            assert forall|m: int|
                0 <= m < gr.len() implies exec_steps(vals, s, gr)[m] == gr[m] + local_d(
                op,
                vals,
                n,
                m,
            ) * gr[n as int] by {
                assert(exec_steps(vals, s, gr) == gr);
                assert(local_d(op, vals, n, m) == 0);
                assert(local_d(op, vals, n, m) * gr[n as int] == 0) by (nonlinear_arith)
                    requires
                        local_d(op, vals, n, m) == 0,
                ;
            }
        }
        Op::Add(a, b) | Op::Mul(a, b) | Op::Div(a, b) => {
            assert(crate::graph::operands_of(op)[0] == a && crate::graph::operands_of(op)[1] == b);
            assert(a < n && b < n);
            let ga = gain_val(s[0].gain, vals);
            let gb = gain_val(s[1].gain, vals);
            let g1 = gr.update(a as int, gr[a as int] + ga * gr[n as int]);
            assert(exec_steps(vals, s, gr) == exec_steps(vals, s.skip(1), g1));
            assert(s.skip(1)[0] == s[1]);
            assert(g1[n as int] == gr[n as int]);
            let g2 = g1.update(b as int, g1[b as int] + gb * g1[n as int]);
            assert(exec_steps(vals, s.skip(1), g1) == exec_steps(vals, s.skip(1).skip(1), g2));
            assert(s.skip(1).skip(1) =~= Seq::<Step>::empty());
            assert(exec_steps(vals, s.skip(1).skip(1), g2) == g2);
            assert forall|m: int|
                0 <= m < gr.len() implies g2[m] == gr[m] + local_d(op, vals, n, m) * gr[n as int] by {
                if m == a as int && m == b as int {
                    assert(g2[m] == gr[m] + ga * gr[n as int] + gb * gr[n as int]);
                    assert(local_d(op, vals, n, m) == ga + gb);
                    assert(local_d(op, vals, n, m) * gr[n as int] == ga * gr[n as int] + gb * gr[n as int])
                        by (nonlinear_arith)
                        requires
                            local_d(op, vals, n, m) == ga + gb,
                    ;
                } else if m == a as int {
                    assert(g2[m] == gr[m] + ga * gr[n as int]);
                    assert(local_d(op, vals, n, m) == ga);
                    assert(local_d(op, vals, n, m) * gr[n as int] == ga * gr[n as int])
                        by (nonlinear_arith)
                        requires
                            local_d(op, vals, n, m) == ga,
                    ;
                } else if m == b as int {
                    assert(g2[m] == gr[m] + gb * gr[n as int]);
                    assert(local_d(op, vals, n, m) == gb);
                    assert(local_d(op, vals, n, m) * gr[n as int] == gb * gr[n as int])
                        by (nonlinear_arith)
                        requires
                            local_d(op, vals, n, m) == gb,
                    ;
                } else {
                    assert(g2[m] == gr[m]);
                    assert(local_d(op, vals, n, m) == 0);
                    assert(local_d(op, vals, n, m) * gr[n as int] == 0) by (nonlinear_arith)
                        requires
                            local_d(op, vals, n, m) == 0,
                    ;
                }
            }
        }
        Op::Neg(a) | Op::Tanh(a) => {
            assert(crate::graph::operands_of(op)[0] == a);
            assert(a < n);
            let ga = gain_val(s[0].gain, vals);
            let g1 = gr.update(a as int, gr[a as int] + ga * gr[n as int]);
            assert(exec_steps(vals, s, gr) == exec_steps(vals, s.skip(1), g1));
            assert(s.skip(1) =~= Seq::<Step>::empty());
            assert(exec_steps(vals, s.skip(1), g1) == g1);
            assert forall|m: int|
                0 <= m < gr.len() implies g1[m] == gr[m] + local_d(op, vals, n, m) * gr[n as int] by {
                if m == a as int {
                    assert(g1[m] == gr[m] + ga * gr[n as int]);
                    assert(local_d(op, vals, n, m) == ga);
                    assert(local_d(op, vals, n, m) * gr[n as int] == ga * gr[n as int])
                        by (nonlinear_arith)
                        requires
                            local_d(op, vals, n, m) == ga,
                    ;
                } else {
                    assert(g1[m] == gr[m]);
                    assert(local_d(op, vals, n, m) == 0);
                    assert(local_d(op, vals, n, m) * gr[n as int] == 0) by (nonlinear_arith)
                        requires
                            local_d(op, vals, n, m) == 0,
                    ;
                }
            }
        }
    }
}

/// The inflow from consumers at `i` and above reads only gradient entries
/// at `i` and above.
proof fn lemma_inflow_agrees(
    ops: Seq<Op>,
    vals: Seq<int>,
    gr1: Seq<int>,
    gr2: Seq<int>,
    root: usize,
    m: int,
    i: int,
)
    requires
        gr1.len() == gr2.len(),
        forall|k: int| i <= k < gr1.len() ==> gr1[k] == gr2[k],
        ops.len() == gr1.len(),
    ensures
        inflow_from(ops, vals, gr1, root, m, i) == inflow_from(ops, vals, gr2, root, m, i),
    decreases ops.len() - i,
{
    if 0 <= i && i < ops.len() {
        lemma_inflow_agrees(ops, vals, gr1, gr2, root, m, i + 1);
    }
}

proof fn lemma_plan_range_split(ops: Seq<Op>, root: usize, i: int, j: int)
    requires
        i < j,
    ensures
        plan_range(ops, root, i, j) == plan_range(ops, root, i + 1, j) + (if reaches(
            ops,
            root,
            i as usize,
        ) {
            steps_of(ops[i], i as usize)
        } else {
            Seq::<Step>::empty()
        }),
    decreases j - i,
{
    let here_i = if reaches(ops, root, i as usize) {
        steps_of(ops[i], i as usize)
    } else {
        Seq::<Step>::empty()
    };
    if j == i + 1 {
        assert(plan_range(ops, root, i, i) =~= Seq::<Step>::empty());
        assert(plan_range(ops, root, i + 1, j) =~= Seq::<Step>::empty());
        assert(here_i + Seq::<Step>::empty() =~= here_i);
        assert(Seq::<Step>::empty() + here_i =~= here_i);
    } else {
        let here_j = if reaches(ops, root, (j - 1) as usize) {
            steps_of(ops[j - 1], (j - 1) as usize)
        } else {
            Seq::<Step>::empty()
        };
        lemma_plan_range_split(ops, root, i, j - 1);
        assert((here_j + (plan_range(ops, root, i + 1, j - 1) + here_i)) =~= ((here_j + plan_range(
            ops,
            root,
            i + 1,
            j - 1,
        )) + here_i));
    }
}

/// The gradient table after the whole suffix of the plan — the steps of
/// every reachable node at index `i` or above — has run from the seed.
pub open spec fn suffix_state(ops: Seq<Op>, vals: Seq<int>, root: usize, i: int) -> Seq<int> {
    exec_steps(vals, plan_range(ops, root, i, ops.len() as int), seed_table(ops.len(), root))
}

proof fn lemma_suffix_invariant(ops: Seq<Op>, vals: Seq<int>, root: usize, i: int)
    requires
        wf_ops(ops),
        (root as int) < ops.len(),
        vals.len() == ops.len(),
        ops.len() <= usize::MAX,
        0 <= i <= ops.len(),
    ensures
        suffix_state(ops, vals, root, i).len() == ops.len(),
        forall|m: int|
            0 <= m < ops.len()
                ==> suffix_state(ops, vals, root, i)[m] == (if m == root { 1int } else { 0int })
                    + inflow_from(ops, vals, suffix_state(ops, vals, root, i), root, m, i),
    decreases ops.len() - i,
{
    let seed = seed_table(ops.len(), root);
    if i == ops.len() {
        assert(plan_range(ops, root, i, ops.len() as int) =~= Seq::<Step>::empty());
        assert(suffix_state(ops, vals, root, i) == seed);
        assert forall|m: int|
            0 <= m < ops.len() implies suffix_state(ops, vals, root, i)[m] == (if m == root {
            1int
        } else {
            0int
        }) + inflow_from(ops, vals, suffix_state(ops, vals, root, i), root, m, i) by {
            assert(inflow_from(ops, vals, suffix_state(ops, vals, root, i), root, m, i) == 0);
            assert(seed[m] == (if m == root { 1int } else { 0int }));
        }
    } else {
        lemma_suffix_invariant(ops, vals, root, i + 1);
        let s1 = suffix_state(ops, vals, root, i + 1);
        let s0 = suffix_state(ops, vals, root, i);
        let here = if reaches(ops, root, i as usize) {
            steps_of(ops[i], i as usize)
        } else {
            Seq::<Step>::empty()
        };
        lemma_plan_range_split(ops, root, i, ops.len() as int);
        lemma_exec_concat(vals, plan_range(ops, root, i + 1, ops.len() as int), here, seed);
        assert(s0 == exec_steps(vals, here, s1));
        if reaches(ops, root, i as usize) {
            assert(op_wf(ops[i], i));
            lemma_exec_node_steps(vals, ops[i], i as usize, s1);
            assert forall|k: int| i <= k < s1.len() implies s0[k] == s1[k] by {
                assert(local_d(ops[i], vals, i as usize, k) == 0) by {
                    match ops[i] {
                        Op::Add(a, b) | Op::Mul(a, b) | Op::Div(a, b) => {
                            assert(crate::graph::operands_of(ops[i])[0] == a);
                            assert(crate::graph::operands_of(ops[i])[1] == b);
                            assert(a < i && b < i);
                        }
                        Op::Neg(a) | Op::Tanh(a) => {
                            assert(crate::graph::operands_of(ops[i])[0] == a);
                            assert(a < i);
                        }
                        Op::Leaf => {}
                    }
                }
            }
            assert forall|m: int|
                0 <= m < ops.len() implies s0[m] == (if m == root { 1int } else { 0int })
                    + inflow_from(ops, vals, s0, root, m, i) by {
                lemma_inflow_agrees(ops, vals, s1, s0, root, m, i + 1);
                assert(s0[m] == s1[m] + local_d(ops[i], vals, i as usize, m) * s1[i]);
                assert(s1[m] == (if m == root { 1int } else { 0int }) + inflow_from(
                    ops,
                    vals,
                    s1,
                    root,
                    m,
                    i + 1,
                ));
                assert(inflow_from(ops, vals, s0, root, m, i) == local_d(ops[i], vals, i as usize, m)
                    * s0[i] + inflow_from(ops, vals, s0, root, m, i + 1));
                assert(s0[i] == s1[i]);
                assert(local_d(ops[i], vals, i as usize, m) * s0[i] == local_d(
                    ops[i],
                    vals,
                    i as usize,
                    m,
                ) * s1[i]) by (nonlinear_arith)
                    requires
                        s0[i] == s1[i],
                ;
            }
        } else {
            assert(exec_steps(vals, Seq::<Step>::empty(), s1) == s1);
            assert(s0 == s1);
            assert forall|m: int|
                0 <= m < ops.len() implies s0[m] == (if m == root { 1int } else { 0int })
                    + inflow_from(ops, vals, s0, root, m, i) by {
                assert(inflow_from(ops, vals, s0, root, m, i) == inflow_from(
                    ops,
                    vals,
                    s0,
                    root,
                    m,
                    i + 1,
                ));
            }
        }
    }
}

proof fn lemma_plan_range_is_plan(ops: Seq<Op>, root: usize, n: int)
    requires
        0 <= n,
    ensures
        plan_range(ops, root, 0, n) == crate::backward::plan_below(ops, root, n),
    decreases n,
{
    if n > 0 {
        lemma_plan_range_is_plan(ops, root, n - 1);
    }
}

proof fn lemma_inflow_unreached(
    ops: Seq<Op>,
    vals: Seq<int>,
    gr: Seq<int>,
    root: usize,
    m: int,
    i: int,
)
    requires
        wf_ops(ops),
        (root as int) < ops.len(),
        ops.len() <= usize::MAX,
        0 <= m < ops.len(),
        !reaches(ops, root, m as usize),
    ensures
        inflow_from(ops, vals, gr, root, m, i) == 0,
    decreases ops.len() - i,
{
    if 0 <= i && i < ops.len() {
        lemma_inflow_unreached(ops, vals, gr, root, m, i + 1);
        if reaches(ops, root, i as usize) {
            assert(local_d(ops[i], vals, i as usize, m) == 0) by {
                match ops[i] {
                    Op::Add(a, b) | Op::Mul(a, b) | Op::Div(a, b) => {
                        assert(crate::graph::operands_of(ops[i])[0] == a);
                        assert(crate::graph::operands_of(ops[i])[1] == b);
                        if a as int == m {
                            assert(crate::graph::operands_of(ops[i]).contains(a));
                            assert(crate::traversal::edge(ops, i as usize, a));
                            crate::traversal::lemma_reaches_step(ops, root, i as usize, a);
                        }
                        if b as int == m {
                            assert(crate::graph::operands_of(ops[i]).contains(b));
                            assert(crate::traversal::edge(ops, i as usize, b));
                            crate::traversal::lemma_reaches_step(ops, root, i as usize, b);
                        }
                    }
                    Op::Neg(a) | Op::Tanh(a) => {
                        assert(crate::graph::operands_of(ops[i])[0] == a);
                        if a as int == m {
                            assert(crate::graph::operands_of(ops[i]).contains(a));
                            assert(crate::traversal::edge(ops, i as usize, a));
                            crate::traversal::lemma_reaches_step(ops, root, i as usize, a);
                        }
                    }
                    Op::Leaf => {}
                }
            }
            assert(local_d(ops[i], vals, i as usize, m) * gr[i] == 0) by (nonlinear_arith)
                requires
                    local_d(ops[i], vals, i as usize, m) == 0,
            ;
        }
    }
}

/// A node out of reach of the root is never touched by the backward pass:
/// no reachable consumer names it, so its gradient stays at its seeded
/// value, zero.
pub proof fn lemma_backward_pass_skips_unreached(ops: Seq<Op>, vals: Seq<int>, root: usize, m: int)
    requires
        wf_ops(ops),
        (root as int) < ops.len(),
        vals.len() == ops.len(),
        ops.len() <= usize::MAX,
        forall|n: usize|
            (n as int) < ops.len() && reaches(ops, root, n) ==> !(#[trigger] ops[n as int] is Div),
        0 <= m < ops.len(),
        !reaches(ops, root, m as usize),
    ensures
        exec_steps(vals, plan_spec(ops, root), seed_table(ops.len(), root))[m] == 0,
{
    lemma_backward_pass_chain_rule(ops, vals, root);
    let fin = exec_steps(vals, plan_spec(ops, root), seed_table(ops.len(), root));
    lemma_inflow_unreached(ops, vals, fin, root, m, 0);
    assert(reaches(ops, root, root));
    assert(m != root as int);
}

/// Chain-rule accumulation, exact form.  Run the backward plan over
/// unbounded integers, from the seed table (one at the root, zero
/// elsewhere): afterwards, every node's gradient equals its seed plus the
/// sum over all reachable consumers of the consumer's final gradient
/// times that consumer's local derivative with respect to the node.  Each
/// consumer's gradient is therefore fully accumulated — across every
/// path, with one contribution per operand slot — before it is read,
/// which is the correctness condition of the reverse-topological order.
/// Division is excluded: its local derivatives are quotients, which the
/// exact integer model does not carry.
pub proof fn lemma_backward_pass_chain_rule(ops: Seq<Op>, vals: Seq<int>, root: usize)
    requires
        wf_ops(ops),
        (root as int) < ops.len(),
        vals.len() == ops.len(),
        ops.len() <= usize::MAX,
        forall|n: usize|
            (n as int) < ops.len() && reaches(ops, root, n) ==> !(#[trigger] ops[n as int] is Div),
    ensures
        exec_steps(vals, plan_spec(ops, root), seed_table(ops.len(), root)).len() == ops.len(),
        forall|m: int|
            0 <= m < ops.len()
                ==> exec_steps(vals, plan_spec(ops, root), seed_table(ops.len(), root))[m] == (
            if m == root {
                1int
            } else {
                0int
            }) + inflow_from(
                ops,
                vals,
                exec_steps(vals, plan_spec(ops, root), seed_table(ops.len(), root)),
                root,
                m,
                0,
            ),
{
    lemma_plan_range_is_plan(ops, root, ops.len() as int);
    lemma_suffix_invariant(ops, vals, root, 0);
    assert(suffix_state(ops, vals, root, 0) == exec_steps(
        vals,
        plan_spec(ops, root),
        seed_table(ops.len(), root),
    ));
}

} // verus!
