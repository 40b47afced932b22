//! The backward engine: the per-operation chain-rule steps and the plan
//! that applies them in reverse dependency order.
//!
//! A backward pass rooted at a terminal node works like this: the caller
//! seeds the terminal's gradient with one, then walks the plan in order and
//! for every step adds `gain(grad[step.src])` into `grad[step.target]`.
//! The plan lists the reachable nodes in reverse topological order —
//! terminal first — so every node's gradient is fully accumulated before
//! the node propagates it further; each step accumulates (adds into) its
//! target, never overwrites it, which is what makes fan-out correct.

use vstd::prelude::*;

verus! {

use crate::graph::{Graph, Op, operands_of};
use crate::traversal::reaches;

/// The multiplier a backward step applies to the consumer's gradient
/// before adding it into the operand's gradient.  Node indices name the
/// forward values the caller holds.
#[derive(Clone, Copy, Debug, PartialEq, Eq, Structural)]
pub enum Gain {
    /// The gradient flows through unchanged.
    One,
    /// The gradient is negated.
    NegOne,
    /// The gradient is scaled by the value of the named node.
    ValueOf(usize),
    /// The gradient is divided by the value of the named node.
    RecipOf(usize),
    /// The gradient is scaled by the negated value of the first node
    /// divided by the squared value of the second.
    NegRatioSq(usize, usize),
    /// The gradient is scaled by one minus the squared value of the named
    /// node.
    OneMinusSquareOf(usize),
}

/// One gradient-accumulation step: add `gain(grad[src])` into
/// `grad[target]`.
#[derive(Clone, Copy, Debug, PartialEq, Eq, Structural)]
pub struct Step {
    /// The consumer node whose accumulated gradient is read.
    pub src: usize,
    /// The operand node whose gradient the step adds into.
    pub target: usize,
    /// The local derivative the gradient is multiplied by on the way.
    pub gain: Gain,
}

/// The chain-rule contribution of the node at index `n`: one accumulation
/// step into each operand, carrying that operand's local derivative.
pub open spec fn steps_of(op: Op, n: usize) -> Seq<Step> {
    match op {
        Op::Leaf => Seq::empty(),
        Op::Add(a, b) => seq![
            Step { src: n, target: a, gain: Gain::One },
            Step { src: n, target: b, gain: Gain::One },
        ],
        Op::Mul(a, b) => seq![
            Step { src: n, target: a, gain: Gain::ValueOf(b) },
            Step { src: n, target: b, gain: Gain::ValueOf(a) },
        ],
        Op::Div(a, b) => seq![
            Step { src: n, target: a, gain: Gain::RecipOf(b) },
            Step { src: n, target: b, gain: Gain::NegRatioSq(a, b) },
        ],
        Op::Neg(a) => seq![Step { src: n, target: a, gain: Gain::NegOne }],
        Op::Tanh(a) => seq![Step { src: n, target: a, gain: Gain::OneMinusSquareOf(n) }],
    }
}

/// The backward plan restricted to nodes below index `n`: the steps of
/// every node reachable from `root`, in decreasing index order, which is
/// reverse topological order.
pub open spec fn plan_below(ops: Seq<Op>, root: usize, n: int) -> Seq<Step>
    decreases n,
{
    if n <= 0 {
        Seq::empty()
    } else {
        let here = if reaches(ops, root, (n - 1) as usize) {
            steps_of(ops[n - 1], (n - 1) as usize)
        } else {
            Seq::empty()
        };
        here + plan_below(ops, root, n - 1)
    }
}

/// The full backward plan rooted at `root`.
pub open spec fn plan_spec(ops: Seq<Op>, root: usize) -> Seq<Step> {
    plan_below(ops, root, ops.len() as int)
}

impl Graph {
    /// The gradient-accumulation plan of the backward pass rooted at
    /// `root`.
    ///
    /// To run the pass, the caller seeds `grad[root] = 1`, then applies the
    /// steps in plan order: `grad[step.target] += gain(grad[step.src])`.
    /// The plan visits the reachable nodes exactly once each, in reverse
    /// topological order starting at `root`, so a node's gradient is
    /// complete before any of its own steps run; a node out of reach of
    /// `root` — or a leaf, which owns no steps — propagates nothing.
    pub fn backward_plan(&self, root: usize) -> (plan: Vec<Step>)
        requires
            self.wf(),
            root < self@.len(),
        ensures
            plan@ == plan_spec(self@, root),
    {
        let marks = self.reach_marks(root);
        let n = self.len();
        let mut plan: Vec<Step> = Vec::new();
        let mut i: usize = n;
        while i > 0
            invariant
                i <= n,
                n == self@.len(),
                self.wf(),
                root < n,
                marks@.len() == n,
                forall|m: usize|
                    (m as int) < self@.len()
                        ==> ((#[trigger] marks@[m as int]) <==> reaches(self@, root, m)),
                plan_spec(self@, root) == plan@ + plan_below(self@, root, i as int),
            decreases i,
        {
            i -= 1;
            let ghost plan0 = plan@;
            let ghost here = if reaches(self@, root, i) {
                steps_of(self@[i as int], i)
            } else {
                Seq::<Step>::empty()
            };
            if marks[i] {
                match self.node(i) {
                    Op::Leaf => {}
                    Op::Add(a, b) => {
                        plan.push(Step { src: i, target: a, gain: Gain::One });
                        plan.push(Step { src: i, target: b, gain: Gain::One });
                    }
                    Op::Mul(a, b) => {
                        plan.push(Step { src: i, target: a, gain: Gain::ValueOf(b) });
                        plan.push(Step { src: i, target: b, gain: Gain::ValueOf(a) });
                    }
                    Op::Div(a, b) => {
                        plan.push(Step { src: i, target: a, gain: Gain::RecipOf(b) });
                        plan.push(Step { src: i, target: b, gain: Gain::NegRatioSq(a, b) });
                    }
                    Op::Neg(a) => {
                        plan.push(Step { src: i, target: a, gain: Gain::NegOne });
                    }
                    Op::Tanh(a) => {
                        plan.push(Step { src: i, target: a, gain: Gain::OneMinusSquareOf(i) });
                    }
                }
            }
            proof {
                assert(plan@ =~= plan0 + here);
                assert(plan_below(self@, root, i + 1) == here + plan_below(self@, root, i as int));
                assert((plan0 + here) + plan_below(self@, root, i as int)
                    =~= plan0 + (here + plan_below(self@, root, i as int)));
            }
        }
        proof {
            assert(plan@ + plan_below(self@, root, 0) =~= plan@);
        }
        plan
    }
}

/// How many of the given steps accumulate into node `x`.
pub open spec fn steps_into(steps: Seq<Step>, x: usize) -> int
    decreases steps.len(),
{
    if steps.len() == 0 {
        0
    } else {
        steps_into(steps.drop_last(), x) + (if steps.last().target == x { 1int } else { 0int })
    }
}

/// How many operand slots of `op` name node `x`.
pub open spec fn uses_in(op: Op, x: usize) -> int {
    count_eq(operands_of(op), x)
}

/// How many entries of `s` equal `x`.
pub open spec fn count_eq(s: Seq<usize>, x: usize) -> int
    decreases s.len(),
{
    if s.len() == 0 {
        0
    } else {
        count_eq(s.drop_last(), x) + (if s.last() == x { 1int } else { 0int })
    }
}

/// How many operand slots among the nodes below `n` that are reachable
/// from `root` name node `x`.
pub open spec fn uses_below(ops: Seq<Op>, root: usize, x: usize, n: int) -> int
    decreases n,
{
    if n <= 0 {
        0
    } else {
        (if reaches(ops, root, (n - 1) as usize) {
            uses_in(ops[n - 1], x)
        } else {
            0int
        }) + uses_below(ops, root, x, n - 1)
    }
}

proof fn lemma_steps_into_concat(a: Seq<Step>, b: Seq<Step>, x: usize)
    ensures
        steps_into(a + b, x) == steps_into(a, x) + steps_into(b, x),
    decreases b.len(),
{
    if b.len() == 0 {
        assert(a + b =~= a);
    } else {
        lemma_steps_into_concat(a, b.drop_last(), x);
        assert((a + b).drop_last() =~= a + b.drop_last());
        assert((a + b).last() == b.last());
    }
}

proof fn lemma_steps_of_targets(op: Op, n: usize, x: usize)
    ensures
        steps_into(steps_of(op, n), x) == uses_in(op, x),
{
    reveal_with_fuel(steps_into, 3);
    reveal_with_fuel(count_eq, 3);
    let s = steps_of(op, n);
    let o = operands_of(op);
    match op {
        Op::Leaf => {}
        Op::Add(a, b) => {
            assert(s.drop_last() =~= seq![Step { src: n, target: a, gain: Gain::One }]);
            assert(s.drop_last().drop_last() =~= Seq::<Step>::empty());
            assert(o.drop_last() =~= seq![a]);
            assert(o.drop_last().drop_last() =~= Seq::<usize>::empty());
        }
        Op::Mul(a, b) => {
            assert(s.drop_last() =~= seq![Step { src: n, target: a, gain: Gain::ValueOf(b) }]);
            assert(s.drop_last().drop_last() =~= Seq::<Step>::empty());
            assert(o.drop_last() =~= seq![a]);
            assert(o.drop_last().drop_last() =~= Seq::<usize>::empty());
        }
        Op::Div(a, b) => {
            assert(s.drop_last() =~= seq![Step { src: n, target: a, gain: Gain::RecipOf(b) }]);
            assert(s.drop_last().drop_last() =~= Seq::<Step>::empty());
            assert(o.drop_last() =~= seq![a]);
            assert(o.drop_last().drop_last() =~= Seq::<usize>::empty());
        }
        Op::Neg(a) => {
            assert(s.drop_last() =~= Seq::<Step>::empty());
            assert(o.drop_last() =~= Seq::<usize>::empty());
        }
        Op::Tanh(a) => {
            assert(s.drop_last() =~= Seq::<Step>::empty());
            assert(o.drop_last() =~= Seq::<usize>::empty());
        }
    }
}

proof fn lemma_plan_below_accumulates(ops: Seq<Op>, root: usize, x: usize, n: int)
    requires
        0 <= n <= usize::MAX + 1,
    ensures
        steps_into(plan_below(ops, root, n), x) == uses_below(ops, root, x, n),
    decreases n,
{
    if n > 0 {
        lemma_plan_below_accumulates(ops, root, x, n - 1);
        let here = if reaches(ops, root, (n - 1) as usize) {
            steps_of(ops[n - 1], (n - 1) as usize)
        } else {
            Seq::<Step>::empty()
        };
        lemma_steps_into_concat(here, plan_below(ops, root, n - 1), x);
        if reaches(ops, root, (n - 1) as usize) {
            lemma_steps_of_targets(ops[n - 1], (n - 1) as usize, x);
        }
    }
}

/// Accumulation law, structural form: for any node `x`, the backward plan
/// holds exactly one accumulation step into `x` for every operand slot of
/// every node reachable from the root that names `x`.  A node consumed by
/// several reachable operations therefore receives one added contribution
/// per use — none lost, none duplicated, none overwritten.
pub proof fn lemma_plan_accumulates_each_use_once(ops: Seq<Op>, root: usize, x: usize)
    requires
        ops.len() <= usize::MAX,
    ensures
        steps_into(plan_spec(ops, root), x) == uses_below(ops, root, x, ops.len() as int),
{
    lemma_plan_below_accumulates(ops, root, x, ops.len() as int);
}

} // verus!
