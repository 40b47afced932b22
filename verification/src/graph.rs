//! The computation-graph arena.
//!
//! Nodes live in one contiguous arena and are addressed by their index, so a
//! node's identity is its index, never its numeric value.  Every node records
//! only the operation that produced it and the indices of its operands; the
//! caller keeps the numeric value and the accumulated gradient of each node
//! in parallel arrays of its own.  A node's operands always have strictly
//! smaller indices, which makes the arena a DAG by construction.

use vstd::prelude::*;

verus! {

/// The operation that produced a node, with the indices of its operands.
///
/// Operand order is fixed and meaningful: the backward rules read it
/// positionally.  A `Leaf` has no operands; its value is supplied by the
/// caller.
#[derive(Clone, Copy, Debug, PartialEq, Eq, Structural)]
pub enum Op {
    /// An input or parameter; the caller owns its value.
    Leaf,
    /// Sum of the two operands.
    Add(usize, usize),
    /// Product of the two operands.
    Mul(usize, usize),
    /// Quotient: first operand divided by the second.
    Div(usize, usize),
    /// Negation of the operand.
    Neg(usize),
    /// Hyperbolic tangent of the operand.
    Tanh(usize),
}

/// The operand indices of an operation, in positional order.
pub open spec fn operands_of(op: Op) -> Seq<usize> {
    match op {
        Op::Leaf => Seq::empty(),
        Op::Add(a, b) => seq![a, b],
        Op::Mul(a, b) => seq![a, b],
        Op::Div(a, b) => seq![a, b],
        Op::Neg(a) => seq![a],
        Op::Tanh(a) => seq![a],
    }
}

/// A node placed at index `i` may only point at strictly earlier nodes.
pub open spec fn op_wf(op: Op, i: int) -> bool {
    forall|k: int| 0 <= k < operands_of(op).len() ==> (#[trigger] operands_of(op)[k]) < i
}

/// Every node of the arena points only backwards: the graph is a DAG.
pub open spec fn wf_ops(ops: Seq<Op>) -> bool {
    forall|i: int| 0 <= i < ops.len() ==> op_wf(#[trigger] ops[i], i)
}

/// `g2` extends `g1`: every node of `g1` is still present, unchanged, at
/// its old index.  Graph-building functions only ever append, so facts
/// about existing nodes survive them.
pub open spec fn extends(g2: Seq<Op>, g1: Seq<Op>) -> bool {
    g1.len() <= g2.len() && forall|i: int| 0 <= i < g1.len() ==> g2[i] == #[trigger] g1[i]
}

/// The arena of graph nodes.  Abstractly, a sequence of operations; the
/// node at index `i` is `self@[i]`.
pub struct Graph {
    nodes: Vec<Op>,
}

impl View for Graph {
    type V = Seq<Op>;

    closed spec fn view(&self) -> Seq<Op> {
        self.nodes@
    }
}

impl Graph {
    /// The arena invariant: operands always precede their consumer.
    pub open spec fn wf(&self) -> bool {
        wf_ops(self@)
    }

    /// An empty graph.
    pub fn new() -> (r: Graph)
        ensures
            r@ == Seq::<Op>::empty(),
            r.wf(),
    {
        Graph { nodes: Vec::new() }
    }

    /// How many nodes the arena holds.
    pub fn len(&self) -> (r: usize)
        ensures
            r == self@.len(),
    {
        self.nodes.len()
    }

    /// The operation that produced node `i`.
    pub fn node(&self, i: usize) -> (r: Op)
        requires
            i < self@.len(),
        ensures
            r == self@[i as int],
    {
        self.nodes[i]
    }

    /// Appends one node, returning its index.
    fn push_op(&mut self, op: Op) -> (r: usize)
        requires
            old(self).wf(),
            op_wf(op, old(self)@.len() as int),
        ensures
            final(self)@ == old(self)@.push(op),
            r == old(self)@.len(),
            final(self).wf(),
    {
        let r = self.nodes.len();
        self.nodes.push(op);
        proof {
            assert forall|i: int| 0 <= i < self@.len() implies op_wf(#[trigger] self@[i], i) by {
                if i < self@.len() - 1 {
                    assert(self@[i] == old(self)@[i]);
                }
            }
        }
        r
    }

    /// A fresh leaf node (an input or a parameter).
    pub fn leaf(&mut self) -> (r: usize)
        requires
            old(self).wf(),
        ensures
            final(self)@ == old(self)@.push(Op::Leaf),
            r == old(self)@.len(),
            final(self).wf(),
    {
        self.push_op(Op::Leaf)
    }

    /// The sum node `a + b`.
    pub fn add(&mut self, a: usize, b: usize) -> (r: usize)
        requires
            old(self).wf(),
            a < old(self)@.len(),
            b < old(self)@.len(),
        ensures
            final(self)@ == old(self)@.push(Op::Add(a, b)),
            r == old(self)@.len(),
            final(self).wf(),
    {
        self.push_op(Op::Add(a, b))
    }

    /// The product node `a * b`.
    pub fn mul(&mut self, a: usize, b: usize) -> (r: usize)
        requires
            old(self).wf(),
            a < old(self)@.len(),
            b < old(self)@.len(),
        ensures
            final(self)@ == old(self)@.push(Op::Mul(a, b)),
            r == old(self)@.len(),
            final(self).wf(),
    {
        self.push_op(Op::Mul(a, b))
    }

    /// The quotient node `a / b`.
    pub fn div(&mut self, a: usize, b: usize) -> (r: usize)
        requires
            old(self).wf(),
            a < old(self)@.len(),
            b < old(self)@.len(),
        ensures
            final(self)@ == old(self)@.push(Op::Div(a, b)),
            r == old(self)@.len(),
            final(self).wf(),
    {
        self.push_op(Op::Div(a, b))
    }

    /// The negation node `-a`.
    pub fn neg(&mut self, a: usize) -> (r: usize)
        requires
            old(self).wf(),
            a < old(self)@.len(),
        ensures
            final(self)@ == old(self)@.push(Op::Neg(a)),
            r == old(self)@.len(),
            final(self).wf(),
    {
        self.push_op(Op::Neg(a))
    }

    /// The hyperbolic-tangent node `tanh(a)`.
    pub fn tanh(&mut self, a: usize) -> (r: usize)
        requires
            old(self).wf(),
            a < old(self)@.len(),
        ensures
            final(self)@ == old(self)@.push(Op::Tanh(a)),
            r == old(self)@.len(),
            final(self).wf(),
    {
        self.push_op(Op::Tanh(a))
    }

    /// The difference `a - b`, built as `a + (-b)`: a negation node is
    /// created first and then summed with `a`.  Returns the sum node.
    pub fn sub(&mut self, a: usize, b: usize) -> (r: usize)
        requires
            old(self).wf(),
            a < old(self)@.len(),
            b < old(self)@.len(),
        ensures
            final(self)@ == old(self)@.push(Op::Neg(b)).push(Op::Add(a, old(self)@.len() as usize)),
            r == old(self)@.len() + 1,
            final(self).wf(),
    {
        let n = self.neg(b);
        self.add(a, n)
    }

    /// Discards every node from index `keep` on.  Callers use this to drop
    /// the ephemeral nodes of one forward/backward round while keeping the
    /// long-lived prefix (parameters and other persistent leaves).
    pub fn truncate(&mut self, keep: usize)
        requires
            old(self).wf(),
            keep <= old(self)@.len(),
        ensures
            final(self)@ == old(self)@.take(keep as int),
            final(self).wf(),
    {
        self.nodes.truncate(keep);
        proof {
            assert(self@ =~= old(self)@.take(keep as int));
            assert forall|i: int| 0 <= i < self@.len() implies op_wf(#[trigger] self@[i], i) by {
                assert(self@[i] == old(self)@[i]);
            }
        }
    }
}

} // verus!
