//! Network composition: neurons, layers and the multi-layer perceptron,
//! built as graph structure over the arena.
//!
//! A neuron owns one weight leaf per input plus a bias leaf — all
//! long-lived parameter nodes whose numeric values the caller supplies and
//! updates.  A forward pass builds fresh intermediate nodes computing
//! `tanh(bias + sum of weight_i * x_i)` for each neuron; the caller reads
//! the numeric results by evaluating the graph.

use vstd::prelude::*;

verus! {

use crate::graph::{extends, Graph, Op};

/// A single neuron: one weight node per input, plus a bias node.  All of
/// them are trainable leaf parameters.
pub struct Neuron {
    /// The weight leaves, one per input, in input order.
    pub weights: Vec<usize>,
    /// The bias leaf.
    pub bias: usize,
}

/// Node `n` computes `bias + sum of ws[i] * xs[i]` as a left-to-right
/// chain of one multiply and one add per input: the empty sum is the bias
/// node itself, and each further term is added on the right.
pub open spec fn dot_chain(g: Seq<Op>, ws: Seq<usize>, xs: Seq<usize>, bias: usize, n: usize) -> bool
    decreases ws.len(),
{
    if ws.len() == 0 {
        n == bias
    } else {
        (n as int) < g.len() && match g[n as int] {
            Op::Add(p, m) => (m as int) < g.len()
                && g[m as int] == Op::Mul(xs.last(), ws.last())
                && dot_chain(g, ws.drop_last(), xs.drop_last(), bias, p),
            _ => false,
        }
    }
}

/// Node `out` is the neuron's output on inputs `xs`: the hyperbolic
/// tangent of its weighted sum plus bias.
pub open spec fn neuron_out(g: Seq<Op>, nr: Neuron, xs: Seq<usize>, out: usize) -> bool {
    (out as int) < g.len() && match g[out as int] {
        Op::Tanh(n) => dot_chain(g, nr.weights@, xs, nr.bias, n),
        _ => false,
    }
}

/// A weighted-sum chain survives appending nodes to the graph.
pub proof fn lemma_dot_chain_mono(
    g1: Seq<Op>,
    g2: Seq<Op>,
    ws: Seq<usize>,
    xs: Seq<usize>,
    bias: usize,
    n: usize,
)
    requires
        dot_chain(g1, ws, xs, bias, n),
        extends(g2, g1),
    ensures
        dot_chain(g2, ws, xs, bias, n),
    decreases ws.len(),
{
    if ws.len() > 0 {
        match g1[n as int] {
            Op::Add(p, m) => {
                lemma_dot_chain_mono(g1, g2, ws.drop_last(), xs.drop_last(), bias, p);
                assert(g2[n as int] == g1[n as int]);
                assert(g2[m as int] == g1[m as int]);
            }
            _ => {}
        }
    }
}

/// A neuron output shape survives appending nodes to the graph.
pub proof fn lemma_neuron_out_mono(g1: Seq<Op>, g2: Seq<Op>, nr: Neuron, xs: Seq<usize>, out: usize)
    requires
        neuron_out(g1, nr, xs, out),
        extends(g2, g1),
    ensures
        neuron_out(g2, nr, xs, out),
{
    match g1[out as int] {
        Op::Tanh(n) => {
            lemma_dot_chain_mono(g1, g2, nr.weights@, xs, nr.bias, n);
            assert(g2[out as int] == g1[out as int]);
        }
        _ => {}
    }
}

/// The parameter nodes of one neuron: the bias first, then the weights in
/// input order.
pub open spec fn neuron_params(nr: Neuron) -> Seq<usize> {
    seq![nr.bias] + nr.weights@
}

/// The neuron's parameter nodes occupy exactly the indices
/// `base .. base + w + 1`: the weights in order, then the bias.
pub open spec fn neuron_fresh_at(nr: Neuron, base: int, w: int) -> bool {
    &&& nr.weights@.len() == w
    &&& forall|t: int| 0 <= t < w ==> (#[trigger] nr.weights@[t]) as int == base + t
    &&& (nr.bias as int) == base + w
}

impl Neuron {
    /// Every node this neuron names exists in a graph of length `glen`.
    pub open spec fn in_graph(&self, glen: int) -> bool {
        &&& (self.bias as int) < glen
        &&& forall|i: int| 0 <= i < self.weights@.len() ==> ((#[trigger] self.weights@[i]) as int) < glen
    }

    /// A neuron with `nin` fresh weight leaves and a fresh bias leaf.
    ///
    /// The numeric values of the new parameter nodes — for instance random
    /// draws in `[-1, 1]` — are chosen by the caller, who owns the value
    /// table.
    pub fn new(g: &mut Graph, nin: usize) -> (r: Neuron)
        requires
            old(g).wf(),
        ensures
            final(g).wf(),
            extends(final(g)@, old(g)@),
            final(g)@.len() == old(g)@.len() + nin + 1,
            forall|j: int|
                old(g)@.len() <= j < final(g)@.len() ==> final(g)@[j] == Op::Leaf,
            neuron_fresh_at(r, old(g)@.len() as int, nin as int),
            r.in_graph(final(g)@.len() as int),
    {
        let mut weights: Vec<usize> = Vec::new();
        let mut i: usize = 0;
        while i < nin
            invariant
                g.wf(),
                extends(g@, old(g)@),
                i <= nin,
                g@.len() == old(g)@.len() + i,
                forall|j: int| old(g)@.len() <= j < g@.len() ==> g@[j] == Op::Leaf,
                weights@.len() == i,
                forall|t: int| 0 <= t < i ==> (#[trigger] weights@[t]) as int == old(g)@.len() + t,
            decreases nin - i,
        {
            let w = g.leaf();
            weights.push(w);
            i += 1;
        }
        let bias = g.leaf();
        Neuron { weights, bias }
    }

    /// The neuron's output node for the given input nodes: builds the
    /// multiply/add chain and the final `tanh`, appending `2 * len + 1`
    /// nodes, and returns the `tanh` node.
    ///
    /// The input width must equal the weight count — a mismatched call is
    /// a fatal precondition violation, ruled out here; `forward_checked`
    /// reports it instead.
    pub fn forward(&self, g: &mut Graph, x: &Vec<usize>) -> (out: usize)
        requires
            old(g).wf(),
            self.in_graph(old(g)@.len() as int),
            forall|t: int| 0 <= t < x@.len() ==> ((#[trigger] x@[t]) as int) < old(g)@.len(),
            x@.len() == self.weights@.len(),
        ensures
            final(g).wf(),
            extends(final(g)@, old(g)@),
            final(g)@.len() == old(g)@.len() + 2 * x@.len() + 1,
            (out as int) == final(g)@.len() - 1,
            neuron_out(final(g)@, *self, x@, out),
    {
        let mut n = self.bias;
        let k = self.weights.len();
        let mut i: usize = 0;
        while i < k
            invariant
                g.wf(),
                extends(g@, old(g)@),
                self.in_graph(old(g)@.len() as int),
                forall|t: int| 0 <= t < x@.len() ==> ((#[trigger] x@[t]) as int) < old(g)@.len(),
                x@.len() == self.weights@.len(),
                k == self.weights@.len(),
                i <= k,
                g@.len() == old(g)@.len() + 2 * (i as int),
                (n as int) < g@.len(),
                dot_chain(g@, self.weights@.take(i as int), x@.take(i as int), self.bias, n),
            decreases k - i,
        {
            let xi = x[i];
            let wi = self.weights[i];
            let ghost g1 = g@;
            let m = g.mul(xi, wi);
            let n2 = g.add(n, m);
            proof {
                lemma_dot_chain_mono(
                    g1,
                    g@,
                    self.weights@.take(i as int),
                    x@.take(i as int),
                    self.bias,
                    n,
                );
                assert(self.weights@.take(i as int + 1).drop_last() =~= self.weights@.take(
                    i as int,
                ));
                assert(x@.take(i as int + 1).drop_last() =~= x@.take(i as int));
                assert(self.weights@.take(i as int + 1).last() == wi);
                assert(x@.take(i as int + 1).last() == xi);
                assert(g@[n2 as int] == Op::Add(n, m));
                assert(g@[m as int] == Op::Mul(xi, wi));
                assert(dot_chain(g@, self.weights@.take(i as int + 1), x@.take(i as int + 1),
                    self.bias, n2));
            }
            n = n2;
            i += 1;
        }
        let ghost g3 = g@;
        let out = g.tanh(n);
        proof {
            lemma_dot_chain_mono(g3, g@, self.weights@.take(k as int), x@.take(k as int),
                self.bias, n);
            assert(self.weights@.take(k as int) =~= self.weights@);
            assert(x@.take(k as int) =~= x@);
            assert(g@[out as int] == Op::Tanh(n));
        }
        out
    }

    /// Like `forward`, but checks the input width and reports a mismatch
    /// as `None` — with the graph untouched — instead of requiring the
    /// caller to rule it out.
    pub fn forward_checked(&self, g: &mut Graph, x: &Vec<usize>) -> (out: Option<usize>)
        requires
            old(g).wf(),
            self.in_graph(old(g)@.len() as int),
            forall|t: int| 0 <= t < x@.len() ==> ((#[trigger] x@[t]) as int) < old(g)@.len(),
        ensures
            final(g).wf(),
            extends(final(g)@, old(g)@),
            out is None <==> x@.len() != self.weights@.len(),
            out is None ==> final(g)@ == old(g)@,
            out is Some ==> final(g)@.len() == old(g)@.len() + 2 * x@.len() + 1
                && (out->Some_0 as int) == final(g)@.len() - 1
                && neuron_out(final(g)@, *self, x@, out->Some_0),
    {
        if x.len() == self.weights.len() {
            Some(self.forward(g, x))
        } else {
            None
        }
    }

    /// The parameter nodes of this neuron: the bias first, then every
    /// weight, in input order.
    pub fn parameters(&self) -> (r: Vec<usize>)
        ensures
            r@ == neuron_params(*self),
    {
        let mut params: Vec<usize> = Vec::new();
        params.push(self.bias);
        let mut i: usize = 0;
        while i < self.weights.len()
            invariant
                i <= self.weights@.len(),
                params@ == seq![self.bias] + self.weights@.take(i as int),
            decreases self.weights@.len() - i,
        {
            params.push(self.weights[i]);
            proof {
                assert(params@ =~= seq![self.bias] + self.weights@.take(i as int + 1));
            }
            i += 1;
        }
        proof {
            assert(self.weights@.take(self.weights@.len() as int) =~= self.weights@);
        }
        params
    }
}

/// A layer: an ordered sequence of neurons, each applied to the same
/// input vector.
pub struct Layer {
    /// The neurons, in output order.
    pub neurons: Vec<Neuron>,
}

/// `outs` lists, in neuron order, the output node of every neuron of `l`
/// on inputs `xs`.
pub open spec fn layer_out_seq(g: Seq<Op>, l: Layer, xs: Seq<usize>, outs: Seq<usize>) -> bool {
    &&& outs.len() == l.neurons@.len()
    &&& forall|j: int|
        0 <= j < outs.len() ==> neuron_out(g, l.neurons@[j], xs, #[trigger] outs[j])
}

/// A layer output shape survives appending nodes to the graph.
pub proof fn lemma_layer_out_mono(g1: Seq<Op>, g2: Seq<Op>, l: Layer, xs: Seq<usize>, outs: Seq<usize>)
    requires
        layer_out_seq(g1, l, xs, outs),
        extends(g2, g1),
    ensures
        layer_out_seq(g2, l, xs, outs),
{
    assert forall|j: int|
        0 <= j < outs.len() implies neuron_out(g2, l.neurons@[j], xs, #[trigger] outs[j]) by {
        lemma_neuron_out_mono(g1, g2, l.neurons@[j], xs, outs[j]);
    }
}

/// The parameter nodes of a sequence of neurons, flattened in neuron
/// order.
pub open spec fn layer_params(ns: Seq<Neuron>) -> Seq<usize>
    decreases ns.len(),
{
    if ns.len() == 0 {
        Seq::empty()
    } else {
        layer_params(ns.drop_last()) + neuron_params(ns.last())
    }
}

/// The layer's parameter nodes occupy exactly the indices
/// `base .. base + nout * (w + 1)`, one fresh block per neuron.
pub open spec fn layer_fresh_at(l: Layer, base: int, w: int) -> bool {
    forall|j: int|
        0 <= j < l.neurons@.len()
            ==> neuron_fresh_at(#[trigger] l.neurons@[j], base + j * (w + 1), w)
}

impl Layer {
    /// Every node this layer names exists in a graph of length `glen`.
    pub open spec fn in_graph(&self, glen: int) -> bool {
        forall|j: int|
            0 <= j < self.neurons@.len() ==> (#[trigger] self.neurons@[j]).in_graph(glen)
    }

    /// Every neuron of the layer takes `w` inputs.
    pub open spec fn widths_ok(&self, w: int) -> bool {
        forall|j: int|
            0 <= j < self.neurons@.len() ==> (#[trigger] self.neurons@[j]).weights@.len() == w
    }

    /// A layer of `nout` fresh neurons with `nin` inputs each.
    pub fn new(g: &mut Graph, nin: usize, nout: usize) -> (r: Layer)
        requires
            old(g).wf(),
        ensures
            final(g).wf(),
            extends(final(g)@, old(g)@),
            final(g)@.len() == old(g)@.len() + (nout as int) * (nin as int + 1),
            forall|j: int|
                old(g)@.len() <= j < final(g)@.len() ==> final(g)@[j] == Op::Leaf,
            r.neurons@.len() == nout,
            r.widths_ok(nin as int),
            layer_fresh_at(r, old(g)@.len() as int, nin as int),
            r.in_graph(final(g)@.len() as int),
    {
        let mut neurons: Vec<Neuron> = Vec::new();
        let mut j: usize = 0;
        while j < nout
            invariant
                g.wf(),
                extends(g@, old(g)@),
                j <= nout,
                g@.len() == old(g)@.len() + (j as int) * (nin as int + 1),
                forall|t: int| old(g)@.len() <= t < g@.len() ==> g@[t] == Op::Leaf,
                neurons@.len() == j,
                forall|t: int|
                    0 <= t < j
                        ==> neuron_fresh_at(
                            #[trigger] neurons@[t],
                            old(g)@.len() + t * (nin as int + 1),
                            nin as int,
                        ),
                forall|t: int|
                    0 <= t < j ==> (#[trigger] neurons@[t]).in_graph(g@.len() as int),
                forall|t: int|
                    0 <= t < j ==> (#[trigger] neurons@[t]).weights@.len() == nin,
            decreases nout - j,
        {
            let ghost gpre = g@;
            let nr = Neuron::new(g, nin);
            proof {
                assert((j as int + 1) * (nin as int + 1) == (j as int) * (nin as int + 1) + (
                nin as int + 1)) by (nonlinear_arith);
                assert forall|t: int| old(g)@.len() <= t < g@.len() implies g@[t] == Op::Leaf by {
                    if t < gpre.len() {
                        assert(g@[t] == gpre[t]);
                    }
                }
            }
            neurons.push(nr);
            j += 1;
        }
        Layer { neurons }
    }

    /// The output node of every neuron on the same input vector, in
    /// neuron order.  Every neuron must take exactly `x.len()` inputs.
    pub fn forward(&self, g: &mut Graph, x: &Vec<usize>) -> (outs: Vec<usize>)
        requires
            old(g).wf(),
            self.in_graph(old(g)@.len() as int),
            forall|t: int| 0 <= t < x@.len() ==> ((#[trigger] x@[t]) as int) < old(g)@.len(),
            self.widths_ok(x@.len() as int),
        ensures
            final(g).wf(),
            extends(final(g)@, old(g)@),
            final(g)@.len() == old(g)@.len() + self.neurons@.len() * (2 * x@.len() + 1),
            outs@.len() == self.neurons@.len(),
            layer_out_seq(final(g)@, *self, x@, outs@),
            forall|j: int|
                0 <= j < outs@.len() ==> ((#[trigger] outs@[j]) as int) < final(g)@.len(),
    {
        let mut outs: Vec<usize> = Vec::new();
        let mut j: usize = 0;
        while j < self.neurons.len()
            invariant
                g.wf(),
                extends(g@, old(g)@),
                self.in_graph(old(g)@.len() as int),
                forall|t: int| 0 <= t < x@.len() ==> ((#[trigger] x@[t]) as int) < old(g)@.len(),
                self.widths_ok(x@.len() as int),
                j <= self.neurons@.len(),
                outs@.len() == j,
                g@.len() == old(g)@.len() + (j as int) * (2 * x@.len() + 1),
                forall|t: int|
                    0 <= t < j ==> neuron_out(g@, self.neurons@[t], x@, #[trigger] outs@[t]),
                forall|t: int| 0 <= t < j ==> ((#[trigger] outs@[t]) as int) < g@.len(),
            decreases self.neurons@.len() - j,
        {
            let ghost gpre = g@;
            let o = self.neurons[j].forward(g, x);
            proof {
                assert forall|t: int|
                    0 <= t < j implies neuron_out(g@, self.neurons@[t], x@, #[trigger] outs@[t]) by {
                    lemma_neuron_out_mono(gpre, g@, self.neurons@[t], x@, outs@[t]);
                }
                assert((j as int + 1) * (2 * x@.len() + 1) == (j as int) * (2 * x@.len() + 1) + (2
                    * x@.len() + 1)) by (nonlinear_arith);
            }
            outs.push(o);
            j += 1;
        }
        outs
    }

    /// The parameter nodes of every neuron of the layer, flattened in
    /// neuron order.
    pub fn parameters(&self) -> (r: Vec<usize>)
        ensures
            r@ == layer_params(self.neurons@),
    {
        let mut params: Vec<usize> = Vec::new();
        let mut j: usize = 0;
        while j < self.neurons.len()
            invariant
                j <= self.neurons@.len(),
                params@ == layer_params(self.neurons@.take(j as int)),
            decreases self.neurons@.len() - j,
        {
            let mut p = self.neurons[j].parameters();
            params.append(&mut p);
            proof {
                assert(self.neurons@.take(j as int + 1).drop_last() =~= self.neurons@.take(
                    j as int,
                ));
                assert(self.neurons@.take(j as int + 1).last() == self.neurons@[j as int]);
            }
            j += 1;
        }
        proof {
            assert(self.neurons@.take(self.neurons@.len() as int) =~= self.neurons@);
        }
        params
    }
}

/// The multi-layer perceptron: layers applied in order, each feeding the
/// next; the input width is implied by the first layer.
pub struct MLP {
    /// The layers, in application order.
    pub layers: Vec<Layer>,
}

/// The widths of a chain of layers fit together when fed `w` inputs:
/// every neuron of the first layer takes `w` inputs, and the rest of the
/// chain fits the first layer's output width.
pub open spec fn chain_ok(ls: Seq<Layer>, w: int) -> bool
    decreases ls.len(),
{
    if ls.len() == 0 {
        true
    } else {
        ls[0].widths_ok(w) && chain_ok(ls.skip(1), ls[0].neurons@.len() as int)
    }
}

/// The output width of a chain of layers fed `w` inputs.
pub open spec fn out_width(ls: Seq<Layer>, w: int) -> int {
    if ls.len() == 0 {
        w
    } else {
        ls.last().neurons@.len() as int
    }
}

/// A fitting chain stays fitting when a layer of matching input width is
/// appended.
pub proof fn lemma_chain_ok_snoc(ls: Seq<Layer>, w: int, l: Layer)
    requires
        chain_ok(ls, w),
        l.widths_ok(out_width(ls, w)),
    ensures
        chain_ok(ls.push(l), w),
    decreases ls.len(),
{
    if ls.len() == 0 {
        assert(ls.push(l)[0] == l);
        assert(ls.push(l).skip(1) =~= Seq::<Layer>::empty());
        assert(chain_ok(ls.push(l).skip(1), ls.push(l)[0].neurons@.len() as int));
    } else {
        assert(out_width(ls.skip(1), ls[0].neurons@.len() as int) == out_width(ls, w)) by {
            if ls.len() > 1 {
                assert(ls.skip(1).last() == ls.last());
            }
        }
        lemma_chain_ok_snoc(ls.skip(1), ls[0].neurons@.len() as int, l);
        assert(ls.push(l).skip(1) =~= ls.skip(1).push(l));
        assert(ls.push(l)[0] == ls[0]);
        assert(chain_ok(ls.push(l).skip(1), ls.push(l)[0].neurons@.len() as int));
    }
}

/// `outs` is what the chain of layers computes from `xs`: each layer's
/// output vector feeds the next layer, and an empty chain passes `xs`
/// through unchanged.
pub open spec fn mlp_out(g: Seq<Op>, ls: Seq<Layer>, xs: Seq<usize>, outs: Seq<usize>) -> bool
    decreases ls.len(),
{
    if ls.len() == 0 {
        outs == xs
    } else {
        exists|mid: Seq<usize>|
            #[trigger] layer_out_seq(g, ls[0], xs, mid) && mlp_out(g, ls.skip(1), mid, outs)
    }
}

/// A network output shape survives appending nodes to the graph.
pub proof fn lemma_mlp_out_mono(
    g1: Seq<Op>,
    g2: Seq<Op>,
    ls: Seq<Layer>,
    xs: Seq<usize>,
    outs: Seq<usize>,
)
    requires
        mlp_out(g1, ls, xs, outs),
        extends(g2, g1),
    ensures
        mlp_out(g2, ls, xs, outs),
    decreases ls.len(),
{
    if ls.len() > 0 {
        let mid = choose|mid: Seq<usize>|
            #[trigger] layer_out_seq(g1, ls[0], xs, mid) && mlp_out(g1, ls.skip(1), mid, outs);
        lemma_layer_out_mono(g1, g2, ls[0], xs, mid);
        lemma_mlp_out_mono(g1, g2, ls.skip(1), mid, outs);
        assert(layer_out_seq(g2, ls[0], xs, mid) && mlp_out(g2, ls.skip(1), mid, outs));
    }
}

/// Threading one more layer onto a finished chain extends the chain's
/// output relation.
pub proof fn lemma_mlp_out_snoc(
    g: Seq<Op>,
    ls: Seq<Layer>,
    xs: Seq<usize>,
    mid: Seq<usize>,
    l: Layer,
    outs: Seq<usize>,
)
    requires
        mlp_out(g, ls, xs, mid),
        layer_out_seq(g, l, mid, outs),
    ensures
        mlp_out(g, ls.push(l), xs, outs),
    decreases ls.len(),
{
    if ls.len() == 0 {
        assert(mid == xs);
        assert(ls.push(l)[0] == l);
        assert(ls.push(l).skip(1) =~= Seq::<Layer>::empty());
        assert(layer_out_seq(g, ls.push(l)[0], xs, outs));
        assert(mlp_out(g, ls.push(l).skip(1), outs, outs));
    } else {
        let mid1 = choose|mid1: Seq<usize>|
            #[trigger] layer_out_seq(g, ls[0], xs, mid1) && mlp_out(g, ls.skip(1), mid1, mid);
        lemma_mlp_out_snoc(g, ls.skip(1), mid1, mid, l, outs);
        assert(ls.push(l).skip(1) =~= ls.skip(1).push(l));
        assert(ls.push(l)[0] == ls[0]);
        assert(layer_out_seq(g, ls.push(l)[0], xs, mid1) && mlp_out(g, ls.push(l).skip(1), mid1,
            outs));
    }
}

/// The parameter nodes of a chain of layers, flattened in layer order.
pub open spec fn mlp_params(ls: Seq<Layer>) -> Seq<usize>
    decreases ls.len(),
{
    if ls.len() == 0 {
        Seq::empty()
    } else {
        mlp_params(ls.drop_last()) + layer_params(ls.last().neurons@)
    }
}

/// The first arena index past the parameter blocks of a chain of layers
/// whose first block starts at `base` with input width `w`.
pub open spec fn layers_end(ls: Seq<Layer>, base: int, w: int) -> int
    decreases ls.len(),
{
    if ls.len() == 0 {
        base
    } else {
        layers_end(
            ls.skip(1),
            base + ls[0].neurons@.len() * (w + 1),
            ls[0].neurons@.len() as int,
        )
    }
}

/// The chain's parameter nodes occupy exactly the indices from `base` to
/// `layers_end`, one fresh block per layer.
pub open spec fn layers_fresh_at(ls: Seq<Layer>, base: int, w: int) -> bool
    decreases ls.len(),
{
    if ls.len() == 0 {
        true
    } else {
        layer_fresh_at(ls[0], base, w) && layers_fresh_at(
            ls.skip(1),
            base + ls[0].neurons@.len() * (w + 1),
            ls[0].neurons@.len() as int,
        )
    }
}

/// A fresh layout stays fresh when a layer laid out at the chain's end is
/// appended.
pub proof fn lemma_layers_fresh_snoc(ls: Seq<Layer>, base: int, w: int, l: Layer)
    requires
        layers_fresh_at(ls, base, w),
        layer_fresh_at(l, layers_end(ls, base, w), out_width(ls, w)),
    ensures
        layers_fresh_at(ls.push(l), base, w),
        layers_end(ls.push(l), base, w) == layers_end(ls, base, w) + l.neurons@.len() * (out_width(
            ls,
            w,
        ) + 1),
    decreases ls.len(),
{
    if ls.len() == 0 {
        assert(ls.push(l)[0] == l);
        assert(ls.push(l).skip(1) =~= Seq::<Layer>::empty());
        assert(layers_fresh_at(
            ls.push(l).skip(1),
            base + ls.push(l)[0].neurons@.len() * (w + 1),
            ls.push(l)[0].neurons@.len() as int,
        ));
        assert(layers_end(
            ls.push(l).skip(1),
            base + ls.push(l)[0].neurons@.len() * (w + 1),
            ls.push(l)[0].neurons@.len() as int,
        ) == base + l.neurons@.len() * (w + 1));
    } else {
        assert(out_width(ls.skip(1), ls[0].neurons@.len() as int) == out_width(ls, w)) by {
            if ls.len() > 1 {
                assert(ls.skip(1).last() == ls.last());
            }
        }
        lemma_layers_fresh_snoc(
            ls.skip(1),
            base + ls[0].neurons@.len() * (w + 1),
            ls[0].neurons@.len() as int,
            l,
        );
        assert(ls.push(l).skip(1) =~= ls.skip(1).push(l));
        assert(ls.push(l)[0] == ls[0]);
        assert(layers_fresh_at(
            ls.push(l).skip(1),
            base + ls.push(l)[0].neurons@.len() * (w + 1),
            ls.push(l)[0].neurons@.len() as int,
        ));
        assert(layers_end(ls.push(l).skip(1), base + ls.push(l)[0].neurons@.len() * (w + 1),
            ls.push(l)[0].neurons@.len() as int) == layers_end(ls, base, w) + l.neurons@.len() * (
        out_width(ls, w) + 1));
    }
}

impl MLP {
    /// Every node this network names exists in a graph of length `glen`.
    pub open spec fn in_graph(&self, glen: int) -> bool {
        forall|i: int| 0 <= i < self.layers@.len() ==> (#[trigger] self.layers@[i]).in_graph(glen)
    }

    /// A network with input width `nin` and one layer of `nouts[i]`
    /// neurons per entry, each layer feeding the next.  All parameters
    /// are fresh leaves laid out layer by layer.
    pub fn new(g: &mut Graph, nin: usize, nouts: Vec<usize>) -> (r: MLP)
        requires
            old(g).wf(),
        ensures
            final(g).wf(),
            extends(final(g)@, old(g)@),
            forall|j: int| old(g)@.len() <= j < final(g)@.len() ==> final(g)@[j] == Op::Leaf,
            r.layers@.len() == nouts@.len(),
            forall|i: int|
                0 <= i < nouts@.len() ==> (#[trigger] r.layers@[i]).neurons@.len() == nouts@[i],
            chain_ok(r.layers@, nin as int),
            layers_fresh_at(r.layers@, old(g)@.len() as int, nin as int),
            final(g)@.len() == layers_end(r.layers@, old(g)@.len() as int, nin as int),
            r.in_graph(final(g)@.len() as int),
    {
        let mut layers: Vec<Layer> = Vec::new();
        let mut prev: usize = nin;
        let mut k: usize = 0;
        while k < nouts.len()
            invariant
                g.wf(),
                extends(g@, old(g)@),
                k <= nouts@.len(),
                layers@.len() == k,
                forall|t: int| old(g)@.len() <= t < g@.len() ==> g@[t] == Op::Leaf,
                forall|i: int|
                    0 <= i < k ==> (#[trigger] layers@[i]).neurons@.len() == nouts@[i],
                chain_ok(layers@, nin as int),
                prev as int == out_width(layers@, nin as int),
                layers_fresh_at(layers@, old(g)@.len() as int, nin as int),
                g@.len() == layers_end(layers@, old(g)@.len() as int, nin as int),
                forall|i: int| 0 <= i < k ==> (#[trigger] layers@[i]).in_graph(g@.len() as int),
            decreases nouts@.len() - k,
        {
            let nout_k = nouts[k];
            let ghost gpre = g@;
            let l = Layer::new(g, prev, nout_k);
            proof {
                lemma_chain_ok_snoc(layers@, nin as int, l);
                lemma_layers_fresh_snoc(layers@, old(g)@.len() as int, nin as int, l);
                assert forall|t: int| old(g)@.len() <= t < g@.len() implies g@[t] == Op::Leaf by {
                    if t < gpre.len() {
                        assert(g@[t] == gpre[t]);
                    }
                }
            }
            layers.push(l);
            prev = nout_k;
            k += 1;
        }
        MLP { layers }
    }

    /// The network's prediction nodes for a batch of input-node vectors:
    /// each sample is threaded through every layer in order, and the last
    /// layer's outputs are that sample's prediction vector.
    pub fn forward(&self, g: &mut Graph, xs: &Vec<Vec<usize>>) -> (r: Vec<Vec<usize>>)
        requires
            old(g).wf(),
            self.in_graph(old(g)@.len() as int),
            forall|s: int, t: int|
                0 <= s < xs@.len() && 0 <= t < xs@[s]@.len()
                    ==> ((#[trigger] xs@[s]@[t]) as int) < old(g)@.len(),
            forall|s: int|
                0 <= s < xs@.len() ==> chain_ok(self.layers@, (#[trigger] xs@[s]@.len()) as int),
        ensures
            final(g).wf(),
            extends(final(g)@, old(g)@),
            r@.len() == xs@.len(),
            forall|s: int|
                0 <= s < xs@.len() ==> mlp_out(final(g)@, self.layers@, xs@[s]@, (#[trigger] r@[s])@),
            forall|s: int, t: int|
                0 <= s < r@.len() && 0 <= t < r@[s]@.len()
                    ==> ((#[trigger] r@[s]@[t]) as int) < final(g)@.len(),
            forall|s: int|
                0 <= s < r@.len() && self.layers@.len() > 0
                    ==> (#[trigger] r@[s])@.len() == self.layers@.last().neurons@.len(),
            forall|s: int|
                0 <= s < r@.len() && self.layers@.len() == 0 ==> (#[trigger] r@[s])@ == xs@[s]@,
    {
        let mut r: Vec<Vec<usize>> = Vec::new();
        let mut s: usize = 0;
        while s < xs.len()
            invariant
                g.wf(),
                extends(g@, old(g)@),
                self.in_graph(old(g)@.len() as int),
                forall|u: int, t: int|
                    0 <= u < xs@.len() && 0 <= t < xs@[u]@.len()
                        ==> ((#[trigger] xs@[u]@[t]) as int) < old(g)@.len(),
                forall|u: int|
                    0 <= u < xs@.len()
                        ==> chain_ok(self.layers@, (#[trigger] xs@[u]@.len()) as int),
                s <= xs@.len(),
                r@.len() == s,
                forall|u: int|
                    0 <= u < s ==> mlp_out(g@, self.layers@, xs@[u]@, (#[trigger] r@[u])@),
                forall|u: int, t: int|
                    0 <= u < r@.len() && 0 <= t < r@[u]@.len()
                        ==> ((#[trigger] r@[u]@[t]) as int) < g@.len(),
                forall|u: int|
                    0 <= u < r@.len() && self.layers@.len() > 0
                        ==> (#[trigger] r@[u])@.len() == self.layers@.last().neurons@.len(),
                forall|u: int|
                    0 <= u < r@.len() && self.layers@.len() == 0 ==> (#[trigger] r@[u])@ == xs@[u]@,
            decreases xs@.len() - s,
        {
            let mut cur: Vec<usize> = Vec::new();
            let mut t: usize = 0;
            while t < xs[s].len()
                invariant
                    s < xs@.len(),
                    t <= xs@[s as int]@.len(),
                    cur@ == xs@[s as int]@.take(t as int),
                decreases xs@[s as int]@.len() - t,
            {
                let v = xs[s][t];
                cur.push(v);
                proof {
                    assert(cur@ =~= xs@[s as int]@.take(t as int + 1));
                }
                t += 1;
            }
            proof {
                assert(xs@[s as int]@.take(xs@[s as int]@.len() as int) =~= xs@[s as int]@);
                assert(mlp_out(g@, self.layers@.take(0), xs@[s as int]@, cur@));
                assert(self.layers@.skip(0) =~= self.layers@);
                assert(chain_ok(self.layers@, xs@[s as int]@.len() as int));
            }
            let mut li: usize = 0;
            while li < self.layers.len()
                invariant
                    g.wf(),
                    extends(g@, old(g)@),
                    self.in_graph(old(g)@.len() as int),
                    s < xs@.len(),
                    r@.len() == s,
                    li <= self.layers@.len(),
                    mlp_out(g@, self.layers@.take(li as int), xs@[s as int]@, cur@),
                    chain_ok(self.layers@.skip(li as int), cur@.len() as int),
                    forall|t2: int|
                        0 <= t2 < cur@.len() ==> ((#[trigger] cur@[t2]) as int) < g@.len(),
                    li == 0 ==> cur@ == xs@[s as int]@,
                    li > 0 ==> cur@.len() == self.layers@[li as int - 1].neurons@.len(),
                    forall|u: int|
                        0 <= u < s ==> mlp_out(g@, self.layers@, xs@[u]@, (#[trigger] r@[u])@),
                    forall|u: int, t2: int|
                        0 <= u < r@.len() && 0 <= t2 < r@[u]@.len()
                            ==> ((#[trigger] r@[u]@[t2]) as int) < g@.len(),
                    forall|u: int|
                        0 <= u < r@.len() && self.layers@.len() > 0
                            ==> (#[trigger] r@[u])@.len() == self.layers@.last().neurons@.len(),
                    forall|u: int|
                        0 <= u < r@.len() && self.layers@.len() == 0
                            ==> (#[trigger] r@[u])@ == xs@[u]@,
                decreases self.layers@.len() - li,
            {
                proof {
                    assert(self.layers@.skip(li as int)[0] == self.layers@[li as int]);
                }
                let ghost gpre = g@;
                let outs = self.layers[li].forward(g, &cur);
                proof {
                    assert forall|u: int|
                        0 <= u < s implies mlp_out(g@, self.layers@, xs@[u]@, (#[trigger] r@[u])@) by {
                        lemma_mlp_out_mono(gpre, g@, self.layers@, xs@[u]@, r@[u]@);
                    }
                    lemma_mlp_out_mono(gpre, g@, self.layers@.take(li as int), xs@[s as int]@,
                        cur@);
                    lemma_mlp_out_snoc(g@, self.layers@.take(li as int), xs@[s as int]@, cur@,
                        self.layers@[li as int], outs@);
                    assert(self.layers@.take(li as int).push(self.layers@[li as int])
                        =~= self.layers@.take(li as int + 1));
                    assert(self.layers@.skip(li as int).skip(1) =~= self.layers@.skip(
                        li as int + 1,
                    ));
                }
                cur = outs;
                li += 1;
            }
            proof {
                assert(self.layers@.take(self.layers@.len() as int) =~= self.layers@);
            }
            r.push(cur);
            s += 1;
        }
        r
    }

    /// The complete, order-stable sequence of every parameter node of the
    /// network — each neuron's bias and weights, neuron by neuron, layer
    /// by layer.  This is the whole handle a training loop needs to read
    /// and update values and gradients.
    pub fn parameters(&self) -> (r: Vec<usize>)
        ensures
            r@ == mlp_params(self.layers@),
    {
        let mut params: Vec<usize> = Vec::new();
        let mut k: usize = 0;
        while k < self.layers.len()
            invariant
                k <= self.layers@.len(),
                params@ == mlp_params(self.layers@.take(k as int)),
            decreases self.layers@.len() - k,
        {
            let mut p = self.layers[k].parameters();
            params.append(&mut p);
            proof {
                assert(self.layers@.take(k as int + 1).drop_last() =~= self.layers@.take(k as int));
                assert(self.layers@.take(k as int + 1).last() == self.layers@[k as int]);
            }
            k += 1;
        }
        proof {
            assert(self.layers@.take(self.layers@.len() as int) =~= self.layers@);
        }
        params
    }
}

/// Node `n` computes the sum of squared differences over the paired
/// prediction and target nodes: the empty sum is a fresh leaf (whose
/// value the caller keeps at zero), and each pair adds
/// `(p - t) * (p - t)`, the difference built as `p + (-t)`.
pub open spec fn sse_chain(g: Seq<Op>, ps: Seq<usize>, ts: Seq<usize>, n: usize) -> bool
    decreases ps.len(),
{
    if ps.len() == 0 {
        (n as int) < g.len() && g[n as int] == Op::Leaf
    } else {
        (n as int) < g.len() && match g[n as int] {
            Op::Add(prev, sq) => (sq as int) < g.len() && match g[sq as int] {
                Op::Mul(d1, d2) => d1 == d2 && (d1 as int) < g.len() && match g[d1 as int] {
                    Op::Add(p, ng) => p == ps.last() && (ng as int) < g.len()
                        && g[ng as int] == Op::Neg(ts.last())
                        && sse_chain(g, ps.drop_last(), ts.drop_last(), prev),
                    _ => false,
                },
                _ => false,
            },
            _ => false,
        }
    }
}

/// A squared-error chain survives appending nodes to the graph.
pub proof fn lemma_sse_chain_mono(g1: Seq<Op>, g2: Seq<Op>, ps: Seq<usize>, ts: Seq<usize>, n: usize)
    requires
        sse_chain(g1, ps, ts, n),
        extends(g2, g1),
    ensures
        sse_chain(g2, ps, ts, n),
    decreases ps.len(),
{
    if ps.len() == 0 {
        assert(g2[n as int] == g1[n as int]);
    } else {
        match g1[n as int] {
            Op::Add(prev, sq) => {
                match g1[sq as int] {
                    Op::Mul(d1, d2) => {
                        match g1[d1 as int] {
                            Op::Add(p, ng) => {
                                lemma_sse_chain_mono(g1, g2, ps.drop_last(), ts.drop_last(), prev);
                                assert(g2[n as int] == g1[n as int]);
                                assert(g2[sq as int] == g1[sq as int]);
                                assert(g2[d1 as int] == g1[d1 as int]);
                                assert(g2[ng as int] == g1[ng as int]);
                            }
                            _ => {}
                        }
                    }
                    _ => {}
                }
            }
            _ => {}
        }
    }
}

/// The loss node for a batch: a fresh zero leaf plus, for every
/// prediction/target pair in order, the squared difference
/// `(p - t) * (p - t)` — the graph-level sum-of-squared-errors a training
/// loop drives its backward pass from.  The fresh leaf stands for zero:
/// the caller leaves its value at zero when evaluating.
pub fn calc_loss(g: &mut Graph, preds: &Vec<usize>, targets: &Vec<usize>) -> (loss: usize)
    requires
        old(g).wf(),
        preds@.len() == targets@.len(),
        forall|i: int| 0 <= i < preds@.len() ==> ((#[trigger] preds@[i]) as int) < old(g)@.len(),
        forall|i: int|
            0 <= i < targets@.len() ==> ((#[trigger] targets@[i]) as int) < old(g)@.len(),
    ensures
        final(g).wf(),
        extends(final(g)@, old(g)@),
        (loss as int) < final(g)@.len(),
        final(g)@.len() == old(g)@.len() + 1 + 4 * preds@.len(),
        sse_chain(final(g)@, preds@, targets@, loss),
{
    let mut loss = g.leaf();
    let mut i: usize = 0;
    while i < preds.len()
        invariant
            g.wf(),
            extends(g@, old(g)@),
            preds@.len() == targets@.len(),
            forall|t: int|
                0 <= t < preds@.len() ==> ((#[trigger] preds@[t]) as int) < old(g)@.len(),
            forall|t: int|
                0 <= t < targets@.len() ==> ((#[trigger] targets@[t]) as int) < old(g)@.len(),
            i <= preds@.len(),
            (loss as int) < g@.len(),
            g@.len() == old(g)@.len() + 1 + 4 * (i as int),
            sse_chain(g@, preds@.take(i as int), targets@.take(i as int), loss),
        decreases preds@.len() - i,
    {
        let p = preds[i];
        let t = targets[i];
        let ghost g1 = g@;
        let d = g.sub(p, t);
        let sq = g.mul(d, d);
        let loss2 = g.add(loss, sq);
        proof {
            lemma_sse_chain_mono(g1, g@, preds@.take(i as int), targets@.take(i as int), loss);
            assert(preds@.take(i as int + 1).drop_last() =~= preds@.take(i as int));
            assert(targets@.take(i as int + 1).drop_last() =~= targets@.take(i as int));
            assert(preds@.take(i as int + 1).last() == p);
            assert(targets@.take(i as int + 1).last() == t);
            assert(g@[loss2 as int] == Op::Add(loss, sq));
            assert(g@[sq as int] == Op::Mul(d, d));
            assert(g@[d as int] == Op::Add(p, g1.len() as usize));
            assert(g@[g1.len() as int] == Op::Neg(t));
            assert(sse_chain(g@, preds@.take(i as int + 1), targets@.take(i as int + 1), loss2));
        }
        loss = loss2;
        i += 1;
    }
    proof {
        assert(preds@.take(preds@.len() as int) =~= preds@);
        assert(targets@.take(targets@.len() as int) =~= targets@);
    }
    loss
}

} // verus!
