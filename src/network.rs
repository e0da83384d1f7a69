use vstd::prelude::*;

use crate::graph::{appended, lemma_appended_none, lemma_appended_trans, lemma_len_below_next_id, Graph, Op};

verus! {

/// Why an input was refused.
#[derive(Clone, Copy, Debug, PartialEq, Eq, Structural)]
pub enum ShapeError {
    /// The input has `actual` entries where `expected` were needed.
    LengthMismatch { expected: usize, actual: usize },
}

/// `n` fresh leaves.
pub open spec fn leaves(n: nat) -> Seq<Op> {
    Seq::new(n, |i: int| Op::Leaf)
}

/// The indices `start`, `start + 1`, ..., `start + n - 1`.
pub open spec fn run(start: int, n: nat) -> Seq<usize> {
    Seq::new(n, |i: int| (start + i) as usize)
}

/// The operations that sum the first `i` products `x[k] * w[k]`, recorded from index
/// `base` on: a zero leaf, then for each term its product and the running sum, which
/// after `i` terms stands at `base + 2 i`.
pub open spec fn sum_ops(base: int, x: Seq<usize>, w: Seq<usize>, i: nat) -> Seq<Op>
    decreases i,
{
    if i == 0 {
        seq![Op::Leaf]
    } else {
        let k = i - 1;
        sum_ops(base, x, w, k as nat) + seq![
            Op::Mul(x[k], w[k]),
            Op::Plus((base + 2 * k) as usize, (base + 2 * k + 1) as usize),
        ]
    }
}

/// The operations of one neuron on inputs `x`, recorded from index `base` on:
/// `tanh(x[0] * w[0] + ... + x[n-1] * w[n-1] + bias)`, its output last.
pub open spec fn neuron_ops(base: int, x: Seq<usize>, w: Seq<usize>, bias: usize) -> Seq<Op> {
    let n = w.len();
    sum_ops(base, x, w, n) + seq![
        Op::Plus((base + 2 * n) as usize, bias),
        Op::Tanh((base + 2 * n + 1) as usize),
    ]
}

/// Every index of `s` names one of the first `len` nodes.
pub open spec fn all_below(s: Seq<usize>, len: nat) -> bool {
    forall|i: int| 0 <= i < s.len() ==> #[trigger] s[i] < len
}

/// A unit: weighted sum of its inputs plus a bias, through `tanh`. Weights and bias
/// are leaves of the graph, named by index.
pub struct Neuron {
    weights: Vec<usize>,
    bias: usize,
}

impl Neuron {
    pub closed spec fn weights(&self) -> Seq<usize> {
        self.weights@
    }

    pub closed spec fn bias(&self) -> usize {
        self.bias
    }

    /// Its weights and bias are nodes of a graph of `len` nodes.
    pub open spec fn within(&self, len: nat) -> bool {
        all_below(self.weights(), len) && self.bias() < len
    }

    /// A neuron with `nin` inputs: `nin` fresh weight leaves, then a fresh bias leaf.
    pub fn new(g: &mut Graph, nin: usize) -> (n: Neuron)
        requires
            old(g).wf(),
            old(g).has_room(nin + 1),
        ensures
            final(g).wf(),
            appended(*old(g), *final(g), leaves((nin + 1) as nat)),
            n.weights() == run(old(g).nodes().len() as int, nin as nat),
            n.bias() == old(g).nodes().len() + nin,
            n.within(final(g).nodes().len()),
    {
        let ghost g0 = *g;
        proof {
            lemma_len_below_next_id(g0);
            lemma_appended_none(g0);
            assert(leaves(0) =~= Seq::<Op>::empty());
        }
        let base = g.len();
        let mut weights: Vec<usize> = Vec::new();
        let mut i: usize = 0;
        while i < nin
            invariant
                g.wf(),
                base == g0.nodes().len(),
                base + nin + 1 <= usize::MAX,
                g0.has_room(nin + 1),
                i <= nin,
                appended(g0, *g, leaves(i as nat)),
                weights@ == run(base as int, i as nat),
            decreases nin - i,
        {
            let ghost g1 = *g;
            let w = g.leaf();
            proof {
                lemma_appended_trans(g0, g1, *g, leaves(i as nat), seq![Op::Leaf]);
                assert(leaves(i as nat) + seq![Op::Leaf] =~= leaves((i + 1) as nat));
            }
            weights.push(w);
            i = i + 1;
            proof {
                assert(weights@ =~= run(base as int, i as nat));
            }
        }
        let ghost g1 = *g;
        let bias = g.leaf();
        proof {
            lemma_appended_trans(g0, g1, *g, leaves(nin as nat), seq![Op::Leaf]);
            assert(leaves(nin as nat) + seq![Op::Leaf] =~= leaves((nin + 1) as nat));
        }
        Neuron { weights, bias }
    }

    /// Its trainable nodes: the weights, then the bias.
    pub fn get_parameters(&self) -> (r: Vec<usize>)
        ensures
            r@ == self.weights().push(self.bias()),
    {
        let mut v = self.weights.clone();
        v.push(self.bias);
        v
    }

    /// Records `tanh(sum of x[i] * w[i] + bias)` in the graph and returns its node.
    /// An input whose length differs from the number of weights is refused, and the
    /// graph is then left as it was.
    pub fn apply(&self, g: &mut Graph, x: &Vec<usize>) -> (r: Result<usize, ShapeError>)
        requires
            old(g).wf(),
            self.within(old(g).nodes().len()),
            all_below(x@, old(g).nodes().len()),
            old(g).has_room(2 * self.weights().len() as int + 3),
        ensures
            final(g).wf(),
            x@.len() != self.weights().len() ==> r == Err::<usize, ShapeError>(
                ShapeError::LengthMismatch { expected: self.weights().len() as usize, actual: x@.len() as usize },
            ) && *final(g) == *old(g),
            x@.len() == self.weights().len() ==> r == Ok::<usize, ShapeError>(
                (old(g).nodes().len() + 2 * x@.len() + 2) as usize,
            ) && appended(
                *old(g),
                *final(g),
                neuron_ops(old(g).nodes().len() as int, x@, self.weights(), self.bias()),
            ),
    {
        let n = self.weights.len();
        if x.len() != n {
            return Err(ShapeError::LengthMismatch { expected: n, actual: x.len() });
        }
        let ghost g0 = *g;
        let ghost base = g0.nodes().len() as int;
        proof {
            lemma_len_below_next_id(g0);
        }
        let mut s = g.leaf();
        proof {
            assert(seq![Op::Leaf] =~= sum_ops(base, x@, self.weights(), 0));
        }
        let mut i: usize = 0;
        while i < n
            invariant
                g.wf(),
                n == self.weights().len(),
                x@.len() == n,
                base == g0.nodes().len(),
                base + 2 * n + 3 <= usize::MAX,
                g0.has_room(2 * n + 3),
                self.within(g0.nodes().len()),
                all_below(x@, g0.nodes().len()),
                i <= n,
                appended(g0, *g, sum_ops(base, x@, self.weights(), i as nat)),
                g.nodes().len() == base + 2 * i + 1,
                s == base + 2 * i,
            decreases n - i,
        {
            let ghost g1 = *g;
            let m = g.mul(x[i], self.weights[i]);
            let ghost g2 = *g;
            let t = g.add(s, m);
            proof {
                lemma_appended_trans(g1, g2, *g, seq![Op::Mul(x@[i as int], self.weights()[i as int])], seq![Op::Plus(s, m)]);
                lemma_appended_trans(
                    g0,
                    g1,
                    *g,
                    sum_ops(base, x@, self.weights(), i as nat),
                    seq![Op::Mul(x@[i as int], self.weights()[i as int])] + seq![Op::Plus(s, m)],
                );
                assert(sum_ops(base, x@, self.weights(), (i + 1) as nat) =~= sum_ops(
                    base,
                    x@,
                    self.weights(),
                    i as nat,
                ) + (seq![Op::Mul(x@[i as int], self.weights()[i as int])] + seq![Op::Plus(s, m)]));
            }
            s = t;
            i = i + 1;
        }
        let ghost g1 = *g;
        let t = g.add(s, self.bias);
        let ghost g2 = *g;
        let r = g.tanh(t);
        proof {
            lemma_appended_trans(g1, g2, *g, seq![Op::Plus(s, self.bias)], seq![Op::Tanh(t)]);
            lemma_appended_trans(
                g0,
                g1,
                *g,
                sum_ops(base, x@, self.weights(), n as nat),
                seq![Op::Plus(s, self.bias)] + seq![Op::Tanh(t)],
            );
            assert(neuron_ops(base, x@, self.weights(), self.bias()) =~= sum_ops(
                base,
                x@,
                self.weights(),
                n as nat,
            ) + (seq![Op::Plus(s, self.bias)] + seq![Op::Tanh(t)]));
        }
        Ok(r)
    }
}

/// `sum_ops` records two nodes per term after the zero leaf.
proof fn lemma_sum_ops_len(base: int, x: Seq<usize>, w: Seq<usize>, i: nat)
    ensures
        sum_ops(base, x, w, i).len() == 2 * i + 1,
    decreases i,
{
    if i > 0 {
        lemma_sum_ops_len(base, x, w, (i - 1) as nat);
    }
}

/// A neuron with `n` weights records `2 n + 3` nodes.
proof fn lemma_neuron_ops_len(base: int, x: Seq<usize>, w: Seq<usize>, bias: usize)
    ensures
        neuron_ops(base, x, w, bias).len() == 2 * w.len() + 3,
{
    lemma_sum_ops_len(base, x, w, w.len());
}

/// The parameters of the first `j` neurons, neuron after neuron.
pub open spec fn neuron_params(neurons: Seq<Neuron>, j: nat) -> Seq<usize>
    decreases j,
{
    if j == 0 {
        seq![]
    } else {
        let n = neurons[j - 1];
        neuron_params(neurons, (j - 1) as nat) + n.weights().push(n.bias())
    }
}

proof fn lemma_neuron_params_prefix(a: Seq<Neuron>, b: Seq<Neuron>, j: nat)
    requires
        j <= a.len(),
        j <= b.len(),
        forall|k: int| 0 <= k < j ==> a[k] == b[k],
    ensures
        neuron_params(a, j) == neuron_params(b, j),
    decreases j,
{
    if j > 0 {
        lemma_neuron_params_prefix(a, b, (j - 1) as nat);
    }
}

/// What the first `j` neurons record on inputs `x`, from index `base` on, and the
/// output node of each.
pub open spec fn layer_trace(base: int, x: Seq<usize>, neurons: Seq<Neuron>, j: nat) -> (Seq<Op>, Seq<usize>)
    decreases j,
{
    if j == 0 {
        (seq![], seq![])
    } else {
        let prev = layer_trace(base, x, neurons, (j - 1) as nat);
        let n = neurons[j - 1];
        let start = base + prev.0.len();
        let more = neuron_ops(start, x, n.weights(), n.bias());
        (prev.0 + more, prev.1.push((start + more.len() - 1) as usize))
    }
}

proof fn lemma_layer_trace_grows(base: int, x: Seq<usize>, neurons: Seq<Neuron>, j: nat, k: nat)
    requires
        j <= k,
    ensures
        layer_trace(base, x, neurons, j).0.len() <= layer_trace(base, x, neurons, k).0.len(),
    decreases k,
{
    if j < k {
        lemma_layer_trace_grows(base, x, neurons, j, (k - 1) as nat);
    }
}

proof fn lemma_mul_step(j: int, n: int, w: int)
    requires
        0 <= j < n,
        0 <= w,
    ensures
        (j + 1) * w == j * w + w,
        (j + 1) * w <= n * w,
        0 <= j * w,
{
    assert((j + 1) * w == j * w + w) by (nonlinear_arith);
    assert((j + 1) * w <= n * w) by (nonlinear_arith)
        requires
            j + 1 <= n,
            0 <= w,
    ;
    assert(0 <= j * w) by (nonlinear_arith)
        requires
            0 <= j,
            0 <= w,
    ;
}

/// A row of neurons that all read the same inputs.
pub struct Layer {
    nin: usize,
    neurons: Vec<Neuron>,
}

impl Layer {
    pub closed spec fn nin(&self) -> nat {
        self.nin as nat
    }

    pub closed spec fn neurons(&self) -> Seq<Neuron> {
        self.neurons@
    }

    /// Every neuron takes `nin` inputs and lives in a graph of `len` nodes.
    pub open spec fn within(&self, len: nat) -> bool {
        forall|j: int|
            0 <= j < self.neurons().len() ==> (#[trigger] self.neurons()[j]).within(len)
                && self.neurons()[j].weights().len() == self.nin()
    }

    /// A layer of `nout` neurons with `nin` inputs each; its parameters are the
    /// `nout * (nin + 1)` fresh leaves, in order.
    pub fn new(g: &mut Graph, nin: usize, nout: usize) -> (l: Layer)
        requires
            old(g).wf(),
            old(g).has_room(nout * (nin + 1)),
        ensures
            final(g).wf(),
            appended(*old(g), *final(g), leaves((nout * (nin + 1)) as nat)),
            l.nin() == nin,
            l.neurons().len() == nout,
            neuron_params(l.neurons(), nout as nat) == run(
                old(g).nodes().len() as int,
                (nout * (nin + 1)) as nat,
            ),
            l.within(final(g).nodes().len()),
    {
        let ghost g0 = *g;
        let ghost base = g0.nodes().len() as int;
        let ghost w = nin + 1;
        proof {
            lemma_len_below_next_id(g0);
            lemma_appended_none(g0);
            assert(leaves(0) =~= Seq::<Op>::empty());
            assert(run(base, 0) =~= Seq::<usize>::empty());
        }
        let mut neurons: Vec<Neuron> = Vec::new();
        let mut j: usize = 0;
        while j < nout
            invariant
                g.wf(),
                w == nin + 1,
                base == g0.nodes().len(),
                g0.has_room(nout * w),
                j <= nout,
                0 <= j * w,
                appended(g0, *g, leaves((j * w) as nat)),
                neurons@.len() == j,
                neuron_params(neurons@, j as nat) == run(base, (j * w) as nat),
                forall|k: int|
                    0 <= k < j ==> (#[trigger] neurons@[k]).within(g.nodes().len())
                        && neurons@[k].weights().len() == nin,
            decreases nout - j,
        {
            proof {
                lemma_mul_step(j as int, nout as int, w);
                lemma_len_below_next_id(*g);
            }
            let ghost g1 = *g;
            let n = Neuron::new(g, nin);
            proof {
                lemma_appended_trans(g0, g1, *g, leaves((j * w) as nat), leaves(w as nat));
                assert(leaves((j * w) as nat) + leaves(w as nat) =~= leaves(((j + 1) * w) as nat));
                assert(g1.nodes().len() == base + j * w);
            }
            let ghost prev = neurons@;
            let ghost start = base + j * w;
            neurons.push(n);
            j = j + 1;
            proof {
                assert(neurons@[j - 1] == n);
                lemma_neuron_params_prefix(neurons@, prev, (j - 1) as nat);
                assert(n.weights().push(n.bias()) =~= run(start, w as nat));
                assert(neuron_params(neurons@, j as nat) =~= run(base, (j * w) as nat));
                assert forall|k: int|
                    0 <= k < j implies (#[trigger] neurons@[k]).within(g.nodes().len())
                        && neurons@[k].weights().len() == nin by {
                    if k < j - 1 {
                        assert(neurons@[k] == prev[k]);
                    }
                }
            }
        }
        Layer { nin, neurons }
    }

    /// Applies every neuron to the same inputs, first neuron first, and returns their
    /// outputs. An input whose length differs from the layer's input width is refused
    /// when the layer has a neuron to refuse it, and the graph is then left as it was.
    pub fn apply(&self, g: &mut Graph, x: &Vec<usize>) -> (r: Result<Vec<usize>, ShapeError>)
        requires
            old(g).wf(),
            self.within(old(g).nodes().len()),
            all_below(x@, old(g).nodes().len()),
            old(g).has_room(
                layer_trace(
                    old(g).nodes().len() as int,
                    x@,
                    self.neurons(),
                    self.neurons().len(),
                ).0.len() as int,
            ),
        ensures
            final(g).wf(),
            self.neurons().len() > 0 && x@.len() != self.nin() ==> r == Err::<Vec<usize>, ShapeError>(
                ShapeError::LengthMismatch { expected: self.nin() as usize, actual: x@.len() as usize },
            ) && *final(g) == *old(g),
            !(self.neurons().len() > 0 && x@.len() != self.nin()) ==> r is Ok && r->Ok_0@
                == layer_trace(
                old(g).nodes().len() as int,
                x@,
                self.neurons(),
                self.neurons().len(),
            ).1 && appended(
                *old(g),
                *final(g),
                layer_trace(
                    old(g).nodes().len() as int,
                    x@,
                    self.neurons(),
                    self.neurons().len(),
                ).0,
            ) && all_below(r->Ok_0@, final(g).nodes().len()),
    {
        if self.neurons.len() > 0 && x.len() != self.nin {
            return Err(ShapeError::LengthMismatch { expected: self.nin, actual: x.len() });
        }
        let ghost g0 = *g;
        let ghost base = g0.nodes().len() as int;
        let ghost nn = self.neurons().len();
        proof {
            lemma_appended_none(g0);
            lemma_len_below_next_id(g0);
        }
        let mut outs: Vec<usize> = Vec::new();
        let mut j: usize = 0;
        while j < self.neurons.len()
            invariant
                g.wf(),
                nn == self.neurons().len(),
                nn > 0 ==> x@.len() == self.nin(),
                base == g0.nodes().len(),
                self.within(g0.nodes().len()),
                all_below(x@, g0.nodes().len()),
                g0.has_room(layer_trace(base, x@, self.neurons(), nn).0.len() as int),
                j <= nn,
                appended(g0, *g, layer_trace(base, x@, self.neurons(), j as nat).0),
                outs@ == layer_trace(base, x@, self.neurons(), j as nat).1,
                all_below(outs@, g.nodes().len()),
            decreases nn - j,
        {
            let ghost g1 = *g;
            let ghost prev = layer_trace(base, x@, self.neurons(), j as nat);
            let ghost n = self.neurons()[j as int];
            proof {
                lemma_layer_trace_grows(base, x@, self.neurons(), (j + 1) as nat, nn);
                lemma_neuron_ops_len(base + prev.0.len(), x@, n.weights(), n.bias());
                assert(self.neurons()[j as int].within(g0.nodes().len()));
                assert(g1.nodes().len() == base + prev.0.len());
                assert(all_below(x@, g1.nodes().len()));
            }
            let o = self.neurons[j].apply(g, x);
            match o {
                Ok(v) => {
                    proof {
                        lemma_appended_trans(
                            g0,
                            g1,
                            *g,
                            prev.0,
                            neuron_ops(base + prev.0.len(), x@, n.weights(), n.bias()),
                        );
                    }
                    outs.push(v);
                },
                Err(e) => {
                    return Err(e);
                },
            }
            j = j + 1;
        }
        Ok(outs)
    }

    /// Its trainable nodes: those of each neuron, neuron after neuron.
    pub fn get_parameters(&self) -> (r: Vec<usize>)
        ensures
            r@ == neuron_params(self.neurons(), self.neurons().len()),
    {
        let mut r: Vec<usize> = Vec::new();
        let mut j: usize = 0;
        while j < self.neurons.len()
            invariant
                j <= self.neurons().len(),
                r@ == neuron_params(self.neurons(), j as nat),
            decreases self.neurons().len() - j,
        {
            let mut p = self.neurons[j].get_parameters();
            r.append(&mut p);
            j = j + 1;
        }
        r
    }
}

proof fn lemma_layer_trace_outputs(base: int, x: Seq<usize>, neurons: Seq<Neuron>, j: nat)
    ensures
        layer_trace(base, x, neurons, j).1.len() == j,
    decreases j,
{
    if j > 0 {
        lemma_layer_trace_outputs(base, x, neurons, (j - 1) as nat);
    }
}

/// The input width of layer `l` of a perceptron with `nin` inputs and layer output
/// widths `nouts`.
pub open spec fn width(nin: nat, nouts: Seq<usize>, l: int) -> nat {
    if l == 0 {
        nin
    } else {
        nouts[l - 1] as nat
    }
}

/// How many parameters the first `l` layers hold.
pub open spec fn param_count(nin: nat, nouts: Seq<usize>, l: nat) -> nat
    decreases l,
{
    if l == 0 {
        0
    } else {
        (param_count(nin, nouts, (l - 1) as nat) + nouts[l - 1] * (width(nin, nouts, l - 1) + 1)) as nat
    }
}

proof fn lemma_param_count_grows(nin: nat, nouts: Seq<usize>, j: nat, k: nat)
    requires
        j <= k,
    ensures
        param_count(nin, nouts, j) <= param_count(nin, nouts, k),
    decreases k,
{
    if j < k {
        lemma_param_count_grows(nin, nouts, j, (k - 1) as nat);
        assert(0 <= nouts[k - 1] * (width(nin, nouts, k - 1) + 1)) by (nonlinear_arith);
    }
}

/// The parameters of the first `l` layers, layer after layer.
pub open spec fn layer_params(layers: Seq<Layer>, l: nat) -> Seq<usize>
    decreases l,
{
    if l == 0 {
        seq![]
    } else {
        let layer = layers[l - 1];
        layer_params(layers, (l - 1) as nat) + neuron_params(layer.neurons(), layer.neurons().len())
    }
}

proof fn lemma_layer_params_prefix(a: Seq<Layer>, b: Seq<Layer>, l: nat)
    requires
        l <= a.len(),
        l <= b.len(),
        forall|k: int| 0 <= k < l ==> a[k] == b[k],
    ensures
        layer_params(a, l) == layer_params(b, l),
    decreases l,
{
    if l > 0 {
        lemma_layer_params_prefix(a, b, (l - 1) as nat);
    }
}

/// What the first `l` layers record on inputs `x`, from index `base` on, and the
/// outputs of the last of them (`x` itself when `l` is 0).
pub open spec fn mlp_trace(base: int, x: Seq<usize>, layers: Seq<Layer>, l: nat) -> (Seq<Op>, Seq<usize>)
    decreases l,
{
    if l == 0 {
        (seq![], x)
    } else {
        let prev = mlp_trace(base, x, layers, (l - 1) as nat);
        let layer = layers[l - 1];
        let lt = layer_trace(base + prev.0.len(), prev.1, layer.neurons(), layer.neurons().len());
        (prev.0 + lt.0, lt.1)
    }
}

proof fn lemma_mlp_trace_grows(base: int, x: Seq<usize>, layers: Seq<Layer>, j: nat, k: nat)
    requires
        j <= k,
    ensures
        mlp_trace(base, x, layers, j).0.len() <= mlp_trace(base, x, layers, k).0.len(),
    decreases k,
{
    if j < k {
        lemma_mlp_trace_grows(base, x, layers, j, (k - 1) as nat);
    }
}

/// A multi-layer perceptron: layers applied in turn, each to the outputs of the one before.
pub struct MLP {
    layers: Vec<Layer>,
}

impl MLP {
    pub closed spec fn layers(&self) -> Seq<Layer> {
        self.layers@
    }

    /// Every layer lives in a graph of `len` nodes and reads as many inputs as the
    /// layer before it has neurons.
    pub open spec fn within(&self, len: nat) -> bool {
        forall|l: int|
            0 <= l < self.layers().len() ==> (#[trigger] self.layers()[l]).within(len) && (l > 0
                ==> self.layers()[l].nin() == self.layers()[l - 1].neurons().len())
    }

    /// A perceptron with `nin` inputs whose layer `l` has `nouts[l]` neurons; its
    /// parameters are the fresh leaves, in order.
    pub fn new(g: &mut Graph, nin: usize, nouts: &[usize]) -> (m: MLP)
        requires
            old(g).wf(),
            old(g).has_room(param_count(nin as nat, nouts@, nouts@.len()) as int),
        ensures
            final(g).wf(),
            appended(*old(g), *final(g), leaves(param_count(nin as nat, nouts@, nouts@.len()))),
            m.layers().len() == nouts@.len(),
            forall|l: int|
                0 <= l < nouts@.len() ==> (#[trigger] m.layers()[l]).nin() == width(
                    nin as nat,
                    nouts@,
                    l,
                ) && m.layers()[l].neurons().len() == nouts@[l],
            layer_params(m.layers(), nouts@.len()) == run(
                old(g).nodes().len() as int,
                param_count(nin as nat, nouts@, nouts@.len()),
            ),
            m.within(final(g).nodes().len()),
    {
        let ghost g0 = *g;
        let ghost base = g0.nodes().len() as int;
        let ghost total = param_count(nin as nat, nouts@, nouts@.len());
        proof {
            lemma_appended_none(g0);
            assert(leaves(0) =~= Seq::<Op>::empty());
            assert(run(base, 0) =~= Seq::<usize>::empty());
        }
        let mut layers: Vec<Layer> = Vec::new();
        let mut i: usize = 0;
        while i < nouts.len()
            invariant
                g.wf(),
                base == g0.nodes().len(),
                total == param_count(nin as nat, nouts@, nouts@.len()),
                g0.has_room(total as int),
                i <= nouts@.len(),
                appended(g0, *g, leaves(param_count(nin as nat, nouts@, i as nat))),
                layers@.len() == i,
                layer_params(layers@, i as nat) == run(base, param_count(nin as nat, nouts@, i as nat)),
                forall|l: int|
                    0 <= l < i ==> (#[trigger] layers@[l]).nin() == width(nin as nat, nouts@, l)
                        && layers@[l].neurons().len() == nouts@[l] && layers@[l].within(g.nodes().len()),
            decreases nouts@.len() - i,
        {
            let w = if i == 0 {
                nin
            } else {
                nouts[i - 1]
            };
            let ghost g1 = *g;
            let ghost done = param_count(nin as nat, nouts@, i as nat);
            let ghost count = nouts@[i as int] * (w + 1);
            proof {
                lemma_param_count_grows(nin as nat, nouts@, (i + 1) as nat, nouts@.len());
                assert(param_count(nin as nat, nouts@, (i + 1) as nat) == done + count);
            }
            let layer = Layer::new(g, w, nouts[i]);
            proof {
                lemma_appended_trans(g0, g1, *g, leaves(done), leaves(count as nat));
                assert(leaves(done) + leaves(count as nat) =~= leaves((done + count) as nat));
            }
            let ghost prev = layers@;
            layers.push(layer);
            i = i + 1;
            proof {
                assert(layers@[i - 1] == layer);
                lemma_layer_params_prefix(layers@, prev, (i - 1) as nat);
                assert(layer_params(layers@, i as nat) =~= run(base, (done + count) as nat));
                assert forall|l: int|
                    0 <= l < i implies (#[trigger] layers@[l]).nin() == width(nin as nat, nouts@, l)
                        && layers@[l].neurons().len() == nouts@[l] && layers@[l].within(
                        g.nodes().len(),
                    ) by {
                    if l < i - 1 {
                        assert(layers@[l] == prev[l]);
                        let lay = layers@[l];
                        assert forall|j: int|
                            0 <= j < lay.neurons().len() implies (#[trigger] lay.neurons()[j]).within(
                                g.nodes().len(),
                            ) && lay.neurons()[j].weights().len() == lay.nin() by {
                            assert(lay.neurons()[j].within(g1.nodes().len()));
                        }
                    }
                }
            }
        }
        MLP { layers }
    }

    /// Applies the layers in turn, each to the outputs of the one before, and returns
    /// the outputs of the last. An input whose length differs from the first layer's
    /// width is refused when that layer has a neuron to refuse it, and the graph is
    /// then left as it was; the later layers always fit.
    pub fn apply(&self, g: &mut Graph, x: &Vec<usize>) -> (r: Result<Vec<usize>, ShapeError>)
        requires
            old(g).wf(),
            self.within(old(g).nodes().len()),
            all_below(x@, old(g).nodes().len()),
            old(g).has_room(
                mlp_trace(
                    old(g).nodes().len() as int,
                    x@,
                    self.layers(),
                    self.layers().len(),
                ).0.len() as int,
            ),
        ensures
            final(g).wf(),
            self.refuses(x@) ==> r == Err::<Vec<usize>, ShapeError>(
                ShapeError::LengthMismatch {
                    expected: self.layers()[0].nin() as usize,
                    actual: x@.len() as usize,
                },
            ) && *final(g) == *old(g),
            !self.refuses(x@) ==> r is Ok && r->Ok_0@ == mlp_trace(
                old(g).nodes().len() as int,
                x@,
                self.layers(),
                self.layers().len(),
            ).1 && appended(
                *old(g),
                *final(g),
                mlp_trace(
                    old(g).nodes().len() as int,
                    x@,
                    self.layers(),
                    self.layers().len(),
                ).0,
            ),
    {
        if self.layers.len() > 0 && self.layers[0].neurons.len() > 0 && x.len() != self.layers[0].nin {
            return Err(
                ShapeError::LengthMismatch { expected: self.layers[0].nin, actual: x.len() },
            );
        }
        let ghost g0 = *g;
        let ghost base = g0.nodes().len() as int;
        let ghost nl = self.layers().len();
        proof {
            lemma_appended_none(g0);
        }
        let mut input = x.clone();
        proof {
            assert(input@ =~= x@);
        }
        let mut l: usize = 0;
        while l < self.layers.len()
            invariant
                g.wf(),
                nl == self.layers().len(),
                !self.refuses(x@),
                base == g0.nodes().len(),
                self.within(g0.nodes().len()),
                g0.has_room(mlp_trace(base, x@, self.layers(), nl).0.len() as int),
                l <= nl,
                appended(g0, *g, mlp_trace(base, x@, self.layers(), l as nat).0),
                input@ == mlp_trace(base, x@, self.layers(), l as nat).1,
                all_below(input@, g.nodes().len()),
                l == 0 ==> input@ == x@,
                l > 0 ==> input@.len() == self.layers()[l - 1].neurons().len(),
            decreases nl - l,
        {
            let ghost g1 = *g;
            let ghost prev = mlp_trace(base, x@, self.layers(), l as nat);
            let ghost layer = self.layers()[l as int];
            proof {
                lemma_mlp_trace_grows(base, x@, self.layers(), (l + 1) as nat, nl);
                assert(layer.within(g0.nodes().len()));
                assert forall|j: int| 0 <= j < layer.neurons().len() implies (#[trigger] layer.neurons()[j]).within(
                    g1.nodes().len(),
                ) && layer.neurons()[j].weights().len() == layer.nin() by {
                    assert(layer.neurons()[j].within(g0.nodes().len()));
                }
                assert(g1.nodes().len() == base + prev.0.len());
            }
            let o = self.layers[l].apply(g, &input);
            match o {
                Ok(out) => {
                    proof {
                        let lt = layer_trace(base + prev.0.len(), prev.1, layer.neurons(), layer.neurons().len());
                        lemma_appended_trans(g0, g1, *g, prev.0, lt.0);
                        lemma_layer_trace_outputs(base + prev.0.len(), prev.1, layer.neurons(), layer.neurons().len());
                    }
                    input = out;
                },
                Err(e) => {
                    return Err(e);
                },
            }
            l = l + 1;
        }
        Ok(input)
    }

    /// Whether `apply` refuses the input `x`: the first layer has a neuron and `x`
    /// is not as long as that layer is wide.
    pub open spec fn refuses(&self, x: Seq<usize>) -> bool {
        self.layers().len() > 0 && self.layers()[0].neurons().len() > 0 && x.len()
            != self.layers()[0].nin()
    }

    /// Its trainable nodes: those of each layer, layer after layer.
    pub fn get_parameters(&self) -> (r: Vec<usize>)
        ensures
            r@ == layer_params(self.layers(), self.layers().len()),
    {
        let mut r: Vec<usize> = Vec::new();
        let mut l: usize = 0;
        while l < self.layers.len()
            invariant
                l <= self.layers().len(),
                r@ == layer_params(self.layers(), l as nat),
            decreases self.layers().len() - l,
        {
            let mut p = self.layers[l].get_parameters();
            r.append(&mut p);
            l = l + 1;
        }
        r
    }
}

} // verus!
