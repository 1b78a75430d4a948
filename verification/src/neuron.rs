//! The network composition layer: Neuron, Layer and MLP are conveniences
//! that grow the computation graph; parameters are leaf nodes that persist
//! across forward passes and are mutated only by the gradient-descent step.

use vstd::prelude::*;

use crate::scalar::in_unit_range;
use crate::scalar::prod_bits;
use crate::scalar::random_unit;
use crate::scalar::sum_bits;
use crate::scalar::tanh_bits;
use crate::value::descend_list;
use crate::value::extends;
use crate::value::NodeView;
use crate::value::Oper;
use crate::value::Graph;
use crate::value::Value;

verus! {

/// The forward values of a sequence of nodes.
pub open spec fn input_vals(g: Graph, xs: Seq<Value>) -> Seq<u64> {
    Seq::new(xs.len(), |k: int| g@[xs[k].id as int].data)
}

/// `b + w_0*x_0 + ... + w_(k-1)*x_(k-1)`, folded left with IEEE-754
/// addition, exactly as the neuron chains its primitive operations.
pub open spec fn dot_acc(ws: Seq<u64>, xs: Seq<u64>, b: u64, k: int) -> u64
    decreases k,
{
    if k <= 0 {
        b
    } else {
        sum_bits(dot_acc(ws, xs, b, k - 1), prod_bits(ws[k - 1], xs[k - 1]))
    }
}

/// A neuron's output value: `tanh(bias + sum of weighted inputs)`.
pub open spec fn neuron_eval(ws: Seq<u64>, xs: Seq<u64>, b: u64) -> u64 {
    tanh_bits(dot_acc(ws, xs, b, ws.len() as int))
}

/// The index of the running sum after `j` terms have been added: the bias
/// node itself before the first addition, afterwards the `Add` node of the
/// latest term, which sits at an odd offset past `base`.
pub open spec fn chain_sum_id(base: int, bias: Value, j: int) -> int {
    if j <= 0 {
        bias.id as int
    } else {
        base + 2 * j - 1
    }
}

/// The nodes the first `k` terms of a neuron evaluation append to a graph
/// of length `base`: for each term, the `Mul` node of weight times input,
/// then the `Add` node folding it into the running sum.
pub open spec fn chain_nodes(
    base: int,
    n: Neuron,
    xs: Seq<Value>,
    ws: Seq<u64>,
    xv: Seq<u64>,
    b: u64,
    k: int,
) -> Seq<NodeView>
    decreases k,
{
    if k <= 0 {
        Seq::empty()
    } else {
        chain_nodes(base, n, xs, ws, xv, b, k - 1) + seq![
            NodeView {
                data: prod_bits(ws[k - 1], xv[k - 1]),
                grad: None,
                op: Oper::Mul,
                prev: seq![n.weights@[k - 1].id as int, xs[k - 1].id as int],
            },
            NodeView {
                data: dot_acc(ws, xv, b, k),
                grad: None,
                op: Oper::Add,
                prev: seq![chain_sum_id(base, n.bias, k - 1), base + 2 * (k - 1)],
            },
        ]
    }
}

/// Every node of the chain is a derived node with its gradient unset: a
/// `Mul` or an `Add`, never a `Leaf`.
proof fn lemma_chain_nodes_shape(
    base: int,
    n: Neuron,
    xs: Seq<Value>,
    ws: Seq<u64>,
    xv: Seq<u64>,
    b: u64,
    k: int,
)
    ensures
        chain_nodes(base, n, xs, ws, xv, b, k).len() == if k <= 0 {
            0
        } else {
            2 * k
        },
        forall|t: int|
            0 <= t < chain_nodes(base, n, xs, ws, xv, b, k).len() ==> !((#[trigger] chain_nodes(
                base,
                n,
                xs,
                ws,
                xv,
                b,
                k,
            )[t]).op is Leaf) && chain_nodes(base, n, xs, ws, xv, b, k)[t].grad is None,
    decreases k,
{
    if k > 0 {
        lemma_chain_nodes_shape(base, n, xs, ws, xv, b, k - 1);
    }
}

/// A weighted sum with a bias and a tanh nonlinearity.  The weights and the
/// bias are trainable leaf nodes; the size is fixed at construction.
pub struct Neuron {
    pub input_size: usize,
    pub bias: Value,
    pub weights: Vec<Value>,
}

impl Neuron {
    /// The neuron's parameter handles point at leaf nodes of `g`, one
    /// weight per input.
    pub open spec fn wf(self, g: Graph) -> bool {
        &&& self.weights@.len() == self.input_size
        &&& self.bias.id < g@.len()
        &&& g@[self.bias.id as int].op is Leaf
        &&& forall|k: int|
            0 <= k < self.weights@.len() ==> (#[trigger] self.weights@[k]).id < g@.len()
                && g@[self.weights@[k].id as int].op is Leaf
    }

    pub open spec fn weight_vals(self, g: Graph) -> Seq<u64> {
        Seq::new(self.weights@.len(), |k: int| g@[self.weights@[k].id as int].data)
    }

    pub open spec fn bias_val(self, g: Graph) -> u64 {
        g@[self.bias.id as int].data
    }

    /// The parameter handles: every weight, then the bias.
    pub open spec fn params(self) -> Seq<Value> {
        self.weights@.push(self.bias)
    }

    /// Creates a neuron with `size` fresh leaf weights and a fresh leaf
    /// bias, each drawn uniformly from the fixed range [-1, 1]; gradients
    /// start unset.  The handles point at exactly the appended nodes, in
    /// allocation order: weight `k` at offset `k`, the bias last, so the
    /// `size + 1` parameters are pairwise distinct.
    pub fn new(g: &mut Graph, size: usize) -> (n: Neuron)
        requires
            old(g).wf(),
        ensures
            final(g).wf(),
            extends(final(g)@, old(g)@),
            n.wf(*final(g)),
            n.input_size == size,
            final(g)@.len() == old(g)@.len() + size + 1,
            n.bias.id as int == old(g)@.len() + size,
            forall|k: int|
                0 <= k < size ==> (#[trigger] n.weights@[k]).id as int == old(g)@.len() + k,
            forall|k: int|
                0 <= k < n.params().len() ==> (#[trigger] n.params()[k]).id as int == old(
                    g,
                )@.len() + k,
            forall|i: int|
                old(g)@.len() <= i < final(g)@.len() ==> (#[trigger] final(g)@[i].op) is Leaf
                    && final(g)@[i].grad is None && in_unit_range(final(g)@[i].data),
    {
        let ghost base = old(g)@.len();
        let mut weights: Vec<Value> = Vec::new();
        let mut k: usize = 0;
        while k < size
            invariant
                g.wf(),
                k <= size,
                weights@.len() == k as int,
                g@.len() == base + k,
                extends(g@, old(g)@),
                forall|j: int| 0 <= j < k ==> (#[trigger] weights@[j]).id as int == base + j,
                forall|i: int|
                    base <= i < g@.len() ==> (#[trigger] g@[i].op) is Leaf && g@[i].grad is None
                        && in_unit_range(g@[i].data),
            decreases size - k,
        {
            let w = Value::new(g, random_unit());
            weights.push(w);
            k = k + 1;
        }
        let bias = Value::new(g, random_unit());
        let n = Neuron { input_size: size, bias, weights };
        proof {
            assert forall|k2: int|
                0 <= k2 < n.params().len() implies (#[trigger] n.params()[k2]).id as int == base
                + k2 by {
                if k2 < size {
                    assert(n.params()[k2] == n.weights@[k2]);
                } else {
                    assert(n.params()[k2] == n.bias);
                }
            }
        }
        n
    }

    /// Evaluates the neuron on `inputs`, which must match the weight count:
    /// a shape mismatch is a precondition violation, never silently
    /// truncated.  Appends exactly the chain `tanh(bias + sum of w_k * x_k)`:
    /// one `Mul` and one `Add` node per input, then one `Tanh` node, all
    /// with gradients unset.  No existing node is touched, so parameter
    /// values and gradients are left exactly as they were.
    pub fn call(&self, g: &mut Graph, inputs: &Vec<Value>) -> (out: Value)
        requires
            old(g).wf(),
            self.wf(*old(g)),
            inputs@.len() == self.weights@.len(),
            forall|k: int| 0 <= k < inputs@.len() ==> (#[trigger] inputs@[k]).id < old(g)@.len(),
        ensures
            final(g).wf(),
            extends(final(g)@, old(g)@),
            final(g)@.len() == old(g)@.len() + 2 * inputs@.len() + 1,
            out.id as int == final(g)@.len() - 1,
            final(g)@ == old(g)@ + chain_nodes(
                old(g)@.len() as int,
                *self,
                inputs@,
                self.weight_vals(*old(g)),
                input_vals(*old(g), inputs@),
                self.bias_val(*old(g)),
                inputs@.len() as int,
            ) + seq![
                NodeView {
                    data: neuron_eval(
                        self.weight_vals(*old(g)),
                        input_vals(*old(g), inputs@),
                        self.bias_val(*old(g)),
                    ),
                    grad: None,
                    op: Oper::Tanh,
                    prev: seq![
                        chain_sum_id(old(g)@.len() as int, self.bias, inputs@.len() as int),
                    ],
                },
            ],
            final(g)@[out.id as int].op is Tanh,
            final(g)@[out.id as int].grad is None,
            final(g)@[out.id as int].data == neuron_eval(
                self.weight_vals(*old(g)),
                input_vals(*old(g), inputs@),
                self.bias_val(*old(g)),
            ),
            forall|i: int|
                old(g)@.len() <= i < final(g)@.len() ==> !((#[trigger] final(g)@[i].op) is Leaf)
                    && final(g)@[i].grad is None,
    {
        let ghost base = old(g)@.len() as int;
        let ghost ws = self.weight_vals(*old(g));
        let ghost xs = input_vals(*old(g), inputs@);
        let ghost b = self.bias_val(*old(g));
        let mut sum = self.bias;
        let mut k: usize = 0;
        while k < inputs.len()
            invariant
                g.wf(),
                self.wf(*old(g)),
                inputs@.len() == self.weights@.len(),
                forall|j: int|
                    0 <= j < inputs@.len() ==> (#[trigger] inputs@[j]).id < old(g)@.len(),
                k <= inputs@.len(),
                extends(g@, old(g)@),
                base == old(g)@.len() as int,
                g@.len() == old(g)@.len() + 2 * k,
                sum.id as int == chain_sum_id(base, self.bias, k as int),
                sum.id < g@.len(),
                g@[sum.id as int].data == dot_acc(ws, xs, b, k as int),
                ws == self.weight_vals(*old(g)),
                xs == input_vals(*old(g), inputs@),
                b == self.bias_val(*old(g)),
                g@ == old(g)@ + chain_nodes(base, *self, inputs@, ws, xs, b, k as int),
            decreases inputs@.len() - k,
        {
            let w = self.weights[k];
            let x = inputs[k];
            proof {
                assert(g@[w.id as int] == old(g)@[w.id as int]);
                assert(g@[x.id as int] == old(g)@[x.id as int]);
                assert(g@[w.id as int].data == ws[k as int]);
                assert(g@[x.id as int].data == xs[k as int]);
            }
            let prod = w.mul(g, x);
            proof {
                assert(g@[sum.id as int].data == dot_acc(ws, xs, b, k as int));
            }
            sum = sum.add(g, prod);
            proof {
                assert(g@ =~~= old(g)@ + chain_nodes(
                    base,
                    *self,
                    inputs@,
                    ws,
                    xs,
                    b,
                    k as int + 1,
                ));
            }
            k = k + 1;
        }
        proof {
            assert(g@[sum.id as int].data == dot_acc(ws, xs, b, ws.len() as int));
        }
        let out = sum.tanh(g);
        proof {
            assert(g@ =~~= old(g)@ + chain_nodes(base, *self, inputs@, ws, xs, b, ws.len() as int)
                + seq![
                NodeView {
                    data: neuron_eval(ws, xs, b),
                    grad: None,
                    op: Oper::Tanh,
                    prev: seq![chain_sum_id(base, self.bias, inputs@.len() as int)],
                },
            ]);
            lemma_chain_nodes_shape(base, *self, inputs@, ws, xs, b, ws.len() as int);
            let chain = chain_nodes(base, *self, inputs@, ws, xs, b, ws.len() as int);
            assert forall|i: int|
                old(g)@.len() <= i < g@.len() implies !((#[trigger] g@[i].op) is Leaf)
                && g@[i].grad is None by {
                if i - base < chain.len() {
                    assert(g@[i] == chain[i - base]);
                }
            }
        }
        out
    }

    /// The trainable parameters: every weight node, then the bias node.
    pub fn parameters(&self) -> (r: Vec<Value>)
        ensures
            r@ == self.params(),
    {
        let mut p: Vec<Value> = Vec::new();
        let mut k: usize = 0;
        while k < self.weights.len()
            invariant
                k <= self.weights@.len(),
                p@ =~= self.weights@.subrange(0, k as int),
            decreases self.weights@.len() - k,
        {
            p.push(self.weights[k]);
            k = k + 1;
        }
        p.push(self.bias);
        proof {
            assert(self.weights@.subrange(0, self.weights@.len() as int) =~= self.weights@);
            assert(p@ =~= self.params());
        }
        p
    }
}

/// Growing the graph never disturbs a neuron: its handles stay valid, its
/// parameters stay leaves, and their values are unchanged.
pub proof fn lemma_neuron_extends(n: Neuron, g1: Graph, g2: Graph)
    requires
        n.wf(g1),
        extends(g2@, g1@),
    ensures
        n.wf(g2),
        n.weight_vals(g2) == n.weight_vals(g1),
        n.bias_val(g2) == n.bias_val(g1),
{
    assert(g2@[n.bias.id as int] == g1@[n.bias.id as int]);
    assert forall|k: int|
        0 <= k < n.weights@.len() implies (#[trigger] n.weights@[k]).id < g2@.len() && g2@[n
        .weights@[k].id as int].op is Leaf by {
        assert(g2@[n.weights@[k].id as int] == g1@[n.weights@[k].id as int]);
    }
    assert(n.weight_vals(g2) =~= n.weight_vals(g1)) by {
        assert forall|k: int|
            0 <= k < n.weights@.len() implies n.weight_vals(g2)[k] == n.weight_vals(g1)[k] by {
            assert(g2@[n.weights@[k].id as int] == g1@[n.weights@[k].id as int]);
        }
    }
}

/// An ordered collection of neurons sharing one input arity.
pub struct Layer {
    pub neurons: Vec<Neuron>,
    pub input_size: usize,
    pub output_size: usize,
}

impl Layer {
    pub open spec fn wf(self, g: Graph) -> bool {
        &&& self.neurons@.len() == self.output_size
        &&& forall|j: int|
            0 <= j < self.neurons@.len() ==> (#[trigger] self.neurons@[j]).wf(g)
                && self.neurons@[j].input_size == self.input_size
    }

    /// The layer's output values on input values `xs`: every neuron applied
    /// to the same inputs, order preserved.
    pub open spec fn eval(self, g: Graph, xs: Seq<u64>) -> Seq<u64> {
        Seq::new(
            self.neurons@.len(),
            |j: int|
                neuron_eval(
                    self.neurons@[j].weight_vals(g),
                    xs,
                    self.neurons@[j].bias_val(g),
                ),
        )
    }

    /// The parameters of the first `j` neurons, in order.
    pub open spec fn params_upto(self, j: int) -> Seq<Value>
        decreases j,
    {
        if j <= 0 {
            Seq::empty()
        } else {
            self.params_upto(j - 1) + self.neurons@[j - 1].params()
        }
    }

    pub open spec fn params(self) -> Seq<Value> {
        self.params_upto(self.neurons@.len() as int)
    }

    /// Creates `output_size` neurons of arity `input_size`, with fresh
    /// random leaf parameters drawn from [-1, 1].  The layer's parameter
    /// handles point at exactly the appended nodes, in allocation order, so
    /// they are pairwise distinct.
    pub fn new(g: &mut Graph, input_size: usize, output_size: usize) -> (l: Layer)
        requires
            old(g).wf(),
        ensures
            final(g).wf(),
            extends(final(g)@, old(g)@),
            l.wf(*final(g)),
            l.input_size == input_size,
            l.output_size == output_size,
            l.params().len() as int == final(g)@.len() - old(g)@.len(),
            forall|k: int|
                0 <= k < l.params().len() ==> (#[trigger] l.params()[k]).id as int == old(
                    g,
                )@.len() + k,
            forall|i: int|
                old(g)@.len() <= i < final(g)@.len() ==> (#[trigger] final(g)@[i].op) is Leaf
                    && final(g)@[i].grad is None && in_unit_range(final(g)@[i].data),
    {
        let mut ns: Vec<Neuron> = Vec::new();
        let mut j: usize = 0;
        while j < output_size
            invariant
                g.wf(),
                j <= output_size,
                ns@.len() == j as int,
                extends(g@, old(g)@),
                forall|j0: int|
                    0 <= j0 < j ==> (#[trigger] ns@[j0]).wf(*g) && ns@[j0].input_size
                        == input_size,
                ({
                    let l0 = Layer { neurons: ns, input_size, output_size };
                    &&& l0.params_upto(j as int).len() as int == g@.len() - old(g)@.len()
                    &&& forall|k: int|
                        0 <= k < l0.params_upto(j as int).len() ==> (#[trigger] l0.params_upto(
                            j as int,
                        )[k]).id as int == old(g)@.len() + k
                }),
                forall|i: int|
                    old(g)@.len() <= i < g@.len() ==> (#[trigger] g@[i].op) is Leaf && g@[i].grad
                        is None && in_unit_range(g@[i].data),
            decreases output_size - j,
        {
            let ghost gpre = *g;
            let n = Neuron::new(g, input_size);
            proof {
                assert forall|j0: int| 0 <= j0 < j implies (#[trigger] ns@[j0]).wf(*g) by {
                    lemma_neuron_extends(ns@[j0], gpre, *g);
                }
                assert forall|i: int|
                    old(g)@.len() <= i < g@.len() implies (#[trigger] g@[i].op) is Leaf
                    && g@[i].grad is None && in_unit_range(g@[i].data) by {
                    if i < gpre@.len() {
                        assert(g@[i] == gpre@[i]);
                    }
                }
            }
            let ghost ns_pre = ns;
            ns.push(n);
            proof {
                let l0 = Layer { neurons: ns_pre, input_size, output_size };
                let l1 = Layer { neurons: ns, input_size, output_size };
                assert(l1.params_upto(j as int) =~= l0.params_upto(j as int)) by {
                    lemma_layer_params_prefix(l0, l1, j as int);
                }
                assert(l1.params_upto(j as int + 1) == l1.params_upto(j as int)
                    + l1.neurons@[j as int].params());
                assert forall|k: int|
                    0 <= k < l1.params_upto(j as int + 1).len() implies (#[trigger] l1
                    .params_upto(j as int + 1)[k]).id as int == old(g)@.len() + k by {
                    let prev = l1.params_upto(j as int);
                    if k < prev.len() {
                        assert(l1.params_upto(j as int + 1)[k] == prev[k]);
                        assert(l0.params_upto(j as int)[k].id as int == old(g)@.len() + k);
                    } else {
                        assert(l1.params_upto(j as int + 1)[k] == n.params()[k - prev.len()]);
                        assert(n.params()[k - prev.len()].id as int == gpre@.len() + (k
                            - prev.len()));
                    }
                }
            }
            j = j + 1;
        }
        Layer { neurons: ns, input_size, output_size }
    }

    /// Applies every neuron to the same inputs, one output per neuron.
    /// Only fresh nodes are created: no existing node, in particular no
    /// parameter, is changed.
    pub fn forward(&self, g: &mut Graph, inputs: &Vec<Value>) -> (outs: Vec<Value>)
        requires
            old(g).wf(),
            self.wf(*old(g)),
            inputs@.len() == self.input_size as int,
            forall|k: int| 0 <= k < inputs@.len() ==> (#[trigger] inputs@[k]).id < old(g)@.len(),
        ensures
            final(g).wf(),
            extends(final(g)@, old(g)@),
            final(g)@.len() == old(g)@.len() + self.neurons@.len() * (2 * self.input_size
                + 1),
            outs@.len() == self.neurons@.len(),
            forall|j: int| 0 <= j < outs@.len() ==> (#[trigger] outs@[j]).id < final(g)@.len(),
            forall|j: int|
                0 <= j < outs@.len() ==> (#[trigger] outs@[j]).id as int >= old(g)@.len(),
            forall|j: int|
                0 <= j < outs@.len() ==> final(g)@[(#[trigger] outs@[j]).id as int].data
                    == self.eval(*old(g), input_vals(*old(g), inputs@))[j],
            forall|i: int|
                old(g)@.len() <= i < final(g)@.len() ==> !((#[trigger] final(g)@[i].op) is Leaf)
                    && final(g)@[i].grad is None,
    {
        let ghost xs = input_vals(*old(g), inputs@);
        let ghost want = self.eval(*old(g), xs);
        let mut outs: Vec<Value> = Vec::new();
        let mut j: usize = 0;
        while j < self.neurons.len()
            invariant
                g.wf(),
                self.wf(*old(g)),
                inputs@.len() == self.input_size as int,
                forall|k: int|
                    0 <= k < inputs@.len() ==> (#[trigger] inputs@[k]).id < old(g)@.len(),
                j <= self.neurons@.len(),
                outs@.len() == j as int,
                extends(g@, old(g)@),
                g@.len() == old(g)@.len() + j * (2 * self.input_size + 1),
                xs == input_vals(*old(g), inputs@),
                want == self.eval(*old(g), xs),
                forall|j0: int| 0 <= j0 < j ==> (#[trigger] outs@[j0]).id < g@.len(),
                forall|j0: int|
                    0 <= j0 < j ==> (#[trigger] outs@[j0]).id as int >= old(g)@.len(),
                forall|j0: int|
                    0 <= j0 < j ==> g@[(#[trigger] outs@[j0]).id as int].data == want[j0],
                forall|i: int|
                    old(g)@.len() <= i < g@.len() ==> !((#[trigger] g@[i].op) is Leaf) && g@[i]
                        .grad is None,
            decreases self.neurons@.len() - j,
        {
            let ghost gpre = *g;
            let n = &self.neurons[j];
            proof {
                lemma_neuron_extends(self.neurons@[j as int], *old(g), *g);
                assert(input_vals(*g, inputs@) =~= xs) by {
                    assert forall|k: int|
                        0 <= k < inputs@.len() implies g@[(#[trigger] inputs@[k]).id as int].data
                        == old(g)@[inputs@[k].id as int].data by {
                        assert(g@[inputs@[k].id as int] == old(g)@[inputs@[k].id as int]);
                    }
                }
            }
            let out = n.call(g, inputs);
            proof {
                assert(g@[out.id as int].data == neuron_eval(
                    self.neurons@[j as int].weight_vals(gpre),
                    input_vals(gpre, inputs@),
                    self.neurons@[j as int].bias_val(gpre),
                ));
                lemma_neuron_extends(self.neurons@[j as int], *old(g), gpre);
                assert(g@[out.id as int].data == want[j as int]);
                assert forall|j0: int| 0 <= j0 < j implies g@[(#[trigger] outs@[j0]).id as int].data
                    == want[j0] by {
                    assert(g@[outs@[j0].id as int] == gpre@[outs@[j0].id as int]);
                }
                assert forall|i: int|
                    old(g)@.len() <= i < g@.len() implies !((#[trigger] g@[i].op) is Leaf)
                    && g@[i].grad is None by {
                    if i < gpre@.len() {
                        assert(g@[i] == gpre@[i]);
                    }
                }
            }
            proof {
                let s = 2 * self.input_size as int + 1;
                assert((j as int + 1) * s == j as int * s + s) by (nonlinear_arith);
            }
            outs.push(out);
            j = j + 1;
        }
        outs
    }

    /// The parameters of every neuron, flattened in neuron order.
    pub fn parameters(&self) -> (r: Vec<Value>)
        ensures
            r@ == self.params(),
    {
        let mut p: Vec<Value> = Vec::new();
        let mut j: usize = 0;
        while j < self.neurons.len()
            invariant
                j <= self.neurons@.len(),
                p@ == self.params_upto(j as int),
            decreases self.neurons@.len() - j,
        {
            let np = self.neurons[j].parameters();
            let mut k: usize = 0;
            while k < np.len()
                invariant
                    k <= np@.len(),
                    np@ == self.neurons@[j as int].params(),
                    j < self.neurons@.len(),
                    p@ =~= self.params_upto(j as int) + np@.subrange(0, k as int),
                decreases np@.len() - k,
            {
                p.push(np[k]);
                proof {
                    assert(p@ =~= self.params_upto(j as int) + np@.subrange(0, k as int + 1));
                }
                k = k + 1;
            }
            proof {
                assert(np@.subrange(0, np@.len() as int) =~= np@);
                assert(p@ =~= self.params_upto(j as int + 1));
            }
            j = j + 1;
        }
        p
    }
}

/// `params_upto(j)` reads only the first `j` neurons, so two layers that
/// agree on those agree on it.
proof fn lemma_layer_params_prefix(l0: Layer, l1: Layer, j: int)
    requires
        j <= l0.neurons@.len(),
        j <= l1.neurons@.len(),
        forall|j0: int| 0 <= j0 < j ==> l0.neurons@[j0] == l1.neurons@[j0],
    ensures
        l0.params_upto(j) == l1.params_upto(j),
    decreases j,
{
    if j > 0 {
        lemma_layer_params_prefix(l0, l1, j - 1);
    }
}

/// Growing the graph never disturbs a layer.
pub proof fn lemma_layer_extends(l: Layer, g1: Graph, g2: Graph, xs: Seq<u64>)
    requires
        l.wf(g1),
        extends(g2@, g1@),
    ensures
        l.wf(g2),
        l.eval(g2, xs) == l.eval(g1, xs),
{
    assert forall|j: int|
        0 <= j < l.neurons@.len() implies (#[trigger] l.neurons@[j]).wf(g2) && l.neurons@[j]
        .input_size == l.input_size by {
        lemma_neuron_extends(l.neurons@[j], g1, g2);
    }
    assert(l.eval(g2, xs) =~= l.eval(g1, xs)) by {
        assert forall|j: int|
            0 <= j < l.neurons@.len() implies l.eval(g2, xs)[j] == l.eval(g1, xs)[j] by {
            lemma_neuron_extends(l.neurons@[j], g1, g2);
        }
    }
}

/// A feed-forward network: a sequence of layers, each layer's neuron count
/// becoming the next layer's input arity.
pub struct MLP {
    pub layers: Vec<Layer>,
    pub input_size: usize,
}

impl MLP {
    pub open spec fn wf(self, g: Graph) -> bool {
        &&& forall|i: int| 0 <= i < self.layers@.len() ==> (#[trigger] self.layers@[i]).wf(g)
        &&& (self.layers@.len() > 0 ==> self.layers@[0].input_size == self.input_size)
        &&& forall|i: int|
            0 < i < self.layers@.len() ==> (#[trigger] self.layers@[i]).input_size
                == self.layers@[i - 1].output_size
    }

    /// The values after folding the first `upto` layers over input values
    /// `xs`, left to right.
    pub open spec fn eval_upto(self, g: Graph, xs: Seq<u64>, upto: int) -> Seq<u64>
        decreases upto,
    {
        if upto <= 0 {
            xs
        } else {
            self.layers@[upto - 1].eval(g, self.eval_upto(g, xs, upto - 1))
        }
    }

    /// The network's output values on input values `xs`.
    pub open spec fn eval(self, g: Graph, xs: Seq<u64>) -> Seq<u64> {
        self.eval_upto(g, xs, self.layers@.len() as int)
    }

    /// The parameters of the first `i` layers, in order.
    pub open spec fn params_upto(self, i: int) -> Seq<Value>
        decreases i,
    {
        if i <= 0 {
            Seq::empty()
        } else {
            self.params_upto(i - 1) + self.layers@[i - 1].params()
        }
    }

    pub open spec fn params(self) -> Seq<Value> {
        self.params_upto(self.layers@.len() as int)
    }

    /// Creates the layers left to right: layer `i`'s input arity is the
    /// previous layer's neuron count, the first layer's is `inputs_size`.
    /// The network's parameter handles point at exactly the appended nodes,
    /// in allocation order, so every trainable leaf is listed once: the
    /// parameters are pairwise distinct.
    pub fn new(g: &mut Graph, inputs_size: usize, layer_sizes: Vec<usize>) -> (m: MLP)
        requires
            old(g).wf(),
        ensures
            final(g).wf(),
            extends(final(g)@, old(g)@),
            m.wf(*final(g)),
            m.input_size == inputs_size,
            m.layers@.len() == layer_sizes@.len(),
            forall|i: int|
                0 <= i < m.layers@.len() ==> (#[trigger] m.layers@[i]).output_size
                    == layer_sizes@[i],
            m.params().len() as int == final(g)@.len() - old(g)@.len(),
            forall|k: int|
                0 <= k < m.params().len() ==> (#[trigger] m.params()[k]).id as int == old(
                    g,
                )@.len() + k,
            forall|i: int|
                old(g)@.len() <= i < final(g)@.len() ==> (#[trigger] final(g)@[i].op) is Leaf
                    && final(g)@[i].grad is None && in_unit_range(final(g)@[i].data),
    {
        let mut layers: Vec<Layer> = Vec::new();
        let mut prev_size: usize = inputs_size;
        let mut i: usize = 0;
        while i < layer_sizes.len()
            invariant
                g.wf(),
                i <= layer_sizes@.len(),
                layers@.len() == i as int,
                extends(g@, old(g)@),
                prev_size == (if i == 0 {
                    inputs_size
                } else {
                    layer_sizes@[i as int - 1]
                }),
                forall|i0: int| 0 <= i0 < i ==> (#[trigger] layers@[i0]).wf(*g),
                forall|i0: int|
                    0 <= i0 < i ==> (#[trigger] layers@[i0]).output_size == layer_sizes@[i0],
                forall|i0: int|
                    0 <= i0 < i ==> (#[trigger] layers@[i0]).input_size == (if i0 == 0 {
                        inputs_size as int
                    } else {
                        layer_sizes@[i0 - 1] as int
                    }),
                ({
                    let m0 = MLP { layers, input_size: inputs_size };
                    &&& m0.params_upto(i as int).len() as int == g@.len() - old(g)@.len()
                    &&& forall|k: int|
                        0 <= k < m0.params_upto(i as int).len() ==> (#[trigger] m0.params_upto(
                            i as int,
                        )[k]).id as int == old(g)@.len() + k
                }),
                forall|i0: int|
                    old(g)@.len() <= i0 < g@.len() ==> (#[trigger] g@[i0].op) is Leaf && g@[i0]
                        .grad is None && in_unit_range(g@[i0].data),
            decreases layer_sizes@.len() - i,
        {
            let ghost gpre = *g;
            let l = Layer::new(g, prev_size, layer_sizes[i]);
            proof {
                assert forall|i0: int| 0 <= i0 < i implies (#[trigger] layers@[i0]).wf(*g) by {
                    lemma_layer_extends(layers@[i0], gpre, *g, Seq::empty());
                }
                assert forall|i0: int|
                    old(g)@.len() <= i0 < g@.len() implies (#[trigger] g@[i0].op) is Leaf
                    && g@[i0].grad is None && in_unit_range(g@[i0].data) by {
                    if i0 < gpre@.len() {
                        assert(g@[i0] == gpre@[i0]);
                    }
                }
            }
            let ghost layers_pre = layers;
            layers.push(l);
            proof {
                let m0 = MLP { layers: layers_pre, input_size: inputs_size };
                let m1 = MLP { layers, input_size: inputs_size };
                assert(m1.params_upto(i as int) =~= m0.params_upto(i as int)) by {
                    lemma_mlp_params_prefix(m0, m1, i as int);
                }
                assert(m1.params_upto(i as int + 1) == m1.params_upto(i as int)
                    + m1.layers@[i as int].params());
                assert forall|k: int|
                    0 <= k < m1.params_upto(i as int + 1).len() implies (#[trigger] m1
                    .params_upto(i as int + 1)[k]).id as int == old(g)@.len() + k by {
                    let prev = m1.params_upto(i as int);
                    if k < prev.len() {
                        assert(m1.params_upto(i as int + 1)[k] == prev[k]);
                        assert(m0.params_upto(i as int)[k].id as int == old(g)@.len() + k);
                    } else {
                        assert(m1.params_upto(i as int + 1)[k] == l.params()[k - prev.len()]);
                        assert(l.params()[k - prev.len()].id as int == gpre@.len() + (k
                            - prev.len()));
                    }
                }
            }
            prev_size = layer_sizes[i];
            i = i + 1;
        }
        MLP { layers, input_size: inputs_size }
    }

    /// Folds the layers over the inputs, left to right, returning the final
    /// layer's outputs.  Only fresh nodes are created: no parameter's value
    /// or gradient is changed by a forward pass.
    pub fn forward(&self, g: &mut Graph, inputs: &Vec<Value>) -> (outs: Vec<Value>)
        requires
            old(g).wf(),
            self.wf(*old(g)),
            inputs@.len() == self.input_size as int,
            forall|k: int| 0 <= k < inputs@.len() ==> (#[trigger] inputs@[k]).id < old(g)@.len(),
        ensures
            final(g).wf(),
            extends(final(g)@, old(g)@),
            outs@.len() == self.eval(*old(g), input_vals(*old(g), inputs@)).len(),
            forall|j: int| 0 <= j < outs@.len() ==> (#[trigger] outs@[j]).id < final(g)@.len(),
            forall|j: int|
                0 <= j < outs@.len() ==> final(g)@[(#[trigger] outs@[j]).id as int].data
                    == self.eval(*old(g), input_vals(*old(g), inputs@))[j],
            self.layers@.len() > 0 ==> forall|j: int|
                0 <= j < outs@.len() ==> (#[trigger] outs@[j]).id as int >= old(g)@.len(),
            forall|i: int|
                old(g)@.len() <= i < final(g)@.len() ==> !((#[trigger] final(g)@[i].op) is Leaf)
                    && final(g)@[i].grad is None,
    {
        let ghost xs = input_vals(*old(g), inputs@);
        let mut cur: Vec<Value> = Vec::new();
        let mut k: usize = 0;
        while k < inputs.len()
            invariant
                k <= inputs@.len(),
                cur@ =~= inputs@.subrange(0, k as int),
            decreases inputs@.len() - k,
        {
            cur.push(inputs[k]);
            k = k + 1;
        }
        proof {
            assert(cur@ =~= inputs@);
            assert(input_vals(*old(g), cur@) =~= xs);
        }
        let mut i: usize = 0;
        while i < self.layers.len()
            invariant
                g.wf(),
                self.wf(*old(g)),
                i <= self.layers@.len(),
                extends(g@, old(g)@),
                xs == input_vals(*old(g), inputs@),
                cur@.len() == self.eval_upto(*old(g), xs, i as int).len(),
                cur@.len() == (if i == 0 {
                    self.input_size as int
                } else {
                    self.layers@[i as int - 1].output_size as int
                }),
                forall|j: int| 0 <= j < cur@.len() ==> (#[trigger] cur@[j]).id < g@.len(),
                i > 0 ==> forall|j: int|
                    0 <= j < cur@.len() ==> (#[trigger] cur@[j]).id as int >= old(g)@.len(),
                forall|j: int|
                    0 <= j < cur@.len() ==> g@[(#[trigger] cur@[j]).id as int].data
                        == self.eval_upto(*old(g), xs, i as int)[j],
                forall|i0: int|
                    old(g)@.len() <= i0 < g@.len() ==> !((#[trigger] g@[i0].op) is Leaf) && g@[
                        i0].grad is None,
            decreases self.layers@.len() - i,
        {
            let ghost gpre = *g;
            let ghost sofar = self.eval_upto(*old(g), xs, i as int);
            let layer = &self.layers[i];
            proof {
                lemma_layer_extends(self.layers@[i as int], *old(g), *g, Seq::empty());
                assert(input_vals(*g, cur@) =~= sofar);
            }
            let next = layer.forward(g, &cur);
            proof {
                lemma_layer_extends(self.layers@[i as int], *old(g), gpre, input_vals(gpre, cur@));
                assert(input_vals(gpre, cur@) =~= sofar);
                assert(self.layers@[i as int].eval(gpre, input_vals(gpre, cur@))
                    == self.layers@[i as int].eval(*old(g), sofar));
                assert(self.eval_upto(*old(g), xs, i as int + 1) == self.layers@[i as int].eval(
                    *old(g),
                    sofar,
                ));
                assert forall|i0: int|
                    old(g)@.len() <= i0 < g@.len() implies !((#[trigger] g@[i0].op) is Leaf)
                    && g@[i0].grad is None by {
                    if i0 < gpre@.len() {
                        assert(g@[i0] == gpre@[i0]);
                    }
                }
            }
            cur = next;
            i = i + 1;
        }
        cur
    }

    /// The trainable parameters of every layer, flattened in layer order.
    pub fn parameters(&self) -> (r: Vec<Value>)
        ensures
            r@ == self.params(),
    {
        let mut p: Vec<Value> = Vec::new();
        let mut i: usize = 0;
        while i < self.layers.len()
            invariant
                i <= self.layers@.len(),
                p@ == self.params_upto(i as int),
            decreases self.layers@.len() - i,
        {
            let lp = self.layers[i].parameters();
            let mut k: usize = 0;
            while k < lp.len()
                invariant
                    k <= lp@.len(),
                    lp@ == self.layers@[i as int].params(),
                    i < self.layers@.len(),
                    p@ =~= self.params_upto(i as int) + lp@.subrange(0, k as int),
                decreases lp@.len() - k,
            {
                p.push(lp[k]);
                proof {
                    assert(p@ =~= self.params_upto(i as int) + lp@.subrange(0, k as int + 1));
                }
                k = k + 1;
            }
            proof {
                assert(lp@.subrange(0, lp@.len() as int) =~= lp@);
                assert(p@ =~= self.params_upto(i as int + 1));
            }
            i = i + 1;
        }
        p
    }

    /// One gradient-descent step on every trainable parameter, in order:
    /// `data <- data + (-learning_rate) * grad`.  Every parameter must carry
    /// a gradient, that is, have taken part in a backward pass; updating a
    /// parameter whose gradient is unset is a misuse and is excluded here.
    pub fn descend(&self, g: &mut Graph, learning_rate: u64)
        requires
            old(g).wf(),
            self.wf(*old(g)),
            forall|k: int|
                0 <= k < self.params().len() ==> old(g)@[(#[trigger] self.params()[k]).id
                    as int].grad is Some,
        ensures
            final(g).wf(),
            final(g)@ == descend_list(old(g)@, self.params(), learning_rate),
    {
        proof {
            lemma_mlp_params_valid(*self, *old(g), self.layers@.len() as int);
        }
        let ps = self.parameters();
        proof {
            assert(ps@.skip(0) =~= ps@);
        }
        let mut k: usize = 0;
        while k < ps.len()
            invariant
                g.wf(),
                ps@ == self.params(),
                k <= ps@.len(),
                g@.len() == old(g)@.len(),
                forall|k0: int|
                    0 <= k0 < ps@.len() ==> (#[trigger] ps@[k0]).id < g@.len(),
                forall|k0: int|
                    0 <= k0 < ps@.len() ==> g@[(#[trigger] ps@[k0]).id as int].grad is Some,
                descend_list(g@, ps@.skip(k as int), learning_rate) == descend_list(
                    old(g)@,
                    ps@,
                    learning_rate,
                ),
            decreases ps@.len() - k,
        {
            let ghost gpre = *g;
            let p = ps[k];
            p.update(g, learning_rate);
            proof {
                assert(ps@.skip(k as int).first() == ps@[k as int]);
                assert(ps@.skip(k as int).drop_first() =~= ps@.skip(k as int + 1));
                assert(descend_list(gpre@, ps@.skip(k as int), learning_rate) == descend_list(
                    g@,
                    ps@.skip(k as int + 1),
                    learning_rate,
                ));
                assert forall|k0: int|
                    0 <= k0 < ps@.len() implies g@[(#[trigger] ps@[k0]).id as int].grad
                    is Some by {
                    if ps@[k0].id == p.id {
                        assert(g@[p.id as int].grad == gpre@[p.id as int].grad);
                    } else {
                        assert(g@[ps@[k0].id as int] == gpre@[ps@[k0].id as int]);
                    }
                }
            }
            k = k + 1;
        }
        proof {
            assert(ps@.skip(ps@.len() as int) =~= Seq::<Value>::empty());
        }
    }
}

/// Every parameter handle of a well-formed layer is in range.
proof fn lemma_layer_params_valid(l: Layer, g: Graph, j: int)
    requires
        l.wf(g),
        0 <= j <= l.neurons@.len(),
    ensures
        forall|k: int|
            0 <= k < l.params_upto(j).len() ==> (#[trigger] l.params_upto(j)[k]).id < g@.len(),
    decreases j,
{
    if j > 0 {
        lemma_layer_params_valid(l, g, j - 1);
        let n = l.neurons@[j - 1];
        assert(n.wf(g));
        assert forall|k: int|
            0 <= k < l.params_upto(j).len() implies (#[trigger] l.params_upto(j)[k]).id
            < g@.len() by {
            let prev = l.params_upto(j - 1);
            if k < prev.len() {
                assert(l.params_upto(j)[k] == prev[k]);
            } else {
                let m = k - prev.len();
                assert(l.params_upto(j)[k] == n.params()[m]);
                if m < n.weights@.len() {
                    assert(n.params()[m] == n.weights@[m]);
                } else {
                    assert(n.params()[m] == n.bias);
                }
            }
        }
    }
}

/// Every parameter handle of a well-formed network is in range.
proof fn lemma_mlp_params_valid(m: MLP, g: Graph, i: int)
    requires
        m.wf(g),
        0 <= i <= m.layers@.len(),
    ensures
        forall|k: int|
            0 <= k < m.params_upto(i).len() ==> (#[trigger] m.params_upto(i)[k]).id < g@.len(),
    decreases i,
{
    if i > 0 {
        lemma_mlp_params_valid(m, g, i - 1);
        let l = m.layers@[i - 1];
        lemma_layer_params_valid(l, g, l.neurons@.len() as int);
        assert forall|k: int|
            0 <= k < m.params_upto(i).len() implies (#[trigger] m.params_upto(i)[k]).id
            < g@.len() by {
            let prev = m.params_upto(i - 1);
            if k < prev.len() {
                assert(m.params_upto(i)[k] == prev[k]);
            } else {
                assert(m.params_upto(i)[k] == l.params()[k - prev.len()]);
            }
        }
    }
}

/// `params_upto(i)` reads only the first `i` layers, so two networks that
/// agree on those agree on it.
proof fn lemma_mlp_params_prefix(m0: MLP, m1: MLP, i: int)
    requires
        i <= m0.layers@.len(),
        i <= m1.layers@.len(),
        forall|i0: int| 0 <= i0 < i ==> m0.layers@[i0] == m1.layers@[i0],
    ensures
        m0.params_upto(i) == m1.params_upto(i),
    decreases i,
{
    if i > 0 {
        lemma_mlp_params_prefix(m0, m1, i - 1);
    }
}

proof fn lemma_eval_upto_extends(m: MLP, g1: Graph, g2: Graph, xs: Seq<u64>, upto: int)
    requires
        m.wf(g1),
        extends(g2@, g1@),
        upto <= m.layers@.len(),
    ensures
        m.eval_upto(g2, xs, upto) == m.eval_upto(g1, xs, upto),
    decreases upto,
{
    if upto > 0 {
        lemma_eval_upto_extends(m, g1, g2, xs, upto - 1);
        lemma_layer_extends(m.layers@[upto - 1], g1, g2, m.eval_upto(g1, xs, upto - 1));
    }
}

/// Determinism of the forward pass.  A forward pass only appends nodes to
/// the graph, and evaluation reads nothing but parameter values, so
/// evaluating the same network on the same input values twice, without an
/// intervening update, yields identical outputs: the outputs of both passes
/// equal `eval` over the graph as it stood before either pass.
pub proof fn lemma_forward_deterministic(m: MLP, g1: Graph, g2: Graph, xs: Seq<u64>)
    requires
        m.wf(g1),
        extends(g2@, g1@),
    ensures
        m.eval(g2, xs) == m.eval(g1, xs),
{
    lemma_eval_upto_extends(m, g1, g2, xs, m.layers@.len() as int);
}

} // verus!
