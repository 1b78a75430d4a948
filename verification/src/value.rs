//! The scalar computation graph: an arena of nodes addressed by stable
//! indices, and the `Value` handle with the arithmetic that grows the graph.

use vstd::prelude::*;

use crate::scalar::add_op;
use crate::scalar::diff_bits;
use crate::scalar::mul_op;
use crate::scalar::neg_bits;
use crate::scalar::neg_op;
use crate::scalar::pow_bits;
use crate::scalar::pow_op;
use crate::scalar::prod_bits;
use crate::scalar::sub_op;
use crate::scalar::sum_bits;
use crate::scalar::tanh_bits;
use crate::scalar::tanh_op;
use crate::scalar::NEG_ONE_BITS;
use crate::scalar::ONE_BITS;
use crate::scalar::ZERO_BITS;
use crate::topo::consumed_later;
use crate::topo::dfs_kids;
use crate::topo::dfs_node;
use crate::topo::lemma_topo_order_sound;
use crate::topo::start_state;
use crate::topo::topo_order;
use crate::topo::DfsState;

verus! {

/// Which operation produced a node.  `Leaf` marks an input or parameter;
/// `Pow` carries the exponent's bit pattern.
#[derive(Clone, Copy, Debug, PartialEq)]
pub enum Oper {
    Add,
    Sub,
    Mul,
    Pow(u64),
    Leaf,
    Tanh,
}

/// One node of the computation graph, as specifications see it: the forward
/// value, the accumulated gradient (unset until a backward pass touches it),
/// the operation that produced the node, and the operand indices.
#[verifier::ext_equal]
pub struct NodeView {
    pub data: u64,
    pub grad: Option<u64>,
    pub op: Oper,
    pub prev: Seq<int>,
}

/// How many operands a node with this operation has.
pub open spec fn arity(op: Oper) -> nat {
    match op {
        Oper::Leaf => 0,
        Oper::Pow(_) => 1,
        Oper::Tanh => 1,
        Oper::Add => 2,
        Oper::Sub => 2,
        Oper::Mul => 2,
    }
}

/// A node's operand count matches its operation, and every operand index
/// points strictly earlier in the arena.  New nodes are only ever created
/// from already-existing nodes, so the graph is structurally acyclic.
pub open spec fn node_wf(ns: Seq<NodeView>, i: int) -> bool {
    &&& ns[i].prev.len() == arity(ns[i].op)
    &&& forall|k: int| 0 <= k < ns[i].prev.len() ==> 0 <= #[trigger] ns[i].prev[k] < i
}

pub open spec fn graph_wf(ns: Seq<NodeView>) -> bool {
    forall|i: int| 0 <= i < ns.len() ==> #[trigger] node_wf(ns, i)
}

/// `post` is `pre` with zero or more nodes appended: every existing node is
/// unchanged.  Forward passes only ever extend the graph.
pub open spec fn extends(post: Seq<NodeView>, pre: Seq<NodeView>) -> bool {
    &&& pre.len() <= post.len()
    &&& forall|i: int| 0 <= i < pre.len() ==> post[i] == #[trigger] pre[i]
}

/// The node `n` after one gradient-descent step at learning rate `lr`:
/// `data` moves by `(-lr) * grad`, everything else is kept.  Used with a set
/// gradient; the `None` arm only keeps the function total.
pub open spec fn step_node(n: NodeView, lr: u64) -> NodeView {
    NodeView {
        data: sum_bits(
            n.data,
            prod_bits(
                neg_bits(lr),
                match n.grad {
                    Some(v) => v,
                    None => ZERO_BITS,
                },
            ),
        ),
        grad: n.grad,
        op: n.op,
        prev: n.prev,
    }
}

/// One gradient-descent step applied to each listed parameter in turn,
/// front to back.
pub open spec fn descend_list(ns: Seq<NodeView>, ps: Seq<Value>, lr: u64) -> Seq<NodeView>
    decreases ps.len(),
{
    if ps.len() == 0 {
        ns
    } else {
        descend_list(
            ns.update(ps.first().id as int, step_node(ns[ps.first().id as int], lr)),
            ps.drop_first(),
            lr,
        )
    }
}

/// With pairwise-distinct parameter handles - as the network constructors
/// hand them out - the gradient-descent fold's effect does not depend on
/// the order: every listed node takes exactly one step from its pre-fold
/// state, and every other node is untouched.
pub proof fn lemma_descend_list_distinct(ns: Seq<NodeView>, ps: Seq<Value>, lr: u64)
    requires
        forall|k1: int, k2: int|
            0 <= k1 < k2 < ps.len() ==> (#[trigger] ps[k1]).id != (#[trigger] ps[k2]).id,
        forall|k: int| 0 <= k < ps.len() ==> (#[trigger] ps[k]).id < ns.len(),
    ensures
        descend_list(ns, ps, lr).len() == ns.len(),
        forall|k: int|
            0 <= k < ps.len() ==> descend_list(ns, ps, lr)[(#[trigger] ps[k]).id as int]
                == step_node(ns[ps[k].id as int], lr),
        forall|i: int|
            0 <= i < ns.len() && (forall|k: int|
                0 <= k < ps.len() ==> (#[trigger] ps[k]).id as int != i)
                ==> #[trigger] descend_list(ns, ps, lr)[i] == ns[i],
    decreases ps.len(),
{
    if ps.len() > 0 {
        let p0 = ps.first();
        let ns1 = ns.update(p0.id as int, step_node(ns[p0.id as int], lr));
        let rest = ps.drop_first();
        let out = descend_list(ns, ps, lr);
        assert(out == descend_list(ns1, rest, lr));
        assert forall|k1: int, k2: int|
            0 <= k1 < k2 < rest.len() implies (#[trigger] rest[k1]).id != (#[trigger] rest[k2]).id
        by {
            assert(rest[k1] == ps[k1 + 1]);
            assert(rest[k2] == ps[k2 + 1]);
        }
        assert forall|k: int| 0 <= k < rest.len() implies (#[trigger] rest[k]).id < ns1.len() by {
            assert(rest[k] == ps[k + 1]);
        }
        lemma_descend_list_distinct(ns1, rest, lr);
        // The head's node is not listed again, so the rest of the fold
        // leaves it at its stepped value.
        assert forall|k: int|
            0 <= k < rest.len() implies (#[trigger] rest[k]).id as int != p0.id as int by {
            assert(rest[k] == ps[k + 1]);
            assert(ps[0].id != ps[k + 1].id);
        }
        assert(out[p0.id as int] == ns1[p0.id as int]);
        assert forall|k: int|
            0 <= k < ps.len() implies out[(#[trigger] ps[k]).id as int] == step_node(
            ns[ps[k].id as int],
            lr,
        ) by {
            if k == 0 {
                assert(out[p0.id as int] == step_node(ns[p0.id as int], lr));
            } else {
                assert(ps[k] == rest[k - 1]);
                assert(out[rest[k - 1].id as int] == step_node(ns1[rest[k - 1].id as int], lr));
                assert(rest[k - 1].id != p0.id);
                assert(ns1[rest[k - 1].id as int] == ns[rest[k - 1].id as int]);
            }
        }
        assert forall|i: int|
            0 <= i < ns.len() && (forall|k: int|
                0 <= k < ps.len() ==> (#[trigger] ps[k]).id as int != i) implies #[trigger] out[i]
            == ns[i] by {
            assert(ps[0].id as int != i);
            assert forall|k: int|
                0 <= k < rest.len() implies (#[trigger] rest[k]).id as int != i by {
                assert(rest[k] == ps[k + 1]);
                assert(ps[k + 1].id as int != i);
            }
            assert(out[i] == ns1[i]);
            assert(ns1[i] == ns[i]);
        }
    }
}

/// A vector of arena indices, as a sequence of mathematical integers.
pub open spec fn ids_of(s: Seq<usize>) -> Seq<int> {
    s.map_values(|u: usize| u as int)
}

/// An unset gradient reads as 0.0 when a contribution is accumulated into
/// it, exactly as the backward pass treats it.
pub open spec fn or_zero(o: Option<u64>) -> u64 {
    match o {
        Some(v) => v,
        None => ZERO_BITS,
    }
}

/// The gradient column of a graph.
pub open spec fn grads_of(ns: Seq<NodeView>) -> Seq<Option<u64>> {
    Seq::new(ns.len(), |i: int| ns[i].grad)
}

/// The graph `ns` with its gradient column replaced by `grads`.
pub open spec fn with_grads(ns: Seq<NodeView>, grads: Seq<Option<u64>>) -> Seq<NodeView> {
    Seq::new(
        ns.len(),
        |i: int| NodeView { data: ns[i].data, grad: grads[i], op: ns[i].op, prev: ns[i].prev },
    )
}

/// Accumulate the contribution `d` into the gradient at index `j`: an unset
/// gradient starts from 0.0, an existing one is added to, never overwritten.
pub open spec fn bump_add(grads: Seq<Option<u64>>, j: int, d: u64) -> Seq<Option<u64>> {
    grads.update(j, Some(sum_bits(or_zero(grads[j]), d)))
}

/// As `bump_add`, but the contribution is subtracted.
pub open spec fn bump_sub(grads: Seq<Option<u64>>, j: int, d: u64) -> Seq<Option<u64>> {
    grads.update(j, Some(diff_bits(or_zero(grads[j]), d)))
}

/// The contributions node `i` pushes onto its operands' gradients, given
/// its own already-final gradient:
///   Add(a,b):  da += g,              db += g
///   Sub(a,b):  da += g,              db -= g
///   Mul(a,b):  da += b.data * g,     db += a.data * g
///   Pow(a,e):  da += (e * a.data^(e-1)) * g
///   Tanh(a):   da += (1 - data^2) * g, data being tanh(a.data) already
///   Leaf:      nothing
pub open spec fn acc_one(ns: Seq<NodeView>, i: int, grads: Seq<Option<u64>>) -> Seq<Option<u64>> {
    let gi = or_zero(grads[i]);
    match ns[i].op {
        Oper::Add => bump_add(bump_add(grads, ns[i].prev[0], gi), ns[i].prev[1], gi),
        Oper::Sub => bump_sub(bump_add(grads, ns[i].prev[0], gi), ns[i].prev[1], gi),
        Oper::Mul => bump_add(
            bump_add(grads, ns[i].prev[0], prod_bits(ns[ns[i].prev[1]].data, gi)),
            ns[i].prev[1],
            prod_bits(ns[ns[i].prev[0]].data, gi),
        ),
        Oper::Pow(e) => bump_add(
            grads,
            ns[i].prev[0],
            prod_bits(
                prod_bits(e, pow_bits(ns[ns[i].prev[0]].data, diff_bits(e, ONE_BITS))),
                gi,
            ),
        ),
        Oper::Tanh => bump_add(
            grads,
            ns[i].prev[0],
            prod_bits(diff_bits(ONE_BITS, prod_bits(ns[i].data, ns[i].data)), gi),
        ),
        Oper::Leaf => grads,
    }
}

/// Process the scheduled nodes in `rest` front to back, each pushing its
/// contributions onto its operands' gradients.
pub open spec fn acc_list(
    ns: Seq<NodeView>,
    rest: Seq<int>,
    grads: Seq<Option<u64>>,
) -> Seq<Option<u64>>
    decreases rest.len(),
{
    if rest.len() == 0 {
        grads
    } else {
        acc_list(ns, rest.drop_first(), acc_one(ns, rest.first(), grads))
    }
}

/// Seed the root: the derivative of the root with respect to itself is 1.0,
/// installed only if the root's gradient is still unset.
pub open spec fn seed_root(grads: Seq<Option<u64>>, root: int) -> Seq<Option<u64>> {
    if grads[root] is None {
        grads.update(root, Some(ONE_BITS))
    } else {
        grads
    }
}

/// The gradient column after a full backward pass from `root`: seed the
/// root, then walk the topological order in reverse, root first.
pub open spec fn backprop_grads(ns: Seq<NodeView>, root: int) -> Seq<Option<u64>> {
    acc_list(ns, topo_order(ns, root).reverse(), seed_root(grads_of(ns), root))
}

/// Replacing the gradient column never disturbs well-formedness: operand
/// lists and operations are untouched.
proof fn lemma_with_grads_wf(ns: Seq<NodeView>, grads: Seq<Option<u64>>)
    requires
        graph_wf(ns),
    ensures
        graph_wf(with_grads(ns, grads)),
{
    let ns2 = with_grads(ns, grads);
    assert forall|i: int| 0 <= i < ns2.len() implies #[trigger] node_wf(ns2, i) by {
        assert(node_wf(ns, i));
        assert(ns2[i].op == ns[i].op && ns2[i].prev == ns[i].prev);
    }
}

proof fn lemma_with_grads_collapse(ns: Seq<NodeView>, a: Seq<Option<u64>>, b: Seq<Option<u64>>)
    ensures
        with_grads(with_grads(ns, a), b) == with_grads(ns, b),
{
    assert(with_grads(with_grads(ns, a), b) =~~= with_grads(ns, b));
}

proof fn lemma_grads_of_with(ns: Seq<NodeView>, a: Seq<Option<u64>>)
    requires
        a.len() == ns.len(),
    ensures
        grads_of(with_grads(ns, a)) == a,
{
    assert(grads_of(with_grads(ns, a)) =~= a);
}

/// A set gradient stays set: contributions accumulate, they never erase.
proof fn lemma_acc_one_keeps_some(ns: Seq<NodeView>, i: int, grads: Seq<Option<u64>>, idx: int)
    requires
        0 <= i < ns.len(),
        node_wf(ns, i),
        grads.len() == ns.len(),
        0 <= idx < grads.len(),
        grads[idx] is Some,
    ensures
        acc_one(ns, i, grads)[idx] is Some,
{
}

/// After a node's contributions are pushed, every one of its operands has a
/// set gradient.
proof fn lemma_acc_one_sets_operands(ns: Seq<NodeView>, i: int, grads: Seq<Option<u64>>)
    requires
        0 <= i < ns.len(),
        node_wf(ns, i),
        grads.len() == ns.len(),
    ensures
        forall|k2: int|
            0 <= k2 < ns[i].prev.len() ==> (#[trigger] acc_one(ns, i, grads)[ns[i].prev[k2]])
                is Some,
{
    assert forall|k2: int|
        0 <= k2 < ns[i].prev.len() implies (#[trigger] acc_one(ns, i, grads)[ns[i].prev[k2]])
        is Some by {
        assert(0 <= ns[i].prev[k2] < i);
        assert(k2 == 0 || k2 == 1) by {
            assert(ns[i].prev.len() == arity(ns[i].op));
        }
    }
}

/// The arena that owns every node.  Operand references are indices into it,
/// so a node shared by several downstream nodes is one entry, and a gradient
/// written during the backward pass is visible to every holder of its index.
pub struct Graph {
    datas: Vec<u64>,
    grads: Vec<Option<u64>>,
    ops: Vec<Oper>,
    prevs: Vec<Vec<usize>>,
}

impl View for Graph {
    type V = Seq<NodeView>;

    closed spec fn view(&self) -> Seq<NodeView> {
        Seq::new(
            self.datas@.len(),
            |i: int|
                NodeView {
                    data: self.datas@[i],
                    grad: self.grads@[i],
                    op: self.ops@[i],
                    prev: self.prevs@[i]@.map_values(|p: usize| p as int),
                },
        )
    }
}

impl Graph {
    /// The four column vectors of the arena always have the same length.
    pub closed spec fn sync(self) -> bool {
        &&& self.grads@.len() == self.datas@.len()
        &&& self.ops@.len() == self.datas@.len()
        &&& self.prevs@.len() == self.datas@.len()
    }

    pub open spec fn wf(self) -> bool {
        &&& self.sync()
        &&& graph_wf(self@)
    }

    /// An empty graph.
    pub fn new() -> (g: Graph)
        ensures
            g.wf(),
            g@.len() == 0,
    {
        Graph { datas: Vec::new(), grads: Vec::new(), ops: Vec::new(), prevs: Vec::new() }
    }

    /// Appends a node with gradient unset and returns its handle.
    fn push_node(&mut self, data: u64, op: Oper, prev: Vec<usize>) -> (v: Value)
        requires
            old(self).wf(),
            prev@.len() == arity(op),
            forall|k: int| 0 <= k < prev@.len() ==> (#[trigger] prev@[k] as int) < old(self)@.len(),
        ensures
            final(self).wf(),
            v.id as int == old(self)@.len(),
            final(self)@ == old(self)@.push(
                NodeView {
                    data,
                    grad: None,
                    op,
                    prev: prev@.map_values(|p: usize| p as int),
                },
            ),
    {
        let ghost pre = *self;
        let ghost pv = prev@.map_values(|p: usize| p as int);
        self.datas.push(data);
        self.grads.push(None);
        self.ops.push(op);
        self.prevs.push(prev);
        let v = Value { id: self.datas.len() - 1 };
        proof {
            let post = pre@.push(NodeView { data, grad: None, op, prev: pv });
            assert(self@ =~~= post);
            assert forall|i: int| 0 <= i < post.len() implies #[trigger] node_wf(post, i) by {
                if i < pre@.len() {
                    assert(node_wf(pre@, i));
                    assert(post[i] == pre@[i]);
                }
            }
        }
        v
    }

    /// Accumulates the contribution `d` into the gradient of node `j` by
    /// IEEE-754 addition, an unset gradient reading as 0.0.
    fn bump_grad_add(&mut self, j: usize, d: u64)
        requires
            old(self).sync(),
            (j as int) < old(self)@.len(),
        ensures
            final(self).sync(),
            grads_of(final(self)@) == bump_add(grads_of(old(self)@), j as int, d),
            final(self)@ == with_grads(old(self)@, bump_add(grads_of(old(self)@), j as int, d)),
    {
        let cur = match self.grads[j] {
            Some(v) => v,
            None => ZERO_BITS,
        };
        let nv = add_op(cur, d);
        self.grads.set(j, Some(nv));
        proof {
            assert(grads_of(self@) =~= bump_add(grads_of(old(self)@), j as int, d));
            assert(self@ =~~= with_grads(
                old(self)@,
                bump_add(grads_of(old(self)@), j as int, d),
            ));
        }
    }

    /// As `bump_grad_add`, but the contribution is subtracted.
    fn bump_grad_sub(&mut self, j: usize, d: u64)
        requires
            old(self).sync(),
            (j as int) < old(self)@.len(),
        ensures
            final(self).sync(),
            grads_of(final(self)@) == bump_sub(grads_of(old(self)@), j as int, d),
            final(self)@ == with_grads(old(self)@, bump_sub(grads_of(old(self)@), j as int, d)),
    {
        let cur = match self.grads[j] {
            Some(v) => v,
            None => ZERO_BITS,
        };
        let nv = sub_op(cur, d);
        self.grads.set(j, Some(nv));
        proof {
            assert(grads_of(self@) =~= bump_sub(grads_of(old(self)@), j as int, d));
            assert(self@ =~~= with_grads(
                old(self)@,
                bump_sub(grads_of(old(self)@), j as int, d),
            ));
        }
    }
    /// Discards every node past the watermark `keep` and unsets the kept
    /// nodes' gradients: the arena reset that ends one forward/backward
    /// cycle.  Persistent parameter nodes keep their values; the ephemeral
    /// nodes of the pass are gone, and gradients start the next pass unset.
    pub fn reset(&mut self, keep: usize)
        requires
            old(self).wf(),
            keep <= old(self)@.len(),
        ensures
            final(self).wf(),
            final(self)@.len() == keep as int,
            final(self)@ == with_grads(
                old(self)@.subrange(0, keep as int),
                Seq::new(keep as nat, |i: int| None::<u64>),
            ),
    {
        self.datas.truncate(keep);
        self.ops.truncate(keep);
        self.prevs.truncate(keep);
        self.grads.truncate(keep);
        proof {
            assert(self@ =~~= with_grads(
                old(self)@.subrange(0, keep as int),
                Seq::new(
                    keep as nat,
                    |i: int|
                        if i < 0 {
                            None::<u64>
                        } else {
                            old(self)@[i].grad
                        },
                ),
            ));
        }
        let mut j: usize = 0;
        while j < keep
            invariant
                self.sync(),
                keep <= old(self)@.len(),
                j <= keep,
                self@.len() == keep as int,
                self@ == with_grads(
                    old(self)@.subrange(0, keep as int),
                    Seq::new(
                        keep as nat,
                        |i: int|
                            if i < j as int {
                                None::<u64>
                            } else {
                                old(self)@[i].grad
                            },
                    ),
                ),
            decreases keep - j,
        {
            let ghost pre = self@;
            self.grads.set(j, None);
            proof {
                let target = with_grads(
                    old(self)@.subrange(0, keep as int),
                    Seq::new(
                        keep as nat,
                        |i: int|
                            if i < j as int + 1 {
                                None::<u64>
                            } else {
                                old(self)@[i].grad
                            },
                    ),
                );
                assert forall|i: int| 0 <= i < keep as int implies self@[i] =~= target[i] by {
                    assert(self@[i].data == pre[i].data);
                    assert(self@[i].op == pre[i].op);
                    assert(self@[i].prev == pre[i].prev);
                    if i != j as int {
                        assert(self@[i].grad == pre[i].grad);
                    }
                }
                assert(self@ =~~= target);
            }
            j = j + 1;
        }
        proof {
            assert(self@ =~~= with_grads(
                old(self)@.subrange(0, keep as int),
                Seq::new(keep as nat, |i: int| None::<u64>),
            ));
            let pref = old(self)@.subrange(0, keep as int);
            assert forall|i: int| 0 <= i < pref.len() implies #[trigger] node_wf(pref, i) by {
                assert(node_wf(old(self)@, i));
                assert(pref[i] == old(self)@[i]);
            }
            lemma_with_grads_wf(pref, Seq::new(keep as nat, |i: int| None::<u64>));
        }
    }
}

/// A handle on one node of a [`Graph`]: a stable index into the arena.
#[derive(Clone, Copy, Debug, PartialEq, Eq, Structural)]
pub struct Value {
    pub id: usize,
}

impl Value {
    /// Creates a fresh leaf node holding `data`; its gradient starts unset.
    pub fn new(g: &mut Graph, data: u64) -> (v: Value)
        requires
            old(g).wf(),
        ensures
            final(g).wf(),
            v.id as int == old(g)@.len(),
            final(g)@ == old(g)@.push(
                NodeView { data, grad: None, op: Oper::Leaf, prev: Seq::empty() },
            ),
    {
        let prev: Vec<usize> = Vec::new();
        proof {
            assert(prev@.map_values(|p: usize| p as int) =~= Seq::<int>::empty());
        }
        g.push_node(data, Oper::Leaf, prev)
    }

    /// Records the sum of two nodes: a new `Add` node whose forward value is
    /// the IEEE-754 sum of the operands' values.
    pub fn add(self, g: &mut Graph, other: Value) -> (v: Value)
        requires
            old(g).wf(),
            self.id < old(g)@.len(),
            other.id < old(g)@.len(),
        ensures
            final(g).wf(),
            v.id as int == old(g)@.len(),
            final(g)@ == old(g)@.push(
                NodeView {
                    data: sum_bits(old(g)@[self.id as int].data, old(g)@[other.id as int].data),
                    grad: None,
                    op: Oper::Add,
                    prev: seq![self.id as int, other.id as int],
                },
            ),
    {
        let data = add_op(g.datas[self.id], g.datas[other.id]);
        let mut prev: Vec<usize> = Vec::new();
        prev.push(self.id);
        prev.push(other.id);
        proof {
            assert(prev@.map_values(|p: usize| p as int) =~= seq![self.id as int, other.id as int]);
        }
        g.push_node(data, Oper::Add, prev)
    }

    /// Records the difference of two nodes: a new `Sub` node whose forward
    /// value is the IEEE-754 difference of the operands' values.
    pub fn sub(self, g: &mut Graph, other: Value) -> (v: Value)
        requires
            old(g).wf(),
            self.id < old(g)@.len(),
            other.id < old(g)@.len(),
        ensures
            final(g).wf(),
            v.id as int == old(g)@.len(),
            final(g)@ == old(g)@.push(
                NodeView {
                    data: diff_bits(old(g)@[self.id as int].data, old(g)@[other.id as int].data),
                    grad: None,
                    op: Oper::Sub,
                    prev: seq![self.id as int, other.id as int],
                },
            ),
    {
        let data = sub_op(g.datas[self.id], g.datas[other.id]);
        let mut prev: Vec<usize> = Vec::new();
        prev.push(self.id);
        prev.push(other.id);
        proof {
            assert(prev@.map_values(|p: usize| p as int) =~= seq![self.id as int, other.id as int]);
        }
        g.push_node(data, Oper::Sub, prev)
    }

    /// Records the product of two nodes: a new `Mul` node whose forward
    /// value is the IEEE-754 product of the operands' values.
    pub fn mul(self, g: &mut Graph, other: Value) -> (v: Value)
        requires
            old(g).wf(),
            self.id < old(g)@.len(),
            other.id < old(g)@.len(),
        ensures
            final(g).wf(),
            v.id as int == old(g)@.len(),
            final(g)@ == old(g)@.push(
                NodeView {
                    data: prod_bits(old(g)@[self.id as int].data, old(g)@[other.id as int].data),
                    grad: None,
                    op: Oper::Mul,
                    prev: seq![self.id as int, other.id as int],
                },
            ),
    {
        let data = mul_op(g.datas[self.id], g.datas[other.id]);
        let mut prev: Vec<usize> = Vec::new();
        prev.push(self.id);
        prev.push(other.id);
        proof {
            assert(prev@.map_values(|p: usize| p as int) =~= seq![self.id as int, other.id as int]);
        }
        g.push_node(data, Oper::Mul, prev)
    }

    /// Records `self` raised to the constant exponent whose bit pattern is
    /// `exponent`: a new `Pow` node remembering that exponent.
    pub fn pow(self, g: &mut Graph, exponent: u64) -> (v: Value)
        requires
            old(g).wf(),
            self.id < old(g)@.len(),
        ensures
            final(g).wf(),
            v.id as int == old(g)@.len(),
            final(g)@ == old(g)@.push(
                NodeView {
                    data: pow_bits(old(g)@[self.id as int].data, exponent),
                    grad: None,
                    op: Oper::Pow(exponent),
                    prev: seq![self.id as int],
                },
            ),
    {
        let data = pow_op(g.datas[self.id], exponent);
        let mut prev: Vec<usize> = Vec::new();
        prev.push(self.id);
        proof {
            assert(prev@.map_values(|p: usize| p as int) =~= seq![self.id as int]);
        }
        g.push_node(data, Oper::Pow(exponent), prev)
    }

    /// Records the hyperbolic tangent of `self`: a new `Tanh` node.
    pub fn tanh(self, g: &mut Graph) -> (v: Value)
        requires
            old(g).wf(),
            self.id < old(g)@.len(),
        ensures
            final(g).wf(),
            v.id as int == old(g)@.len(),
            final(g)@ == old(g)@.push(
                NodeView {
                    data: tanh_bits(old(g)@[self.id as int].data),
                    grad: None,
                    op: Oper::Tanh,
                    prev: seq![self.id as int],
                },
            ),
    {
        let data = tanh_op(g.datas[self.id]);
        let mut prev: Vec<usize> = Vec::new();
        prev.push(self.id);
        proof {
            assert(prev@.map_values(|p: usize| p as int) =~= seq![self.id as int]);
        }
        g.push_node(data, Oper::Tanh, prev)
    }

    /// Lifts the constant into an anonymous leaf and records the sum of
    /// `self` and that leaf.
    pub fn add_const(self, g: &mut Graph, c: u64) -> (v: Value)
        requires
            old(g).wf(),
            self.id < old(g)@.len(),
        ensures
            final(g).wf(),
            v.id as int == old(g)@.len() + 1,
            final(g)@ == old(g)@.push(
                NodeView { data: c, grad: None, op: Oper::Leaf, prev: Seq::empty() },
            ).push(
                NodeView {
                    data: sum_bits(old(g)@[self.id as int].data, c),
                    grad: None,
                    op: Oper::Add,
                    prev: seq![self.id as int, old(g)@.len() as int],
                },
            ),
    {
        let lifted = Value::new(g, c);
        self.add(g, lifted)
    }

    /// Lifts the constant into an anonymous leaf and records `self` minus
    /// that leaf.
    pub fn sub_const(self, g: &mut Graph, c: u64) -> (v: Value)
        requires
            old(g).wf(),
            self.id < old(g)@.len(),
        ensures
            final(g).wf(),
            v.id as int == old(g)@.len() + 1,
            final(g)@ == old(g)@.push(
                NodeView { data: c, grad: None, op: Oper::Leaf, prev: Seq::empty() },
            ).push(
                NodeView {
                    data: diff_bits(old(g)@[self.id as int].data, c),
                    grad: None,
                    op: Oper::Sub,
                    prev: seq![self.id as int, old(g)@.len() as int],
                },
            ),
    {
        let lifted = Value::new(g, c);
        self.sub(g, lifted)
    }

    /// Lifts the constant into an anonymous leaf and records the product of
    /// `self` and that leaf.
    pub fn mul_const(self, g: &mut Graph, c: u64) -> (v: Value)
        requires
            old(g).wf(),
            self.id < old(g)@.len(),
        ensures
            final(g).wf(),
            v.id as int == old(g)@.len() + 1,
            final(g)@ == old(g)@.push(
                NodeView { data: c, grad: None, op: Oper::Leaf, prev: Seq::empty() },
            ).push(
                NodeView {
                    data: prod_bits(old(g)@[self.id as int].data, c),
                    grad: None,
                    op: Oper::Mul,
                    prev: seq![self.id as int, old(g)@.len() as int],
                },
            ),
    {
        let lifted = Value::new(g, c);
        self.mul(g, lifted)
    }

    /// Negation, recorded as multiplication by an anonymous -1.0 leaf.
    pub fn neg(self, g: &mut Graph) -> (v: Value)
        requires
            old(g).wf(),
            self.id < old(g)@.len(),
        ensures
            final(g).wf(),
            v.id as int == old(g)@.len() + 1,
            final(g)@ == old(g)@.push(
                NodeView { data: NEG_ONE_BITS, grad: None, op: Oper::Leaf, prev: Seq::empty() },
            ).push(
                NodeView {
                    data: prod_bits(old(g)@[self.id as int].data, NEG_ONE_BITS),
                    grad: None,
                    op: Oper::Mul,
                    prev: seq![self.id as int, old(g)@.len() as int],
                },
            ),
    {
        self.mul_const(g, NEG_ONE_BITS)
    }

    /// Division, recorded as `self * other.pow(-1.0)`: division is not a
    /// primitive of the graph.
    pub fn div(self, g: &mut Graph, other: Value) -> (v: Value)
        requires
            old(g).wf(),
            self.id < old(g)@.len(),
            other.id < old(g)@.len(),
        ensures
            final(g).wf(),
            v.id as int == old(g)@.len() + 1,
            final(g)@ == old(g)@.push(
                NodeView {
                    data: pow_bits(old(g)@[other.id as int].data, NEG_ONE_BITS),
                    grad: None,
                    op: Oper::Pow(NEG_ONE_BITS),
                    prev: seq![other.id as int],
                },
            ).push(
                NodeView {
                    data: prod_bits(
                        old(g)@[self.id as int].data,
                        pow_bits(old(g)@[other.id as int].data, NEG_ONE_BITS),
                    ),
                    grad: None,
                    op: Oper::Mul,
                    prev: seq![self.id as int, old(g)@.len() as int],
                },
            ),
    {
        let inv = other.pow(g, NEG_ONE_BITS);
        self.mul(g, inv)
    }

    /// Division by a constant, recorded as `self * leaf(c).pow(-1.0)`.
    pub fn div_const(self, g: &mut Graph, c: u64) -> (v: Value)
        requires
            old(g).wf(),
            self.id < old(g)@.len(),
        ensures
            final(g).wf(),
            v.id as int == old(g)@.len() + 2,
            final(g)@ == old(g)@.push(
                NodeView { data: c, grad: None, op: Oper::Leaf, prev: Seq::empty() },
            ).push(
                NodeView {
                    data: pow_bits(c, NEG_ONE_BITS),
                    grad: None,
                    op: Oper::Pow(NEG_ONE_BITS),
                    prev: seq![old(g)@.len() as int],
                },
            ).push(
                NodeView {
                    data: prod_bits(old(g)@[self.id as int].data, pow_bits(c, NEG_ONE_BITS)),
                    grad: None,
                    op: Oper::Mul,
                    prev: seq![self.id as int, old(g)@.len() + 1int],
                },
            ),
    {
        let lifted = Value::new(g, c);
        self.div(g, lifted)
    }

    /// The node's forward value, as a bit pattern.
    pub fn data(self, g: &Graph) -> (d: u64)
        requires
            g.wf(),
            self.id < g@.len(),
        ensures
            d == g@[self.id as int].data,
    {
        g.datas[self.id]
    }

    /// The node's accumulated gradient; `None` until a backward pass from a
    /// root that reaches this node has run.
    pub fn grad(self, g: &Graph) -> (r: Option<u64>)
        requires
            g.wf(),
            self.id < g@.len(),
        ensures
            r == g@[self.id as int].grad,
    {
        g.grads[self.id]
    }

    /// The operation that produced this node.
    pub fn op(self, g: &Graph) -> (r: Oper)
        requires
            g.wf(),
            self.id < g@.len(),
        ensures
            r == g@[self.id as int].op,
    {
        g.ops[self.id]
    }

    /// Gradient-descent step on this node, in place:
    /// `data <- data + (-learning_rate) * grad`.  Calling it on a node whose
    /// gradient is unset is a misuse and is excluded here.
    pub fn update(self, g: &mut Graph, learning_rate: u64)
        requires
            old(g).wf(),
            self.id < old(g)@.len(),
            old(g)@[self.id as int].grad is Some,
        ensures
            final(g).wf(),
            final(g)@ == old(g)@.update(
                self.id as int,
                step_node(old(g)@[self.id as int], learning_rate),
            ),
    {
        let gr = g.grads[self.id].unwrap();
        let delta = mul_op(neg_op(learning_rate), gr);
        let nd = add_op(g.datas[self.id], delta);
        g.datas.set(self.id, nd);
        proof {
            let post = old(g)@.update(
                self.id as int,
                step_node(old(g)@[self.id as int], learning_rate),
            );
            assert(g@ =~~= post);
            assert forall|i: int| 0 <= i < post.len() implies #[trigger] node_wf(post, i) by {
                assert(node_wf(old(g)@, i));
            }
        }
    }

    /// Depth-first post-order walk from this node, deduplicating by arena
    /// index: the executable mirror of `dfs_node`.
    fn build_topo(self, g: &Graph, visited: &mut Vec<bool>, topo: &mut Vec<usize>)
        requires
            g.wf(),
            self.id < g@.len(),
            old(visited)@.len() == g@.len(),
        ensures
            ({
                let st2 = dfs_node(
                    g@,
                    self.id as int,
                    DfsState { vis: old(visited)@, order: ids_of(old(topo)@) },
                );
                &&& final(visited)@ == st2.vis
                &&& ids_of(final(topo)@) == st2.order
                &&& final(visited)@.len() == g@.len()
            }),
        decreases self.id,
    {
        let ghost st0 = DfsState { vis: old(visited)@, order: ids_of(old(topo)@) };
        if !visited[self.id] {
            visited.set(self.id, true);
            let ghost st1 = DfsState { vis: visited@, order: ids_of(topo@) };
            proof {
                assert(node_wf(g@, self.id as int));
                assert(st1 =~~= DfsState { vis: st0.vis.update(self.id as int, true), order: st0.order });
            }
            let n_ops = g.prevs[self.id].len();
            let mut k: usize = 0;
            while k < n_ops
                invariant
                    g.wf(),
                    self.id < g@.len(),
                    n_ops as int == g@[self.id as int].prev.len(),
                    k <= n_ops,
                    visited@.len() == g@.len(),
                    dfs_kids(
                        g@,
                        self.id as int,
                        k as int,
                        DfsState { vis: visited@, order: ids_of(topo@) },
                    ) == dfs_kids(g@, self.id as int, 0, st1),
                decreases n_ops - k,
            {
                let c = g.prevs[self.id][k];
                proof {
                    assert(node_wf(g@, self.id as int));
                    assert(g@[self.id as int].prev[k as int] == c as int);
                    assert(0 <= (c as int) && (c as int) < (self.id as int));
                }
                let child = Value { id: c };
                let ghost pre_st = DfsState { vis: visited@, order: ids_of(topo@) };
                child.build_topo(g, visited, topo);
                proof {
                    assert(DfsState { vis: visited@, order: ids_of(topo@) } =~~= dfs_node(
                        g@,
                        c as int,
                        pre_st,
                    ));
                    assert(dfs_kids(g@, self.id as int, k as int, pre_st) == dfs_kids(
                        g@,
                        self.id as int,
                        k as int + 1,
                        dfs_node(g@, c as int, pre_st),
                    ));
                }
                k = k + 1;
            }
            let ghost mid = DfsState { vis: visited@, order: ids_of(topo@) };
            proof {
                assert(dfs_kids(g@, self.id as int, n_ops as int, mid) == mid);
                assert(mid == dfs_kids(g@, self.id as int, 0, st1));
            }
            topo.push(self.id);
            proof {
                assert(ids_of(topo@) =~= mid.order.push(self.id as int));
                let st2 = dfs_node(g@, self.id as int, st0);
                assert(st2 == DfsState { vis: mid.vis, order: mid.order.push(self.id as int) });
                assert(visited@ == st2.vis);
                assert(ids_of(topo@) == st2.order);
            }
        } else {
            proof {
                assert(dfs_node(g@, self.id as int, st0) == st0);
            }
        }
    }

    /// The backward pass.  Builds the topological order of every node
    /// reachable from this root, seeds the root's gradient with 1.0 if it is
    /// unset, then walks the order in reverse - root first, leaves last -
    /// letting each node push its contributions onto its operands'
    /// gradients.  A shared node's gradient is fully accumulated before that
    /// node propagates further, because all of its consumers come earlier in
    /// the reverse walk.
    pub fn backprop(self, g: &mut Graph)
        requires
            old(g).wf(),
            self.id < old(g)@.len(),
        ensures
            final(g).wf(),
            final(g)@ == with_grads(old(g)@, backprop_grads(old(g)@, self.id as int)),
    {
        let ghost ns = old(g)@;
        let ghost root = self.id as int;
        let n = g.datas.len();
        proof {
            assert(n as int == ns.len());
        }
        let mut visited: Vec<bool> = Vec::new();
        while visited.len() < n
            invariant
                visited@.len() <= n as int,
                forall|j: int| 0 <= j < visited@.len() ==> !(#[trigger] visited@[j]),
            decreases n - visited.len(),
        {
            visited.push(false);
        }
        let mut topo: Vec<usize> = Vec::new();
        proof {
            assert(visited@ =~= start_state(ns.len()).vis);
            assert(ids_of(topo@) =~= start_state(ns.len()).order);
            assert(DfsState { vis: visited@, order: ids_of(topo@) } =~~= start_state(ns.len()));
        }
        self.build_topo(g, &mut visited, &mut topo);
        let ghost order = topo_order(ns, root);
        let ghost rev = order.reverse();
        proof {
            lemma_topo_order_sound(ns, root);
            assert(ids_of(topo@) == order);
            assert(topo@.len() == order.len());
        }
        // Seed the root: its derivative with respect to itself is 1.0.
        if g.grads[self.id].is_none() {
            g.grads.set(self.id, Some(ONE_BITS));
        }
        let ghost seeded = seed_root(grads_of(ns), root);
        proof {
            assert(g@ =~~= with_grads(ns, seeded));
            assert(grads_of(g@) =~= seeded);
            assert(rev.skip(0) =~= rev);
        }
        let mut p: usize = topo.len();
        while p > 0
            invariant
                g.sync(),
                p as int <= order.len(),
                ns.len() == g@.len(),
                graph_wf(ns),
                0 <= root < ns.len(),
                topo@.len() == order.len(),
                ids_of(topo@) == order,
                order.len() >= 1,
                order.last() == root,
                forall|j: int| 0 <= j < order.len() ==> 0 <= #[trigger] order[j] < ns.len(),
                forall|j: int| 0 <= j < order.len() - 1 ==> consumed_later(ns, order, j),
                rev == order.reverse(),
                seeded.len() == ns.len(),
                g@ == with_grads(ns, grads_of(g@)),
                grads_of(g@).len() == ns.len(),
                acc_list(ns, rev.skip(order.len() - p as int), grads_of(g@)) == acc_list(
                    ns,
                    rev,
                    seeded,
                ),
                g@[root].grad is Some,
                forall|q: int, k2: int|
                    p as int <= q < order.len() && 0 <= k2 < ns[order[q]].prev.len() ==> (
                    #[trigger] grads_of(g@)[ns[order[q]].prev[k2]]) is Some,
            decreases p,
        {
            p = p - 1;
            let t = topo[p];
            proof {
                assert(order[p as int] == ids_of(topo@)[p as int]);
                assert(order[p as int] == t as int);
                assert(0 <= (t as int) && (t as int) < ns.len());
                assert(node_wf(ns, t as int));
                // This node's own gradient is already fully accumulated: it
                // is the root, or one of its consumers was processed first.
                if p as int == order.len() - 1 {
                    assert(t as int == root);
                } else {
                    assert(consumed_later(ns, order, p as int));
                    let (j2, k2) = choose|j2: int, k2: int|
                        (p as int) < j2 < order.len() && 0 <= k2 < ns[order[j2]].prev.len()
                            && ns[order[j2]].prev[k2] == order[p as int];
                    assert(grads_of(g@)[ns[order[j2]].prev[k2]] is Some);
                }
                assert(grads_of(g@)[t as int] is Some);
                assert(g@[t as int].grad is Some);
            }
            let gval = g.grads[t].unwrap();
            let ghost cur = grads_of(g@);
            proof {
                assert(or_zero(cur[t as int]) == gval);
                assert(g@[t as int].op == ns[t as int].op);
                assert(g@[t as int].prev == ns[t as int].prev);
                assert(ns[t as int].prev.len() == arity(ns[t as int].op));
            }
            match g.ops[t] {
                Oper::Add => {
                    let p0 = g.prevs[t][0];
                    let p1 = g.prevs[t][1];
                    proof {
                        assert(ns[t as int].prev[0] == p0 as int);
                        assert(ns[t as int].prev[1] == p1 as int);
                    }
                    g.bump_grad_add(p0, gval);
                    g.bump_grad_add(p1, gval);
                }
                Oper::Sub => {
                    let p0 = g.prevs[t][0];
                    let p1 = g.prevs[t][1];
                    proof {
                        assert(ns[t as int].prev[0] == p0 as int);
                        assert(ns[t as int].prev[1] == p1 as int);
                    }
                    g.bump_grad_add(p0, gval);
                    g.bump_grad_sub(p1, gval);
                }
                Oper::Mul => {
                    let p0 = g.prevs[t][0];
                    let p1 = g.prevs[t][1];
                    proof {
                        assert(ns[t as int].prev[0] == p0 as int);
                        assert(ns[t as int].prev[1] == p1 as int);
                        assert(g@[p0 as int].data == ns[p0 as int].data);
                        assert(g@[p1 as int].data == ns[p1 as int].data);
                    }
                    let a_data = g.datas[p0];
                    let b_data = g.datas[p1];
                    g.bump_grad_add(p0, mul_op(b_data, gval));
                    g.bump_grad_add(p1, mul_op(a_data, gval));
                }
                Oper::Pow(e) => {
                    let p0 = g.prevs[t][0];
                    proof {
                        assert(ns[t as int].prev[0] == p0 as int);
                        assert(g@[p0 as int].data == ns[p0 as int].data);
                    }
                    let base = g.datas[p0];
                    let derivative = mul_op(e, pow_op(base, sub_op(e, ONE_BITS)));
                    g.bump_grad_add(p0, mul_op(derivative, gval));
                }
                Oper::Tanh => {
                    let p0 = g.prevs[t][0];
                    proof {
                        assert(ns[t as int].prev[0] == p0 as int);
                        assert(g@[t as int].data == ns[t as int].data);
                    }
                    let tval = g.datas[t];
                    let d = sub_op(ONE_BITS, mul_op(tval, tval));
                    g.bump_grad_add(p0, mul_op(d, gval));
                }
                Oper::Leaf => {},
            }
            proof {
                // The graph now carries exactly this node's contributions.
                lemma_grads_of_with(ns, cur);
                lemma_with_grads_collapse(ns, cur, grads_of(g@));
                assert(grads_of(g@) =~= acc_one(ns, t as int, cur));
                assert(g@ == with_grads(ns, grads_of(g@)));
                // One step of the schedule has been consumed.
                let m = order.len() - (p as int) - 1;
                assert(rev.skip(m).len() == order.len() - m);
                assert(rev.skip(m).first() == rev[m]);
                assert(rev[m] == order[p as int]);
                assert(rev.skip(m).drop_first() =~= rev.skip(m + 1));
                assert(acc_list(ns, rev.skip(m), cur) == acc_list(
                    ns,
                    rev.skip(m + 1),
                    acc_one(ns, order[p as int], cur),
                ));
                // Gradients stay set, and this node's operands are now set.
                lemma_acc_one_sets_operands(ns, t as int, cur);
                assert forall|q: int, k2: int|
                    p as int <= q < order.len() && 0 <= k2 < ns[order[q]].prev.len() implies (
                #[trigger] grads_of(g@)[ns[order[q]].prev[k2]]) is Some by {
                    if q == p as int {
                        assert(acc_one(ns, t as int, cur)[ns[t as int].prev[k2]] is Some);
                    } else {
                        assert(cur[ns[order[q]].prev[k2]] is Some);
                        assert(0 <= ns[order[q]].prev[k2] < ns.len()) by {
                            assert(node_wf(ns, order[q]));
                        }
                        lemma_acc_one_keeps_some(ns, t as int, cur, ns[order[q]].prev[k2]);
                    }
                }
                assert(g@[root].grad is Some) by {
                    assert(cur[root] is Some);
                    lemma_acc_one_keeps_some(ns, t as int, cur, root);
                    assert(grads_of(g@)[root] is Some);
                }
            }
        }
        proof {
            assert(rev.skip(order.len() - 0) =~= Seq::<int>::empty());
            assert(acc_list(ns, rev.skip(order.len() - 0), grads_of(g@)) == grads_of(g@));
            assert(grads_of(g@) == backprop_grads(ns, root));
            assert(g@ == with_grads(ns, backprop_grads(ns, root)));
            lemma_with_grads_wf(ns, backprop_grads(ns, root));
            assert(graph_wf(g@));
        }
    }
}

} // verus!
