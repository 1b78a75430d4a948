//! The depth-first post-order traversal that schedules the backward pass,
//! and the proof that it is a topological order of the reachable graph.
//!
//! `dfs_node` is the mathematical mirror of `Value::build_topo`: it walks the
//! operands of a node depth-first, marking nodes visited on entry and
//! appending each node to the order after all of its operands.  The lemmas
//! below establish the facts the backward pass lives on: the order has no
//! duplicates, every node's operands sit at strictly earlier positions, the
//! root sits last, and every other scheduled node has a consumer at a
//! strictly later position.

use vstd::prelude::*;

use crate::value::graph_wf;
use crate::value::node_wf;
use crate::value::NodeView;

verus! {

/// The traversal state: which arena indices have been visited, and the
/// post-order built so far.
#[verifier::ext_equal]
pub struct DfsState {
    pub vis: Seq<bool>,
    pub order: Seq<int>,
}

/// `pre` is an initial segment of `post`.
pub open spec fn seq_prefix(pre: Seq<int>, post: Seq<int>) -> bool {
    &&& pre.len() <= post.len()
    &&& forall|j: int| 0 <= j < pre.len() ==> post[j] == #[trigger] pre[j]
}

/// `x` occurs in `order` at some position strictly before `j`.
pub open spec fn listed_before(order: Seq<int>, x: int, j: int) -> bool {
    exists|j0: int| 0 <= j0 < j && order[j0] == x
}

/// The node at position `j` of `order` is an operand of a node at a
/// strictly later position: someone still to be processed consumes it.
pub open spec fn consumed_later(ns: Seq<NodeView>, order: Seq<int>, j: int) -> bool {
    exists|j2: int, k2: int|
        j < j2 < order.len() && 0 <= k2 < ns[order[j2]].prev.len() && ns[order[j2]].prev[k2]
            == order[j]
}

/// Visit node `i`: if it is new, mark it, walk its operands, then append it.
pub open spec fn dfs_node(ns: Seq<NodeView>, i: int, st: DfsState) -> DfsState
    decreases i, 1int, 0int,
{
    if 0 <= i < ns.len() && i < st.vis.len() && !st.vis[i] {
        let mid = dfs_kids(ns, i, 0, DfsState { vis: st.vis.update(i, true), order: st.order });
        DfsState { vis: mid.vis, order: mid.order.push(i) }
    } else {
        st
    }
}

/// Visit the operands of node `i`, starting from operand position `k`.
pub open spec fn dfs_kids(ns: Seq<NodeView>, i: int, k: int, st: DfsState) -> DfsState
    decreases i, 0int, ns[i].prev.len() - k,
{
    if 0 <= i < ns.len() && 0 <= k < ns[i].prev.len() {
        let c = ns[i].prev[k];
        if 0 <= c < i {
            dfs_kids(ns, i, k + 1, dfs_node(ns, c, st))
        } else {
            dfs_kids(ns, i, k + 1, st)
        }
    } else {
        st
    }
}

/// The fresh state the traversal of a graph with `n` nodes starts from.
pub open spec fn start_state(n: nat) -> DfsState {
    DfsState { vis: Seq::new(n, |j: int| false), order: Seq::empty() }
}

/// The schedule of the backward pass from `root`.
pub open spec fn topo_order(ns: Seq<NodeView>, root: int) -> Seq<int> {
    dfs_node(ns, root, start_state(ns.len())).order
}

/// A node that has been marked visited but not yet appended to the order:
/// one the traversal has entered and not yet left.
pub open spec fn pending(st: DfsState, x: int) -> bool {
    &&& 0 <= x < st.vis.len()
    &&& st.vis[x]
    &&& !st.order.contains(x)
}

/// The invariant of the traversal state: the order lists visited, in-range,
/// pairwise-distinct indices, and every operand of a listed node is listed
/// at a strictly earlier position.
pub open spec fn post_order_ok(ns: Seq<NodeView>, st: DfsState) -> bool {
    &&& st.vis.len() == ns.len()
    &&& forall|j: int| 0 <= j < st.order.len() ==> 0 <= #[trigger] st.order[j] < ns.len()
    &&& forall|j: int| 0 <= j < st.order.len() ==> st.vis[#[trigger] st.order[j]]
    &&& forall|j1: int, j2: int|
        0 <= j1 < j2 < st.order.len() ==> #[trigger] st.order[j1] != #[trigger] st.order[j2]
    &&& forall|j: int, k: int|
        0 <= j < st.order.len() && 0 <= k < ns[st.order[j]].prev.len() ==> listed_before(
            st.order,
            #[trigger] ns[st.order[j]].prev[k],
            j,
        )
}

/// An occurrence strictly before `j` survives extending the order.
proof fn lemma_listed_before_extend(pre: Seq<int>, post: Seq<int>, x: int, j: int)
    requires
        seq_prefix(pre, post),
        0 <= j <= pre.len(),
        listed_before(pre, x, j),
    ensures
        listed_before(post, x, j),
{
    let j0 = choose|j0: int| 0 <= j0 < j && pre[j0] == x;
    assert(post[j0] == pre[j0]);
}

/// A later consumer survives extending the order.
proof fn lemma_consumed_later_extend(ns: Seq<NodeView>, pre: Seq<int>, post: Seq<int>, j: int)
    requires
        seq_prefix(pre, post),
        consumed_later(ns, pre, j),
        0 <= j < pre.len(),
    ensures
        consumed_later(ns, post, j),
{
    let (j2, k2) = choose|j2: int, k2: int|
        j < j2 < pre.len() && 0 <= k2 < ns[pre[j2]].prev.len() && ns[pre[j2]].prev[k2] == pre[j];
    assert(post[j2] == pre[j2]);
    assert(post[j] == pre[j]);
    assert(j < j2 < post.len() && 0 <= k2 < ns[post[j2]].prev.len() && ns[post[j2]].prev[k2]
        == post[j]);
}

/// What one visit does to the state, assuming every pending node lies
/// strictly above `i`: the order grows by a block that ends with `i`, the
/// pending set is unchanged, and every newly listed node other than `i`
/// has a consumer at a strictly later position.
#[verifier::rlimit(100)]
proof fn lemma_dfs_node(ns: Seq<NodeView>, i: int, st: DfsState)
    requires
        graph_wf(ns),
        0 <= i < ns.len(),
        post_order_ok(ns, st),
        forall|x: int| #[trigger] pending(st, x) ==> x > i,
    ensures
        ({
            let st2 = dfs_node(ns, i, st);
            &&& post_order_ok(ns, st2)
            &&& seq_prefix(st.order, st2.order)
            &&& forall|x: int| #[trigger] pending(st2, x) <==> pending(st, x)
            &&& forall|x: int| 0 <= x < ns.len() && st.vis[x] ==> st2.vis[x]
            &&& st2.order.contains(i)
            &&& (!st.vis[i] ==> st2.order.len() > st.order.len() && st2.order.last() == i)
            &&& forall|j: int|
                st.order.len() <= j < st2.order.len() ==> #[trigger] st2.order[j] <= i
            &&& forall|j: int|
                st.order.len() <= j < st2.order.len() && #[trigger] st2.order[j] != i
                    ==> consumed_later(ns, st2.order, j)
        }),
    decreases i, 1int, 0int,
{
    let st2 = dfs_node(ns, i, st);
    if st.vis[i] {
        // Already visited: the state is unchanged; `i` must already be
        // listed, else it would be pending below itself.
        assert(st2 == st);
        if !st.order.contains(i) {
            assert(pending(st, i));
        }
    } else {
        assert(node_wf(ns, i));
        let st1 = DfsState { vis: st.vis.update(i, true), order: st.order };
        assert forall|x: int| #[trigger] pending(st1, x) implies x >= i by {
            if x != i {
                assert(pending(st, x));
            }
        }
        assert(st1.vis.len() == st.vis.len());
        assert forall|j: int| 0 <= j < st1.order.len() implies st1.vis[#[trigger] st1.order[j]] by {
            assert(0 <= st.order[j] < ns.len());
            assert(st.vis[st.order[j]]);
        }
        assert forall|j: int, k: int|
            0 <= j < st1.order.len() && 0 <= k < ns[st1.order[j]].prev.len() implies listed_before(
            st1.order,
            #[trigger] ns[st1.order[j]].prev[k],
            j,
        ) by {
            assert(st1.order == st.order);
            assert(ns[st1.order[j]].prev[k] == ns[st.order[j]].prev[k]);
            assert(listed_before(st.order, ns[st.order[j]].prev[k], j));
        }
        assert(post_order_ok(ns, st1));
        lemma_dfs_kids(ns, i, 0, st1);
        let mid = dfs_kids(ns, i, 0, st1);
        assert(st2.vis == mid.vis);
        assert(st2.order == mid.order.push(i));
        // `i` is pending in `mid`, hence not yet listed: the push keeps the
        // order duplicate-free.
        assert(pending(st1, i));
        assert(pending(mid, i));
        assert(!mid.order.contains(i));
        assert(st2.order.last() == i);
        assert(st2.order.contains(i));
        assert(seq_prefix(mid.order, st2.order));
        // The invariant survives the push.
        assert forall|j: int| 0 <= j < st2.order.len() implies 0 <= #[trigger] st2.order[j]
            < ns.len() by {
            if j < mid.order.len() {
                assert(st2.order[j] == mid.order[j]);
            }
        }
        assert forall|j: int| 0 <= j < st2.order.len() implies st2.vis[#[trigger] st2.order[j]] by {
            if j < mid.order.len() {
                assert(st2.order[j] == mid.order[j]);
                assert(mid.vis[mid.order[j]]);
            }
        }
        assert forall|j1: int, j2: int| 0 <= j1 < j2 < st2.order.len() implies #[trigger] st2
            .order[j1] != #[trigger] st2.order[j2] by {
            if j2 < mid.order.len() {
            } else {
                assert(st2.order[j2] == i);
                assert(st2.order[j1] == mid.order[j1]);
                if mid.order[j1] == i {
                    assert(mid.order.contains(i));
                }
            }
        }
        assert forall|j: int, k: int|
            0 <= j < st2.order.len() && 0 <= k < ns[st2.order[j]].prev.len() implies listed_before(
            st2.order,
            #[trigger] ns[st2.order[j]].prev[k],
            j,
        ) by {
            if j < mid.order.len() {
                assert(st2.order[j] == mid.order[j]);
                assert(ns[mid.order[j]].prev[k] == ns[st2.order[j]].prev[k]);
                assert(listed_before(mid.order, ns[mid.order[j]].prev[k], j));
                lemma_listed_before_extend(mid.order, st2.order, ns[mid.order[j]].prev[k], j);
            } else {
                // The pushed node is `i`; its operands were all listed by
                // the walk of its operand list.
                assert(st2.order[j] == i);
                let c = ns[i].prev[k];
                assert(mid.order.contains(c));
                let j0 = choose|j0: int| 0 <= j0 < mid.order.len() && mid.order[j0] == c;
                assert(st2.order[j0] == mid.order[j0]);
                assert(0 <= j0 < j && st2.order[j0] == c);
            }
        }
        // Pending sets agree: `i` leaves the pending set by being listed.
        assert forall|x: int| #[trigger] pending(st2, x) <==> pending(st, x) by {
            if 0 <= x < ns.len() {
                if x == i {
                    assert(!pending(st2, i));
                    assert(!pending(st, i));
                } else {
                    assert(st2.vis[x] == mid.vis[x]);
                    assert(st2.order.contains(x) <==> mid.order.contains(x)) by {
                        if st2.order.contains(x) {
                            let jx = choose|jx: int|
                                0 <= jx < st2.order.len() && st2.order[jx] == x;
                            assert(jx < mid.order.len() && mid.order[jx] == x);
                        } else {
                            if mid.order.contains(x) {
                                let jx = choose|jx: int|
                                    0 <= jx < mid.order.len() && mid.order[jx] == x;
                                assert(st2.order[jx] == x);
                            }
                        }
                    }
                    assert(pending(st2, x) <==> pending(mid, x));
                    assert(pending(mid, x) <==> pending(st1, x));
                    assert(st1.vis[x] == st.vis[x]);
                    assert(pending(st1, x) <==> pending(st, x));
                }
            } else {
                assert(!pending(st2, x));
                assert(!pending(st, x));
            }
        }
        // New entries are bounded by `i` and, unless they are `i` itself,
        // have a consumer later in the order.
        assert forall|j: int| st.order.len() <= j < st2.order.len() implies #[trigger] st2.order[j]
            <= i by {
            if j < mid.order.len() {
                assert(st2.order[j] == mid.order[j]);
                assert(mid.order[j] < i);
            }
        }
        assert forall|j: int|
            st.order.len() <= j < st2.order.len() && #[trigger] st2.order[j] != i
                implies consumed_later(ns, st2.order, j) by {
            assert(j < mid.order.len());
            assert(st2.order[j] == mid.order[j]);
            if ns[i].prev.contains(mid.order[j]) {
                // Consumer is `i`, pushed at the end.
                let k2 = choose|k2: int|
                    0 <= k2 < ns[i].prev.len() && ns[i].prev[k2] == mid.order[j];
                let j2 = st2.order.len() - 1;
                assert(st2.order[j2] == i);
                assert(j < j2 < st2.order.len() && 0 <= k2 < ns[st2.order[j2]].prev.len()
                    && ns[st2.order[j2]].prev[k2] == st2.order[j]);
            } else {
                assert(consumed_later(ns, mid.order, j));
                lemma_consumed_later_extend(ns, mid.order, st2.order, j);
            }
        }
    }
}

/// What walking the operand tail `k..` of a marked node `i` does to the
/// state: every operand of `i` from the walked range ends up listed, the
/// pending set is unchanged, new entries lie strictly below `i`, and each
/// new entry either has a consumer later in the order or is an operand of
/// `i` itself.
#[verifier::rlimit(100)]
proof fn lemma_dfs_kids(ns: Seq<NodeView>, i: int, k: int, st: DfsState)
    requires
        graph_wf(ns),
        0 <= i < ns.len(),
        0 <= k <= ns[i].prev.len(),
        post_order_ok(ns, st),
        forall|x: int| #[trigger] pending(st, x) ==> x >= i,
        0 <= i < st.vis.len() && st.vis[i],
        forall|k0: int| 0 <= k0 < k ==> st.order.contains(#[trigger] ns[i].prev[k0]),
    ensures
        ({
            let st2 = dfs_kids(ns, i, k, st);
            &&& post_order_ok(ns, st2)
            &&& seq_prefix(st.order, st2.order)
            &&& forall|x: int| #[trigger] pending(st2, x) <==> pending(st, x)
            &&& forall|x: int| 0 <= x < ns.len() && st.vis[x] ==> st2.vis[x]
            &&& forall|k0: int|
                0 <= k0 < ns[i].prev.len() ==> st2.order.contains(#[trigger] ns[i].prev[k0])
            &&& forall|j: int|
                st.order.len() <= j < st2.order.len() ==> #[trigger] st2.order[j] < i
            &&& forall|j: int|
                st.order.len() <= j < st2.order.len() ==> consumed_later(ns, st2.order, j)
                    || ns[i].prev.contains(#[trigger] st2.order[j])
        }),
    decreases i, 0int, ns[i].prev.len() - k,
{
    assert(node_wf(ns, i));
    let st2 = dfs_kids(ns, i, k, st);
    if k < ns[i].prev.len() {
        let c = ns[i].prev[k];
        assert(0 <= c < i);
        assert forall|x: int| #[trigger] pending(st, x) implies x > c by {}
        lemma_dfs_node(ns, c, st);
        let stm = dfs_node(ns, c, st);
        assert forall|k0: int| 0 <= k0 < k + 1 implies stm.order.contains(
            #[trigger] ns[i].prev[k0],
        ) by {
            if k0 < k {
                assert(st.order.contains(ns[i].prev[k0]));
                let j0 = choose|j0: int| 0 <= j0 < st.order.len() && st.order[j0] == ns[i].prev[k0];
                assert(stm.order[j0] == st.order[j0]);
            } else {
                assert(ns[i].prev[k0] == c);
                assert(stm.order.contains(c));
            }
        }
        assert forall|x: int| #[trigger] pending(stm, x) implies x >= i by {
            assert(pending(st, x));
        }
        assert(stm.vis[i]) by {
            assert(st.vis[i]);
        }
        lemma_dfs_kids(ns, i, k + 1, stm);
        assert(st2 == dfs_kids(ns, i, k + 1, stm));
        // Chain the prefix relation and carry each clause across the two
        // stages.
        assert(seq_prefix(st.order, st2.order)) by {
            assert forall|j: int| 0 <= j < st.order.len() implies st2.order[j] == #[trigger] st
                .order[j] by {
                assert(stm.order[j] == st.order[j]);
            }
        }
        assert forall|k0: int| 0 <= k0 < ns[i].prev.len() implies st2.order.contains(
            #[trigger] ns[i].prev[k0],
        ) by {
            if k0 < k + 1 {
                assert(stm.order.contains(ns[i].prev[k0]));
                let j0 = choose|j0: int|
                    0 <= j0 < stm.order.len() && stm.order[j0] == ns[i].prev[k0];
                assert(st2.order[j0] == stm.order[j0]);
            }
        }
        assert forall|j: int| st.order.len() <= j < st2.order.len() implies #[trigger] st2.order[j]
            < i by {
            if j < stm.order.len() {
                assert(st2.order[j] == stm.order[j]);
                assert(stm.order[j] <= c);
            }
        }
        assert forall|j: int| st.order.len() <= j < st2.order.len() implies consumed_later(
            ns,
            st2.order,
            j,
        ) || ns[i].prev.contains(#[trigger] st2.order[j]) by {
            if j < stm.order.len() {
                // A node listed while visiting operand `c`.
                assert(st2.order[j] == stm.order[j]);
                if stm.order[j] == c {
                    assert(ns[i].prev[k] == st2.order[j]);
                    assert(ns[i].prev.contains(st2.order[j]));
                } else {
                    assert(consumed_later(ns, stm.order, j));
                    lemma_consumed_later_extend(ns, stm.order, st2.order, j);
                }
            }
        }
    } else {
        assert(st2 == st);
    }
}

/// The schedule of a backward pass from `root` is a sound topological
/// order: it lists pairwise-distinct in-range nodes, every listed node's
/// operands sit at strictly earlier positions, `root` sits last, and every
/// listed node other than `root` has a consumer at a strictly later
/// position.  Walked in reverse, a node is therefore processed only after
/// every consumer that feeds gradient into it, so its own gradient is
/// fully accumulated before it pushes gradient to its operands.
#[verifier::rlimit(100)]
pub proof fn lemma_topo_order_sound(ns: Seq<NodeView>, root: int)
    requires
        graph_wf(ns),
        0 <= root < ns.len(),
    ensures
        ({
            let order = topo_order(ns, root);
            &&& order.len() >= 1
            &&& order.last() == root
            &&& forall|j: int| 0 <= j < order.len() ==> 0 <= #[trigger] order[j] < ns.len()
            &&& forall|j1: int, j2: int|
                0 <= j1 < j2 < order.len() ==> #[trigger] order[j1] != #[trigger] order[j2]
            &&& forall|j: int, k: int|
                0 <= j < order.len() && 0 <= k < ns[order[j]].prev.len() ==> listed_before(
                    order,
                    #[trigger] ns[order[j]].prev[k],
                    j,
                )
            &&& forall|j: int| 0 <= j < order.len() - 1 ==> consumed_later(ns, order, j)
        }),
{
    let st0 = start_state(ns.len());
    assert forall|x: int| #[trigger] pending(st0, x) implies x > root by {
        assert(!st0.vis[x]);
    }
    assert(post_order_ok(ns, st0));
    lemma_dfs_node(ns, root, st0);
    let st2 = dfs_node(ns, root, st0);
    let order = topo_order(ns, root);
    assert(order == st2.order);
    assert(!st0.vis[root]);
    assert(order.last() == root);
    assert forall|j: int| 0 <= j < order.len() - 1 implies consumed_later(ns, order, j) by {
        assert(order[order.len() - 1] == root);
        assert(st2.order[j] != root);
    }
}

} // verus!
