//! Rewrite passes over the computation graph: reconstruction of a fused 2D
//! matrix multiply from its decomposed multiply-and-reduce pattern, and
//! fusion of chains of elementwise unary operators. Both passes keep the
//! graph structurally consistent, never touch a protected node, and migrate
//! external references before deleting anything.

use vstd::prelude::*;

use crate::graph::contains_id;
use crate::graph::in_edge_ids;
use crate::graph::lemma_in_edge_ids_valid;
use crate::graph::lemma_out_edge_ids_valid;
use crate::graph::out_edge_ids;
use crate::graph::Graph;
use crate::graph::edge_sim;
use crate::graph::lemma_other_in_ids_valid;
use crate::graph::other_in_ids;
use crate::graph::Edge;
use crate::graph::edges_sim;
use crate::graph::lemma_remove_incident_sim;
use crate::graph::remove_incident;
use crate::graph::resourced_out;
use crate::ops::copy_vec;
use crate::ops::fused_list;
use crate::ops::is_fusable_op;
use crate::ops::spec_unary_of;
use crate::ops::unary_of;
use crate::ops::Op;
use crate::ops::UnaryOp;
use crate::shape::Dim;

verus! {

/// Both passes promise this of every graph they rewrite: it stays well
/// formed, the protected set is untouched and every node it names is
/// exactly as it was, the retrieve set keeps its length (entries may be
/// migrated to replacement nodes), and the arena only grows.
pub open spec fn pass_contract(pre: Graph, post: Graph) -> bool {
    &&& post.wf()
    &&& post.no_delete@ == pre.no_delete@
    &&& post.to_retrieve@.len() == pre.to_retrieve@.len()
    &&& post.nodes@.len() >= pre.nodes@.len()
    &&& forall|k: int|
        0 <= k < pre.no_delete@.len() ==> post.nodes@[(#[trigger] pre.no_delete@[k]) as int]
            == pre.nodes@[pre.no_delete@[k] as int]
}

/// Append a copy of every element of `src`.
fn extend_vec<T: Copy>(dst: &mut Vec<T>, src: &Vec<T>)
    ensures
        final(dst)@ == old(dst)@ + src@,
{
    let mut i: usize = 0;
    while i < src.len()
        invariant
            i <= src@.len(),
            dst@ == old(dst)@ + src@.take(i as int),
        decreases src@.len() - i,
    {
        dst.push(src[i]);
        i = i + 1;
        proof {
            assert(dst@ =~= old(dst)@ + src@.take(i as int));
        }
    }
    proof {
        assert(dst@ =~= old(dst)@ + src@);
    }
}

/// Collapses maximal chains of single-consumer elementwise unary operators
/// (or already-fused chains) into one node carrying the ordered function
/// list, rewiring consumers and migrating references before the swallowed
/// successor is deleted.
#[derive(Debug, Default)]
pub struct UnaryFusionOptimizer;

/// The pass contract composes across successive rewrite steps.
pub proof fn lemma_pass_contract_trans(a: Graph, b: Graph, c: Graph)
    requires
        pass_contract(a, b),
        pass_contract(b, c),
    ensures
        pass_contract(a, c),
{
    assert forall|k: int|
        0 <= k < a.no_delete@.len() implies c.nodes@[(#[trigger] a.no_delete@[k]) as int]
        == a.nodes@[a.no_delete@[k] as int] by {
        assert(b.no_delete@[k] == a.no_delete@[k]);
        assert(b.nodes@[a.no_delete@[k] as int] == a.nodes@[a.no_delete@[k] as int]);
    }
}

/// The consumer at the other end of `id`'s single outgoing edge.
pub open spec fn fuse_target(g: Graph, id: usize) -> usize {
    g.edges@[out_edge_ids(g.edges@, id)[0] as int].dst
}

/// `id` can absorb its successor: it is live and unprotected, its single
/// outgoing edge leads to a distinct unprotected node, and both operators
/// take part in unary fusion.
pub open spec fn fusible_at(g: Graph, id: usize) -> bool {
    &&& g.live(id as int)
    &&& !g.no_delete@.contains(id)
    &&& out_edge_ids(g.edges@, id).len() == 1
    &&& fuse_target(g, id) != id
    &&& !g.no_delete@.contains(fuse_target(g, id))
    &&& is_fusable_op(g.nodes@[id as int]->Some_0.op)
    &&& is_fusable_op(g.nodes@[fuse_target(g, id) as int]->Some_0.op)
}

/// What one merge leaves behind: `id` carries the concatenated function
/// list under its old shape, the successor is gone, every other node is
/// untouched; retrieve and remap entries that pointed at the successor now
/// point at `id`, with the move recorded; the edges are the old ones with
/// the successor's outgoing edges re-sourced to `id` and everything
/// incident to the successor removed.
pub open spec fn fuse_step_post(pre: Graph, post: Graph, id: usize) -> bool {
    let t = fuse_target(pre, id);
    &&& post.nodes@.len() == pre.nodes@.len()
    &&& post.nodes@[id as int] is Some
    &&& post.nodes@[id as int]->Some_0.op is FusedUnary
    &&& post.nodes@[id as int]->Some_0.op->FusedUnary_0@ == fused_list(
        pre.nodes@[id as int]->Some_0.op,
    ) + fused_list(pre.nodes@[t as int]->Some_0.op)
    &&& post.nodes@[id as int]->Some_0.shape@ == pre.nodes@[id as int]->Some_0.shape@
    &&& post.nodes@[t as int] is None
    &&& forall|k: int|
        0 <= k < pre.nodes@.len() && k != id && k != t ==> post.nodes@[k] == pre.nodes@[k]
    &&& post.no_delete@ == pre.no_delete@
    &&& post.to_retrieve@.len() == pre.to_retrieve@.len()
    &&& forall|k: int|
        0 <= k < pre.to_retrieve@.len() ==> post.to_retrieve@[k] == (if pre.to_retrieve@[k] == t {
            id
        } else {
            pre.to_retrieve@[k]
        })
    &&& post.id_remap@.len() == pre.id_remap@.len() + 1
    &&& forall|k: int|
        0 <= k < pre.id_remap@.len() ==> post.id_remap@[k] == (if (#[trigger] pre.id_remap@[k]).1
            == t {
            (pre.id_remap@[k].0, id)
        } else {
            pre.id_remap@[k]
        })
    &&& post.id_remap@[pre.id_remap@.len() as int] == (t, id)
    &&& edges_sim(
        post.edges@,
        remove_incident(pre.edges@ + resourced_out(pre.edges@, t, id), t),
    )
}

impl UnaryFusionOptimizer {
    /// One fusion attempt at `id`: merges its successor into it exactly
    /// when `fusible_at` holds, with the effect `fuse_step_post` describes;
    /// otherwise the graph is left untouched.
    pub fn try_fuse_step(graph: &mut Graph, id: usize) -> (merged: bool)
        requires
            old(graph).wf(),
        ensures
            pass_contract(*old(graph), *final(graph)),
            merged == fusible_at(*old(graph), id),
            !merged ==> *final(graph) == *old(graph),
            merged ==> fuse_step_post(*old(graph), *final(graph), id),
    {
        let ec = graph.edges.len();
        proof {
            assert(graph.edges@.len() == ec);
        }
        if !graph.is_live(id) {
            return false;
        }
        if contains_id(&graph.no_delete, id) {
            return false;
        }
        let out1 = graph.out_edges(id);
        if out1.len() != 1 {
            return false;
        }
        proof {
            lemma_out_edge_ids_valid(graph.edges@, id, 0);
        }
        let target = graph.get_edge(out1[0]).dst;
        proof {
            assert(target == fuse_target(*graph, id));
        }
        if target == id {
            return false;
        }
        if contains_id(&graph.no_delete, target) {
            return false;
        }
        let ghost id_op = graph.nodes@[id as int]->Some_0.op;
        let ghost t_op = graph.nodes@[target as int]->Some_0.op;
        let a_class = unary_of(&graph.get_op(id).op);
        let a_fused: Option<Vec<UnaryOp>> = match &graph.get_op(id).op {
            Op::FusedUnary(v) => Some(copy_vec(v)),
            _ => None,
        };
        let b_class = unary_of(&graph.get_op(target).op);
        let b_fused: Option<Vec<UnaryOp>> = match &graph.get_op(target).op {
            Op::FusedUnary(v) => Some(copy_vec(v)),
            _ => None,
        };
        proof {
            assert(a_class == spec_unary_of(id_op));
            assert(b_class == spec_unary_of(t_op));
            assert(a_fused is Some <==> id_op is FusedUnary);
            assert(b_fused is Some <==> t_op is FusedUnary);
            assert(a_fused is Some ==> a_fused->Some_0@ == id_op->FusedUnary_0@);
            assert(b_fused is Some ==> b_fused->Some_0@ == t_op->FusedUnary_0@);
        }
        let merged_list: Vec<UnaryOp> = match (a_class, a_fused) {
            (Some(f), _) => {
                match (b_class, b_fused) {
                    (Some(of), _) => {
                        let mut v: Vec<UnaryOp> = Vec::new();
                        v.push(f);
                        v.push(of);
                        proof {
                            assert(v@ =~= fused_list(id_op) + fused_list(t_op));
                        }
                        v
                    },
                    (None, Some(fl)) => {
                        let mut v: Vec<UnaryOp> = Vec::new();
                        v.push(f);
                        extend_vec(&mut v, &fl);
                        proof {
                            assert(v@ =~= fused_list(id_op) + fused_list(t_op));
                        }
                        v
                    },
                    (None, None) => {
                        proof {
                            assert(!is_fusable_op(t_op));
                        }
                        return false;
                    },
                }
            },
            (None, Some(fa)) => {
                match (b_class, b_fused) {
                    (Some(of), _) => {
                        let mut v = fa;
                        v.push(of);
                        proof {
                            assert(v@ =~= fused_list(id_op) + fused_list(t_op));
                        }
                        v
                    },
                    (None, Some(fb)) => {
                        let mut v = fa;
                        extend_vec(&mut v, &fb);
                        proof {
                            assert(v@ =~= fused_list(id_op) + fused_list(t_op));
                        }
                        v
                    },
                    (None, None) => {
                        proof {
                            assert(!is_fusable_op(t_op));
                        }
                        return false;
                    },
                }
            },
            (None, None) => {
                proof {
                    assert(!is_fusable_op(id_op));
                }
                return false;
            },
        };
        proof {
            assert(fusible_at(*old(graph), id));
        }
        graph.set_op(id, Op::FusedUnary(merged_list));
        let ec2 = graph.edges.len();
        proof {
            assert(graph.edges@.len() == ec2);
        }
        let ghost pre_edges = graph.edges@;
        let ghost nd_snap = graph.no_delete@;
        let ghost tr_snap = graph.to_retrieve@;
        let ghost rm_snap = graph.id_remap@;
        let ghost nodes_snap = graph.nodes@;
        let souts = graph.out_edges(target);
        let mut q: usize = 0;
        while q < souts.len()
            invariant
                graph.wf(),
                souts@ == out_edge_ids(pre_edges, target),
                pre_edges.len() <= usize::MAX,
                graph.edges@.len() == pre_edges.len() + q,
                forall|i: int| 0 <= i < pre_edges.len() ==> graph.edges@[i] == pre_edges[i],
                forall|k: int|
                    0 <= k < q ==> edge_sim(
                        #[trigger] graph.edges@[pre_edges.len() + k],
                        resourced_out(pre_edges, target, id)[k],
                    ),
                graph.nodes@ == nodes_snap,
                graph.no_delete@ == nd_snap,
                graph.to_retrieve@ == tr_snap,
                graph.id_remap@ == rm_snap,
                graph.live(id as int),
                q <= souts@.len(),
            decreases souts@.len() - q,
        {
            proof {
                lemma_out_edge_ids_valid(pre_edges, target, q as int);
            }
            let e = souts[q];
            let dst = graph.get_edge(e).dst;
            let order = graph.get_edge(e).input_order;
            let view = graph.get_edge(e).view.clone();
            graph.add_input(dst, id, order, view);
            q = q + 1;
        }
        proof {
            assert(edges_sim(
                graph.edges@,
                pre_edges + resourced_out(pre_edges, target, id),
            )) by {
                let spec_mid = pre_edges + resourced_out(pre_edges, target, id);
                assert forall|i: int|
                    0 <= i < graph.edges@.len() implies edge_sim(
                    #[trigger] graph.edges@[i],
                    spec_mid[i],
                ) by {
                    if i < pre_edges.len() {
                        assert(graph.edges@[i] == pre_edges[i]);
                    } else {
                        let k = i - pre_edges.len();
                        assert(edge_sim(
                            graph.edges@[pre_edges.len() + k],
                            resourced_out(pre_edges, target, id)[k],
                        ));
                        assert(i == pre_edges.len() + k);
                    }
                }
            }
        }
        let ghost mid_actual = graph.edges@;
        graph.move_references(target, id);
        proof {
            assert forall|k: int| 0 <= k < nd_snap.len() implies graph.no_delete@[k]
                == nd_snap[k] by {
                assert(nd_snap[k] != target);
            }
            assert(graph.no_delete@ =~= nd_snap);
            assert forall|k: int|
                0 <= k < graph.to_retrieve@.len() implies graph.to_retrieve@[k] != target by {
                assert(graph.to_retrieve@[k] == (if tr_snap[k] == target {
                    id
                } else {
                    tr_snap[k]
                }));
            }
            assert(!graph.to_retrieve@.contains(target));
            assert forall|k: int|
                0 <= k < graph.id_remap@.len() implies (#[trigger] graph.id_remap@[k]).1
                != target by {
                if k < rm_snap.len() {
                    assert(graph.id_remap@[k] == (if rm_snap[k].1 == target {
                        (rm_snap[k].0, id)
                    } else {
                        rm_snap[k]
                    }));
                }
            }
        }
        graph.remove_node(target);
        proof {
            assert forall|k: int|
                0 <= k < old(graph).no_delete@.len() implies graph.nodes@[(
            #[trigger] old(graph).no_delete@[k]) as int] == old(graph).nodes@[old(
                graph,
            ).no_delete@[k] as int] by {
                assert(old(graph).no_delete@[k] != target);
                assert(old(graph).no_delete@[k] != id);
            }
            lemma_remove_incident_sim(
                mid_actual,
                pre_edges + resourced_out(pre_edges, target, id),
                target,
            );
            assert(pre_edges == old(graph).edges@);
            assert(tr_snap == old(graph).to_retrieve@);
            assert(rm_snap == old(graph).id_remap@);
            assert(target == fuse_target(*old(graph), id));
            assert(graph.nodes@ == nodes_snap.update(target as int, None));
            assert(graph.nodes@[id as int] == nodes_snap[id as int]);
            assert(graph.edges@ == remove_incident(mid_actual, target));
            assert(edges_sim(
                graph.edges@,
                remove_incident(
                    old(graph).edges@ + resourced_out(old(graph).edges@, target, id),
                    target,
                ),
            ));
            assert(graph.nodes@.len() == old(graph).nodes@.len());
            assert(graph.nodes@[id as int] is Some);
            assert(graph.nodes@[id as int]->Some_0.op->FusedUnary_0@ == fused_list(
                old(graph).nodes@[id as int]->Some_0.op,
            ) + fused_list(old(graph).nodes@[target as int]->Some_0.op));
            assert(graph.nodes@[target as int] is None);
            assert(forall|k: int|
                0 <= k < old(graph).nodes@.len() && k != id && k != target
                    ==> graph.nodes@[k] == old(graph).nodes@[k]);
            assert(graph.no_delete@ == old(graph).no_delete@);
            assert(graph.to_retrieve@.len() == old(graph).to_retrieve@.len());
            assert(graph.id_remap@.len() == old(graph).id_remap@.len() + 1);
            assert(graph.id_remap@[old(graph).id_remap@.len() as int] == (target, id));
            assert(fuse_step_post(*old(graph), *graph, id));
        }
        true
    }

    /// Scan a snapshot of the nodes; at each one, merge recognized unary or
    /// fused successors into it for as long as a merge applies, so that a
    /// maximal single-consumer chain collapses into one node. A node in the
    /// protected set is neither fused into nor removed; a graph with no
    /// fusible pair is returned exactly as it came.
    pub fn optimize(&self, graph: &mut Graph)
        requires
            old(graph).wf(),
        ensures
            pass_contract(*old(graph), *final(graph)),
            (forall|id: usize| !fusible_at(*old(graph), id)) ==> *final(graph) == *old(graph),
    {
        let ids = graph.node_indices();
        let mut t: usize = 0;
        while t < ids.len()
            invariant
                pass_contract(*old(graph), *graph),
                (forall|id2: usize| !fusible_at(*old(graph), id2)) ==> *graph == *old(graph),
                t <= ids@.len(),
            decreases ids@.len() - t,
        {
            let id = ids[t];
            t = t + 1;
            let mut fuel = graph.nodes.len();
            while fuel > 0
                invariant
                    pass_contract(*old(graph), *graph),
                    (forall|id2: usize| !fusible_at(*old(graph), id2)) ==> *graph == *old(
                        graph,
                    ),
                decreases fuel,
            {
                fuel = fuel - 1;
                let ghost mid = *graph;
                let merged = Self::try_fuse_step(graph, id);
                proof {
                    lemma_pass_contract_trans(*old(graph), mid, *graph);
                    if forall|id2: usize| !fusible_at(*old(graph), id2) {
                        assert(mid == *old(graph));
                        assert(!fusible_at(*old(graph), id));
                        assert(!merged);
                    }
                }
                if !merged {
                    break ;
                }
            }
        }
    }
}

/// The source of the one edge entering `m` from a node other than `x1`.
pub open spec fn mm_other_src(g: Graph, m: usize, x1: usize) -> usize {
    g.edges@[other_in_ids(g.edges@, m, x1)[0] as int].src
}

/// The last edge entering `n`: the operand edge the splice reads its view
/// from.
pub open spec fn mm_last_in(g: Graph, n: usize) -> Edge {
    g.edges@[in_edge_ids(g.edges@, n)[in_edge_ids(g.edges@, n).len() - 1] as int]
}

/// A decomposed 2D matrix multiply rooted at the rank-2 `Permute` node
/// `id`: its single consumer is a rank-3 `Expand` whose single consumer is
/// a rank-3 `Mul`; the multiply's other operand comes through a second
/// rank-3 `Expand`, and its single consumer is a rank-2 `SumReduce`. The
/// five nodes are distinct and unprotected; the four intermediates are
/// neither retrieved nor remap targets (splicing them out would orphan an
/// external handle); each operand chain has an incoming edge whose view has
/// the needed rank, fed by a node outside the matched five.
pub open spec fn matmul_site(g: Graph, id: usize) -> bool {
    let x1 = fuse_target(g, id);
    let m = fuse_target(g, x1);
    let x2 = mm_other_src(g, m, x1);
    let s = fuse_target(g, m);
    let ea = mm_last_in(g, x2);
    let eb = mm_last_in(g, id);
    &&& g.live(id as int)
    &&& g.nodes@[id as int]->Some_0.op is Permute
    &&& g.nodes@[id as int]->Some_0.shape@.len() == 2
    &&& out_edge_ids(g.edges@, id).len() == 1
    &&& g.nodes@[x1 as int]->Some_0.op is Expand
    &&& g.nodes@[x1 as int]->Some_0.shape@.len() == 3
    &&& out_edge_ids(g.edges@, x1).len() == 1
    &&& g.nodes@[m as int]->Some_0.op is Mul
    &&& g.nodes@[m as int]->Some_0.shape@.len() == 3
    &&& other_in_ids(g.edges@, m, x1).len() == 1
    &&& g.nodes@[x2 as int]->Some_0.op is Expand
    &&& g.nodes@[x2 as int]->Some_0.shape@.len() == 3
    &&& out_edge_ids(g.edges@, m).len() == 1
    &&& g.nodes@[s as int]->Some_0.op is SumReduce
    &&& g.nodes@[s as int]->Some_0.shape@.len() == 2
    &&& id != x1 && id != x2 && id != m && id != s && x1 != x2 && x1 != m && x1 != s && x2 != m
        && x2 != s && m != s
    &&& !g.no_delete@.contains(id) && !g.no_delete@.contains(x1) && !g.no_delete@.contains(x2)
        && !g.no_delete@.contains(m) && !g.no_delete@.contains(s)
    &&& !g.to_retrieve@.contains(id) && !g.to_retrieve@.contains(x1) && !g.to_retrieve@.contains(
        x2,
    ) && !g.to_retrieve@.contains(m)
    &&& forall|k: int|
        0 <= k < g.id_remap@.len() ==> (#[trigger] g.id_remap@[k]).1 != id && g.id_remap@[k].1
            != x1 && g.id_remap@[k].1 != x2 && g.id_remap@[k].1 != m
    &&& in_edge_ids(g.edges@, x2).len() >= 1
    &&& in_edge_ids(g.edges@, id).len() >= 1
    &&& ea.view.rank() >= 1
    &&& eb.view.rank() >= 2
    &&& ea.src != id && ea.src != x1 && ea.src != x2 && ea.src != m && ea.src != s
    &&& eb.src != id && eb.src != x1 && eb.src != x2 && eb.src != m && eb.src != s
}

/// What one splice leaves behind: a fresh `MatMul2D` node over the two
/// operand views, declared with shape `[rows of A, cols of B]`; the five
/// matched nodes gone and every other node untouched; retrieve and remap
/// entries that pointed at the reduce node now point at the fused node,
/// with the move recorded; the edges are the old ones plus the two operand
/// edges and the reduce node's outgoing edges re-sourced to the fused node,
/// with everything incident to the five removed.
pub open spec fn mm_step_post(pre: Graph, post: Graph, id: usize) -> bool {
    let x1 = fuse_target(pre, id);
    let m = fuse_target(pre, x1);
    let x2 = mm_other_src(pre, m, x1);
    let s = fuse_target(pre, m);
    let ea = mm_last_in(pre, x2);
    let eb = mm_last_in(pre, id);
    let fused = pre.nodes@.len() as usize;
    &&& post.nodes@.len() == pre.nodes@.len() + 1
    &&& post.nodes@[fused as int] is Some
    &&& post.nodes@[fused as int]->Some_0.op is MatMul2D
    &&& post.nodes@[fused as int]->Some_0.shape@ == seq![
        ea.view.spec_shape()[0],
        eb.view.spec_shape()[1],
    ]
    &&& post.nodes@[id as int] is None
    &&& post.nodes@[x1 as int] is None
    &&& post.nodes@[x2 as int] is None
    &&& post.nodes@[m as int] is None
    &&& post.nodes@[s as int] is None
    &&& forall|k: int|
        0 <= k < pre.nodes@.len() && k != id && k != x1 && k != x2 && k != m && k != s
            ==> post.nodes@[k] == pre.nodes@[k]
    &&& post.no_delete@ == pre.no_delete@
    &&& post.to_retrieve@.len() == pre.to_retrieve@.len()
    &&& forall|k: int|
        0 <= k < pre.to_retrieve@.len() ==> post.to_retrieve@[k] == (if pre.to_retrieve@[k] == s {
            fused
        } else {
            pre.to_retrieve@[k]
        })
    &&& post.id_remap@.len() == pre.id_remap@.len() + 1
    &&& forall|k: int|
        0 <= k < pre.id_remap@.len() ==> post.id_remap@[k] == (if (#[trigger] pre.id_remap@[k]).1
            == s {
            (pre.id_remap@[k].0, fused)
        } else {
            pre.id_remap@[k]
        })
    &&& post.id_remap@[pre.id_remap@.len() as int] == (s, fused)
    &&& edges_sim(
        post.edges@,
        remove_incident(
            remove_incident(
                remove_incident(
                    remove_incident(
                        remove_incident(
                            pre.edges@ + seq![
                                Edge { src: ea.src, dst: fused, input_order: 0, view: ea.view },
                                Edge { src: eb.src, dst: fused, input_order: 1, view: eb.view },
                            ] + resourced_out(pre.edges@, s, fused),
                            x1,
                        ),
                        x2,
                    ),
                    id,
                ),
                m,
            ),
            s,
        ),
    )
}

/// Detects the decomposed elementwise-multiply-and-reduce pattern that
/// expresses a 2D matrix product and replaces its five nodes with one fused
/// matrix-multiply node, re-attaching consumers and migrating references.
#[derive(Debug, Default)]
pub struct MatMulOptimizer;

impl MatMulOptimizer {
    /// One splice attempt at `id`: rewrites the matched pattern exactly
    /// when `matmul_site` holds, with the effect `mm_step_post` describes;
    /// otherwise the graph is left untouched.
    pub fn try_matmul_step(graph: &mut Graph, id: usize) -> (merged: bool)
        requires
            old(graph).wf(),
        ensures
            pass_contract(*old(graph), *final(graph)),
            merged == matmul_site(*old(graph), id),
            !merged ==> *final(graph) == *old(graph),
            merged ==> mm_step_post(*old(graph), *final(graph), id),
    {
        let ec = graph.edges.len();
        proof {
            assert(graph.edges@.len() == ec);
        }
        if !graph.is_live(id) {
            return false;
        }
        let ok = {
            let n = graph.get_op(id);
            matches!(n.op, Op::Permute) && n.shape.len() == 2
        };
        if !ok {
            return false;
        }
        let out1 = graph.out_edges(id);
        if out1.len() != 1 {
            return false;
        }
        proof {
            lemma_out_edge_ids_valid(graph.edges@, id, 0);
        }
        let expand_1 = graph.get_edge(out1[0]).dst;
        proof {
            assert(expand_1 == fuse_target(*graph, id));
        }
        let ok = {
            let n = graph.get_op(expand_1);
            matches!(n.op, Op::Expand) && n.shape.len() == 3
        };
        if !ok {
            return false;
        }
        let out2 = graph.out_edges(expand_1);
        if out2.len() != 1 {
            return false;
        }
        proof {
            lemma_out_edge_ids_valid(graph.edges@, expand_1, 0);
        }
        let mul = graph.get_edge(out2[0]).dst;
        proof {
            assert(mul == fuse_target(*graph, expand_1));
        }
        let ok = {
            let n = graph.get_op(mul);
            matches!(n.op, Op::Mul) && n.shape.len() == 3
        };
        if !ok {
            return false;
        }
        let mut other: Vec<usize> = Vec::new();
        let mut q: usize = 0;
        let n_edges = graph.edges.len();
        while q < n_edges
            invariant
                graph.wf(),
                n_edges == graph.edges@.len(),
                q <= n_edges,
                other@ == other_in_ids(graph.edges@.take(q as int), mul, expand_1),
            decreases n_edges - q,
        {
            proof {
                assert(graph.edges@.take(q + 1).drop_last() =~= graph.edges@.take(q as int));
                assert(graph.edges@.take(q + 1).last() == graph.edges@[q as int]);
            }
            if graph.get_edge(q).dst == mul && graph.get_edge(q).src != expand_1 {
                other.push(q);
                proof {
                    assert(other@ =~= other_in_ids(graph.edges@.take(q + 1), mul, expand_1));
                }
            } else {
                proof {
                    assert(other@ =~= other_in_ids(graph.edges@.take(q + 1), mul, expand_1));
                }
            }
            q = q + 1;
        }
        proof {
            assert(graph.edges@.take(graph.edges@.len() as int) =~= graph.edges@);
        }
        if other.len() != 1 {
            return false;
        }
        proof {
            lemma_other_in_ids_valid(graph.edges@, mul, expand_1, 0);
        }
        let expand_2 = graph.get_edge(other[0]).src;
        proof {
            assert(expand_2 == mm_other_src(*graph, mul, expand_1));
        }
        let ok = {
            let n = graph.get_op(expand_2);
            matches!(n.op, Op::Expand) && n.shape.len() == 3
        };
        if !ok {
            return false;
        }
        let out3 = graph.out_edges(mul);
        if out3.len() != 1 {
            return false;
        }
        proof {
            lemma_out_edge_ids_valid(graph.edges@, mul, 0);
        }
        let sum_reduce = graph.get_edge(out3[0]).dst;
        proof {
            assert(sum_reduce == fuse_target(*graph, mul));
        }
        let ok = {
            let n = graph.get_op(sum_reduce);
            matches!(n.op, Op::SumReduce(_)) && n.shape.len() == 2
        };
        if !ok {
            return false;
        }
        if id == expand_1 || id == expand_2 || id == mul || id == sum_reduce || expand_1
            == expand_2 || expand_1 == mul || expand_1 == sum_reduce || expand_2 == mul
            || expand_2 == sum_reduce || mul == sum_reduce {
            return false;
        }
        if contains_id(&graph.no_delete, id) || contains_id(&graph.no_delete, expand_1)
            || contains_id(&graph.no_delete, expand_2) || contains_id(&graph.no_delete, mul)
            || contains_id(&graph.no_delete, sum_reduce) {
            return false;
        }
        if contains_id(&graph.to_retrieve, id) || contains_id(&graph.to_retrieve, expand_1)
            || contains_id(&graph.to_retrieve, expand_2) || contains_id(&graph.to_retrieve, mul) {
            return false;
        }
        if graph.remap_has_value(id) || graph.remap_has_value(expand_1) || graph.remap_has_value(
            expand_2,
        ) || graph.remap_has_value(mul) {
            return false;
        }
        let in_a = graph.in_edges(expand_2);
        if in_a.len() == 0 {
            return false;
        }
        proof {
            lemma_in_edge_ids_valid(graph.edges@, expand_2, in_a@.len() - 1);
        }
        let ea = in_a[in_a.len() - 1];
        let input_0 = graph.get_edge(ea).src;
        let a_view = graph.get_edge(ea).view.clone();
        let in_b = graph.in_edges(id);
        if in_b.len() == 0 {
            return false;
        }
        proof {
            lemma_in_edge_ids_valid(graph.edges@, id, in_b@.len() - 1);
        }
        let eb = in_b[in_b.len() - 1];
        let input_1 = graph.get_edge(eb).src;
        let b_view = graph.get_edge(eb).view.clone();
        proof {
            assert(graph.edges@[ea as int] == mm_last_in(*graph, expand_2));
            assert(graph.edges@[eb as int] == mm_last_in(*graph, id));
            assert(a_view.wf());
            assert(b_view.wf());
            assert(graph.live(input_0 as int));
            assert(graph.live(input_1 as int));
        }
        let a_dims = a_view.shape();
        let b_dims = b_view.shape();
        if a_dims.len() < 1 || b_dims.len() < 2 {
            return false;
        }
        if input_0 == id || input_0 == expand_1 || input_0 == expand_2 || input_0 == mul
            || input_0 == sum_reduce || input_1 == id || input_1 == expand_1 || input_1
            == expand_2 || input_1 == mul || input_1 == sum_reduce {
            return false;
        }
        proof {
            assert(matmul_site(*old(graph), id));
        }
        let mut new_shape: Vec<Dim> = Vec::new();
        new_shape.push(a_dims[0]);
        new_shape.push(b_dims[1]);
        proof {
            assert(new_shape@ =~= seq![
                mm_last_in(*old(graph), expand_2).view.spec_shape()[0],
                mm_last_in(*old(graph), id).view.spec_shape()[1],
            ]);
        }
        let ghost pre_len = graph.nodes@.len();
        let new_op = graph.add_op(Op::MatMul2D, new_shape);
        graph.add_input(new_op, input_0, 0, a_view);
        graph.add_input(new_op, input_1, 1, b_view);
        let ec2 = graph.edges.len();
        proof {
            assert(graph.edges@.len() == ec2);
        }
        let ghost spec_mid = old(graph).edges@ + seq![
            Edge {
                src: mm_last_in(*old(graph), expand_2).src,
                dst: new_op,
                input_order: 0,
                view: mm_last_in(*old(graph), expand_2).view,
            },
            Edge {
                src: mm_last_in(*old(graph), id).src,
                dst: new_op,
                input_order: 1,
                view: mm_last_in(*old(graph), id).view,
            },
        ] + resourced_out(old(graph).edges@, sum_reduce, new_op);
        let ghost pre_edges = graph.edges@;
        let ghost nd_snap = graph.no_delete@;
        let ghost tr_snap = graph.to_retrieve@;
        let ghost rm_snap = graph.id_remap@;
        let ghost nodes_snap = graph.nodes@;
        proof {
            assert(pre_edges.len() == old(graph).edges@.len() + 2);
            assert(pre_edges.last().src != sum_reduce);
            assert(out_edge_ids(pre_edges, sum_reduce) =~= out_edge_ids(
                pre_edges.drop_last(),
                sum_reduce,
            ));
            assert(pre_edges.drop_last().last().src != sum_reduce);
            assert(out_edge_ids(pre_edges.drop_last(), sum_reduce) =~= out_edge_ids(
                pre_edges.drop_last().drop_last(),
                sum_reduce,
            ));
            assert(pre_edges.drop_last().drop_last() =~= old(graph).edges@);
            assert(out_edge_ids(pre_edges, sum_reduce) == out_edge_ids(
                old(graph).edges@,
                sum_reduce,
            ));
        }
        let souts = graph.out_edges(sum_reduce);
        let mut q: usize = 0;
        while q < souts.len()
            invariant
                graph.wf(),
                souts@ == out_edge_ids(pre_edges, sum_reduce),
                out_edge_ids(pre_edges, sum_reduce) == out_edge_ids(
                    old(graph).edges@,
                    sum_reduce,
                ),
                pre_edges.len() <= usize::MAX,
                old(graph).edges@.len() + 2 == pre_edges.len(),
                forall|i: int| 0 <= i < old(graph).edges@.len() ==> pre_edges[i] == old(
                    graph,
                ).edges@[i],
                graph.edges@.len() == pre_edges.len() + q,
                forall|i: int| 0 <= i < pre_edges.len() ==> graph.edges@[i] == pre_edges[i],
                forall|k: int|
                    0 <= k < q ==> edge_sim(
                        #[trigger] graph.edges@[pre_edges.len() + k],
                        resourced_out(old(graph).edges@, sum_reduce, new_op)[k],
                    ),
                graph.nodes@ == nodes_snap,
                graph.no_delete@ == nd_snap,
                graph.to_retrieve@ == tr_snap,
                graph.id_remap@ == rm_snap,
                graph.live(new_op as int),
                q <= souts@.len(),
            decreases souts@.len() - q,
        {
            proof {
                lemma_out_edge_ids_valid(pre_edges, sum_reduce, q as int);
                lemma_out_edge_ids_valid(old(graph).edges@, sum_reduce, q as int);
            }
            let e = souts[q];
            let dst = graph.get_edge(e).dst;
            let order = graph.get_edge(e).input_order;
            let view = graph.get_edge(e).view.clone();
            graph.add_input(dst, new_op, order, view);
            q = q + 1;
        }
        proof {
            assert(edges_sim(graph.edges@, spec_mid)) by {
                assert(graph.edges@.len() == spec_mid.len());
                assert forall|i: int|
                    0 <= i < graph.edges@.len() implies edge_sim(
                    #[trigger] graph.edges@[i],
                    spec_mid[i],
                ) by {
                    if i < old(graph).edges@.len() {
                        assert(graph.edges@[i] == pre_edges[i]);
                        assert(pre_edges[i] == old(graph).edges@[i]);
                        assert(spec_mid[i] == old(graph).edges@[i]);
                    } else if i < pre_edges.len() {
                        assert(graph.edges@[i] == pre_edges[i]);
                    } else {
                        let k = i - pre_edges.len();
                        assert(edge_sim(
                            graph.edges@[pre_edges.len() + k],
                            resourced_out(old(graph).edges@, sum_reduce, new_op)[k],
                        ));
                        assert(i == pre_edges.len() + k);
                    }
                }
            }
        }
        let ghost mid_actual = graph.edges@;
        graph.move_references(sum_reduce, new_op);
        proof {
            assert forall|k: int| 0 <= k < nd_snap.len() implies graph.no_delete@[k]
                == nd_snap[k] by {
                assert(nd_snap[k] != sum_reduce);
            }
            assert(graph.no_delete@ =~= nd_snap);
            assert(new_op >= pre_len);
            assert(id < pre_len && expand_1 < pre_len && expand_2 < pre_len && mul < pre_len
                && sum_reduce < pre_len);
            assert forall|k: int|
                0 <= k < graph.to_retrieve@.len() implies graph.to_retrieve@[k] != id
                && graph.to_retrieve@[k] != expand_1 && graph.to_retrieve@[k] != expand_2
                && graph.to_retrieve@[k] != mul && graph.to_retrieve@[k] != sum_reduce by {
                assert(graph.to_retrieve@[k] == (if tr_snap[k] == sum_reduce {
                    new_op
                } else {
                    tr_snap[k]
                }));
            }
            assert(!graph.to_retrieve@.contains(id) && !graph.to_retrieve@.contains(expand_1)
                && !graph.to_retrieve@.contains(expand_2) && !graph.to_retrieve@.contains(mul)
                && !graph.to_retrieve@.contains(sum_reduce));
            assert forall|k: int|
                0 <= k < graph.id_remap@.len() implies (#[trigger] graph.id_remap@[k]).1 != id
                && graph.id_remap@[k].1 != expand_1 && graph.id_remap@[k].1 != expand_2
                && graph.id_remap@[k].1 != mul && graph.id_remap@[k].1 != sum_reduce by {
                if k < rm_snap.len() {
                    assert(graph.id_remap@[k] == (if rm_snap[k].1 == sum_reduce {
                        (rm_snap[k].0, new_op)
                    } else {
                        rm_snap[k]
                    }));
                }
            }
        }
        let ghost spec1 = remove_incident(spec_mid, expand_1);
        let ghost spec2 = remove_incident(spec1, expand_2);
        let ghost spec3 = remove_incident(spec2, id);
        let ghost spec4 = remove_incident(spec3, mul);
        let ghost spec5 = remove_incident(spec4, sum_reduce);
        let ghost act0 = graph.edges@;
        graph.remove_node(expand_1);
        let ghost act1 = graph.edges@;
        graph.remove_node(expand_2);
        let ghost act2 = graph.edges@;
        graph.remove_node(id);
        let ghost act3 = graph.edges@;
        graph.remove_node(mul);
        let ghost act4 = graph.edges@;
        graph.remove_node(sum_reduce);
        proof {
            assert(act0 == mid_actual);
            lemma_remove_incident_sim(mid_actual, spec_mid, expand_1);
            lemma_remove_incident_sim(act1, spec1, expand_2);
            lemma_remove_incident_sim(act2, spec2, id);
            lemma_remove_incident_sim(act3, spec3, mul);
            lemma_remove_incident_sim(act4, spec4, sum_reduce);
            assert(edges_sim(graph.edges@, spec5));
            assert forall|k: int|
                0 <= k < old(graph).no_delete@.len() implies graph.nodes@[(
            #[trigger] old(graph).no_delete@[k]) as int] == old(graph).nodes@[old(
                graph,
            ).no_delete@[k] as int] by {
                let x = old(graph).no_delete@[k];
                assert(x != id && x != expand_1 && x != expand_2 && x != mul && x != sum_reduce);
            }
            assert(graph.nodes@.len() == old(graph).nodes@.len() + 1);
            assert(graph.nodes@[new_op as int] is Some);
            assert(graph.nodes@[new_op as int]->Some_0.op is MatMul2D);
            assert(graph.nodes@[id as int] is None && graph.nodes@[expand_1 as int] is None
                && graph.nodes@[expand_2 as int] is None && graph.nodes@[mul as int] is None
                && graph.nodes@[sum_reduce as int] is None);
            assert(graph.to_retrieve@.len() == old(graph).to_retrieve@.len());
            assert(graph.id_remap@.len() == old(graph).id_remap@.len() + 1);
            assert(graph.id_remap@[old(graph).id_remap@.len() as int] == (sum_reduce, new_op));
            assert(mm_step_post(*old(graph), *graph, id));
        }
        true
    }

    /// Starting from each node of a snapshot, splice in a fused multiply
    /// wherever the matched pattern sits. A graph holding no matchable
    /// pattern is returned exactly as it came.
    pub fn optimize(&self, graph: &mut Graph)
        requires
            old(graph).wf(),
        ensures
            pass_contract(*old(graph), *final(graph)),
            (forall|id: usize| !matmul_site(*old(graph), id)) ==> *final(graph) == *old(graph),
    {
        let ids = graph.node_indices();
        let mut t: usize = 0;
        while t < ids.len()
            invariant
                pass_contract(*old(graph), *graph),
                (forall|id2: usize| !matmul_site(*old(graph), id2)) ==> *graph == *old(graph),
                t <= ids@.len(),
            decreases ids@.len() - t,
        {
            let id = ids[t];
            t = t + 1;
            let ghost mid = *graph;
            let merged = Self::try_matmul_step(graph, id);
            proof {
                lemma_pass_contract_trans(*old(graph), mid, *graph);
                if forall|id2: usize| !matmul_site(*old(graph), id2) {
                    assert(mid == *old(graph));
                    assert(!matmul_site(*old(graph), id));
                    assert(!merged);
                }
            }
        }
    }
}

} // verus!
