//! The tensor handle used while building a graph: a node id together with
//! the shape tracker describing that node's output, and the reduction
//! operations that lower to chains of reduce nodes.

use vstd::prelude::*;

use crate::graph::Graph;
use crate::ops::Op;
use crate::shape::lemma_increasing_gap;
use crate::shape::lemma_remove_axes_first;
use crate::shape::lemma_remove_dim_shape;
use crate::shape::remove_axes;
use crate::shape::Dim;
use crate::shape::ShapeTracker;

verus! {

/// A handle to one graph node's output and the view of it.
#[derive(Debug)]
pub struct GraphTensor {
    pub id: usize,
    pub shape: ShapeTracker,
}

/// The axes of a reduction: each under the tracker's rank, listed strictly
/// ascending.
pub open spec fn axes_ok_for(axes: Seq<usize>, rank: nat) -> bool {
    &&& forall|i: int| 0 <= i < axes.len() ==> axes[i] < rank
    &&& forall|i: int, j: int| 0 <= i < j < axes.len() ==> axes[i] < axes[j]
}

/// The five nodes one mean-reduction step appends at base `b`: a constant
/// one, its sum over the axis extent, the sum over the reduced axis, the
/// reciprocal, and the broadcast multiply.
pub open spec fn mean_axis_nodes(nodes: Seq<Option<crate::graph::Node>>, b: int, dim: usize) -> bool {
    &&& nodes[b] is Some && nodes[b]->Some_0.op == Op::Constant(1)
    &&& nodes[b + 1] is Some && nodes[b + 1]->Some_0.op == Op::SumReduce(0)
    &&& nodes[b + 2] is Some && nodes[b + 2]->Some_0.op == Op::SumReduce(dim)
    &&& nodes[b + 3] is Some && nodes[b + 3]->Some_0.op == Op::Recip
    &&& nodes[b + 4] is Some && nodes[b + 4]->Some_0.op == Op::Mul
}

/// The five edges one mean-reduction step appends at base `e`, with node
/// base `b` and the previous chain node `prev`: ones into the extent sum,
/// the chain into the axis sum, the extent sum into the reciprocal, and
/// the axis sum and reciprocal into the multiply as inputs 0 and 1.
pub open spec fn mean_axis_edges(edges: Seq<crate::graph::Edge>, e: int, b: int, prev: int) -> bool {
    &&& edges[e].src == b && edges[e].dst == b + 1
    &&& edges[e + 1].src == prev && edges[e + 1].dst == b + 2 && edges[e + 1].input_order == 0
    &&& edges[e + 2].src == b + 1 && edges[e + 2].dst == b + 3
    &&& edges[e + 3].src == b + 2 && edges[e + 3].dst == b + 4 && edges[e + 3].input_order == 0
    &&& edges[e + 4].src == b + 3 && edges[e + 4].dst == b + 4 && edges[e + 4].input_order == 1
}

/// The `j`-th five-edge group of a mean reduction, with edge base `e0`,
/// node base `n0` and first chain source `first`.
pub open spec fn mean_axis_edges_at(
    edges: Seq<crate::graph::Edge>,
    e0: int,
    n0: int,
    first: int,
    j: int,
) -> bool {
    mean_axis_edges(
        edges,
        e0 + 5 * j,
        n0 + 5 * j,
        if j == 0 {
            first
        } else {
            n0 + 5 * j - 1
        },
    )
}

impl GraphTensor {
    pub fn from_id(id: usize, shape: ShapeTracker) -> (r: Self)
        ensures
            r.id == id,
            r.shape == shape,
    {
        GraphTensor { id, shape }
    }

    /// Append one reduce node per listed axis, last axis first, each
    /// reading the previous node through the shape as it then stands; the
    /// tracker loses the reduced axes.
    fn chain_reduce(self, graph: &mut Graph, axes: &[usize], use_max: bool) -> (r: GraphTensor)
        requires
            old(graph).wf(),
            old(graph).live(self.id as int),
            self.shape.wf(),
            axes_ok_for(axes@, self.shape.rank()),
        ensures
            final(graph).wf(),
            final(graph).nodes@.len() == old(graph).nodes@.len() + axes@.len(),
            forall|i: int|
                0 <= i < old(graph).nodes@.len() ==> final(graph).nodes@[i] == old(
                    graph,
                ).nodes@[i],
            final(graph).edges@.len() == old(graph).edges@.len() + axes@.len(),
            forall|i: int|
                0 <= i < old(graph).edges@.len() ==> final(graph).edges@[i] == old(
                    graph,
                ).edges@[i],
            final(graph).no_delete@ == old(graph).no_delete@,
            final(graph).to_retrieve@ == old(graph).to_retrieve@,
            final(graph).id_remap@ == old(graph).id_remap@,
            r.shape.wf(),
            r.shape.spec_shape() == remove_axes(self.shape.spec_shape(), axes@),
            final(graph).live(r.id as int),
            axes@.len() == 0 ==> r.id == self.id && r.shape.spec_shape()
                == self.shape.spec_shape(),
            axes@.len() > 0 ==> r.id == final(graph).nodes@.len() - 1,
            forall|j: int| #![trigger final(graph).nodes@[old(graph).nodes@.len() + j]]
                0 <= j < axes@.len() ==> (final(graph).nodes@[old(graph).nodes@.len() + j]
                    matches Some(n) && n.op == (if use_max {
                    Op::MaxReduce(axes@[axes@.len() - 1 - j])
                } else {
                    Op::SumReduce(axes@[axes@.len() - 1 - j])
                })),
            forall|j: int|
                0 <= j < axes@.len() ==> (#[trigger] final(graph).edges@[old(
                    graph,
                ).edges@.len() + j]).dst == old(graph).nodes@.len() + j && final(graph).edges@[old(
                    graph,
                ).edges@.len() + j].src == (if j == 0 {
                    self.id as int
                } else {
                    old(graph).nodes@.len() + j - 1
                }) && final(graph).edges@[old(graph).edges@.len() + j].input_order == 0 && final(graph).edges@[old(graph).edges@.len() + j].view.spec_shape() == remove_axes(
                    self.shape.spec_shape(),
                    axes@.skip(axes@.len() - j),
                ),
    {
        let ghost orig_shape = self.shape.spec_shape();
        let ghost orig_rank = self.shape.rank();
        let ghost n0 = graph.nodes@.len();
        let ghost e0 = graph.edges@.len();
        proof {
            if axes@.len() > 0 {
                lemma_increasing_gap(axes@, 0, axes@.len() - 1);
            }
        }
        let mut shape = self.shape;
        let mut new_id = self.id;
        let mut d: usize = axes.len();
        while d > 0
            invariant
                graph.wf(),
                shape.wf(),
                axes_ok_for(axes@, orig_rank),
                d <= axes@.len(),
                axes@.len() <= orig_rank,
                shape.rank() == orig_rank - (axes@.len() - d),
                shape.spec_shape() == remove_axes(orig_shape, axes@.skip(d as int)),
                orig_shape.len() == orig_rank,
                n0 == old(graph).nodes@.len(),
                e0 == old(graph).edges@.len(),
                graph.nodes@.len() == n0 + (axes@.len() - d),
                forall|i: int| 0 <= i < n0 ==> graph.nodes@[i] == old(graph).nodes@[i],
                graph.edges@.len() == e0 + (axes@.len() - d),
                forall|i: int| 0 <= i < e0 ==> graph.edges@[i] == old(graph).edges@[i],
                graph.no_delete@ == old(graph).no_delete@,
                graph.to_retrieve@ == old(graph).to_retrieve@,
                graph.id_remap@ == old(graph).id_remap@,
                graph.live(new_id as int),
                d == axes@.len() ==> new_id == self.id,
                d < axes@.len() ==> new_id == n0 + (axes@.len() - d) - 1,
                old(graph).live(self.id as int),
                forall|j: int| #![trigger graph.nodes@[n0 + j]]
                    0 <= j < axes@.len() - d ==> (graph.nodes@[n0 + j] matches Some(n) && n.op
                        == (if use_max {
                        Op::MaxReduce(axes@[axes@.len() - 1 - j])
                    } else {
                        Op::SumReduce(axes@[axes@.len() - 1 - j])
                    })),
                forall|j: int|
                    0 <= j < axes@.len() - d ==> (#[trigger] graph.edges@[e0 + j]).dst == n0 + j
                        && graph.edges@[e0 + j].src == (if j == 0 {
                        self.id as int
                    } else {
                        n0 + j - 1
                    }) && graph.edges@[e0 + j].input_order == 0 && graph.edges@[
                        e0 + j
                    ].view.spec_shape() == remove_axes(orig_shape, axes@.skip(axes@.len() - j)),
            decreases d,
        {
            d = d - 1;
            let dim = axes[d];
            proof {
                if d + 1 < axes@.len() {
                    lemma_increasing_gap(axes@, d as int, axes@.len() - 1);
                }
                assert(dim < shape.rank());
            }
            let view = shape.clone();
            let ghost pre = shape;
            proof {
                assert(view.spec_shape() =~= pre.spec_shape());
            }
            shape.remove_dim(dim);
            proof {
                lemma_remove_dim_shape(pre, shape, dim);
                lemma_remove_axes_first(orig_shape, axes@.skip(d as int));
                assert(axes@.skip(d as int).drop_first() =~= axes@.skip(d + 1));
                assert(axes@.skip(d as int).first() == axes@[d as int]);
            }
            let declared = shape.shape();
            let op = if use_max {
                Op::MaxReduce(dim)
            } else {
                Op::SumReduce(dim)
            };
            let nid = graph.add_op(op, declared);
            proof {
                assert(view.wf());
            }
            graph.add_input(nid, new_id, 0, view);
            new_id = nid;
        }
        proof {
            assert(axes@.skip(0) =~= axes@);
        }
        GraphTensor { id: new_id, shape }
    }

    /// Sum-reduce over the listed logical axes (ascending): one `SumReduce`
    /// node per axis, applied from the last axis to the first.
    pub fn sum_reduce(self, graph: &mut Graph, axes: &[usize]) -> (r: GraphTensor)
        requires
            old(graph).wf(),
            old(graph).live(self.id as int),
            self.shape.wf(),
            axes_ok_for(axes@, self.shape.rank()),
        ensures
            final(graph).wf(),
            final(graph).nodes@.len() == old(graph).nodes@.len() + axes@.len(),
            forall|i: int|
                0 <= i < old(graph).nodes@.len() ==> final(graph).nodes@[i] == old(
                    graph,
                ).nodes@[i],
            final(graph).edges@.len() == old(graph).edges@.len() + axes@.len(),
            forall|i: int|
                0 <= i < old(graph).edges@.len() ==> final(graph).edges@[i] == old(
                    graph,
                ).edges@[i],
            final(graph).no_delete@ == old(graph).no_delete@,
            final(graph).to_retrieve@ == old(graph).to_retrieve@,
            final(graph).id_remap@ == old(graph).id_remap@,
            r.shape.wf(),
            r.shape.spec_shape() == remove_axes(self.shape.spec_shape(), axes@),
            final(graph).live(r.id as int),
            axes@.len() == 0 ==> r.id == self.id,
            axes@.len() > 0 ==> r.id == final(graph).nodes@.len() - 1,
            forall|j: int| #![trigger final(graph).nodes@[old(graph).nodes@.len() + j]]
                0 <= j < axes@.len() ==> (final(graph).nodes@[old(graph).nodes@.len() + j]
                    matches Some(n) && n.op == Op::SumReduce(axes@[axes@.len() - 1 - j])),
            forall|j: int|
                0 <= j < axes@.len() ==> (#[trigger] final(graph).edges@[old(
                    graph,
                ).edges@.len() + j]).dst == old(graph).nodes@.len() + j && final(graph).edges@[old(
                    graph,
                ).edges@.len() + j].src == (if j == 0 {
                    self.id as int
                } else {
                    old(graph).nodes@.len() + j - 1
                }) && final(graph).edges@[old(graph).edges@.len() + j].input_order == 0 && final(graph).edges@[old(graph).edges@.len() + j].view.spec_shape() == remove_axes(
                    self.shape.spec_shape(),
                    axes@.skip(axes@.len() - j),
                ),
    {
        self.chain_reduce(graph, axes, false)
    }

    /// Max-reduce over the listed logical axes (ascending): one `MaxReduce`
    /// node per axis, applied from the last axis to the first.
    pub fn max_reduce(self, graph: &mut Graph, axes: &[usize]) -> (r: GraphTensor)
        requires
            old(graph).wf(),
            old(graph).live(self.id as int),
            self.shape.wf(),
            axes_ok_for(axes@, self.shape.rank()),
        ensures
            final(graph).wf(),
            final(graph).nodes@.len() == old(graph).nodes@.len() + axes@.len(),
            forall|i: int|
                0 <= i < old(graph).nodes@.len() ==> final(graph).nodes@[i] == old(
                    graph,
                ).nodes@[i],
            final(graph).edges@.len() == old(graph).edges@.len() + axes@.len(),
            forall|i: int|
                0 <= i < old(graph).edges@.len() ==> final(graph).edges@[i] == old(
                    graph,
                ).edges@[i],
            final(graph).no_delete@ == old(graph).no_delete@,
            final(graph).to_retrieve@ == old(graph).to_retrieve@,
            final(graph).id_remap@ == old(graph).id_remap@,
            r.shape.wf(),
            r.shape.spec_shape() == remove_axes(self.shape.spec_shape(), axes@),
            final(graph).live(r.id as int),
            axes@.len() == 0 ==> r.id == self.id,
            axes@.len() > 0 ==> r.id == final(graph).nodes@.len() - 1,
            forall|j: int| #![trigger final(graph).nodes@[old(graph).nodes@.len() + j]]
                0 <= j < axes@.len() ==> (final(graph).nodes@[old(graph).nodes@.len() + j]
                    matches Some(n) && n.op == Op::MaxReduce(axes@[axes@.len() - 1 - j])),
            forall|j: int|
                0 <= j < axes@.len() ==> (#[trigger] final(graph).edges@[old(
                    graph,
                ).edges@.len() + j]).dst == old(graph).nodes@.len() + j && final(graph).edges@[old(
                    graph,
                ).edges@.len() + j].src == (if j == 0 {
                    self.id as int
                } else {
                    old(graph).nodes@.len() + j - 1
                }) && final(graph).edges@[old(graph).edges@.len() + j].input_order == 0 && final(graph).edges@[old(graph).edges@.len() + j].view.spec_shape() == remove_axes(
                    self.shape.spec_shape(),
                    axes@.skip(axes@.len() - j),
                ),
    {
        self.chain_reduce(graph, axes, true)
    }

    /// Mean-reduce over the listed logical axes (ascending): per axis, sum
    /// over the axis and multiply by the reciprocal of a ones-tensor summed
    /// over the same extent, broadcast back across the reduced shape. Five
    /// nodes are appended per axis; the final one is the multiply.
    pub fn mean_reduce(self, graph: &mut Graph, axes: &[usize]) -> (r: GraphTensor)
        requires
            old(graph).wf(),
            old(graph).live(self.id as int),
            self.shape.wf(),
            axes_ok_for(axes@, self.shape.rank()),
        ensures
            final(graph).wf(),
            final(graph).nodes@.len() == old(graph).nodes@.len() + 5 * axes@.len(),
            forall|i: int|
                0 <= i < old(graph).nodes@.len() ==> final(graph).nodes@[i] == old(
                    graph,
                ).nodes@[i],
            forall|i: int|
                0 <= i < old(graph).edges@.len() ==> final(graph).edges@[i] == old(
                    graph,
                ).edges@[i],
            final(graph).no_delete@ == old(graph).no_delete@,
            final(graph).to_retrieve@ == old(graph).to_retrieve@,
            final(graph).id_remap@ == old(graph).id_remap@,
            r.shape.wf(),
            r.shape.spec_shape() == remove_axes(self.shape.spec_shape(), axes@),
            final(graph).live(r.id as int),
            axes@.len() == 0 ==> r.id == self.id,
            axes@.len() > 0 ==> r.id == final(graph).nodes@.len() - 1 && (final(graph).nodes@[
                r.id as int
            ] matches Some(n) && n.op == Op::Mul),
            final(graph).edges@.len() == old(graph).edges@.len() + 5 * axes@.len(),
            forall|j: int| #![trigger axes@[axes@.len() - 1 - j]]
                0 <= j < axes@.len() ==> mean_axis_nodes(
                    final(graph).nodes@,
                    old(graph).nodes@.len() + 5 * j,
                    axes@[axes@.len() - 1 - j],
                ),
            forall|j: int|
                0 <= j < axes@.len() ==> #[trigger] mean_axis_edges_at(
                    final(graph).edges@,
                    old(graph).edges@.len() as int,
                    old(graph).nodes@.len() as int,
                    self.id as int,
                    j,
                ),
    {
        let ghost orig_shape = self.shape.spec_shape();
        let ghost orig_rank = self.shape.rank();
        let ghost n0 = graph.nodes@.len();
        let ghost e0 = graph.edges@.len();
        proof {
            if axes@.len() > 0 {
                lemma_increasing_gap(axes@, 0, axes@.len() - 1);
            }
        }
        let mut shape = self.shape;
        let mut node_id = self.id;
        let mut d: usize = axes.len();
        while d > 0
            invariant
                graph.wf(),
                shape.wf(),
                axes_ok_for(axes@, orig_rank),
                d <= axes@.len(),
                axes@.len() <= orig_rank,
                shape.rank() == orig_rank - (axes@.len() - d),
                shape.spec_shape() == remove_axes(orig_shape, axes@.skip(d as int)),
                orig_shape.len() == orig_rank,
                n0 == old(graph).nodes@.len(),
                e0 == old(graph).edges@.len(),
                graph.nodes@.len() == n0 + 5 * (axes@.len() - d),
                forall|i: int| 0 <= i < n0 ==> graph.nodes@[i] == old(graph).nodes@[i],
                forall|i: int| 0 <= i < e0 ==> graph.edges@[i] == old(graph).edges@[i],
                graph.edges@.len() == e0 + 5 * (axes@.len() - d),
                forall|j: int| #![trigger axes@[axes@.len() - 1 - j]]
                    0 <= j < axes@.len() - d ==> mean_axis_nodes(
                        graph.nodes@,
                        n0 + 5 * j,
                        axes@[axes@.len() - 1 - j],
                    ),
                forall|j: int|
                    0 <= j < axes@.len() - d ==> #[trigger] mean_axis_edges_at(
                        graph.edges@,
                        e0 as int,
                        n0 as int,
                        self.id as int,
                        j,
                    ),
                graph.no_delete@ == old(graph).no_delete@,
                graph.to_retrieve@ == old(graph).to_retrieve@,
                graph.id_remap@ == old(graph).id_remap@,
                graph.live(node_id as int),
                d == axes@.len() ==> node_id == self.id,
                d < axes@.len() ==> node_id == n0 + 5 * (axes@.len() - d) - 1 && (graph.nodes@[
                    node_id as int
                ] matches Some(n) && n.op == Op::Mul),
                old(graph).live(self.id as int),
            decreases d,
        {
            d = d - 1;
            let dim = axes[d];
            let ghost eprev = graph.edges@;
            let ghost prev_chain = node_id;
            proof {
                if d + 1 < axes@.len() {
                    lemma_increasing_gap(axes@, d as int, axes@.len() - 1);
                }
                assert(dim < shape.rank());
            }
            let dims_now = shape.shape();
            let mut st = ShapeTracker::new(&[]);
            proof {
                assert(crate::shape::dim_bounded(shape.spec_shape()[dim as int]));
            }
            st.expand(0, dims_now[dim]);
            let ones = graph.add_op(Op::Constant(1), Vec::new());
            let div_tensor = graph.add_op(Op::SumReduce(0), Vec::new());
            graph.add_input(div_tensor, ones, 0, st);
            let view = shape.clone();
            let ghost pre = shape;
            shape.remove_dim(dim);
            proof {
                lemma_remove_dim_shape(pre, shape, dim);
                lemma_remove_axes_first(orig_shape, axes@.skip(d as int));
                assert(axes@.skip(d as int).drop_first() =~= axes@.skip(d + 1));
                assert(axes@.skip(d as int).first() == axes@[d as int]);
            }
            let declared = shape.shape();
            let nid = graph.add_op(Op::SumReduce(dim), declared);
            proof {
                assert(view.wf());
            }
            graph.add_input(nid, node_id, 0, view);
            let mul_tensor = graph.add_op(Op::Recip, Vec::new());
            graph.add_input(mul_tensor, div_tensor, 0, ShapeTracker::new(&[]));
            let declared2 = shape.shape();
            let m = graph.add_op(Op::Mul, declared2);
            graph.add_input(m, nid, 0, shape.clone());
            let broadcast_dims = shape.shape();
            graph.add_input(m, mul_tensor, 1, ShapeTracker::fake(broadcast_dims.as_slice()));
            node_id = m;
            proof {
                let jn = axes@.len() - d - 1;
                assert(graph.edges@.len() == eprev.len() + 5);
                assert(mean_axis_edges(graph.edges@, e0 + 5 * jn, n0 + 5 * jn, prev_chain as int));
                assert forall|j: int|
                    0 <= j < axes@.len() - d implies #[trigger] mean_axis_edges_at(
                    graph.edges@,
                    e0 as int,
                    n0 as int,
                    self.id as int,
                    j,
                ) by {
                    if j < jn {
                        assert(mean_axis_edges_at(eprev, e0 as int, n0 as int, self.id as int, j));
                        assert(graph.edges@[e0 + 5 * j] == eprev[e0 + 5 * j]);
                        assert(graph.edges@[e0 + 5 * j + 1] == eprev[e0 + 5 * j + 1]);
                        assert(graph.edges@[e0 + 5 * j + 2] == eprev[e0 + 5 * j + 2]);
                        assert(graph.edges@[e0 + 5 * j + 3] == eprev[e0 + 5 * j + 3]);
                        assert(graph.edges@[e0 + 5 * j + 4] == eprev[e0 + 5 * j + 4]);
                    }
                }
            }
        }
        proof {
            assert(axes@.skip(0) =~= axes@);
        }
        GraphTensor { id: node_id, shape }
    }
}

} // verus!
