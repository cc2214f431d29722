//! The computation graph: an arena of operator nodes with stable ids, a
//! list of view-tagged edges, and the reference bookkeeping that keeps
//! external handles valid while rewrite passes splice nodes in and out.

use vstd::prelude::*;

use crate::ops::copy_vec;
use crate::ops::Op;
use crate::shape::Dim;
use crate::shape::ShapeTracker;

verus! {

/// A graph node: its operator and its declared output shape.
#[derive(Debug)]
pub struct Node {
    pub op: Op,
    pub shape: Vec<Dim>,
}

/// A directed edge: the consumer `dst` reads the producer `src`'s output
/// through `view`, as its `input_order`-th input.
#[derive(Debug)]
pub struct Edge {
    pub src: usize,
    pub dst: usize,
    pub input_order: usize,
    pub view: ShapeTracker,
}

/// The computation graph. Deleted nodes leave `None` in the arena so that
/// the ids of the remaining nodes stay stable.
#[derive(Debug)]
pub struct Graph {
    pub nodes: Vec<Option<Node>>,
    pub edges: Vec<Edge>,
    /// Ids that no rewrite pass may delete.
    pub no_delete: Vec<usize>,
    /// Ids whose output must survive to the caller.
    pub to_retrieve: Vec<usize>,
    /// Stable external handle to current internal id, updated whenever a
    /// node is spliced out.
    pub id_remap: Vec<(usize, usize)>,
}

/// Indices of the edges leaving `node`, in edge-list order.
pub open spec fn out_edge_ids(edges: Seq<Edge>, node: usize) -> Seq<usize>
    decreases edges.len(),
{
    if edges.len() == 0 {
        Seq::empty()
    } else {
        out_edge_ids(edges.drop_last(), node) + (if edges.last().src == node {
            seq![(edges.len() - 1) as usize]
        } else {
            Seq::empty()
        })
    }
}

/// Indices of the edges entering `node`, in edge-list order.
pub open spec fn in_edge_ids(edges: Seq<Edge>, node: usize) -> Seq<usize>
    decreases edges.len(),
{
    if edges.len() == 0 {
        Seq::empty()
    } else {
        in_edge_ids(edges.drop_last(), node) + (if edges.last().dst == node {
            seq![(edges.len() - 1) as usize]
        } else {
            Seq::empty()
        })
    }
}

/// The edge list with every edge touching `node` removed.
pub open spec fn remove_incident(edges: Seq<Edge>, node: usize) -> Seq<Edge>
    decreases edges.len(),
{
    if edges.len() == 0 {
        Seq::empty()
    } else {
        remove_incident(edges.drop_last(), node) + (if edges.last().src == node
            || edges.last().dst == node {
            Seq::empty()
        } else {
            seq![edges.last()]
        })
    }
}

/// Ids of the live arena slots, ascending.
pub open spec fn live_ids(nodes: Seq<Option<Node>>) -> Seq<usize>
    decreases nodes.len(),
{
    if nodes.len() == 0 {
        Seq::empty()
    } else {
        live_ids(nodes.drop_last()) + (if nodes.last() is Some {
            seq![(nodes.len() - 1) as usize]
        } else {
            Seq::empty()
        })
    }
}

/// First remapping recorded for `id`, or `id` itself.
pub open spec fn spec_remap(remap: Seq<(usize, usize)>, id: usize) -> usize
    decreases remap.len(),
{
    if remap.len() == 0 {
        id
    } else if remap[0].0 == id {
        remap[0].1
    } else {
        spec_remap(remap.drop_first(), id)
    }
}

/// Linear membership test.
pub fn contains_id(v: &Vec<usize>, id: usize) -> (r: bool)
    ensures
        r == v@.contains(id),
{
    let mut i: usize = 0;
    while i < v.len()
        invariant
            i <= v@.len(),
            forall|k: int| 0 <= k < i ==> v@[k] != id,
        decreases v@.len() - i,
    {
        if v[i] == id {
            return true;
        }
        i = i + 1;
    }
    false
}

impl Graph {
    /// `id` names a node that is present in the arena.
    pub open spec fn live(self, id: int) -> bool {
        0 <= id < self.nodes@.len() && self.nodes@[id] is Some
    }

    /// Structural consistency: every edge endpoint, every protected or
    /// retrieved id, and every remap target names a live node.
    pub open spec fn wf(self) -> bool {
        &&& forall|e: int|
            0 <= e < self.edges@.len() ==> self.live((#[trigger] self.edges@[e]).src as int)
                && self.live(self.edges@[e].dst as int)
        &&& forall|k: int|
            0 <= k < self.no_delete@.len() ==> self.live((#[trigger] self.no_delete@[k]) as int)
        &&& forall|k: int|
            0 <= k < self.to_retrieve@.len() ==> self.live(
                (#[trigger] self.to_retrieve@[k]) as int,
            )
        &&& forall|k: int|
            0 <= k < self.id_remap@.len() ==> self.live((#[trigger] self.id_remap@[k]).1 as int)
        &&& forall|e: int| 0 <= e < self.edges@.len() ==> (#[trigger] self.edges@[e]).view.wf()
    }

    /// An empty graph.
    pub fn new() -> (r: Self)
        ensures
            r.wf(),
            r.nodes@.len() == 0,
            r.edges@.len() == 0,
            r.no_delete@.len() == 0,
            r.to_retrieve@.len() == 0,
            r.id_remap@.len() == 0,
    {
        Graph {
            nodes: Vec::new(),
            edges: Vec::new(),
            no_delete: Vec::new(),
            to_retrieve: Vec::new(),
            id_remap: Vec::new(),
        }
    }

    /// Add a node with the given operator and declared output shape; its id
    /// is the next arena slot.
    pub fn add_op(&mut self, op: Op, shape: Vec<Dim>) -> (id: usize)
        requires
            old(self).wf(),
        ensures
            final(self).wf(),
            id == old(self).nodes@.len(),
            final(self).nodes@ == old(self).nodes@.push(Some(Node { op, shape })),
            final(self).edges@ == old(self).edges@,
            final(self).no_delete@ == old(self).no_delete@,
            final(self).to_retrieve@ == old(self).to_retrieve@,
            final(self).id_remap@ == old(self).id_remap@,
    {
        let id = self.nodes.len();
        self.nodes.push(Some(Node { op, shape }));
        id
    }

    /// Attach `src`'s output as an input of `node`, read through `view` in
    /// input slot `input_order`.
    pub fn add_input(&mut self, node: usize, src: usize, input_order: usize, view: ShapeTracker)
        requires
            old(self).wf(),
            old(self).live(node as int),
            old(self).live(src as int),
            view.wf(),
        ensures
            final(self).wf(),
            final(self).edges@ == old(self).edges@.push(
                Edge { src, dst: node, input_order, view },
            ),
            final(self).nodes@ == old(self).nodes@,
            final(self).no_delete@ == old(self).no_delete@,
            final(self).to_retrieve@ == old(self).to_retrieve@,
            final(self).id_remap@ == old(self).id_remap@,
    {
        self.edges.push(Edge { src, dst: node, input_order, view });
    }

    /// The node stored under a live id.
    pub fn get_op(&self, id: usize) -> (r: &Node)
        requires
            self.wf(),
            self.live(id as int),
        ensures
            *r == self.nodes@[id as int]->Some_0,
    {
        match &self.nodes[id] {
            Some(n) => n,
            None => unreached(),
        }
    }

    /// Replace the operator of a live node, keeping its declared shape.
    pub fn set_op(&mut self, id: usize, op: Op)
        requires
            old(self).wf(),
            old(self).live(id as int),
        ensures
            final(self).wf(),
            final(self).nodes@.len() == old(self).nodes@.len(),
            final(self).live(id as int),
            final(self).nodes@[id as int]->Some_0.op == op,
            final(self).nodes@[id as int]->Some_0.shape@ == old(
                self,
            ).nodes@[id as int]->Some_0.shape@,
            forall|k: int|
                0 <= k < old(self).nodes@.len() && k != id ==> final(self).nodes@[k] == old(
                    self,
                ).nodes@[k],
            final(self).edges@ == old(self).edges@,
            final(self).no_delete@ == old(self).no_delete@,
            final(self).to_retrieve@ == old(self).to_retrieve@,
            final(self).id_remap@ == old(self).id_remap@,
    {
        let shape = match &self.nodes[id] {
            Some(n) => copy_vec(&n.shape),
            None => unreached(),
        };
        self.nodes.set(id, Some(Node { op, shape }));
    }

    /// Indices of the edges leaving `node`, in edge-list order.
    pub fn out_edges(&self, node: usize) -> (r: Vec<usize>)
        ensures
            r@ == out_edge_ids(self.edges@, node),
    {
        let mut r: Vec<usize> = Vec::new();
        let mut e: usize = 0;
        while e < self.edges.len()
            invariant
                e <= self.edges@.len(),
                r@ == out_edge_ids(self.edges@.take(e as int), node),
            decreases self.edges@.len() - e,
        {
            proof {
                assert(self.edges@.take(e + 1).drop_last() =~= self.edges@.take(e as int));
                assert(self.edges@.take(e + 1).last() == self.edges@[e as int]);
            }
            if self.edges[e].src == node {
                r.push(e);
                proof {
                    assert(r@ =~= out_edge_ids(self.edges@.take(e + 1), node));
                }
            } else {
                proof {
                    assert(r@ =~= out_edge_ids(self.edges@.take(e + 1), node));
                }
            }
            e = e + 1;
        }
        proof {
            assert(self.edges@.take(self.edges@.len() as int) =~= self.edges@);
        }
        r
    }

    /// Indices of the edges entering `node`, in edge-list order.
    pub fn in_edges(&self, node: usize) -> (r: Vec<usize>)
        ensures
            r@ == in_edge_ids(self.edges@, node),
    {
        let mut r: Vec<usize> = Vec::new();
        let mut e: usize = 0;
        while e < self.edges.len()
            invariant
                e <= self.edges@.len(),
                r@ == in_edge_ids(self.edges@.take(e as int), node),
            decreases self.edges@.len() - e,
        {
            proof {
                assert(self.edges@.take(e + 1).drop_last() =~= self.edges@.take(e as int));
                assert(self.edges@.take(e + 1).last() == self.edges@[e as int]);
            }
            if self.edges[e].dst == node {
                r.push(e);
                proof {
                    assert(r@ =~= in_edge_ids(self.edges@.take(e + 1), node));
                }
            } else {
                proof {
                    assert(r@ =~= in_edge_ids(self.edges@.take(e + 1), node));
                }
            }
            e = e + 1;
        }
        proof {
            assert(self.edges@.take(self.edges@.len() as int) =~= self.edges@);
        }
        r
    }

    /// The edge stored under an edge index.
    pub fn get_edge(&self, e: usize) -> (r: &Edge)
        requires
            e < self.edges@.len(),
        ensures
            *r == self.edges@[e as int],
    {
        &self.edges[e]
    }

    /// Snapshot of the ids of all live nodes, ascending.
    pub fn node_indices(&self) -> (r: Vec<usize>)
        ensures
            r@ == live_ids(self.nodes@),
    {
        let mut r: Vec<usize> = Vec::new();
        let mut i: usize = 0;
        while i < self.nodes.len()
            invariant
                i <= self.nodes@.len(),
                r@ == live_ids(self.nodes@.take(i as int)),
            decreases self.nodes@.len() - i,
        {
            proof {
                assert(self.nodes@.take(i + 1).drop_last() =~= self.nodes@.take(i as int));
                assert(self.nodes@.take(i + 1).last() == self.nodes@[i as int]);
            }
            if self.nodes[i].is_some() {
                r.push(i);
                proof {
                    assert(r@ =~= live_ids(self.nodes@.take(i + 1)));
                }
            } else {
                proof {
                    assert(r@ =~= live_ids(self.nodes@.take(i + 1)));
                }
            }
            i = i + 1;
        }
        proof {
            assert(self.nodes@.take(self.nodes@.len() as int) =~= self.nodes@);
        }
        r
    }

    /// Protect a node from deletion by rewrite passes.
    pub fn mark_no_delete(&mut self, id: usize)
        requires
            old(self).wf(),
            old(self).live(id as int),
        ensures
            final(self).wf(),
            final(self).no_delete@ == old(self).no_delete@.push(id),
            final(self).nodes@ == old(self).nodes@,
            final(self).edges@ == old(self).edges@,
            final(self).to_retrieve@ == old(self).to_retrieve@,
            final(self).id_remap@ == old(self).id_remap@,
    {
        self.no_delete.push(id);
    }

    /// Mark a node's output as one the caller will retrieve.
    pub fn mark_retrieve(&mut self, id: usize)
        requires
            old(self).wf(),
            old(self).live(id as int),
        ensures
            final(self).wf(),
            final(self).to_retrieve@ == old(self).to_retrieve@.push(id),
            final(self).nodes@ == old(self).nodes@,
            final(self).edges@ == old(self).edges@,
            final(self).no_delete@ == old(self).no_delete@,
            final(self).id_remap@ == old(self).id_remap@,
    {
        self.to_retrieve.push(id);
    }

    /// Current internal id of a stable external handle.
    pub fn remap_id(&self, id: usize) -> (r: usize)
        ensures
            r == spec_remap(self.id_remap@, id),
    {
        let mut i: usize = 0;
        proof {
            assert(self.id_remap@.skip(0) =~= self.id_remap@);
        }
        while i < self.id_remap.len()
            invariant
                i <= self.id_remap@.len(),
                spec_remap(self.id_remap@, id) == spec_remap(self.id_remap@.skip(i as int), id),
            decreases self.id_remap@.len() - i,
        {
            let (k, v) = self.id_remap[i];
            proof {
                assert(self.id_remap@.skip(i as int).drop_first() =~= self.id_remap@.skip(i + 1));
            }
            if k == id {
                return v;
            }
            i = i + 1;
        }
        proof {
            assert(self.id_remap@.skip(self.id_remap@.len() as int).len() == 0);
        }
        id
    }

    /// Migrate every reference from `from` to `to`: remap entries that
    /// pointed at `from` now point at `to`, a fresh remap entry records the
    /// move, and membership of `from` in the protected and retrieve sets
    /// transfers to `to`.
    pub fn move_references(&mut self, from: usize, to: usize)
        requires
            old(self).wf(),
            old(self).live(to as int),
        ensures
            final(self).wf(),
            final(self).nodes@ == old(self).nodes@,
            final(self).edges@ == old(self).edges@,
            final(self).id_remap@ == old(self).id_remap@.map_values(
                |p: (usize, usize)|
                    if p.1 == from {
                        (p.0, to)
                    } else {
                        p
                    },
            ).push((from, to)),
            final(self).no_delete@ == old(self).no_delete@.map_values(
                |x: usize|
                    if x == from {
                        to
                    } else {
                        x
                    },
            ),
            final(self).to_retrieve@ == old(self).to_retrieve@.map_values(
                |x: usize|
                    if x == from {
                        to
                    } else {
                        x
                    },
            ),
    {
        let mut i: usize = 0;
        while i < self.id_remap.len()
            invariant
                old(self).wf(),
                self.nodes@ == old(self).nodes@,
                self.edges@ == old(self).edges@,
                self.no_delete@ == old(self).no_delete@,
                self.to_retrieve@ == old(self).to_retrieve@,
                self.id_remap@.len() == old(self).id_remap@.len(),
                i <= self.id_remap@.len(),
                forall|k: int|
                    0 <= k < i ==> self.id_remap@[k] == (if old(self).id_remap@[k].1 == from {
                        (old(self).id_remap@[k].0, to)
                    } else {
                        old(self).id_remap@[k]
                    }),
                forall|k: int|
                    i <= k < self.id_remap@.len() ==> self.id_remap@[k] == old(self).id_remap@[k],
            decreases self.id_remap@.len() - i,
        {
            let (k, v) = self.id_remap[i];
            if v == from {
                self.id_remap.set(i, (k, to));
            }
            i = i + 1;
        }
        self.id_remap.push((from, to));
        let ghost remap_done = self.id_remap@;
        let mut i: usize = 0;
        while i < self.no_delete.len()
            invariant
                old(self).wf(),
                self.nodes@ == old(self).nodes@,
                self.edges@ == old(self).edges@,
                self.to_retrieve@ == old(self).to_retrieve@,
                self.id_remap@ == remap_done,
                self.no_delete@.len() == old(self).no_delete@.len(),
                i <= self.no_delete@.len(),
                forall|k: int|
                    0 <= k < i ==> self.no_delete@[k] == (if old(self).no_delete@[k] == from {
                        to
                    } else {
                        old(self).no_delete@[k]
                    }),
                forall|k: int|
                    i <= k < self.no_delete@.len() ==> self.no_delete@[k] == old(
                        self,
                    ).no_delete@[k],
            decreases self.no_delete@.len() - i,
        {
            if self.no_delete[i] == from {
                self.no_delete.set(i, to);
            }
            i = i + 1;
        }
        let ghost nd_done = self.no_delete@;
        let mut i: usize = 0;
        while i < self.to_retrieve.len()
            invariant
                old(self).wf(),
                self.nodes@ == old(self).nodes@,
                self.edges@ == old(self).edges@,
                self.id_remap@ == remap_done,
                self.no_delete@ == nd_done,
                self.to_retrieve@.len() == old(self).to_retrieve@.len(),
                i <= self.to_retrieve@.len(),
                forall|k: int|
                    0 <= k < i ==> self.to_retrieve@[k] == (if old(self).to_retrieve@[k] == from {
                        to
                    } else {
                        old(self).to_retrieve@[k]
                    }),
                forall|k: int|
                    i <= k < self.to_retrieve@.len() ==> self.to_retrieve@[k] == old(
                        self,
                    ).to_retrieve@[k],
            decreases self.to_retrieve@.len() - i,
        {
            if self.to_retrieve[i] == from {
                self.to_retrieve.set(i, to);
            }
            i = i + 1;
        }
        proof {
            assert(remap_done =~= old(self).id_remap@.map_values(
                |p: (usize, usize)|
                    if p.1 == from {
                        (p.0, to)
                    } else {
                        p
                    },
            ).push((from, to)));
            assert(nd_done =~= old(self).no_delete@.map_values(
                |x: usize|
                    if x == from {
                        to
                    } else {
                        x
                    },
            ));
            assert(self.id_remap@ =~= old(self).id_remap@.map_values(
                |p: (usize, usize)|
                    if p.1 == from {
                        (p.0, to)
                    } else {
                        p
                    },
            ).push((from, to)));
            assert(self.no_delete@ =~= old(self).no_delete@.map_values(
                |x: usize|
                    if x == from {
                        to
                    } else {
                        x
                    },
            ));
            assert(self.to_retrieve@ =~= old(self).to_retrieve@.map_values(
                |x: usize|
                    if x == from {
                        to
                    } else {
                        x
                    },
            ));
        }
    }

    /// Delete a node and every edge touching it. The caller must already
    /// have migrated all protected, retrieved and remapped references away
    /// from it.
    pub fn remove_node(&mut self, id: usize)
        requires
            old(self).wf(),
            old(self).live(id as int),
            !old(self).no_delete@.contains(id),
            !old(self).to_retrieve@.contains(id),
            forall|k: int| 0 <= k < old(self).id_remap@.len() ==> (#[trigger] old(
                self,
            ).id_remap@[k]).1 != id,
        ensures
            final(self).wf(),
            final(self).nodes@ == old(self).nodes@.update(id as int, None),
            final(self).edges@ == remove_incident(old(self).edges@, id),
            final(self).no_delete@ == old(self).no_delete@,
            final(self).to_retrieve@ == old(self).to_retrieve@,
            final(self).id_remap@ == old(self).id_remap@,
    {
        self.nodes.set(id, None);
        let ghost orig = self.edges@;
        let ghost p: int = 0;
        let mut i: usize = 0;
        while i < self.edges.len()
            invariant
                self.nodes@ == old(self).nodes@.update(id as int, None),
                self.no_delete@ == old(self).no_delete@,
                self.to_retrieve@ == old(self).to_retrieve@,
                self.id_remap@ == old(self).id_remap@,
                orig == old(self).edges@,
                0 <= p <= orig.len(),
                i as int == remove_incident(orig.take(p), id).len(),
                self.edges@ =~= remove_incident(orig.take(p), id) + orig.skip(p),
                i <= self.edges@.len(),
            decreases orig.len() - p,
        {
            proof {
                assert(orig.take(p + 1).drop_last() =~= orig.take(p));
                assert(orig.take(p + 1).last() == orig[p]);
                assert(self.edges@[i as int] == orig[p]);
            }
            let incident = self.edges[i].src == id || self.edges[i].dst == id;
            if incident {
                self.edges.remove(i);
                proof {
                    assert(self.edges@ =~= remove_incident(orig.take(p + 1), id) + orig.skip(
                        p + 1,
                    ));
                }
            } else {
                i = i + 1;
                proof {
                    assert(remove_incident(orig.take(p + 1), id) =~= remove_incident(
                        orig.take(p),
                        id,
                    ) + seq![orig[p]]);
                    assert(self.edges@ =~= remove_incident(orig.take(p + 1), id) + orig.skip(
                        p + 1,
                    ));
                }
            }
            proof {
                p = p + 1;
            }
        }
        proof {
            assert(orig.take(orig.len() as int) =~= orig);
            assert(orig.skip(orig.len() as int).len() == 0);
            assert(self.edges@ =~= remove_incident(orig, id));
            lemma_remove_incident_not_incident(orig, id);
            assert forall|e: int|
                0 <= e < self.edges@.len() implies self.live(
                (#[trigger] self.edges@[e]).src as int,
            ) && self.live(self.edges@[e].dst as int) && self.edges@[e].view.wf() by {
                assert(remove_incident(orig, id).contains(self.edges@[e]));
                let w = choose|w: int| 0 <= w < orig.len() && orig[w] == self.edges@[e];
                assert(old(self).edges@[w].view.wf());
            }
            assert forall|k: int|
                0 <= k < self.no_delete@.len() implies self.live(
                (#[trigger] self.no_delete@[k]) as int,
            ) by {
                assert(old(self).no_delete@[k] != id);
            }
            assert forall|k: int|
                0 <= k < self.to_retrieve@.len() implies self.live(
                (#[trigger] self.to_retrieve@[k]) as int,
            ) by {
                assert(old(self).to_retrieve@[k] != id);
            }
        }
    }
}

impl Graph {
    /// Whether `id` names a node present in the arena.
    pub fn is_live(&self, id: usize) -> (r: bool)
        ensures
            r == self.live(id as int),
    {
        id < self.nodes.len() && self.nodes[id].is_some()
    }

    /// Whether some remap entry currently points at `id`.
    pub fn remap_has_value(&self, id: usize) -> (r: bool)
        ensures
            r == exists|k: int|
                0 <= k < self.id_remap@.len() && (#[trigger] self.id_remap@[k]).1 == id,
    {
        let mut i: usize = 0;
        while i < self.id_remap.len()
            invariant
                i <= self.id_remap@.len(),
                forall|k: int| 0 <= k < i ==> (#[trigger] self.id_remap@[k]).1 != id,
            decreases self.id_remap@.len() - i,
        {
            if self.id_remap[i].1 == id {
                return true;
            }
            i = i + 1;
        }
        false
    }
}

/// Entry `k` of `out_edge_ids` is a valid edge index whose edge leaves
/// `node`.
pub proof fn lemma_out_edge_ids_valid(edges: Seq<Edge>, node: usize, k: int)
    requires
        edges.len() <= usize::MAX,
        0 <= k < out_edge_ids(edges, node).len(),
    ensures
        out_edge_ids(edges, node)[k] < edges.len(),
        edges[out_edge_ids(edges, node)[k] as int].src == node,
    decreases edges.len(),
{
    if edges.len() > 0 {
        let prev = out_edge_ids(edges.drop_last(), node);
        if k < prev.len() {
            lemma_out_edge_ids_valid(edges.drop_last(), node, k);
            assert(out_edge_ids(edges, node)[k] == prev[k]);
            assert(prev[k] < edges.drop_last().len());
            assert(edges.drop_last()[prev[k] as int].src == node);
            assert(edges.drop_last()[prev[k] as int] == edges[prev[k] as int]);
            assert(edges[out_edge_ids(edges, node)[k] as int].src == node);
        } else {
            assert(edges.last().src == node);
            assert(out_edge_ids(edges, node)[k] == (edges.len() - 1) as usize);
            assert(edges[edges.len() - 1] == edges.last());
            assert(edges[out_edge_ids(edges, node)[k] as int].src == node);
        }
    }
}

/// Entry `k` of `in_edge_ids` is a valid edge index whose edge enters
/// `node`.
pub proof fn lemma_in_edge_ids_valid(edges: Seq<Edge>, node: usize, k: int)
    requires
        edges.len() <= usize::MAX,
        0 <= k < in_edge_ids(edges, node).len(),
    ensures
        in_edge_ids(edges, node)[k] < edges.len(),
        edges[in_edge_ids(edges, node)[k] as int].dst == node,
    decreases edges.len(),
{
    if edges.len() > 0 {
        let prev = in_edge_ids(edges.drop_last(), node);
        if k < prev.len() {
            lemma_in_edge_ids_valid(edges.drop_last(), node, k);
            assert(in_edge_ids(edges, node)[k] == prev[k]);
            assert(prev[k] < edges.drop_last().len());
            assert(edges.drop_last()[prev[k] as int].dst == node);
            assert(edges.drop_last()[prev[k] as int] == edges[prev[k] as int]);
            assert(edges[in_edge_ids(edges, node)[k] as int].dst == node);
        } else {
            assert(edges.last().dst == node);
            assert(in_edge_ids(edges, node)[k] == (edges.len() - 1) as usize);
            assert(edges[edges.len() - 1] == edges.last());
            assert(edges[in_edge_ids(edges, node)[k] as int].dst == node);
        }
    }
}

/// Indices of the edges entering `node` from any source but `excl`, in
/// edge-list order.
pub open spec fn other_in_ids(edges: Seq<Edge>, node: usize, excl: usize) -> Seq<usize>
    decreases edges.len(),
{
    if edges.len() == 0 {
        Seq::empty()
    } else {
        other_in_ids(edges.drop_last(), node, excl) + (if edges.last().dst == node
            && edges.last().src != excl {
            seq![(edges.len() - 1) as usize]
        } else {
            Seq::empty()
        })
    }
}

/// Entry `k` of `other_in_ids` is a valid edge index whose edge enters
/// `node` from a source other than `excl`.
pub proof fn lemma_other_in_ids_valid(edges: Seq<Edge>, node: usize, excl: usize, k: int)
    requires
        edges.len() <= usize::MAX,
        0 <= k < other_in_ids(edges, node, excl).len(),
    ensures
        other_in_ids(edges, node, excl)[k] < edges.len(),
        edges[other_in_ids(edges, node, excl)[k] as int].dst == node,
        edges[other_in_ids(edges, node, excl)[k] as int].src != excl,
    decreases edges.len(),
{
    if edges.len() > 0 {
        let prev = other_in_ids(edges.drop_last(), node, excl);
        if k < prev.len() {
            lemma_other_in_ids_valid(edges.drop_last(), node, excl, k);
            assert(other_in_ids(edges, node, excl)[k] == prev[k]);
            assert(prev[k] < edges.drop_last().len());
            assert(edges.drop_last()[prev[k] as int].dst == node);
            assert(edges.drop_last()[prev[k] as int].src != excl);
            assert(edges.drop_last()[prev[k] as int] == edges[prev[k] as int]);
        } else {
            assert(edges.last().dst == node && edges.last().src != excl);
            assert(other_in_ids(edges, node, excl)[k] == (edges.len() - 1) as usize);
            assert(edges[edges.len() - 1] == edges.last());
        }
    }
}

/// Two edges agree on endpoints, input slot and layout view.
pub open spec fn edge_sim(a: Edge, b: Edge) -> bool {
    &&& a.src == b.src
    &&& a.dst == b.dst
    &&& a.input_order == b.input_order
    &&& crate::shape::view_eq(a.view, b.view)
}

/// Two edge lists agree entry by entry on endpoints, slots and views.
pub open spec fn edges_sim(a: Seq<Edge>, b: Seq<Edge>) -> bool {
    &&& a.len() == b.len()
    &&& forall|i: int| 0 <= i < a.len() ==> edge_sim(#[trigger] a[i], b[i])
}

/// The outgoing edges of `from`, re-sourced to `to`: what splicing a node
/// out attaches in its place.
pub open spec fn resourced_out(edges: Seq<Edge>, from: usize, to: usize) -> Seq<Edge> {
    Seq::new(
        out_edge_ids(edges, from).len(),
        |k: int|
            Edge {
                src: to,
                dst: edges[out_edge_ids(edges, from)[k] as int].dst,
                input_order: edges[out_edge_ids(edges, from)[k] as int].input_order,
                view: edges[out_edge_ids(edges, from)[k] as int].view,
            },
    )
}

/// Removing a node's incident edges respects entrywise edge agreement.
pub proof fn lemma_remove_incident_sim(a: Seq<Edge>, b: Seq<Edge>, id: usize)
    requires
        edges_sim(a, b),
    ensures
        edges_sim(remove_incident(a, id), remove_incident(b, id)),
    decreases a.len(),
{
    if a.len() > 0 {
        assert(edge_sim(a[a.len() - 1], b[b.len() - 1]));
        assert(edges_sim(a.drop_last(), b.drop_last())) by {
            assert forall|i: int|
                0 <= i < a.drop_last().len() implies edge_sim(
                #[trigger] a.drop_last()[i],
                b.drop_last()[i],
            ) by {
                assert(edge_sim(a[i], b[i]));
            }
        }
        lemma_remove_incident_sim(a.drop_last(), b.drop_last(), id);
        let ra = remove_incident(a, id);
        let rb = remove_incident(b, id);
        let pa = remove_incident(a.drop_last(), id);
        let pb = remove_incident(b.drop_last(), id);
        assert forall|i: int| 0 <= i < ra.len() implies edge_sim(#[trigger] ra[i], rb[i]) by {
            if i < pa.len() {
                assert(ra[i] == pa[i]);
                assert(rb[i] == pb[i]);
                assert(edge_sim(pa[i], pb[i]));
            } else {
                assert(ra[i] == a.last());
                assert(rb[i] == b.last());
            }
        }
    }
}

/// Every edge that survives `remove_incident` touches neither end of the
/// removed node and was present before.
pub proof fn lemma_remove_incident_not_incident(edges: Seq<Edge>, id: usize)
    ensures
        forall|e: int|
            0 <= e < remove_incident(edges, id).len() ==> {
                let ed = #[trigger] remove_incident(edges, id)[e];
                ed.src != id && ed.dst != id && edges.contains(ed)
            },
    decreases edges.len(),
{
    if edges.len() > 0 {
        lemma_remove_incident_not_incident(edges.drop_last(), id);
        assert forall|e: int|
            0 <= e < remove_incident(edges, id).len() implies {
            let ed = #[trigger] remove_incident(edges, id)[e];
            ed.src != id && ed.dst != id && edges.contains(ed)
        } by {
            let prev = remove_incident(edges.drop_last(), id);
            if e < prev.len() {
                assert(remove_incident(edges, id)[e] == prev[e]);
                assert(edges.drop_last().contains(prev[e]));
                let w = choose|w: int|
                    0 <= w < edges.drop_last().len() && edges.drop_last()[w] == prev[e];
                assert(edges[w] == prev[e]);
            } else {
                assert(remove_incident(edges, id)[e] == edges.last());
                assert(edges[edges.len() - 1] == edges.last());
            }
        }
    }
}

} // verus!
