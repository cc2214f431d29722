use tensor_core::graph::Graph;
use tensor_core::ops::Op;
use tensor_core::shape::Dim;
use tensor_core::shape::ShapeTracker;

fn known(ns: &[usize]) -> Vec<Dim> {
    ns.iter().map(|n| Dim::Known(*n)).collect()
}

#[test]
fn test_add_and_query_nodes() {
    let mut g = Graph::new();
    let a = g.add_op(Op::Input, known(&[2]));
    let b = g.add_op(Op::Exp2, known(&[2]));
    g.add_input(b, a, 0, ShapeTracker::new(&known(&[2])));
    assert_eq!(a, 0);
    assert_eq!(b, 1);
    assert!(g.is_live(a) && g.is_live(b));
    assert!(matches!(g.get_op(a).op, Op::Input));
    assert!(matches!(g.get_op(b).op, Op::Exp2));
    assert_eq!(g.node_indices(), vec![0, 1]);
    let outs = g.out_edges(a);
    assert_eq!(outs.len(), 1);
    assert_eq!(g.get_edge(outs[0]).dst, b);
    let ins = g.in_edges(b);
    assert_eq!(ins.len(), 1);
    assert_eq!(g.get_edge(ins[0]).src, a);
    assert_eq!(g.out_edges(b).len(), 0);
}

#[test]
fn test_remove_node_drops_incident_edges() {
    let mut g = Graph::new();
    let a = g.add_op(Op::Input, known(&[2]));
    let b = g.add_op(Op::Exp2, known(&[2]));
    let c = g.add_op(Op::Log2, known(&[2]));
    g.add_input(b, a, 0, ShapeTracker::new(&known(&[2])));
    g.add_input(c, b, 0, ShapeTracker::new(&known(&[2])));
    g.remove_node(b);
    assert!(!g.is_live(b));
    assert!(g.is_live(a) && g.is_live(c));
    assert_eq!(g.out_edges(a).len(), 0);
    assert_eq!(g.in_edges(c).len(), 0);
    assert_eq!(g.node_indices(), vec![0, 2]);
}

#[test]
fn test_move_references_migrates_everything() {
    let mut g = Graph::new();
    let a = g.add_op(Op::Input, known(&[2]));
    let b = g.add_op(Op::Exp2, known(&[2]));
    g.mark_no_delete(a);
    g.mark_retrieve(a);
    assert_eq!(g.remap_id(a), a);
    g.move_references(a, b);
    assert_eq!(g.remap_id(a), b);
    assert_eq!(g.no_delete, vec![b]);
    assert_eq!(g.to_retrieve, vec![b]);
    // a chain of moves collapses: entries pointing at the old node follow
    let c = g.add_op(Op::Log2, known(&[2]));
    g.move_references(b, c);
    assert_eq!(g.remap_id(a), c);
    assert_eq!(g.remap_id(b), c);
    assert_eq!(g.no_delete, vec![c]);
}

#[test]
fn test_edge_views_carried() {
    let mut g = Graph::new();
    let a = g.add_op(Op::Input, known(&[2, 3]));
    let b = g.add_op(Op::Mul, known(&[2, 3]));
    let mut view = ShapeTracker::new(&known(&[2, 3]));
    view.permute(&[1, 0]);
    g.add_input(b, a, 1, view);
    let ins = g.in_edges(b);
    let e = g.get_edge(ins[0]);
    assert_eq!(e.input_order, 1);
    assert_eq!(e.view.shape(), known(&[3, 2]));
}
