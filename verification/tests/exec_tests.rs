use tensor_core::graph::Graph;
use tensor_core::ops::Op;
use tensor_core::ops::UnaryOp;
use tensor_core::optimizers::MatMulOptimizer;
use tensor_core::optimizers::UnaryFusionOptimizer;
use tensor_core::shape::Dim;
use tensor_core::shape::ShapeTracker;
use tensor_core::tensor::GraphTensor;

fn known(ns: &[usize]) -> Vec<Dim> {
    ns.iter().map(|n| Dim::Known(*n)).collect()
}

fn dims_of(view: &ShapeTracker) -> Vec<usize> {
    view.shape().iter().map(|d| d.to_usize().unwrap()).collect()
}

/// Read a producer's buffer through a view: each valid logical index maps
/// to its physical element, padded or sliced-away positions read as zero.
fn realize(buf: &[f32], view: &ShapeTracker) -> Vec<f32> {
    let n = view.n_elements();
    let ix = view.indexer();
    (0..n)
        .map(|i| match ix.index(i) {
            Some(p) => buf[p],
            None => 0.0,
        })
        .collect()
}

fn apply_unary(u: &UnaryOp, x: f32) -> f32 {
    match u {
        UnaryOp::Exp2 => x.exp2(),
        UnaryOp::Log2 => x.log2(),
        UnaryOp::Recip => x.recip(),
        UnaryOp::Sqrt => x.sqrt(),
        UnaryOp::Sin => x.sin(),
    }
}

fn reduce(a: &[f32], dims: &[usize], axis: usize, use_max: bool) -> Vec<f32> {
    let outer: usize = dims[..axis].iter().product();
    let n = dims[axis];
    let inner: usize = dims[axis + 1..].iter().product();
    let mut out = vec![if use_max { f32::NEG_INFINITY } else { 0.0 }; outer * inner];
    for o in 0..outer {
        for t in 0..n {
            for i in 0..inner {
                let v = a[(o * n + t) * inner + i];
                let cell = &mut out[o * inner + i];
                if use_max {
                    if v > *cell {
                        *cell = v;
                    }
                } else {
                    *cell += v;
                }
            }
        }
    }
    out
}

/// A reference executor over the graph: nodes are evaluated in ascending id
/// order, each input read through its edge's view.
fn run_graph(g: &Graph, inputs: &[(usize, Vec<f32>)]) -> Vec<Option<Vec<f32>>> {
    let ids = g.node_indices();
    let size = ids.iter().max().map(|m| m + 1).unwrap_or(0);
    let mut out: Vec<Option<Vec<f32>>> = (0..size).map(|_| None).collect();
    for id in ids {
        let ins = g.in_edges(id);
        let mut srcs: Vec<(usize, usize, ShapeTracker)> = ins
            .iter()
            .map(|&e| {
                let ed = g.get_edge(e);
                (ed.input_order, ed.src, ed.view.clone())
            })
            .collect();
        srcs.sort_by_key(|x| x.0);
        let result: Vec<f32> = match &g.get_op(id).op {
            Op::Input => inputs.iter().find(|(k, _)| *k == id).unwrap().1.clone(),
            Op::Constant(v) => vec![*v as f32],
            Op::Permute | Op::Expand => out[srcs[0].1].clone().unwrap(),
            Op::Mul => {
                let a = realize(out[srcs[0].1].as_ref().unwrap(), &srcs[0].2);
                let b = realize(out[srcs[1].1].as_ref().unwrap(), &srcs[1].2);
                a.iter().zip(b.iter()).map(|(x, y)| x * y).collect()
            }
            Op::SumReduce(d) => {
                let a = realize(out[srcs[0].1].as_ref().unwrap(), &srcs[0].2);
                reduce(&a, &dims_of(&srcs[0].2), *d, false)
            }
            Op::MaxReduce(d) => {
                let a = realize(out[srcs[0].1].as_ref().unwrap(), &srcs[0].2);
                reduce(&a, &dims_of(&srcs[0].2), *d, true)
            }
            Op::Recip => realize(out[srcs[0].1].as_ref().unwrap(), &srcs[0].2)
                .iter()
                .map(|x| x.recip())
                .collect(),
            Op::Exp2 => realize(out[srcs[0].1].as_ref().unwrap(), &srcs[0].2)
                .iter()
                .map(|x| x.exp2())
                .collect(),
            Op::Log2 => realize(out[srcs[0].1].as_ref().unwrap(), &srcs[0].2)
                .iter()
                .map(|x| x.log2())
                .collect(),
            Op::Sqrt => realize(out[srcs[0].1].as_ref().unwrap(), &srcs[0].2)
                .iter()
                .map(|x| x.sqrt())
                .collect(),
            Op::Sin => realize(out[srcs[0].1].as_ref().unwrap(), &srcs[0].2)
                .iter()
                .map(|x| x.sin())
                .collect(),
            Op::FusedUnary(fs) => {
                let mut a = realize(out[srcs[0].1].as_ref().unwrap(), &srcs[0].2);
                for x in a.iter_mut() {
                    for f in fs {
                        *x = apply_unary(f, *x);
                    }
                }
                a
            }
            Op::MatMul2D => {
                let a = realize(out[srcs[0].1].as_ref().unwrap(), &srcs[0].2);
                let b = realize(out[srcs[1].1].as_ref().unwrap(), &srcs[1].2);
                let ad = dims_of(&srcs[0].2);
                let bd = dims_of(&srcs[1].2);
                let (m, k, n) = (ad[0], ad[1], bd[1]);
                let mut c = vec![0.0f32; m * n];
                for i in 0..m {
                    for j in 0..n {
                        for t in 0..k {
                            c[i * n + j] += a[i * k + t] * b[t * n + j];
                        }
                    }
                }
                c
            }
        };
        out[id] = Some(result);
    }
    out
}

fn assert_close(a: &[f32], b: &[f32]) {
    assert_eq!(a.len(), b.len());
    for (x, y) in a.iter().zip(b.iter()) {
        assert!((x - y).abs() < 1e-4, "{x} vs {y}");
    }
}

#[test]
fn test_sum_reduce() {
    let mut g = Graph::new();
    let a_id = g.add_op(Op::Input, known(&[2, 3]));
    let t = GraphTensor::from_id(a_id, ShapeTracker::new(&known(&[2, 3])));
    let b = t.sum_reduce(&mut g, &[1]);
    let out = run_graph(&g, &[(a_id, vec![1., 2., 3., 1., 2., 3.])]);
    assert_close(out[b.id].as_ref().unwrap(), &[6., 6.]);
}

#[test]
fn test_max_reduce() {
    let mut g = Graph::new();
    let a_id = g.add_op(Op::Input, known(&[2, 3]));
    let t = GraphTensor::from_id(a_id, ShapeTracker::new(&known(&[2, 3])));
    let b = t.max_reduce(&mut g, &[1]);
    let out = run_graph(&g, &[(a_id, vec![1., 2., 3., 1., 2., 3.])]);
    assert_close(out[b.id].as_ref().unwrap(), &[3., 3.]);
}

#[test]
fn test_mean_reduce() {
    let mut g = Graph::new();
    let a_id = g.add_op(Op::Input, known(&[2, 3]));
    let t = GraphTensor::from_id(a_id, ShapeTracker::new(&known(&[2, 3])));
    let b = t.mean_reduce(&mut g, &[1]);
    let out = run_graph(&g, &[(a_id, vec![1., 2., 3., 1., 2., 3.])]);
    assert_close(out[b.id].as_ref().unwrap(), &[2., 2.]);
}

#[test]
fn test_sum_reduce_two_axes() {
    let mut g = Graph::new();
    let a_id = g.add_op(Op::Input, known(&[2, 2, 2]));
    let t = GraphTensor::from_id(a_id, ShapeTracker::new(&known(&[2, 2, 2])));
    let b = t.sum_reduce(&mut g, &[0, 2]);
    assert_eq!(b.shape.shape(), known(&[2]));
    let out = run_graph(&g, &[(a_id, vec![1., 2., 3., 4., 5., 6., 7., 8.])]);
    assert_close(out[b.id].as_ref().unwrap(), &[14., 22.]);
}

#[test]
fn test_mean_reduce_two_axes() {
    let mut g = Graph::new();
    let a_id = g.add_op(Op::Input, known(&[2, 2, 2]));
    let t = GraphTensor::from_id(a_id, ShapeTracker::new(&known(&[2, 2, 2])));
    let b = t.mean_reduce(&mut g, &[0, 2]);
    assert_eq!(b.shape.shape(), known(&[2]));
    let out = run_graph(&g, &[(a_id, vec![1., 2., 3., 4., 5., 6., 7., 8.])]);
    assert_close(out[b.id].as_ref().unwrap(), &[3.5, 5.5]);
}

/// Build the decomposed matmul pattern for `a: [2,3] @ b: [3,3]` and return
/// (graph, a id, b id, reduce id).
fn decomposed_matmul() -> (Graph, usize, usize, usize) {
    let mut g = Graph::new();
    let a_id = g.add_op(Op::Input, known(&[2, 3]));
    let b_id = g.add_op(Op::Input, known(&[3, 3]));
    let tr_a = ShapeTracker::new(&known(&[2, 3]));
    let tr_b = ShapeTracker::new(&known(&[3, 3]));
    // transpose of b, then both operands broadcast to [2, 3, 3]
    let perm = g.add_op(Op::Permute, known(&[3, 3]));
    g.add_input(perm, b_id, 0, tr_b.clone());
    let mut bt = tr_b.clone();
    bt.permute(&[1, 0]);
    let e1 = g.add_op(Op::Expand, known(&[2, 3, 3]));
    g.add_input(e1, perm, 0, bt.clone());
    let mut bt_exp = bt.clone();
    bt_exp.expand(0, Dim::Known(2));
    let e2 = g.add_op(Op::Expand, known(&[2, 3, 3]));
    g.add_input(e2, a_id, 0, tr_a.clone());
    let mut a_exp = tr_a.clone();
    a_exp.expand(1, Dim::Known(3));
    let mul = g.add_op(Op::Mul, known(&[2, 3, 3]));
    g.add_input(mul, e1, 0, bt_exp);
    g.add_input(mul, e2, 1, a_exp);
    let sr = g.add_op(Op::SumReduce(2), known(&[2, 3]));
    g.add_input(sr, mul, 0, ShapeTracker::new(&known(&[2, 3, 3])));
    (g, a_id, b_id, sr)
}

const MATMUL_A: [f32; 6] = [1., 2., 3., 1., 2., 3.];
const MATMUL_B: [f32; 9] = [1., 2., 3., 1., 2., 3., 1., 2., 3.];

#[test]
fn test_cpu_matmul_2_d() {
    let (mut g, a_id, b_id, sr) = decomposed_matmul();
    let inputs = [(a_id, MATMUL_A.to_vec()), (b_id, MATMUL_B.to_vec())];
    let before = run_graph(&g, &inputs);
    let unoptimized = before[sr].as_ref().unwrap().clone();
    assert_close(&unoptimized, &[6., 12., 18., 6., 12., 18.]);

    MatMulOptimizer.optimize(&mut g);

    let fused = g.remap_id(sr);
    assert_ne!(fused, sr);
    assert_eq!(g.node_indices(), vec![a_id, b_id, fused]);
    assert!(matches!(g.get_op(fused).op, Op::MatMul2D));
    assert_eq!(g.get_op(fused).shape, known(&[2, 3]));

    let after = run_graph(&g, &inputs);
    assert_close(after[fused].as_ref().unwrap(), &unoptimized);
}

#[test]
fn test_matmul_skips_protected_node() {
    let (mut g, _, _, sr) = decomposed_matmul();
    let before = g.node_indices();
    g.mark_no_delete(sr);
    MatMulOptimizer.optimize(&mut g);
    assert_eq!(g.node_indices(), before);
    assert_eq!(g.remap_id(sr), sr);
}

#[test]
fn test_matmul_skips_fanout() {
    let (mut g, _, _, _) = decomposed_matmul();
    // a second consumer of the multiply defeats the match
    let mul = 5;
    assert!(matches!(g.get_op(mul).op, Op::Mul));
    let extra = g.add_op(Op::Exp2, known(&[2, 3, 3]));
    g.add_input(extra, mul, 0, ShapeTracker::new(&known(&[2, 3, 3])));
    let before = g.node_indices();
    MatMulOptimizer.optimize(&mut g);
    assert_eq!(g.node_indices(), before);
}

fn unary_chain() -> (Graph, usize, usize, usize, usize) {
    let mut g = Graph::new();
    let view = || ShapeTracker::new(&known(&[2]));
    let a_id = g.add_op(Op::Input, known(&[2]));
    let e = g.add_op(Op::Exp2, known(&[2]));
    g.add_input(e, a_id, 0, view());
    let l = g.add_op(Op::Log2, known(&[2]));
    g.add_input(l, e, 0, view());
    let s = g.add_op(Op::Sqrt, known(&[2]));
    g.add_input(s, l, 0, view());
    (g, a_id, e, l, s)
}

#[test]
fn test_unary_fusion_chain() {
    let (mut g, a_id, e, _l, s) = unary_chain();
    let inputs = [(a_id, vec![1.0f32, 4.0])];
    let before = run_graph(&g, &inputs);
    let unfused = before[s].as_ref().unwrap().clone();

    UnaryFusionOptimizer.optimize(&mut g);

    assert_eq!(g.node_indices(), vec![a_id, e]);
    match &g.get_op(e).op {
        Op::FusedUnary(fs) => {
            assert_eq!(fs, &vec![UnaryOp::Exp2, UnaryOp::Log2, UnaryOp::Sqrt]);
        }
        other => panic!("expected a fused chain, found {:?}", other),
    }
    assert_eq!(g.remap_id(s), e);

    let after = run_graph(&g, &inputs);
    assert_close(after[e].as_ref().unwrap(), &unfused);
}

#[test]
fn test_fusion_skips_fanout() {
    let (mut g, _a_id, e, _l, _s) = unary_chain();
    // a second consumer of the exponential defeats fusion at that node
    let extra = g.add_op(Op::Sin, known(&[2]));
    g.add_input(extra, e, 0, ShapeTracker::new(&known(&[2])));
    UnaryFusionOptimizer.optimize(&mut g);
    assert!(matches!(g.get_op(e).op, Op::Exp2));
}

#[test]
fn test_fusion_skips_protected_successor() {
    let (mut g, _a_id, e, l, s) = unary_chain();
    let before = g.node_indices();
    g.mark_no_delete(l);
    g.mark_no_delete(s);
    UnaryFusionOptimizer.optimize(&mut g);
    assert_eq!(g.node_indices(), before);
    assert!(matches!(g.get_op(e).op, Op::Exp2));
    assert!(matches!(g.get_op(l).op, Op::Log2));
    assert!(matches!(g.get_op(s).op, Op::Sqrt));
}

#[test]
fn test_fusion_skips_protected_predecessor() {
    let (mut g, _a_id, e, l, _s) = unary_chain();
    g.mark_no_delete(e);
    g.mark_no_delete(l);
    UnaryFusionOptimizer.optimize(&mut g);
    assert!(matches!(g.get_op(e).op, Op::Exp2));
    assert!(matches!(g.get_op(l).op, Op::Log2));
}

#[test]
fn test_fusion_migrates_retrieved_successor() {
    // the end of the chain is marked for retrieval: the merge still
    // happens, and the retrieve entry follows the splice
    let (mut g, _a_id, e, _l, s) = unary_chain();
    g.mark_retrieve(s);
    UnaryFusionOptimizer.optimize(&mut g);
    assert!(!g.is_live(s));
    assert_eq!(g.to_retrieve, vec![e]);
    assert_eq!(g.remap_id(s), e);
    match &g.get_op(e).op {
        Op::FusedUnary(fs) => {
            assert_eq!(fs, &vec![UnaryOp::Exp2, UnaryOp::Log2, UnaryOp::Sqrt]);
        }
        other => panic!("expected a fused chain, found {:?}", other),
    }
}

#[test]
fn test_fusion_absorbs_remap_target() {
    // ids are laid out so the middle of the chain fuses first and becomes
    // a remap target; the head then absorbs it all the same
    let mut g = Graph::new();
    let view = || ShapeTracker::new(&known(&[2]));
    let a_id = g.add_op(Op::Input, known(&[2]));
    let mid = g.add_op(Op::Log2, known(&[2]));
    let tail = g.add_op(Op::Sqrt, known(&[2]));
    let head = g.add_op(Op::Exp2, known(&[2]));
    g.add_input(head, a_id, 0, view());
    g.add_input(mid, head, 0, view());
    g.add_input(tail, mid, 0, view());
    UnaryFusionOptimizer.optimize(&mut g);
    assert_eq!(g.node_indices(), vec![a_id, head]);
    match &g.get_op(head).op {
        Op::FusedUnary(fs) => {
            assert_eq!(fs, &vec![UnaryOp::Exp2, UnaryOp::Log2, UnaryOp::Sqrt]);
        }
        other => panic!("expected a fused chain, found {:?}", other),
    }
    assert_eq!(g.remap_id(mid), head);
    assert_eq!(g.remap_id(tail), head);
}

#[test]
fn test_matmul_splices_retrieved_reduce() {
    // the reduce output the caller retrieves is migrated to the fused node
    let (mut g, a_id, b_id, sr) = decomposed_matmul();
    g.mark_retrieve(sr);
    MatMulOptimizer.optimize(&mut g);
    let fused = g.remap_id(sr);
    assert_ne!(fused, sr);
    assert_eq!(g.node_indices(), vec![a_id, b_id, fused]);
    assert_eq!(g.to_retrieve, vec![fused]);
    assert!(matches!(g.get_op(fused).op, Op::MatMul2D));
}
