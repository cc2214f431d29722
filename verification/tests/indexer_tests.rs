use tensor_core::expr::Expr;
use tensor_core::shape::Dim;
use tensor_core::shape::ShapeTracker;
use tensor_core::shape::SLICE_UPPER;

fn known(ns: &[usize]) -> Vec<Dim> {
    ns.iter().map(|n| Dim::Known(*n)).collect()
}

/// Numeric evaluation of a symbolic expression, mirroring its mathematical
/// semantics on the non-negative dividends and positive divisors that
/// tracker expressions use.
fn ev(e: &Expr, idx: i128, env: &[(char, i128)]) -> i128 {
    match e {
        Expr::Int(n) => *n as i128,
        Expr::Var(c) => env.iter().find(|(k, _)| k == c).unwrap().1,
        Expr::Idx => idx,
        Expr::Add(a, b) => ev(a, idx, env) + ev(b, idx, env),
        Expr::Sub(a, b) => ev(a, idx, env) - ev(b, idx, env),
        Expr::Mul(a, b) => ev(a, idx, env) * ev(b, idx, env),
        Expr::Div(a, b) => ev(a, idx, env) / ev(b, idx, env),
        Expr::Mod(a, b) => ev(a, idx, env) % ev(b, idx, env),
        Expr::Min(a, b) => ev(a, idx, env).min(ev(b, idx, env)),
        Expr::And(a, b) => {
            if ev(a, idx, env) != 0 && ev(b, idx, env) != 0 {
                1
            } else {
                0
            }
        }
        Expr::Gte(a, b) => {
            if ev(a, idx, env) >= ev(b, idx, env) {
                1
            } else {
                0
            }
        }
        Expr::Lt(a, b) => {
            if ev(a, idx, env) < ev(b, idx, env) {
                1
            } else {
                0
            }
        }
    }
}

#[test]
fn test_indexer_identity() {
    let t = ShapeTracker::new(&known(&[2, 3]));
    let ix = t.indexer();
    for i in 0..6 {
        assert_eq!(ix.index(i), Some(i));
    }
}

#[test]
fn test_indexer_permuted() {
    let mut t = ShapeTracker::new(&known(&[2, 3]));
    t.permute(&[1, 0]);
    let ix = t.indexer();
    let expected = [0, 3, 1, 4, 2, 5];
    for i in 0..6 {
        assert_eq!(ix.index(i), Some(expected[i]));
    }
}

#[test]
fn test_indexer_padding_marks_invalid() {
    let mut t = ShapeTracker::new(&known(&[3]));
    t.pad(&[(1, 1)]);
    let ix = t.indexer();
    assert_eq!(t.n_elements(), 5);
    assert_eq!(ix.index(0), None);
    assert_eq!(ix.index(1), Some(0));
    assert_eq!(ix.index(2), Some(1));
    assert_eq!(ix.index(3), Some(2));
    assert_eq!(ix.index(4), None);
}

#[test]
fn test_indexer_pad_and_slice() {
    let mut t = ShapeTracker::new(&known(&[3]));
    t.pad(&[(2, 2)]);
    t.slice(&[(1, 4)]);
    let ix = t.indexer();
    assert_eq!(ix.index(0), None);
    assert_eq!(ix.index(1), Some(0));
    assert_eq!(ix.index(2), Some(1));
}

#[test]
fn test_expressions_agree_with_indexer() {
    let mut t = ShapeTracker::new(&known(&[3, 4]));
    t.pad(&[(1, 1), (0, 0)]);
    t.slice(&[(0, SLICE_UPPER), (1, 3)]);
    t.permute(&[1, 0]);
    let ix = t.indexer();
    let ie = t.index_expression();
    let ve = t.valid_expression();
    let n = t.n_elements();
    assert_eq!(n, 10);
    let mut seen_valid = false;
    let mut seen_invalid = false;
    for i in 0..n {
        let numeric = ix.index(i);
        let valid = ev(&ve, i as i128, &[]) != 0;
        assert_eq!(numeric.is_some(), valid);
        match numeric {
            Some(p) => {
                seen_valid = true;
                assert_eq!(ev(&ie, i as i128, &[]), p as i128);
            }
            None => {
                seen_invalid = true;
            }
        }
    }
    assert!(seen_valid && seen_invalid);
}

#[test]
fn test_symbolic_expression_matches_resolved_indexer() {
    let mut t = ShapeTracker::new(&[Dim::Unknown('a'), Dim::Known(2)]);
    t.permute(&[1, 0]);
    let ie = t.index_expression();
    let ve = t.valid_expression();
    let map: Vec<(char, usize)> = vec![('a', 3)];
    let r = t.resolve_global_dyn_dims(&map);
    let ix = r.indexer();
    let env = [('a', 3i128)];
    for i in 0..r.n_elements() {
        assert_eq!(ev(&ve, i as i128, &env) != 0, ix.index(i).is_some());
        assert_eq!(ev(&ie, i as i128, &env), ix.index(i).unwrap() as i128);
    }
}

#[test]
fn test_strides_skip_fake_axes() {
    let mut t = ShapeTracker::new(&known(&[2, 3]));
    t.expand(1, Dim::Known(4));
    assert_eq!(t.shape(), known(&[2, 4, 3]));
    assert_eq!(t.strides(), vec![3, 1, 1]);
    let ix = t.indexer();
    assert_eq!(t.n_elements(), 24);
    for i in 0..2 {
        for j in 0..4 {
            for k in 0..3 {
                let idx = (i * 4 + j) * 3 + k;
                assert_eq!(ix.index(idx), Some(i * 3 + k));
            }
        }
    }
}

#[test]
fn test_is_indexable_guard() {
    let t = ShapeTracker::new(&known(&[2, 3]));
    assert!(t.is_indexable());
    assert!(t.can_count_elements());
    let u = ShapeTracker::new(&[Dim::Unknown('a')]);
    assert!(!u.is_indexable());
    // a zero-extent axis cannot be compiled: digit extraction would divide
    // by zero
    let z = ShapeTracker::new(&known(&[0, 3]));
    assert!(!z.is_indexable());
    assert!(z.can_count_elements());
    assert_eq!(z.n_elements(), 0);
}

#[test]
fn test_slice_shorter_bounds_touch_leading_axes_only() {
    let mut t = ShapeTracker::new(&known(&[4, 5]));
    t.slice(&[(1, 3)]);
    assert_eq!(t.slices[0], (1, 3));
    assert_eq!(t.slices[1], (0, SLICE_UPPER));
    t.pad(&[(0, 0), (2, 0)]);
    assert_eq!(t.padding[1], (2, 0));
}
