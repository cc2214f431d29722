use tensor_core::shape::resolve_local_dyn_dims;
use tensor_core::shape::Dim;
use tensor_core::shape::ShapeTracker;
use tensor_core::shape::SLICE_UPPER;

fn known(ns: &[usize]) -> Vec<Dim> {
    ns.iter().map(|n| Dim::Known(*n)).collect()
}

#[test]
fn test_to_usize() {
    assert_eq!(Dim::Known(4).to_usize(), Some(4));
    assert_eq!(Dim::Unknown('a').to_usize(), None);
}

#[test]
fn test_dim_default_is_unresolved() {
    assert_eq!(Dim::default(), Dim::Unknown('-'));
}

#[test]
fn test_new_is_contiguous_row_major() {
    let t = ShapeTracker::new(&known(&[2, 3, 4]));
    assert!(t.is_contiguous());
    assert!(!t.is_sliced());
    assert_eq!(t.len(), 3);
    assert!(!t.is_empty());
    assert_eq!(t.strides(), vec![12, 4, 1]);
    assert_eq!(t.n_elements(), 24);
    assert_eq!(t.n_physical_elements(), 24);
}

#[test]
fn test_permute_then_inverse_restores() {
    let mut t = ShapeTracker::new(&known(&[2, 3, 4]));
    t.permute(&[2, 0, 1]);
    assert_eq!(t.shape(), known(&[4, 2, 3]));
    assert_eq!(t.strides(), vec![1, 12, 4]);
    assert!(!t.is_contiguous());
    t.permute(&[1, 2, 0]);
    assert_eq!(t.shape(), known(&[2, 3, 4]));
    assert_eq!(t.strides(), vec![12, 4, 1]);
    assert!(t.is_contiguous());
}

#[test]
fn test_expand_then_remove_dim_restores() {
    let mut t = ShapeTracker::new(&known(&[2, 3]));
    t.pad(&[(1, 0), (0, 0)]);
    let dims0 = t.dims.clone();
    let indexes0 = t.indexes.clone();
    let fake0 = t.fake.clone();
    let slices0 = t.slices.clone();
    let padding0 = t.padding.clone();
    t.expand(1, Dim::Known(5));
    assert_eq!(t.len(), 3);
    assert_eq!(t.shape(), known(&[2, 5, 3]));
    assert!(t.fake[t.indexes[1]]);
    t.remove_dim(1);
    assert_eq!(t.dims, dims0);
    assert_eq!(t.indexes, indexes0);
    assert_eq!(t.fake, fake0);
    assert_eq!(t.slices, slices0);
    assert_eq!(t.padding, padding0);
}

#[test]
fn test_fake_tracker() {
    let t = ShapeTracker::fake(&known(&[2, 3]));
    assert_eq!(t.n_elements(), 6);
    assert_eq!(t.n_physical_elements(), 1);
    assert_eq!(t.strides(), vec![1, 1]);
}

#[test]
fn test_pad_then_slice_composition() {
    let mut t = ShapeTracker::new(&known(&[3]));
    t.pad(&[(2, 2)]);
    assert_eq!(t.n_elements(), 7);
    t.slice(&[(1, 4)]);
    assert_eq!(t.n_elements(), 3);
    assert_eq!(t.n_physical_elements(), 3);
    assert!(t.is_sliced());
    assert_eq!(t.padding[0], (1, 2));
}

#[test]
fn test_slice_consumes_padding_first() {
    let mut t = ShapeTracker::new(&known(&[4]));
    t.pad(&[(3, 0)]);
    t.slice(&[(2, SLICE_UPPER)]);
    assert_eq!(t.padding[0], (1, 0));
    assert_eq!(t.slices[0], (0, SLICE_UPPER));
    assert_eq!(t.n_elements(), 5);
}

#[test]
fn test_n_elements_unknown_dim_is_zero() {
    let t = ShapeTracker::new(&[Dim::Unknown('x'), Dim::Known(3)]);
    assert_eq!(t.n_elements(), 0);
    assert_eq!(t.n_physical_elements(), 0);
}

#[test]
fn test_realize_writes_logical_positions() {
    let mut t = ShapeTracker::new(&[Dim::Unknown('a'), Dim::Known(3)]);
    t.permute(&[1, 0]);
    let t = t.realize(&known(&[3, 7]));
    assert_eq!(t.shape(), known(&[3, 7]));
}

#[test]
fn test_contiguous_strips_history() {
    let mut t = ShapeTracker::new(&known(&[4, 5]));
    t.permute(&[1, 0]);
    t.slice(&[(1, 3), (0, SLICE_UPPER)]);
    let c = t.contiguous();
    assert!(c.is_contiguous());
    assert!(!c.is_sliced());
    assert_eq!(c.shape(), known(&[2, 4]));
}

#[test]
fn test_resolve_global_dyn_dims() {
    let t = ShapeTracker::new(&[Dim::Unknown('a'), Dim::Known(2)]);
    let map: Vec<(char, usize)> = vec![('a', 7)];
    let r = t.resolve_global_dyn_dims(&map);
    assert_eq!(r.shape(), known(&[7, 2]));
}

#[test]
fn test_resolve_local_fills_from_other() {
    let mut a = ShapeTracker::new(&[Dim::Unknown('-'), Dim::Known(2)]);
    let mut b = ShapeTracker::new(&[Dim::Known(5), Dim::Known(2)]);
    resolve_local_dyn_dims(&mut a, &mut b, false);
    assert_eq!(a.shape(), known(&[5, 2]));
    assert_eq!(b.shape(), known(&[5, 2]));
}

#[test]
fn test_resolve_local_defaults_to_one() {
    let mut a = ShapeTracker::new(&[Dim::Unknown('-')]);
    let mut b = ShapeTracker::new(&[Dim::Unknown('-')]);
    resolve_local_dyn_dims(&mut a, &mut b, true);
    assert_eq!(a.shape(), known(&[1]));
    assert_eq!(b.shape(), known(&[1]));
}

#[test]
fn test_resolve_local_without_default_leaves_unresolved() {
    let mut a = ShapeTracker::new(&[Dim::Unknown('-')]);
    let mut b = ShapeTracker::new(&[Dim::Unknown('-')]);
    resolve_local_dyn_dims(&mut a, &mut b, false);
    assert_eq!(a.shape(), vec![Dim::Unknown('-')]);
    assert_eq!(b.shape(), vec![Dim::Unknown('-')]);
}

#[test]
fn test_resolve_local_keeps_named_symbols() {
    let mut a = ShapeTracker::new(&[Dim::Unknown('-')]);
    let mut b = ShapeTracker::new(&[Dim::Unknown('s')]);
    resolve_local_dyn_dims(&mut a, &mut b, true);
    assert_eq!(a.shape(), vec![Dim::Unknown('s')]);
    assert_eq!(b.shape(), vec![Dim::Unknown('s')]);
}

#[test]
fn test_rank_zero_tracker() {
    let t = ShapeTracker::new(&[]);
    assert!(t.is_empty());
    assert_eq!(t.len(), 0);
    assert_eq!(t.n_elements(), 1);
    assert_eq!(t.n_physical_elements(), 1);
    let ix = t.indexer();
    assert_eq!(ix.index(0), Some(0));
}
