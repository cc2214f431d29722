//! Stated laws of the shape tracker, each proved from the contracts of the
//! operations it speaks of.

use vstd::prelude::*;

use crate::indexing::acc_prod;
use crate::indexing::axis_ok;
use crate::indexing::digit_at;
use crate::indexing::high_digit;
use crate::indexing::low_digit;
use crate::indexing::lsize;
use crate::indexing::valid_at;
use crate::shape::Dim;
use crate::shape::ShapeTracker;
use crate::shape::MAX_DIMS;
use crate::shape::SLICE_UPPER;

verus! {

/// Row-major stride of logical axis `i - 1`: the product of all later axis
/// sizes.
pub open spec fn row_major_suffix(dims: Seq<Dim>, i: int) -> int
    decreases dims.len() - i,
{
    if i >= dims.len() {
        1
    } else {
        dims[i]->Known_0 * row_major_suffix(dims, i + 1)
    }
}

proof fn lemma_stride_suffix_row_major(t: ShapeTracker, k: int)
    requires
        t.wf(),
        t.all_known(),
        forall|i: int| 0 <= i < t.rank() ==> !t.fake@[i],
        0 <= k,
    ensures
        t.stride_suffix(k) == row_major_suffix(t.dims@, k),
    decreases t.rank() - k,
{
    if k < t.rank() {
        lemma_stride_suffix_row_major(t, k + 1);
    }
}

/// A tracker whose logical order equals its storage order and whose axes
/// are all real carries the standard row-major strides: each logical axis's
/// stride is the right-to-left cumulative product of the later sizes. This
/// holds in particular of every tracker built by `new`.
pub proof fn lemma_contiguous_strides_row_major(t: ShapeTracker)
    requires
        t.wf(),
        t.all_known(),
        t.spec_is_contiguous(),
        forall|i: int| 0 <= i < t.rank() ==> !t.fake@[i],
    ensures
        forall|i: int|
            0 <= i < t.rank() ==> t.stride_suffix(t.indexes@[i] + 1) == row_major_suffix(
                t.dims@,
                i + 1,
            ),
{
    assert forall|i: int|
        0 <= i < t.rank() implies t.stride_suffix(t.indexes@[i] + 1) == row_major_suffix(
        t.dims@,
        i + 1,
    ) by {
        assert(t.indexes@[i] == i);
        lemma_stride_suffix_row_major(t, i + 1);
    }
}

proof fn lemma_stride_suffix_same_storage(a: ShapeTracker, b: ShapeTracker, k: int)
    requires
        a.dims@ == b.dims@,
        a.fake@ == b.fake@,
        0 <= k,
    ensures
        a.stride_suffix(k) == b.stride_suffix(k),
    decreases a.rank() - k,
{
    if k < a.rank() {
        lemma_stride_suffix_same_storage(a, b, k + 1);
    }
}

/// Permuting by some axis order and then by its inverse restores the
/// original logical shape and the original per-axis strides. The two
/// permuted trackers are characterized exactly as `permute` leaves them.
pub proof fn lemma_permute_inverse_restores(
    t0: ShapeTracker,
    t1: ShapeTracker,
    t2: ShapeTracker,
    axes: Seq<usize>,
    inv_axes: Seq<usize>,
)
    requires
        t0.wf(),
        axes.len() == t0.rank(),
        inv_axes.len() == t0.rank(),
        forall|i: int| 0 <= i < axes.len() ==> axes[i] < axes.len(),
        forall|i: int| 0 <= i < inv_axes.len() ==> inv_axes[i] < inv_axes.len(),
        forall|i: int| 0 <= i < axes.len() ==> axes[#[trigger] inv_axes[i] as int] == i,
        t1.dims@ == t0.dims@,
        t1.fake@ == t0.fake@,
        t1.slices@ == t0.slices@,
        t1.padding@ == t0.padding@,
        t1.indexes@ == Seq::new(axes.len(), |i: int| t0.indexes@[axes[i] as int]),
        t2.dims@ == t1.dims@,
        t2.fake@ == t1.fake@,
        t2.slices@ == t1.slices@,
        t2.padding@ == t1.padding@,
        t2.indexes@ == Seq::new(inv_axes.len(), |i: int| t1.indexes@[inv_axes[i] as int]),
    ensures
        t2.indexes@ == t0.indexes@,
        t2.spec_shape() == t0.spec_shape(),
        forall|i: int|
            0 <= i < t2.rank() ==> t2.stride_suffix(t2.indexes@[i] + 1) == t0.stride_suffix(
                t0.indexes@[i] + 1,
            ),
{
    assert forall|i: int| 0 <= i < t2.indexes@.len() implies t2.indexes@[i] == t0.indexes@[i] by {
        assert(t2.indexes@[i] == t1.indexes@[inv_axes[i] as int]);
        assert(t1.indexes@[inv_axes[i] as int] == t0.indexes@[axes[inv_axes[i] as int] as int]);
    }
    assert(t2.indexes@ =~= t0.indexes@);
    assert(t2.spec_shape() =~= t0.spec_shape());
    assert forall|i: int|
        0 <= i < t2.rank() implies t2.stride_suffix(t2.indexes@[i] + 1) == t0.stride_suffix(
        t0.indexes@[i] + 1,
    ) by {
        lemma_stride_suffix_same_storage(t2, t0, t2.indexes@[i] + 1);
    }
}

/// Inserting a fake axis with `expand` and deleting the same logical axis
/// with `remove_dim` restores the original tracker: all five per-axis
/// records are exactly as before. The intermediate and final trackers are
/// characterized exactly as the two operations leave them.
pub proof fn lemma_expand_remove_restores(
    t0: ShapeTracker,
    t1: ShapeTracker,
    t2: ShapeTracker,
    axis: usize,
    dim: Dim,
)
    requires
        t0.wf(),
        axis <= t0.rank(),
        t0.rank() < MAX_DIMS,
        t1.dims@ == t0.dims@.push(dim),
        t1.indexes@ == t0.indexes@.insert(axis as int, t0.dims@.len() as usize),
        t1.fake@ == t0.fake@.push(true),
        t1.slices@ == t0.slices@.push((0usize, SLICE_UPPER)),
        t1.padding@ == t0.padding@.push((0usize, 0usize)),
        t2.dims@ == t1.dims@.remove(t1.indexes@[axis as int] as int),
        t2.fake@ == t1.fake@.remove(t1.indexes@[axis as int] as int),
        t2.slices@ == t1.slices@.remove(t1.indexes@[axis as int] as int),
        t2.padding@ == t1.padding@.remove(t1.indexes@[axis as int] as int),
        t2.indexes@ == t1.indexes@.remove(axis as int).map_values(
            |v: usize|
                if v > t1.indexes@[axis as int] {
                    (v - 1) as usize
                } else {
                    v
                },
        ),
    ensures
        t2.dims@ == t0.dims@,
        t2.indexes@ == t0.indexes@,
        t2.fake@ == t0.fake@,
        t2.slices@ == t0.slices@,
        t2.padding@ == t0.padding@,
{
    assert(t1.indexes@[axis as int] == t0.dims@.len() as usize);
    assert(t2.dims@ =~= t0.dims@);
    assert(t2.fake@ =~= t0.fake@);
    assert(t2.slices@ =~= t0.slices@);
    assert(t2.padding@ =~= t0.padding@);
    assert(t1.indexes@.remove(axis as int) =~= t0.indexes@);
    assert forall|i: int| 0 <= i < t2.indexes@.len() implies t2.indexes@[i] == t0.indexes@[i] by {
        assert(t0.indexes@[i] < t0.dims@.len());
    }
    assert(t2.indexes@ =~= t0.indexes@);
}

/// The indexer and the symbolic expressions agree. `Indexer::index` is
/// specified against the compiled axes `known_axes`; `index_expression` and
/// `valid_expression` are specified against `axes_model` under an
/// environment. For a compilable tracker these coincide under every
/// environment, so the indexer returns a physical offset exactly where the
/// validity expression evaluates non-zero, and the offset it returns is the
/// value the index expression evaluates to.
pub proof fn lemma_indexer_agrees_with_expressions(t: ShapeTracker, env: Map<char, int>, idx: int)
    requires
        t.indexable(),
    ensures
        t.axes_model(env) == t.known_axes(),
        valid_at(t.axes_model(env), idx) == valid_at(t.known_axes(), idx),
        crate::indexing::phys_of(t.axes_model(env), idx) == crate::indexing::phys_of(
            t.known_axes(),
            idx,
        ),
{
    crate::indexing::lemma_axes_model_env_irrelevant(t, env);
}

/// For a tracker without padding or slicing — every pad amount zero, every
/// slice bound at its default — every logical index from `0` up to the
/// element count is valid: the compiled indexer maps it to a physical
/// offset, and the symbolic validity expression holds of it.
pub proof fn lemma_default_bounds_all_valid(t: ShapeTracker, idx: int)
    requires
        t.indexable(),
        forall|i: int| 0 <= i < t.rank() ==> (#[trigger] t.padding@[i]) == (0usize, 0usize),
        forall|i: int| 0 <= i < t.rank() ==> (#[trigger] t.slices@[i]) == (0usize, SLICE_UPPER),
        0 <= idx < t.spec_n_elements(),
    ensures
        valid_at(t.known_axes(), idx),
{
    let axes = t.known_axes();
    assert forall|j: int|
        0 <= j < axes.len() && !(#[trigger] axes[j]).fake implies low_digit(axes[j]) <= digit_at(
        axes,
        idx,
        j,
    ) < high_digit(axes[j]) by {
        let slot = t.indexes@[t.rank() - 1 - j] as int;
        assert(axes[j] == t.axis_model_known(slot));
        assert(axis_ok(axes[j]));
        assert(lsize(axes[j]) == axes[j].size);
        assert(low_digit(axes[j]) == 0);
        assert(high_digit(axes[j]) == axes[j].size);
        crate::indexing::lemma_acc_prod_pos(axes, j);
        vstd::arithmetic::div_mod::lemma_div_pos_is_pos(idx, acc_prod(axes, j));
        vstd::arithmetic::div_mod::lemma_mod_bound(idx / acc_prod(axes, j), lsize(axes[j]));
    }
}

} // verus!
