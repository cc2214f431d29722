//! Stride computation and logical-to-physical index translation, both as a
//! compiled numeric `Indexer` and as symbolic expressions. All three views
//! are specified against one mathematical model of the tracker's axes, so
//! that their agreement is a stated, proved fact.

use vstd::prelude::*;

use crate::expr::e_add;
use crate::expr::e_and;
use crate::expr::e_div;
use crate::expr::e_gte;
use crate::expr::e_idx;
use crate::expr::e_int;
use crate::expr::e_lt;
use crate::expr::e_min;
use crate::expr::e_mod;
use crate::expr::e_mul;
use crate::expr::e_sub;
use crate::expr::e_var;
use crate::expr::eval;
use crate::expr::Expr;
use crate::shape::dim_bounded;
use crate::shape::imax;
use crate::shape::imin;
use crate::shape::Dim;
use crate::shape::ShapeTracker;
use crate::shape::MAX_DIMS;
use crate::shape::SLICE_UPPER;

verus! {

/// Mathematical description of one axis, listed in reverse logical order
/// (least significant axis first): its resolved size, stride, pads, slice
/// bounds and broadcast flag.
pub struct AxisModel {
    pub size: int,
    pub stride: int,
    pub p0: int,
    pub p1: int,
    pub s0: int,
    pub s1: int,
    pub fake: bool,
}

/// Effective logical extent of an axis: padded size capped by the upper
/// slice bound, minus the lower bound.
pub open spec fn lsize(a: AxisModel) -> int {
    imin(a.size + a.p0 + a.p1, a.s1) - a.s0
}

/// Smallest digit of this axis that maps into stored data: the front
/// padding not consumed by slicing.
pub open spec fn low_digit(a: AxisModel) -> int {
    imax(a.p0 - a.s0, 0)
}

/// One past the largest digit of this axis that maps into stored data.
pub open spec fn high_digit(a: AxisModel) -> int {
    imin(a.size + a.p0, a.s1)
}

/// Physical coordinate on this axis for a given digit: padding is taken
/// back off, and the slice start not subsumed by padding is added back.
pub open spec fn coord(a: AxisModel, digit: int) -> int {
    digit - a.p0 + imax(a.s0 - a.p0, 0)
}

/// Product of the effective extents of the first `j` axes: the running
/// divisor under which axis `j`'s digit is extracted.
pub open spec fn acc_prod(axes: Seq<AxisModel>, j: int) -> int
    decreases j,
{
    if j <= 0 {
        1
    } else {
        acc_prod(axes, j - 1) * lsize(axes[j - 1])
    }
}

/// Digit of axis `j` extracted from logical index `idx`.
pub open spec fn digit_at(axes: Seq<AxisModel>, idx: int, j: int) -> int {
    (idx / acc_prod(axes, j)) % lsize(axes[j])
}

/// A logical index is valid iff on every non-fake axis its digit falls in
/// the stored range.
pub open spec fn valid_at(axes: Seq<AxisModel>, idx: int) -> bool {
    forall|j: int|
        0 <= j < axes.len() && !(#[trigger] axes[j]).fake ==> low_digit(axes[j]) <= digit_at(
            axes,
            idx,
            j,
        ) < high_digit(axes[j])
}

/// Physical offset contributed by the first `j` axes.
pub open spec fn phys_partial(axes: Seq<AxisModel>, idx: int, j: int) -> int
    decreases j,
{
    if j <= 0 {
        0
    } else {
        phys_partial(axes, idx, j - 1) + (if axes[j - 1].fake {
            0
        } else {
            coord(axes[j - 1], digit_at(axes, idx, j - 1)) * axes[j - 1].stride
        })
    }
}

/// Physical offset of logical index `idx`.
pub open spec fn phys_of(axes: Seq<AxisModel>, idx: int) -> int {
    phys_partial(axes, idx, axes.len() as int)
}

/// Value of a dimension under an environment resolving its symbol.
pub open spec fn dim_val(d: Dim, env: Map<char, int>) -> int {
    match d {
        Dim::Known(n) => n as int,
        Dim::Unknown(c) => env[c],
    }
}

impl ShapeTracker {
    /// Stride of the axis stored in slot `k - 1`: the product of the sizes
    /// of all later storage slots, fake axes skipped, under `env`.
    pub open spec fn stride_suffix_env(self, env: Map<char, int>, k: int) -> int
        decreases self.rank() - k,
    {
        if k >= self.rank() {
            1
        } else {
            (if self.fake@[k] {
                1
            } else {
                dim_val(self.dims@[k], env)
            }) * self.stride_suffix_env(env, k + 1)
        }
    }

    /// Stride of the axis stored in slot `k - 1` when every size is known.
    pub open spec fn stride_suffix(self, k: int) -> int
        decreases self.rank() - k,
    {
        if k >= self.rank() {
            1
        } else {
            (if self.fake@[k] {
                1
            } else {
                self.dims@[k]->Known_0 as int
            }) * self.stride_suffix(k + 1)
        }
    }

    pub open spec fn all_known(self) -> bool {
        forall|t: int| 0 <= t < self.rank() ==> (#[trigger] self.dims@[t]) is Known
    }

    /// Model of the axis stored in `slot`, under `env`.
    pub open spec fn axis_model(self, env: Map<char, int>, slot: int) -> AxisModel {
        AxisModel {
            size: dim_val(self.dims@[slot], env),
            stride: self.stride_suffix_env(env, slot + 1),
            p0: self.padding@[slot].0 as int,
            p1: self.padding@[slot].1 as int,
            s0: self.slices@[slot].0 as int,
            s1: self.slices@[slot].1 as int,
            fake: self.fake@[slot],
        }
    }

    /// The tracker's axes in reverse logical order (least significant axis
    /// first), each resolved under `env`.
    pub open spec fn axes_model(self, env: Map<char, int>) -> Seq<AxisModel> {
        Seq::new(
            self.rank(),
            |j: int| self.axis_model(env, self.indexes@[self.rank() - 1 - j] as int),
        )
    }
}

/// With every dimension known, the stride of a slot does not depend on the
/// environment.
pub proof fn lemma_stride_suffix_env_known(t: ShapeTracker, env: Map<char, int>, k: int)
    requires
        t.wf(),
        t.all_known(),
        0 <= k,
    ensures
        t.stride_suffix_env(env, k) == t.stride_suffix(k),
    decreases t.rank() - k,
{
    if k < t.rank() {
        assert(t.dims@[k] is Known);
        lemma_stride_suffix_env_known(t, env, k + 1);
    }
}

impl ShapeTracker {
    /// Strides of the storage slots, unaffected by the logical permutation.
    fn unordered_strides(&self) -> (r: Vec<usize>)
        requires
            self.wf(),
            self.all_known(),
            forall|k: int| 0 <= k <= self.rank() ==> #[trigger] self.stride_suffix(k) <= usize::MAX,
        ensures
            r@.len() == self.rank(),
            forall|k: int| 0 <= k < self.rank() ==> r@[k] == self.stride_suffix(k + 1),
    {
        let n = self.dims.len();
        let mut out: Vec<usize> = Vec::new();
        let mut j: usize = 0;
        while j < n
            invariant
                out@.len() == j,
                j <= n,
            decreases n - j,
        {
            out.push(0);
            j = j + 1;
        }
        let ghost tr = *self;
        let mut acc: usize = 1;
        let mut k: usize = n;
        while k > 0
            invariant
                tr == *self,
                self.wf(),
                self.all_known(),
                forall|m: int|
                    0 <= m <= self.rank() ==> #[trigger] self.stride_suffix(m) <= usize::MAX,
                n == self.rank(),
                k <= n,
                out@.len() == n,
                acc == self.stride_suffix(k as int),
                acc >= 0,
                forall|m: int| k <= m < n ==> out@[m] == self.stride_suffix(m + 1),
            decreases k,
        {
            k = k - 1;
            out.set(k, acc);
            if !self.fake[k] {
                match self.dims[k] {
                    Dim::Known(d) => {
                        proof {
                            assert(self.stride_suffix(k as int) == d * self.stride_suffix(
                                k + 1,
                            ));
                        }
                        acc = d * acc;
                    },
                    Dim::Unknown(_) => {
                        proof {
                            assert(self.dims@[k as int] is Known);
                            assert(false);
                        }
                    },
                }
            }
        }
        out
    }

    /// Per-logical-axis strides: a right-to-left running product of storage
    /// sizes, fake axes skipped, reordered by the logical permutation. Every
    /// dimension must be known.
    pub fn strides(&self) -> (r: Vec<usize>)
        requires
            self.wf(),
            self.all_known(),
            forall|k: int| 0 <= k <= self.rank() ==> #[trigger] self.stride_suffix(k) <= usize::MAX,
        ensures
            r@.len() == self.rank(),
            forall|i: int|
                0 <= i < self.rank() ==> r@[i] == self.stride_suffix(self.indexes@[i] + 1),
    {
        let unordered = self.unordered_strides();
        let mut r: Vec<usize> = Vec::new();
        let mut i: usize = 0;
        while i < self.indexes.len()
            invariant
                self.wf(),
                self.all_known(),
                unordered@.len() == self.rank(),
                forall|k: int| 0 <= k < self.rank() ==> unordered@[k] == self.stride_suffix(k + 1),
                i <= self.rank(),
                r@.len() == i,
                forall|k: int|
                    0 <= k < i ==> r@[k] == self.stride_suffix(self.indexes@[k] + 1),
            decreases self.rank() - i,
        {
            r.push(unordered[self.indexes[i]]);
            i = i + 1;
        }
        r
    }
}

/// Sum over the first `j` non-fake axes of an upper bound on the physical
/// contribution each can make: every coordinate is below the effective
/// extent plus the lower slice bound.
pub open spec fn offset_cap(axes: Seq<AxisModel>, j: int) -> int
    decreases j,
{
    if j <= 0 {
        0
    } else {
        offset_cap(axes, j - 1) + (if axes[j - 1].fake {
            0
        } else {
            (lsize(axes[j - 1]) + axes[j - 1].s0) * axes[j - 1].stride
        })
    }
}

/// Well-formedness of one modelled axis: bounded non-negative fields, a
/// positive effective extent, machine-fitting padded size, and pad/slice
/// coherence (front padding and a lower slice bound never coexist, since
/// slicing consumes front padding first).
pub open spec fn axis_ok(a: AxisModel) -> bool {
    &&& 0 <= a.size <= SLICE_UPPER
    &&& 0 <= a.p0 <= SLICE_UPPER
    &&& 0 <= a.p1 <= SLICE_UPPER
    &&& 0 <= a.s0 <= a.s1 <= SLICE_UPPER
    &&& 0 <= a.stride
    &&& a.size + a.p0 + a.p1 <= usize::MAX
    &&& lsize(a) >= 1
    &&& (a.p0 == 0 || a.s0 == 0)
}

pub open spec fn axes_ok(axes: Seq<AxisModel>) -> bool {
    forall|m: int| 0 <= m < axes.len() ==> axis_ok(#[trigger] axes[m])
}

/// The running divisor is always positive.
pub proof fn lemma_acc_prod_pos(axes: Seq<AxisModel>, j: int)
    requires
        axes_ok(axes),
        j <= axes.len(),
    ensures
        acc_prod(axes, j) >= 1,
    decreases j,
{
    if j > 0 {
        lemma_acc_prod_pos(axes, j - 1);
        assert(acc_prod(axes, j) >= 1) by (nonlinear_arith)
            requires
                acc_prod(axes, j) == acc_prod(axes, j - 1) * lsize(axes[j - 1]),
                acc_prod(axes, j - 1) >= 1,
                lsize(axes[j - 1]) >= 1,
        ;
    }
}

/// The offset cap only grows with the number of axes counted.
pub proof fn lemma_offset_cap_mono(axes: Seq<AxisModel>, j: int, l: int)
    requires
        axes_ok(axes),
        0 <= j <= l <= axes.len(),
    ensures
        offset_cap(axes, j) <= offset_cap(axes, l),
    decreases l - j,
{
    if j < l {
        if !axes[l - 1].fake {
            assert((lsize(axes[l - 1]) + axes[l - 1].s0) * axes[l - 1].stride >= 0)
                by (nonlinear_arith)
                requires
                    lsize(axes[l - 1]) >= 1,
                    axes[l - 1].s0 >= 0,
                    axes[l - 1].stride >= 0,
            ;
        }
        lemma_offset_cap_mono(axes, j, l - 1);
    }
}

/// Per-axis layout data of a compiled indexer, in reverse logical order.
#[derive(Clone, Copy, Debug)]
pub struct IdxAxis {
    pub size: usize,
    pub stride: usize,
    pub padding: (usize, usize),
    pub slice: (usize, usize),
    pub fake: bool,
}

/// Model of one stored axis.
pub open spec fn axm(a: IdxAxis) -> AxisModel {
    AxisModel {
        size: a.size as int,
        stride: a.stride as int,
        p0: a.padding.0 as int,
        p1: a.padding.1 as int,
        s0: a.slice.0 as int,
        s1: a.slice.1 as int,
        fake: a.fake,
    }
}

/// A compiled, read-only view of a shape tracker: per-axis layout tuples in
/// reverse logical order, used for O(rank) flat-index translation.
#[derive(Debug)]
pub struct Indexer {
    pub data: Vec<IdxAxis>,
}

impl Indexer {
    pub open spec fn model(self) -> Seq<AxisModel> {
        self.data@.map_values(|a: IdxAxis| axm(a))
    }

    /// The stored axes are well formed, and the running products and the
    /// total offset bound fit the machine.
    pub open spec fn inv(self) -> bool {
        &&& self.data@.len() <= MAX_DIMS
        &&& axes_ok(self.model())
        &&& forall|j: int|
            0 <= j <= self.model().len() ==> #[trigger] acc_prod(self.model(), j) <= usize::MAX
        &&& offset_cap(self.model(), self.model().len() as int) <= usize::MAX
    }

    /// Translate a logical flat index into a physical one, or report that
    /// the position falls in a padded or sliced-away region.
    pub fn index(&self, logical: usize) -> (r: Option<usize>)
        requires
            self.inv(),
        ensures
            r is Some <==> valid_at(self.model(), logical as int),
            r is Some ==> r->Some_0 == phys_of(self.model(), logical as int),
    {
        let ghost axes = self.model();
        let n = self.data.len();
        let mut ret: usize = 0;
        let mut acc: usize = 1;
        let mut j: usize = 0;
        while j < n
            invariant
                self.inv(),
                axes == self.model(),
                n == self.data@.len(),
                j <= n,
                acc == acc_prod(axes, j as int),
                acc >= 1,
                ret == phys_partial(axes, logical as int, j as int),
                ret <= offset_cap(axes, j as int),
                forall|m: int|
                    0 <= m < j && !(#[trigger] axes[m]).fake ==> low_digit(axes[m]) <= digit_at(
                        axes,
                        logical as int,
                        m,
                    ) < high_digit(axes[m]),
            decreases n - j,
        {
            let a = self.data[j];
            proof {
                assert(axes[j as int] == axm(a));
                assert(axis_ok(axes[j as int]));
                lemma_acc_prod_pos(axes, j + 1);
            }
            let padded = a.size + a.padding.0 + a.padding.1;
            let capped = if padded < a.slice.1 {
                padded
            } else {
                a.slice.1
            };
            let logical_sh = capped - a.slice.0;
            proof {
                assert(logical_sh == lsize(axes[j as int]));
            }
            if !a.fake {
                let dim_ind = (logical / acc) % logical_sh;
                proof {
                    assert(dim_ind == digit_at(axes, logical as int, j as int));
                }
                let upper = if a.size + a.padding.0 < a.slice.1 {
                    a.size + a.padding.0
                } else {
                    a.slice.1
                };
                let lower = if a.padding.0 > a.slice.0 {
                    a.padding.0 - a.slice.0
                } else {
                    0
                };
                proof {
                    assert(upper == high_digit(axes[j as int]));
                    assert(lower == low_digit(axes[j as int]));
                }
                if dim_ind >= upper || dim_ind < lower {
                    proof {
                        assert(!valid_at(axes, logical as int)) by {
                            assert(!(low_digit(axes[j as int]) <= digit_at(
                                axes,
                                logical as int,
                                j as int,
                            ) < high_digit(axes[j as int])));
                        }
                    }
                    return None;
                }
                let c = if a.padding.0 == 0 {
                    dim_ind + a.slice.0
                } else {
                    dim_ind - a.padding.0
                };
                proof {
                    assert(dim_ind < logical_sh);
                    assert(dim_ind + a.slice.0 <= lsize(axes[j as int]) + axes[j as int].s0);
                    assert(c == coord(axes[j as int], dim_ind as int));
                    assert(c * a.stride <= (lsize(axes[j as int]) + axes[j as int].s0) * axes[
                        j as int
                    ].stride) by (nonlinear_arith)
                        requires
                            0 <= c,
                            c <= lsize(axes[j as int]) + axes[j as int].s0,
                            a.stride == axes[j as int].stride,
                            0 <= a.stride,
                    ;
                    assert(offset_cap(axes, j + 1) == offset_cap(axes, j as int) + (lsize(
                        axes[j as int],
                    ) + axes[j as int].s0) * axes[j as int].stride);
                    lemma_offset_cap_mono(axes, j + 1, n as int);
                    assert(ret + c * a.stride <= usize::MAX);
                    assert(phys_partial(axes, logical as int, j + 1) == phys_partial(
                        axes,
                        logical as int,
                        j as int,
                    ) + coord(axes[j as int], digit_at(axes, logical as int, j as int)) * axes[
                        j as int
                    ].stride);
                }
                ret = ret + c * a.stride;
            } else {
                proof {
                    assert(phys_partial(axes, logical as int, j + 1) == phys_partial(
                        axes,
                        logical as int,
                        j as int,
                    ));
                    assert(offset_cap(axes, j + 1) == offset_cap(axes, j as int));
                }
            }
            proof {
                assert(acc_prod(axes, j + 1) == acc_prod(axes, j as int) * lsize(axes[j as int]));
                lemma_acc_prod_pos(axes, j + 1);
            }
            acc = acc * logical_sh;
            j = j + 1;
        }
        Some(ret)
    }
}

impl ShapeTracker {
    /// Model of the axis stored in `slot` when every size is known.
    pub open spec fn axis_model_known(self, slot: int) -> AxisModel {
        AxisModel {
            size: self.dims@[slot]->Known_0 as int,
            stride: self.stride_suffix(slot + 1),
            p0: self.padding@[slot].0 as int,
            p1: self.padding@[slot].1 as int,
            s0: self.slices@[slot].0 as int,
            s1: self.slices@[slot].1 as int,
            fake: self.fake@[slot],
        }
    }

    /// The tracker's axes in reverse logical order, sizes all known.
    pub open spec fn known_axes(self) -> Seq<AxisModel> {
        Seq::new(self.rank(), |j: int| self.axis_model_known(self.indexes@[self.rank() - 1 - j] as int))
    }

    /// A tracker may be compiled to an indexer: every size is known, every
    /// axis is well formed with a positive effective extent, and strides,
    /// running divisors and the offset bound all fit the machine.
    pub open spec fn indexable(self) -> bool {
        &&& self.wf()
        &&& self.all_known()
        &&& forall|k: int| 0 <= k <= self.rank() ==> #[trigger] self.stride_suffix(k) <= usize::MAX
        &&& axes_ok(self.known_axes())
        &&& forall|j: int|
            0 <= j <= self.rank() ==> #[trigger] acc_prod(self.known_axes(), j) <= usize::MAX
        &&& offset_cap(self.known_axes(), self.rank() as int) <= usize::MAX
    }

    /// Build the compiled `Indexer` for this tracker. Every dimension must
    /// be known.
    pub fn indexer(&self) -> (r: Indexer)
        requires
            self.indexable(),
        ensures
            r.inv(),
            r.model() == self.known_axes(),
    {
        let strides = self.unordered_strides();
        let n = self.dims.len();
        let mut data: Vec<IdxAxis> = Vec::new();
        let mut j: usize = 0;
        while j < n
            invariant
                self.indexable(),
                strides@.len() == self.rank(),
                forall|k: int| 0 <= k < self.rank() ==> strides@[k] == self.stride_suffix(k + 1),
                n == self.rank(),
                j <= n,
                data@.len() == j,
                forall|m: int| 0 <= m < j ==> axm(#[trigger] data@[m]) == self.known_axes()[m],
            decreases n - j,
        {
            let pos = n - 1 - j;
            let slot = self.indexes[pos];
            let size = match self.dims[slot] {
                Dim::Known(d) => d,
                Dim::Unknown(_) => {
                    proof {
                        assert(self.dims@[slot as int] is Known);
                        assert(false);
                    }
                    0
                },
            };
            let entry = IdxAxis {
                size,
                stride: strides[slot],
                padding: self.padding[slot],
                slice: self.slices[slot],
                fake: self.fake[slot],
            };
            data.push(entry);
            j = j + 1;
            proof {
                assert(axm(entry) == self.known_axes()[j - 1]);
            }
        }
        let r = Indexer { data };
        proof {
            assert(r.model() =~= self.known_axes());
        }
        r
    }
}

impl ShapeTracker {
    /// Symbolic stride expression of each storage slot: entry `k` evaluates
    /// to the product of the later slots' sizes, fake axes skipped.
    fn stride_expressions(&self) -> (r: Vec<Expr>)
        requires
            self.wf(),
        ensures
            r@.len() == self.rank(),
            forall|k: int, idx: int, env: Map<char, int>|
                0 <= k < self.rank() ==> #[trigger] eval(r@[k], idx, env)
                    == self.stride_suffix_env(env, k + 1),
    {
        let n = self.dims.len();
        let mut out: Vec<Expr> = Vec::new();
        let mut j: usize = 0;
        while j < n
            invariant
                out@.len() == j,
                j <= n,
            decreases n - j,
        {
            out.push(Expr::Int(0));
            j = j + 1;
        }
        let mut acc_e: Expr = e_int(1);
        let mut k: usize = n;
        while k > 0
            invariant
                self.wf(),
                n == self.rank(),
                k <= n,
                out@.len() == n,
                forall|idx: int, env: Map<char, int>|
                    #[trigger] eval(acc_e, idx, env) == self.stride_suffix_env(env, k as int),
                forall|m: int, idx: int, env: Map<char, int>|
                    k <= m < n ==> #[trigger] eval(out@[m], idx, env) == self.stride_suffix_env(
                        env,
                        m + 1,
                    ),
            decreases k,
        {
            k = k - 1;
            out.set(k, acc_e.clone());
            if !self.fake[k] {
                let d_e = match self.dims[k] {
                    Dim::Known(d) => e_int(d),
                    Dim::Unknown(c) => e_var(c),
                };
                proof {
                    assert forall|idx: int, env: Map<char, int>| #[trigger] eval(d_e, idx, env)
                        == dim_val(self.dims@[k as int], env) by {}
                }
                acc_e = e_mul(d_e, acc_e);
                proof {
                    assert forall|idx: int, env: Map<char, int>| #[trigger] eval(acc_e, idx, env)
                        == self.stride_suffix_env(env, k as int) by {
                        assert(self.stride_suffix_env(env, k as int) == dim_val(
                            self.dims@[k as int],
                            env,
                        ) * self.stride_suffix_env(env, k + 1));
                    }
                }
            }
        }
        out
    }

    /// Symbolic expression for the physical offset of the logical-index
    /// variable: under every environment resolving the dimension symbols, it
    /// evaluates to the modelled physical offset.
    pub fn index_expression(&self) -> (r: Expr)
        requires
            self.wf(),
        ensures
            forall|idx: int, env: Map<char, int>| #[trigger] eval(r, idx, env) == phys_of(
                self.axes_model(env),
                idx,
            ),
    {
        let strides = self.stride_expressions();
        let n = self.dims.len();
        let mut ret_e: Expr = e_int(0);
        let mut acc_e: Expr = e_int(1);
        let mut j: usize = 0;
        while j < n
            invariant
                self.wf(),
                n == self.rank(),
                j <= n,
                strides@.len() == n,
                forall|m: int, idx: int, env: Map<char, int>|
                    0 <= m < n ==> #[trigger] eval(strides@[m], idx, env)
                        == self.stride_suffix_env(env, m + 1),
                forall|idx: int, env: Map<char, int>|
                    #[trigger] eval(acc_e, idx, env) == acc_prod(self.axes_model(env), j as int),
                forall|idx: int, env: Map<char, int>|
                    #[trigger] eval(ret_e, idx, env) == phys_partial(
                        self.axes_model(env),
                        idx,
                        j as int,
                    ),
            decreases n - j,
        {
            let pos = n - 1 - j;
            let slot = self.indexes[pos];
            let p0 = self.padding[slot].0;
            let p1 = self.padding[slot].1;
            let s0 = self.slices[slot].0;
            let s1 = self.slices[slot].1;
            let sh_e = match self.dims[slot] {
                Dim::Known(d) => e_int(d),
                Dim::Unknown(c) => e_var(c),
            };
            proof {
                assert forall|idx: int, env: Map<char, int>| #[trigger] eval(sh_e, idx, env)
                    == dim_val(self.dims@[slot as int], env) by {}
            }
            let lsh_e = e_sub(
                e_min(e_add(e_add(sh_e, e_int(p0)), e_int(p1)), e_int(s1)),
                e_int(s0),
            );
            proof {
                assert forall|idx: int, env: Map<char, int>| #[trigger] eval(lsh_e, idx, env)
                    == lsize(self.axes_model(env)[j as int]) by {
                    assert(self.axes_model(env)[j as int] == self.axis_model(env, slot as int));
                }
            }
            if !self.fake[slot] {
                let dim_ind_e = e_mod(e_div(e_idx(), acc_e.clone()), lsh_e.clone());
                proof {
                    assert forall|idx: int, env: Map<char, int>|
                        #[trigger] eval(dim_ind_e, idx, env) == digit_at(
                        self.axes_model(env),
                        idx,
                        j as int,
                    ) by {
                        assert(eval(acc_e, idx, env) == acc_prod(self.axes_model(env), j as int));
                        assert(eval(lsh_e, idx, env) == lsize(self.axes_model(env)[j as int]));
                    }
                }
                let sat = if s0 > p0 {
                    s0 - p0
                } else {
                    0
                };
                let stride_e = strides[slot].clone();
                let term = e_mul(e_add(e_sub(dim_ind_e, e_int(p0)), e_int(sat)), stride_e);
                let ghost prev_ret = ret_e;
                ret_e = e_add(ret_e, term);
                proof {
                    assert forall|idx: int, env: Map<char, int>| #[trigger] eval(ret_e, idx, env)
                        == phys_partial(self.axes_model(env), idx, j + 1) by {
                        let axes = self.axes_model(env);
                        let am = axes[j as int];
                        assert(am == self.axis_model(env, slot as int));
                        assert(eval(term, idx, env) == coord(am, digit_at(axes, idx, j as int))
                            * am.stride);
                        assert(eval(prev_ret, idx, env) == phys_partial(axes, idx, j as int));
                        assert(phys_partial(axes, idx, j + 1) == phys_partial(axes, idx, j as int)
                            + coord(am, digit_at(axes, idx, j as int)) * am.stride);
                    }
                }
            } else {
                proof {
                    assert forall|idx: int, env: Map<char, int>| #[trigger] eval(ret_e, idx, env)
                        == phys_partial(self.axes_model(env), idx, j + 1) by {
                        let axes = self.axes_model(env);
                        assert(axes[j as int] == self.axis_model(env, slot as int));
                        assert(phys_partial(axes, idx, j + 1) == phys_partial(
                            axes,
                            idx,
                            j as int,
                        ));
                    }
                }
            }
            let ghost prev_acc = acc_e;
            acc_e = e_mul(acc_e, lsh_e);
            proof {
                assert forall|idx: int, env: Map<char, int>| #[trigger] eval(acc_e, idx, env)
                    == acc_prod(self.axes_model(env), j + 1) by {
                    let axes = self.axes_model(env);
                    assert(axes[j as int] == self.axis_model(env, slot as int));
                    assert(eval(prev_acc, idx, env) == acc_prod(axes, j as int));
                    assert(acc_prod(axes, j + 1) == acc_prod(axes, j as int) * lsize(
                        axes[j as int],
                    ));
                }
            }
            j = j + 1;
        }
        proof {
            assert forall|idx: int, env: Map<char, int>| #[trigger] eval(ret_e, idx, env)
                == phys_of(self.axes_model(env), idx) by {
                assert(self.axes_model(env).len() == n);
            }
        }
        ret_e
    }

    /// Symbolic validity expression for the logical-index variable: under
    /// every environment it evaluates to a non-zero value exactly when the
    /// logical index maps into stored data on every non-fake axis.
    pub fn valid_expression(&self) -> (r: Expr)
        requires
            self.wf(),
        ensures
            forall|idx: int, env: Map<char, int>|
                ((#[trigger] eval(r, idx, env)) != 0) == valid_at(self.axes_model(env), idx),
    {
        let n = self.dims.len();
        let mut ret_e: Expr = e_int(1);
        let mut acc_e: Expr = e_int(1);
        let mut j: usize = 0;
        while j < n
            invariant
                self.wf(),
                n == self.rank(),
                j <= n,
                forall|idx: int, env: Map<char, int>|
                    #[trigger] eval(acc_e, idx, env) == acc_prod(self.axes_model(env), j as int),
                forall|idx: int, env: Map<char, int>|
                    ((#[trigger] eval(ret_e, idx, env)) != 0) == (forall|m: int|
                        0 <= m < j && !(#[trigger] self.axes_model(env)[m]).fake ==> low_digit(
                            self.axes_model(env)[m],
                        ) <= digit_at(self.axes_model(env), idx, m) < high_digit(
                            self.axes_model(env)[m],
                        )),
            decreases n - j,
        {
            let pos = n - 1 - j;
            let slot = self.indexes[pos];
            let p0 = self.padding[slot].0;
            let p1 = self.padding[slot].1;
            let s0 = self.slices[slot].0;
            let s1 = self.slices[slot].1;
            let sh_e = match self.dims[slot] {
                Dim::Known(d) => e_int(d),
                Dim::Unknown(c) => e_var(c),
            };
            proof {
                assert forall|idx: int, env: Map<char, int>| #[trigger] eval(sh_e, idx, env)
                    == dim_val(self.dims@[slot as int], env) by {}
            }
            let lsh_e = e_sub(
                e_min(e_add(e_add(sh_e.clone(), e_int(p0)), e_int(p1)), e_int(s1)),
                e_int(s0),
            );
            proof {
                assert forall|idx: int, env: Map<char, int>| #[trigger] eval(lsh_e, idx, env)
                    == lsize(self.axes_model(env)[j as int]) by {
                    assert(self.axes_model(env)[j as int] == self.axis_model(env, slot as int));
                }
            }
            if !self.fake[slot] {
                let dim_ind_e = e_mod(e_div(e_idx(), acc_e.clone()), lsh_e.clone());
                proof {
                    assert forall|idx: int, env: Map<char, int>|
                        #[trigger] eval(dim_ind_e, idx, env) == digit_at(
                        self.axes_model(env),
                        idx,
                        j as int,
                    ) by {
                        assert(eval(acc_e, idx, env) == acc_prod(self.axes_model(env), j as int));
                        assert(eval(lsh_e, idx, env) == lsize(self.axes_model(env)[j as int]));
                    }
                }
                let low = if p0 > s0 {
                    p0 - s0
                } else {
                    0
                };
                let high_e = e_min(e_add(sh_e, e_int(p0)), e_int(s1));
                proof {
                    assert forall|idx: int, env: Map<char, int>| #[trigger] eval(high_e, idx, env)
                        == high_digit(self.axes_model(env)[j as int]) by {
                        assert(self.axes_model(env)[j as int] == self.axis_model(
                            env,
                            slot as int,
                        ));
                    }
                }
                let ghost prev_ret = ret_e;
                let ghost g_dim = dim_ind_e;
                ret_e = e_and(
                    e_and(ret_e, e_gte(dim_ind_e.clone(), e_int(low))),
                    e_lt(dim_ind_e, high_e),
                );
                proof {
                    assert forall|idx: int, env: Map<char, int>|
                        ((#[trigger] eval(ret_e, idx, env)) != 0) == (forall|m: int|
                            0 <= m < j + 1 && !(#[trigger] self.axes_model(env)[m]).fake
                                ==> low_digit(self.axes_model(env)[m]) <= digit_at(
                                self.axes_model(env),
                                idx,
                                m,
                            ) < high_digit(self.axes_model(env)[m])) by {
                        let axes = self.axes_model(env);
                        let am = axes[j as int];
                        assert(am == self.axis_model(env, slot as int));
                        assert(low == low_digit(am));
                        assert(eval(g_dim, idx, env) == digit_at(axes, idx, j as int));
                        assert((eval(ret_e, idx, env) != 0) == ((eval(prev_ret, idx, env) != 0
                            && low_digit(am) <= digit_at(axes, idx, j as int)) && digit_at(
                            axes,
                            idx,
                            j as int,
                        ) < high_digit(am)));
                        if eval(ret_e, idx, env) != 0 {
                            assert forall|m: int|
                                0 <= m < j + 1 && !(#[trigger] axes[m]).fake implies low_digit(
                                axes[m],
                            ) <= digit_at(axes, idx, m) < high_digit(axes[m]) by {
                                if m < j {
                                    assert(eval(prev_ret, idx, env) != 0);
                                }
                            }
                        } else {
                            if eval(prev_ret, idx, env) == 0 {
                                assert(!(forall|m: int|
                                    0 <= m < j && !(#[trigger] axes[m]).fake ==> low_digit(
                                        axes[m],
                                    ) <= digit_at(axes, idx, m) < high_digit(axes[m])));
                            }
                        }
                    }
                }
            } else {
                proof {
                    assert forall|idx: int, env: Map<char, int>|
                        ((#[trigger] eval(ret_e, idx, env)) != 0) == (forall|m: int|
                            0 <= m < j + 1 && !(#[trigger] self.axes_model(env)[m]).fake
                                ==> low_digit(self.axes_model(env)[m]) <= digit_at(
                                self.axes_model(env),
                                idx,
                                m,
                            ) < high_digit(self.axes_model(env)[m])) by {
                        let axes = self.axes_model(env);
                        assert(axes[j as int] == self.axis_model(env, slot as int));
                        assert(axes[j as int].fake);
                    }
                }
            }
            let ghost prev_acc = acc_e;
            acc_e = e_mul(acc_e, lsh_e);
            proof {
                assert forall|idx: int, env: Map<char, int>| #[trigger] eval(acc_e, idx, env)
                    == acc_prod(self.axes_model(env), j + 1) by {
                    let axes = self.axes_model(env);
                    assert(axes[j as int] == self.axis_model(env, slot as int));
                    assert(eval(prev_acc, idx, env) == acc_prod(axes, j as int));
                    assert(acc_prod(axes, j + 1) == acc_prod(axes, j as int) * lsize(
                        axes[j as int],
                    ));
                }
            }
            j = j + 1;
        }
        proof {
            assert forall|idx: int, env: Map<char, int>|
                ((#[trigger] eval(ret_e, idx, env)) != 0) == valid_at(
                self.axes_model(env),
                idx,
            ) by {
                assert(self.axes_model(env).len() == n);
            }
        }
        ret_e
    }
}

proof fn lemma_stride_suffix_nonneg(t: ShapeTracker, k: int)
    requires
        t.wf(),
        t.all_known(),
        0 <= k,
    ensures
        t.stride_suffix(k) >= 0,
    decreases t.rank() - k,
{
    if k < t.rank() {
        lemma_stride_suffix_nonneg(t, k + 1);
        assert(t.dims@[k] is Known);
        let f: int = if t.fake@[k] {
            1
        } else {
            t.dims@[k]->Known_0 as int
        };
        assert(t.stride_suffix(k) == f * t.stride_suffix(k + 1));
        assert(f * t.stride_suffix(k + 1) >= 0) by (nonlinear_arith)
            requires
                f >= 0,
                t.stride_suffix(k + 1) >= 0,
        ;
    }
}

impl ShapeTracker {
    /// Whether the five per-axis records satisfy the structural invariant.
    pub fn check_wf(&self) -> (r: bool)
        ensures
            r == self.wf(),
    {
        let n = self.dims.len();
        if n > MAX_DIMS || self.indexes.len() != n || self.fake.len() != n || self.slices.len()
            != n || self.padding.len() != n {
            return false;
        }
        let mut i: usize = 0;
        while i < n
            invariant
                n == self.dims@.len(),
                self.indexes@.len() == n,
                self.slices@.len() == n,
                self.padding@.len() == n,
                i <= n,
                forall|k: int| 0 <= k < i ==> self.indexes@[k] < n,
                forall|k: int| 0 <= k < i ==> #[trigger] dim_bounded(self.dims@[k]),
                forall|k: int|
                    0 <= k < i ==> (#[trigger] self.slices@[k]).0 <= self.slices@[k].1
                        <= SLICE_UPPER,
                forall|k: int|
                    0 <= k < i ==> (#[trigger] self.padding@[k]).0 <= SLICE_UPPER
                        && self.padding@[k].1 <= SLICE_UPPER,
            decreases n - i,
        {
            if self.indexes[i] >= n {
                return false;
            }
            match self.dims[i] {
                Dim::Known(d) => {
                    if d > SLICE_UPPER {
                        proof {
                            assert(!dim_bounded(self.dims@[i as int]));
                        }
                        return false;
                    }
                },
                Dim::Unknown(_) => {},
            }
            let (s0, s1) = self.slices[i];
            if s0 > s1 || s1 > SLICE_UPPER {
                return false;
            }
            let (p0, p1) = self.padding[i];
            if p0 > SLICE_UPPER || p1 > SLICE_UPPER {
                return false;
            }
            i = i + 1;
        }
        let mut i: usize = 0;
        while i < n
            invariant
                n == self.dims@.len(),
                self.indexes@.len() == n,
                i <= n,
                forall|a: int, b: int| 0 <= a < b < i ==> self.indexes@[a] != self.indexes@[b],
            decreases n - i,
        {
            let mut j: usize = 0;
            while j < i
                invariant
                    n == self.dims@.len(),
                    self.indexes@.len() == n,
                    j <= i < n,
                    forall|a: int, b: int| 0 <= a < b < i ==> self.indexes@[a] != self.indexes@[
                        b
                    ],
                    forall|a: int| 0 <= a < j ==> self.indexes@[a] != self.indexes@[i as int],
                decreases i - j,
            {
                if self.indexes[j] == self.indexes[i] {
                    return false;
                }
                j = j + 1;
            }
            i = i + 1;
        }
        true
    }

    /// Whether the tracker can be compiled to an indexer: an executable
    /// test of `indexable`, for callers that cannot carry the proof.
    pub fn is_indexable(&self) -> (r: bool)
        ensures
            r == self.indexable(),
    {
        if !self.check_wf() {
            return false;
        }
        let n = self.dims.len();
        let mut i: usize = 0;
        while i < n
            invariant
                self.wf(),
                n == self.rank(),
                i <= n,
                forall|k: int| 0 <= k < i ==> (#[trigger] self.dims@[k]) is Known,
            decreases n - i,
        {
            match self.dims[i] {
                Dim::Known(_) => {},
                Dim::Unknown(_) => {
                    return false;
                },
            }
            i = i + 1;
        }
        let cap: u128 = usize::MAX as u128;
        let mut acc: u128 = 1;
        let mut k: usize = n;
        while k > 0
            invariant
                self.wf(),
                self.all_known(),
                n == self.rank(),
                k <= n,
                acc == self.stride_suffix(k as int),
                acc <= cap,
                cap == usize::MAX as u128,
                forall|m: int|
                    k <= m <= n ==> #[trigger] self.stride_suffix(m) <= usize::MAX,
            decreases k,
        {
            k = k - 1;
            if !self.fake[k] {
                let d = match self.dims[k] {
                    Dim::Known(d) => d,
                    Dim::Unknown(_) => {
                        proof {
                            assert(self.dims@[k as int] is Known);
                            assert(false);
                        }
                        0
                    },
                };
                proof {
                    assert(dim_bounded(self.dims@[k as int]));
                    assert((d as u128) * acc <= u128::MAX) by (nonlinear_arith)
                        requires
                            d <= SLICE_UPPER,
                            acc <= usize::MAX as u128,
                    ;
                    assert(self.stride_suffix(k as int) == d * self.stride_suffix(k + 1));
                }
                let prod: u128 = (d as u128) * acc;
                if prod > cap {
                    proof {
                        assert(self.stride_suffix(k as int) > usize::MAX);
                    }
                    return false;
                }
                acc = prod;
            }
        }
        proof {
            assert(forall|m: int|
                0 <= m <= self.rank() ==> #[trigger] self.stride_suffix(m) <= usize::MAX);
        }
        let strides = self.unordered_strides();
        let ghost axes = self.known_axes();
        let mut acc2: u128 = 1;
        let mut total: u128 = 0;
        let mut j: usize = 0;
        while j < n
            invariant
                self.wf(),
                self.all_known(),
                forall|m: int|
                    0 <= m <= self.rank() ==> #[trigger] self.stride_suffix(m) <= usize::MAX,
                strides@.len() == self.rank(),
                forall|m: int| 0 <= m < self.rank() ==> strides@[m] == self.stride_suffix(m + 1),
                axes == self.known_axes(),
                n == self.rank(),
                j <= n,
                cap == usize::MAX as u128,
                forall|m: int| 0 <= m < j ==> axis_ok(#[trigger] axes[m]),
                acc2 == acc_prod(axes, j as int),
                acc2 <= cap,
                forall|m: int| 0 <= m <= j ==> #[trigger] acc_prod(axes, m) <= usize::MAX,
                total == offset_cap(axes, j as int),
                total <= cap,
            decreases n - j,
        {
            let pos = n - 1 - j;
            let slot = self.indexes[pos];
            let size = match self.dims[slot] {
                Dim::Known(d) => d,
                Dim::Unknown(_) => {
                    proof {
                        assert(self.dims@[slot as int] is Known);
                        assert(false);
                    }
                    0
                },
            };
            let (p0, p1) = self.padding[slot];
            let (s0, s1) = self.slices[slot];
            let stride = strides[slot];
            let ghost am = axes[j as int];
            proof {
                assert(am == self.axis_model_known(slot as int));
                assert(dim_bounded(self.dims@[slot as int]));
                lemma_stride_suffix_nonneg(*self, slot + 1);
            }
            let padded: u128 = size as u128 + p0 as u128 + p1 as u128;
            if padded > cap {
                proof {
                    assert(!axis_ok(am));
                }
                return false;
            }
            let capped: u128 = if padded < s1 as u128 {
                padded
            } else {
                s1 as u128
            };
            if capped < s0 as u128 + 1 {
                proof {
                    assert(lsize(am) < 1);
                    assert(!axis_ok(am));
                }
                return false;
            }
            if p0 != 0 && s0 != 0 {
                proof {
                    assert(!axis_ok(am));
                }
                return false;
            }
            let lsz: u128 = capped - s0 as u128;
            proof {
                assert(lsz == lsize(am));
                assert(axis_ok(am));
                assert(lsz <= SLICE_UPPER as u128 + 1);
                assert(acc2 * lsz <= u128::MAX) by (nonlinear_arith)
                    requires
                        acc2 <= usize::MAX as u128,
                        lsz <= SLICE_UPPER as u128 + 1,
                ;
                assert(acc_prod(axes, j + 1) == acc_prod(axes, j as int) * lsize(am));
            }
            let nacc: u128 = acc2 * lsz;
            if nacc > cap {
                proof {
                    assert(acc_prod(axes, j + 1) > usize::MAX);
                }
                return false;
            }
            acc2 = nacc;
            if !self.fake[slot] {
                proof {
                    assert((lsz + s0 as u128) * (stride as u128) <= u128::MAX)
                        by (nonlinear_arith)
                        requires
                            lsz + (s0 as u128) <= 2 * (SLICE_UPPER as u128) + 1,
                            stride <= usize::MAX,
                    ;
                    assert(offset_cap(axes, j + 1) == offset_cap(axes, j as int) + (lsize(am)
                        + am.s0) * am.stride);
                }
                let term: u128 = (lsz + s0 as u128) * (stride as u128);
                if term > cap || total > cap - term {
                    proof {
                        assert((lsize(am) + am.s0) * am.stride >= 0) by (nonlinear_arith)
                            requires
                                lsize(am) >= 1,
                                am.s0 >= 0,
                                am.stride >= 0,
                        ;
                        assert(offset_cap(axes, j + 1) > usize::MAX);
                        if axes_ok(axes) {
                            lemma_offset_cap_mono(axes, j + 1, axes.len() as int);
                            assert(offset_cap(axes, self.rank() as int) > usize::MAX);
                        }
                        assert(!self.indexable());
                    }
                    return false;
                }
                total = total + term;
            } else {
                proof {
                    assert(offset_cap(axes, j + 1) == offset_cap(axes, j as int));
                }
            }
            j = j + 1;
        }
        true
    }
}

impl ShapeTracker {
    /// Whether the logical element count can be computed: an executable
    /// test of `n_elements`' precondition, for callers that cannot carry
    /// the proof.
    pub fn can_count_elements(&self) -> (r: bool)
        ensures
            r == (self.wf() && self.padded_fit() && (forall|i: int|
                0 <= i < self.rank() ==> #[trigger] self.n_elements_factor(i) >= 0) && (forall|
                k: int,
            |
                0 <= k <= self.rank() ==> #[trigger] self.n_elements_prefix(k) <= usize::MAX)),
    {
        if !self.check_wf() {
            return false;
        }
        let n = self.dims.len();
        let cap: u128 = usize::MAX as u128;
        let mut t: usize = 0;
        while t < n
            invariant
                self.wf(),
                n == self.rank(),
                t <= n,
                cap == usize::MAX as u128,
                forall|m: int|
                    0 <= m < t ==> ((#[trigger] self.dims@[m]) is Known
                        ==> self.dims@[m]->Known_0 + self.padding@[m].0 + self.padding@[m].1
                        <= usize::MAX),
            decreases n - t,
        {
            match self.dims[t] {
                Dim::Known(d) => {
                    let (p0, p1) = self.padding[t];
                    if d as u128 + p0 as u128 + p1 as u128 > cap {
                        proof {
                            assert(!self.padded_fit());
                        }
                        return false;
                    }
                },
                Dim::Unknown(_) => {},
            }
            t = t + 1;
        }
        proof {
            assert(self.padded_fit());
        }
        let mut prefix: u128 = 1;
        let mut i: usize = 0;
        while i < n
            invariant
                self.wf(),
                self.padded_fit(),
                n == self.rank(),
                i <= n,
                cap == usize::MAX as u128,
                forall|m: int| 0 <= m < i ==> #[trigger] self.n_elements_factor(m) >= 0,
                prefix == self.n_elements_prefix(i as int),
                forall|m: int|
                    0 <= m <= i ==> #[trigger] self.n_elements_prefix(m) <= usize::MAX,
            decreases n - i,
        {
            let slot = self.indexes[i];
            let factor: u128 = match self.dims[slot] {
                Dim::Known(d) => {
                    proof {
                        assert(dim_bounded(self.dims@[slot as int]));
                        assert((self.slices@[slot as int]).0 <= self.slices@[slot as int].1
                            <= SLICE_UPPER);
                        assert((self.padding@[slot as int]).0 <= SLICE_UPPER && self.padding@[
                            slot as int
                        ].1 <= SLICE_UPPER);
                    }
                    let (p0, p1) = self.padding[slot];
                    let (s0, s1) = self.slices[slot];
                    let padded: u128 = d as u128 + p0 as u128 + p1 as u128;
                    let capped: u128 = if padded < s1 as u128 {
                        padded
                    } else {
                        s1 as u128
                    };
                    if capped < s0 as u128 {
                        proof {
                            assert(self.n_elements_factor(i as int) < 0);
                        }
                        return false;
                    }
                    capped - s0 as u128
                },
                Dim::Unknown(_) => 0,
            };
            proof {
                assert(factor == self.n_elements_factor(i as int));
                assert(self.n_elements_prefix(i + 1) == self.n_elements_prefix(i as int)
                    * self.n_elements_factor(i as int));
                assert(prefix * factor <= u128::MAX) by (nonlinear_arith)
                    requires
                        prefix <= usize::MAX as u128,
                        factor <= 3 * (SLICE_UPPER as u128),
                ;
            }
            let next: u128 = prefix * factor;
            if next > cap {
                proof {
                    assert(self.n_elements_prefix(i + 1) > usize::MAX);
                }
                return false;
            }
            prefix = next;
            i = i + 1;
        }
        true
    }
}

/// With every dimension known, the modelled axes do not depend on the
/// environment.
pub proof fn lemma_axes_model_env_irrelevant(t: ShapeTracker, env: Map<char, int>)
    requires
        t.wf(),
        t.all_known(),
    ensures
        t.axes_model(env) == t.known_axes(),
{
    assert forall|j: int| 0 <= j < t.rank() implies t.axes_model(env)[j] == t.known_axes()[j] by {
        let slot = t.indexes@[t.rank() - 1 - j] as int;
        assert(t.dims@[slot] is Known);
        lemma_stride_suffix_env_known(t, env, slot + 1);
    }
    assert(t.axes_model(env) =~= t.known_axes());
}

} // verus!
